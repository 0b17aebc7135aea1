//! The data model: instruction steps, debug nodes, and the recorded
//! call-trace tree that the flattener consumes.

use vstd::prelude::*;

verus! {

/// The kind of call that created a frame.
#[derive(Debug, Clone, Copy, PartialEq, Eq, Structural)]
pub enum CallKind {
    Call,
    DelegateCall,
    StaticCall,
    Create,
    Create2,
    Other,
}

impl CallKind {
    /// Whether the frame was created by a contract-creation call.
    pub open spec fn is_any_create_spec(&self) -> bool {
        *self is Create || *self is Create2
    }

    pub fn is_any_create(&self) -> (r: bool)
        ensures
            r == self.is_any_create_spec(),
    {
        match self {
            CallKind::Create => true,
            CallKind::Create2 => true,
            _ => false,
        }
    }
}

/// How a recorded storage access touched the slot.
#[derive(Debug, Clone, Copy, PartialEq, Eq, Structural)]
pub enum StorageAccessReason {
    Sload,
    Sstore,
}

/// A change to one storage slot, recorded with a step.
#[derive(Debug, Clone, PartialEq, Eq)]
pub struct FlatStorageChange {
    /// Key of the storage slot, as a hex string.
    pub key: String,
    /// Value of the slot after the step.
    pub value: String,
    /// Value of the slot before the step, if recorded.
    pub had_value: Option<String>,
    /// How the slot was accessed.
    pub reason: StorageAccessReason,
}

/// A decoded source-level internal function call.
#[derive(Debug, Clone, PartialEq, Eq)]
pub struct FlatDecodedInternalCall {
    /// Name of the internal function.
    pub func_name: String,
    /// Decoded input arguments, if any.
    pub args: Option<Vec<String>>,
    /// Decoded return data, if any.
    pub return_data: Option<Vec<String>>,
}

/// An optional higher-level reading of a step.
#[derive(Debug, Clone, PartialEq, Eq)]
pub enum FlatDecodedTraceStep {
    /// A decoded internal call, with the index of the step where the
    /// call returns.
    InternalCall { decoded_internal_call: FlatDecodedInternalCall, call_idx: usize },
    /// An arbitrary display line representing the step.
    Line(String),
}

/// One executed low-level instruction.
#[derive(Debug, Clone, PartialEq, Eq)]
pub struct FlatCallTraceStep {
    /// Call depth recorded with the step.
    pub depth: u64,
    /// Program counter before the step executes.
    pub pc: usize,
    /// The opcode byte.
    pub op: u8,
    /// Index of the code section holding the instruction, for
    /// multi-section bytecode.
    pub code_section_idx: usize,
    /// Executing contract address, as a hex string.
    pub contract: String,
    /// Stack before the step executes, as hex strings.
    pub stack: Option<Vec<String>>,
    /// Stack items the step pushes, as hex strings.
    pub push_stack: Option<Vec<String>>,
    /// Memory before the step executes, as a hex string.
    pub memory: Option<String>,
    /// Return data before the step executes.
    pub returndata: String,
    /// Remaining gas before the step executes.
    pub gas_remaining: u64,
    /// Gas refund counter before the step executes.
    pub gas_refund_counter: u64,
    /// Total gas used before the step executes.
    pub gas_used: u64,
    /// Gas cost of the step.
    pub gas_cost: u64,
    /// Storage change performed by the step, if any.
    pub storage_change: Option<FlatStorageChange>,
    /// Instruction result status, if recorded.
    pub status: Option<u8>,
    /// Immediate operand bytes embedded after the opcode; `None` for
    /// opcodes with no embedded operand.
    pub immediate_bytes: Option<Vec<u8>>,
    /// Optional decoded higher-level step.
    pub decoded: Option<FlatDecodedTraceStep>,
}

impl FlatCallTraceStep {
    /// How many operand bytes follow the opcode in the bytecode.
    pub open spec fn immediate_len_spec(&self) -> int {
        if self.immediate_bytes is Some {
            self.immediate_bytes->0@.len() as int
        } else {
            0
        }
    }

    pub fn immediate_len(&self) -> (r: usize)
        ensures
            r as int == self.immediate_len_spec(),
    {
        match &self.immediate_bytes {
            Some(b) => b.len(),
            None => 0,
        }
    }
}

/// One contiguous, non-empty run of instruction steps belonging to a
/// single call frame, as emitted by the trace flattener.
#[derive(Debug, Clone, PartialEq, Eq)]
pub struct FlatDebugNode {
    /// Execution context address, as a hex string.
    pub address: String,
    /// The kind of call that created the frame.
    pub kind: CallKind,
    /// Calldata supplied to the frame; empty for creation frames, whose
    /// input is modeled elsewhere.
    pub calldata: Vec<u8>,
    /// The steps this node covers, in execution order.
    pub steps: Vec<FlatCallTraceStep>,
}

/// The mathematical shape of a debug node.
#[verifier::ext_equal]
pub ghost struct DebugNodeView {
    pub address: Seq<char>,
    pub kind: CallKind,
    pub calldata: Seq<u8>,
    pub steps: Seq<FlatCallTraceStep>,
}

impl View for FlatDebugNode {
    type V = DebugNodeView;

    open spec fn view(&self) -> DebugNodeView {
        DebugNodeView {
            address: self.address@,
            kind: self.kind,
            calldata: self.calldata@,
            steps: self.steps@,
        }
    }
}

/// One event in a frame's recorded ordering.
#[derive(Debug, Clone, Copy, PartialEq, Eq, Structural)]
pub enum TraceEvent {
    /// The frame's child call in the named slot starts here.
    Call(usize),
    /// One instruction of this frame executes here.
    Step,
    /// A recorded event the flattener does not consume, such as a log.
    Other,
}

/// One recorded call frame of the trace tree.
#[derive(Debug, Clone, PartialEq, Eq)]
pub struct TraceNode {
    /// Frame target address, as a hex string.
    pub address: String,
    /// The kind of call that created the frame.
    pub kind: CallKind,
    /// Calldata supplied to the frame.
    pub calldata: Vec<u8>,
    /// The frame's own executed instructions, in order.
    pub steps: Vec<FlatCallTraceStep>,
    /// Arena indices of the frame's child calls, in creation order.
    pub children: Vec<usize>,
    /// How the frame's own steps interleave with its child calls.
    pub ordering: Vec<TraceEvent>,
}

/// The mathematical shape of a trace node.
#[verifier::ext_equal]
pub ghost struct TraceNodeView {
    pub address: Seq<char>,
    pub kind: CallKind,
    pub calldata: Seq<u8>,
    pub steps: Seq<FlatCallTraceStep>,
    pub children: Seq<usize>,
    pub ordering: Seq<TraceEvent>,
}

impl View for TraceNode {
    type V = TraceNodeView;

    open spec fn view(&self) -> TraceNodeView {
        TraceNodeView {
            address: self.address@,
            kind: self.kind,
            calldata: self.calldata@,
            steps: self.steps@,
            children: self.children@,
            ordering: self.ordering@,
        }
    }
}

/// A recorded call-trace tree, nodes held in an arena: the entry frame
/// is the first node, and every child stands after its parent.
#[derive(Debug, Clone, PartialEq, Eq)]
pub struct TraceArena {
    pub nodes: Vec<TraceNode>,
}

impl View for TraceArena {
    type V = Seq<TraceNodeView>;

    open spec fn view(&self) -> Seq<TraceNodeView> {
        self.nodes@.map_values(|n: TraceNode| n@)
    }
}

} // verus!
