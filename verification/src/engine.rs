//! The navigation engine: a cursor over the flattened timeline that
//! implements step-over and step-back, entering and leaving nested
//! calls by classifying opcodes.

use vstd::prelude::*;
use vstd::slice::slice_subrange;
use crate::opcodes::{call_delta, is_call_op, is_terminal_op, is_jump_family, is_jump_op};
use crate::types::{FlatCallTraceStep, FlatDebugNode};

verus! {

/// A discrete navigation request.
#[derive(Debug, Clone, Copy, PartialEq, Eq, Structural)]
pub enum Action {
    Step,
    StepBack,
    StepInto,
    StepOut,
    Continue,
    Stop,
}

/// What can go wrong while building a session or handling an action.
#[derive(Debug, Clone, Copy, PartialEq, Eq, Structural)]
pub enum DebuggerError {
    /// The requested action has no semantics yet.
    UnsupportedAction,
    /// The run produced no non-empty debug node, so there is nothing to
    /// navigate.
    NoExecutedTrace,
    /// A terminal opcode would take the call depth below zero.
    DepthUnderflow,
    /// A call opcode would take the call depth past the machine limit.
    DepthOverflow,
}

/// The navigation cursor: active node, active step within it, and the
/// running call-depth counter.
pub ghost struct Cursor {
    pub node: int,
    pub step: int,
    pub depth: int,
}

/// A timeline the cursor can walk: at least one node, and no node
/// without steps.
pub open spec fn arena_wf(arena: Seq<FlatDebugNode>) -> bool {
    arena.len() > 0 && (forall|i: int|
        0 <= i < arena.len() ==> #[trigger] arena[i].steps@.len() > 0)
}

/// The cursor position one instruction later: the next step of the same
/// node, or the first step of the next node.
pub open spec fn advanced(arena: Seq<FlatDebugNode>, node: int, step: int) -> (int, int) {
    if step + 1 < arena[node].steps@.len() {
        (node, step + 1)
    } else {
        (node + 1, 0)
    }
}

/// The cursor position one instruction earlier: the previous step of
/// the same node, or the last step of the previous node.
pub open spec fn retreated(arena: Seq<FlatDebugNode>, node: int, step: int) -> (int, int) {
    if step > 0 {
        (node, step - 1)
    } else {
        (node - 1, arena[node - 1].steps@.len() - 1)
    }
}

/// Where one step-over action ends, starting at `(node, step, depth)`
/// with entry depth `d0`: on the last node the action is a no-op;
/// otherwise the opcode under the cursor is classified, the cursor
/// advances, and the walk continues while the depth is above `d0`, so a
/// call that was entered is skipped until control returns.
pub open spec fn step_iter(
    arena: Seq<FlatDebugNode>,
    node: int,
    step: int,
    depth: int,
    d0: int,
) -> Result<Cursor, DebuggerError>
    decreases arena.len() - node, arena[node].steps@.len() - step,
        when arena_wf(arena) && 0 <= node < arena.len() && 0 <= step < arena[node].steps@.len()
{
    if node >= arena.len() - 1 {
        Ok(Cursor { node, step, depth })
    } else {
        let d2 = depth + call_delta(arena[node].steps@[step].op);
        if d2 < 0 {
            Err(DebuggerError::DepthUnderflow)
        } else if d2 > usize::MAX as int {
            Err(DebuggerError::DepthOverflow)
        } else {
            let nxt = advanced(arena, node, step);
            if d0 >= d2 {
                Ok(Cursor { node: nxt.0, step: nxt.1, depth: d2 })
            } else {
                step_iter(arena, nxt.0, nxt.1, d2, d0)
            }
        }
    }
}

/// Where one step-back action ends: the mirror of `step_iter`. At the
/// very first instruction the action is a no-op; otherwise the opcode
/// under the cursor is classified with the depth change inverted, the
/// cursor retreats, and the walk continues while the depth is below
/// `d0`.
pub open spec fn back_iter(
    arena: Seq<FlatDebugNode>,
    node: int,
    step: int,
    depth: int,
    d0: int,
) -> Result<Cursor, DebuggerError>
    decreases node, step,
        when arena_wf(arena) && 0 <= node < arena.len() && 0 <= step < arena[node].steps@.len()
{
    if node == 0 && step == 0 {
        Ok(Cursor { node, step, depth })
    } else {
        let d2 = depth - call_delta(arena[node].steps@[step].op);
        if d2 < 0 {
            Err(DebuggerError::DepthUnderflow)
        } else if d2 > usize::MAX as int {
            Err(DebuggerError::DepthOverflow)
        } else {
            let prv = retreated(arena, node, step);
            if d0 <= d2 {
                Ok(Cursor { node: prv.0, step: prv.1, depth: d2 })
            } else {
                back_iter(arena, prv.0, prv.1, d2, d0)
            }
        }
    }
}

/// What one action does to a cursor.
pub open spec fn action_result(
    arena: Seq<FlatDebugNode>,
    cur: Cursor,
    action: Action,
) -> Result<Cursor, DebuggerError> {
    match action {
        Action::Step => step_iter(arena, cur.node, cur.step, cur.depth, cur.depth),
        Action::StepBack => back_iter(arena, cur.node, cur.step, cur.depth, cur.depth),
        _ => Err(DebuggerError::UnsupportedAction),
    }
}

/// One debugging session: the immutable flattened timeline and resolved
/// metadata, plus the mutable cursor.
pub struct Context {
    /// The flattened debug nodes, read-only after construction.
    pub debug_arena: Vec<FlatDebugNode>,
    /// Resolved contract address-to-name pairs.
    pub identified_contracts: Vec<(String, String)>,
    /// Resolved source files, as path and text pairs.
    pub contracts_sources: Vec<(String, String)>,
    /// Configured breakpoints: identifier, contract address, line.
    pub breakpoints: Vec<(char, String, u64)>,
    /// Active step index within the active node.
    pub current_step: usize,
    /// Active debug-node index.
    pub call_index: usize,
    /// Running call-depth counter; the entry frame has depth zero.
    pub call_depth: usize,
}

impl Context {
    /// The cursor triple.
    pub open spec fn cursor(&self) -> Cursor {
        Cursor {
            node: self.call_index as int,
            step: self.current_step as int,
            depth: self.call_depth as int,
        }
    }

    /// The cursor references a valid step of a well-formed timeline.
    pub open spec fn wf(&self) -> bool {
        arena_wf(self.debug_arena@) && self.call_index < self.debug_arena@.len()
            && self.current_step < self.debug_arena@[self.call_index as int].steps@.len()
    }
}

/// The session fields an action never changes.
pub open spec fn same_session(a: Context, b: Context) -> bool {
    a.debug_arena == b.debug_arena && a.identified_contracts == b.identified_contracts
        && a.contracts_sources == b.contracts_sources && a.breakpoints == b.breakpoints
}

/// The debugger: one exclusive handle to a session.
pub struct Debugger {
    pub ctx: Context,
}

/// The nodes of `s` that hold at least one step, in order.
pub open spec fn non_empty_nodes(s: Seq<FlatDebugNode>) -> Seq<FlatDebugNode>
    decreases s.len(),
{
    if s.len() == 0 {
        Seq::empty()
    } else {
        let rest = non_empty_nodes(s.drop_last());
        if s.last().steps@.len() > 0 {
            rest.push(s.last())
        } else {
            rest
        }
    }
}

pub proof fn lemma_non_empty_nodes(s: Seq<FlatDebugNode>)
    ensures
        forall|i: int| 0 <= i < non_empty_nodes(s).len()
            ==> #[trigger] non_empty_nodes(s)[i].steps@.len() > 0,
    decreases s.len(),
{
    if s.len() > 0 {
        lemma_non_empty_nodes(s.drop_last());
    }
}

impl Debugger {
    /// Build a session over a flattened timeline.  Wholly empty nodes
    /// are dropped, since they have nothing to display; a run that left
    /// no non-empty node cannot be debugged and is refused outright.
    pub fn new(
        debug_arena: Vec<FlatDebugNode>,
        identified_contracts: Vec<(String, String)>,
        contracts_sources: Vec<(String, String)>,
        breakpoints: Vec<(char, String, u64)>,
    ) -> (r: Result<Debugger, DebuggerError>)
        ensures
            match r {
                Ok(d) => d.ctx.wf() && d.ctx.debug_arena@ == non_empty_nodes(debug_arena@)
                    && d.ctx.cursor() == (Cursor { node: 0, step: 0, depth: 0 })
                    && d.ctx.identified_contracts == identified_contracts
                    && d.ctx.contracts_sources == contracts_sources
                    && d.ctx.breakpoints == breakpoints,
                Err(e) => e == DebuggerError::NoExecutedTrace
                    && non_empty_nodes(debug_arena@).len() == 0,
            },
    {
        let ghost all = debug_arena@;
        let mut kept: Vec<FlatDebugNode> = Vec::new();
        let mut arena = debug_arena;
        let mut i: usize = 0;
        let n = arena.len();
        while i < n
            invariant
                i <= n,
                n == all.len(),
                arena@ == all.subrange(i as int, n as int),
                kept@ == non_empty_nodes(all.subrange(0, i as int)),
            decreases n - i,
        {
            assert(arena@[0] == all[i as int]);
            let node = arena.remove(0);
            let has_steps = node.steps.len() > 0;
            if has_steps {
                kept.push(node);
            }
            let ghost grown = all.subrange(0, i + 1 as int);
            proof {
                assert(grown.drop_last() =~= all.subrange(0, i as int));
                assert(grown.last() == all[i as int]);
            }
            i = i + 1;
            proof {
                assert(arena@ =~= all.subrange(i as int, n as int));
            }
        }
        proof {
            assert(all.subrange(0, n as int) =~= all);
        }
        if kept.len() == 0 {
            return Err(DebuggerError::NoExecutedTrace);
        }
        proof {
            lemma_non_empty_nodes(all);
        }
        Ok(Debugger {
            ctx: Context {
                debug_arena: kept,
                identified_contracts,
                contracts_sources,
                breakpoints,
                current_step: 0,
                call_index: 0,
                call_depth: 0,
            },
        })
    }

    /// The debug node under the cursor.
    pub fn current_call_ctx(&self) -> (r: &FlatDebugNode)
        requires
            self.ctx.wf(),
        ensures
            *r == self.ctx.debug_arena@[self.ctx.call_index as int],
    {
        &self.ctx.debug_arena[self.ctx.call_index]
    }

    /// The debug node before the one under the cursor, or `None` when
    /// the cursor stands on the first node.
    pub fn prev_call_ctx(&self) -> (r: Option<&FlatDebugNode>)
        requires
            self.ctx.wf(),
        ensures
            match r {
                Some(n) => self.ctx.call_index > 0
                    && *n == self.ctx.debug_arena@[self.ctx.call_index as int - 1],
                None => self.ctx.call_index == 0,
            },
    {
        if self.ctx.call_index == 0 {
            None
        } else {
            Some(&self.ctx.debug_arena[self.ctx.call_index - 1])
        }
    }

    /// The steps of the current node still ahead of the cursor,
    /// starting with the instruction the cursor stands on.
    pub fn remaining_steps(&self) -> (r: &[FlatCallTraceStep])
        requires
            self.ctx.wf(),
        ensures
            r@ == self.ctx.debug_arena@[self.ctx.call_index as int].steps@.subrange(
                self.ctx.current_step as int,
                self.ctx.debug_arena@[self.ctx.call_index as int].steps@.len() as int,
            ),
    {
        let node = &self.ctx.debug_arena[self.ctx.call_index];
        slice_subrange(node.steps.as_slice(), self.ctx.current_step, node.steps.len())
    }

    /// How many steps the current node holds.
    pub fn total_steps(&self) -> (r: usize)
        requires
            self.ctx.wf(),
        ensures
            r == self.ctx.debug_arena@[self.ctx.call_index as int].steps@.len(),
    {
        self.ctx.debug_arena[self.ctx.call_index].steps.len()
    }

    /// Whether two consecutive steps represent a control-flow jump: the
    /// preceding opcode transfers control explicitly, or the program
    /// counter does not advance past the previous instruction and its
    /// embedded operand bytes, or the code section changed.
    pub fn is_jmp(step: &FlatCallTraceStep, prev: &FlatCallTraceStep) -> (r: bool)
        ensures
            r == is_jump_between(*prev, *step),
    {
        if is_jump_op(prev.op) {
            true
        } else {
            let imm = prev.immediate_len();
            if (step.pc as u128) != (prev.pc as u128) + 1 + (imm as u128) {
                true
            } else {
                step.code_section_idx != prev.code_section_idx
            }
        }
    }

    /// Step over: advance the cursor, transparently skipping a call
    /// that the current instruction enters.  On the last node this is a
    /// no-op; a depth-counter fault aborts the action and leaves the
    /// cursor where it was.
    pub fn step(&mut self) -> (r: Result<(), DebuggerError>)
        requires
            old(self).ctx.wf(),
        ensures
            final(self).ctx.wf(),
            same_session(old(self).ctx, final(self).ctx),
            match step_iter(
                old(self).ctx.debug_arena@,
                old(self).ctx.call_index as int,
                old(self).ctx.current_step as int,
                old(self).ctx.call_depth as int,
                old(self).ctx.call_depth as int,
            ) {
                Ok(c) => r is Ok && final(self).ctx.cursor() == c,
                Err(e) => r == Err::<(), DebuggerError>(e)
                    && final(self).ctx.cursor() == old(self).ctx.cursor(),
            },
    {
        let ghost arena = self.ctx.debug_arena@;
        let d0 = self.ctx.call_depth;
        let mut ci = self.ctx.call_index;
        let mut cs = self.ctx.current_step;
        let mut d = self.ctx.call_depth;
        let n = self.ctx.debug_arena.len();
        loop
            invariant_except_break
                step_iter(arena, ci as int, cs as int, d as int, d0 as int) == step_iter(
                    arena,
                    old(self).ctx.call_index as int,
                    old(self).ctx.current_step as int,
                    old(self).ctx.call_depth as int,
                    d0 as int,
                ),
            invariant
                arena == self.ctx.debug_arena@,
                arena_wf(arena),
                n == arena.len(),
                ci < n,
                cs < arena[ci as int].steps@.len(),
                self == old(self),
                old(self).ctx.wf(),
                d0 == old(self).ctx.call_depth,
            ensures
                step_iter(
                    arena,
                    old(self).ctx.call_index as int,
                    old(self).ctx.current_step as int,
                    old(self).ctx.call_depth as int,
                    d0 as int,
                ) == Ok::<Cursor, DebuggerError>(
                    Cursor { node: ci as int, step: cs as int, depth: d as int },
                ),
            decreases arena.len() - ci, arena[ci as int].steps@.len() - cs,
        {
            let ghost hci = ci as int;
            let ghost hcs = cs as int;
            let ghost hd = d as int;
            if ci >= n - 1 {
                break;
            }
            let op = self.ctx.debug_arena[ci].steps[cs].op;
            if is_call_op(op) {
                if d == usize::MAX {
                    assert(step_iter(arena, hci, hcs, hd, d0 as int)
                        == Err::<Cursor, DebuggerError>(DebuggerError::DepthOverflow));
                    return Err(DebuggerError::DepthOverflow);
                }
                d = d + 1;
            } else if is_terminal_op(op) {
                if d == 0 {
                    assert(step_iter(arena, hci, hcs, hd, d0 as int)
                        == Err::<Cursor, DebuggerError>(DebuggerError::DepthUnderflow));
                    return Err(DebuggerError::DepthUnderflow);
                }
                d = d - 1;
            }
            let len_i = self.ctx.debug_arena[ci].steps.len();
            if cs + 1 < len_i {
                cs = cs + 1;
            } else {
                ci = ci + 1;
                cs = 0;
            }
            proof {
                assert((ci as int, cs as int) == advanced(arena, hci, hcs));
            }
            if d0 >= d {
                assert(step_iter(arena, hci, hcs, hd, d0 as int)
                    == Ok::<Cursor, DebuggerError>(
                    Cursor { node: ci as int, step: cs as int, depth: d as int },
                ));
                break;
            }
        }
        self.ctx.call_index = ci;
        self.ctx.current_step = cs;
        self.ctx.call_depth = d;
        Ok(())
    }

    /// Step back: the mirror of `step`, retreating the cursor with the
    /// depth changes inverted.  At the first instruction of the first
    /// node this is a no-op.
    pub fn step_back(&mut self) -> (r: Result<(), DebuggerError>)
        requires
            old(self).ctx.wf(),
        ensures
            final(self).ctx.wf(),
            same_session(old(self).ctx, final(self).ctx),
            match back_iter(
                old(self).ctx.debug_arena@,
                old(self).ctx.call_index as int,
                old(self).ctx.current_step as int,
                old(self).ctx.call_depth as int,
                old(self).ctx.call_depth as int,
            ) {
                Ok(c) => r is Ok && final(self).ctx.cursor() == c,
                Err(e) => r == Err::<(), DebuggerError>(e)
                    && final(self).ctx.cursor() == old(self).ctx.cursor(),
            },
    {
        let ghost arena = self.ctx.debug_arena@;
        let d0 = self.ctx.call_depth;
        let mut ci = self.ctx.call_index;
        let mut cs = self.ctx.current_step;
        let mut d = self.ctx.call_depth;
        loop
            invariant_except_break
                back_iter(arena, ci as int, cs as int, d as int, d0 as int) == back_iter(
                    arena,
                    old(self).ctx.call_index as int,
                    old(self).ctx.current_step as int,
                    old(self).ctx.call_depth as int,
                    d0 as int,
                ),
            invariant
                arena == self.ctx.debug_arena@,
                arena_wf(arena),
                ci < arena.len(),
                cs < arena[ci as int].steps@.len(),
                self == old(self),
                old(self).ctx.wf(),
                d0 == old(self).ctx.call_depth,
            ensures
                back_iter(
                    arena,
                    old(self).ctx.call_index as int,
                    old(self).ctx.current_step as int,
                    old(self).ctx.call_depth as int,
                    d0 as int,
                ) == Ok::<Cursor, DebuggerError>(
                    Cursor { node: ci as int, step: cs as int, depth: d as int },
                ),
            decreases ci, cs,
        {
            let ghost hci = ci as int;
            let ghost hcs = cs as int;
            let ghost hd = d as int;
            if ci == 0 && cs == 0 {
                break;
            }
            let op = self.ctx.debug_arena[ci].steps[cs].op;
            if is_call_op(op) {
                if d == 0 {
                    assert(back_iter(arena, hci, hcs, hd, d0 as int)
                        == Err::<Cursor, DebuggerError>(DebuggerError::DepthUnderflow));
                    return Err(DebuggerError::DepthUnderflow);
                }
                d = d - 1;
            } else if is_terminal_op(op) {
                if d == usize::MAX {
                    assert(back_iter(arena, hci, hcs, hd, d0 as int)
                        == Err::<Cursor, DebuggerError>(DebuggerError::DepthOverflow));
                    return Err(DebuggerError::DepthOverflow);
                }
                d = d + 1;
            }
            if cs > 0 {
                cs = cs - 1;
            } else {
                ci = ci - 1;
                cs = self.ctx.debug_arena[ci].steps.len() - 1;
            }
            proof {
                assert((ci as int, cs as int) == retreated(arena, hci, hcs));
            }
            if d0 <= d {
                assert(back_iter(arena, hci, hcs, hd, d0 as int)
                    == Ok::<Cursor, DebuggerError>(
                    Cursor { node: ci as int, step: cs as int, depth: d as int },
                ));
                break;
            }
        }
        self.ctx.call_index = ci;
        self.ctx.current_step = cs;
        self.ctx.call_depth = d;
        Ok(())
    }

    /// Dispatch one action.  The reserved actions have no semantics yet
    /// and report so rather than silently doing nothing.
    pub fn handle_action(&mut self, action: Action) -> (r: Result<(), DebuggerError>)
        requires
            old(self).ctx.wf(),
        ensures
            final(self).ctx.wf(),
            same_session(old(self).ctx, final(self).ctx),
            match action_result(old(self).ctx.debug_arena@, old(self).ctx.cursor(), action) {
                Ok(c) => r is Ok && final(self).ctx.cursor() == c,
                Err(e) => r == Err::<(), DebuggerError>(e)
                    && final(self).ctx.cursor() == old(self).ctx.cursor(),
            },
    {
        match action {
            Action::Step => self.step(),
            Action::StepBack => self.step_back(),
            Action::StepInto => Err(DebuggerError::UnsupportedAction),
            Action::StepOut => Err(DebuggerError::UnsupportedAction),
            Action::Continue => Err(DebuggerError::UnsupportedAction),
            Action::Stop => Err(DebuggerError::UnsupportedAction),
        }
    }
}

/// The jump-detection heuristic, as a predicate on two consecutive
/// steps.
pub open spec fn is_jump_between(prev: FlatCallTraceStep, cur: FlatCallTraceStep) -> bool {
    is_jump_family(prev.op) || cur.pc != prev.pc + 1 + prev.immediate_len_spec()
        || cur.code_section_idx != prev.code_section_idx
}

/// Boundary idempotence: on the last node a step is a no-op, and at the
/// first instruction of the first node a step back is a no-op — so
/// either action, repeated at its boundary, leaves the cursor unchanged
/// every time.
pub proof fn lemma_boundary_idempotent(
    arena: Seq<FlatDebugNode>,
    node: int,
    step: int,
    depth: int,
)
    requires
        arena_wf(arena),
        0 <= node < arena.len(),
        0 <= step < arena[node].steps@.len(),
    ensures
        node == arena.len() - 1 ==> step_iter(arena, node, step, depth, depth)
            == Ok::<Cursor, DebuggerError>(Cursor { node, step, depth }),
        node == 0 && step == 0 ==> back_iter(arena, node, step, depth, depth)
            == Ok::<Cursor, DebuggerError>(Cursor { node, step, depth }),
{
}

/// Step and step-back invert each other: from a cursor that is not at
/// the forward boundary, whose instruction and successor instruction
/// are both depth-neutral (they neither open nor close a call), one
/// step followed by one step back restores the cursor triple exactly.
pub proof fn lemma_step_then_back(arena: Seq<FlatDebugNode>, node: int, step: int, depth: int)
    requires
        arena_wf(arena),
        0 <= node < arena.len() - 1,
        0 <= step < arena[node].steps@.len(),
        0 <= depth <= usize::MAX as int,
        call_delta(arena[node].steps@[step].op) == 0,
        ({
            let nxt = advanced(arena, node, step);
            call_delta(arena[nxt.0].steps@[nxt.1].op) == 0
        }),
    ensures
        ({
            let nxt = advanced(arena, node, step);
            step_iter(arena, node, step, depth, depth) == Ok::<Cursor, DebuggerError>(
                Cursor { node: nxt.0, step: nxt.1, depth },
            ) && back_iter(arena, nxt.0, nxt.1, depth, depth) == Ok::<Cursor, DebuggerError>(
                Cursor { node, step, depth },
            )
        }),
{
    let nxt = advanced(arena, node, step);
    assert(arena[nxt.0].steps@.len() > 0);
    assert(retreated(arena, nxt.0, nxt.1) == (node, step));
}

/// The mirror inverse: from a cursor that is not at the backward
/// boundary, whose instruction and predecessor instruction are both
/// depth-neutral and whose predecessor does not stand on the last node,
/// one step back followed by one step restores the cursor triple
/// exactly.
pub proof fn lemma_back_then_step(arena: Seq<FlatDebugNode>, node: int, step: int, depth: int)
    requires
        arena_wf(arena),
        0 <= node < arena.len(),
        0 <= step < arena[node].steps@.len(),
        !(node == 0 && step == 0),
        0 <= depth <= usize::MAX as int,
        call_delta(arena[node].steps@[step].op) == 0,
        ({
            let prv = retreated(arena, node, step);
            call_delta(arena[prv.0].steps@[prv.1].op) == 0 && prv.0 < arena.len() - 1
        }),
    ensures
        ({
            let prv = retreated(arena, node, step);
            back_iter(arena, node, step, depth, depth) == Ok::<Cursor, DebuggerError>(
                Cursor { node: prv.0, step: prv.1, depth },
            ) && step_iter(arena, prv.0, prv.1, depth, depth) == Ok::<Cursor, DebuggerError>(
                Cursor { node, step, depth },
            )
        }),
{
    let prv = retreated(arena, node, step);
    assert(arena[prv.0].steps@.len() > 0);
    assert(advanced(arena, prv.0, prv.1) == (node, step));
}

/// Depth conservation: a step that completes keeps the depth counter
/// non-negative, and unless the walk was cut short by the end of the
/// timeline it ends at or below the depth it started at — a step-over
/// never comes back deeper than it went in.
pub proof fn lemma_step_depth(arena: Seq<FlatDebugNode>, node: int, step: int, depth: int, d0: int)
    requires
        arena_wf(arena),
        0 <= node < arena.len(),
        0 <= step < arena[node].steps@.len(),
        0 <= depth,
        d0 <= depth,
        step_iter(arena, node, step, depth, d0) is Ok,
    ensures
        ({
            let c = step_iter(arena, node, step, depth, d0)->Ok_0;
            0 <= c.depth && (c.node == arena.len() - 1 || c.depth <= d0)
        }),
    decreases arena.len() - node, arena[node].steps@.len() - step,
{
    if node >= arena.len() - 1 {
    } else {
        let d2 = depth + call_delta(arena[node].steps@[step].op);
        let nxt = advanced(arena, node, step);
        if d0 >= d2 {
        } else {
            assert(arena[nxt.0].steps@.len() > 0);
            lemma_step_depth(arena, nxt.0, nxt.1, d2, d0);
        }
    }
}

/// How many steps stand in the nodes before node `node`.
pub open spec fn steps_before(arena: Seq<FlatDebugNode>, node: int) -> int
    decreases node,
{
    if node <= 0 {
        0
    } else {
        steps_before(arena, node - 1) + arena[node - 1].steps@.len()
    }
}

/// The absolute position of cursor `(node, step)` on the flattened
/// timeline.
pub open spec fn abs_pos(arena: Seq<FlatDebugNode>, node: int, step: int) -> int {
    steps_before(arena, node) + step
}

/// Every opcode of the timeline, in order.
pub open spec fn flat_ops(arena: Seq<FlatDebugNode>) -> Seq<u8>
    decreases arena.len(),
{
    if arena.len() == 0 {
        Seq::empty()
    } else {
        flat_ops(arena.drop_last()) + arena.last().steps@.map_values(|s: FlatCallTraceStep| s.op)
    }
}

/// The net call-depth change of a run of opcodes executed forward in
/// time.
pub open spec fn net_delta(ops: Seq<u8>) -> int
    decreases ops.len(),
{
    if ops.len() == 0 {
        0
    } else {
        net_delta(ops.drop_last()) + call_delta(ops.last())
    }
}

proof fn lemma_net_prepend(x: u8, s: Seq<u8>)
    ensures
        net_delta(seq![x] + s) == call_delta(x) + net_delta(s),
    decreases s.len(),
{
    if s.len() == 0 {
        assert(seq![x] + s =~= seq![x]);
        assert(seq![x].drop_last() =~= Seq::<u8>::empty());
        assert(net_delta(Seq::<u8>::empty()) == 0);
        assert(seq![x].last() == x);
    } else {
        assert((seq![x] + s).drop_last() =~= seq![x] + s.drop_last());
        assert((seq![x] + s).last() == s.last());
        lemma_net_prepend(x, s.drop_last());
        assert(net_delta(seq![x] + s) == net_delta(seq![x] + s.drop_last()) + call_delta(s.last()));
        assert(net_delta(s) == net_delta(s.drop_last()) + call_delta(s.last()));
    }
}

proof fn lemma_steps_before_nonneg(arena: Seq<FlatDebugNode>, node: int)
    requires
        0 <= node <= arena.len(),
    ensures
        steps_before(arena, node) >= 0,
    decreases node,
{
    if node > 0 {
        lemma_steps_before_nonneg(arena, node - 1);
    }
}

proof fn lemma_steps_before_drop_last(arena: Seq<FlatDebugNode>, node: int)
    requires
        0 <= node < arena.len(),
    ensures
        steps_before(arena.drop_last(), node) == steps_before(arena, node),
    decreases node,
{
    if node > 0 {
        lemma_steps_before_drop_last(arena, node - 1);
        assert(arena.drop_last()[node - 1] == arena[node - 1]);
    }
}

proof fn lemma_flat_ops_len(arena: Seq<FlatDebugNode>)
    ensures
        flat_ops(arena).len() == steps_before(arena, arena.len() as int),
    decreases arena.len(),
{
    if arena.len() > 0 {
        lemma_flat_ops_len(arena.drop_last());
        lemma_steps_before_drop_last(arena, arena.len() - 1);
    }
}

proof fn lemma_flat_ops_index(arena: Seq<FlatDebugNode>, node: int, step: int)
    requires
        0 <= node < arena.len(),
        0 <= step < arena[node].steps@.len(),
    ensures
        0 <= abs_pos(arena, node, step) < flat_ops(arena).len(),
        flat_ops(arena)[abs_pos(arena, node, step)] == arena[node].steps@[step].op,
    decreases arena.len(),
{
    lemma_flat_ops_len(arena);
    lemma_steps_before_nonneg(arena, node);
    let shorter = arena.drop_last();
    lemma_flat_ops_len(shorter);
    if node == arena.len() - 1 {
        lemma_steps_before_drop_last(arena, node);
        assert(flat_ops(arena)[abs_pos(arena, node, step)] == arena.last().steps@.map_values(
            |s: FlatCallTraceStep| s.op,
        )[step]);
    } else {
        lemma_flat_ops_index(shorter, node, step);
        lemma_steps_before_drop_last(arena, node);
        assert(shorter[node] == arena[node]);
        assert(flat_ops(arena)[abs_pos(arena, node, step)] == flat_ops(shorter)[abs_pos(
            shorter,
            node,
            step,
        )]);
    }
}

/// Depth conservation, in full: a step that completes ends at the entry
/// depth plus the net of call-family and terminal-family opcodes among
/// exactly the instructions it traversed on the timeline, and the depth
/// counter never ends below zero.
pub proof fn lemma_step_depth_net(
    arena: Seq<FlatDebugNode>,
    node: int,
    step: int,
    depth: int,
    d0: int,
)
    requires
        arena_wf(arena),
        0 <= node < arena.len(),
        0 <= step < arena[node].steps@.len(),
        0 <= depth,
        step_iter(arena, node, step, depth, d0) is Ok,
    ensures
        ({
            let c = step_iter(arena, node, step, depth, d0)->Ok_0;
            let a0 = abs_pos(arena, node, step);
            let a1 = abs_pos(arena, c.node, c.step);
            0 <= c.node < arena.len() && 0 <= c.step < arena[c.node].steps@.len() && a0 <= a1
                && a1 < flat_ops(arena).len() && c.depth == depth + net_delta(
                flat_ops(arena).subrange(a0, a1),
            ) && c.depth >= 0
        }),
    decreases arena.len() - node, arena[node].steps@.len() - step,
{
    let c = step_iter(arena, node, step, depth, d0)->Ok_0;
    let a0 = abs_pos(arena, node, step);
    lemma_flat_ops_index(arena, node, step);
    if node >= arena.len() - 1 {
        assert(flat_ops(arena).subrange(a0, a0) =~= Seq::<u8>::empty());
    } else {
        let op = arena[node].steps@[step].op;
        let d2 = depth + call_delta(op);
        let nxt = advanced(arena, node, step);
        assert(arena[nxt.0].steps@.len() > 0);
        assert(abs_pos(arena, nxt.0, nxt.1) == a0 + 1);
        lemma_flat_ops_index(arena, nxt.0, nxt.1);
        if d0 >= d2 {
            assert(flat_ops(arena).subrange(a0, a0 + 1) =~= seq![op]);
            assert(seq![op].drop_last() =~= Seq::<u8>::empty());
            assert(net_delta(Seq::<u8>::empty()) == 0);
            assert(seq![op].last() == op);
            assert(net_delta(seq![op]) == call_delta(op));
        } else {
            lemma_step_depth_net(arena, nxt.0, nxt.1, d2, d0);
            let a1 = abs_pos(arena, c.node, c.step);
            assert(flat_ops(arena).subrange(a0, a1) =~= seq![op] + flat_ops(arena).subrange(
                a0 + 1,
                a1,
            ));
            lemma_net_prepend(op, flat_ops(arena).subrange(a0 + 1, a1));
        }
    }
}

/// An instruction that directly follows an opcode with a 32-byte
/// immediate operand, at the program counter just past the opcode and
/// its embedded bytes, is sequential flow, not a jump.
pub proof fn lemma_immediate_operand_not_jump(prev: FlatCallTraceStep, cur: FlatCallTraceStep)
    requires
        !is_jump_family(prev.op),
        prev.immediate_len_spec() == 32,
        cur.pc == prev.pc + 33,
        cur.code_section_idx == prev.code_section_idx,
    ensures
        !is_jump_between(prev, cur),
{
}

/// The same program-counter delta after an opcode with no immediate
/// bytes is a jump.
pub proof fn lemma_plain_delta_is_jump(prev: FlatCallTraceStep, cur: FlatCallTraceStep)
    requires
        prev.immediate_len_spec() == 0,
        cur.pc == prev.pc + 33,
    ensures
        is_jump_between(prev, cur),
{
}

} // verus!
