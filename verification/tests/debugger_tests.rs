use evm_debugger::engine::{Action, Debugger, DebuggerError};
use evm_debugger::flatten::DebuggerBuilder;
use evm_debugger::opcodes::{opcode_list, OP_CALL, OP_JUMP, OP_RETURN, OP_STOP};
use evm_debugger::types::{CallKind, FlatCallTraceStep, FlatDebugNode, TraceArena, TraceEvent, TraceNode};

const OP_ADD: u8 = 0x01;

fn step(op: u8, pc: usize) -> FlatCallTraceStep {
    FlatCallTraceStep {
        depth: 0,
        pc,
        op,
        code_section_idx: 0,
        contract: String::from("0xc0ffee"),
        stack: None,
        push_stack: None,
        memory: None,
        returndata: String::new(),
        gas_remaining: 0,
        gas_refund_counter: 0,
        gas_used: 0,
        gas_cost: 0,
        storage_change: None,
        status: None,
        immediate_bytes: None,
        decoded: None,
    }
}

fn node(address: &str, ops: &[u8]) -> FlatDebugNode {
    let steps = ops.iter().enumerate().map(|(i, &op)| step(op, i)).collect();
    FlatDebugNode {
        address: String::from(address),
        kind: CallKind::Call,
        calldata: vec![1, 2],
        steps,
    }
}

fn debugger(nodes: Vec<FlatDebugNode>) -> Debugger {
    Debugger::new(nodes, Vec::new(), Vec::new(), Vec::new()).expect("session should build")
}

fn cursor(d: &Debugger) -> (usize, usize, usize) {
    (d.ctx.call_index, d.ctx.current_step, d.ctx.call_depth)
}

#[test]
fn test_new_rejects_empty_trace() {
    let r = Debugger::new(Vec::new(), Vec::new(), Vec::new(), Vec::new());
    assert!(matches!(r, Err(DebuggerError::NoExecutedTrace)));

    let only_empty = vec![node("0xaaaa", &[])];
    let r = Debugger::new(only_empty, Vec::new(), Vec::new(), Vec::new());
    assert!(matches!(r, Err(DebuggerError::NoExecutedTrace)));
}

#[test]
fn test_new_drops_empty_nodes() {
    let nodes = vec![node("0xaaaa", &[OP_ADD]), node("0xbbbb", &[]), node("0xcccc", &[OP_STOP])];
    let d = debugger(nodes);
    assert_eq!(d.ctx.debug_arena.len(), 2);
    assert_eq!(d.ctx.debug_arena[0].address, "0xaaaa");
    assert_eq!(d.ctx.debug_arena[1].address, "0xcccc");
    assert_eq!(cursor(&d), (0, 0, 0));
}

#[test]
fn test_step_advances_within_node() {
    let mut d = debugger(vec![node("0xaaaa", &[OP_ADD, OP_ADD]), node("0xbbbb", &[OP_STOP])]);
    assert!(d.step().is_ok());
    assert_eq!(cursor(&d), (0, 1, 0));
    assert!(d.step().is_ok());
    assert_eq!(cursor(&d), (1, 0, 0));
}

#[test]
fn test_step_skips_entered_call() {
    // caller's pre-call run ends with CALL; the callee returns; the
    // caller resumes — a step-over lands on the caller's next node
    let mut d = debugger(vec![
        node("0xcaller", &[OP_CALL]),
        node("0xcallee", &[OP_ADD, OP_RETURN]),
        node("0xcaller", &[OP_STOP]),
    ]);
    assert!(d.step().is_ok());
    assert_eq!(cursor(&d), (2, 0, 0));
}

#[test]
fn test_step_skips_nested_calls() {
    // the callee itself calls deeper; a single step-over skips the
    // whole nest and lands where control returns to the entry depth
    let mut d = debugger(vec![
        node("0xcaller", &[OP_CALL]),
        node("0xcallee", &[OP_CALL]),
        node("0xgrand", &[OP_ADD, OP_RETURN]),
        node("0xcallee", &[OP_RETURN]),
        node("0xcaller", &[OP_STOP]),
    ]);
    assert!(d.step().is_ok());
    assert_eq!(cursor(&d), (4, 0, 0));
}

#[test]
fn test_step_then_back_restores_cursor() {
    let mut d = debugger(vec![node("0xaaaa", &[OP_ADD, OP_ADD, OP_ADD]), node("0xbbbb", &[OP_STOP])]);
    assert!(d.step().is_ok());
    assert_eq!(cursor(&d), (0, 1, 0));
    assert!(d.step_back().is_ok());
    assert_eq!(cursor(&d), (0, 0, 0));
}

#[test]
fn test_back_then_step_restores_cursor_across_nodes() {
    let mut d = debugger(vec![
        node("0xaaaa", &[OP_ADD, OP_ADD]),
        node("0xbbbb", &[OP_ADD]),
        node("0xcccc", &[OP_STOP]),
    ]);
    // walk forward to the second node
    assert!(d.step().is_ok());
    assert!(d.step().is_ok());
    assert_eq!(cursor(&d), (1, 0, 0));
    assert!(d.step_back().is_ok());
    assert_eq!(cursor(&d), (0, 1, 0));
    assert!(d.step().is_ok());
    assert_eq!(cursor(&d), (1, 0, 0));
}

#[test]
fn test_step_boundary_idempotent() {
    let mut d = debugger(vec![node("0xaaaa", &[OP_ADD, OP_STOP])]);
    // a single node is the last node: stepping never moves
    for _ in 0..3 {
        assert!(d.step().is_ok());
        assert_eq!(cursor(&d), (0, 0, 0));
    }
}

#[test]
fn test_step_back_boundary_idempotent() {
    let mut d = debugger(vec![node("0xaaaa", &[OP_ADD]), node("0xbbbb", &[OP_STOP])]);
    for _ in 0..3 {
        assert!(d.step_back().is_ok());
        assert_eq!(cursor(&d), (0, 0, 0));
    }
}

#[test]
fn test_unsupported_actions_report() {
    let mut d = debugger(vec![node("0xaaaa", &[OP_ADD]), node("0xbbbb", &[OP_STOP])]);
    for action in [Action::StepInto, Action::StepOut, Action::Continue, Action::Stop] {
        assert_eq!(d.handle_action(action), Err(DebuggerError::UnsupportedAction));
        assert_eq!(cursor(&d), (0, 0, 0));
    }
    assert!(d.handle_action(Action::Step).is_ok());
    assert_eq!(cursor(&d), (1, 0, 0));
}

#[test]
fn test_depth_underflow_aborts_loudly() {
    // a terminal opcode at depth zero cannot be stepped over
    let mut d = debugger(vec![node("0xaaaa", &[OP_RETURN]), node("0xbbbb", &[OP_STOP])]);
    assert_eq!(d.step(), Err(DebuggerError::DepthUnderflow));
    assert_eq!(cursor(&d), (0, 0, 0));
}

#[test]
fn test_current_prev_and_remaining() {
    let mut d = debugger(vec![node("0xaaaa", &[OP_ADD, OP_ADD, OP_ADD]), node("0xbbbb", &[OP_STOP])]);
    assert_eq!(d.current_call_ctx().address, "0xaaaa");
    assert!(d.prev_call_ctx().is_none());
    assert_eq!(d.total_steps(), 3);

    assert!(d.step().is_ok());
    let remaining = d.remaining_steps();
    assert_eq!(remaining.len(), 2);
    assert_eq!(remaining[0].pc, 1);

    assert!(d.step().is_ok());
    assert!(d.step().is_ok());
    assert_eq!(cursor(&d), (1, 0, 0));
    assert_eq!(d.current_call_ctx().address, "0xbbbb");
    assert_eq!(d.prev_call_ctx().expect("has previous node").address, "0xaaaa");
}

#[test]
fn test_jump_detection_edge_cases() {
    // 32-byte immediate operand: pc_prev + 33 is sequential flow
    let mut push32 = step(0x7F, 100);
    push32.immediate_bytes = Some(vec![0u8; 32]);
    let after = step(OP_ADD, 133);
    assert!(!Debugger::is_jmp(&after, &push32));

    // the same delta with no immediate bytes is a jump
    let plain = step(OP_ADD, 100);
    assert!(Debugger::is_jmp(&after, &plain));

    // an explicit jump opcode is always a jump
    let jump = step(OP_JUMP, 132);
    assert!(Debugger::is_jmp(&after, &jump));

    // a changed code section is a jump even with a sequential pc
    let prev = step(OP_ADD, 132);
    let mut other_section = step(OP_ADD, 133);
    other_section.code_section_idx = 1;
    assert!(Debugger::is_jmp(&other_section, &prev));

    // plain sequential flow is not a jump
    let next = step(OP_ADD, 133);
    assert!(!Debugger::is_jmp(&next, &prev));
}

#[test]
fn test_opcode_list_table() {
    let names = opcode_list();
    assert_eq!(names.len(), 18);
    assert_eq!(names[0], "STOP");
    assert!(names.iter().any(|n| n == "CALL"));
    assert!(names.iter().any(|n| n == "SELFDESTRUCT"));
}

fn trace_node(
    address: &str,
    kind: CallKind,
    ops: &[u8],
    children: Vec<usize>,
    ordering: Vec<TraceEvent>,
) -> TraceNode {
    let steps = ops.iter().enumerate().map(|(i, &op)| step(op, i)).collect();
    TraceNode {
        address: String::from(address),
        kind,
        calldata: vec![7, 8],
        steps,
        children,
        ordering,
    }
}

#[test]
fn test_flatten_single_frame() {
    let root = trace_node(
        "0xroot",
        CallKind::Call,
        &[OP_ADD, OP_STOP],
        Vec::new(),
        vec![TraceEvent::Step, TraceEvent::Step],
    );
    let out = DebuggerBuilder::into_nodes(vec![TraceArena { nodes: vec![root] }]);
    assert_eq!(out.len(), 1);
    assert_eq!(out[0].address, "0xroot");
    assert_eq!(out[0].kind, CallKind::Call);
    assert_eq!(out[0].calldata, vec![7, 8]);
    assert_eq!(out[0].steps.len(), 2);
    assert_eq!(out[0].steps[0].op, OP_ADD);
}

#[test]
fn test_flatten_splits_frame_around_call() {
    // root: one step, then a child call, then two more steps
    let root = trace_node(
        "0xroot",
        CallKind::Call,
        &[OP_ADD, OP_ADD, OP_STOP],
        vec![1],
        vec![TraceEvent::Step, TraceEvent::Call(0), TraceEvent::Step, TraceEvent::Step],
    );
    let child = trace_node(
        "0xchild",
        CallKind::StaticCall,
        &[OP_RETURN],
        Vec::new(),
        vec![TraceEvent::Step],
    );
    let out = DebuggerBuilder::into_nodes(vec![TraceArena { nodes: vec![root, child] }]);

    // chronological order: the pre-call run, the callee, the post-call run
    assert_eq!(out.len(), 3);
    assert_eq!(out[0].address, "0xroot");
    assert_eq!(out[0].steps.len(), 1);
    assert_eq!(out[0].steps[0].pc, 0);
    assert_eq!(out[1].address, "0xchild");
    assert_eq!(out[1].steps.len(), 1);
    assert_eq!(out[2].address, "0xroot");
    assert_eq!(out[2].steps.len(), 2);
    assert_eq!(out[2].steps[0].pc, 1);
    assert_eq!(out[2].steps[1].pc, 2);

    // completeness: every recorded step appears exactly once
    let total: usize = out.iter().map(|n| n.steps.len()).sum();
    assert_eq!(total, 4);
}

#[test]
fn test_flatten_nested_calls_in_chronological_order() {
    // root calls child; child calls grandchild between its own steps
    let root = trace_node(
        "0xroot",
        CallKind::Call,
        &[OP_ADD, OP_STOP],
        vec![1],
        vec![TraceEvent::Step, TraceEvent::Call(0), TraceEvent::Step],
    );
    let child = trace_node(
        "0xchild",
        CallKind::Call,
        &[OP_ADD, OP_RETURN],
        vec![2],
        vec![TraceEvent::Step, TraceEvent::Call(0), TraceEvent::Step],
    );
    let grand = trace_node(
        "0xgrand",
        CallKind::DelegateCall,
        &[OP_RETURN],
        Vec::new(),
        vec![TraceEvent::Step],
    );
    let out = DebuggerBuilder::into_nodes(vec![TraceArena { nodes: vec![root, child, grand] }]);

    let addresses: Vec<&str> = out.iter().map(|n| n.address.as_str()).collect();
    assert_eq!(addresses, vec!["0xroot", "0xchild", "0xgrand", "0xchild", "0xroot"]);
    let total: usize = out.iter().map(|n| n.steps.len()).sum();
    assert_eq!(total, 5);
}

#[test]
fn test_flatten_drops_empty_runs() {
    // the run before the call is empty and is not emitted
    let root = trace_node(
        "0xroot",
        CallKind::Call,
        &[OP_STOP],
        vec![1],
        vec![TraceEvent::Call(0), TraceEvent::Step],
    );
    let child = trace_node(
        "0xchild",
        CallKind::Call,
        &[OP_RETURN],
        Vec::new(),
        vec![TraceEvent::Step],
    );
    let out = DebuggerBuilder::into_nodes(vec![TraceArena { nodes: vec![root, child] }]);
    assert_eq!(out.len(), 2);
    assert_eq!(out[0].address, "0xchild");
    assert_eq!(out[1].address, "0xroot");
}

#[test]
fn test_flatten_creation_frame_reports_empty_calldata() {
    let root = trace_node(
        "0xfactory",
        CallKind::Create2,
        &[OP_STOP],
        Vec::new(),
        vec![TraceEvent::Step],
    );
    let out = DebuggerBuilder::into_nodes(vec![TraceArena { nodes: vec![root] }]);
    assert_eq!(out.len(), 1);
    assert_eq!(out[0].kind, CallKind::Create2);
    assert!(out[0].calldata.is_empty());
}

#[test]
fn test_flatten_ignores_other_events_and_concatenates_traces() {
    let first = trace_node(
        "0xone",
        CallKind::Call,
        &[OP_ADD],
        Vec::new(),
        vec![TraceEvent::Other, TraceEvent::Step, TraceEvent::Other],
    );
    let second = trace_node(
        "0xtwo",
        CallKind::Call,
        &[OP_STOP],
        Vec::new(),
        vec![TraceEvent::Step],
    );
    let out = DebuggerBuilder::into_nodes(vec![
        TraceArena { nodes: vec![first] },
        TraceArena { nodes: vec![second] },
    ]);
    assert_eq!(out.len(), 2);
    assert_eq!(out[0].address, "0xone");
    assert_eq!(out[1].address, "0xtwo");
}
