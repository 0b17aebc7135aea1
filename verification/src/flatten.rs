//! The trace flattener.
//!
//! A depth-first walk of the recorded call-trace tree turns it into the
//! ordered timeline of debug nodes: while visiting a frame, steps seen
//! since the last child call accumulate into a pending run; each child
//! call closes the pending run, claiming that many of the frame's
//! not-yet-claimed steps, before the child's own frames are emitted;
//! the run left at the end of the frame is closed last.  Runs with no
//! steps are dropped.

use vstd::prelude::*;
use vstd::slice::slice_to_vec;
use crate::types::{
    DebugNodeView, FlatCallTraceStep, FlatDebugNode, TraceArena, TraceEvent, TraceNode,
    TraceNodeView,
};

verus! {

/// How many step events an ordering holds.
pub open spec fn count_steps(ordering: Seq<TraceEvent>) -> int
    decreases ordering.len(),
{
    if ordering.len() == 0 {
        0
    } else {
        count_steps(ordering.drop_last()) + if ordering.last() is Step {
            1int
        } else {
            0int
        }
    }
}

/// The child slot a call event names.
pub open spec fn call_slot(e: TraceEvent) -> int {
    match e {
        TraceEvent::Call(k) => k as int,
        _ => -1,
    }
}

/// A call event of frame `idx` names an existing child slot, and the
/// child stands after its parent in the arena.
pub open spec fn wf_event(arena: Seq<TraceNodeView>, idx: int, e: TraceEvent) -> bool {
    e is Call ==> 0 <= call_slot(e) < arena[idx].children.len()
        && idx < arena[idx].children[call_slot(e)] < arena.len()
}

/// Frame `idx` is well recorded: its ordering holds exactly one step
/// event per recorded step, and every call event is well formed.
pub open spec fn wf_node(arena: Seq<TraceNodeView>, idx: int) -> bool {
    count_steps(arena[idx].ordering) == arena[idx].steps.len() && (forall|p: int|
        0 <= p < arena[idx].ordering.len() ==> wf_event(arena, idx, #[trigger] arena[idx].ordering[p]))
}

/// Every frame of the arena is well recorded.
pub open spec fn wf_arena(arena: Seq<TraceNodeView>) -> bool {
    forall|i: int| 0 <= i < arena.len() ==> #[trigger] wf_node(arena, i)
}

/// How many steps of each frame the walk has claimed so far.
pub open spec fn claims_wf(arena: Seq<TraceNodeView>, claimed: Seq<int>) -> bool {
    claimed.len() == arena.len() && (forall|i: int|
        0 <= i < arena.len() ==> 0 <= #[trigger] claimed[i] <= arena[i].steps.len())
}

/// The debug node emitted for a run of `take` steps of frame `n`
/// beginning at step `from`.  A creation frame reports empty calldata,
/// since creation input is modeled elsewhere.
pub open spec fn node_run(n: TraceNodeView, from: int, take: int) -> DebugNodeView {
    DebugNodeView {
        address: n.address,
        kind: n.kind,
        calldata: if n.kind.is_any_create_spec() {
            Seq::empty()
        } else {
            n.calldata
        },
        steps: n.steps.subrange(from, from + take),
    }
}

/// Close the pending run of `cnt` steps of frame `idx`: claim the next
/// `cnt` unclaimed steps (never more than remain) and emit one debug
/// node for them — none if the run is empty.
pub open spec fn claim_run(
    arena: Seq<TraceNodeView>,
    claimed: Seq<int>,
    idx: int,
    cnt: int,
) -> (Seq<DebugNodeView>, Seq<int>) {
    let from = claimed[idx];
    let avail = arena[idx].steps.len() - from;
    let take = if cnt <= avail {
        cnt
    } else {
        avail
    };
    (
        if take > 0 {
            seq![node_run(arena[idx], from, take)]
        } else {
            Seq::<DebugNodeView>::empty()
        },
        claimed.update(idx, from + take),
    )
}

/// The walk of frame `idx` from ordering position `pos`, with `cnt`
/// steps pending since the last closed run: the debug nodes it emits,
/// in chronological order, and the claims when it completes.
pub open spec fn walk(
    arena: Seq<TraceNodeView>,
    claimed: Seq<int>,
    idx: int,
    pos: int,
    cnt: int,
) -> (Seq<DebugNodeView>, Seq<int>)
    decreases arena.len() - idx, arena[idx].ordering.len() - pos,
        when wf_arena(arena) && 0 <= idx < arena.len() && 0 <= pos <= arena[idx].ordering.len()
        via walk_decreases
{
    let n = arena[idx];
    if pos >= n.ordering.len() {
        claim_run(arena, claimed, idx, cnt)
    } else if n.ordering[pos] is Call {
        let closed = claim_run(arena, claimed, idx, cnt);
        let child = walk(arena, closed.1, n.children[call_slot(n.ordering[pos])] as int, 0, 0);
        let rest = walk(arena, child.1, idx, pos + 1, 0);
        (closed.0 + child.0 + rest.0, rest.1)
    } else if n.ordering[pos] is Step {
        walk(arena, claimed, idx, pos + 1, cnt + 1)
    } else {
        walk(arena, claimed, idx, pos + 1, cnt)
    }
}

#[via_fn]
proof fn walk_decreases(
    arena: Seq<TraceNodeView>,
    claimed: Seq<int>,
    idx: int,
    pos: int,
    cnt: int,
) {
    if wf_arena(arena) && 0 <= idx < arena.len() && 0 <= pos <= arena[idx].ordering.len() {
        if pos < arena[idx].ordering.len() && arena[idx].ordering[pos] is Call {
            assert(wf_node(arena, idx));
            assert(wf_event(arena, idx, arena[idx].ordering[pos]));
        }
    }
}

/// No steps of any frame claimed yet.
pub open spec fn no_claims(arena: Seq<TraceNodeView>) -> Seq<int> {
    Seq::new(arena.len(), |i: int| 0)
}

/// The debug nodes emitted for one recorded trace tree.
pub open spec fn flatten_arena(arena: Seq<TraceNodeView>) -> Seq<DebugNodeView> {
    if arena.len() > 0 {
        walk(arena, no_claims(arena), 0, 0, 0).0
    } else {
        Seq::empty()
    }
}

/// The debug nodes emitted for a sequence of recorded trace trees, in
/// order.
pub open spec fn flatten_traces(traces: Seq<Seq<TraceNodeView>>) -> Seq<DebugNodeView>
    decreases traces.len(),
{
    if traces.len() == 0 {
        Seq::empty()
    } else {
        flatten_traces(traces.drop_last()) + flatten_arena(traces.last())
    }
}

/// The views of a sequence of debug nodes.
pub open spec fn views_of(s: Seq<FlatDebugNode>) -> Seq<DebugNodeView> {
    s.map_values(|n: FlatDebugNode| n@)
}

/// Frame `idx` of `ns` equals the recorded frame with its first `c`
/// steps claimed.
pub open spec fn consumed_node(n: TraceNodeView, c: int) -> TraceNodeView {
    TraceNodeView {
        address: n.address,
        kind: n.kind,
        calldata: n.calldata,
        steps: n.steps.subrange(c, n.steps.len() as int),
        children: n.children,
        ordering: n.ordering,
    }
}

/// The live arena equals the recorded one with the claimed prefix of
/// each frame's steps removed.
pub open spec fn consumed_state(
    ns: Seq<TraceNode>,
    origs: Seq<TraceNodeView>,
    claimed: Seq<int>,
) -> bool {
    ns.len() == origs.len() && (forall|i: int|
        0 <= i < ns.len() ==> #[trigger] ns[i]@ == consumed_node(origs[i], claimed[i]))
}

/// Removes and returns the first `take` steps still held by frame
/// `idx`, leaving the rest in place.
fn claim_steps(nodes: &mut Vec<TraceNode>, idx: usize, take: usize) -> (r: Vec<FlatCallTraceStep>)
    requires
        idx < old(nodes)@.len(),
        take <= old(nodes)@[idx as int].steps@.len(),
    ensures
        r@ == old(nodes)@[idx as int].steps@.subrange(0, take as int),
        final(nodes)@.len() == old(nodes)@.len(),
        final(nodes)@[idx as int]@ == consumed_node(old(nodes)@[idx as int]@, take as int),
        forall|j: int|
            0 <= j < old(nodes)@.len() && j != idx ==> final(nodes)@[j] == old(nodes)@[j],
{
    let ghost before = nodes@[idx as int]@;
    let mut node = nodes.remove(idx);
    let mut tail = node.steps.split_off(take);
    let head = node.steps.split_off(0);
    node.steps.append(&mut tail);
    nodes.insert(idx, node);
    proof {
        assert(final(nodes)@[idx as int]@ =~~= consumed_node(before, take as int));
        assert(forall|j: int| 0 <= j < old(nodes)@.len() && j != idx
            ==> final(nodes)@[j] == old(nodes)@[j]);
    }
    head
}

/// Closes the pending run of `cnt` steps of frame `idx`, emitting a
/// debug node when the run is not empty.
fn close_run(
    nodes: &mut Vec<TraceNode>,
    Ghost(origs): Ghost<Seq<TraceNodeView>>,
    Ghost(cl): Ghost<Seq<int>>,
    idx: usize,
    cnt: usize,
    out: &mut Vec<FlatDebugNode>,
) -> (rc: Ghost<Seq<int>>)
    requires
        claims_wf(origs, cl),
        consumed_state(old(nodes)@, origs, cl),
        idx < origs.len(),
    ensures
        claims_wf(origs, rc@),
        consumed_state(final(nodes)@, origs, rc@),
        rc@ == claim_run(origs, cl, idx as int, cnt as int).1,
        final(out)@.len() >= old(out)@.len(),
        final(out)@.subrange(0, old(out)@.len() as int) == old(out)@,
        views_of(final(out)@.subrange(old(out)@.len() as int, final(out)@.len() as int))
            == claim_run(origs, cl, idx as int, cnt as int).0,
{
    let ghost spec_result = claim_run(origs, cl, idx as int, cnt as int);
    let avail = nodes[idx].steps.len();
    let take = if cnt <= avail {
        cnt
    } else {
        avail
    };
    let run_steps = claim_steps(nodes, idx, take);
    proof {
        assert(run_steps@ =~= origs[idx as int].steps.subrange(
            cl[idx as int],
            cl[idx as int] + take as int,
        ));
        assert(final(nodes)@[idx as int]@ =~~= consumed_node(
            origs[idx as int],
            cl[idx as int] + take as int,
        ));
        assert(consumed_state(nodes@, origs, spec_result.1));
    }
    if run_steps.len() > 0 {
        let node_ref = &nodes[idx];
        let address = node_ref.address.clone();
        let kind = node_ref.kind;
        let calldata = if node_ref.kind.is_any_create() {
            Vec::new()
        } else {
            slice_to_vec(node_ref.calldata.as_slice())
        };
        let dbg = FlatDebugNode { address, kind, calldata, steps: run_steps };
        proof {
            assert(dbg@ =~~= node_run(origs[idx as int], cl[idx as int], take as int));
        }
        out.push(dbg);
        proof {
            assert(final(out)@.subrange(0, old(out)@.len() as int) =~= old(out)@);
            assert(views_of(
                final(out)@.subrange(old(out)@.len() as int, final(out)@.len() as int),
            ) =~~= spec_result.0);
        }
    } else {
        proof {
            assert(final(out)@.subrange(0, old(out)@.len() as int) =~= old(out)@);
            assert(views_of(
                final(out)@.subrange(old(out)@.len() as int, final(out)@.len() as int),
            ) =~~= spec_result.0);
        }
    }
    Ghost(spec_result.1)
}

/// Walks frame `idx`, appending its emitted debug nodes to `out` and
/// consuming the steps it claims.
fn flatten_node(
    nodes: &mut Vec<TraceNode>,
    Ghost(origs): Ghost<Seq<TraceNodeView>>,
    Ghost(claimed): Ghost<Seq<int>>,
    idx: usize,
    out: &mut Vec<FlatDebugNode>,
) -> (rc: Ghost<Seq<int>>)
    requires
        wf_arena(origs),
        claims_wf(origs, claimed),
        consumed_state(old(nodes)@, origs, claimed),
        idx < origs.len(),
    ensures
        claims_wf(origs, rc@),
        consumed_state(final(nodes)@, origs, rc@),
        rc@ == walk(origs, claimed, idx as int, 0, 0).1,
        final(out)@.len() >= old(out)@.len(),
        final(out)@.subrange(0, old(out)@.len() as int) == old(out)@,
        views_of(final(out)@.subrange(old(out)@.len() as int, final(out)@.len() as int))
            == walk(origs, claimed, idx as int, 0, 0).0,
    decreases origs.len() - idx,
{
    let ghost walk_total = walk(origs, claimed, idx as int, 0, 0);
    let ghost out0 = old(out)@;
    let ghost mut cl = claimed;
    let mut cnt: usize = 0;
    let mut pos: usize = 0;
    proof {
        assert(nodes@[idx as int]@ == consumed_node(origs[idx as int], claimed[idx as int]));
    }
    let olen = nodes[idx].ordering.len();
    proof {
        assert(olen == origs[idx as int].ordering.len());
    }
    while pos < olen
        invariant
            wf_arena(origs),
            idx < origs.len(),
            claims_wf(origs, cl),
            consumed_state(nodes@, origs, cl),
            olen == origs[idx as int].ordering.len(),
            pos <= olen,
            cnt <= pos,
            out@.len() >= out0.len(),
            out@.subrange(0, out0.len() as int) == out0,
            walk_total.0 == views_of(out@.subrange(out0.len() as int, out@.len() as int))
                + walk(origs, cl, idx as int, pos as int, cnt as int).0,
            walk_total.1 == walk(origs, cl, idx as int, pos as int, cnt as int).1,
        decreases olen - pos,
    {
        let ghost cl_head = cl;
        let ghost emitted_head = out@.subrange(out0.len() as int, out@.len() as int);
        proof {
            assert(nodes@[idx as int]@ == consumed_node(origs[idx as int], cl[idx as int]));
        }
        let ev = nodes[idx].ordering[pos];
        proof {
            assert(ev == origs[idx as int].ordering[pos as int]);
            assert(wf_node(origs, idx as int));
            assert(wf_event(origs, idx as int, ev));
        }
        match ev {
            TraceEvent::Call(k) => {
                let ghost cnt_head = cnt as int;
                let ghost out_head = out@;
                let Ghost(cl1) = close_run(nodes, Ghost(origs), Ghost(cl), idx, cnt, out);
                proof {
                    cl = cl1;
                }
                let ghost out_close = out@;
                proof {
                    assert(nodes@[idx as int]@ == consumed_node(origs[idx as int], cl[idx as int]));
                    assert(0 <= call_slot(ev) < origs[idx as int].children.len());
                }
                let child = nodes[idx].children[k];
                proof {
                    assert(child as int == origs[idx as int].children[call_slot(ev)] as int);
                    assert(idx < child < origs.len());
                }
                let Ghost(cl2) = flatten_node(nodes, Ghost(origs), Ghost(cl), child, out);
                proof {
                    cl = cl2;
                }
                cnt = 0;
                pos = pos + 1;
                proof {
                    let closed = claim_run(origs, cl_head, idx as int, cnt_head);
                    assert(out@.subrange(0, out_close.len() as int) == out_close);
                    assert(out_close.subrange(0, out_head.len() as int) == out_head);
                    let piece_close = out_close.subrange(
                        out_head.len() as int,
                        out_close.len() as int,
                    );
                    let piece_child = out@.subrange(out_close.len() as int, out@.len() as int);
                    assert(views_of(piece_close) == closed.0);
                    assert(views_of(piece_child) == walk(origs, closed.1, child as int, 0, 0).0);
                    let emitted_now = out@.subrange(out0.len() as int, out@.len() as int);
                    assert forall|j: int| 0 <= j < out_close.len() implies out@[j] == out_close[j]
                    by {
                        assert(out@.subrange(0, out_close.len() as int)[j] == out@[j]);
                    }
                    assert forall|j: int|
                        0 <= j < out_head.len() implies out_close[j] == out_head[j] by {
                        assert(out_close.subrange(0, out_head.len() as int)[j] == out_close[j]);
                    }
                    assert(emitted_now =~= emitted_head + piece_close + piece_child);
                    assert(views_of(emitted_now) =~~= views_of(emitted_head) + closed.0 + walk(
                        origs,
                        closed.1,
                        child as int,
                        0,
                        0,
                    ).0);
                    assert(out@.subrange(0, out0.len() as int) =~= out0);
                    assert(walk_total.0 =~~= views_of(emitted_now) + walk(
                        origs,
                        cl,
                        idx as int,
                        pos as int,
                        cnt as int,
                    ).0);
                }
            },
            TraceEvent::Step => {
                cnt = cnt + 1;
                pos = pos + 1;
            },
            TraceEvent::Other => {
                pos = pos + 1;
            },
        }
    }
    let ghost out_exit = out@;
    let ghost cnt_exit = cnt as int;
    let ghost cl_exit = cl;
    let Ghost(cl1) = close_run(nodes, Ghost(origs), Ghost(cl), idx, cnt, out);
    proof {
        let closed = claim_run(origs, cl_exit, idx as int, cnt_exit);
        assert(out@.subrange(0, out_exit.len() as int) == out_exit);
        let piece = out@.subrange(out_exit.len() as int, out@.len() as int);
        assert(views_of(piece) == closed.0);
        let emitted_exit = out_exit.subrange(out0.len() as int, out_exit.len() as int);
        let emitted_fin = out@.subrange(out0.len() as int, out@.len() as int);
        assert forall|j: int| 0 <= j < out_exit.len() implies out@[j] == out_exit[j] by {
            assert(out@.subrange(0, out_exit.len() as int)[j] == out@[j]);
        }
        assert(emitted_fin =~= emitted_exit + piece);
        assert(views_of(emitted_fin) =~~= views_of(emitted_exit) + closed.0);
        assert(views_of(emitted_fin) =~~= walk_total.0);
        assert(out@.subrange(0, out0.len() as int) =~= out0);
    }
    Ghost(cl1)
}

/// Flattening order: at a call event, the caller's pending run is
/// emitted first, then every node of the callee's subtree, and all of
/// the caller's later output comes after it — the emitted sequence is
/// in true chronological order across frame boundaries.
pub proof fn lemma_flatten_order(
    arena: Seq<TraceNodeView>,
    claimed: Seq<int>,
    idx: int,
    pos: int,
    cnt: int,
)
    requires
        wf_arena(arena),
        0 <= idx < arena.len(),
        0 <= pos < arena[idx].ordering.len(),
        arena[idx].ordering[pos] is Call,
    ensures
        ({
            let closed = claim_run(arena, claimed, idx, cnt);
            let child = walk(
                arena,
                closed.1,
                arena[idx].children[call_slot(arena[idx].ordering[pos])] as int,
                0,
                0,
            );
            let rest = walk(arena, child.1, idx, pos + 1, 0);
            walk(arena, claimed, idx, pos, cnt).0 == closed.0 + child.0 + rest.0
        }),
{
    assert(wf_node(arena, idx));
    assert(wf_event(arena, idx, arena[idx].ordering[pos]));
}

/// The total instruction-step count over a sequence of debug nodes.
pub open spec fn emitted_steps(s: Seq<DebugNodeView>) -> int
    decreases s.len(),
{
    if s.len() == 0 {
        0
    } else {
        emitted_steps(s.drop_last()) + s.last().steps.len()
    }
}

/// The total number of raw steps claimed over all frames.
pub open spec fn total_claimed(claimed: Seq<int>) -> int
    decreases claimed.len(),
{
    if claimed.len() == 0 {
        0
    } else {
        total_claimed(claimed.drop_last()) + claimed.last()
    }
}

proof fn lemma_emitted_steps_concat(a: Seq<DebugNodeView>, b: Seq<DebugNodeView>)
    ensures
        emitted_steps(a + b) == emitted_steps(a) + emitted_steps(b),
    decreases b.len(),
{
    if b.len() == 0 {
        assert(a + b =~= a);
    } else {
        assert((a + b).drop_last() =~= a + b.drop_last());
        assert((a + b).last() == b.last());
        lemma_emitted_steps_concat(a, b.drop_last());
    }
}

proof fn lemma_total_claimed_update(claimed: Seq<int>, i: int, v: int)
    requires
        0 <= i < claimed.len(),
    ensures
        total_claimed(claimed.update(i, v)) == total_claimed(claimed) - claimed[i] + v,
    decreases claimed.len(),
{
    if i == claimed.len() - 1 {
        assert(claimed.update(i, v).drop_last() =~= claimed.drop_last());
        assert(claimed.update(i, v).last() == v);
    } else {
        assert(claimed.update(i, v).drop_last() =~= claimed.drop_last().update(i, v));
        assert(claimed.update(i, v).last() == claimed.last());
        lemma_total_claimed_update(claimed.drop_last(), i, v);
    }
}

proof fn lemma_total_claimed_zeros(n: nat)
    ensures
        total_claimed(Seq::new(n, |i: int| 0int)) == 0,
    decreases n,
{
    if n > 0 {
        assert(Seq::new(n, |i: int| 0int).drop_last() =~= Seq::new((n - 1) as nat, |i: int| 0int));
        lemma_total_claimed_zeros((n - 1) as nat);
    }
}

/// One closed run claims exactly the steps it emits.
proof fn lemma_claim_run_steps(arena: Seq<TraceNodeView>, claimed: Seq<int>, idx: int, cnt: int)
    requires
        claims_wf(arena, claimed),
        0 <= idx < arena.len(),
        0 <= cnt,
    ensures
        claims_wf(arena, claim_run(arena, claimed, idx, cnt).1),
        emitted_steps(claim_run(arena, claimed, idx, cnt).0) == total_claimed(
            claim_run(arena, claimed, idx, cnt).1,
        ) - total_claimed(claimed),
        forall|j: int|
            0 <= j < claimed.len() && j != idx ==> claim_run(arena, claimed, idx, cnt).1[j]
                == claimed[j],
        claim_run(arena, claimed, idx, cnt).1[idx] >= claimed[idx],
{
    let from = claimed[idx];
    let avail = arena[idx].steps.len() - from;
    let take = if cnt <= avail {
        cnt
    } else {
        avail
    };
    let r = claim_run(arena, claimed, idx, cnt);
    lemma_total_claimed_update(claimed, idx, from + take);
    if take > 0 {
        assert(0 <= from && from + take <= arena[idx].steps.len());
        assert(node_run(arena[idx], from, take).steps.len() == take);
        assert(r.0.drop_last() =~= Seq::<DebugNodeView>::empty());
        assert(emitted_steps(r.0.drop_last()) == 0);
        assert(r.0.last() == node_run(arena[idx], from, take));
        assert(emitted_steps(r.0) == take);
    }
}

/// A walk leaves the claims of every frame before the one it visits
/// untouched, and never takes a claim back.
proof fn lemma_walk_claims_local(
    arena: Seq<TraceNodeView>,
    claimed: Seq<int>,
    idx: int,
    pos: int,
    cnt: int,
)
    requires
        wf_arena(arena),
        claims_wf(arena, claimed),
        0 <= idx < arena.len(),
        0 <= pos <= arena[idx].ordering.len(),
        0 <= cnt,
    ensures
        ({
            let rc = walk(arena, claimed, idx, pos, cnt).1;
            claims_wf(arena, rc) && (forall|j: int| 0 <= j < idx ==> rc[j] == claimed[j])
                && (forall|j: int| 0 <= j < claimed.len() ==> rc[j] >= claimed[j])
        }),
    decreases arena.len() - idx, arena[idx].ordering.len() - pos,
{
    let n = arena[idx];
    if pos >= n.ordering.len() {
        lemma_claim_run_steps(arena, claimed, idx, cnt);
    } else if n.ordering[pos] is Call {
        assert(wf_node(arena, idx));
        assert(wf_event(arena, idx, n.ordering[pos]));
        let closed = claim_run(arena, claimed, idx, cnt);
        lemma_claim_run_steps(arena, claimed, idx, cnt);
        let c = n.children[call_slot(n.ordering[pos])] as int;
        lemma_walk_claims_local(arena, closed.1, c, 0, 0);
        let child = walk(arena, closed.1, c, 0, 0);
        lemma_walk_claims_local(arena, child.1, idx, pos + 1, 0);
    } else if n.ordering[pos] is Step {
        lemma_walk_claims_local(arena, claimed, idx, pos + 1, cnt + 1);
    } else {
        lemma_walk_claims_local(arena, claimed, idx, pos + 1, cnt);
    }
}

/// Flattening completeness, over the claims: the steps of the debug
/// nodes a walk emits sum to exactly the number of raw steps it newly
/// claims — no step is duplicated and none is dropped, and every claim
/// stays within its frame's recorded step list.
pub proof fn lemma_walk_steps_claimed(
    arena: Seq<TraceNodeView>,
    claimed: Seq<int>,
    idx: int,
    pos: int,
    cnt: int,
)
    requires
        wf_arena(arena),
        claims_wf(arena, claimed),
        0 <= idx < arena.len(),
        0 <= pos <= arena[idx].ordering.len(),
        0 <= cnt,
    ensures
        claims_wf(arena, walk(arena, claimed, idx, pos, cnt).1),
        emitted_steps(walk(arena, claimed, idx, pos, cnt).0) == total_claimed(
            walk(arena, claimed, idx, pos, cnt).1,
        ) - total_claimed(claimed),
    decreases arena.len() - idx, arena[idx].ordering.len() - pos,
{
    let n = arena[idx];
    if pos >= n.ordering.len() {
        lemma_claim_run_steps(arena, claimed, idx, cnt);
    } else if n.ordering[pos] is Call {
        assert(wf_node(arena, idx));
        assert(wf_event(arena, idx, n.ordering[pos]));
        let closed = claim_run(arena, claimed, idx, cnt);
        lemma_claim_run_steps(arena, claimed, idx, cnt);
        let c = n.children[call_slot(n.ordering[pos])] as int;
        lemma_walk_steps_claimed(arena, closed.1, c, 0, 0);
        let child = walk(arena, closed.1, c, 0, 0);
        lemma_walk_steps_claimed(arena, child.1, idx, pos + 1, 0);
        let rest = walk(arena, child.1, idx, pos + 1, 0);
        lemma_emitted_steps_concat(closed.0, child.0);
        lemma_emitted_steps_concat(closed.0 + child.0, rest.0);
        assert(closed.0 + child.0 + rest.0 =~= (closed.0 + child.0) + rest.0);
    } else if n.ordering[pos] is Step {
        lemma_walk_steps_claimed(arena, claimed, idx, pos + 1, cnt + 1);
    } else {
        lemma_walk_steps_claimed(arena, claimed, idx, pos + 1, cnt);
    }
}

proof fn lemma_count_steps_grow(ordering: Seq<TraceEvent>, pos: int)
    requires
        0 <= pos < ordering.len(),
    ensures
        count_steps(ordering.subrange(0, pos + 1)) == count_steps(ordering.subrange(0, pos))
            + if ordering[pos] is Step {
            1int
        } else {
            0int
        },
{
    assert(ordering.subrange(0, pos + 1).drop_last() =~= ordering.subrange(0, pos));
    assert(ordering.subrange(0, pos + 1).last() == ordering[pos]);
}

proof fn lemma_count_steps_prefix(ordering: Seq<TraceEvent>, pos: int)
    requires
        0 <= pos <= ordering.len(),
    ensures
        count_steps(ordering.subrange(0, pos)) <= count_steps(ordering),
        count_steps(ordering.subrange(0, pos)) >= 0,
    decreases ordering.len() - pos,
{
    lemma_count_steps_nonneg(ordering.subrange(0, pos));
    if pos == ordering.len() {
        assert(ordering.subrange(0, pos) =~= ordering);
    } else {
        lemma_count_steps_grow(ordering, pos);
        lemma_count_steps_prefix(ordering, pos + 1);
    }
}

proof fn lemma_count_steps_nonneg(ordering: Seq<TraceEvent>)
    ensures
        count_steps(ordering) >= 0,
    decreases ordering.len(),
{
    if ordering.len() > 0 {
        lemma_count_steps_nonneg(ordering.drop_last());
    }
}

/// Per-frame completeness: a frame whose walk starts with its pending
/// count and claim matching the step events already passed — in
/// particular a frame entered fresh, with nothing claimed and nothing
/// pending — ends its walk with exactly one claim per recorded step
/// event, which by well-formedness is its whole recorded step list.
pub proof fn lemma_walk_claims_own_frame(
    arena: Seq<TraceNodeView>,
    claimed: Seq<int>,
    idx: int,
    pos: int,
    cnt: int,
)
    requires
        wf_arena(arena),
        claims_wf(arena, claimed),
        0 <= idx < arena.len(),
        0 <= pos <= arena[idx].ordering.len(),
        0 <= cnt,
        claimed[idx] + cnt == count_steps(arena[idx].ordering.subrange(0, pos)),
    ensures
        walk(arena, claimed, idx, pos, cnt).1[idx] == arena[idx].steps.len(),
    decreases arena.len() - idx, arena[idx].ordering.len() - pos,
{
    let n = arena[idx];
    assert(wf_node(arena, idx));
    lemma_count_steps_prefix(n.ordering, pos);
    if pos >= n.ordering.len() {
        assert(n.ordering.subrange(0, pos) =~= n.ordering);
    } else if n.ordering[pos] is Call {
        assert(wf_event(arena, idx, n.ordering[pos]));
        lemma_count_steps_grow(n.ordering, pos);
        let closed = claim_run(arena, claimed, idx, cnt);
        lemma_claim_run_steps(arena, claimed, idx, cnt);
        let c = n.children[call_slot(n.ordering[pos])] as int;
        lemma_walk_claims_local(arena, closed.1, c, 0, 0);
        let child = walk(arena, closed.1, c, 0, 0);
        lemma_walk_claims_own_frame(arena, child.1, idx, pos + 1, 0);
    } else if n.ordering[pos] is Step {
        lemma_count_steps_grow(n.ordering, pos);
        lemma_walk_claims_own_frame(arena, claimed, idx, pos + 1, cnt + 1);
    } else {
        lemma_count_steps_grow(n.ordering, pos);
        lemma_walk_claims_own_frame(arena, claimed, idx, pos + 1, cnt);
    }
}

/// The frames that the walk of frame `n` still calls from ordering
/// position `pos` on, in call order.
pub open spec fn called_from(n: TraceNodeView, pos: int) -> Seq<int>
    decreases n.ordering.len() - pos,
        when 0 <= pos <= n.ordering.len()
{
    if pos >= n.ordering.len() {
        Seq::empty()
    } else {
        let rest = called_from(n, pos + 1);
        if n.ordering[pos] is Call {
            seq![n.children[call_slot(n.ordering[pos])] as int] + rest
        } else {
            rest
        }
    }
}

/// The called frames' spans tile `[lo, hi)` exactly: the first called
/// frame is `lo`, each next one starts where the previous one's span
/// ends, and the last span ends at `hi`.
pub open spec fn chain_ok(
    arena: Seq<TraceNodeView>,
    end: Seq<int>,
    calls: Seq<int>,
    lo: int,
    hi: int,
) -> bool
    decreases calls.len(),
{
    if calls.len() == 0 {
        lo == hi
    } else {
        0 <= calls[0] < arena.len() && calls[0] == lo && chain_ok(
            arena,
            end,
            calls.subrange(1, calls.len() as int),
            end[calls[0]],
            hi,
        )
    }
}

/// A preorder recording: each frame `i` owns the index span
/// `[i, end[i])`, and the frames it calls tile `[i + 1, end[i])` in
/// call order.  Recordings taken in execution order have this shape.
pub open spec fn wf_spans(arena: Seq<TraceNodeView>, end: Seq<int>) -> bool {
    end.len() == arena.len() && (forall|i: int|
        0 <= i < arena.len() ==> i + 1 <= #[trigger] end[i] <= arena.len() && chain_ok(
            arena,
            end,
            called_from(arena[i], 0),
            i + 1,
            end[i],
        ))
}

proof fn lemma_chain_bounds(
    arena: Seq<TraceNodeView>,
    end: Seq<int>,
    calls: Seq<int>,
    lo: int,
    hi: int,
)
    requires
        wf_spans(arena, end),
        chain_ok(arena, end, calls, lo, hi),
    ensures
        lo <= hi,
        calls.len() > 0 ==> lo < hi,
    decreases calls.len(),
{
    if calls.len() > 0 {
        lemma_chain_bounds(arena, end, calls.subrange(1, calls.len() as int), end[calls[0]], hi);
    }
}

/// Where the not-yet-walked part of the span begins.
pub open spec fn rem_lo(calls: Seq<int>, hi: int) -> int {
    if calls.len() == 0 {
        hi
    } else {
        calls[0]
    }
}

/// The heart of tree completeness: walking frame `idx` claims in full
/// every frame of the still-unwalked part of its span, claims `idx`
/// itself in full, and touches no other frame.
proof fn lemma_walk_spans(
    arena: Seq<TraceNodeView>,
    end: Seq<int>,
    claimed: Seq<int>,
    idx: int,
    pos: int,
    cnt: int,
)
    requires
        wf_arena(arena),
        wf_spans(arena, end),
        claims_wf(arena, claimed),
        0 <= idx < arena.len(),
        0 <= pos <= arena[idx].ordering.len(),
        0 <= cnt,
        claimed[idx] + cnt == count_steps(arena[idx].ordering.subrange(0, pos)),
        chain_ok(
            arena,
            end,
            called_from(arena[idx], pos),
            rem_lo(called_from(arena[idx], pos), end[idx]),
            end[idx],
        ),
        forall|j: int|
            rem_lo(called_from(arena[idx], pos), end[idx]) <= j < end[idx] ==> #[trigger] claimed[j]
                == 0,
    ensures
        ({
            let rc = walk(arena, claimed, idx, pos, cnt).1;
            rc[idx] == arena[idx].steps.len() && (forall|j: int|
                rem_lo(called_from(arena[idx], pos), end[idx]) <= j < end[idx] ==> #[trigger] rc[j]
                    == arena[j].steps.len()) && (forall|j: int|
                0 <= j < claimed.len() && j != idx && !(rem_lo(
                    called_from(arena[idx], pos),
                    end[idx],
                ) <= j < end[idx]) ==> #[trigger] rc[j] == claimed[j])
        }),
    decreases arena.len() - idx, arena[idx].ordering.len() - pos,
{
    let n = arena[idx];
    assert(wf_node(arena, idx));
    lemma_count_steps_prefix(n.ordering, pos);
    let calls = called_from(n, pos);
    let lo = rem_lo(calls, end[idx]);
    lemma_chain_bounds(arena, end, calls, lo, end[idx]);
    if pos >= n.ordering.len() {
        assert(n.ordering.subrange(0, pos) =~= n.ordering);
        lemma_claim_run_steps(arena, claimed, idx, cnt);
    } else if n.ordering[pos] is Call {
        assert(wf_event(arena, idx, n.ordering[pos]));
        lemma_count_steps_grow(n.ordering, pos);
        let c = n.children[call_slot(n.ordering[pos])] as int;
        let rest_calls = called_from(n, pos + 1);
        assert(calls == seq![c] + rest_calls);
        assert(calls[0] == c);
        assert(calls.subrange(1, calls.len() as int) =~= rest_calls);
        assert(c == lo);
        assert(chain_ok(arena, end, rest_calls, end[c], end[idx]));
        lemma_chain_bounds(arena, end, rest_calls, end[c], end[idx]);
        assert(rem_lo(rest_calls, end[idx]) == end[c]);
        let closed = claim_run(arena, claimed, idx, cnt);
        lemma_claim_run_steps(arena, claimed, idx, cnt);
        // the child's own span invariant comes from the global one
        assert(c + 1 <= end[c] <= arena.len() && chain_ok(
            arena,
            end,
            called_from(arena[c], 0),
            c + 1,
            end[c],
        ));
        assert(rem_lo(called_from(arena[c], 0), end[c]) == c + 1) by {
            if called_from(arena[c], 0).len() > 0 {
                assert(chain_ok(
                    arena,
                    end,
                    called_from(arena[c], 0),
                    c + 1,
                    end[c],
                ));
            }
        }
        assert(arena[c].ordering.subrange(0, 0) =~= Seq::<TraceEvent>::empty());
        lemma_walk_spans(arena, end, closed.1, c, 0, 0);
        let child = walk(arena, closed.1, c, 0, 0);
        lemma_walk_claims_local(arena, closed.1, c, 0, 0);
        lemma_walk_spans(arena, end, child.1, idx, pos + 1, 0);
    } else if n.ordering[pos] is Step {
        lemma_count_steps_grow(n.ordering, pos);
        assert(called_from(n, pos + 1) == calls);
        lemma_walk_spans(arena, end, claimed, idx, pos + 1, cnt + 1);
    } else {
        lemma_count_steps_grow(n.ordering, pos);
        assert(called_from(n, pos + 1) == calls);
        lemma_walk_spans(arena, end, claimed, idx, pos + 1, cnt);
    }
}

/// The total step count recorded over all frames of the arena.
pub open spec fn total_recorded_steps(arena: Seq<TraceNodeView>) -> int
    decreases arena.len(),
{
    if arena.len() == 0 {
        0
    } else {
        total_recorded_steps(arena.drop_last()) + arena.last().steps.len()
    }
}

proof fn lemma_full_claims_total(arena: Seq<TraceNodeView>, claimed: Seq<int>)
    requires
        claimed.len() == arena.len(),
        forall|j: int| 0 <= j < arena.len() ==> #[trigger] claimed[j] == arena[j].steps.len(),
    ensures
        total_claimed(claimed) == total_recorded_steps(arena),
    decreases arena.len(),
{
    if arena.len() > 0 {
        lemma_full_claims_total(arena.drop_last(), claimed.drop_last());
    }
}

/// Flattening completeness for a preorder recording: the walk claims
/// every frame of the arena in full, so the instruction steps of the
/// emitted debug nodes sum to exactly the total step count of the raw
/// trace — no step duplicated, none dropped.
pub proof fn lemma_flatten_complete_tree(arena: Seq<TraceNodeView>, end: Seq<int>)
    requires
        wf_arena(arena),
        wf_spans(arena, end),
        arena.len() > 0,
        end[0] == arena.len(),
    ensures
        emitted_steps(flatten_arena(arena)) == total_recorded_steps(arena),
{
    let zeros = no_claims(arena);
    assert(claims_wf(arena, zeros));
    assert(arena[0].ordering.subrange(0, 0) =~= Seq::<TraceEvent>::empty());
    assert(rem_lo(called_from(arena[0], 0), end[0]) == 1) by {
        if called_from(arena[0], 0).len() > 0 {
            assert(chain_ok(arena, end, called_from(arena[0], 0), 1, end[0]));
        }
    }
    lemma_walk_spans(arena, end, zeros, 0, 0, 0);
    lemma_walk_steps_claimed(arena, zeros, 0, 0, 0);
    lemma_total_claimed_zeros(arena.len());
    let rc = walk(arena, zeros, 0, 0, 0).1;
    lemma_full_claims_total(arena, rc);
}

/// Flattening completeness for one recorded tree: the steps of the
/// emitted debug nodes sum to exactly the raw steps the walk claimed,
/// each claim a fresh contiguous slice of its frame, and the entry
/// frame's recorded steps are claimed in full.
pub proof fn lemma_flatten_complete(arena: Seq<TraceNodeView>)
    requires
        wf_arena(arena),
        arena.len() > 0,
    ensures
        ({
            let w = walk(arena, no_claims(arena), 0, 0, 0);
            claims_wf(arena, w.1) && emitted_steps(flatten_arena(arena)) == total_claimed(w.1)
                && w.1[0] == arena[0].steps.len()
        }),
{
    let zeros = no_claims(arena);
    assert(claims_wf(arena, zeros));
    lemma_total_claimed_zeros(arena.len());
    lemma_walk_steps_claimed(arena, zeros, 0, 0, 0);
    assert(arena[0].ordering.subrange(0, 0) =~= Seq::<TraceEvent>::empty());
    lemma_walk_claims_own_frame(arena, zeros, 0, 0, 0);
}

/// Builds a debugging session's inputs; the flattening step is the part
/// with logic of its own.
pub struct DebuggerBuilder;

impl DebuggerBuilder {
    /// Flattens recorded trace trees into the ordered debug-node
    /// timeline, one tree after the other.
    pub fn into_nodes(traces: Vec<TraceArena>) -> (r: Vec<FlatDebugNode>)
        requires
            forall|t: int| 0 <= t < traces@.len() ==> wf_arena(#[trigger] traces@[t]@),
        ensures
            views_of(r@) == flatten_traces(traces@.map_values(|a: TraceArena| a@)),
    {
        let ghost all = traces@.map_values(|a: TraceArena| a@);
        let mut traces = traces;
        let mut out: Vec<FlatDebugNode> = Vec::new();
        let n = traces.len();
        let mut t: usize = 0;
        while t < n
            invariant
                t <= n,
                n == all.len(),
                traces@.map_values(|a: TraceArena| a@) =~= all.subrange(t as int, n as int),
                forall|i: int| 0 <= i < all.len() ==> wf_arena(#[trigger] all[i]),
                views_of(out@) == flatten_traces(all.subrange(0, t as int)),
            decreases n - t,
        {
            let ghost tr_head = traces@;
            proof {
                assert(traces@.map_values(|a: TraceArena| a@).len() == traces@.len());
                assert(traces@.map_values(|a: TraceArena| a@)[0] == traces@[0]@);
                assert(traces@[0]@ == all[t as int]);
            }
            let mut arena = traces.remove(0);
            let ghost origs = arena@;
            let ghost out_before = out@;
            if arena.nodes.len() > 0 {
                proof {
                    assert forall|i: int| 0 <= i < arena.nodes@.len()
                        implies #[trigger] arena.nodes@[i]@ == consumed_node(
                        origs[i],
                        no_claims(origs)[i],
                    ) by {
                        assert(arena.nodes@[i]@.steps.subrange(
                            0,
                            arena.nodes@[i]@.steps.len() as int,
                        ) =~= arena.nodes@[i]@.steps);
                        assert(arena.nodes@[i]@ =~~= consumed_node(origs[i], 0));
                    }
                    assert(claims_wf(origs, no_claims(origs)));
                }
                let _ = flatten_node(
                    &mut arena.nodes,
                    Ghost(origs),
                    Ghost(no_claims(origs)),
                    0,
                    &mut out,
                );
                proof {
                    assert(views_of(out@) =~~= views_of(out_before) + flatten_arena(origs));
                }
            }
            t = t + 1;
            proof {
                let grown = all.subrange(0, t as int);
                assert(grown.drop_last() =~= all.subrange(0, t - 1 as int));
                assert(grown.last() == all[t - 1 as int]);
                if origs.len() == 0 {
                    assert(flatten_arena(origs) =~~= Seq::<DebugNodeView>::empty());
                    assert(views_of(out@) =~~= views_of(out_before) + flatten_arena(origs));
                }
                assert(views_of(out@) =~~= flatten_traces(grown));
                assert(traces@ =~= tr_head.subrange(1, tr_head.len() as int));
                assert forall|i: int| 0 <= i < traces@.len() implies #[trigger] traces@[i]@ == all[t
                    + i] by {
                    assert(traces@[i] == tr_head[i + 1]);
                    assert(tr_head.map_values(|a: TraceArena| a@)[i + 1] == tr_head[i + 1]@);
                    assert(tr_head.map_values(|a: TraceArena| a@)[i + 1] == all.subrange(
                        t - 1 as int,
                        n as int,
                    )[i + 1]);
                }
                assert forall|i: int|
                    0 <= i < traces@.len() implies traces@.map_values(|a: TraceArena| a@)[i]
                    == all.subrange(t as int, n as int)[i] by {
                    assert(traces@.map_values(|a: TraceArena| a@)[i] == traces@[i]@);
                }
                assert(traces@.map_values(|a: TraceArena| a@) =~= all.subrange(t as int, n as int));
            }
        }
        proof {
            assert(all.subrange(0, n as int) =~= all);
        }
        out
    }
}

} // verus!
