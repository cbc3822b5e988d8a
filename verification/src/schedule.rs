//! When answers become known, and in which order, does not matter to the nodes of a stream.

use vstd::prelude::*;

use crate::graph::CommitGraph;
use crate::laws::{law_end_is_final, lemma_hashes_finite, lemma_ready};
use crate::node_stream::NodeStreamView;
use crate::runs::{
    after, after_event, asked_hint, can_take, given, is_fetch_run, is_new, is_ordered_stream,
    is_true_fetch, lemma_can_take, lemma_ordered_run, lemma_possible_run, lemma_requests,
    lemma_started_ordered, lemma_with_generations, Event,
};
use crate::stream_view::{
    is_above, lemma_advanced_smaller, ExcludeView, PolledView, StreamView,
};
use crate::types::{greatest, ChangesetId, Generation};
use crate::walk::{given_after, has_generations, is_ordered_walk, owes};

verus! {

/// What is answered when a hint is asked for, given the frontier and the generation.
pub type Hints = spec_fn(Set<(ChangesetId, Generation)>, Generation) -> Set<
    (ChangesetId, Generation),
>;

/// Whether nothing fails, and every hint is the one that `hints` tells for the frontier and the
/// generation that the poll which asked for it has given.
pub open spec fn is_answered_run(hints: Hints, s: NodeStreamView, events: Seq<Event>) -> bool
    decreases events.len(),
{
    events.len() > 0 ==> {
        &&& is_answered_run(hints, s, events.drop_last())
        &&& match events.last() {
            Event::HintReady { hint } => {
                let (frontier, generation) = asked_hint(s, events.drop_last())->0;
                hint == hints(frontier, generation)
            },
            Event::FetchFailed { .. } | Event::HintFailed => false,
            _ => true,
        }
    }
}

/// Whether the event is no failure, and no hint but the one that `hints` tells for the frontier
/// that the stream has given away.
pub open spec fn is_answered(hints: Hints, s: NodeStreamView, event: Event) -> bool {
    match event {
        Event::HintReady { hint } => {
            let exclude = s->Streaming_0.exclude;
            hint == hints(exclude->frontier, exclude->generation)
        },
        Event::FetchFailed { .. } | Event::HintFailed => false,
        _ => true,
    }
}

/// The stream with all that it waits for: the parents of the nodes that it gave out, with their
/// generations, and the hint.
spec fn settled(graph: CommitGraph, hints: Hints, v: StreamView) -> StreamView {
    StreamView {
        next_generation: Set::new(
            |p: (ChangesetId, Generation)|
                v.next_generation.contains(p) || (p.1 == (graph.generation)(p.0) && exists|slot: int|
                    owes(graph, v, slot, p.0)),
        ),
        pending_changesets: Seq::empty(),
        exclude: match v.exclude {
            ExcludeView::Moving { frontier, generation } => ExcludeView::Ready(
                hints(frontier, generation),
            ),
            other => other,
        },
        ..v
    }
}

/// The stream after `steps` polls, where all that it waits for becomes known at once.
spec fn prompt(graph: CommitGraph, hints: Hints, v: StreamView, steps: nat) -> StreamView
    decreases steps,
{
    if steps == 0 {
        v
    } else {
        settled(graph, hints, prompt(graph, hints, v, (steps - 1) as nat).polled().0)
    }
}

/// The nodes that are given out by `steps` polls, where all that the stream waits for becomes known
/// at once.
spec fn promptly_given(graph: CommitGraph, hints: Hints, v: StreamView, steps: nat) -> Seq<
    ChangesetId,
>
    decreases steps,
{
    if steps == 0 {
        Seq::empty()
    } else {
        let fewer = (steps - 1) as nat;
        given_after(
            promptly_given(graph, hints, v, fewer),
            prompt(graph, hints, v, fewer).polled().1,
        )
    }
}

/// Whether the stream goes on: a poll gives a node or asks for a hint.
spec fn goes_on(res: PolledView) -> bool {
    res is Node || res is LcaHint
}

/// The number of polls that give a node or ask for a hint.
spec fn steps(s: NodeStreamView, events: Seq<Event>) -> nat
    decreases events.len(),
{
    if events.len() == 0 {
        0
    } else {
        let fewer = steps(s, events.drop_last());
        if events.last() is Poll && goes_on(after(s, events.drop_last()).polled().1) {
            fewer + 1
        } else {
            fewer
        }
    }
}

/// A stream that waits for nothing is settled.
proof fn lemma_settled_itself(graph: CommitGraph, hints: Hints, v: StreamView)
    requires
        v.exclude is Ready,
        v.pending_exhausted(),
    ensures
        settled(graph, hints, v) == (StreamView { pending_changesets: Seq::empty(), ..v }),
{
    assert forall|slot: int, n: ChangesetId| !#[trigger] owes(graph, v, slot, n) by {
        if owes(graph, v, slot, n) {
            assert(v.pending_changesets[slot].query() is None);
        }
    }
    assert(settled(graph, hints, v).next_generation =~= v.next_generation);
}

/// A poll of a stream that waits for something, against one of the stream with what it waits for.
proof fn lemma_polled_settled(graph: CommitGraph, hints: Hints, v: StreamView)
    requires
        v.next_generation.finite(),
        settled(graph, hints, v).next_generation.finite(),
        v.exclude is Ready || (v.exclude is Moving && !v.drain.is_empty()),
    ensures
        ({
            let c = settled(graph, hints, v);
            let (next, res) = v.polled();
            &&& goes_on(res) ==> {
                &&& settled(graph, hints, next) == settled(graph, hints, c.polled().0)
                &&& goes_on(c.polled().1)
                &&& forall|given: Seq<ChangesetId>| #[trigger]
                    given_after(given, res) == given_after(given, c.polled().1)
            }
            &&& !goes_on(res) ==> settled(graph, hints, next).polled() == c.polled()
            &&& res is End ==> c.polled().1 is End
        }),
{
    let c = settled(graph, hints, v);
    if v.exclude is Moving {
    } else if !v.drain.is_empty() && is_above(v.exclude->Ready_0, v.current_generation) {
        let next = v.asking();
        assert forall|slot: int, n: ChangesetId| #[trigger] owes(graph, next, slot, n) == owes(
            graph,
            v,
            slot,
            n,
        ) by {}
        lemma_same_owed(graph, hints, v, next);
        assert forall|slot: int, n: ChangesetId| !#[trigger] owes(graph, c.asking(), slot, n) by {}
        assert(settled(graph, hints, next) =~= settled(graph, hints, c.asking()));
    } else if !v.kept().is_empty() {
        assert(c.kept() =~= v.kept());
        let node = greatest(v.kept());
        lemma_given_out_settled(graph, hints, v, node);
    } else {
        assert(c.kept() =~= v.kept());
        assert(c.pending_exhausted());
        if !v.pending_exhausted() {
            let next = v.drained();
            lemma_same_owed(graph, hints, v, next);
            let d = settled(graph, hints, next);
            assert(d.drain =~= Set::<ChangesetId>::empty());
            assert(d.kept() =~= Set::<ChangesetId>::empty());
            assert(d.collected() =~= c.collected());
        } else {
            lemma_settled_itself(graph, hints, v);
            assert(c.collected() =~= v.collected());
            assert(c.polled() == v.polled());
            if v.polled().1 is End {
                law_end_is_final(NodeStreamView::Streaming(v));
                lemma_end_settled(graph, hints, v);
            } else {
                lemma_ready(v);
            }
        }
    }
}

/// Two streams that differ at most in what they look at first.
proof fn lemma_same_owed(graph: CommitGraph, hints: Hints, v: StreamView, t: StreamView)
    requires
        t.next_generation == v.next_generation,
        t.pending_changesets == v.pending_changesets,
    ensures
        settled(graph, hints, t).next_generation == settled(graph, hints, v).next_generation,
{
    assert forall|p: (ChangesetId, Generation)|
        settled(graph, hints, t).next_generation.contains(p) == settled(
            graph,
            hints,
            v,
        ).next_generation.contains(p) by {
        if exists|slot: int| owes(graph, v, slot, p.0) {
            let slot = choose|slot: int| owes(graph, v, slot, p.0);
            assert(owes(graph, t, slot, p.0));
        }
        if exists|slot: int| owes(graph, t, slot, p.0) {
            let slot = choose|slot: int| owes(graph, t, slot, p.0);
            assert(owes(graph, v, slot, p.0));
        }
    }
    assert(settled(graph, hints, t).next_generation =~= settled(graph, hints, v).next_generation);
}

/// Giving out a node makes its parents owed, whatever else is.
proof fn lemma_given_out_settled(
    graph: CommitGraph,
    hints: Hints,
    v: StreamView,
    node: ChangesetId,
)
    ensures
        settled(graph, hints, v.given_out(node)).next_generation == settled(
            graph,
            hints,
            settled(graph, hints, v).given_out(node),
        ).next_generation,
{
    let c = settled(graph, hints, v);
    let t = v.given_out(node);
    let u = c.given_out(node);
    let last = v.pending_changesets.len() as int;
    assert forall|p: (ChangesetId, Generation)|
        settled(graph, hints, t).next_generation.contains(p) == settled(
            graph,
            hints,
            u,
        ).next_generation.contains(p) by {
        assert(owes(graph, u, 0, p.0) == owes(graph, t, last, p.0));
        assert forall|slot: int| #[trigger] owes(graph, u, slot, p.0) implies slot == 0 by {}
        assert forall|slot: int| 0 <= slot < last implies owes(graph, t, slot, p.0)
            == #[trigger] owes(graph, v, slot, p.0) by {}
        if exists|slot: int| owes(graph, t, slot, p.0) {
            let slot = choose|slot: int| owes(graph, t, slot, p.0);
            if slot < last {
                assert(owes(graph, v, slot, p.0));
            } else {
                assert(slot == last);
            }
        }
        if exists|slot: int| owes(graph, v, slot, p.0) {
            let slot = choose|slot: int| owes(graph, v, slot, p.0);
            assert(owes(graph, t, slot, p.0));
        }
    }
    assert(settled(graph, hints, t).next_generation =~= settled(graph, hints, u).next_generation);
}

/// A stream that has ended waits for nothing.
proof fn lemma_end_settled(graph: CommitGraph, hints: Hints, v: StreamView)
    requires
        v.next_generation.finite(),
        v.exclude is Ready,
        v.polled().1 is End,
    ensures
        settled(graph, hints, v.polled().0) == v.polled().0,
    decreases v.next_generation.len(),
{
    if v.turns() {
        lemma_advanced_smaller(v.collected());
        lemma_end_settled(graph, hints, v.collected().advanced());
    } else {
        lemma_settled_itself(graph, hints, v.collected());
        assert(settled(graph, hints, v.collected()) =~= v.collected());
    }
}

/// What becomes known was waited for.
proof fn lemma_answer_settled(
    graph: CommitGraph,
    hints: Hints,
    v: StreamView,
    event: Event,
)
    requires
        can_take(NodeStreamView::Streaming(v), event),
        is_true_fetch(graph, NodeStreamView::Streaming(v), event),
        is_answered(hints, NodeStreamView::Streaming(v), event),
        !(event is Poll),
    ensures
        settled(
            graph,
            hints,
            after_event(NodeStreamView::Streaming(v), event)->Streaming_0,
        ) == settled(graph, hints, v),
{
    let t = after_event(NodeStreamView::Streaming(v), event)->Streaming_0;
    match event {
        Event::ParentsFetched { slot, parents } => {
            assert forall|i: int, n: ChangesetId| #[trigger] owes(graph, t, i, n) == owes(
                graph,
                v,
                i,
                n,
            ) by {}
            assert forall|p: (ChangesetId, Generation)|
                settled(graph, hints, t).next_generation.contains(p) == settled(
                    graph,
                    hints,
                    v,
                ).next_generation.contains(p) by {
                if exists|i: int| owes(graph, v, i, p.0) {
                    let i = choose|i: int| owes(graph, v, i, p.0);
                    assert(owes(graph, t, i, p.0));
                }
            }
        },
        Event::GenerationFetched { source, generation } => {
            let slot = source->Pending_0 as int;
            let rest = v.pending_changesets[slot]->Generations_0;
            assert(rest.contains(rest[0]));
            assert(owes(graph, v, slot, rest[0]));
            assert forall|p: (ChangesetId, Generation)|
                settled(graph, hints, t).next_generation.contains(p) == settled(
                    graph,
                    hints,
                    v,
                ).next_generation.contains(p) by {
                if exists|i: int| owes(graph, v, i, p.0) {
                    let i = choose|i: int| owes(graph, v, i, p.0);
                    if i != slot {
                        assert(owes(graph, t, i, p.0));
                    } else if p.0 != rest[0] {
                        let j = rest.index_of(p.0);
                        assert(rest.drop_first()[j - 1] == p.0);
                        assert(owes(graph, t, i, p.0));
                    }
                }
                if exists|i: int| owes(graph, t, i, p.0) {
                    let i = choose|i: int| owes(graph, t, i, p.0);
                    if i == slot {
                        let j = rest.drop_first().index_of(p.0);
                        assert(rest[j + 1] == p.0);
                    }
                    assert(owes(graph, v, i, p.0));
                }
            }
        },
        _ => {
            lemma_same_owed(graph, hints, v, t);
        },
    }
    assert(settled(graph, hints, t) =~= settled(graph, hints, v));
}

/// What a stream has found, or waits for, is finite.
proof fn lemma_settled_finite(
    graph: CommitGraph,
    hints: Hints,
    hashes: Set<ChangesetId>,
    v: StreamView,
    given: Seq<ChangesetId>,
)
    requires
        graph.wf(),
        hashes.finite(),
        is_ordered_walk(graph, hashes, v, given),
    ensures
        settled(graph, hints, v).next_generation.finite(),
{
    let all = with_generations(graph, graph.ancestors(hashes));
    graph.lemma_ancestors_finite(hashes);
    graph.ancestors(hashes).lemma_map_finite(|n: ChangesetId| (n, (graph.generation)(n)));
    let s = settled(graph, hints, v).next_generation;
    assert forall|p: (ChangesetId, Generation)| s.contains(p) implies all.contains(p) by {
        if v.next_generation.contains(p) {
        } else {
            let slot = choose|slot: int| owes(graph, v, slot, p.0);
            assert(owes(graph, v, slot, p.0));
        }
        assert(p == (p.0, (graph.generation)(p.0)));
        assert(graph.ancestors(hashes).contains(p.0));
    }
    vstd::set_lib::lemma_set_subset_finite(all, s);
}

/// The nodes, each with its generation.
spec fn with_generations(graph: CommitGraph, nodes: Set<ChangesetId>) -> Set<
    (ChangesetId, Generation),
> {
    nodes.map(|n: ChangesetId| (n, (graph.generation)(n)))
}

/// The stream that is made with the generations of the graph.
spec fn first(
    graph: CommitGraph,
    hashes: Set<ChangesetId>,
    excludes: Set<ChangesetId>,
) -> StreamView {
    StreamView::start(with_generations(graph, hashes), with_generations(graph, excludes))
}

/// Once the generations of given nodes are known, they are the given nodes with their generations.
proof fn lemma_input_generations(graph: CommitGraph, nodes: Set<ChangesetId>, s: Set<
    (ChangesetId, Generation),
>)
    requires
        has_generations(graph, s),
        s.map(|p: (ChangesetId, Generation)| p.0) == nodes,
    ensures
        s == with_generations(graph, nodes),
{
    let ids = s.map(|p: (ChangesetId, Generation)| p.0);
    assert forall|p: (ChangesetId, Generation)| s.contains(p) == with_generations(
        graph,
        nodes,
    ).contains(p) by {
        if s.contains(p) {
            assert(ids.contains(p.0));
            assert(p == (p.0, (graph.generation)(p.0)));
        }
        if with_generations(graph, nodes).contains(p) {
            let n = choose|n: ChangesetId| nodes.contains(n) && p == (n, (graph.generation)(n));
            let q = choose|q: (ChangesetId, Generation)| s.contains(q) && q.0 == n;
            assert(q == p);
        }
    }
    assert(s =~= with_generations(graph, nodes));
}

/// How far a stream is on its way.
spec fn is_on_its_way(
    graph: CommitGraph,
    hints: Hints,
    v0: StreamView,
    v: StreamView,
    given: Seq<ChangesetId>,
    steps: nat,
) -> bool {
    &&& settled(graph, hints, v).polled() == prompt(graph, hints, v0, steps).polled()
    &&& given == promptly_given(graph, hints, v0, steps)
    &&& forall|m: nat| m < steps ==> goes_on((#[trigger] prompt(graph, hints, v0, m)).polled().1)
}

/// A poll takes a stream on its way by a step, or by none.
proof fn lemma_polled_on_its_way(
    graph: CommitGraph,
    hints: Hints,
    hashes: Set<ChangesetId>,
    v0: StreamView,
    v: StreamView,
    given: Seq<ChangesetId>,
    steps: nat,
)
    requires
        graph.wf(),
        hashes.finite(),
        is_ordered_walk(graph, hashes, v, given),
        !(v.exclude is Failed),
        is_on_its_way(graph, hints, v0, v, given, steps),
    ensures
        is_on_its_way(
            graph,
            hints,
            v0,
            v.polled().0,
            given_after(given, v.polled().1),
            if goes_on(v.polled().1) {
                (steps + 1) as nat
            } else {
                steps
            },
        ),
        v.polled().1 is End ==> prompt(graph, hints, v0, steps).polled().1 is End,
{
    lemma_settled_finite(graph, hints, hashes, v, given);
    lemma_polled_settled(graph, hints, v);
    if goes_on(v.polled().1) {
        let more = (steps + 1) as nat;
        assert(prompt(graph, hints, v0, more) == settled(graph, hints, v.polled().0));
        assert forall|m: nat| m < more implies goes_on(
            (#[trigger] prompt(graph, hints, v0, m)).polled().1,
        ) by {
            if m == steps {
            }
        }
    }
}

/// What holds of a run.
proof fn lemma_run_on_its_way(
    graph: CommitGraph,
    hints: Hints,
    hashes: Set<ChangesetId>,
    excludes: Set<ChangesetId>,
    s: NodeStreamView,
    events: Seq<Event>,
)
    requires
        graph.wf(),
        is_new(graph, hashes, excludes, s),
        is_fetch_run(graph, s, events),
        is_answered_run(hints, s, events),
    ensures
        match after(s, events) {
            NodeStreamView::Starting { .. } => steps(s, events) == 0 && given(s, events)
                =~= Seq::empty(),
            NodeStreamView::Streaming(v) => !(v.exclude is Failed) && is_on_its_way(
                graph,
                hints,
                first(graph, hashes, excludes),
                v,
                given(s, events),
                steps(s, events),
            ),
            NodeStreamView::Ended => false,
        },
    decreases events.len(),
{
    let v0 = first(graph, hashes, excludes);
    lemma_hashes_finite(graph, hashes, excludes, s);
    if events.len() > 0 {
        let events0 = events.drop_last();
        let before = after(s, events0);
        let out = given(s, events0);
        let event = events.last();
        lemma_run_on_its_way(graph, hints, hashes, excludes, s, events0);
        lemma_possible_run(graph, s, events);
        lemma_requests(s, events0);
        lemma_can_take(s, events);
        lemma_ordered_run(graph, hashes, excludes, s, events0);
        if event is Poll && before.is_started() {
            let v = before.started();
            if before is Starting {
                lemma_started_first(graph, hints, hashes, excludes, before, out);
            }
            lemma_started_ordered(graph, hashes, excludes, before, out);
            assert(before.polled().1 == v.polled().1);
            lemma_polled_exclude_kept(v);
            lemma_polled_on_its_way(graph, hints, hashes, v0, v, out, steps(s, events0));
        } else if let NodeStreamView::Streaming(v) = before {
            lemma_answer_settled(graph, hints, v, event);
        }
    } else if let NodeStreamView::Streaming(v) = s {
        lemma_input_generations(graph, hashes, v.next_generation);
        lemma_input_generations(graph, excludes, v.exclude->Ready_0);
        lemma_settled_itself(graph, hints, v);
        assert(settled(graph, hints, v) =~= v0);
    }
}

/// A poll does not lose the exclude frontier.
proof fn lemma_polled_exclude_kept(v: StreamView)
    requires
        v.next_generation.finite(),
        !(v.exclude is Failed),
    ensures
        !(v.polled().0.exclude is Failed),
    decreases v.next_generation.len(),
{
    if v.turns() {
        lemma_advanced_smaller(v.collected());
        lemma_polled_exclude_kept(v.collected().advanced());
    }
}

/// A stream that learns the generations of the given nodes starts as one that is made with them.
proof fn lemma_started_first(
    graph: CommitGraph,
    hints: Hints,
    hashes: Set<ChangesetId>,
    excludes: Set<ChangesetId>,
    s: NodeStreamView,
    given: Seq<ChangesetId>,
)
    requires
        graph.wf(),
        is_ordered_stream(graph, hashes, excludes, s, given),
        s is Starting,
        s.is_started(),
    ensures
        is_on_its_way(
            graph,
            hints,
            first(graph, hashes, excludes),
            s.started(),
            Seq::empty(),
            0,
        ),
{
    if let NodeStreamView::Starting { hashes: h, excludes: x } = s {
        lemma_with_generations(graph, hashes, h);
        lemma_with_generations(graph, excludes, x);
        lemma_input_generations(graph, hashes, h.with_generations());
        lemma_input_generations(graph, excludes, x.with_generations());
        lemma_settled_itself(graph, hints, s.started());
        assert(settled(graph, hints, s.started()) =~= first(graph, hashes, excludes));
    }
}

/// Fewer polls give out the first of the nodes that more polls give out.
proof fn lemma_prefix(graph: CommitGraph, hints: Hints, v: StreamView, fewer: nat, more: nat)
    requires
        fewer <= more,
    ensures
        promptly_given(graph, hints, v, fewer).is_prefix_of(promptly_given(graph, hints, v, more)),
    decreases more,
{
    if fewer < more {
        lemma_prefix(graph, hints, v, fewer, (more - 1) as nat);
    }
}

/// Take two runs of streams of the same nodes, in which nothing fails and what is asked for has the
/// same answers: the parents and generations of one graph, and the same hint for the same frontier
/// and generation, whatever the hints are. Whenever and in whatever order the answers become known,
/// and however often the streams are polled, one of the two has given out the first of the nodes
/// that the other has given out, in the same order. A stream that ends has given out at least as
/// many, and when both end, both have given out the same nodes.
pub proof fn law_late_answers_same_nodes(
    graph: CommitGraph,
    hints: Hints,
    hashes: Set<ChangesetId>,
    excludes: Set<ChangesetId>,
    s1: NodeStreamView,
    events1: Seq<Event>,
    s2: NodeStreamView,
    events2: Seq<Event>,
)
    requires
        graph.wf(),
        is_new(graph, hashes, excludes, s1),
        is_fetch_run(graph, s1, events1),
        is_answered_run(hints, s1, events1),
        is_new(graph, hashes, excludes, s2),
        is_fetch_run(graph, s2, events2),
        is_answered_run(hints, s2, events2),
    ensures
        given(s1, events1).is_prefix_of(given(s2, events2)) || given(s2, events2).is_prefix_of(
            given(s1, events1),
        ),
        after(s1, events1).polled().1 is End ==> given(s2, events2).is_prefix_of(
            given(s1, events1),
        ),
        after(s1, events1).polled().1 is End && after(s2, events2).polled().1 is End ==> given(
            s1,
            events1,
        ) == given(s2, events2),
{
    lemma_two_runs(graph, hints, hashes, excludes, s1, events1, s2, events2);
    lemma_two_runs(graph, hints, hashes, excludes, s2, events2, s1, events1);
    if after(s1, events1).polled().1 is End && after(s2, events2).polled().1 is End {
        assert(given(s1, events1) =~= given(s2, events2));
    }
}

/// A stream that has gone at least as far, or ends, has given out all that the other has.
proof fn lemma_two_runs(
    graph: CommitGraph,
    hints: Hints,
    hashes: Set<ChangesetId>,
    excludes: Set<ChangesetId>,
    s1: NodeStreamView,
    events1: Seq<Event>,
    s2: NodeStreamView,
    events2: Seq<Event>,
)
    requires
        graph.wf(),
        is_new(graph, hashes, excludes, s1),
        is_fetch_run(graph, s1, events1),
        is_answered_run(hints, s1, events1),
        is_new(graph, hashes, excludes, s2),
        is_fetch_run(graph, s2, events2),
        is_answered_run(hints, s2, events2),
    ensures
        steps(s2, events2) <= steps(s1, events1) ==> given(s2, events2).is_prefix_of(
            given(s1, events1),
        ),
        after(s1, events1).polled().1 is End ==> given(s2, events2).is_prefix_of(
            given(s1, events1),
        ),
{
    let v0 = first(graph, hashes, excludes);
    let n1 = steps(s1, events1);
    let n2 = steps(s2, events2);
    lemma_run_on_its_way(graph, hints, hashes, excludes, s1, events1);
    lemma_run_on_its_way(graph, hints, hashes, excludes, s2, events2);
    assert(given(s1, events1) =~= promptly_given(graph, hints, v0, n1));
    assert(given(s2, events2) =~= promptly_given(graph, hints, v0, n2));
    if n2 <= n1 {
        lemma_prefix(graph, hints, v0, n2, n1);
    } else if after(s1, events1).polled().1 is End {
        let last = after(s1, events1);
        let out = given(s1, events1);
        lemma_hashes_finite(graph, hashes, excludes, s1);
        lemma_ordered_run(graph, hashes, excludes, s1, events1);
        if last is Starting {
            lemma_started_first(graph, hints, hashes, excludes, last, out);
        }
        lemma_started_ordered(graph, hashes, excludes, last, out);
        lemma_polled_on_its_way(graph, hints, hashes, v0, last.started(), out, n1);
        assert(goes_on(prompt(graph, hints, v0, n1).polled().1));
    }
}

} // verus!
