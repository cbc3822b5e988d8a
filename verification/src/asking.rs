//! What a stream asks for in the course of a run.

use vstd::prelude::*;

use crate::graph::CommitGraph;
use crate::laws::law_hint_asked_when_above;
use crate::node_stream::{is_finite, NodeStreamView, Source};
use crate::pending::{PendingView, Query};
use crate::runs::{
    after, asked_hint, given, is_fetch_run, is_new, is_ordered_stream, is_possible_run,
    lemma_can_take, lemma_finite_event, lemma_ordered_run, lemma_polled_exclude,
    lemma_possible_run, lemma_requests, lemma_started_ordered, Event,
};
use crate::stream_view::{
    is_above, lemma_advanced_smaller, ExcludeView, PolledView, StreamView,
};
use crate::types::{greatest, lemma_greatest_exists, ChangesetId, Generation};
use crate::walk::{given_after, is_ordered_walk, lemma_advanced_ordered};

verus! {

/// The nodes whose parents are asked for and become known, or cannot be had, in the course of the
/// events.
pub open spec fn parents_asked(s: NodeStreamView, events: Seq<Event>) -> Seq<ChangesetId>
    decreases events.len(),
{
    if events.len() == 0 {
        Seq::empty()
    } else {
        let before = after(s, events.drop_last());
        let earlier = parents_asked(s, events.drop_last());
        let query = match events.last() {
            Event::ParentsFetched { slot, .. } => before.query(Source::Pending(slot)),
            Event::FetchFailed { source } => before.query(source),
            _ => None,
        };
        match query {
            Some(Query::Parents(node)) => earlier.push(node),
            _ => earlier,
        }
    }
}

/// Whether the parents of `node` are asked for in `slot`, and not known yet.
spec fn waits_for(v: StreamView, slot: int, node: ChangesetId) -> bool {
    0 <= slot < v.pending_changesets.len() && v.pending_changesets[slot] == PendingView::Parents(
        node,
    )
}

/// What holds of a stream, the nodes that it has given out, and those whose parents it has asked
/// for.
spec fn asks_once(v: StreamView, given: Seq<ChangesetId>, asked: Seq<ChangesetId>) -> bool {
    &&& asked.no_duplicates()
    &&& forall|n: ChangesetId| #[trigger] asked.contains(n) ==> given.contains(n)
    &&& forall|slot: int, n: ChangesetId| #[trigger]
        waits_for(v, slot, n) ==> given.contains(n) && !asked.contains(n)
    &&& forall|i: int, j: int, n: ChangesetId| #[trigger]
        waits_for(v, i, n) && #[trigger] waits_for(v, j, n) ==> i == j
    &&& forall|n: ChangesetId| #[trigger]
        given.contains(n) ==> asked.contains(n) || exists|slot: int| waits_for(v, slot, n)
}

/// Two streams that wait for the same parents.
proof fn lemma_same_waiting(
    v: StreamView,
    t: StreamView,
    given: Seq<ChangesetId>,
    asked: Seq<ChangesetId>,
)
    requires
        asks_once(v, given, asked),
        forall|slot: int, n: ChangesetId|
            #![trigger waits_for(v, slot, n)]
            #![trigger waits_for(t, slot, n)]
            waits_for(v, slot, n) == waits_for(t, slot, n),
    ensures
        asks_once(t, given, asked),
{
    assert forall|n: ChangesetId| #[trigger] given.contains(n) && !asked.contains(n) implies exists|
        slot: int,
    | waits_for(t, slot, n) by {
        let slot = choose|slot: int| waits_for(v, slot, n);
        assert(waits_for(v, slot, n));
        assert(waits_for(t, slot, n));
    }
}

/// A poll asks for the parents of the node that it gives out, and of no other. A stream that ends
/// has asked for the parents of all given nodes.
proof fn lemma_polled_asks(
    graph: CommitGraph,
    hashes: Set<ChangesetId>,
    v: StreamView,
    given: Seq<ChangesetId>,
    asked: Seq<ChangesetId>,
)
    requires
        is_ordered_walk(graph, hashes, v, given),
        asks_once(v, given, asked),
    ensures
        asks_once(v.polled().0, given_after(given, v.polled().1), asked),
        v.polled().1 is End ==> forall|n: ChangesetId| #[trigger]
            given.contains(n) ==> asked.contains(n),
    decreases v.next_generation.len(),
{
    if !v.drain.is_empty() && !(v.exclude is Ready) {
    } else if !v.drain.is_empty() && is_above(v.exclude->Ready_0, v.current_generation) {
        lemma_same_waiting(v, v.asking(), given, asked);
    } else if !v.kept().is_empty() {
        vstd::set_lib::lemma_set_subset_finite(v.drain, v.kept());
        lemma_greatest_exists(v.kept());
        let node = greatest(v.kept());
        assert(v.drain.contains(node));
        let t = v.given_out(node);
        let out = given.push(node);
        assert(out[given.len() as int] == node);
        assert forall|n: ChangesetId| #[trigger] out.contains(n) == (given.contains(n) || n == node) by {
            if given.contains(n) {
                assert(out[given.index_of(n)] == n);
            }
            if out.contains(n) && n != node {
                assert(given[out.index_of(n)] == n);
            }
        }
        assert forall|slot: int, n: ChangesetId| #[trigger]
            waits_for(t, slot, n) == (waits_for(v, slot, n) || (slot == v.pending_changesets.len() && n
                == node)) by {}
        assert(waits_for(t, v.pending_changesets.len() as int, node));
        assert forall|n: ChangesetId| #[trigger] out.contains(n) && !asked.contains(n) implies exists|
            slot: int,
        | waits_for(t, slot, n) by {
            if n != node {
                let slot = choose|slot: int| waits_for(v, slot, n);
                assert(waits_for(v, slot, n));
                assert(waits_for(t, slot, n));
            }
        }
    } else if !v.pending_exhausted() {
        lemma_same_waiting(v, v.drained(), given, asked);
    } else {
        assert forall|slot: int, n: ChangesetId| !#[trigger] waits_for(v, slot, n) by {
            if waits_for(v, slot, n) {
                assert(v.pending_changesets[slot].query() is None);
            }
        }
        assert forall|n: ChangesetId| #[trigger] given.contains(n) implies asked.contains(n) by {
            if !asked.contains(n) {
                let slot = choose|slot: int| waits_for(v, slot, n);
                assert(waits_for(v, slot, n));
            }
        }
        if !v.next_generation.is_empty() {
            let t = v.collected().advanced();
            lemma_advanced_smaller(v.collected());
            lemma_advanced_ordered(graph, hashes, v, given);
            assert(asks_once(t, given, asked));
            lemma_polled_asks(graph, hashes, t, given, asked);
        }
    }
}

/// A fetch for a slot that waits for parents.
proof fn lemma_parents_asked(
    v: StreamView,
    t: StreamView,
    given: Seq<ChangesetId>,
    asked: Seq<ChangesetId>,
    slot: int,
    node: ChangesetId,
)
    requires
        asks_once(v, given, asked),
        waits_for(v, slot, node),
        exists|p: PendingView|
            !(p is Parents) && t.pending_changesets == #[trigger] v.pending_changesets.update(slot, p),
    ensures
        asks_once(t, given, asked.push(node)),
{
    let more = asked.push(node);
    assert(more[asked.len() as int] == node);
    assert forall|n: ChangesetId| #[trigger] more.contains(n) == (asked.contains(n) || n == node) by {
        if asked.contains(n) {
            assert(more[asked.index_of(n)] == n);
        }
        if more.contains(n) && n != node {
            assert(asked[more.index_of(n)] == n);
        }
    }
    assert forall|i: int, n: ChangesetId| #[trigger]
        waits_for(t, i, n) == (waits_for(v, i, n) && i != slot) by {}
    assert(more.no_duplicates());
    assert forall|n: ChangesetId| #[trigger] given.contains(n) && !more.contains(n) implies exists|
        i: int,
    | waits_for(t, i, n) by {
        let i = choose|i: int| waits_for(v, i, n);
        assert(waits_for(v, i, n));
        assert(waits_for(t, i, n));
    }
}

/// What holds of a run.
proof fn lemma_run_asks(
    graph: CommitGraph,
    hashes: Set<ChangesetId>,
    excludes: Set<ChangesetId>,
    s: NodeStreamView,
    events: Seq<Event>,
)
    requires
        graph.wf(),
        is_new(graph, hashes, excludes, s),
        is_fetch_run(graph, s, events),
    ensures
        match after(s, events) {
            NodeStreamView::Streaming(v) => asks_once(
                v,
                given(s, events),
                parents_asked(s, events),
            ),
            _ => parents_asked(s, events).len() == 0,
        },
    decreases events.len(),
{
    if events.len() > 0 {
        let events0 = events.drop_last();
        let before = after(s, events0);
        let asked = parents_asked(s, events0);
        let out = given(s, events0);
        lemma_run_asks(graph, hashes, excludes, s, events0);
        lemma_possible_run(graph, s, events);
        lemma_can_take(s, events);
        lemma_ordered_run(graph, hashes, excludes, s, events0);
        match before {
            NodeStreamView::Starting { .. } => {
                if events.last() is Poll && before.is_started() {
                    lemma_start_asks(graph, hashes, excludes, before, out, asked);
                }
            },
            NodeStreamView::Streaming(v) => match events.last() {
                Event::Poll => lemma_polled_asks(graph, hashes, v, out, asked),
                Event::ParentsFetched { slot, parents } => {
                    let node = v.query(slot as int)->0->Parents_0;
                    let t = v.parents_fetched(slot as int, parents);
                    assert(t.pending_changesets == v.pending_changesets.update(
                        slot as int,
                        PendingView::Generations(parents),
                    ));
                    lemma_parents_asked(v, t, out, asked, slot as int, node);
                },
                Event::GenerationFetched { source, generation } => {
                    let t = v.generation_fetched(source->Pending_0 as int, generation);
                    lemma_same_waiting(v, t, out, asked);
                },
                Event::FetchFailed { source } => {
                    let slot = source->Pending_0 as int;
                    let t = v.fetch_failed(slot);
                    assert(t.pending_changesets == v.pending_changesets.update(
                        slot,
                        v.pending_changesets[slot].failed(),
                    ));
                    if let PendingView::Parents(node) = v.pending_changesets[slot] {
                        lemma_parents_asked(v, t, out, asked, slot, node);
                    } else {
                        lemma_same_waiting(v, t, out, asked);
                    }
                },
                Event::HintReady { hint } => {
                    lemma_same_waiting(v, v.with_exclude(ExcludeView::Ready(hint)), out, asked);
                },
                Event::HintFailed => {
                    lemma_same_waiting(v, v.with_exclude(ExcludeView::Failed), out, asked);
                },
            },
            NodeStreamView::Ended => {},
        }
    } else if let NodeStreamView::Streaming(v) = s {
        assert(forall|slot: int, n: ChangesetId| !waits_for(v, slot, n));
    }
}

/// The first poll that finds nodes.
proof fn lemma_start_asks(
    graph: CommitGraph,
    hashes: Set<ChangesetId>,
    excludes: Set<ChangesetId>,
    s: NodeStreamView,
    given: Seq<ChangesetId>,
    asked: Seq<ChangesetId>,
)
    requires
        graph.wf(),
        is_ordered_stream(graph, hashes, excludes, s, given),
        s is Starting,
        s.is_started(),
        asked.len() == 0,
    ensures
        asks_once(s.started().polled().0, given_after(given, s.started().polled().1), asked),
{
    lemma_started_ordered(graph, hashes, excludes, s, given);
    assert(forall|slot: int, n: ChangesetId| !waits_for(s.started(), slot, n));
    lemma_polled_asks(graph, hashes, s.started(), given, asked);
}

/// In the course of a run, whatever the hints and whether or not fetches fail, the parents of no
/// node are asked for twice, and those of given nodes only. When the stream ends, the parents of
/// every given node have been asked for: exactly once for each given node, and for no other.
pub proof fn law_parents_asked_once(
    graph: CommitGraph,
    hashes: Set<ChangesetId>,
    excludes: Set<ChangesetId>,
    s: NodeStreamView,
    events: Seq<Event>,
)
    requires
        graph.wf(),
        is_new(graph, hashes, excludes, s),
        is_fetch_run(graph, s, events),
    ensures
        parents_asked(s, events).no_duplicates(),
        parents_asked(s, events).to_set().subset_of(given(s, events).to_set()),
        after(s, events).polled().1 is End ==> parents_asked(s, events).to_set() == given(
            s,
            events,
        ).to_set(),
{
    lemma_run_asks(graph, hashes, excludes, s, events);
    lemma_ordered_run(graph, hashes, excludes, s, events);
    let asked = parents_asked(s, events);
    let out = given(s, events);
    let last = after(s, events);
    if last.polled().1 is End {
        match last {
            NodeStreamView::Streaming(v) => lemma_polled_asks(graph, hashes, v, out, asked),
            _ => {
                assert(out.len() == 0);
                assert(asked.len() == 0);
            },
        }
        assert(asked.to_set() =~= out.to_set());
    }
}

/// The generations for which hints are asked in the course of the events.
pub open spec fn hints_asked(s: NodeStreamView, events: Seq<Event>) -> Seq<Generation>
    decreases events.len(),
{
    if events.len() == 0 {
        Seq::empty()
    } else {
        let earlier = hints_asked(s, events.drop_last());
        let res = after(s, events.drop_last()).polled().1;
        match (events.last(), res) {
            (Event::Poll, PolledView::LcaHint { generation, .. }) => earlier.push(generation),
            _ => earlier,
        }
    }
}

/// Whether every hint keeps to the generation that it was asked for.
pub open spec fn keeps_to_generations(s: NodeStreamView, events: Seq<Event>) -> bool
    decreases events.len(),
{
    events.len() > 0 ==> {
        &&& keeps_to_generations(s, events.drop_last())
        &&& events.last() matches Event::HintReady { hint } ==> forall|
            p: (ChangesetId, Generation),
        | #[trigger]
            hint.contains(p) ==> p.1 <= (asked_hint(s, events.drop_last())->0).1
    }
}

/// What holds of a run.
proof fn lemma_hints_asked(s: NodeStreamView, events: Seq<Event>)
    requires
        is_finite(s),
        !s.awaits_hint(),
        is_possible_run(s, events),
        keeps_to_generations(s, events),
    ensures
        ({
            let asked = hints_asked(s, events);
            &&& is_finite(after(s, events))
            &&& forall|i: int, j: int|
                0 <= i < j < asked.len() ==> #[trigger] asked[i] > #[trigger] asked[j]
            &&& match after(s, events) {
                NodeStreamView::Streaming(v) => match v.exclude {
                    ExcludeView::Ready(frontier) => asked.len() > 0 ==> !is_above(
                        frontier,
                        asked.last(),
                    ),
                    ExcludeView::Moving { generation, .. } => asked.len() > 0 && asked.last()
                        == generation,
                    ExcludeView::Failed => true,
                },
                _ => asked.len() == 0,
            }
        }),
    decreases events.len(),
{
    if events.len() > 0 {
        let before = after(s, events.drop_last());
        let earlier = hints_asked(s, events.drop_last());
        lemma_hints_asked(s, events.drop_last());
        lemma_requests(s, events.drop_last());
        lemma_finite_event(before, events.last());
        if events.last() is Poll && before.is_started() {
            let v = before.started();
            lemma_polled_exclude(v);
            law_hint_asked_when_above(v);
            if let PolledView::LcaHint { frontier, generation } = v.polled().1 {
                let p = choose|p: (ChangesetId, Generation)| #[trigger]
                    frontier.contains(p) && p.1 > generation;
                assert(frontier.contains(p));
                assert(earlier.len() > 0 ==> p.1 <= earlier.last());
            }
        }
    }
}

/// In the course of a run whose hints keep to the generations that they were asked for, hints are
/// asked for smaller and smaller generations: at most one for a generation, however often the
/// stream is polled while it waits.
pub proof fn law_hints_asked_in_falling_order(s: NodeStreamView, events: Seq<Event>)
    requires
        is_finite(s),
        !s.awaits_hint(),
        is_possible_run(s, events),
        keeps_to_generations(s, events),
    ensures
        ({
            let asked = hints_asked(s, events);
            forall|i: int, j: int|
                0 <= i < j < asked.len() ==> #[trigger] asked[i] > #[trigger] asked[j]
        }),
        hints_asked(s, events).no_duplicates(),
{
    lemma_hints_asked(s, events);
}

/// Whether there is nothing to exclude.
spec fn has_no_excludes(s: NodeStreamView) -> bool {
    match s {
        NodeStreamView::Starting { excludes, .. } => excludes.nodes.len() == 0,
        NodeStreamView::Streaming(v) => v.exclude == ExcludeView::Ready(Set::empty()),
        NodeStreamView::Ended => true,
    }
}

/// Without excludes, no hint is ever asked for, whatever becomes known.
pub proof fn law_no_hints_without_excludes(
    graph: CommitGraph,
    hashes: Set<ChangesetId>,
    s: NodeStreamView,
    events: Seq<Event>,
)
    requires
        is_new(graph, hashes, Set::empty(), s),
        is_possible_run(s, events),
    ensures
        hints_asked(s, events).len() == 0,
{
    match s {
        NodeStreamView::Starting { excludes: x, .. } => {
            if x.nodes.len() > 0 {
                assert(x.nodes.contains(x.nodes[0]));
                assert(x.nodes.to_set().contains(x.nodes[0]));
            }
        },
        NodeStreamView::Streaming(v) => {
            let x = v.exclude->Ready_0;
            assert forall|p: (ChangesetId, Generation)| !x.contains(p) by {
                if x.contains(p) {
                    assert(x.map(|p: (ChangesetId, Generation)| p.0).contains(p.0));
                }
            }
            assert(x =~= Set::empty());
        },
        NodeStreamView::Ended => {},
    }
    lemma_no_hints(s, events);
}

/// There stays nothing to exclude.
proof fn lemma_no_hints(s: NodeStreamView, events: Seq<Event>)
    requires
        is_finite(s),
        has_no_excludes(s),
        is_possible_run(s, events),
    ensures
        is_finite(after(s, events)),
        has_no_excludes(after(s, events)),
        hints_asked(s, events).len() == 0,
    decreases events.len(),
{
    if events.len() > 0 {
        let before = after(s, events.drop_last());
        lemma_no_hints(s, events.drop_last());
        lemma_requests(s, events.drop_last());
        lemma_finite_event(before, events.last());
        if before.is_started() {
            let v = before.started();
            if let NodeStreamView::Starting { excludes: x, .. } = before {
                assert(x.with_generations() =~= Set::empty());
            }
            lemma_polled_exclude(v);
            law_hint_asked_when_above(v);
        }
    }
}

} // verus!
