//! The laws of the stream.
//!
//! Most of them speak of runs in which all that becomes known is true of one graph of commits.

use vstd::prelude::*;

use crate::graph::CommitGraph;
use crate::node_frontier::lemma_push_to_set;
use crate::node_stream::{is_finite, InputView, NodeStreamView, Source};
use crate::pending::{PendingView, Query};
use crate::progress::{
    all_fetches_left, lemma_hint_moves, lemma_polled_work, lemma_update_fetches, moves_left,
};
use crate::runs::{
    after, given, is_fetch_run, is_lossless_run, is_new, is_run, lemma_can_take, lemma_event,
    lemma_fetch_run, lemma_ordered_run, lemma_possible_run, lemma_requests, lemma_run, Event,
};
use crate::stream_view::{
    is_above, lemma_advanced_smaller, ExcludeView, PolledView, StreamView,
};
use crate::types::{greatest, ChangesetId, Generation};
use crate::walk::{has_generations, is_ahead, owes};

verus! {

/// The streams that are made from nodes, with or without their generations, are new.
pub proof fn law_made_streams_are_new(
    graph: CommitGraph,
    hashes: Seq<ChangesetId>,
    excludes: Seq<ChangesetId>,
    hashes_generations: Seq<(ChangesetId, Generation)>,
    exclude_generations: Seq<(ChangesetId, Generation)>,
)
    ensures
        is_new(
            graph,
            hashes.to_set(),
            excludes.to_set(),
            NodeStreamView::start(hashes, excludes),
        ),
        has_generations(graph, hashes_generations.to_set()) && has_generations(
            graph,
            exclude_generations.to_set(),
        ) ==> is_new(
            graph,
            hashes_generations.to_set().map(|p: (ChangesetId, Generation)| p.0),
            exclude_generations.to_set().map(|p: (ChangesetId, Generation)| p.0),
            NodeStreamView::Streaming(
                StreamView::start(hashes_generations.to_set(), exclude_generations.to_set()),
            ),
        ),
{
    vstd::seq_lib::seq_to_set_is_finite(hashes_generations);
    vstd::seq_lib::seq_to_set_is_finite(exclude_generations);
}

/// At every point of a run, whether or not fetches have failed and whatever hints were taken, the
/// nodes that the stream has given out are ancestors of `hashes`. No node was given out twice, and
/// none before one of a greater generation.
pub proof fn law_given_nodes(
    graph: CommitGraph,
    hashes: Set<ChangesetId>,
    excludes: Set<ChangesetId>,
    s: NodeStreamView,
    events: Seq<Event>,
)
    requires
        graph.wf(),
        is_new(graph, hashes, excludes, s),
        is_fetch_run(graph, s, events),
    ensures
        ({
            let nodes = given(s, events);
            &&& nodes.no_duplicates()
            &&& forall|i: int|
                0 <= i < nodes.len() ==> graph.ancestors(hashes).contains(#[trigger] nodes[i])
            &&& forall|i: int, j: int|
                0 <= i <= j < nodes.len() ==> (graph.generation)(#[trigger] nodes[i]) >= (
                graph.generation)(#[trigger] nodes[j])
        }),
{
    lemma_ordered_run(graph, hashes, excludes, s, events);
}

/// At every point of a run in which all hints are those that were asked for, whether or not fetches
/// have failed, none of the nodes that the stream has given out is an ancestor of `excludes`.
pub proof fn law_given_nodes_not_excluded(
    graph: CommitGraph,
    hashes: Set<ChangesetId>,
    excludes: Set<ChangesetId>,
    s: NodeStreamView,
    events: Seq<Event>,
)
    requires
        graph.wf(),
        is_new(graph, hashes, excludes, s),
        is_run(graph, s, events),
    ensures
        forall|i: int|
            0 <= i < given(s, events).len() ==> !graph.ancestors(excludes).contains(
                #[trigger] given(s, events)[i],
            ),
{
    lemma_run(graph, hashes, excludes, s, events);
}

/// All nodes of the difference with a bigger generation than the current one have already been
/// given out.
pub proof fn law_bigger_generations_given(
    graph: CommitGraph,
    hashes: Set<ChangesetId>,
    excludes: Set<ChangesetId>,
    s: NodeStreamView,
    events: Seq<Event>,
    node: ChangesetId,
)
    requires
        graph.wf(),
        is_new(graph, hashes, excludes, s),
        is_run(graph, s, events),
        is_lossless_run(graph, s, events),
        graph.ancestors(hashes).contains(node),
        !graph.ancestors(excludes).contains(node),
        after(s, events) matches NodeStreamView::Streaming(v) && (graph.generation)(node)
            > v.current_generation,
    ensures
        given(s, events).contains(node),
{
    lemma_run(graph, hashes, excludes, s, events);
    let v = after(s, events)->Streaming_0;
    if !given(s, events).contains(node) {
        let m = choose|m: ChangesetId| #[trigger]
            is_ahead(graph, v, m) && graph.is_ancestor(node, m);
        graph.lemma_generation(node, m);
        if v.next_generation.contains((m, (graph.generation)(m))) {
        } else if v.drain.contains(m) {
        } else {
            let slot = choose|slot: int| owes(graph, v, slot, m);
            assert(owes(graph, v, slot, m));
        }
    }
}

/// When the stream ends, it has given out exactly the ancestors of `hashes` that are not ancestors
/// of `excludes`, each of them once: it is `(::hashes) - (::excludes)`.
pub proof fn law_difference_of_unions_of_ancestors(
    graph: CommitGraph,
    hashes: Set<ChangesetId>,
    excludes: Set<ChangesetId>,
    s: NodeStreamView,
    events: Seq<Event>,
)
    requires
        graph.wf(),
        is_new(graph, hashes, excludes, s),
        is_run(graph, s, events),
        is_lossless_run(graph, s, events),
        after(s, events).polled().1 is End,
    ensures
        given(s, events).no_duplicates(),
        given(s, events).to_set() == graph.ancestors(hashes).difference(graph.ancestors(excludes)),
{
    lemma_run(graph, hashes, excludes, s, events);
    let last = after(s, events);
    let nodes = given(s, events);
    lemma_event(graph, hashes, excludes, last, nodes, Event::Poll);
    let v = last.polled().0->Streaming_0;
    lemma_end(last);
    assert forall|n: ChangesetId| nodes.to_set().contains(n) == graph.ancestors(hashes).difference(
        graph.ancestors(excludes),
    ).contains(n) by {
        if nodes.contains(n) {
            let i = nodes.index_of(n);
            assert(nodes[i] == n);
        }
        if graph.ancestors(hashes).contains(n) && !graph.ancestors(excludes).contains(n)
            && !nodes.contains(n) {
            let m = choose|m: ChangesetId| #[trigger]
                is_ahead(graph, v, m) && graph.is_ancestor(n, m);
            assert(forall|slot: int| !owes(graph, v, slot, m));
            assert(false);
        }
    }
    assert(nodes.to_set() =~= graph.ancestors(hashes).difference(graph.ancestors(excludes)));
}

/// A poll of a stream that ends leaves nothing to look at.
proof fn lemma_end_of_stream(v: StreamView)
    requires
        v.next_generation.finite(),
        v.polled().1 is End,
    ensures
        v.polled().0.next_generation.is_empty(),
        v.polled().0.drain.is_empty(),
        v.polled().0.pending_changesets.len() == 0,
    decreases v.next_generation.len(),
{
    if v.turns() {
        lemma_advanced_smaller(v.collected());
        lemma_end_of_stream(v.collected().advanced());
    }
}

proof fn lemma_end(s: NodeStreamView)
    requires
        is_finite(s),
        s.polled().1 is End,
    ensures
        match s.polled().0 {
            NodeStreamView::Streaming(v) => {
                &&& v.next_generation.is_empty()
                &&& v.drain.is_empty()
                &&& v.pending_changesets.len() == 0
            },
            other => other is Ended,
        },
{
    match s {
        NodeStreamView::Starting { hashes: h, excludes: x } => {
            vstd::seq_lib::seq_to_set_is_finite(
                Seq::new(h.nodes.len(), |i: int| (h.nodes[i], h.generations[i])),
            );
            lemma_end_of_stream(StreamView::start(h.with_generations(), x.with_generations()));
        },
        NodeStreamView::Streaming(v) => lemma_end_of_stream(v),
        NodeStreamView::Ended => {},
    }
}

/// A stream that has ended stays so: polled again, it is unchanged and ends again.
pub proof fn law_end_is_final(s: NodeStreamView)
    requires
        is_finite(s),
        s.polled().1 is End,
    ensures
        s.polled().0.polled() == (s.polled().0, PolledView::End),
{
    lemma_end(s);
    if let NodeStreamView::Streaming(v) = s.polled().0 {
        assert(v.drain =~= Set::<ChangesetId>::empty());
        assert(v.kept() =~= Set::<ChangesetId>::empty());
        assert(v.next_generation =~= Set::<(ChangesetId, Generation)>::empty());
        assert(v.pending_changesets =~= Seq::<PendingView>::empty());
        assert(v.collected() =~= v);
    }
}

/// A poll that gives out a node makes its parents what has to be fetched for the slot.
pub proof fn law_parents_of_given_node_asked(v: StreamView)
    requires
        v.next_generation.finite(),
    ensures
        v.polled().1 matches PolledView::Node { node, slot } ==> v.polled().0.query(slot as int)
            == Some(Query::Parents(node)),
    decreases v.next_generation.len(),
{
    if v.turns() {
        lemma_advanced_smaller(v.collected());
        law_parents_of_given_node_asked(v.collected().advanced());
    }
}

/// A poll asks for a hint only for a frontier with a node of a greater generation than the one the
/// hint has to keep to. The stream then waits for the hint.
pub proof fn law_hint_asked_when_above(v: StreamView)
    requires
        v.next_generation.finite(),
    ensures
        v.polled().1 matches PolledView::LcaHint { frontier, generation } ==> {
            &&& v.exclude == ExcludeView::Ready(frontier)
            &&& is_above(frontier, generation)
            &&& v.polled().0.exclude == (ExcludeView::Moving { frontier, generation })
        },
    decreases v.next_generation.len(),
{
    if v.turns() {
        lemma_advanced_smaller(v.collected());
        law_hint_asked_when_above(v.collected().advanced());
    }
}

/// A hint that keeps to the generation settles it: if the next poll asks for a hint again, it is
/// for a smaller generation.
pub proof fn law_hint_settles_generation(v: StreamView, hint: Set<(ChangesetId, Generation)>)
    requires
        v.next_generation.finite(),
        v.exclude is Moving,
        !is_above(hint, v.exclude->generation),
    ensures
        v.with_exclude(ExcludeView::Ready(hint)).polled().1 matches PolledView::LcaHint {
            generation,
            ..
        } ==> generation < v.exclude->generation,
{
    law_hint_asked_when_above(v.with_exclude(ExcludeView::Ready(hint)));
}

/// A stream is never kept from going on by nothing: if a poll is not ready, the stream waits for a
/// hint or has a query for some slot. With the frontier at hand, it waits for a slot only once it
/// has nothing of the current generation left to give out.
pub proof fn law_not_ready_waits(v: StreamView)
    requires
        v.next_generation.finite(),
        !(v.exclude is Failed),
        v.polled().1 is NotReady,
    ensures
        v.polled().0.exclude is Moving || exists|slot: int| #[trigger]
            v.polled().0.query(slot) is Some,
        v.exclude is Ready ==> v.polled().0.drain.is_empty(),
    decreases v.next_generation.len(),
{
    if v.turns() {
        lemma_advanced_smaller(v.collected());
        law_not_ready_waits(v.collected().advanced());
    } else if !v.pending_exhausted() {
        let slot = choose|slot: int|
            0 <= slot < v.pending_changesets.len() && !((
            #[trigger] v.pending_changesets[slot]).query() is None);
        assert(v.polled().0.pending_changesets == v.pending_changesets);
        assert(v.polled().0.query(slot) is Some);
    }
}

/// A fetch that has failed does not show before the current generation is over: the next node of it
/// is given out as if nothing had failed, whatever the slots still have to fetch.
pub proof fn law_failed_fetch_lets_generation_finish(v: StreamView, slot: int)
    requires
        v.next_generation.finite(),
        v.exclude is Ready,
        !is_above(v.exclude->Ready_0, v.current_generation),
        !v.kept().is_empty(),
        v.query(slot) is Some,
    ensures
        v.polled().1 is Node,
        v.fetch_failed(slot).polled().1 == v.polled().1,
        v.fetch_failed(slot).polled().0 == v.polled().0.fetch_failed(slot),
{
    let t = v.fetch_failed(slot);
    let node = greatest(v.kept());
    assert(t.kept() =~= v.kept());
    assert(t.given_out(node).drain =~= v.given_out(node).drain);
    assert(t.given_out(node).pending_changesets =~= v.given_out(node).fetch_failed(
        slot,
    ).pending_changesets);
}

/// A stream with its frontier at hand that knows all parents is ready.
pub proof fn lemma_ready(v: StreamView)
    requires
        v.next_generation.finite(),
        v.exclude is Ready,
        v.pending_exhausted(),
    ensures
        !(v.polled().1 is NotReady),
    decreases v.next_generation.len(),
{
    if v.turns() {
        lemma_advanced_smaller(v.collected());
        lemma_ready(v.collected().advanced());
    }
}

/// A stream that was made without generations is kept from starting by a query for one of them, and
/// by nothing else.
pub proof fn law_not_ready_to_start_waits(s: NodeStreamView)
    requires
        s is Starting,
    ensures
        (s.polled().1 is NotReady) == (s.query(Source::Hashes) is Some || s.query(
            Source::Excludes,
        ) is Some),
{
    if let NodeStreamView::Starting { hashes: h, excludes: x } = s {
        if h.query() is None && x.query() is None {
            vstd::seq_lib::seq_to_set_is_finite(
                Seq::new(h.nodes.len(), |i: int| (h.nodes[i], h.generations[i])),
            );
            lemma_ready(StreamView::start(h.with_generations(), x.with_generations()));
        }
    }
}

/// Once the generations of the given nodes are known, the stream is the one that is made with these
/// generations.
pub proof fn law_generations_known(hashes: InputView, excludes: InputView)
    requires
        hashes.generations.len() == hashes.nodes.len(),
        excludes.generations.len() == excludes.nodes.len(),
    ensures
        (NodeStreamView::Starting { hashes, excludes }).polled() == NodeStreamView::Streaming(
            StreamView::start(hashes.with_generations(), excludes.with_generations()),
        ).polled(),
{
}

/// A stream that could not learn the generation of a given node is over.
pub proof fn law_failed_start_is_over(s: NodeStreamView, source: Source)
    requires
        s is Starting,
        s.query(source) is Some,
    ensures
        s.fetch_failed(source).polled() == (NodeStreamView::Ended, PolledView::End),
{
}

/// What is left to do: the generations of given nodes that are not known, and whether the stream
/// still has to start; the ancestors of `hashes` that were not given out; the fetches for the nodes
/// that were given out; the moves of the exclude frontier.
pub open spec fn work_left(
    graph: CommitGraph,
    hashes: Set<ChangesetId>,
    s: NodeStreamView,
    given: Seq<ChangesetId>,
) -> (nat, nat, nat, nat) {
    let nodes = graph.ancestors(hashes).difference(given.to_set()).len();
    match s {
        NodeStreamView::Starting { hashes: h, excludes: x } => {
            let inputs = 1 + (h.nodes.len() - h.generations.len()) + (x.nodes.len()
                - x.generations.len());
            (inputs as nat, nodes, 0, 0)
        },
        NodeStreamView::Streaming(v) => (
            0,
            nodes,
            all_fetches_left(graph, v.pending_changesets),
            moves_left(v.exclude),
        ),
        NodeStreamView::Ended => (0, nodes, 0, 0),
    }
}

/// Whether `a` comes before `b` in lexicographic order.
pub open spec fn is_less(a: (nat, nat, nat, nat), b: (nat, nat, nat, nat)) -> bool {
    ||| a.0 < b.0
    ||| a.0 == b.0 && a.1 < b.1
    ||| a.0 == b.0 && a.1 == b.1 && a.2 < b.2
    ||| a.0 == b.0 && a.1 == b.1 && a.2 == b.2 && a.3 < b.3
}

/// Every event of a run leaves less to do, in an order without endless descents, unless it is a
/// poll that is not ready or ends.
pub proof fn law_every_event_is_progress(
    graph: CommitGraph,
    hashes: Set<ChangesetId>,
    excludes: Set<ChangesetId>,
    s: NodeStreamView,
    events: Seq<Event>,
)
    requires
        graph.wf(),
        is_new(graph, hashes, excludes, s),
        is_run(graph, s, events),
        events.len() > 0,
        events.last() is Poll ==> {
            let res = after(s, events.drop_last()).polled().1;
            res is Node || res is LcaHint
        },
    ensures
        is_less(
            work_left(graph, hashes, after(s, events), given(s, events)),
            work_left(
                graph,
                hashes,
                after(s, events.drop_last()),
                given(s, events.drop_last()),
            ),
        ),
{
    let events0 = events.drop_last();
    let s0 = after(s, events0);
    let given0 = given(s, events0);
    lemma_run(graph, hashes, excludes, s, events0);
    lemma_run(graph, hashes, excludes, s, events);
    lemma_fetch_run(graph, s, events);
    lemma_possible_run(graph, s, events);
    lemma_requests(s, events0);
    lemma_can_take(s, events);
    lemma_hashes_finite(graph, hashes, excludes, s);
    graph.lemma_ancestors_finite(hashes);
    if let NodeStreamView::Streaming(v) = s0 {
        match events.last() {
            Event::Poll => {
                lemma_polled_work(graph, v);
                if let PolledView::Node { node, .. } = v.polled().1 {
                    let nodes = graph.ancestors(hashes).difference(given0.to_set());
                    let given1 = given(s, events);
                    assert(given1 == given0.push(node));
                    assert(given1[given0.len() as int] == node);
                    assert(!given0.contains(node)) by {
                        if given0.contains(node) {
                            let i = given0.index_of(node);
                            assert(given1[i] == node);
                        }
                    }
                    lemma_push_to_set(given0, node);
                    assert(graph.ancestors(hashes).difference(given1.to_set()) =~= nodes.remove(
                        node,
                    ));
                    assert(nodes.contains(node));
                }
            },
            Event::ParentsFetched { slot, parents } => {
                lemma_update_fetches(
                    graph,
                    v.pending_changesets,
                    slot as int,
                    PendingView::Generations(parents),
                );
            },
            Event::GenerationFetched { source, generation } => {
                let slot = source->Pending_0 as int;
                lemma_update_fetches(
                    graph,
                    v.pending_changesets,
                    slot,
                    PendingView::Generations(
                        v.pending_changesets[slot]->Generations_0.drop_first(),
                    ),
                );
            },
            Event::HintReady { hint } => {
                lemma_hint_moves(v.exclude, hint);
            },
            Event::FetchFailed { source } => {
                let slot = source->Pending_0 as int;
                lemma_update_fetches(
                    graph,
                    v.pending_changesets,
                    slot,
                    v.pending_changesets[slot].failed(),
                );
            },
            Event::HintFailed => {},
        }
    }
}

/// The given nodes are finitely many.
pub proof fn lemma_hashes_finite(
    graph: CommitGraph,
    hashes: Set<ChangesetId>,
    excludes: Set<ChangesetId>,
    s: NodeStreamView,
)
    requires
        is_new(graph, hashes, excludes, s),
    ensures
        hashes.finite(),
{
    match s {
        NodeStreamView::Starting { hashes: h, .. } => {
            vstd::seq_lib::seq_to_set_is_finite(h.nodes);
        },
        NodeStreamView::Streaming(v) => {
            v.next_generation.lemma_map_finite(|p: (ChangesetId, Generation)| p.0);
        },
        NodeStreamView::Ended => {},
    }
}

} // verus!
