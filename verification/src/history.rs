//! What holds of a stream because of what has happened to it.
//!
//! These laws tell what a stream asks for, and what it has given out, from its history alone: from
//! the nodes that it was made with, what its polls gave, and what became known.

use vstd::prelude::*;

use crate::graph::CommitGraph;
use crate::interface::{
    law_hint_is_for_the_whole_frontier, law_not_ready_asks_for_something,
    law_poll_asks_for_parents_of_its_node, lemma_polled_pending,
};
use crate::node_frontier::{lemma_push_to_set, max_gen, nodes_at};
use crate::node_stream::{slots_fit, InputView, NodeStreamView, Source};
use crate::pending::{PendingView, Query};
use crate::runs::{
    after, asked_hint, given, has_hint_failed, is_fetch_run, is_lossless_run,
    is_new, is_possible_run, is_run, lemma_can_take, lemma_event, lemma_fetch_run,
    lemma_finite_event, lemma_ordered_event, lemma_ordered_run, lemma_polled_exclude,
    lemma_possible_run, lemma_requests, lemma_run, Event,
};
use crate::stream_view::{is_above, lemma_advanced_smaller, ExcludeView, PolledView, StreamView};
use crate::types::{greatest, id_lt, lemma_greatest_exists, ChangesetId, Generation};
use crate::walk::{given_after, has_generations, is_ahead, is_below, lemma_nodes_at_finite, owes};

verus! {

/// Whether the stream was just made: it knows no generations yet, or it has nothing but the nodes
/// that it was made with.
pub open spec fn is_made(s: NodeStreamView) -> bool {
    match s {
        NodeStreamView::Starting { hashes, excludes } => {
            &&& hashes.generations.len() == 0
            &&& excludes.generations.len() == 0
        },
        NodeStreamView::Streaming(v) => {
            &&& v.next_generation.finite()
            &&& v.drain.is_empty()
            &&& v.pending_changesets.len() == 0
            &&& v.exclude is Ready
        },
        NodeStreamView::Ended => false,
    }
}

/// The streams that are made from nodes are just made, and hold these nodes.
pub proof fn law_made_streams_hold_their_nodes(
    hashes: Seq<ChangesetId>,
    excludes: Seq<ChangesetId>,
    hashes_generations: Seq<(ChangesetId, Generation)>,
    exclude_generations: Seq<(ChangesetId, Generation)>,
)
    ensures
        is_made(NodeStreamView::start(hashes, excludes)),
        NodeStreamView::start(hashes, excludes) matches NodeStreamView::Starting {
            hashes: h,
            excludes: x,
        } && h.nodes == hashes && x.nodes == excludes,
        ({
            let v = StreamView::start(hashes_generations.to_set(), exclude_generations.to_set());
            let s = NodeStreamView::Streaming(v);
            &&& is_made(s)
            &&& found(s, Seq::empty()) == hashes_generations.to_set()
            &&& exclude_frontier(s, Seq::empty()) == exclude_generations.to_set()
        }),
{
    vstd::seq_lib::seq_to_set_is_finite(hashes_generations);
}

/// What has become known for a slot since it was last given out with a node.
pub struct SlotHistory {
    /// The node that the slot was last given out with.
    pub node: Option<ChangesetId>,
    /// The parents of the node, once they are known; none of them if they could not be fetched.
    pub parents: Option<Seq<ChangesetId>>,
    /// The number of parents whose generation has become known or could not be fetched.
    pub answered: nat,
}

/// What has become known for the slot in the course of the events.
pub open spec fn slot_history(s: NodeStreamView, events: Seq<Event>, slot: nat) -> SlotHistory
    decreases events.len(),
{
    if events.len() == 0 {
        SlotHistory { node: None, parents: None, answered: 0 }
    } else {
        let earlier = slot_history(s, events.drop_last(), slot);
        match events.last() {
            Event::Poll => match after(s, events.drop_last()).polled().1 {
                PolledView::Node { node, slot: k } if k == slot => SlotHistory {
                    node: Some(node),
                    parents: None,
                    answered: 0,
                },
                _ => earlier,
            },
            Event::ParentsFetched { slot: k, parents } if k == slot => SlotHistory {
                parents: Some(parents),
                ..earlier
            },
            Event::GenerationFetched { source: Source::Pending(k), .. } if k == slot => SlotHistory {
                answered: earlier.answered + 1,
                ..earlier
            },
            Event::FetchFailed { source: Source::Pending(k) } if k == slot => {
                if earlier.parents is None {
                    SlotHistory { parents: Some(Seq::empty()), ..earlier }
                } else {
                    SlotHistory { answered: earlier.answered + 1, ..earlier }
                }
            },
            _ => earlier,
        }
    }
}

/// Whether what a stream has in a slot is what the slot's history tells.
spec fn is_as_told(v: StreamView, slot: nat, told: SlotHistory) -> bool {
    if slot < v.pending_changesets.len() {
        &&& told.node is Some
        &&& match v.pending_changesets[slot as int] {
            PendingView::Parents(node) => {
                &&& told.node == Some(node)
                &&& told.parents is None
                &&& told.answered == 0
            },
            PendingView::Generations(rest) => {
                &&& told.parents is Some
                &&& told.answered + rest.len() == told.parents->0.len()
                &&& rest =~= told.parents->0.skip(told.answered as int)
            },
        }
    } else {
        told.node is None || (told.parents is Some && told.answered == told.parents->0.len())
    }
}

/// What holds of a run.
proof fn lemma_slots_as_told(s: NodeStreamView, events: Seq<Event>)
    requires
        is_made(s),
        is_possible_run(s, events),
    ensures
        match after(s, events) {
            NodeStreamView::Streaming(v) => forall|slot: nat| #[trigger]
                is_as_told(v, slot, slot_history(s, events, slot)),
            _ => forall|slot: nat| (#[trigger] slot_history(s, events, slot)).node is None,
        },
    decreases events.len(),
{
    if events.len() > 0 {
        let fewer = events.drop_last();
        let before = after(s, fewer);
        let event = events.last();
        lemma_slots_as_told(s, fewer);
        lemma_can_take(s, events);
        lemma_finite_event(before, event);
        if event is Poll && before.is_started() {
            let v = before.started();
            lemma_polled_pending(v);
            let t = v.polled().0;
            assert forall|slot: nat| #[trigger]
                is_as_told(t, slot, slot_history(s, events, slot)) by {
                assert(is_as_told(v, slot, slot_history(s, fewer, slot)));
                if v.pending_exhausted() && slot < v.pending_changesets.len() {
                    assert(v.pending_changesets[slot as int].query() is None);
                }
            }
        } else if let NodeStreamView::Streaming(v) = before {
            let t = after(s, events)->Streaming_0;
            assert forall|slot: nat| #[trigger]
                is_as_told(t, slot, slot_history(s, events, slot)) by {
                assert(is_as_told(v, slot, slot_history(s, fewer, slot)));
            }
        } else {
            assert forall|slot: nat| (#[trigger] slot_history(s, events, slot)).node is None by {
                assert(slot_history(s, fewer, slot).node is None);
            }
        }
    }
}

/// In the course of a run, whatever becomes known, a slot asks for the parents of the node that it
/// was given out with, then for the generation of each of these parents, one after the other, and
/// then for nothing. A parent whose generation could not be fetched is passed over; if the parents
/// could not be fetched, the slot asks for nothing more. A slot that was not given out asks for
/// nothing.
pub proof fn law_slot_asks_in_turn(s: NodeStreamView, events: Seq<Event>, slot: usize)
    requires
        is_made(s),
        is_possible_run(s, events),
    ensures
        after(s, events).query(Source::Pending(slot)) == match slot_history(
            s,
            events,
            slot as nat,
        ) {
            SlotHistory { node: None, .. } => None,
            SlotHistory { node: Some(node), parents: None, .. } => Some(Query::Parents(node)),
            SlotHistory { parents: Some(parents), answered, .. } => if answered < parents.len() {
                Some(Query::Generation(parents[answered as int]))
            } else {
                None
            },
        },
{
    lemma_slots_as_told(s, events);
    let told = slot_history(s, events, slot as nat);
    if let NodeStreamView::Streaming(v) = after(s, events) {
        assert(is_as_told(v, slot as nat, told));
    }
}

/// A stream that was polled and is not ready, while no hint is still to be answered, asks for
/// something that its user can find: the generation of a given node, or what is left to fetch for a
/// slot that was given out with a node.
pub proof fn law_not_ready_leaves_something_to_fetch(s: NodeStreamView, events: Seq<Event>)
    requires
        is_made(s),
        is_possible_run(s, events),
        !has_hint_failed(events),
        asked_hint(s, events) is None,
        slots_fit(after(s, events)),
        after(s, events).polled().1 is NotReady,
    ensures
        ({
            let last = after(s, events);
            ||| last.query(Source::Hashes) is Some
            ||| last.query(Source::Excludes) is Some
            ||| exists|slot: usize|
                {
                    let told = slot_history(s, events, slot as nat);
                    &&& #[trigger] last.query(Source::Pending(slot)) is Some
                    &&& told.node is Some
                    &&& told.parents is None || told.answered < told.parents->0.len()
                }
        }),
{
    let last = after(s, events);
    lemma_requests(s, events);
    law_not_ready_asks_for_something(last);
    law_poll_asks_for_parents_of_its_node(last);
    if last.is_started() {
        lemma_finite_event(last, Event::Poll);
        lemma_polled_exclude(last.started());
        let next = last.polled().0;
        let slot = choose|slot: usize| #[trigger] next.query(Source::Pending(slot)) is Some;
        assert(next.query(Source::Pending(slot)) == last.query(Source::Pending(slot)));
        law_slot_asks_in_turn(s, events, slot);
        assert(last.query(Source::Pending(slot)) is Some);
    }
}

/// The number of generations that became known for the source.
pub open spec fn generations_known(events: Seq<Event>, source: Source) -> nat
    decreases events.len(),
{
    if events.len() == 0 {
        0
    } else {
        let earlier = generations_known(events.drop_last(), source);
        match events.last() {
            Event::GenerationFetched { source: other, .. } if other == source => earlier + 1,
            _ => earlier,
        }
    }
}

/// Whether the generation of a given node could not be fetched.
pub open spec fn has_start_failed(events: Seq<Event>) -> bool {
    exists|i: int|
        0 <= i < events.len() && (#[trigger] events[i] matches Event::FetchFailed { source }
            && !(source is Pending))
}

/// The events before the last one, and whether the start has failed.
proof fn lemma_start_failed(events: Seq<Event>)
    requires
        events.len() > 0,
    ensures
        has_start_failed(events) == (has_start_failed(events.drop_last()) || (
        events.last() matches Event::FetchFailed { source } && !(source is Pending))),
{
    let fewer = events.drop_last();
    if has_start_failed(fewer) {
        let i = choose|i: int|
            0 <= i < fewer.len() && (#[trigger] fewer[i] matches Event::FetchFailed { source }
                && !(source is Pending));
        assert(events[i] == fewer[i]);
    }
    if has_start_failed(events) {
        let i = choose|i: int|
            0 <= i < events.len() && (#[trigger] events[i] matches Event::FetchFailed { source }
                && !(source is Pending));
        if i < fewer.len() {
            assert(fewer[i] == events[i]);
        }
    }
    assert(events[events.len() - 1] == events.last());
}

/// A stream that is made from nodes asks for the generation of each of them, one after the other,
/// and for none of them more than once. If one could not be fetched, it asks for no more of them.
/// It starts to give out nodes when all are known.
pub proof fn law_given_nodes_asked_in_turn(
    hashes: Seq<ChangesetId>,
    excludes: Seq<ChangesetId>,
    events: Seq<Event>,
)
    requires
        is_possible_run(NodeStreamView::start(hashes, excludes), events),
    ensures
        ({
            let s = NodeStreamView::start(hashes, excludes);
            let last = after(s, events);
            let h = generations_known(events, Source::Hashes);
            let x = generations_known(events, Source::Excludes);
            &&& last.query(Source::Hashes) == if has_start_failed(events) || h >= hashes.len() {
                None
            } else {
                Some(Query::Generation(hashes[h as int]))
            }
            &&& last.query(Source::Excludes) == if has_start_failed(events) || x >= excludes.len() {
                None
            } else {
                Some(Query::Generation(excludes[x as int]))
            }
            &&& has_start_failed(events) ==> last.polled().1 is End && given(s, events).len() == 0
            &&& !has_start_failed(events) && (h < hashes.len() || x < excludes.len()) ==> {
                &&& last.polled() == (last, PolledView::NotReady)
                &&& given(s, events).len() == 0
            }
        }),
{
    lemma_given_nodes_asked(hashes, excludes, events);
}

/// What holds of a run of a stream that is made from nodes.
proof fn lemma_given_nodes_asked(
    hashes: Seq<ChangesetId>,
    excludes: Seq<ChangesetId>,
    events: Seq<Event>,
)
    requires
        is_possible_run(NodeStreamView::start(hashes, excludes), events),
    ensures
        ({
            let s = NodeStreamView::start(hashes, excludes);
            let h = generations_known(events, Source::Hashes);
            let x = generations_known(events, Source::Excludes);
            &&& h <= hashes.len()
            &&& x <= excludes.len()
            &&& match after(s, events) {
                NodeStreamView::Starting { hashes: hs, excludes: xs } => {
                    &&& hs.nodes == hashes
                    &&& xs.nodes == excludes
                    &&& hs.generations.len() == h
                    &&& xs.generations.len() == x
                    &&& !has_start_failed(events)
                    &&& given(s, events).len() == 0
                },
                NodeStreamView::Streaming(_) => {
                    &&& h == hashes.len()
                    &&& x == excludes.len()
                    &&& !has_start_failed(events)
                },
                NodeStreamView::Ended => {
                    &&& has_start_failed(events)
                    &&& given(s, events).len() == 0
                },
            }
        }),
    decreases events.len(),
{
    let s = NodeStreamView::start(hashes, excludes);
    if events.len() > 0 {
        lemma_given_nodes_asked(hashes, excludes, events.drop_last());
        lemma_start_failed(events);
        lemma_can_take(s, events);
    }
}

/// In the course of a run, whatever becomes known, a stream waits for a hint exactly while one that
/// a poll has asked for is still to be answered. It has failed exactly if one could not be had.
pub proof fn law_waits_for_asked_hint(s: NodeStreamView, events: Seq<Event>)
    requires
        is_made(s),
        is_possible_run(s, events),
    ensures
        after(s, events).awaits_hint() == (asked_hint(s, events) is Some),
        after(s, events).is_failed() == has_hint_failed(events),
{
    lemma_requests(s, events);
}

/// The nodes whose ancestors are wanted that the stream has learnt of, each with its generation:
/// those that it was made with, and those whose generation has become known.
pub open spec fn found(s: NodeStreamView, events: Seq<Event>) -> Set<(ChangesetId, Generation)>
    decreases events.len(),
{
    if events.len() == 0 {
        match s {
            NodeStreamView::Streaming(v) => v.next_generation,
            _ => Set::empty(),
        }
    } else {
        let earlier = found(s, events.drop_last());
        match events.last() {
            Event::GenerationFetched { source, generation } if source != Source::Excludes => {
                let query = after(s, events.drop_last()).query(source);
                earlier.insert((query->0->Generation_0, generation))
            },
            _ => earlier,
        }
    }
}

/// Whether the node is among those that a stream has learnt of.
pub open spec fn is_among(found: Set<(ChangesetId, Generation)>, node: ChangesetId) -> bool {
    exists|g: Generation| #[trigger] found.contains((node, g))
}

/// The exclude frontier: the excluded nodes with their generations, as far as these are known, or
/// the last hint.
pub open spec fn exclude_frontier(s: NodeStreamView, events: Seq<Event>) -> Set<
    (ChangesetId, Generation),
>
    decreases events.len(),
{
    if events.len() == 0 {
        match s {
            NodeStreamView::Streaming(v) => v.exclude->Ready_0,
            _ => Set::empty(),
        }
    } else {
        let earlier = exclude_frontier(s, events.drop_last());
        match events.last() {
            Event::GenerationFetched { source, generation } if source == Source::Excludes => {
                let query = after(s, events.drop_last()).query(source);
                earlier.insert((query->0->Generation_0, generation))
            },
            Event::HintReady { hint } => hint,
            _ => earlier,
        }
    }
}

/// Whether the node was ever in the exclude frontier, with this generation.
pub open spec fn was_excluded(
    s: NodeStreamView,
    events: Seq<Event>,
    p: (ChangesetId, Generation),
) -> bool
    decreases events.len(),
{
    ||| exclude_frontier(s, events).contains(p)
    ||| events.len() > 0 && was_excluded(s, events.drop_last(), p)
}

/// The given nodes whose generation is known, with it.
spec fn known(input: InputView) -> Set<(ChangesetId, Generation)> {
    Seq::new(input.generations.len(), |i: int| (input.nodes[i], input.generations[i])).to_set()
}

/// What holds of a stream, the nodes that it has given out, and those that it has learnt of.
spec fn accounts_for(
    v: StreamView,
    given: Seq<ChangesetId>,
    found: Set<(ChangesetId, Generation)>,
    excluded: spec_fn((ChangesetId, Generation)) -> bool,
) -> bool {
    &&& v.next_generation.finite()
    &&& v.drain.finite()
    &&& forall|p: (ChangesetId, Generation)| #[trigger]
        v.exclude->Ready_0.contains(p) && v.exclude is Ready ==> excluded(p)
    &&& forall|p: (ChangesetId, Generation)| #[trigger]
        v.next_generation.contains(p) ==> found.contains(p)
    &&& forall|n: ChangesetId| #[trigger]
        v.drain.contains(n) ==> found.contains((n, v.current_generation))
    &&& forall|p: (ChangesetId, Generation)| #[trigger]
        found.contains(p) ==> given.contains(p.0) || excluded(p) || v.next_generation.contains(p)
            || (p.1 == v.current_generation && v.drain.contains(p.0))
    &&& forall|i: int| 0 <= i < given.len() ==> is_among(found, #[trigger] given[i])
    &&& v.pending_changesets.len() > 0 ==> given.len() > 0 && found.contains(
        (given.last(), v.current_generation),
    )
}

/// A poll loses none of the nodes that the stream has learnt of, and gives out no others.
proof fn lemma_polled_accounts(
    v: StreamView,
    given: Seq<ChangesetId>,
    found: Set<(ChangesetId, Generation)>,
    excluded: spec_fn((ChangesetId, Generation)) -> bool,
)
    requires
        accounts_for(v, given, found, excluded),
    ensures
        accounts_for(v.polled().0, given_after(given, v.polled().1), found, excluded),
        v.polled().1 matches PolledView::Node { node, .. } ==> exists|g: Generation| #[trigger]
            found.contains((node, g)) && !(v.exclude->Ready_0.contains((node, g))),
        v.polled().1 is End ==> forall|p: (ChangesetId, Generation)| #[trigger]
            found.contains(p) ==> given.contains(p.0) || excluded(p),
        v.polled().1 is NotReady && v.exclude is Ready ==> {
            &&& v.polled().0.drain.is_empty()
            &&& v.polled().0.pending_changesets.len() > 0
        },
    decreases v.next_generation.len(),
{
    if !v.drain.is_empty() && !(v.exclude is Ready) {
    } else if !v.drain.is_empty() && is_above(v.exclude->Ready_0, v.current_generation) {
    } else if !v.kept().is_empty() {
        vstd::set_lib::lemma_set_subset_finite(v.drain, v.kept());
        lemma_greatest_exists(v.kept());
        let node = greatest(v.kept());
        assert(v.drain.contains(node));
        let t = v.given_out(node);
        let out = given.push(node);
        vstd::set_lib::lemma_set_subset_finite(v.drain, t.drain);
        assert(out[given.len() as int] == node);
        assert(found.contains((node, v.current_generation)));
        assert forall|p: (ChangesetId, Generation)| #[trigger]
            found.contains(p) implies out.contains(p.0) || excluded(p)
            || t.next_generation.contains(p) || (p.1 == t.current_generation && t.drain.contains(
            p.0,
        )) by {
            if given.contains(p.0) {
                assert(out[given.index_of(p.0)] == p.0);
            } else if p.1 == v.current_generation && v.drain.contains(p.0) && !excluded(p) {
                assert(!v.exclude->Ready_0.contains((p.0, v.current_generation))) by {
                    assert(p == (p.0, v.current_generation));
                }
                assert(v.kept().contains(p.0));
                assert(p.0 == node || id_lt(p.0, node));
            }
        }
        assert forall|i: int| 0 <= i < out.len() implies is_among(found, #[trigger] out[i]) by {
            if i < given.len() {
                assert(out[i] == given[i]);
            }
        }
    } else {
        assert forall|p: (ChangesetId, Generation)| #[trigger]
            found.contains(p) implies given.contains(p.0) || excluded(p)
            || v.next_generation.contains(p) by {
            if p.1 == v.current_generation && v.drain.contains(p.0) {
                assert(!v.kept().contains(p.0));
                assert(p == (p.0, v.current_generation));
                assert(v.exclude->Ready_0.contains(p));
            }
        }
        if v.pending_exhausted() && !v.next_generation.is_empty() {
            let t = v.collected().advanced();
            let g = max_gen(v.next_generation)->0;
            lemma_advanced_smaller(v.collected());
            lemma_nodes_at_finite(v.next_generation, g);
            assert forall|p: (ChangesetId, Generation)| #[trigger]
                found.contains(p) implies given.contains(p.0) || excluded(p)
                || t.next_generation.contains(p) || (p.1 == t.current_generation
                && t.drain.contains(p.0)) by {
                if v.next_generation.contains(p) && p.1 == g {
                    assert(p == (p.0, g));
                    assert(nodes_at(v.next_generation, g).contains(p.0));
                }
            }
            assert forall|p: (ChangesetId, Generation)| #[trigger]
                t.next_generation.contains(p) implies found.contains(p) by {
                assert(v.next_generation.contains(p));
            }
            lemma_polled_accounts(t, given, found, excluded);
        }
    }
}

/// What holds of a run.
proof fn lemma_run_accounts(s: NodeStreamView, events: Seq<Event>)
    requires
        is_made(s),
        is_possible_run(s, events),
    ensures
        ({
            let excluded = |p: (ChangesetId, Generation)| was_excluded(s, events, p);
            match after(s, events) {
                NodeStreamView::Starting { hashes: h, excludes: x } => {
                    &&& h.generations.len() <= h.nodes.len()
                    &&& x.generations.len() <= x.nodes.len()
                    &&& found(s, events) == known(h)
                    &&& exclude_frontier(s, events) == known(x)
                    &&& given(s, events).len() == 0
                    &&& !has_start_failed(events)
                },
                NodeStreamView::Streaming(v) => {
                    &&& accounts_for(v, given(s, events), found(s, events), excluded)
                    &&& v.exclude matches ExcludeView::Ready(f) ==> f == exclude_frontier(s, events)
                    &&& v.exclude matches ExcludeView::Moving { frontier, .. } ==> frontier
                        == exclude_frontier(s, events)
                    &&& !has_start_failed(events)
                },
                NodeStreamView::Ended => {
                    &&& has_start_failed(events)
                    &&& given(s, events).len() == 0
                },
            }
        }),
    decreases events.len(),
{
    let excluded = |p: (ChangesetId, Generation)| was_excluded(s, events, p);
    if events.len() == 0 {
        if let NodeStreamView::Starting { hashes: h, excludes: x } = s {
            assert(known(h) =~= Set::empty());
            assert(known(x) =~= Set::empty());
        }
        if let NodeStreamView::Streaming(v) = s {
            assert(v.drain =~= Set::<ChangesetId>::empty());
        }
    } else {
        let fewer = events.drop_last();
        let before = after(s, fewer);
        let event = events.last();
        let earlier = |p: (ChangesetId, Generation)| was_excluded(s, fewer, p);
        lemma_run_accounts(s, fewer);
        lemma_start_failed(events);
        lemma_can_take(s, events);
        lemma_finite_event(before, event);
        assert forall|p: (ChangesetId, Generation)| #[trigger] earlier(p) implies excluded(p) by {}
        match before {
            NodeStreamView::Starting { hashes: h, excludes: x } => {
                if event is Poll && before.is_started() {
                    lemma_started_accounts(s, fewer);
                    lemma_more_excluded(
                        before.started(),
                        given(s, fewer),
                        found(s, fewer),
                        earlier,
                        excluded,
                    );
                    lemma_polled_accounts(
                        before.started(),
                        given(s, fewer),
                        found(s, fewer),
                        excluded,
                    );
                    lemma_polled_exclude(before.started());
                } else if let Event::GenerationFetched { source, generation } = event {
                    if source == Source::Hashes {
                        lemma_known_fetched(h, generation);
                    } else {
                        lemma_known_fetched(x, generation);
                    }
                }
            },
            NodeStreamView::Streaming(v) => {
                lemma_more_excluded(v, given(s, fewer), found(s, fewer), earlier, excluded);
                if event is Poll {
                    lemma_polled_accounts(v, given(s, fewer), found(s, fewer), excluded);
                    lemma_polled_exclude(v);
                } else if let Event::GenerationFetched { source, generation } = event {
                    let t = v.generation_fetched(source->Pending_0 as int, generation);
                    let all = found(s, events);
                    let out = given(s, events);
                    assert forall|i: int| 0 <= i < out.len() implies is_among(
                        all,
                        #[trigger] out[i],
                    ) by {
                        let g = choose|g: Generation| #[trigger]
                            found(s, fewer).contains((out[i], g));
                        assert(all.contains((out[i], g)));
                    }
                } else if let Event::HintReady { hint } = event {
                    assert forall|p: (ChangesetId, Generation)| #[trigger]
                        hint.contains(p) implies excluded(p) by {}
                }
            },
            NodeStreamView::Ended => {},
        }
    }
}

/// What was excluded earlier is excluded.
proof fn lemma_more_excluded(
    v: StreamView,
    given: Seq<ChangesetId>,
    found: Set<(ChangesetId, Generation)>,
    earlier: spec_fn((ChangesetId, Generation)) -> bool,
    excluded: spec_fn((ChangesetId, Generation)) -> bool,
)
    requires
        accounts_for(v, given, found, earlier),
        forall|p: (ChangesetId, Generation)| #[trigger] earlier(p) ==> excluded(p),
    ensures
        accounts_for(v, given, found, excluded),
{
}

/// One more generation of a given node is known.
proof fn lemma_known_fetched(input: InputView, generation: Generation)
    requires
        input.generations.len() < input.nodes.len(),
    ensures
        known(input.fetched(generation)) == known(input).insert(
            (input.nodes[input.generations.len() as int], generation),
        ),
{
    let more = input.fetched(generation);
    let count = input.generations.len() as int;
    let old = Seq::new(input.generations.len(), |i: int| (input.nodes[i], input.generations[i]));
    let new = Seq::new(more.generations.len(), |i: int| (more.nodes[i], more.generations[i]));
    assert(new =~= old.push((input.nodes[count], generation)));
    lemma_push_to_set(old, (input.nodes[count], generation));
}

/// What holds of a stream that can start to give out nodes.
proof fn lemma_started_accounts(s: NodeStreamView, events: Seq<Event>)
    requires
        ({
            let last = after(s, events);
            &&& last is Starting
            &&& last.is_started()
            &&& last->hashes.generations.len() <= last->hashes.nodes.len()
            &&& last->excludes.generations.len() <= last->excludes.nodes.len()
            &&& found(s, events) == known(last->hashes)
            &&& exclude_frontier(s, events) == known(last->excludes)
            &&& given(s, events).len() == 0
        }),
    ensures
        accounts_for(
            after(s, events).started(),
            given(s, events),
            found(s, events),
            |p: (ChangesetId, Generation)| was_excluded(s, events, p),
        ),
        after(s, events).started().exclude == ExcludeView::Ready(exclude_frontier(s, events)),
{
    let h = after(s, events)->hashes;
    let x = after(s, events)->excludes;
    let pairs = Seq::new(h.nodes.len(), |i: int| (h.nodes[i], h.generations[i]));
    vstd::seq_lib::seq_to_set_is_finite(pairs);
    assert(pairs =~= Seq::new(h.generations.len(), |i: int| (h.nodes[i], h.generations[i])));
    assert(Seq::new(x.nodes.len(), |i: int| (x.nodes[i], x.generations[i])) =~= Seq::new(
        x.generations.len(),
        |i: int| (x.nodes[i], x.generations[i]),
    ));
}

/// What holds of the next poll of a stream.
proof fn lemma_next_poll(s: NodeStreamView, events: Seq<Event>)
    requires
        is_made(s),
        is_possible_run(s, events),
        after(s, events).is_started(),
    ensures
        ({
            let v = after(s, events).started();
            let excluded = |p: (ChangesetId, Generation)| was_excluded(s, events, p);
            &&& accounts_for(v, given(s, events), found(s, events), excluded)
            &&& v.exclude matches ExcludeView::Ready(f) ==> f == exclude_frontier(s, events)
        }),
{
    lemma_run_accounts(s, events);
    if after(s, events) is Starting {
        lemma_started_accounts(s, events);
    }
}

/// In the course of a run, whatever becomes known, a stream gives out only nodes that it has learnt
/// of, and none that is in the exclude frontier then. When it asks for a hint, that is for the
/// whole exclude frontier: all of the excluded nodes, or all of the last hint.
pub proof fn law_poll_gives_found_nodes(s: NodeStreamView, events: Seq<Event>)
    requires
        is_made(s),
        is_possible_run(s, events),
        !has_hint_failed(events),
    ensures
        match after(s, events).polled().1 {
            PolledView::Node { node, .. } => exists|g: Generation| #[trigger]
                found(s, events).contains((node, g)) && !exclude_frontier(s, events).contains(
                    (node, g),
                ),
            PolledView::LcaHint { frontier, .. } => frontier == exclude_frontier(s, events),
            _ => true,
        },
        forall|i: int|
            0 <= i < given(s, events).len() ==> is_among(
                found(s, events),
                #[trigger] given(s, events)[i],
            ),
{
    lemma_requests(s, events);
    lemma_run_accounts(s, events);
    if after(s, events).is_started() {
        let v = after(s, events).started();
        let excluded = |p: (ChangesetId, Generation)| was_excluded(s, events, p);
        lemma_next_poll(s, events);
        lemma_polled_accounts(v, given(s, events), found(s, events), excluded);
        lemma_polled_exclude(v);
        if v.polled().1 is Node {
            lemma_node_needs_frontier(v);
        }
    }
}

/// A poll gives a node only with the frontier at hand.
proof fn lemma_node_needs_frontier(v: StreamView)
    requires
        v.next_generation.finite(),
        v.polled().1 is Node,
    ensures
        v.exclude is Ready,
    decreases v.next_generation.len(),
{
    if v.turns() {
        lemma_advanced_smaller(v.collected());
        lemma_node_needs_frontier(v.collected().advanced());
    } else {
        assert(v.kept() =~= Set::<ChangesetId>::empty() || !v.drain.is_empty()) by {
            if v.drain.is_empty() {
                assert(v.drain =~= Set::<ChangesetId>::empty());
            }
        }
    }
}

/// When a stream ends, it has lost none of the nodes that it has learnt of, whatever has become
/// known and whatever fetches of parents have failed: each of them was given out, or was in the
/// exclude frontier.
pub proof fn law_ended_stream_lost_nothing(s: NodeStreamView, events: Seq<Event>)
    requires
        is_made(s),
        is_possible_run(s, events),
        !has_start_failed(events),
        after(s, events).polled().1 is End,
    ensures
        forall|p: (ChangesetId, Generation)| #[trigger]
            found(s, events).contains(p) ==> given(s, events).contains(p.0) || was_excluded(
                s,
                events,
                p,
            ),
{
    lemma_run_accounts(s, events);
    let excluded = |p: (ChangesetId, Generation)| was_excluded(s, events, p);
    lemma_next_poll(s, events);
    lemma_polled_accounts(
        after(s, events).started(),
        given(s, events),
        found(s, events),
        excluded,
    );
    assert forall|p: (ChangesetId, Generation)| #[trigger]
        found(s, events).contains(p) implies given(s, events).contains(p.0) || was_excluded(
        s,
        events,
        p,
    ) by {
        assert(given(s, events).contains(p.0) || excluded(p));
    }
}

/// A stream that has started waits for parents and generations only when a generation is over: of
/// all the nodes that it has learnt of, down to the generation of the last node that it gave out,
/// each was given out or was in the exclude frontier. This holds whatever the hints, and whatever
/// fetches of parents have failed.
pub proof fn law_waits_between_generations(
    graph: CommitGraph,
    hashes: Set<ChangesetId>,
    excludes: Set<ChangesetId>,
    s: NodeStreamView,
    events: Seq<Event>,
)
    requires
        graph.wf(),
        is_new(graph, hashes, excludes, s),
        is_fetch_run(graph, s, events),
        !has_hint_failed(events),
        asked_hint(s, events) is None,
        after(s, events).query(Source::Hashes) is None,
        after(s, events).query(Source::Excludes) is None,
        after(s, events).polled().1 is NotReady,
    ensures
        given(s, events).len() > 0,
        forall|p: (ChangesetId, Generation)| #[trigger]
            found(s, events).contains(p) && p.1 >= (graph.generation)(given(s, events).last())
                ==> given(s, events).contains(p.0) || was_excluded(s, events, p),
{
    lemma_possible_run(graph, s, events);
    lemma_requests(s, events);
    lemma_run_accounts(s, events);
    lemma_next_poll(s, events);
    lemma_ordered_run(graph, hashes, excludes, s, events);
    let last = after(s, events);
    let out = given(s, events);
    let all = found(s, events);
    let v = last.started();
    let excluded = |p: (ChangesetId, Generation)| was_excluded(s, events, p);
    lemma_polled_accounts(v, out, all, excluded);
    lemma_polled_exclude(v);
    lemma_ordered_event(graph, hashes, excludes, last, out, Event::Poll);
    let t = last.polled().0->Streaming_0;
    lemma_found_generations(graph, s, events);
    assert forall|p: (ChangesetId, Generation)| #[trigger]
        all.contains(p) && p.1 >= (graph.generation)(out.last()) implies out.contains(p.0)
        || was_excluded(s, events, p) by {
        assert(all.contains((out.last(), t.current_generation)));
        assert((graph.generation)(out.last()) == t.current_generation);
        assert(out.contains(p.0) || excluded(p) || t.next_generation.contains(p));
    }
}

/// The nodes that a stream has learnt of come with their generations.
proof fn lemma_found_generations(graph: CommitGraph, s: NodeStreamView, events: Seq<Event>)
    requires
        s matches NodeStreamView::Streaming(v) ==> has_generations(graph, v.next_generation),
        is_fetch_run(graph, s, events),
    ensures
        has_generations(graph, found(s, events)),
    decreases events.len(),
{
    if events.len() > 0 {
        lemma_found_generations(graph, s, events.drop_last());
    }
}

/// When a stream asks for a hint in a run in which all is true and nothing is lost, the frontier
/// that it gives stands for `excludes` up to the generation: it is made of ancestors of `excludes`,
/// and all ancestors of `excludes` up to that generation are ancestors of it. All nodes of the
/// difference with a greater generation have been given out, and some node of the generation is
/// still to be looked at.
pub proof fn law_asked_frontier_stands_for_excludes(
    graph: CommitGraph,
    hashes: Set<ChangesetId>,
    excludes: Set<ChangesetId>,
    s: NodeStreamView,
    events: Seq<Event>,
)
    requires
        graph.wf(),
        is_new(graph, hashes, excludes, s),
        is_run(graph, s, events),
        is_lossless_run(graph, s, events),
    ensures
        after(s, events).polled().1 matches PolledView::LcaHint { frontier, generation } ==> {
            &&& forall|p: (ChangesetId, Generation)| #[trigger]
                frontier.contains(p) ==> p.1 == (graph.generation)(p.0) && graph.ancestors(
                    excludes,
                ).contains(p.0)
            &&& forall|n: ChangesetId| #[trigger]
                graph.ancestors(excludes).contains(n) && (graph.generation)(n) <= generation
                    ==> exists|p: (ChangesetId, Generation)| #[trigger]
                    frontier.contains(p) && graph.is_ancestor(n, p.0)
            &&& forall|n: ChangesetId| #[trigger]
                graph.ancestors(hashes).contains(n) && !graph.ancestors(excludes).contains(n)
                    && (graph.generation)(n) > generation ==> given(s, events).contains(n)
            &&& exists|n: ChangesetId| #[trigger]
                graph.ancestors(hashes).contains(n) && (graph.generation)(n) == generation
                    && !given(s, events).contains(n)
        },
{
    lemma_run(graph, hashes, excludes, s, events);
    lemma_fetch_run(graph, s, events);
    lemma_possible_run(graph, s, events);
    lemma_requests(s, events);
    let last = after(s, events);
    let out = given(s, events);
    if let PolledView::LcaHint { frontier, generation } = last.polled().1 {
        law_hint_is_for_the_whole_frontier(last);
        lemma_event(graph, hashes, excludes, last, out, Event::Poll);
        lemma_ordered_event(graph, hashes, excludes, last, out, Event::Poll);
        let t = last.polled().0->Streaming_0;
        assert(crate::walk::frontier(t.exclude) == frontier);
        assert forall|n: ChangesetId| #[trigger]
            graph.ancestors(excludes).contains(n) && (graph.generation)(n)
                <= generation implies exists|p: (ChangesetId, Generation)| #[trigger]
            frontier.contains(p) && graph.is_ancestor(n, p.0) by {
            assert(is_below(graph, frontier, n));
        }
        assert forall|n: ChangesetId| #[trigger]
            graph.ancestors(hashes).contains(n) && !graph.ancestors(excludes).contains(n) && (
            graph.generation)(n) > generation implies out.contains(n) by {
            if !out.contains(n) {
                let m = choose|m: ChangesetId| #[trigger]
                    is_ahead(graph, t, m) && graph.is_ancestor(n, m);
                graph.lemma_generation(n, m);
                if t.next_generation.contains((m, (graph.generation)(m))) {
                } else if t.drain.contains(m) {
                } else {
                    let slot = choose|slot: int| owes(graph, t, slot, m);
                    assert(owes(graph, t, slot, m));
                }
            }
        }
        let n = choose|n: ChangesetId| #[trigger] t.drain.contains(n);
        assert(graph.ancestors(hashes).contains(n));
    }
}

} // verus!
