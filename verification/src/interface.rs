//! What the user of a stream sees of it.
//!
//! These laws speak of any state of a stream, and of what its methods give in it: what a poll
//! gives, what is asked for before and after it, and what each answer changes.

use vstd::prelude::*;

use crate::laws::law_not_ready_waits;
use crate::node_stream::{is_finite, slots_fit, NodeStreamView, Source};
use crate::pending::{PendingView, Query};
use crate::runs::lemma_polled_exclude;
use crate::stream_view::{
    is_above, lemma_advanced_smaller, ExcludeView, PolledView, StreamView,
};
use crate::types::{ChangesetId, Generation};

verus! {

/// A stream that finds nodes does what the stream within it does: it gives the same, asks for the
/// same, and takes the same answers in the same way.
pub proof fn law_streaming_is_its_stream(
    v: StreamView,
    slot: usize,
    parents: Seq<ChangesetId>,
    generation: Generation,
    exclude: ExcludeView,
)
    ensures
        ({
            let s = NodeStreamView::Streaming(v);
            let source = Source::Pending(slot);
            &&& s.polled() == (NodeStreamView::Streaming(v.polled().0), v.polled().1)
            &&& s.query(source) == v.query(slot as int)
            &&& s.query(Source::Hashes) is None
            &&& s.query(Source::Excludes) is None
            &&& s.parents_fetched(slot, parents) == NodeStreamView::Streaming(
                v.parents_fetched(slot as int, parents),
            )
            &&& s.generation_fetched(source, generation) == NodeStreamView::Streaming(
                v.generation_fetched(slot as int, generation),
            )
            &&& s.fetch_failed(source) == NodeStreamView::Streaming(v.fetch_failed(slot as int))
            &&& s.with_exclude(exclude) == NodeStreamView::Streaming(v.with_exclude(exclude))
            &&& s.awaits_hint() == (v.exclude is Moving)
            &&& s.is_failed() == (v.exclude is Failed)
        }),
{
}

/// A stream that has to learn generations first has not failed and waits for no hint.
pub proof fn law_starting_can_be_polled(s: NodeStreamView)
    requires
        s is Starting || s is Ended,
    ensures
        !s.is_failed(),
        !s.awaits_hint(),
        forall|slot: usize| #[trigger] s.query(Source::Pending(slot)) is None,
{
}

/// A poll that asks for a hint gives the whole frontier of the stream: the one that it had at hand,
/// which is also the one that it has given away now. The generation is the one that the hint has to
/// keep to: that of the nodes the stream has to look at next. Some node of the frontier is of a
/// greater generation.
pub proof fn law_hint_is_for_the_whole_frontier(s: NodeStreamView)
    requires
        is_finite(s),
    ensures
        s.polled().1 matches PolledView::LcaHint { frontier, generation } ==> {
            &&& s matches NodeStreamView::Streaming(v) ==> v.exclude == ExcludeView::Ready(frontier)
            &&& s matches NodeStreamView::Starting { excludes, .. } ==> {
                &&& excludes.generations.len() >= excludes.nodes.len()
                &&& forall|p: (ChangesetId, Generation)| #[trigger]
                    frontier.contains(p) <==> exists|i: int|
                        0 <= i < excludes.nodes.len() && #[trigger] excludes.nodes[i] == p.0
                            && excludes.generations[i] == p.1
            }
            &&& s.polled().0 matches NodeStreamView::Streaming(t)
            &&& t.exclude == (ExcludeView::Moving { frontier, generation })
            &&& t.current_generation == generation
            &&& exists|n: ChangesetId| #[trigger] t.drain.contains(n)
            &&& exists|p: (ChangesetId, Generation)| #[trigger]
                frontier.contains(p) && p.1 > generation
            &&& s.polled().0.awaits_hint()
            &&& !s.polled().0.is_failed()
            &&& !s.awaits_hint()
        },
{
    if s.is_started() {
        let v = s.started();
        if let NodeStreamView::Starting { hashes: h, excludes: x } = s {
            let pairs = Seq::new(h.nodes.len(), |i: int| (h.nodes[i], h.generations[i]));
            vstd::seq_lib::seq_to_set_is_finite(pairs);
            let excluded = Seq::new(x.nodes.len(), |i: int| (x.nodes[i], x.generations[i]));
            assert forall|p: (ChangesetId, Generation)| #[trigger]
                x.with_generations().contains(p) <==> exists|i: int|
                0 <= i < x.nodes.len() && #[trigger] x.nodes[i] == p.0 && x.generations[i] == p.1 by {
                if excluded.contains(p) {
                    let i = excluded.index_of(p);
                    assert(excluded[i] == p);
                    assert(x.nodes[i] == p.0 && x.generations[i] == p.1);
                }
                if exists|i: int|
                    0 <= i < x.nodes.len() && #[trigger] x.nodes[i] == p.0 && x.generations[i]
                        == p.1 {
                    let i = choose|i: int|
                        0 <= i < x.nodes.len() && #[trigger] x.nodes[i] == p.0 && x.generations[i]
                            == p.1;
                    assert(excluded[i] == p);
                }
            }
        }
        lemma_hint_asked(v);
        lemma_polled_exclude(v);
        if let PolledView::LcaHint { frontier, generation } = v.polled().1 {
            let t = s.polled().0->Streaming_0;
            assert(t.drain.contains(t.drain.choose()));
        }
    }
}

/// A poll asks for a hint at the generation of the nodes to look at.
proof fn lemma_hint_asked(v: StreamView)
    requires
        v.next_generation.finite(),
    ensures
        v.polled().1 matches PolledView::LcaHint { frontier, generation } ==> {
            &&& v.polled().0.current_generation == generation
            &&& !v.polled().0.drain.is_empty()
            &&& is_above(frontier, generation)
        },
    decreases v.next_generation.len(),
{
    if v.turns() {
        lemma_advanced_smaller(v.collected());
        lemma_hint_asked(v.collected().advanced());
    }
}

/// What a poll does to the slots.
pub proof fn lemma_polled_pending(v: StreamView)
    requires
        v.next_generation.finite(),
    ensures
        ({
            let (t, res) = v.polled();
            let kept = v.pending_changesets;
            let none = Seq::<PendingView>::empty();
            match res {
                PolledView::Node { node, slot } => {
                    ||| slot == kept.len() && t.pending_changesets == kept.push(
                        PendingView::Parents(node),
                    )
                    ||| v.pending_exhausted() && slot == 0 && t.pending_changesets == none.push(
                        PendingView::Parents(node),
                    )
                },
                _ => {
                    ||| t.pending_changesets == kept
                    ||| v.pending_exhausted() && t.pending_changesets == none
                },
            }
        }),
    decreases v.next_generation.len(),
{
    if v.turns() {
        lemma_advanced_smaller(v.collected());
        lemma_polled_pending(v.collected().advanced());
        assert(v.collected().advanced().pending_changesets =~= Seq::<PendingView>::empty());
    }
}

/// A poll that gives a node makes the parents of that node what its slot asks for. The slot asked
/// for nothing before, and all else that is asked for is asked for as before. A poll that gives no
/// node changes nothing of what is asked for.
pub proof fn law_poll_asks_for_parents_of_its_node(s: NodeStreamView)
    requires
        is_finite(s),
    ensures
        match s.polled().1 {
            PolledView::Node { node, slot } => forall|source: Source| #[trigger]
                s.polled().0.query(source) == if source matches Source::Pending(k) && k == slot {
                    Some(Query::Parents(node))
                } else {
                    s.query(source)
                },
            _ => forall|source: Source| #[trigger] s.polled().0.query(source) == s.query(source),
        },
        s.polled().1 matches PolledView::Node { slot, .. } ==> forall|k: usize|
            k == slot ==> #[trigger] s.query(Source::Pending(k)) is None,
{
    if s.is_started() {
        let v = s.started();
        if let NodeStreamView::Starting { hashes: h, .. } = s {
            let pairs = Seq::new(h.nodes.len(), |i: int| (h.nodes[i], h.generations[i]));
            vstd::seq_lib::seq_to_set_is_finite(pairs);
        }
        lemma_polled_pending(v);
    }
}

/// A stream is never kept from going on by nothing: if a poll is not ready, the stream waits for a
/// hint, or something is asked for that its user can see.
pub proof fn law_not_ready_asks_for_something(s: NodeStreamView)
    requires
        is_finite(s),
        slots_fit(s),
        !s.is_failed(),
        s.polled().1 is NotReady,
    ensures
        s.polled().0.awaits_hint() || exists|source: Source| #[trigger]
            s.polled().0.query(source) is Some,
        s.polled().0 is Streaming && !s.polled().0.awaits_hint() ==> {
            &&& s.polled().0->Streaming_0.drain.is_empty()
            &&& exists|slot: usize| #[trigger]
                s.polled().0.query(Source::Pending(slot)) is Some
        },
{
    if s.is_started() {
        let v = s.started();
        if let NodeStreamView::Starting { hashes: h, .. } = s {
            let pairs = Seq::new(h.nodes.len(), |i: int| (h.nodes[i], h.generations[i]));
            vstd::seq_lib::seq_to_set_is_finite(pairs);
        }
        law_not_ready_waits(v);
        lemma_polled_pending(v);
        lemma_polled_exclude(v);
        if !(v.polled().0.exclude is Moving) {
            let slot = choose|slot: int| #[trigger] v.polled().0.query(slot) is Some;
            assert(s.polled().0.query(Source::Pending(slot as usize)) is Some);
        }
    } else if let NodeStreamView::Starting { hashes, .. } = s {
        if hashes.query() is Some {
            assert(s.polled().0.query(Source::Hashes) is Some);
        } else {
            assert(s.polled().0.query(Source::Excludes) is Some);
        }
    }
}

/// Once the parents of a node are known, its slot asks for the generation of the first of them, or
/// for nothing if there are none. Nothing else that is asked for changes.
pub proof fn law_parents_answered(s: NodeStreamView, slot: usize, parents: Seq<ChangesetId>)
    requires
        s.query(Source::Pending(slot)) matches Some(Query::Parents(_)),
    ensures
        ({
            let t = s.parents_fetched(slot, parents);
            &&& forall|source: Source| #[trigger]
                t.query(source) == if source != Source::Pending(slot) {
                    s.query(source)
                } else if parents.len() == 0 {
                    None
                } else {
                    Some(Query::Generation(parents[0]))
                }
            &&& t.awaits_hint() == s.awaits_hint()
            &&& t.is_failed() == s.is_failed()
        }),
{
}

/// Once a generation is known, nothing changes but what its source asks for. For a slot that is the
/// same as after the generation could not be fetched: both go on to the next parent.
pub proof fn law_generation_answered(s: NodeStreamView, source: Source, generation: Generation)
    requires
        s.query(source) matches Some(Query::Generation(_)),
    ensures
        ({
            let t = s.generation_fetched(source, generation);
            &&& forall|other: Source| other != source ==> #[trigger] t.query(other) == s.query(other)
            &&& source is Pending ==> t.query(source) == s.fetch_failed(source).query(source)
            &&& t.awaits_hint() == s.awaits_hint()
            &&& t.is_failed() == s.is_failed()
            &&& s is Starting ==> t is Starting
        }),
{
}

/// A fetch that has failed changes nothing but what its slot asks for; a slot whose parents could
/// not be fetched asks for nothing any more. If it was for a given node, the stream is over.
pub proof fn law_failure_answered(s: NodeStreamView, source: Source)
    requires
        s.query(source) is Some,
    ensures
        ({
            let t = s.fetch_failed(source);
            match source {
                Source::Pending(_) => {
                    &&& forall|other: Source|
                        other != source ==> #[trigger] t.query(other) == s.query(other)
                    &&& s.query(source) matches Some(Query::Parents(_)) ==> t.query(source) is None
                    &&& t.awaits_hint() == s.awaits_hint()
                    &&& t.is_failed() == s.is_failed()
                },
                _ => {
                    &&& forall|other: Source| #[trigger] t.query(other) is None
                    &&& t.polled() == (t, PolledView::End)
                    &&& !t.awaits_hint()
                    &&& !t.is_failed()
                },
            }
        }),
{
}

/// A hint that becomes known, or cannot be had, is waited for no more. The stream has failed only
/// in the second case. Nothing that is asked for changes.
pub proof fn law_hint_answered(s: NodeStreamView, hint: Set<(ChangesetId, Generation)>)
    requires
        s.awaits_hint(),
    ensures
        ({
            let t = s.with_exclude(ExcludeView::Ready(hint));
            let u = s.with_exclude(ExcludeView::Failed);
            &&& !t.awaits_hint() && !t.is_failed()
            &&& !u.awaits_hint() && u.is_failed()
            &&& forall|source: Source| #[trigger] t.query(source) == s.query(source)
            &&& forall|source: Source| #[trigger] u.query(source) == s.query(source)
        }),
{
}

} // verus!
