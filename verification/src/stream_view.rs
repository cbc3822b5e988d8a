//! What a stream of ancestors is, as mathematics.

use vstd::prelude::*;

use crate::node_frontier::{is_max_gen, max_gen, nodes_at, nodes_not_at};
use crate::pending::{PendingView, Query};
use crate::types::{
    greatest, id_lt, is_greatest, lemma_greatest_exists, ChangesetId, Generation, MAX_GEN,
};

verus! {

/// The exclude frontier of a stream.
#[verifier::ext_equal]
pub enum ExcludeView {
    /// The frontier is at hand.
    Ready(Set<(ChangesetId, Generation)>),
    /// The frontier was given away, to be replaced by one of at most the given generation.
    Moving { frontier: Set<(ChangesetId, Generation)>, generation: Generation },
    /// The frontier could not be replaced.
    Failed,
}

/// What asking whether a node is excluded gives.
#[verifier::ext_equal]
pub enum ExcludedView {
    /// Whether the node is excluded.
    Ready(bool),
    /// The exclude frontier has to be moved to at most the given generation.
    LcaHint { frontier: Set<(ChangesetId, Generation)>, generation: Generation },
    /// Nothing can be said before the frontier that was asked for is there.
    NotReady,
}

impl ExcludeView {
    /// The exclude frontier after it was asked whether `node`, which is of the given generation, is
    /// excluded, and the answer. A frontier with no node of a greater generation tells it; any
    /// other is given away to be moved.
    pub open spec fn checked(self, node: ChangesetId, generation: Generation) -> (
        ExcludeView,
        ExcludedView,
    ) {
        match self {
            ExcludeView::Ready(frontier) => if is_above(frontier, generation) {
                (
                    ExcludeView::Moving { frontier, generation },
                    ExcludedView::LcaHint { frontier, generation },
                )
            } else {
                (self, ExcludedView::Ready(frontier.contains((node, generation))))
            },
            _ => (self, ExcludedView::NotReady),
        }
    }
}

/// What polling a stream gives.
#[verifier::ext_equal]
pub enum PolledView {
    /// The next node of the stream, and the slot in which its parents are pending.
    Node { node: ChangesetId, slot: nat },
    /// There are no more nodes.
    End,
    /// The exclude frontier has to be moved to at most the given generation.
    LcaHint { frontier: Set<(ChangesetId, Generation)>, generation: Generation },
    /// Nothing can be said before something that was asked for is known.
    NotReady,
}

/// The state of a stream of the nodes that are ancestors of some nodes and not of others.
#[verifier::ext_equal]
pub struct StreamView {
    /// The nodes that were found and not looked at yet.
    pub next_generation: Set<(ChangesetId, Generation)>,
    /// The generation of the nodes in `drain`.
    pub current_generation: Generation,
    /// The parents of the nodes that the stream gave out of the current generation.
    pub pending_changesets: Seq<PendingView>,
    /// The nodes whose ancestors are excluded.
    pub exclude: ExcludeView,
    /// The nodes of the current generation that were not looked at yet.
    pub drain: Set<ChangesetId>,
}

/// Whether some node of `frontier` has a greater generation than `generation`.
pub open spec fn is_above(
    frontier: Set<(ChangesetId, Generation)>,
    generation: Generation,
) -> bool {
    exists|p: (ChangesetId, Generation)| #[trigger] frontier.contains(p) && p.1 > generation
}

impl StreamView {
    /// A stream of the ancestors of `hashes` that are not ancestors of `excludes`, before the
    /// first poll.
    pub open spec fn start(
        hashes: Set<(ChangesetId, Generation)>,
        excludes: Set<(ChangesetId, Generation)>,
    ) -> StreamView {
        StreamView {
            next_generation: hashes,
            current_generation: MAX_GEN,
            pending_changesets: Seq::empty(),
            exclude: ExcludeView::Ready(excludes),
            drain: Set::empty(),
        }
    }

    /// The nodes of the drain that are not excluded, once the frontier is at hand and has no node
    /// of a greater generation.
    pub open spec fn kept(self) -> Set<ChangesetId> {
        self.drain.filter(
            |n: ChangesetId| !self.exclude->Ready_0.contains((n, self.current_generation)),
        )
    }

    /// Whether all parents of the nodes of the current generation are known.
    pub open spec fn pending_exhausted(self) -> bool {
        forall|i: int|
            0 <= i < self.pending_changesets.len() ==> (
            #[trigger] self.pending_changesets[i]).query() is None
    }

    /// The stream after its last look at the current generation.
    pub open spec fn drained(self) -> StreamView {
        StreamView { drain: Set::empty(), ..self }
    }

    /// The stream after all parents of the nodes of the current generation have become known.
    pub open spec fn collected(self) -> StreamView {
        StreamView { drain: Set::empty(), pending_changesets: Seq::empty(), ..self }
    }

    /// The stream turned to the greatest generation that it has found nodes of.
    pub open spec fn advanced(self) -> StreamView {
        let generation = max_gen(self.next_generation)->0;
        StreamView {
            next_generation: nodes_not_at(self.next_generation, generation),
            current_generation: generation,
            drain: nodes_at(self.next_generation, generation),
            ..self
        }
    }

    /// The stream after `node` was given out: greater nodes of the drain were excluded, and the
    /// parents of `node` are pending.
    pub open spec fn given_out(self, node: ChangesetId) -> StreamView {
        StreamView {
            drain: self.drain.filter(|n: ChangesetId| id_lt(n, node)),
            pending_changesets: self.pending_changesets.push(PendingView::Parents(node)),
            ..self
        }
    }

    /// The stream after its frontier was given away to be moved.
    pub open spec fn asking(self) -> StreamView {
        StreamView {
            exclude: ExcludeView::Moving {
                frontier: self.exclude->Ready_0,
                generation: self.current_generation,
            },
            ..self
        }
    }

    /// The stream after a poll, and what the poll gives. Of a generation, the stream gives the
    /// nodes that are not excluded, the greatest first. It turns to the next one when the parents
    /// of all of them are known, and ends when there is none. To tell what is excluded, it needs a
    /// frontier with no node of a greater generation.
    pub open spec fn polled(self) -> (StreamView, PolledView)
        decreases self.next_generation.len(),
        when self.next_generation.finite()
    {
        if !self.drain.is_empty() && !(self.exclude is Ready) {
            (self, PolledView::NotReady)
        } else if !self.drain.is_empty() && is_above(
            self.exclude->Ready_0,
            self.current_generation,
        ) {
            (
                self.asking(),
                PolledView::LcaHint {
                    frontier: self.exclude->Ready_0,
                    generation: self.current_generation,
                },
            )
        } else if !self.kept().is_empty() {
            let node = greatest(self.kept());
            (
                self.given_out(node),
                PolledView::Node { node, slot: self.pending_changesets.len() },
            )
        } else if !self.pending_exhausted() {
            (self.drained(), PolledView::NotReady)
        } else if self.next_generation.is_empty() {
            (self.collected(), PolledView::End)
        } else {
            proof {
                lemma_advanced_smaller(self.collected());
            }
            self.collected().advanced().polled()
        }
    }

    /// Whether a poll makes the stream turn to another generation.
    pub open spec fn turns(self) -> bool {
        &&& self.drain.is_empty() || (self.exclude is Ready && !is_above(
            self.exclude->Ready_0,
            self.current_generation,
        ))
        &&& self.kept().is_empty()
        &&& self.pending_exhausted()
        &&& !self.next_generation.is_empty()
    }

    /// The generations that a poll makes the stream turn to.
    pub open spec fn turned_to(self) -> Seq<Generation>
        decreases self.next_generation.len(),
        when self.next_generation.finite()
    {
        if self.turns() {
            proof {
                lemma_advanced_smaller(self.collected());
            }
            let next = self.collected().advanced();
            seq![next.current_generation] + next.turned_to()
        } else {
            Seq::empty()
        }
    }

    /// What has to be fetched next to find the parents of the node in `slot`; nothing if there is
    /// no such node or all its parents are known.
    pub open spec fn query(self, slot: int) -> Option<Query> {
        if 0 <= slot < self.pending_changesets.len() {
            self.pending_changesets[slot].query()
        } else {
            None
        }
    }

    /// The stream after the parents of the node in `slot` have become known.
    pub open spec fn parents_fetched(self, slot: int, parents: Seq<ChangesetId>) -> StreamView {
        StreamView {
            pending_changesets: self.pending_changesets.update(
                slot,
                PendingView::Generations(parents),
            ),
            ..self
        }
    }

    /// The stream after the generation of the next parent in `slot` has become known.
    pub open spec fn generation_fetched(self, slot: int, generation: Generation) -> StreamView {
        let rest = self.pending_changesets[slot]->Generations_0;
        StreamView {
            pending_changesets: self.pending_changesets.update(
                slot,
                PendingView::Generations(rest.drop_first()),
            ),
            next_generation: self.next_generation.insert((rest[0], generation)),
            ..self
        }
    }

    /// The stream after a fetch for `slot` has failed.
    pub open spec fn fetch_failed(self, slot: int) -> StreamView {
        StreamView {
            pending_changesets: self.pending_changesets.update(
                slot,
                self.pending_changesets[slot].failed(),
            ),
            ..self
        }
    }

    /// The stream with the given exclude frontier.
    pub open spec fn with_exclude(self, exclude: ExcludeView) -> StreamView {
        StreamView { exclude, ..self }
    }
}

/// A non-empty finite set of nodes has a greatest generation.
pub proof fn lemma_max_gen_exists(s: Set<(ChangesetId, Generation)>)
    requires
        s.finite(),
        !s.is_empty(),
    ensures
        max_gen(s) is Some,
        is_max_gen(s, max_gen(s)->0),
    decreases s.len(),
{
    let p = s.choose();
    assert(s.contains(p));
    let rest = s.remove(p);
    if rest.is_empty() {
        assert forall|q: (ChangesetId, Generation)| #[trigger] s.contains(q) implies q.1 <= p.1 by {
            if q != p {
                assert(rest.contains(q));
            }
        }
        assert(s.contains((p.0, p.1)));
        assert(is_max_gen(s, p.1));
    } else {
        lemma_max_gen_exists(rest);
        let g = max_gen(rest)->0;
        let n = choose|n: ChangesetId| rest.contains((n, g));
        assert(rest.contains((n, g)));
        assert(s.contains((n, g)));
        assert(s.contains((p.0, p.1)));
        assert forall|q: (ChangesetId, Generation)| #[trigger] s.contains(q) implies q.1 <= g || q
            == p by {
            if q != p {
                assert(rest.contains(q));
            }
        }
        assert(is_max_gen(s, if p.1 > g { p.1 } else { g }));
    }
}

/// Turning to the next generation leaves fewer nodes to look at later.
pub proof fn lemma_advanced_smaller(s: StreamView)
    requires
        s.next_generation.finite(),
        !s.next_generation.is_empty(),
    ensures
        s.advanced().next_generation.finite(),
        s.advanced().next_generation.len() < s.next_generation.len(),
        !s.advanced().drain.is_empty(),
{
    lemma_max_gen_exists(s.next_generation);
    let g = max_gen(s.next_generation)->0;
    let n = choose|n: ChangesetId| s.next_generation.contains((n, g));
    let less = s.next_generation.remove((n, g));
    let rest = s.advanced().next_generation;
    assert(rest.subset_of(less));
    vstd::set_lib::lemma_set_subset_finite(less, rest);
    vstd::set_lib::lemma_len_subset(rest, less);
    assert(s.advanced().drain.contains(n));
}

/// Turning to a generation takes all nodes of the greatest generation that nodes were found of into
/// the drain, leaves all other nodes that were found, and changes nothing else.
pub proof fn law_turn_takes_greatest_generation(v: StreamView)
    requires
        v.next_generation.finite(),
        !v.next_generation.is_empty(),
    ensures
        ({
            let t = v.advanced();
            let g = t.current_generation;
            &&& forall|p: (ChangesetId, Generation)| #[trigger]
                v.next_generation.contains(p) ==> p.1 <= g
            &&& exists|n: ChangesetId| #[trigger] t.drain.contains(n)
            &&& forall|n: ChangesetId| #[trigger]
                t.drain.contains(n) <==> v.next_generation.contains((n, g))
            &&& forall|p: (ChangesetId, Generation)| #[trigger]
                t.next_generation.contains(p) <==> v.next_generation.contains(p) && p.1 != g
            &&& t.pending_changesets == v.pending_changesets
            &&& t.exclude == v.exclude
        }),
{
    lemma_max_gen_exists(v.next_generation);
    let g = max_gen(v.next_generation)->0;
    let n = choose|n: ChangesetId| v.next_generation.contains((n, g));
    assert(v.advanced().drain.contains(n));
}

/// An answer for a slot changes nothing but that slot, and a generation that becomes known makes
/// the parent that it was asked for one of the nodes that were found.
pub proof fn law_answers_change_their_slot(
    v: StreamView,
    slot: int,
    parents: Seq<ChangesetId>,
    generation: Generation,
)
    requires
        0 <= slot < v.pending_changesets.len(),
    ensures
        ({
            let t = v.parents_fetched(slot, parents);
            &&& t.pending_changesets == v.pending_changesets.update(
                slot,
                PendingView::Generations(parents),
            )
            &&& t == StreamView { pending_changesets: t.pending_changesets, ..v }
        }),
        v.pending_changesets[slot] matches PendingView::Generations(rest) ==> rest.len() > 0 ==> {
            let left = v.pending_changesets.update(slot, PendingView::Generations(rest.skip(1)));
            let t = v.generation_fetched(slot, generation);
            let u = v.fetch_failed(slot);
            &&& t.pending_changesets == left
            &&& forall|p: (ChangesetId, Generation)| #[trigger]
                t.next_generation.contains(p) <==> v.next_generation.contains(p) || p == (
                    rest[0],
                    generation,
                )
            &&& t == StreamView {
                pending_changesets: left,
                next_generation: t.next_generation,
                ..v
            }
            &&& u == StreamView { pending_changesets: left, ..v }
        },
        v.pending_changesets[slot] is Parents ==> v.fetch_failed(slot) == v.parents_fetched(
            slot,
            Seq::empty(),
        ),
{
    if let PendingView::Generations(rest) = v.pending_changesets[slot] {
        if rest.len() > 0 {
            assert(rest.drop_first() =~= rest.skip(1));
        }
    }
}

/// A poll passes over an excluded node: the stream goes on as if the drain did not hold it.
pub proof fn lemma_excluded_passed_over(s: StreamView, node: ChangesetId)
    requires
        s.next_generation.finite(),
        s.drain.finite(),
        s.exclude is Ready,
        !is_above(s.exclude->Ready_0, s.current_generation),
        is_greatest(s.drain, node),
        s.exclude->Ready_0.contains((node, s.current_generation)),
    ensures
        (StreamView { drain: s.drain.remove(node), ..s }).polled() == s.polled(),
{
    let t = StreamView { drain: s.drain.remove(node), ..s };
    assert(t.kept() =~= s.kept());
    assert(t.drained() =~= s.drained());
    assert(t.collected() =~= s.collected());
    assert(t.pending_exhausted() == s.pending_exhausted());
    if !s.kept().is_empty() {
        vstd::set_lib::lemma_set_subset_finite(s.drain, s.kept());
        lemma_greatest_exists(s.kept());
        let kept = greatest(s.kept());
        assert(s.drain.contains(kept));
        assert(id_lt(kept, node));
        assert(t.drain.contains(kept));
        assert(t.given_out(kept).drain =~= s.given_out(kept).drain);
        assert(t.given_out(kept) =~= s.given_out(kept));
    }
}

} // verus!
