//! The difference of two unions of ancestors.
//!
//! A union or a difference of streams of ancestors can be made more efficient than one of
//! arbitrary streams of nodes. Take two nodes with a common ancestor:
//!
//! ```text
//! A-o   o-B
//!    \ /
//!     o - C
//!     |
//!     o
//!     |
//!    ...
//! ```
//!
//! A union of the streams of ancestors of `A` and of `B` would walk `C` and all its ancestors
//! twice, and so would a difference. The stream below looks at each node once.

use std::collections::BTreeSet;
use vstd::laws_cmp::obeys_cmp;
use vstd::prelude::*;
use vstd::std_specs::btree::{increasing_seq, spec_btree_keys_iter};
use vstd::std_specs::cmp::OrdSpec;
use vstd::std_specs::iter::IteratorSpec;

use crate::node_frontier::{is_max_gen, max_gen, nodes_at, NodeFrontier};
use crate::node_stream::{BonsaiNodeStream, NodeStreamView};
use crate::pending::{make_pending, PendingChangesets, PendingView, Query, StreamError};
use crate::stream_view::{
    lemma_advanced_smaller, lemma_excluded_passed_over, lemma_max_gen_exists,
    ExcludeView, ExcludedView, PolledView, StreamView,
};
use crate::types::{
    id_lt, is_greatest, lemma_greatest_unique, ChangesetId, Generation, MAX_GEN,
};

verus! {

broadcast use vstd::laws_cmp::group_laws_cmp;

/// The frontier of the nodes whose ancestors are excluded.
enum Exclude {
    /// The frontier is at hand.
    Ready(NodeFrontier),
    /// The frontier was given away, to be moved to at most the given generation.
    Moving { frontier: Ghost<Set<(ChangesetId, Generation)>>, generation: Generation },
    /// The frontier could not be moved, and is lost.
    Failed,
}

impl View for Exclude {
    type V = ExcludeView;

    closed spec fn view(&self) -> ExcludeView {
        match *self {
            Exclude::Ready(frontier) => ExcludeView::Ready(frontier@),
            Exclude::Moving { frontier, generation } => ExcludeView::Moving {
                frontier: frontier@,
                generation,
            },
            Exclude::Failed => ExcludeView::Failed,
        }
    }
}

/// What polling a stream gives.
pub enum Polled {
    /// The next node of the stream. What has to be fetched to find its parents is told by the
    /// query of the given slot.
    Node { node: ChangesetId, slot: usize },
    /// There are no more nodes.
    End,
    /// A hint has to be asked for: given `frontier`, a set of nodes, and `generation`, it is a set
    /// of nodes `C` which satisfies:
    /// - the greatest generation number in `C` is at most `generation`;
    /// - any ancestor of `frontier` with a generation of at most `generation` is also an ancestor
    ///   of `C`.
    LcaHint { frontier: NodeFrontier, generation: Generation },
    /// Something that was asked for has to become known first.
    NotReady,
}

impl View for Polled {
    type V = PolledView;

    open spec fn view(&self) -> PolledView {
        match *self {
            Polled::Node { node, slot } => PolledView::Node { node, slot: slot as nat },
            Polled::End => PolledView::End,
            Polled::LcaHint { frontier, generation } => PolledView::LcaHint {
                frontier: frontier@,
                generation,
            },
            Polled::NotReady => PolledView::NotReady,
        }
    }
}

impl Polled {
    /// A frontier that is given away is well-formed.
    pub open spec fn wf(&self) -> bool {
        *self matches Polled::LcaHint { frontier, .. } ==> frontier.wf()
    }
}

/// The view of what a poll gives says the same as it does.
pub proof fn law_polled_view(res: Polled)
    ensures
        match res {
            Polled::Node { node, slot } => res@ == (PolledView::Node { node, slot: slot as nat }),
            Polled::End => res@ is End,
            Polled::LcaHint { frontier, generation } => res@ == (PolledView::LcaHint {
                frontier: frontier@,
                generation,
            }),
            Polled::NotReady => res@ is NotReady,
        },
        res.wf() <==> (res matches Polled::LcaHint { frontier, .. } ==> frontier.wf()),
{
}

/// What asking whether a node is excluded gives.
pub enum Excluded {
    /// Whether the node is excluded.
    Ready(bool),
    /// A hint has to be asked for, as in [`Polled::LcaHint`].
    LcaHint { frontier: NodeFrontier, generation: Generation },
    /// The hint that was asked for has to become known first.
    NotReady,
}

impl View for Excluded {
    type V = ExcludedView;

    open spec fn view(&self) -> ExcludedView {
        match *self {
            Excluded::Ready(excluded) => ExcludedView::Ready(excluded),
            Excluded::LcaHint { frontier, generation } => ExcludedView::LcaHint {
                frontier: frontier@,
                generation,
            },
            Excluded::NotReady => ExcludedView::NotReady,
        }
    }
}

impl Excluded {
    /// A frontier that is given away is well-formed.
    pub open spec fn wf(&self) -> bool {
        *self matches Excluded::LcaHint { frontier, .. } ==> frontier.wf()
    }
}

/// The view of the answer says the same as it does.
pub proof fn law_excluded_view(res: Excluded)
    ensures
        match res {
            Excluded::Ready(excluded) => res@ == ExcludedView::Ready(excluded),
            Excluded::LcaHint { frontier, generation } => res@ == (ExcludedView::LcaHint {
                frontier: frontier@,
                generation,
            }),
            Excluded::NotReady => res@ is NotReady,
        },
        res.wf() <==> (res matches Excluded::LcaHint { frontier, .. } ==> frontier.wf()),
{
}

/// As the name suggests, it's a difference of unions of ancestors of nodes. In Mercurial's terms
/// it's `(::A) - (::B)`, where `A` and `B` are sets of nodes.
///
/// The stream does not fetch anything itself. It tells what has to be fetched, and takes the
/// outcome.
pub struct DifferenceOfUnionsOfAncestorsNodeStream {
    /// Nodes that we know about, grouped by generation.
    next_generation: NodeFrontier,
    /// The generation of the nodes in `drain`. All nodes with bigger generation have already been
    /// returned.
    current_generation: Generation,
    /// Parents of entries from `drain`. The generation number has to be fetched for them.
    pending_changesets: Vec<PendingChangesets>,
    /// Nodes whose ancestors need to be excluded.
    exclude_ancestors: Exclude,
    /// The greatest generation in `exclude_ancestors`, unless it has to be computed again.
    current_exclude_generation: Option<Generation>,
    /// Nodes which generation is equal to `current_generation`, in ascending order. They will be
    /// returned from the stream, the last one first, unless excluded.
    drain: Vec<ChangesetId>,
}

impl View for DifferenceOfUnionsOfAncestorsNodeStream {
    type V = StreamView;

    closed spec fn view(&self) -> StreamView {
        StreamView {
            next_generation: self.next_generation@,
            current_generation: self.current_generation,
            pending_changesets: self.pending_changesets@.map_values(|p: PendingChangesets| p@),
            exclude: self.exclude_ancestors@,
            drain: self.drain@.to_set(),
        }
    }
}

impl DifferenceOfUnionsOfAncestorsNodeStream {
    /// The parts are well-formed, the drain is sorted, and the greatest generation of the exclude
    /// frontier is right where it is known.
    pub closed spec fn wf(&self) -> bool {
        &&& self.next_generation.wf()
        &&& forall|i: int|
            0 <= i < self.pending_changesets@.len() ==> (#[trigger] self.pending_changesets@[i]).wf()
        &&& self.exclude_ancestors matches Exclude::Ready(frontier) ==> frontier.wf()
        &&& self.current_exclude_generation is Some ==> {
            &&& self.exclude_ancestors is Ready
            &&& self.current_exclude_generation == max_gen(self.exclude_ancestors->Ready_0@)
        }
        &&& forall|i: int, j: int|
            0 <= i < j < self.drain@.len() ==> id_lt(#[trigger] self.drain@[i], #[trigger] self.drain@[j])
    }

    /// The nodes of the drain in ascending order.
    pub closed spec fn order(&self) -> Seq<ChangesetId> {
        self.drain@
    }

    /// The nodes that a stream has found are finitely many.
    pub proof fn lemma_finite(&self)
        requires
            self.wf(),
        ensures
            self@.next_generation.finite(),
    {
        self.next_generation.lemma_finite();
    }

    /// The slots of a stream can be numbered.
    pub proof fn lemma_slots_fit(&self)
        ensures
            self@.pending_changesets.len() <= usize::MAX,
    {
        assert(self.pending_changesets.len() == self.pending_changesets@.len());
    }

    /// The ancestors of a node.
    pub fn new(hash: ChangesetId) -> (stream: BonsaiNodeStream)
        ensures
            stream.wf(),
            stream@ == NodeStreamView::start(seq![hash], Seq::empty()),
    {
        let hashes: Vec<ChangesetId> = vec![hash];
        assert(hashes@ =~= seq![hash]);
        Self::new_with_excludes(hashes, Vec::new())
    }

    /// The ancestors of some nodes.
    pub fn new_union(hashes: Vec<ChangesetId>) -> (stream: BonsaiNodeStream)
        ensures
            stream.wf(),
            stream@ == NodeStreamView::start(hashes@, Seq::empty()),
    {
        Self::new_with_excludes(hashes, Vec::new())
    }

    /// The ancestors of `hashes` that are not ancestors of `excludes`.
    pub fn new_with_excludes(hashes: Vec<ChangesetId>, excludes: Vec<ChangesetId>) -> (stream:
        BonsaiNodeStream)
        ensures
            stream.wf(),
            stream@ == NodeStreamView::start(hashes@, excludes@),
    {
        BonsaiNodeStream::from_nodes(hashes, excludes)
    }

    /// The ancestors of some nodes that are not ancestors of others, where the generation of each
    /// of these nodes is known.
    pub fn new_with_excludes_gen_num(
        hashes_generations: Vec<(ChangesetId, Generation)>,
        exclude_generations: Vec<(ChangesetId, Generation)>,
    ) -> (stream: BonsaiNodeStream)
        ensures
            stream.wf(),
            stream@ == NodeStreamView::Streaming(
                StreamView::start(hashes_generations@.to_set(), exclude_generations@.to_set()),
            ),
    {
        BonsaiNodeStream::from_stream(
            Self::from_generations(hashes_generations, exclude_generations),
        )
    }

    /// A stream from nodes with known generations.
    pub fn from_generations(
        hashes_generations: Vec<(ChangesetId, Generation)>,
        exclude_generations: Vec<(ChangesetId, Generation)>,
    ) -> (stream: Self)
        ensures
            stream.wf(),
            stream@ == StreamView::start(hashes_generations@.to_set(), exclude_generations@.to_set()),
    {
        let frontier = NodeFrontier::from_iter(exclude_generations);
        let current_exclude_generation = frontier.max_gen();
        let stream = DifferenceOfUnionsOfAncestorsNodeStream {
            next_generation: NodeFrontier::from_iter(hashes_generations),
            // Start with a fake state - maximum generation number and no entries
            // for it (see drain below)
            current_generation: MAX_GEN,
            pending_changesets: Vec::new(),
            exclude_ancestors: Exclude::Ready(frontier),
            current_exclude_generation,
            drain: Vec::new(),
        };
        proof {
            assert(stream@.drain =~= Set::<ChangesetId>::empty());
            assert(stream@.pending_changesets =~= Seq::<PendingView>::empty());
        }
        stream
    }

    /// Tells if a particular node should be excluded from the output.
    pub fn exclude_node(&mut self, node: ChangesetId, current_generation: Generation) -> (res:
        Excluded)
        requires
            old(self).wf(),
            !(old(self)@.exclude is Failed),
        ensures
            final(self).wf(),
            res.wf(),
            final(self).order() == old(self).order(),
            (final(self)@.exclude, res@) == old(self)@.exclude.checked(node, current_generation),
            final(self)@ == old(self)@.with_exclude(final(self)@.exclude),
    {
        let mut needs_hint = false;
        match &self.exclude_ancestors {
            Exclude::Ready(frontier) => {
                if frontier.is_empty() {
                    // No exclude nodes to worry about
                    return Excluded::Ready(false);
                }
                let exclude_generation = match self.current_exclude_generation {
                    Some(generation) => Some(generation),
                    // Recompute the current exclude generation
                    None => frontier.max_gen(),
                };
                self.current_exclude_generation = exclude_generation;
                proof {
                    frontier.lemma_finite();
                    lemma_max_gen_exists(frontier@);
                }
                match exclude_generation {
                    Some(exclude_gen) => {
                        proof {
                            assert(is_max_gen(frontier@, exclude_gen));
                            let top = choose|n: ChangesetId| frontier@.contains((n, exclude_gen));
                            assert(frontier@.contains((top, exclude_gen)));
                            assert(nodes_at(frontier@, exclude_gen).contains(top));
                        }
                        if exclude_gen < current_generation {
                            return Excluded::Ready(false);
                        }
                        if exclude_gen == current_generation {
                            match frontier.get(current_generation) {
                                Some(nodes) => {
                                    return Excluded::Ready(nodes.contains(&node));
                                },
                                None => {},
                            }
                        }
                        // Current generation in `exclude_ancestors` is bigger
                        // than `current_generation`.
                        // We need to skip.
                        needs_hint = true;
                    },
                    None => {
                        return Excluded::Ready(false);
                    },
                }
            },
            _ => {},
        }
        if !needs_hint {
            return Excluded::NotReady;
        }
        let ghost asked = self@.exclude->Ready_0;
        // Give the frontier away, and indicate the current exclude gen needs to be recalculated.
        self.current_exclude_generation = None;
        let mut moving = Exclude::Moving { frontier: Ghost(asked), generation: current_generation };
        core::mem::swap(&mut self.exclude_ancestors, &mut moving);
        match moving {
            Exclude::Ready(frontier) => Excluded::LcaHint {
                frontier,
                generation: current_generation,
            },
            _ => Excluded::NotReady,
        }
    }

    /// Turns to the greatest generation that nodes were found of.
    pub fn update_generation(&mut self)
        requires
            old(self).wf(),
            !old(self)@.next_generation.is_empty(),
        ensures
            final(self).wf(),
            final(self)@ == old(self)@.advanced(),
    {
        match self.next_generation.remove_max_gen() {
            Some((highest_generation, new_generation)) => {
                self.current_generation = highest_generation;
                self.drain = ascending(&new_generation);
            },
            None => {},
        }
    }

    /// Whether all parents of the nodes of the current generation are known.
    fn pending_exhausted(&self) -> (res: bool)
        requires
            self.wf(),
        ensures
            res == self@.pending_exhausted(),
    {
        let mut i: usize = 0;
        while i < self.pending_changesets.len()
            invariant
                self.wf(),
                i <= self.pending_changesets@.len(),
                forall|j: int| 0 <= j < i ==> (#[trigger] self@.pending_changesets[j]).query() is None,
            decreases self.pending_changesets@.len() - i,
        {
            if self.pending_changesets[i].query().is_some() {
                assert(self@.pending_changesets[i as int].query() is Some);
                return false;
            }
            i = i + 1;
        }
        true
    }

    /// The next node of the stream, or what keeps the stream from telling it.
    pub fn poll(&mut self) -> (res: Polled)
        requires
            old(self).wf(),
            !(old(self)@.exclude is Failed),
        ensures
            final(self).wf(),
            res.wf(),
            (final(self)@, res@) == old(self)@.polled(),
            res matches Polled::Node { node, slot } ==> final(self)@.query(slot as int) == Some(
                Query::Parents(node),
            ),
            res matches Polled::LcaHint { frontier, generation } ==> final(self)@.exclude == (
            ExcludeView::Moving { frontier: frontier@, generation }),
    {
        loop
            invariant
                self.wf(),
                !(self@.exclude is Failed),
                self@.polled() == old(self)@.polled(),
            decreases self@.next_generation.len(),
        {
            proof {
                self.lemma_finite();
            }
            let ghost found = self@.next_generation;
            // Empty the drain if any - return all items for this generation
            while self.drain.len() > 0
                invariant
                    self.wf(),
                    !(self@.exclude is Failed),
                    self@.next_generation == found,
                    found.finite(),
                    self@.polled() == old(self)@.polled(),
                decreases self.drain.len(),
            {
                let ghost before = *self;
                let current_generation = self.current_generation;
                let next_in_drain = self.drain[self.drain.len() - 1];
                proof {
                    assert(self.drain@.contains(next_in_drain));
                    assert(self@.drain.contains(next_in_drain));
                    assert(!self@.drain.is_empty());
                }
                match self.exclude_node(next_in_drain, current_generation) {
                    Excluded::Ready(true) => {
                        self.drain.pop();
                        proof {
                            lemma_pop_drain(before.drain@);
                            lemma_excluded_passed_over(before@, next_in_drain);
                            assert(self@ =~= (StreamView {
                                drain: before@.drain.remove(next_in_drain),
                                ..before@
                            }));
                        }
                    },
                    Excluded::Ready(false) => {
                        self.drain.pop();
                        let slot: usize = self.pending_changesets.len();
                        self.pending_changesets.push(make_pending(next_in_drain));
                        proof {
                            lemma_pop_drain(before.drain@);
                            assert(is_greatest(before@.kept(), next_in_drain));
                            lemma_greatest_unique(before@.kept(), next_in_drain);
                            assert(self@.pending_changesets =~= before@.pending_changesets.push(
                                PendingView::Parents(next_in_drain),
                            ));
                            assert(self@.drain =~= before@.given_out(next_in_drain).drain);
                            assert(self@ =~= before@.given_out(next_in_drain));
                        }
                        return Polled::Node { node: next_in_drain, slot };
                    },
                    Excluded::LcaHint { frontier, generation } => {
                        return Polled::LcaHint { frontier, generation };
                    },
                    Excluded::NotReady => {
                        return Polled::NotReady;
                    },
                }
            }
            assert(self@.drain =~= Set::<ChangesetId>::empty());
            assert(self@.kept() =~= Set::<ChangesetId>::empty());
            // Wait until we've drained pending_changesets - we can't continue until we
            // know about all parents of the just-output generation
            if !self.pending_exhausted() {
                assert(self@.drained() =~= self@);
                return Polled::NotReady;
            }
            let ghost before = *self;
            self.pending_changesets.clear();
            assert(self@ =~= before@.collected());
            if self.next_generation.is_empty() {
                // All parents output - nothing more to send
                return Polled::End;
            }
            proof {
                lemma_advanced_smaller(self@);
            }
            self.update_generation();
        }
    }

    /// What has to be fetched next to find the parents of the node in `slot`; nothing if there is
    /// no such node or all its parents are known.
    pub fn query(&self, slot: usize) -> (res: Option<Query>)
        requires
            self.wf(),
        ensures
            res == self@.query(slot as int),
    {
        if slot < self.pending_changesets.len() {
            self.pending_changesets[slot].query()
        } else {
            None
        }
    }

    /// Whether the stream has given its exclude frontier away, and waits for the hint.
    pub fn awaits_hint(&self) -> (res: bool)
        requires
            self.wf(),
        ensures
            res == (self@.exclude is Moving),
    {
        match &self.exclude_ancestors {
            Exclude::Moving { .. } => true,
            _ => false,
        }
    }

    /// Whether the stream has lost its exclude frontier, and cannot be polled any more.
    pub fn is_failed(&self) -> (res: bool)
        requires
            self.wf(),
        ensures
            res == (self@.exclude is Failed),
    {
        match &self.exclude_ancestors {
            Exclude::Failed => true,
            _ => false,
        }
    }

    /// Takes the parents of the node in `slot`. If they could not be fetched, the stream goes on
    /// without them.
    pub fn parents_fetched<E>(
        &mut self,
        slot: usize,
        parents: Result<Vec<ChangesetId>, E>,
    ) -> (res: Result<(), StreamError<E>>)
        requires
            old(self).wf(),
            old(self)@.query(slot as int) matches Some(Query::Parents(_)),
        ensures
            final(self).wf(),
            match parents {
                Ok(parents) => {
                    &&& res == Ok::<(), StreamError<E>>(())
                    &&& final(self)@ == old(self)@.parents_fetched(slot as int, parents@)
                },
                Err(e) => {
                    &&& res == Err::<(), StreamError<E>>(StreamError::ParentsFetchFailed(e))
                    &&& final(self)@ == old(self)@.fetch_failed(slot as int)
                },
            },
    {
        let res = self.pending_changesets[slot].parents_fetched(parents);
        proof {
            let after = self.pending_changesets@[slot as int]@;
            assert(self@.pending_changesets =~= old(self)@.pending_changesets.update(
                slot as int,
                after,
            ));
        }
        res
    }

    /// Takes the generation of the next parent in `slot`. If it could not be fetched, the stream
    /// goes on without that parent.
    pub fn generation_fetched<E>(
        &mut self,
        slot: usize,
        generation: Result<Generation, E>,
    ) -> (res: Result<(), StreamError<E>>)
        requires
            old(self).wf(),
            old(self)@.query(slot as int) matches Some(Query::Generation(_)),
        ensures
            final(self).wf(),
            match generation {
                Ok(generation) => {
                    &&& res == Ok::<(), StreamError<E>>(())
                    &&& final(self)@ == old(self)@.generation_fetched(slot as int, generation)
                },
                Err(e) => {
                    &&& res == Err::<(), StreamError<E>>(StreamError::GenerationFetchFailed(e))
                    &&& final(self)@ == old(self)@.fetch_failed(slot as int)
                },
            },
    {
        let fetched = self.pending_changesets[slot].generation_fetched(generation);
        proof {
            let after = self.pending_changesets@[slot as int]@;
            assert(self@.pending_changesets =~= old(self)@.pending_changesets.update(
                slot as int,
                after,
            ));
        }
        match fetched {
            Ok((hash, generation)) => {
                self.next_generation.insert(hash, generation);
                Ok(())
            },
            Err(e) => Err(e),
        }
    }

    /// Takes the exclude frontier that was asked for. If it could not be had, the stream has
    /// failed.
    pub fn hint_ready<E>(&mut self, frontier: Result<NodeFrontier, E>) -> (res: Result<
        (),
        StreamError<E>,
    >)
        requires
            old(self).wf(),
            old(self)@.exclude is Moving,
            frontier matches Ok(frontier) ==> frontier.wf(),
        ensures
            final(self).wf(),
            match frontier {
                Ok(frontier) => {
                    &&& res == Ok::<(), StreamError<E>>(())
                    &&& final(self)@ == old(self)@.with_exclude(ExcludeView::Ready(frontier@))
                },
                Err(e) => {
                    &&& res == Err::<(), StreamError<E>>(StreamError::LcaHintFailed(e))
                    &&& final(self)@ == old(self)@.with_exclude(ExcludeView::Failed)
                },
            },
    {
        match frontier {
            Ok(frontier) => {
                self.exclude_ancestors = Exclude::Ready(frontier);
                Ok(())
            },
            Err(e) => {
                self.exclude_ancestors = Exclude::Failed;
                Err(StreamError::LcaHintFailed(e))
            },
        }
    }
}

/// Taking the last node out of a sorted drain takes out the greatest one.
proof fn lemma_pop_drain(drain: Seq<ChangesetId>)
    requires
        drain.len() > 0,
        forall|i: int, j: int|
            0 <= i < j < drain.len() ==> id_lt(#[trigger] drain[i], #[trigger] drain[j]),
    ensures
        is_greatest(drain.to_set(), drain.last()),
        drain.drop_last().to_set() == drain.to_set().remove(drain.last()),
        drain.drop_last().to_set() == drain.to_set().filter(
            |n: ChangesetId| id_lt(n, drain.last()),
        ),
{
    let last = drain.last();
    assert(drain.contains(last));
    assert forall|n: ChangesetId| #[trigger] drain.to_set().contains(n) implies n == last || id_lt(
        n,
        last,
    ) by {
        let i = drain.index_of(n);
        assert(drain[i] == n);
    }
    assert forall|n: ChangesetId|
        drain.drop_last().to_set().contains(n) == (drain.to_set().contains(n) && n != last) by {
        if drain.contains(n) && n != last {
            let i = drain.index_of(n);
            assert(drain.drop_last()[i] == n);
        }
        if drain.drop_last().contains(n) {
            let i = drain.drop_last().index_of(n);
            assert(drain[i] == n);
        }
    }
    assert(drain.drop_last().to_set() =~= drain.to_set().remove(last));
    assert(drain.drop_last().to_set() =~= drain.to_set().filter(|n: ChangesetId| id_lt(n, last)));
}

/// The nodes of a set in ascending order.
fn ascending(nodes: &BTreeSet<ChangesetId>) -> (res: Vec<ChangesetId>)
    ensures
        res@.to_set() == nodes@,
        forall|i: int, j: int| 0 <= i < j < res@.len() ==> id_lt(#[trigger] res@[i], #[trigger] res@[j]),
{
    let mut res: Vec<ChangesetId> = Vec::new();
    let ghost order = spec_btree_keys_iter(nodes).remaining();
    for node in it: nodes.iter()
        invariant
            it.seq() == order,
            res@.len() == it.index(),
            forall|i: int| 0 <= i < res@.len() ==> res@[i] == *order[i],
    {
        res.push(*node);
    }
    proof {
        assert(res@ =~= order.unref());
        assert(obeys_cmp::<&ChangesetId>());
        assert(increasing_seq(order));
        assert forall|i: int, j: int| 0 <= i < j < res@.len() implies id_lt(
            #[trigger] res@[i],
            #[trigger] res@[j],
        ) by {
            assert(OrdSpec::cmp_spec(&order[i], &order[j]) is Less);
        }
    }
    res
}

} // verus!
