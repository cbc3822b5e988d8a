//! Finding the parents of a node, and the generation of each of them.

use vstd::prelude::*;

use crate::types::{ChangesetId, Generation};

verus! {

/// What has to be fetched from the repository.
#[derive(Clone, Copy, Debug, PartialEq, Eq)]
pub enum Query {
    /// The parents of a node.
    Parents(ChangesetId),
    /// The generation number of a node.
    Generation(ChangesetId),
}

/// Why a stream fails, with the error of the fetch that failed.
#[derive(Debug, PartialEq, Eq)]
pub enum StreamError<E> {
    /// The parents of a node could not be fetched.
    ParentsFetchFailed(E),
    /// The generation number of a node could not be fetched.
    GenerationFetchFailed(E),
    /// The exclude frontier could not be moved.
    LcaHintFailed(E),
}

/// How far the parents of a node are known.
#[verifier::ext_equal]
pub enum PendingView {
    /// The parents of this node have to be fetched.
    Parents(ChangesetId),
    /// These are the parents whose generation has still to be fetched, the next one first.
    Generations(Seq<ChangesetId>),
}

impl PendingView {
    /// What has to be fetched next; nothing if all is known.
    pub open spec fn query(self) -> Option<Query> {
        match self {
            PendingView::Parents(node) => Some(Query::Parents(node)),
            PendingView::Generations(rest) => if rest.len() > 0 {
                Some(Query::Generation(rest[0]))
            } else {
                None
            },
        }
    }

    /// What is left after the next fetch has failed: without the list of parents none of them can
    /// become known, and without its generation the next parent cannot.
    pub open spec fn failed(self) -> PendingView {
        match self {
            PendingView::Parents(_) => PendingView::Generations(Seq::empty()),
            PendingView::Generations(rest) => PendingView::Generations(rest.drop_first()),
        }
    }
}

/// What has to be fetched of a node: first its parents, then the generation of each parent that is
/// left, the first one first, and then nothing. What has failed is not asked for again, and without
/// the parents of a node there is nothing more to ask for.
pub proof fn law_pending_asks_in_turn(node: ChangesetId, rest: Seq<ChangesetId>)
    ensures
        PendingView::Parents(node).query() == Some(Query::Parents(node)),
        PendingView::Parents(node).failed().query() is None,
        rest.len() == 0 ==> PendingView::Generations(rest).query() is None,
        rest.len() > 0 ==> {
            let now = PendingView::Generations(rest);
            &&& now.query() == Some(Query::Generation(rest[0]))
            &&& now.failed() == PendingView::Generations(rest.skip(1))
        },
{
    if rest.len() > 0 {
        assert(rest.drop_first() =~= rest.skip(1));
    }
}

/// The parents of one node, each with its generation, as they become known.
pub struct PendingChangesets {
    state: PendingState,
}

enum PendingState {
    Parents(ChangesetId),
    Generations { parents: Vec<ChangesetId>, next: usize },
}

impl View for PendingChangesets {
    type V = PendingView;

    closed spec fn view(&self) -> PendingView {
        match self.state {
            PendingState::Parents(node) => PendingView::Parents(node),
            PendingState::Generations { parents, next } => PendingView::Generations(
                parents@.skip(next as int),
            ),
        }
    }
}

/// The parents of `hash`, none of which is known yet.
pub fn make_pending(hash: ChangesetId) -> (pending: PendingChangesets)
    ensures
        pending.wf(),
        pending@ == PendingView::Parents(hash),
{
    PendingChangesets { state: PendingState::Parents(hash) }
}

impl PendingChangesets {
    /// The next parent is one of the parents.
    pub closed spec fn wf(&self) -> bool {
        match self.state {
            PendingState::Parents(node) => true,
            PendingState::Generations { parents, next } => next <= parents@.len(),
        }
    }

    /// What has to be fetched next; nothing if all parents and their generations are known.
    pub fn query(&self) -> (res: Option<Query>)
        requires
            self.wf(),
        ensures
            res == self@.query(),
    {
        match &self.state {
            PendingState::Parents(node) => Some(Query::Parents(*node)),
            PendingState::Generations { parents, next } => {
                if *next < parents.len() {
                    Some(Query::Generation(parents[*next]))
                } else {
                    None
                }
            },
        }
    }

    /// Takes the parents of the node. If they could not be fetched, none of them will be known.
    pub fn parents_fetched<E>(&mut self, parents: Result<Vec<ChangesetId>, E>) -> (res: Result<
        (),
        StreamError<E>,
    >)
        requires
            old(self).wf(),
            old(self)@.query() matches Some(Query::Parents(_)),
        ensures
            final(self).wf(),
            match parents {
                Ok(parents) => {
                    &&& res == Ok::<(), StreamError<E>>(())
                    &&& final(self)@ == PendingView::Generations(parents@)
                },
                Err(e) => {
                    &&& res == Err::<(), StreamError<E>>(StreamError::ParentsFetchFailed(e))
                    &&& final(self)@ == old(self)@.failed()
                },
            },
    {
        match parents {
            Ok(parents) => {
                self.state = PendingState::Generations { parents, next: 0 };
                Ok(())
            },
            Err(e) => {
                self.state = PendingState::Generations { parents: Vec::new(), next: 0 };
                Err(StreamError::ParentsFetchFailed(e))
            },
        }
    }

    /// Takes the generation of the next parent, and returns that parent with its generation. If
    /// the generation could not be fetched, the parent after it becomes the next one.
    pub fn generation_fetched<E>(&mut self, generation: Result<Generation, E>) -> (res: Result<
        (ChangesetId, Generation),
        StreamError<E>,
    >)
        requires
            old(self).wf(),
            old(self)@.query() matches Some(Query::Generation(_)),
        ensures
            final(self).wf(),
            match generation {
                Ok(generation) => {
                    &&& res == Ok::<(ChangesetId, Generation), StreamError<E>>(
                        (old(self)@->Generations_0[0], generation),
                    )
                    &&& final(self)@ == PendingView::Generations(
                        old(self)@->Generations_0.drop_first(),
                    )
                },
                Err(e) => {
                    &&& res == Err::<(ChangesetId, Generation), StreamError<E>>(
                        StreamError::GenerationFetchFailed(e),
                    )
                    &&& final(self)@ == old(self)@.failed()
                },
            },
    {
        let node = match &mut self.state {
            PendingState::Generations { parents, next } => {
                let node = parents[*next];
                assert(*next < parents.len());
                *next = *next + 1;
                node
            },
            PendingState::Parents(node) => *node,
        };
        assert(self@ =~= PendingView::Generations(old(self)@->Generations_0.drop_first()));
        match generation {
            Ok(generation) => Ok((node, generation)),
            Err(e) => Err(StreamError::GenerationFetchFailed(e)),
        }
    }
}

} // verus!
