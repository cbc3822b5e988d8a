//! Streams of nodes.

use vstd::prelude::*;

use crate::ancestorscombinators::{DifferenceOfUnionsOfAncestorsNodeStream, Polled};
use crate::node_frontier::NodeFrontier;
use crate::pending::{Query, StreamError};
use crate::stream_view::{ExcludeView, PolledView, StreamView};
use crate::types::{ChangesetId, Generation};

verus! {

/// What something is fetched for. Of each source there is at most one query at a time; queries of
/// different sources can be answered in any order.
#[derive(Clone, Copy, Debug, PartialEq, Eq)]
pub enum Source {
    /// The generations of the nodes whose ancestors are wanted.
    Hashes,
    /// The generations of the nodes whose ancestors are excluded.
    Excludes,
    /// The parents of the node that was given out with this slot.
    Pending(usize),
}

/// Given nodes, and the generations of those at the front.
#[verifier::ext_equal]
pub struct InputView {
    pub nodes: Seq<ChangesetId>,
    pub generations: Seq<Generation>,
}

impl InputView {
    /// Nodes none of whose generations is known.
    pub open spec fn start(nodes: Seq<ChangesetId>) -> InputView {
        InputView { nodes, generations: Seq::empty() }
    }

    /// What has to be fetched next; nothing if all generations are known.
    pub open spec fn query(self) -> Option<Query> {
        if self.generations.len() < self.nodes.len() {
            Some(Query::Generation(self.nodes[self.generations.len() as int]))
        } else {
            None
        }
    }

    /// The input after one more generation has become known.
    pub open spec fn fetched(self, generation: Generation) -> InputView {
        InputView { generations: self.generations.push(generation), ..self }
    }

    /// The nodes with their generations, once all are known.
    pub open spec fn with_generations(self) -> Set<(ChangesetId, Generation)> {
        Seq::new(self.nodes.len(), |i: int| (self.nodes[i], self.generations[i])).to_set()
    }
}

/// Whether a stream has found finitely many nodes, as every stream has.
pub open spec fn is_finite(s: NodeStreamView) -> bool {
    s matches NodeStreamView::Streaming(v) ==> v.next_generation.finite()
}

/// Whether the slots of a stream can be numbered, as those of every stream can.
pub open spec fn slots_fit(s: NodeStreamView) -> bool {
    s matches NodeStreamView::Streaming(v) ==> v.pending_changesets.len() <= usize::MAX
}

/// The state of a stream of nodes.
#[verifier::ext_equal]
pub enum NodeStreamView {
    /// The generations of the given nodes have to be fetched first.
    Starting { hashes: InputView, excludes: InputView },
    /// The nodes are being found.
    Streaming(StreamView),
    /// The stream is over because a generation could not be fetched at the start.
    Ended,
}

impl NodeStreamView {
    /// A stream of the ancestors of `hashes` that are not ancestors of `excludes`.
    pub open spec fn start(
        hashes: Seq<ChangesetId>,
        excludes: Seq<ChangesetId>,
    ) -> NodeStreamView {
        NodeStreamView::Starting {
            hashes: InputView::start(hashes),
            excludes: InputView::start(excludes),
        }
    }

    /// What has to be fetched next for `source`.
    pub open spec fn query(self, source: Source) -> Option<Query> {
        match (self, source) {
            (NodeStreamView::Starting { hashes, .. }, Source::Hashes) => hashes.query(),
            (NodeStreamView::Starting { excludes, .. }, Source::Excludes) => excludes.query(),
            (NodeStreamView::Streaming(stream), Source::Pending(slot)) => stream.query(slot as int),
            _ => None,
        }
    }

    /// Whether the stream has given its exclude frontier away, and waits for the hint.
    pub open spec fn awaits_hint(self) -> bool {
        self matches NodeStreamView::Streaming(stream) && stream.exclude is Moving
    }

    /// Whether the stream has lost its exclude frontier.
    pub open spec fn is_failed(self) -> bool {
        self matches NodeStreamView::Streaming(stream) && stream.exclude is Failed
    }

    /// Whether the nodes are being found, or can be because all generations that were asked for are
    /// known.
    pub open spec fn is_started(self) -> bool {
        match self {
            NodeStreamView::Starting { hashes, excludes } => hashes.query() is None
                && excludes.query() is None,
            NodeStreamView::Streaming(_) => true,
            NodeStreamView::Ended => false,
        }
    }

    /// The stream that finds the nodes, once it is started.
    pub open spec fn started(self) -> StreamView {
        match self {
            NodeStreamView::Starting { hashes, excludes } => StreamView::start(
                hashes.with_generations(),
                excludes.with_generations(),
            ),
            _ => self->Streaming_0,
        }
    }

    /// The stream after a poll, and what the poll gives.
    pub open spec fn polled(self) -> (NodeStreamView, PolledView) {
        if self.is_started() {
            let (stream, res) = self.started().polled();
            (NodeStreamView::Streaming(stream), res)
        } else if self is Starting {
            (self, PolledView::NotReady)
        } else {
            (self, PolledView::End)
        }
    }

    /// The stream after the parents of a node have become known.
    pub open spec fn parents_fetched(
        self,
        slot: usize,
        parents: Seq<ChangesetId>,
    ) -> NodeStreamView {
        NodeStreamView::Streaming(self->Streaming_0.parents_fetched(slot as int, parents))
    }

    /// The stream after a generation has become known.
    pub open spec fn generation_fetched(
        self,
        source: Source,
        generation: Generation,
    ) -> NodeStreamView {
        match (self, source) {
            (
                NodeStreamView::Starting { hashes, excludes },
                Source::Hashes,
            ) => NodeStreamView::Starting { hashes: hashes.fetched(generation), excludes },
            (
                NodeStreamView::Starting { hashes, excludes },
                Source::Excludes,
            ) => NodeStreamView::Starting { hashes, excludes: excludes.fetched(generation) },
            (
                NodeStreamView::Streaming(stream),
                Source::Pending(slot),
            ) => NodeStreamView::Streaming(stream.generation_fetched(slot as int, generation)),
            _ => self,
        }
    }

    /// The stream after a fetch for `source` has failed.
    pub open spec fn fetch_failed(self, source: Source) -> NodeStreamView {
        match (self, source) {
            (
                NodeStreamView::Streaming(stream),
                Source::Pending(slot),
            ) => NodeStreamView::Streaming(stream.fetch_failed(slot as int)),
            _ => NodeStreamView::Ended,
        }
    }

    /// The stream with the given exclude frontier.
    pub open spec fn with_exclude(self, exclude: ExcludeView) -> NodeStreamView {
        NodeStreamView::Streaming(self->Streaming_0.with_exclude(exclude))
    }
}

/// Nodes to which their generations are added one by one.
struct NodesWithGenerations {
    nodes: Vec<ChangesetId>,
    /// The nodes whose generation is known, with it.
    generations: Vec<(ChangesetId, Generation)>,
}

impl View for NodesWithGenerations {
    type V = InputView;

    closed spec fn view(&self) -> InputView {
        InputView {
            nodes: self.nodes@,
            generations: self.generations@.map_values(|p: (ChangesetId, Generation)| p.1),
        }
    }
}

/// The given nodes, to which their generations have to be added.
fn add_generations_by_bonsai(nodes: Vec<ChangesetId>) -> (input: NodesWithGenerations)
    ensures
        input.wf(),
        input@ == InputView::start(nodes@),
{
    let input = NodesWithGenerations { nodes, generations: Vec::new() };
    assert(input@ =~= InputView::start(nodes@));
    input
}

impl NodesWithGenerations {
    /// The generations belong to the nodes at the front.
    closed spec fn wf(&self) -> bool {
        &&& self.generations@.len() <= self.nodes@.len()
        &&& forall|i: int|
            0 <= i < self.generations@.len() ==> (#[trigger] self.generations@[i]).0
                == self.nodes@[i]
    }

    /// What has to be fetched next; nothing if all generations are known.
    fn query(&self) -> (res: Option<Query>)
        requires
            self.wf(),
        ensures
            res == self@.query(),
    {
        if self.generations.len() < self.nodes.len() {
            Some(Query::Generation(self.nodes[self.generations.len()]))
        } else {
            None
        }
    }

    /// Takes the generation of the next node.
    fn fetched(&mut self, generation: Generation)
        requires
            old(self).wf(),
            old(self)@.query() is Some,
        ensures
            final(self).wf(),
            final(self)@ == old(self)@.fetched(generation),
    {
        let node = self.nodes[self.generations.len()];
        self.generations.push((node, generation));
        assert(self@ =~= old(self)@.fetched(generation));
    }

    /// The nodes with their generations.
    fn into_generations(self) -> (res: Vec<(ChangesetId, Generation)>)
        requires
            self.wf(),
            self@.query() is None,
        ensures
            res@.to_set() == self@.with_generations(),
    {
        assert(self.generations@ =~= Seq::new(
            self@.nodes.len(),
            |i: int| (self@.nodes[i], self@.generations[i]),
        ));
        self.generations
    }
}

enum NodeStreamState {
    Starting { hashes: NodesWithGenerations, excludes: NodesWithGenerations },
    Streaming(DifferenceOfUnionsOfAncestorsNodeStream),
    Ended,
}

/// A stream of nodes.
pub struct BonsaiNodeStream {
    state: NodeStreamState,
}

impl View for BonsaiNodeStream {
    type V = NodeStreamView;

    closed spec fn view(&self) -> NodeStreamView {
        match self.state {
            NodeStreamState::Starting { hashes, excludes } => NodeStreamView::Starting {
                hashes: hashes@,
                excludes: excludes@,
            },
            NodeStreamState::Streaming(stream) => NodeStreamView::Streaming(stream@),
            NodeStreamState::Ended => NodeStreamView::Ended,
        }
    }
}

impl BonsaiNodeStream {
    /// The parts of the stream are well-formed.
    pub closed spec fn wf(&self) -> bool {
        match self.state {
            NodeStreamState::Starting { hashes, excludes } => hashes.wf() && excludes.wf(),
            NodeStreamState::Streaming(stream) => stream.wf(),
            NodeStreamState::Ended => true,
        }
    }

    /// The nodes that a stream has found are finitely many.
    pub proof fn lemma_finite(&self)
        requires
            self.wf(),
        ensures
            is_finite(self@),
    {
        if let NodeStreamState::Streaming(stream) = &self.state {
            stream.lemma_finite();
        }
    }

    /// The slots of a stream can be numbered.
    pub proof fn lemma_slots_fit(&self)
        requires
            self.wf(),
        ensures
            slots_fit(self@),
    {
        if let NodeStreamState::Streaming(stream) = &self.state {
            stream.lemma_slots_fit();
        }
    }

    /// A stream that has to fetch the generations of the given nodes first.
    pub(crate) fn from_nodes(hashes: Vec<ChangesetId>, excludes: Vec<ChangesetId>) -> (stream: Self)
        ensures
            stream.wf(),
            stream@ == NodeStreamView::start(hashes@, excludes@),
    {
        BonsaiNodeStream {
            state: NodeStreamState::Starting {
                hashes: add_generations_by_bonsai(hashes),
                excludes: add_generations_by_bonsai(excludes),
            },
        }
    }

    /// A stream whose nodes are being found.
    pub(crate) fn from_stream(stream: DifferenceOfUnionsOfAncestorsNodeStream) -> (res: Self)
        requires
            stream.wf(),
        ensures
            res.wf(),
            res@ == NodeStreamView::Streaming(stream@),
    {
        BonsaiNodeStream { state: NodeStreamState::Streaming(stream) }
    }

    /// The next node of the stream, or what keeps the stream from telling it.
    pub fn poll(&mut self) -> (res: Polled)
        requires
            old(self).wf(),
            !old(self)@.is_failed(),
        ensures
            final(self).wf(),
            res.wf(),
            (final(self)@, res@) == old(self)@.polled(),
            res matches Polled::Node { node, slot } ==> final(self)@.query(Source::Pending(slot))
                == Some(Query::Parents(node)),
            res matches Polled::LcaHint { frontier, generation } ==> {
                &&& final(self)@ matches NodeStreamView::Streaming(v)
                &&& v.exclude == (ExcludeView::Moving { frontier: frontier@, generation })
            },
    {
        let ready = match &self.state {
            NodeStreamState::Starting { hashes, excludes } => hashes.query().is_none()
                && excludes.query().is_none(),
            _ => false,
        };
        if ready {
            let mut state = NodeStreamState::Ended;
            core::mem::swap(&mut self.state, &mut state);
            match state {
                NodeStreamState::Starting { hashes, excludes } => {
                    self.state = NodeStreamState::Streaming(
                        DifferenceOfUnionsOfAncestorsNodeStream::from_generations(
                            hashes.into_generations(),
                            excludes.into_generations(),
                        ),
                    );
                },
                _ => {},
            }
        }
        match &mut self.state {
            NodeStreamState::Starting { .. } => Polled::NotReady,
            NodeStreamState::Streaming(stream) => stream.poll(),
            NodeStreamState::Ended => Polled::End,
        }
    }

    /// What has to be fetched next for `source`.
    pub fn query(&self, source: Source) -> (res: Option<Query>)
        requires
            self.wf(),
        ensures
            res == self@.query(source),
    {
        match (&self.state, source) {
            (NodeStreamState::Starting { hashes, .. }, Source::Hashes) => hashes.query(),
            (NodeStreamState::Starting { excludes, .. }, Source::Excludes) => excludes.query(),
            (NodeStreamState::Streaming(stream), Source::Pending(slot)) => stream.query(slot),
            _ => None,
        }
    }

    /// Whether the stream has given its exclude frontier away, and waits for the hint.
    pub fn awaits_hint(&self) -> (res: bool)
        requires
            self.wf(),
        ensures
            res == self@.awaits_hint(),
    {
        match &self.state {
            NodeStreamState::Streaming(stream) => stream.awaits_hint(),
            _ => false,
        }
    }

    /// Whether the stream has lost its exclude frontier, and cannot be polled any more.
    pub fn is_failed(&self) -> (res: bool)
        requires
            self.wf(),
        ensures
            res == self@.is_failed(),
    {
        match &self.state {
            NodeStreamState::Streaming(stream) => stream.is_failed(),
            _ => false,
        }
    }

    /// Takes the parents of the node that was given out with `slot`. If they could not be fetched,
    /// the stream goes on without them.
    pub fn parents_fetched<E>(
        &mut self,
        slot: usize,
        parents: Result<Vec<ChangesetId>, E>,
    ) -> (res: Result<(), StreamError<E>>)
        requires
            old(self).wf(),
            old(self)@.query(Source::Pending(slot)) matches Some(Query::Parents(_)),
        ensures
            final(self).wf(),
            match parents {
                Ok(parents) => {
                    &&& res == Ok::<(), StreamError<E>>(())
                    &&& final(self)@ == old(self)@.parents_fetched(slot, parents@)
                },
                Err(e) => {
                    &&& res == Err::<(), StreamError<E>>(StreamError::ParentsFetchFailed(e))
                    &&& final(self)@ == old(self)@.fetch_failed(Source::Pending(slot))
                },
            },
    {
        match &mut self.state {
            NodeStreamState::Streaming(stream) => stream.parents_fetched(slot, parents),
            _ => Ok(()),
        }
    }

    /// Takes the generation that was asked for by the query of `source`. If the generation of a
    /// given node could not be fetched, the stream is over. If that of a parent could not be
    /// fetched, the stream goes on without that parent.
    pub fn generation_fetched<E>(
        &mut self,
        source: Source,
        generation: Result<Generation, E>,
    ) -> (res: Result<(), StreamError<E>>)
        requires
            old(self).wf(),
            old(self)@.query(source) matches Some(Query::Generation(_)),
        ensures
            final(self).wf(),
            match generation {
                Ok(generation) => {
                    &&& res == Ok::<(), StreamError<E>>(())
                    &&& final(self)@ == old(self)@.generation_fetched(source, generation)
                },
                Err(e) => {
                    &&& res == Err::<(), StreamError<E>>(StreamError::GenerationFetchFailed(e))
                    &&& final(self)@ == old(self)@.fetch_failed(source)
                },
            },
    {
        match source {
            Source::Pending(slot) => match &mut self.state {
                NodeStreamState::Streaming(stream) => stream.generation_fetched(slot, generation),
                _ => Ok(()),
            },
            _ => match generation {
                Ok(generation) => {
                    match &mut self.state {
                        NodeStreamState::Starting { hashes, excludes } => match source {
                            Source::Hashes => hashes.fetched(generation),
                            _ => excludes.fetched(generation),
                        },
                        _ => {},
                    }
                    Ok(())
                },
                Err(e) => {
                    self.state = NodeStreamState::Ended;
                    Err(StreamError::GenerationFetchFailed(e))
                },
            },
        }
    }

    /// Takes the exclude frontier that was asked for. If it could not be had, the stream has
    /// failed.
    pub fn hint_ready<E>(&mut self, frontier: Result<NodeFrontier, E>) -> (res: Result<
        (),
        StreamError<E>,
    >)
        requires
            old(self).wf(),
            old(self)@.awaits_hint(),
            frontier matches Ok(frontier) ==> frontier.wf(),
        ensures
            final(self).wf(),
            match frontier {
                Ok(frontier) => {
                    &&& res == Ok::<(), StreamError<E>>(())
                    &&& final(self)@ == old(self)@.with_exclude(ExcludeView::Ready(frontier@))
                },
                Err(e) => {
                    &&& res == Err::<(), StreamError<E>>(StreamError::LcaHintFailed(e))
                    &&& final(self)@ == old(self)@.with_exclude(ExcludeView::Failed)
                },
            },
    {
        match &mut self.state {
            NodeStreamState::Streaming(stream) => stream.hint_ready(frontier),
            _ => Ok(()),
        }
    }
}

} // verus!
