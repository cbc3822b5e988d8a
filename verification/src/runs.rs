//! Runs of a stream.
//!
//! A run of a stream is a sequence of events: the stream is polled, or something that was asked for
//! becomes known or cannot be had.

use vstd::prelude::*;

use crate::graph::CommitGraph;
use crate::node_stream::{is_finite, InputView, NodeStreamView, Source};
use crate::pending::Query;
use crate::stream_view::{lemma_advanced_smaller, ExcludeView, PolledView, StreamView};
use crate::types::{ChangesetId, Generation};
use crate::walk::{
    covers, given_after, has_generations, is_apart, is_complete_walk, is_hint, is_hint_within,
    is_ordered_walk, is_sound_walk, lemma_any_hint, lemma_fetch_failed, lemma_generation_fetched,
    lemma_hint_ready, lemma_parents_fetched, lemma_polled_complete, lemma_polled_ordered,
    lemma_polled_sound, lemma_start,
};

verus! {

/// What happens to a stream.
pub enum Event {
    /// The stream is polled.
    Poll,
    /// The parents of the node that was given out with `slot` become known.
    ParentsFetched { slot: usize, parents: Seq<ChangesetId> },
    /// The generation that `source` asks for becomes known.
    GenerationFetched { source: Source, generation: Generation },
    /// The hint that was asked for becomes known.
    HintReady { hint: Set<(ChangesetId, Generation)> },
    /// What `source` asks for could not be fetched.
    FetchFailed { source: Source },
    /// The hint that was asked for could not be had.
    HintFailed,
}

/// Whether the stream is in a state to take the event: what becomes known or cannot be had was
/// asked for, and a stream that has lost its frontier is not polled.
pub open spec fn can_take(s: NodeStreamView, event: Event) -> bool {
    match event {
        Event::Poll => !s.is_failed(),
        Event::ParentsFetched { slot, .. } => s.query(Source::Pending(slot)) matches Some(
            Query::Parents(_),
        ),
        Event::GenerationFetched { source, .. } => s.query(source) matches Some(
            Query::Generation(_),
        ),
        Event::FetchFailed { source } => s.query(source) is Some,
        Event::HintReady { .. } | Event::HintFailed => s.awaits_hint(),
    }
}

/// Whether the parents and generations that become known are those of the graph.
pub open spec fn is_true_fetch(graph: CommitGraph, s: NodeStreamView, event: Event) -> bool {
    match event {
        Event::ParentsFetched { slot, parents } => parents == (graph.parents)(
            s.query(Source::Pending(slot))->0->Parents_0,
        ),
        Event::GenerationFetched { source, generation } => generation == (graph.generation)(
            s.query(source)->0->Generation_0,
        ),
        _ => true,
    }
}

/// Whether a hint that becomes known is one for the frontier that the stream has given away.
pub open spec fn is_true_hint(graph: CommitGraph, s: NodeStreamView, event: Event) -> bool {
    event matches Event::HintReady { hint } ==> {
        let exclude = s->Streaming_0.exclude;
        is_hint(graph, exclude->frontier, exclude->generation, hint)
    }
}

/// Whether the event does not make the stream lose nodes: no fetch fails, and a hint excludes
/// nothing but ancestors of the frontier that the stream has given away.
pub open spec fn keeps_nodes(graph: CommitGraph, s: NodeStreamView, event: Event) -> bool {
    match event {
        Event::HintReady { hint } => is_hint_within(
            graph,
            s->Streaming_0.exclude->frontier,
            hint,
        ),
        Event::FetchFailed { .. } | Event::HintFailed => false,
        _ => true,
    }
}

/// The stream after the event.
pub open spec fn after_event(s: NodeStreamView, event: Event) -> NodeStreamView {
    match event {
        Event::Poll => s.polled().0,
        Event::ParentsFetched { slot, parents } => s.parents_fetched(slot, parents),
        Event::GenerationFetched { source, generation } => s.generation_fetched(source, generation),
        Event::HintReady { hint } => s.with_exclude(ExcludeView::Ready(hint)),
        Event::FetchFailed { source } => s.fetch_failed(source),
        Event::HintFailed => s.with_exclude(ExcludeView::Failed),
    }
}

/// The stream after the events.
pub open spec fn after(s: NodeStreamView, events: Seq<Event>) -> NodeStreamView
    decreases events.len(),
{
    if events.len() == 0 {
        s
    } else {
        after_event(after(s, events.drop_last()), events.last())
    }
}

/// The nodes that were given out after the event, where `given` are those that were before it.
pub open spec fn given_by_event(
    given: Seq<ChangesetId>,
    s: NodeStreamView,
    event: Event,
) -> Seq<ChangesetId> {
    if event is Poll {
        given_after(given, s.polled().1)
    } else {
        given
    }
}

/// The nodes that the stream gives out in the course of the events.
pub open spec fn given(s: NodeStreamView, events: Seq<Event>) -> Seq<ChangesetId>
    decreases events.len(),
{
    if events.len() == 0 {
        Seq::empty()
    } else {
        given_by_event(
            given(s, events.drop_last()),
            after(s, events.drop_last()),
            events.last(),
        )
    }
}

/// The hint that was asked for and is still to be answered: the frontier and the generation that
/// the poll which asked for it has given.
pub open spec fn asked_hint(s: NodeStreamView, events: Seq<Event>) -> Option<
    (Set<(ChangesetId, Generation)>, Generation),
>
    decreases events.len(),
{
    if events.len() == 0 {
        None
    } else {
        let earlier = asked_hint(s, events.drop_last());
        match events.last() {
            Event::Poll => match after(s, events.drop_last()).polled().1 {
                PolledView::LcaHint { frontier, generation } => Some((frontier, generation)),
                _ => earlier,
            },
            Event::HintReady { .. } | Event::HintFailed => None,
            _ => earlier,
        }
    }
}

/// Whether a hint could not be had.
pub open spec fn has_hint_failed(events: Seq<Event>) -> bool {
    exists|i: int| 0 <= i < events.len() && #[trigger] events[i] is HintFailed
}

/// Whether the event can happen after the others: what becomes known or cannot be had was asked
/// for, and a stream is not polled after a hint could not be had.
pub open spec fn can_happen(s: NodeStreamView, events: Seq<Event>, event: Event) -> bool {
    let now = after(s, events);
    match event {
        Event::Poll => !has_hint_failed(events),
        Event::ParentsFetched { slot, .. } => now.query(Source::Pending(slot)) matches Some(
            Query::Parents(_),
        ),
        Event::GenerationFetched { source, .. } => now.query(source) matches Some(
            Query::Generation(_),
        ),
        Event::FetchFailed { source } => now.query(source) is Some,
        Event::HintReady { .. } | Event::HintFailed => asked_hint(s, events) is Some,
    }
}

/// Whether what becomes known after the other events is true of the graph: parents and generations
/// are those of the graph, and a hint is one for the frontier that the poll which asked for it has
/// given.
pub open spec fn is_true(
    graph: CommitGraph,
    s: NodeStreamView,
    events: Seq<Event>,
    event: Event,
) -> bool {
    &&& is_true_fetch(graph, after(s, events), event)
    &&& event matches Event::HintReady { hint } ==> {
        let (frontier, generation) = asked_hint(s, events)->0;
        is_hint(graph, frontier, generation, hint)
    }
}

/// Whether the event does not make the stream lose nodes: no fetch fails, and a hint excludes
/// nothing but ancestors of the frontier that the poll which asked for it has given.
pub open spec fn is_lossless(
    graph: CommitGraph,
    s: NodeStreamView,
    events: Seq<Event>,
    event: Event,
) -> bool {
    match event {
        Event::HintReady { hint } => is_hint_within(graph, (asked_hint(s, events)->0).0, hint),
        Event::FetchFailed { .. } | Event::HintFailed => false,
        _ => true,
    }
}

/// Whether the events are a run of the stream, whatever becomes known.
pub open spec fn is_possible_run(s: NodeStreamView, events: Seq<Event>) -> bool
    decreases events.len(),
{
    events.len() > 0 ==> {
        &&& is_possible_run(s, events.drop_last())
        &&& can_happen(s, events.drop_last(), events.last())
    }
}

/// Whether the events are a run of the stream, and the parents and generations that become known
/// are those of the graph. The hints can be any.
pub open spec fn is_fetch_run(graph: CommitGraph, s: NodeStreamView, events: Seq<Event>) -> bool
    decreases events.len(),
{
    events.len() > 0 ==> {
        &&& is_fetch_run(graph, s, events.drop_last())
        &&& can_happen(s, events.drop_last(), events.last())
        &&& is_true_fetch(graph, after(s, events.drop_last()), events.last())
    }
}

/// Whether the events are a run of the stream, and all that becomes known is true of the graph.
pub open spec fn is_run(graph: CommitGraph, s: NodeStreamView, events: Seq<Event>) -> bool
    decreases events.len(),
{
    events.len() > 0 ==> {
        &&& is_run(graph, s, events.drop_last())
        &&& can_happen(s, events.drop_last(), events.last())
        &&& is_true(graph, s, events.drop_last(), events.last())
    }
}

/// Whether no event of the run makes the stream lose nodes.
pub open spec fn is_lossless_run(graph: CommitGraph, s: NodeStreamView, events: Seq<Event>) -> bool
    decreases events.len(),
{
    events.len() > 0 ==> {
        &&& is_lossless_run(graph, s, events.drop_last())
        &&& is_lossless(graph, s, events.drop_last(), events.last())
    }
}

/// A poll leaves finitely many nodes, and the exclude frontier as it is unless it asks for a hint.
/// If it does, it gives the frontier away, and the stream waits for the hint.
pub proof fn lemma_polled_exclude(v: StreamView)
    requires
        v.next_generation.finite(),
    ensures
        v.polled().0.next_generation.finite(),
        match v.polled().1 {
            PolledView::LcaHint { frontier, generation } => {
                &&& v.exclude == ExcludeView::Ready(frontier)
                &&& v.polled().0.exclude == (ExcludeView::Moving { frontier, generation })
            },
            _ => v.polled().0.exclude == v.exclude,
        },
    decreases v.next_generation.len(),
{
    if v.turns() {
        lemma_advanced_smaller(v.collected());
        lemma_polled_exclude(v.collected().advanced());
    }
}

/// The nodes that a stream has found stay finitely many.
pub proof fn lemma_finite_event(s: NodeStreamView, event: Event)
    requires
        is_finite(s),
        event is HintReady || event is HintFailed ==> s is Streaming,
        event is ParentsFetched ==> s is Streaming,
    ensures
        is_finite(after_event(s, event)),
        s.is_started() ==> s.started().next_generation.finite(),
{
    if let NodeStreamView::Starting { hashes: h, .. } = s {
        vstd::seq_lib::seq_to_set_is_finite(
            Seq::new(h.nodes.len(), |i: int| (h.nodes[i], h.generations[i])),
        );
    }
    if s.is_started() {
        lemma_polled_exclude(s.started());
    }
}

/// The hint that the stream waits for.
pub open spec fn awaited_hint(s: NodeStreamView) -> Option<
    (Set<(ChangesetId, Generation)>, Generation),
> {
    match s {
        NodeStreamView::Streaming(v) => match v.exclude {
            ExcludeView::Moving { frontier, generation } => Some((frontier, generation)),
            _ => None,
        },
        _ => None,
    }
}

/// A stream waits for the hint that was asked for and is still to be answered, and has failed if
/// one could not be had.
pub proof fn lemma_requests(s: NodeStreamView, events: Seq<Event>)
    requires
        is_finite(s),
        awaited_hint(s) is None,
        is_possible_run(s, events),
    ensures
        is_finite(after(s, events)),
        awaited_hint(after(s, events)) == asked_hint(s, events),
        !s.is_failed() ==> after(s, events).is_failed() == has_hint_failed(events),
    decreases events.len(),
{
    if events.len() > 0 {
        let fewer = events.drop_last();
        let before = after(s, fewer);
        lemma_requests(s, fewer);
        lemma_finite_event(before, events.last());
        if before.is_started() {
            lemma_polled_exclude(before.started());
        }
        if has_hint_failed(fewer) {
            let i = choose|i: int| 0 <= i < fewer.len() && #[trigger] fewer[i] is HintFailed;
            assert(events[i] is HintFailed);
        }
        if has_hint_failed(events) {
            let i = choose|i: int| 0 <= i < events.len() && #[trigger] events[i] is HintFailed;
            if i < fewer.len() {
                assert(fewer[i] is HintFailed);
            }
        }
        assert(events[events.len() - 1] == events.last());
    }
}

/// The stream is in a state to take the last event of a run.
pub proof fn lemma_can_take(s: NodeStreamView, events: Seq<Event>)
    requires
        is_finite(s),
        awaited_hint(s) is None,
        !s.is_failed(),
        is_possible_run(s, events),
        events.len() > 0,
    ensures
        is_finite(after(s, events.drop_last())),
        can_take(after(s, events.drop_last()), events.last()),
{
    lemma_requests(s, events.drop_last());
}

/// Whether the generations that are known are those of the graph.
pub open spec fn is_input(graph: CommitGraph, nodes: Set<ChangesetId>, input: InputView) -> bool {
    &&& input.nodes.to_set() == nodes
    &&& input.generations.len() <= input.nodes.len()
    &&& forall|i: int|
        0 <= i < input.generations.len() ==> #[trigger] input.generations[i] == (graph.generation)(
            input.nodes[i],
        )
}

/// What holds of a stream and the nodes that it has given out, whatever hints it has taken.
pub open spec fn is_ordered_stream(
    graph: CommitGraph,
    hashes: Set<ChangesetId>,
    excludes: Set<ChangesetId>,
    s: NodeStreamView,
    given: Seq<ChangesetId>,
) -> bool {
    match s {
        NodeStreamView::Starting { hashes: h, excludes: x } => {
            &&& is_input(graph, hashes, h)
            &&& is_input(graph, excludes, x)
            &&& given.len() == 0
        },
        NodeStreamView::Streaming(v) => is_ordered_walk(graph, hashes, v, given),
        NodeStreamView::Ended => given.len() == 0,
    }
}

/// What holds besides of a stream that has taken no hints but those that were asked for.
pub open spec fn is_sound_stream(
    graph: CommitGraph,
    excludes: Set<ChangesetId>,
    s: NodeStreamView,
    given: Seq<ChangesetId>,
) -> bool {
    &&& is_apart(graph, excludes, given)
    &&& s matches NodeStreamView::Streaming(v) ==> v.exclude is Failed || covers(graph, excludes, v)
}

/// What holds besides of a stream that has lost no nodes.
pub open spec fn is_complete_stream(
    graph: CommitGraph,
    hashes: Set<ChangesetId>,
    excludes: Set<ChangesetId>,
    s: NodeStreamView,
    given: Seq<ChangesetId>,
) -> bool {
    match s {
        NodeStreamView::Starting { .. } => true,
        NodeStreamView::Streaming(v) => !(v.exclude is Failed) && is_complete_walk(
            graph,
            hashes,
            excludes,
            v,
            given,
        ),
        NodeStreamView::Ended => false,
    }
}

/// Once all generations are known, the input is the given nodes, each with its generation.
pub proof fn lemma_with_generations(graph: CommitGraph, nodes: Set<ChangesetId>, input: InputView)
    requires
        is_input(graph, nodes, input),
        input.query() is None,
    ensures
        input.with_generations().finite(),
        has_generations(graph, input.with_generations()),
        input.with_generations().map(|p: (ChangesetId, Generation)| p.0) == nodes,
{
    let pairs = Seq::new(input.nodes.len(), |i: int| (input.nodes[i], input.generations[i]));
    let s = input.with_generations();
    vstd::seq_lib::seq_to_set_is_finite(pairs);
    assert forall|p: (ChangesetId, Generation)| #[trigger] s.contains(p) implies p.1 == (
    graph.generation)(p.0) by {
        let i = pairs.index_of(p);
        assert(pairs[i] == p);
        assert(input.generations[i] == p.1);
    }
    let ids = s.map(|p: (ChangesetId, Generation)| p.0);
    assert forall|n: ChangesetId| ids.contains(n) == nodes.contains(n) by {
        if ids.contains(n) {
            let p = choose|p: (ChangesetId, Generation)| s.contains(p) && p.0 == n;
            let i = pairs.index_of(p);
            assert(pairs[i] == p);
            assert(input.nodes[i] == n);
        }
        if input.nodes.contains(n) {
            let i = input.nodes.index_of(n);
            assert(pairs[i] == (n, input.generations[i]));
            assert(s.contains(pairs[i]));
        }
    }
    assert(ids =~= nodes);
}

/// What holds of a stream that starts to find nodes.
pub proof fn lemma_started_ordered(
    graph: CommitGraph,
    hashes: Set<ChangesetId>,
    excludes: Set<ChangesetId>,
    s: NodeStreamView,
    given: Seq<ChangesetId>,
)
    requires
        graph.wf(),
        is_ordered_stream(graph, hashes, excludes, s, given),
        s.is_started(),
    ensures
        is_ordered_walk(graph, hashes, s.started(), given),
        s is Starting ==> {
            &&& is_sound_walk(graph, hashes, excludes, s.started(), given)
            &&& is_complete_walk(graph, hashes, excludes, s.started(), given)
        },
{
    if let NodeStreamView::Starting { hashes: h, excludes: x } = s {
        lemma_with_generations(graph, hashes, h);
        lemma_with_generations(graph, excludes, x);
        lemma_start(graph, h.with_generations(), x.with_generations());
        assert(given =~= Seq::empty());
    }
}

/// An event keeps what holds of a stream, and does not take it to a greater generation.
pub proof fn lemma_ordered_event(
    graph: CommitGraph,
    hashes: Set<ChangesetId>,
    excludes: Set<ChangesetId>,
    s: NodeStreamView,
    given: Seq<ChangesetId>,
    event: Event,
)
    requires
        graph.wf(),
        is_ordered_stream(graph, hashes, excludes, s, given),
        can_take(s, event),
        is_true_fetch(graph, s, event),
    ensures
        is_ordered_stream(
            graph,
            hashes,
            excludes,
            after_event(s, event),
            given_by_event(given, s, event),
        ),
        s matches NodeStreamView::Streaming(v) ==> {
            &&& after_event(s, event) is Streaming
            &&& after_event(s, event)->Streaming_0.current_generation <= v.current_generation
        },
{
    match s {
        NodeStreamView::Starting { .. } => {
            if event is Poll && s.is_started() {
                lemma_started_ordered(graph, hashes, excludes, s, given);
                lemma_polled_ordered(graph, hashes, s.started(), given);
            }
        },
        NodeStreamView::Streaming(v) => match event {
            Event::Poll => {
                lemma_polled_ordered(graph, hashes, v, given);
            },
            Event::ParentsFetched { slot, .. } => {
                lemma_parents_fetched(graph, hashes, excludes, v, given, slot as int);
            },
            Event::GenerationFetched { source, .. } => {
                let slot = source->Pending_0 as int;
                lemma_generation_fetched(graph, hashes, excludes, v, given, slot);
            },
            Event::HintReady { hint } => {
                lemma_any_hint(graph, hashes, v, given, ExcludeView::Ready(hint));
            },
            Event::FetchFailed { source } => {
                lemma_fetch_failed(graph, hashes, excludes, v, given, source->Pending_0 as int);
            },
            Event::HintFailed => {
                lemma_any_hint(graph, hashes, v, given, ExcludeView::Failed);
            },
        },
        NodeStreamView::Ended => {},
    }
}

/// An event with true hints keeps what holds of a stream.
pub proof fn lemma_event(
    graph: CommitGraph,
    hashes: Set<ChangesetId>,
    excludes: Set<ChangesetId>,
    s: NodeStreamView,
    given: Seq<ChangesetId>,
    event: Event,
)
    requires
        graph.wf(),
        is_ordered_stream(graph, hashes, excludes, s, given),
        is_sound_stream(graph, excludes, s, given),
        can_take(s, event),
        is_true_fetch(graph, s, event),
        is_true_hint(graph, s, event),
    ensures
        ({
            let t = after_event(s, event);
            let out = given_by_event(given, s, event);
            &&& is_sound_stream(graph, excludes, t, out)
            &&& is_complete_stream(graph, hashes, excludes, s, given) && keeps_nodes(graph, s, event)
                ==> is_complete_stream(graph, hashes, excludes, t, out)
        }),
{
    match s {
        NodeStreamView::Starting { .. } => {
            if event is Poll && s.is_started() {
                lemma_started_ordered(graph, hashes, excludes, s, given);
                lemma_polled_sound(graph, hashes, excludes, s.started(), given);
                lemma_polled_complete(graph, hashes, excludes, s.started(), given);
            }
        },
        NodeStreamView::Streaming(v) => match event {
            Event::Poll => {
                lemma_polled_sound(graph, hashes, excludes, v, given);
                if is_complete_walk(graph, hashes, excludes, v, given) {
                    lemma_polled_complete(graph, hashes, excludes, v, given);
                }
            },
            Event::ParentsFetched { slot, .. } => {
                lemma_parents_fetched(graph, hashes, excludes, v, given, slot as int);
            },
            Event::GenerationFetched { source, .. } => {
                let slot = source->Pending_0 as int;
                lemma_generation_fetched(graph, hashes, excludes, v, given, slot);
            },
            Event::HintReady { hint } => {
                lemma_hint_ready(graph, hashes, excludes, v, given, hint);
            },
            Event::FetchFailed { source } => {
                lemma_fetch_failed(graph, hashes, excludes, v, given, source->Pending_0 as int);
            },
            Event::HintFailed => {},
        },
        NodeStreamView::Ended => {},
    }
}

/// A run keeps what holds of a stream, whatever the hints.
pub proof fn lemma_ordered_run(
    graph: CommitGraph,
    hashes: Set<ChangesetId>,
    excludes: Set<ChangesetId>,
    s: NodeStreamView,
    events: Seq<Event>,
)
    requires
        graph.wf(),
        is_new(graph, hashes, excludes, s),
        is_fetch_run(graph, s, events),
    ensures
        is_ordered_stream(graph, hashes, excludes, after(s, events), given(s, events)),
    decreases events.len(),
{
    if events.len() > 0 {
        let before = after(s, events.drop_last());
        let out = given(s, events.drop_last());
        lemma_ordered_run(graph, hashes, excludes, s, events.drop_last());
        lemma_possible_run(graph, s, events);
        lemma_can_take(s, events);
        lemma_ordered_event(graph, hashes, excludes, before, out, events.last());
    } else if let NodeStreamView::Streaming(v) = s {
        lemma_start(graph, v.next_generation, v.exclude->Ready_0);
    }
}

/// A run with true hints keeps what holds of a stream.
pub proof fn lemma_run(
    graph: CommitGraph,
    hashes: Set<ChangesetId>,
    excludes: Set<ChangesetId>,
    s: NodeStreamView,
    events: Seq<Event>,
)
    requires
        graph.wf(),
        is_new(graph, hashes, excludes, s),
        is_run(graph, s, events),
    ensures
        is_ordered_stream(graph, hashes, excludes, after(s, events), given(s, events)),
        is_sound_stream(graph, excludes, after(s, events), given(s, events)),
        is_lossless_run(graph, s, events) ==> is_complete_stream(
            graph,
            hashes,
            excludes,
            after(s, events),
            given(s, events),
        ),
    decreases events.len(),
{
    lemma_fetch_run(graph, s, events);
    lemma_ordered_run(graph, hashes, excludes, s, events);
    if events.len() > 0 {
        let before = after(s, events.drop_last());
        let out = given(s, events.drop_last());
        lemma_run(graph, hashes, excludes, s, events.drop_last());
        lemma_possible_run(graph, s, events);
        lemma_requests(s, events.drop_last());
        lemma_can_take(s, events);
        lemma_event(graph, hashes, excludes, before, out, events.last());
    } else if let NodeStreamView::Streaming(v) = s {
        lemma_start(graph, v.next_generation, v.exclude->Ready_0);
    }
}

/// In a run in which all is true, the fetches are.
pub proof fn lemma_fetch_run(graph: CommitGraph, s: NodeStreamView, events: Seq<Event>)
    requires
        is_run(graph, s, events),
    ensures
        is_fetch_run(graph, s, events),
    decreases events.len(),
{
    if events.len() > 0 {
        lemma_fetch_run(graph, s, events.drop_last());
    }
}

/// A run in which the fetches are true is a run.
pub proof fn lemma_possible_run(graph: CommitGraph, s: NodeStreamView, events: Seq<Event>)
    requires
        is_fetch_run(graph, s, events),
    ensures
        is_possible_run(s, events),
    decreases events.len(),
{
    if events.len() > 0 {
        lemma_possible_run(graph, s, events.drop_last());
    }
}

/// Whether `s` is the state of a new stream of the ancestors of `hashes` that are not ancestors of
/// `excludes`: one that knows no generations yet, or one that was made with those of the graph.
pub open spec fn is_new(
    graph: CommitGraph,
    hashes: Set<ChangesetId>,
    excludes: Set<ChangesetId>,
    s: NodeStreamView,
) -> bool {
    match s {
        NodeStreamView::Starting { hashes: h, excludes: x } => {
            &&& s == NodeStreamView::start(h.nodes, x.nodes)
            &&& h.nodes.to_set() == hashes
            &&& x.nodes.to_set() == excludes
        },
        NodeStreamView::Streaming(v) => {
            let h = v.next_generation;
            let x = v.exclude->Ready_0;
            &&& v == StreamView::start(h, x)
            &&& h.finite()
            &&& x.finite()
            &&& has_generations(graph, h)
            &&& has_generations(graph, x)
            &&& h.map(|p: (ChangesetId, Generation)| p.0) == hashes
            &&& x.map(|p: (ChangesetId, Generation)| p.0) == excludes
        },
        NodeStreamView::Ended => false,
    }
}

} // verus!
