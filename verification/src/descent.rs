//! The order in which a stream turns to generations.

use vstd::prelude::*;

use crate::graph::CommitGraph;
use crate::node_frontier::{is_max_gen, max_gen, nodes_at};
use crate::node_stream::NodeStreamView;
use crate::runs::{
    after, after_event, can_take, given, is_fetch_run, is_new, is_true_fetch, lemma_can_take,
    lemma_ordered_event, lemma_ordered_run, lemma_possible_run, Event,
};
use crate::stream_view::{lemma_advanced_smaller, lemma_max_gen_exists, StreamView};
use crate::types::{ChangesetId, Generation, MAX_GEN};
use crate::walk::{is_ordered_walk, owes};

verus! {

/// The generations of the nodes.
pub open spec fn generations(s: Set<(ChangesetId, Generation)>) -> Set<Generation> {
    s.map(|p: (ChangesetId, Generation)| p.1)
}

/// The stream after it has turned to the greatest generation that it has found nodes of, `times`
/// times.
pub open spec fn advanced_times(v: StreamView, times: nat) -> StreamView
    decreases times,
{
    if times == 0 {
        v
    } else {
        advanced_times(v, (times - 1) as nat).advanced()
    }
}

/// The first turn can be counted before the others.
proof fn lemma_first_turn(v: StreamView, times: nat)
    requires
        times > 0,
    ensures
        advanced_times(v, times) == advanced_times(v.advanced(), (times - 1) as nat),
    decreases times,
{
    if times > 1 {
        lemma_first_turn(v, (times - 1) as nat);
    } else {
        assert(advanced_times(v, 0) == v);
    }
}

/// Turning to a generation takes that generation, the greatest one, and leaves the others.
proof fn lemma_advanced_generations(v: StreamView)
    requires
        v.next_generation.finite(),
        !v.next_generation.is_empty(),
    ensures
        ({
            let g = v.advanced().current_generation;
            &&& is_max_gen(v.next_generation, g)
            &&& generations(v.next_generation).contains(g)
            &&& generations(v.advanced().next_generation) == generations(v.next_generation).remove(
                g,
            )
        }),
{
    lemma_max_gen_exists(v.next_generation);
    let g = max_gen(v.next_generation)->0;
    let n = choose|n: ChangesetId| v.next_generation.contains((n, g));
    assert(v.next_generation.contains((n, g)));
    let left = v.advanced().next_generation;
    assert forall|h: Generation|
        generations(left).contains(h) == (generations(v.next_generation).contains(h) && h != g) by {
        if generations(left).contains(h) {
            let p = choose|p: (ChangesetId, Generation)| left.contains(p) && p.1 == h;
            assert(v.next_generation.contains(p));
        }
        if generations(v.next_generation).contains(h) && h != g {
            let p = choose|p: (ChangesetId, Generation)| v.next_generation.contains(p) && p.1 == h;
            assert(left.contains(p));
        }
    }
    assert(generations(left) =~= generations(v.next_generation).remove(g));
}

/// Turning to generations as often as the nodes have generations, without finding more nodes, a
/// stream runs through these generations, each of them once, in falling order. Each time there are
/// nodes to turn to, and the drain is the nodes of that generation. In the end none are left.
pub proof fn law_all_generations_taken(v: StreamView)
    requires
        v.next_generation.finite(),
    ensures
        ({
            let count = generations(v.next_generation).len();
            &&& forall|i: nat|
                i < count ==> !(#[trigger] advanced_times(v, i)).next_generation.is_empty()
            &&& advanced_times(v, count).next_generation.is_empty()
            &&& forall|i: nat|
                1 <= i <= count ==> {
                    let t = #[trigger] advanced_times(v, i);
                    &&& generations(v.next_generation).contains(t.current_generation)
                    &&& t.drain == nodes_at(v.next_generation, t.current_generation)
                }
            &&& forall|i: nat, j: nat|
                1 <= i < j <= count ==> (#[trigger] advanced_times(v, i)).current_generation > (
                #[trigger] advanced_times(v, j)).current_generation
            &&& forall|g: Generation| #[trigger]
                generations(v.next_generation).contains(g) ==> exists|i: nat|
                    1 <= i <= count && (#[trigger] advanced_times(v, i)).current_generation == g
        }),
    decreases v.next_generation.len(),
{
    let all = generations(v.next_generation);
    v.next_generation.lemma_map_finite(|p: (ChangesetId, Generation)| p.1);
    let count = all.len();
    if v.next_generation.is_empty() {
        assert(all =~= Set::<Generation>::empty());
    } else {
        let w = v.advanced();
        let g = w.current_generation;
        lemma_advanced_smaller(v);
        lemma_advanced_generations(v);
        law_all_generations_taken(w);
        let left = (count - 1) as nat;
        assert(generations(w.next_generation).len() == left);
        assert forall|i: nat| i < count implies !(#[trigger] advanced_times(
            v,
            i,
        )).next_generation.is_empty() by {
            if i > 0 {
                lemma_first_turn(v, i);
            }
        }
        lemma_first_turn(v, count);
        assert(advanced_times(v, 1) == w) by {
            assert(advanced_times(v, 0) == v);
        }
        assert forall|i: nat| 1 <= i <= count implies {
            let t = #[trigger] advanced_times(v, i);
            &&& all.contains(t.current_generation)
            &&& t.drain == nodes_at(v.next_generation, t.current_generation)
            &&& i > 1 ==> t.current_generation < g
        } by {
            if i > 1 {
                let t = advanced_times(w, (i - 1) as nat);
                lemma_first_turn(v, i);
                assert(generations(w.next_generation).contains(t.current_generation));
                let p = choose|p: (ChangesetId, Generation)|
                    w.next_generation.contains(p) && p.1 == t.current_generation;
                assert(v.next_generation.contains(p));
                assert(t.drain =~= nodes_at(v.next_generation, t.current_generation));
            }
        }
        assert forall|i: nat, j: nat| 1 <= i < j <= count implies (#[trigger] advanced_times(
            v,
            i,
        )).current_generation > (#[trigger] advanced_times(v, j)).current_generation by {
            lemma_first_turn(v, i);
            lemma_first_turn(v, j);
        }
        assert forall|h: Generation| #[trigger] all.contains(h) implies exists|i: nat|
            1 <= i <= count && (#[trigger] advanced_times(v, i)).current_generation == h by {
            if h == g {
                assert(advanced_times(v, 1).current_generation == h);
            } else {
                assert(generations(w.next_generation).contains(h));
                let i = choose|i: nat|
                    1 <= i <= left && (#[trigger] advanced_times(w, i)).current_generation == h;
                lemma_first_turn(v, i + 1);
            }
        }
    }
}

/// The generations that the stream turns to in the course of the events.
pub open spec fn generations_taken(s: NodeStreamView, events: Seq<Event>) -> Seq<Generation>
    decreases events.len(),
{
    if events.len() == 0 {
        Seq::empty()
    } else {
        let before = after(s, events.drop_last());
        let earlier = generations_taken(s, events.drop_last());
        if events.last() is Poll && before.is_started() {
            earlier + before.started().turned_to()
        } else {
            earlier
        }
    }
}

/// What holds of a stream and the generations that it has turned to.
spec fn descends(v: StreamView, taken: Seq<Generation>) -> bool {
    &&& forall|i: int, j: int| 0 <= i < j < taken.len() ==> #[trigger] taken[i] > #[trigger] taken[j]
    &&& if taken.len() == 0 {
        v.current_generation == MAX_GEN
    } else {
        &&& taken.last() == v.current_generation
        &&& forall|p: (ChangesetId, Generation)| #[trigger]
            v.next_generation.contains(p) ==> p.1 < v.current_generation
    }
}

/// A poll keeps to the order.
proof fn lemma_polled_descends(v: StreamView, taken: Seq<Generation>)
    requires
        v.next_generation.finite(),
        descends(v, taken),
    ensures
        descends(v.polled().0, taken + v.turned_to()),
    decreases v.next_generation.len(),
{
    if v.turns() {
        let t = v.collected().advanced();
        let g = t.current_generation;
        lemma_advanced_smaller(v.collected());
        lemma_advanced_generations(v.collected());
        let n = choose|n: ChangesetId| v.next_generation.contains((n, g));
        assert(v.next_generation.contains((n, g)));
        assert forall|p: (ChangesetId, Generation)| #[trigger] t.next_generation.contains(p) implies
            p.1 < g by {
            assert(v.next_generation.contains(p));
        }
        lemma_polled_descends(t, taken.push(g));
        assert(taken + v.turned_to() =~= taken.push(g) + t.turned_to());
    } else {
        assert(taken + v.turned_to() =~= taken);
    }
}

/// An event keeps to the order.
proof fn lemma_event_descends(
    graph: CommitGraph,
    hashes: Set<ChangesetId>,
    v: StreamView,
    given: Seq<ChangesetId>,
    taken: Seq<Generation>,
    event: Event,
)
    requires
        is_ordered_walk(graph, hashes, v, given),
        descends(v, taken),
        can_take(NodeStreamView::Streaming(v), event),
        is_true_fetch(graph, NodeStreamView::Streaming(v), event),
        !(event is Poll),
    ensures
        descends(
            after_event(NodeStreamView::Streaming(v), event)->Streaming_0,
            taken,
        ),
{
    if let Event::GenerationFetched { source, generation } = event {
        let slot = source->Pending_0 as int;
        assert(owes(graph, v, slot, v.pending_changesets[slot]->Generations_0[0]));
    }
}

/// What holds of a run.
proof fn lemma_run_descends(
    graph: CommitGraph,
    hashes: Set<ChangesetId>,
    excludes: Set<ChangesetId>,
    s: NodeStreamView,
    events: Seq<Event>,
)
    requires
        graph.wf(),
        is_new(graph, hashes, excludes, s),
        is_fetch_run(graph, s, events),
    ensures
        match after(s, events) {
            NodeStreamView::Streaming(v) => descends(v, generations_taken(s, events)),
            _ => generations_taken(s, events).len() == 0,
        },
    decreases events.len(),
{
    if events.len() > 0 {
        let events0 = events.drop_last();
        let before = after(s, events0);
        let taken = generations_taken(s, events0);
        lemma_run_descends(graph, hashes, excludes, s, events0);
        lemma_possible_run(graph, s, events);
        lemma_can_take(s, events);
        lemma_ordered_run(graph, hashes, excludes, s, events0);
        lemma_ordered_run(graph, hashes, excludes, s, events);
        if events.last() is Poll {
            if before.is_started() {
                if let NodeStreamView::Starting { hashes: h, .. } = before {
                    vstd::seq_lib::seq_to_set_is_finite(
                        Seq::new(h.nodes.len(), |i: int| (h.nodes[i], h.generations[i])),
                    );
                }
                lemma_polled_descends(before.started(), taken);
            }
        } else if let NodeStreamView::Streaming(v) = before {
            lemma_event_descends(graph, hashes, v, given(s, events0), taken, events.last());
        }
    }
}

/// In the course of a run, whatever the hints, a stream turns to generations in falling order, to
/// none of them twice. The current generation is the last one of them.
pub proof fn law_generations_taken_in_falling_order(
    graph: CommitGraph,
    hashes: Set<ChangesetId>,
    excludes: Set<ChangesetId>,
    s: NodeStreamView,
    events: Seq<Event>,
)
    requires
        graph.wf(),
        is_new(graph, hashes, excludes, s),
        is_fetch_run(graph, s, events),
    ensures
        ({
            let taken = generations_taken(s, events);
            &&& forall|i: int, j: int|
                0 <= i < j < taken.len() ==> #[trigger] taken[i] > #[trigger] taken[j]
            &&& after(s, events) matches NodeStreamView::Streaming(v) ==> v.current_generation == if
                taken.len() == 0 {
                MAX_GEN
            } else {
                taken.last()
            }
        }),
{
    lemma_run_descends(graph, hashes, excludes, s, events);
}

/// Over a run, whatever the hints, the current generation never increases: after `count` of the
/// events it is not smaller than after all of them.
pub proof fn law_current_generation_never_increases(
    graph: CommitGraph,
    hashes: Set<ChangesetId>,
    excludes: Set<ChangesetId>,
    s: NodeStreamView,
    events: Seq<Event>,
    count: int,
)
    requires
        graph.wf(),
        is_new(graph, hashes, excludes, s),
        is_fetch_run(graph, s, events),
        0 <= count <= events.len(),
    ensures
        after(s, events.take(count)) matches NodeStreamView::Streaming(earlier) ==> {
            &&& after(s, events) matches NodeStreamView::Streaming(later)
            &&& later.current_generation <= earlier.current_generation
        },
    decreases events.len(),
{
    if count == events.len() {
        assert(events.take(count) =~= events);
    } else {
        let events0 = events.drop_last();
        assert(events0.take(count) =~= events.take(count));
        law_current_generation_never_increases(graph, hashes, excludes, s, events0, count);
        lemma_possible_run(graph, s, events);
        lemma_can_take(s, events);
        lemma_ordered_run(graph, hashes, excludes, s, events0);
        lemma_ordered_event(
            graph,
            hashes,
            excludes,
            after(s, events0),
            given(s, events0),
            events.last(),
        );
    }
}

} // verus!
