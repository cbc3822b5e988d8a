//! How a stream tells which nodes are excluded.
//!
//! The exclude frontier is asked of one node after the other, and replaced by hints when it has to
//! be moved.

use vstd::prelude::*;

use crate::graph::CommitGraph;
use crate::stream_view::{is_above, ExcludeView, ExcludedView};
use crate::types::{ChangesetId, Generation};
use crate::walk::{frontier, has_generations, is_below, is_hint, is_hint_within};

verus! {

/// What happens to the exclude frontier.
pub enum Exclusion {
    /// The frontier is asked whether `node`, which is of the given generation, is excluded.
    Check { node: ChangesetId, generation: Generation },
    /// The hint that was asked for becomes known.
    HintReady { hint: Set<(ChangesetId, Generation)> },
}

/// The exclude frontier after the event.
pub open spec fn exclude_after_event(exclude: ExcludeView, event: Exclusion) -> ExcludeView {
    match event {
        Exclusion::Check { node, generation } => exclude.checked(node, generation).0,
        Exclusion::HintReady { hint } => ExcludeView::Ready(hint),
    }
}

/// The exclude frontier after the events.
pub open spec fn exclude_after(exclude: ExcludeView, events: Seq<Exclusion>) -> ExcludeView
    decreases events.len(),
{
    if events.len() == 0 {
        exclude
    } else {
        exclude_after_event(exclude_after(exclude, events.drop_last()), events.last())
    }
}

/// Whether the events can happen one after the other: a hint becomes known only if it was asked
/// for.
pub open spec fn is_exclusion(exclude: ExcludeView, events: Seq<Exclusion>) -> bool
    decreases events.len(),
{
    events.len() > 0 ==> {
        &&& is_exclusion(exclude, events.drop_last())
        &&& events.last() is HintReady ==> exclude_after(exclude, events.drop_last()) is Moving
    }
}

/// Whether each node that is asked of is of the generation that is told, and each hint is made of
/// the ancestors of the frontier that was given away, and stands for all of them up to the
/// generation that it has to keep to.
pub open spec fn is_true_exclusion(
    graph: CommitGraph,
    exclude: ExcludeView,
    events: Seq<Exclusion>,
) -> bool
    decreases events.len(),
{
    events.len() > 0 ==> {
        let before = exclude_after(exclude, events.drop_last());
        &&& is_true_exclusion(graph, exclude, events.drop_last())
        &&& match events.last() {
            Exclusion::Check { node, generation } => generation == (graph.generation)(node),
            Exclusion::HintReady { hint } => {
                &&& is_hint(graph, before->frontier, before->generation, hint)
                &&& is_hint_within(graph, before->frontier, hint)
            },
        }
    }
}

/// Whether each hint keeps to the generation that it was asked for.
pub open spec fn hints_keep(exclude: ExcludeView, events: Seq<Exclusion>) -> bool
    decreases events.len(),
{
    events.len() > 0 ==> {
        &&& hints_keep(exclude, events.drop_last())
        &&& events.last() matches Exclusion::HintReady { hint } ==> !is_above(
            hint,
            exclude_after(exclude, events.drop_last())->generation,
        )
    }
}

/// The generations for which hints are asked in the course of the events.
pub open spec fn hints_asked_for(exclude: ExcludeView, events: Seq<Exclusion>) -> Seq<Generation>
    decreases events.len(),
{
    if events.len() == 0 {
        Seq::empty()
    } else {
        let earlier = hints_asked_for(exclude, events.drop_last());
        match events.last() {
            Exclusion::Check { node, generation } => match exclude_after(
                exclude,
                events.drop_last(),
            ).checked(node, generation).1 {
                ExcludedView::LcaHint { generation, .. } => earlier.push(generation),
                _ => earlier,
            },
            Exclusion::HintReady { .. } => earlier,
        }
    }
}

/// A frontier at hand tells whether a node is excluded if, and only if, it has no node of a greater
/// generation: a node is excluded if the frontier holds it. Otherwise the whole frontier is given
/// away, to be replaced by a hint for the generation of the node. While it is away, nothing is
/// told.
pub proof fn law_check(exclude: ExcludeView, node: ChangesetId, generation: Generation)
    ensures
        match exclude.checked(node, generation) {
            (after, ExcludedView::Ready(excluded)) => {
                &&& after == exclude
                &&& exclude matches ExcludeView::Ready(f)
                &&& excluded == f.contains((node, generation))
                &&& forall|p: (ChangesetId, Generation)| #[trigger]
                    f.contains(p) ==> p.1 <= generation
            },
            (after, ExcludedView::LcaHint { frontier: f, generation: g }) => {
                &&& exclude == ExcludeView::Ready(f)
                &&& g == generation
                &&& after == (ExcludeView::Moving { frontier: f, generation: g })
                &&& exists|p: (ChangesetId, Generation)| #[trigger]
                    f.contains(p) && p.1 > generation
            },
            (after, ExcludedView::NotReady) => after == exclude && !(exclude is Ready),
        },
{
}

/// Whether the frontier stands for `excludes` up to the generation `bound`: its nodes are ancestors
/// of `excludes`, and all ancestors of `excludes` up to that generation are ancestors of its nodes.
pub open spec fn stands_for(
    graph: CommitGraph,
    excludes: Set<ChangesetId>,
    frontier: Set<(ChangesetId, Generation)>,
    bound: Generation,
) -> bool {
    &&& has_generations(graph, frontier)
    &&& forall|p: (ChangesetId, Generation)| #[trigger]
        frontier.contains(p) ==> graph.ancestors(excludes).contains(p.0)
    &&& forall|n: ChangesetId| #[trigger]
        graph.ancestors(excludes).contains(n) && (graph.generation)(n) <= bound ==> is_below(
            graph,
            frontier,
            n,
        )
}

/// A frontier that stands for `excludes` up to the generation of a node, and has no node of a
/// greater generation, tells at once whether the node is an ancestor of `excludes`.
pub proof fn law_exclusion_decision(
    graph: CommitGraph,
    excludes: Set<ChangesetId>,
    frontier: Set<(ChangesetId, Generation)>,
    node: ChangesetId,
)
    requires
        graph.wf(),
        stands_for(graph, excludes, frontier, (graph.generation)(node)),
        !is_above(frontier, (graph.generation)(node)),
    ensures
        ExcludeView::Ready(frontier).checked(node, (graph.generation)(node)) == (
            ExcludeView::Ready(frontier),
            ExcludedView::Ready(graph.ancestors(excludes).contains(node)),
        ),
{
    let generation = (graph.generation)(node);
    if graph.ancestors(excludes).contains(node) {
        let p = choose|p: (ChangesetId, Generation)| #[trigger]
            frontier.contains(p) && graph.is_ancestor(node, p.0);
        assert(frontier.contains(p) && p.1 <= generation);
        graph.lemma_generation(node, p.0);
        assert(p == (node, generation));
    }
    if frontier.contains((node, generation)) {
        assert(graph.ancestors(excludes).contains((node, generation).0));
    }
}

/// The frontier stands for `excludes` up to every generation that no check was below.
proof fn lemma_stands_for(
    graph: CommitGraph,
    excludes: Set<(ChangesetId, Generation)>,
    events: Seq<Exclusion>,
    bound: Generation,
)
    requires
        has_generations(graph, excludes),
        is_exclusion(ExcludeView::Ready(excludes), events),
        is_true_exclusion(graph, ExcludeView::Ready(excludes), events),
        forall|i: int|
            0 <= i < events.len() ==> (#[trigger] events[i] matches Exclusion::Check {
                generation,
                ..
            } ==> generation >= bound),
    ensures
        ({
            let last = exclude_after(ExcludeView::Ready(excludes), events);
            let x = excludes.map(|p: (ChangesetId, Generation)| p.0);
            &&& !(last is Failed)
            &&& last matches ExcludeView::Moving { generation, .. } ==> generation >= bound
            &&& stands_for(graph, x, frontier(last), bound)
        }),
    decreases events.len(),
{
    let x = excludes.map(|p: (ChangesetId, Generation)| p.0);
    if events.len() == 0 {
        assert forall|p: (ChangesetId, Generation)| #[trigger]
            excludes.contains(p) implies graph.ancestors(x).contains(p.0) by {
            graph.lemma_reflexive(p.0);
            assert(x.contains(p.0) && graph.is_ancestor(p.0, p.0));
        }
        assert forall|n: ChangesetId| #[trigger] graph.ancestors(x).contains(n) implies is_below(
            graph,
            excludes,
            n,
        ) by {
            let m = choose|m: ChangesetId| #[trigger] x.contains(m) && graph.is_ancestor(n, m);
            let p = choose|p: (ChangesetId, Generation)| excludes.contains(p) && p.0 == m;
            assert(excludes.contains(p) && graph.is_ancestor(n, p.0));
        }
    } else {
        lemma_stands_for(graph, excludes, events.drop_last(), bound);
        let before = exclude_after(ExcludeView::Ready(excludes), events.drop_last());
        assert(events[events.len() - 1] == events.last());
        if let Exclusion::HintReady { hint } = events.last() {
            let moved = before->frontier;
            assert forall|p: (ChangesetId, Generation)| #[trigger]
                hint.contains(p) implies graph.ancestors(x).contains(p.0) by {
                let q = choose|q: (ChangesetId, Generation)| #[trigger]
                    moved.contains(q) && graph.is_ancestor(p.0, q.0);
                assert(frontier(before).contains(q));
                graph.lemma_ancestors_closed(x, p.0, q.0);
            }
        }
    }
}

/// After any checks of nodes of no smaller generation, and the hints that these asked for, the
/// answer of the frontier is whether the node is an ancestor of the excluded nodes. There is an
/// answer unless a hint is asked for or waited for.
pub proof fn law_excluded_are_ancestors(
    graph: CommitGraph,
    excludes: Set<(ChangesetId, Generation)>,
    events: Seq<Exclusion>,
    node: ChangesetId,
)
    requires
        graph.wf(),
        has_generations(graph, excludes),
        is_exclusion(ExcludeView::Ready(excludes), events),
        is_true_exclusion(graph, ExcludeView::Ready(excludes), events),
        forall|i: int|
            0 <= i < events.len() ==> (#[trigger] events[i] matches Exclusion::Check {
                generation,
                ..
            } ==> generation >= (graph.generation)(node)),
    ensures
        ({
            let last = exclude_after(ExcludeView::Ready(excludes), events);
            let x = excludes.map(|p: (ChangesetId, Generation)| p.0);
            match last.checked(node, (graph.generation)(node)).1 {
                ExcludedView::Ready(excluded) => excluded == graph.ancestors(x).contains(node),
                ExcludedView::LcaHint { frontier, generation } => {
                    &&& generation == (graph.generation)(node)
                    &&& is_above(frontier, generation)
                },
                ExcludedView::NotReady => last is Moving,
            }
        }),
{
    lemma_stands_for(graph, excludes, events, (graph.generation)(node));
    if let ExcludeView::Ready(f) = exclude_after(ExcludeView::Ready(excludes), events) {
        if !is_above(f, (graph.generation)(node)) {
            let x = excludes.map(|p: (ChangesetId, Generation)| p.0);
            law_exclusion_decision(graph, x, f, node);
        }
    }
}

/// Once a check had an answer, every further check of the same generation has one, without a hint
/// and without a change of the frontier; for the same node it is the same answer.
pub proof fn law_generation_settled(
    exclude: ExcludeView,
    node: ChangesetId,
    other: ChangesetId,
    generation: Generation,
)
    requires
        exclude.checked(node, generation).1 is Ready,
    ensures
        ({
            let (after, answer) = exclude.checked(node, generation);
            &&& after == exclude
            &&& after.checked(node, generation) == (exclude, answer)
            &&& after.checked(other, generation).0 == exclude
            &&& after.checked(other, generation).1 is Ready
        }),
{
}

/// Where the hints keep to the generations that they were asked for, hints are asked for smaller
/// and smaller generations: for no generation more than once, however often nodes of it are
/// checked.
pub proof fn law_one_hint_for_a_generation(exclude: ExcludeView, events: Seq<Exclusion>)
    requires
        exclude is Ready,
        is_exclusion(exclude, events),
        hints_keep(exclude, events),
    ensures
        ({
            let asked = hints_asked_for(exclude, events);
            forall|i: int, j: int|
                0 <= i < j < asked.len() ==> #[trigger] asked[i] > #[trigger] asked[j]
        }),
        hints_asked_for(exclude, events).no_duplicates(),
{
    lemma_hints_fall(exclude, events);
}

/// What holds of the frontier and the generations for which hints were asked.
proof fn lemma_hints_fall(exclude: ExcludeView, events: Seq<Exclusion>)
    requires
        exclude is Ready,
        is_exclusion(exclude, events),
        hints_keep(exclude, events),
    ensures
        ({
            let asked = hints_asked_for(exclude, events);
            &&& forall|i: int, j: int|
                0 <= i < j < asked.len() ==> #[trigger] asked[i] > #[trigger] asked[j]
            &&& match exclude_after(exclude, events) {
                ExcludeView::Ready(frontier) => asked.len() > 0 ==> !is_above(
                    frontier,
                    asked.last(),
                ),
                ExcludeView::Moving { generation, .. } => asked.len() > 0 && asked.last()
                    == generation,
                ExcludeView::Failed => false,
            }
        }),
    decreases events.len(),
{
    if events.len() > 0 {
        lemma_hints_fall(exclude, events.drop_last());
        let before = exclude_after(exclude, events.drop_last());
        let earlier = hints_asked_for(exclude, events.drop_last());
        if let Exclusion::Check { node, generation } = events.last() {
            if before.checked(node, generation).1 is LcaHint {
                let f = before->Ready_0;
                let p = choose|p: (ChangesetId, Generation)| #[trigger]
                    f.contains(p) && p.1 > generation;
                assert(f.contains(p));
                assert(earlier.len() > 0 ==> p.1 <= earlier.last());
            }
        }
    }
}

/// While a hint is pending, any number of retries get no answer, ask for nothing and change
/// nothing.
pub proof fn law_retries_ask_nothing(
    exclude: ExcludeView,
    events: Seq<Exclusion>,
    retries: Seq<Exclusion>,
)
    requires
        exclude_after(exclude, events) is Moving,
        forall|i: int| 0 <= i < retries.len() ==> #[trigger] retries[i] is Check,
    ensures
        exclude_after(exclude, events + retries) == exclude_after(exclude, events),
        forall|node: ChangesetId, generation: Generation|
            (#[trigger] exclude_after(exclude, events + retries).checked(node, generation)).1
                is NotReady,
        hints_asked_for(exclude, events + retries) == hints_asked_for(exclude, events),
        is_exclusion(exclude, events) ==> is_exclusion(exclude, events + retries),
    decreases retries.len(),
{
    if retries.len() == 0 {
        assert(events + retries =~= events);
    } else {
        assert((events + retries).drop_last() =~= events + retries.drop_last());
        assert((events + retries).last() == retries[retries.len() - 1]);
        law_retries_ask_nothing(exclude, events, retries.drop_last());
    }
}

/// A hint that comes after any number of retries leads to the same answer as one that comes at
/// once, and is asked for once in all.
pub proof fn law_late_hint_same_answer(
    frontier: Set<(ChangesetId, Generation)>,
    node: ChangesetId,
    generation: Generation,
    retries: nat,
    hint: Set<(ChangesetId, Generation)>,
)
    requires
        is_above(frontier, generation),
        !is_above(hint, generation),
    ensures
        ({
            let exclude = ExcludeView::Ready(frontier);
            let check = Exclusion::Check { node, generation };
            let known = Exclusion::HintReady { hint };
            let late = seq![check] + Seq::new(retries, |i: int| check) + seq![known];
            let at_once = seq![check] + seq![known];
            &&& is_exclusion(exclude, late)
            &&& exclude_after(exclude, late).checked(node, generation).1 == ExcludedView::Ready(
                hint.contains((node, generation)),
            )
            &&& exclude_after(exclude, late).checked(node, generation) == exclude_after(
                exclude,
                at_once,
            ).checked(node, generation)
            &&& hints_asked_for(exclude, late + seq![check]) == seq![generation]
            &&& hints_asked_for(exclude, at_once + seq![check]) == seq![generation]
        }),
{
    let exclude = ExcludeView::Ready(frontier);
    let check = Exclusion::Check { node, generation };
    let known = Exclusion::HintReady { hint };
    let first = seq![check];
    let again = Seq::new(retries, |i: int| check);
    assert(first.drop_last() =~= Seq::empty());
    reveal_with_fuel(hints_asked_for, 2);
    reveal_with_fuel(exclude_after, 2);
    reveal_with_fuel(is_exclusion, 2);
    assert(exclude_after(exclude, first) == (ExcludeView::Moving { frontier, generation }));
    assert(hints_asked_for(exclude, first) =~= seq![generation]);
    law_retries_ask_nothing(exclude, first, again);
    let late = first + again + seq![known];
    assert(late.drop_last() =~= first + again);
    assert((late + seq![check]).drop_last() =~= late);
    let at_once = first + seq![known];
    assert(at_once.drop_last() =~= first);
    assert((at_once + seq![check]).drop_last() =~= at_once);
    assert(exclude_after(exclude, late) == ExcludeView::Ready(hint));
    assert(exclude_after(exclude, at_once) == ExcludeView::Ready(hint));
}

} // verus!
