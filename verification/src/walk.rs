//! What holds of a stream at every point of its walk over a graph of commits.

use vstd::prelude::*;

use crate::graph::CommitGraph;
use crate::node_frontier::{max_gen, nodes_at};
use crate::pending::{PendingView, Query};
use crate::stream_view::{
    is_above, lemma_advanced_smaller, lemma_max_gen_exists, ExcludeView, PolledView, StreamView,
};
use crate::types::{
    greatest, id_lt, lemma_greatest_exists, ChangesetId, Generation, MAX_GEN,
};

verus! {

/// Whether each node of the set comes with its generation.
pub open spec fn has_generations(graph: CommitGraph, s: Set<(ChangesetId, Generation)>) -> bool {
    forall|p: (ChangesetId, Generation)| #[trigger] s.contains(p) ==> p.1 == (graph.generation)(p.0)
}

/// Whether `node` is an ancestor of a node of the set.
pub open spec fn is_below(
    graph: CommitGraph,
    s: Set<(ChangesetId, Generation)>,
    node: ChangesetId,
) -> bool {
    exists|p: (ChangesetId, Generation)| #[trigger] s.contains(p) && graph.is_ancestor(node, p.0)
}

/// The nodes of the exclude frontier, at hand or given away.
pub open spec fn frontier(exclude: ExcludeView) -> Set<(ChangesetId, Generation)> {
    match exclude {
        ExcludeView::Ready(frontier) => frontier,
        ExcludeView::Moving { frontier, .. } => frontier,
        ExcludeView::Failed => Set::empty(),
    }
}

/// The parents that a stream is still to learn of.
pub open spec fn owed(graph: CommitGraph, pending: PendingView) -> Seq<ChangesetId> {
    match pending {
        PendingView::Parents(node) => (graph.parents)(node),
        PendingView::Generations(rest) => rest,
    }
}

/// Whether the stream is still to learn of `node` as a parent, in `slot`.
pub open spec fn owes(graph: CommitGraph, v: StreamView, slot: int, node: ChangesetId) -> bool {
    0 <= slot < v.pending_changesets.len() && owed(graph, v.pending_changesets[slot]).contains(node)
}

/// Whether the stream still has to look at `node`.
pub open spec fn is_ahead(graph: CommitGraph, v: StreamView, node: ChangesetId) -> bool {
    ||| v.next_generation.contains((node, (graph.generation)(node)))
    ||| v.drain.contains(node)
    ||| exists|slot: int| owes(graph, v, slot, node)
}

/// Whether the stream has no more to do with the greatest generation, of which it gave nothing.
/// So it is before it turns to any generation.
pub open spec fn is_fresh(v: StreamView, given: Seq<ChangesetId>) -> bool {
    &&& v.current_generation == MAX_GEN
    &&& v.drain.is_empty()
    &&& v.pending_changesets.len() == 0
    &&& given.len() == 0
}

/// What holds of the nodes that a stream has found, where `given` are the nodes that it has given
/// out: they are ancestors of `hashes`, and the stream goes down the generations.
pub open spec fn walks(
    graph: CommitGraph,
    hashes: Set<ChangesetId>,
    v: StreamView,
    given: Seq<ChangesetId>,
) -> bool {
    &&& v.next_generation.finite()
    &&& v.drain.finite()
    &&& has_generations(graph, v.next_generation)
    &&& forall|p: (ChangesetId, Generation)| #[trigger]
        v.next_generation.contains(p) ==> graph.ancestors(hashes).contains(p.0) && (p.1
            < v.current_generation || is_fresh(v, given))
    &&& forall|n: ChangesetId| #[trigger]
        v.drain.contains(n) ==> (graph.generation)(n) == v.current_generation && graph.ancestors(
            hashes,
        ).contains(n) && !given.contains(n)
    &&& forall|slot: int, n: ChangesetId| #[trigger]
        owes(graph, v, slot, n) ==> (graph.generation)(n) < v.current_generation
            && graph.ancestors(hashes).contains(n)
    &&& v.exclude matches ExcludeView::Moving { generation, .. } ==> generation
        == v.current_generation
    &&& v.exclude is Ready || !v.drain.is_empty()
}

/// What holds of the exclude frontier: it stands for `excludes` down from the current generation.
pub open spec fn covers(
    graph: CommitGraph,
    excludes: Set<ChangesetId>,
    v: StreamView,
) -> bool {
    &&& !(v.exclude is Failed)
    &&& frontier(v.exclude).finite()
    &&& has_generations(graph, frontier(v.exclude))
    &&& forall|n: ChangesetId| #[trigger]
        graph.ancestors(excludes).contains(n) && (graph.generation)(n) <= v.current_generation
            ==> is_below(graph, frontier(v.exclude), n)
}

/// What holds of the nodes that were given out, in the order in which they were, whatever the
/// frontier excludes: they are ancestors of `hashes`, no two are the same, and none comes before
/// one of a greater generation.
pub open spec fn is_ordered(
    graph: CommitGraph,
    hashes: Set<ChangesetId>,
    given: Seq<ChangesetId>,
) -> bool {
    &&& given.no_duplicates()
    &&& forall|i: int|
        0 <= i < given.len() ==> graph.ancestors(hashes).contains(#[trigger] given[i])
    &&& forall|i: int, j: int|
        0 <= i <= j < given.len() ==> (graph.generation)(#[trigger] given[i]) >= (graph.generation)(
            #[trigger] given[j],
        )
}

/// Whether none of the nodes is an ancestor of `excludes`.
pub open spec fn is_apart(
    graph: CommitGraph,
    excludes: Set<ChangesetId>,
    given: Seq<ChangesetId>,
) -> bool {
    forall|i: int|
        0 <= i < given.len() ==> !graph.ancestors(excludes).contains(#[trigger] given[i])
}

/// What holds of a stream and the nodes that it has given out, whatever the frontier excludes.
pub open spec fn is_ordered_walk(
    graph: CommitGraph,
    hashes: Set<ChangesetId>,
    v: StreamView,
    given: Seq<ChangesetId>,
) -> bool {
    &&& walks(graph, hashes, v, given)
    &&& is_ordered(graph, hashes, given)
    &&& forall|i: int|
        0 <= i < given.len() ==> (graph.generation)(#[trigger] given[i]) >= v.current_generation
}

/// What holds of a stream and the nodes that it has given out, whatever the frontier excludes
/// beyond the ancestors of `excludes`.
pub open spec fn is_sound_walk(
    graph: CommitGraph,
    hashes: Set<ChangesetId>,
    excludes: Set<ChangesetId>,
    v: StreamView,
    given: Seq<ChangesetId>,
) -> bool {
    &&& is_ordered_walk(graph, hashes, v, given)
    &&& covers(graph, excludes, v)
    &&& is_apart(graph, excludes, given)
}

/// No node is lost: the frontier excludes nothing but ancestors of `excludes`, and what was not
/// given out is an ancestor of a node that the stream still has to look at.
pub open spec fn is_complete_walk(
    graph: CommitGraph,
    hashes: Set<ChangesetId>,
    excludes: Set<ChangesetId>,
    v: StreamView,
    given: Seq<ChangesetId>,
) -> bool {
    &&& forall|p: (ChangesetId, Generation)| #[trigger]
        frontier(v.exclude).contains(p) ==> graph.ancestors(excludes).contains(p.0)
    &&& forall|n: ChangesetId| #[trigger]
        graph.ancestors(hashes).contains(n) && !graph.ancestors(excludes).contains(n)
            && !given.contains(n) ==> exists|m: ChangesetId| #[trigger]
            is_ahead(graph, v, m) && graph.is_ancestor(n, m)
}

/// The nodes that were given out after a poll with the given result.
pub open spec fn given_after(given: Seq<ChangesetId>, res: PolledView) -> Seq<ChangesetId> {
    match res {
        PolledView::Node { node, .. } => given.push(node),
        _ => given,
    }
}

/// The nodes of one generation of a finite set are finitely many.
pub proof fn lemma_nodes_at_finite(s: Set<(ChangesetId, Generation)>, g: Generation)
    requires
        s.finite(),
    ensures
        nodes_at(s, g).finite(),
{
    let ids = s.map(|p: (ChangesetId, Generation)| p.0);
    s.lemma_map_finite(|p: (ChangesetId, Generation)| p.0);
    assert forall|n: ChangesetId| nodes_at(s, g).contains(n) implies ids.contains(n) by {
        assert(s.contains((n, g)));
    }
    vstd::set_lib::lemma_set_subset_finite(ids, nodes_at(s, g));
}

/// A node of the drain that is kept is not an ancestor of an excluded node.
proof fn lemma_kept_not_excluded(
    graph: CommitGraph,
    excludes: Set<ChangesetId>,
    v: StreamView,
    node: ChangesetId,
)
    requires
        graph.wf(),
        covers(graph, excludes, v),
        v.exclude is Ready,
        !is_above(v.exclude->Ready_0, v.current_generation),
        (graph.generation)(node) == v.current_generation,
        v.kept().contains(node),
    ensures
        !graph.ancestors(excludes).contains(node),
{
    if graph.ancestors(excludes).contains(node) {
        let f = v.exclude->Ready_0;
        let p = choose|p: (ChangesetId, Generation)| #[trigger]
            f.contains(p) && graph.is_ancestor(node, p.0);
        assert(f.contains(p) && p.1 <= v.current_generation);
        graph.lemma_generation(node, p.0);
        assert(p == (node, v.current_generation));
    }
}

/// Turning to the next generation.
pub proof fn lemma_advanced_ordered(
    graph: CommitGraph,
    hashes: Set<ChangesetId>,
    v: StreamView,
    given: Seq<ChangesetId>,
)
    requires
        is_ordered_walk(graph, hashes, v, given),
        !v.next_generation.is_empty(),
        v.exclude is Ready,
    ensures
        is_ordered_walk(graph, hashes, v.collected().advanced(), given),
        v.collected().advanced().current_generation <= v.current_generation,
{
    let t = v.collected().advanced();
    lemma_advanced_smaller(v.collected());
    lemma_max_gen_exists(v.next_generation);
    let g = max_gen(v.next_generation)->0;
    lemma_nodes_at_finite(v.next_generation, g);
    let top = choose|n: ChangesetId| v.next_generation.contains((n, g));
    assert(v.next_generation.contains((top, g)));
    assert(g <= v.current_generation);
    assert(given.len() > 0 ==> g < v.current_generation);
    assert forall|p: (ChangesetId, Generation)| #[trigger] t.next_generation.contains(p) implies p.1
        < t.current_generation && graph.ancestors(hashes).contains(p.0) && p.1 == (
    graph.generation)(p.0) by {
        assert(v.next_generation.contains(p));
    }
    assert forall|n: ChangesetId| #[trigger] t.drain.contains(n) implies (graph.generation)(n)
        == t.current_generation && graph.ancestors(hashes).contains(n) && !given.contains(n) by {
        assert(v.next_generation.contains((n, g)));
        if given.contains(n) {
            let i = given.index_of(n);
            assert(given[i] == n);
        }
    }
}

/// A poll keeps what holds of a stream, whatever the frontier excludes.
pub proof fn lemma_polled_ordered(
    graph: CommitGraph,
    hashes: Set<ChangesetId>,
    v: StreamView,
    given: Seq<ChangesetId>,
)
    requires
        graph.wf(),
        is_ordered_walk(graph, hashes, v, given),
    ensures
        is_ordered_walk(graph, hashes, v.polled().0, given_after(given, v.polled().1)),
        v.polled().0.current_generation <= v.current_generation,
    decreases v.next_generation.len(),
{
    if !v.drain.is_empty() && !(v.exclude is Ready) {
    } else if !v.drain.is_empty() && is_above(v.exclude->Ready_0, v.current_generation) {
        let t = v.asking();
        assert(forall|slot: int, n: ChangesetId| owes(graph, t, slot, n) == owes(graph, v, slot, n));
    } else if !v.kept().is_empty() {
        vstd::set_lib::lemma_set_subset_finite(v.drain, v.kept());
        lemma_greatest_exists(v.kept());
        let node = greatest(v.kept());
        assert(v.drain.contains(node));
        let t = v.given_out(node);
        let out = given.push(node);
        vstd::set_lib::lemma_set_subset_finite(v.drain, t.drain);
        assert forall|slot: int, n: ChangesetId| #[trigger] owes(graph, t, slot, n) implies (
        graph.generation)(n) < t.current_generation && graph.ancestors(hashes).contains(n) by {
            if slot < v.pending_changesets.len() {
                assert(owes(graph, v, slot, n));
            } else {
                assert(graph.is_parent(n, node));
                graph.lemma_reflexive(n);
                graph.lemma_step(n, n, node);
                graph.lemma_ancestors_closed(hashes, n, node);
            }
        }
        assert forall|n: ChangesetId| #[trigger] t.drain.contains(n) implies !out.contains(n) by {
            assert(v.drain.contains(n));
            if out.contains(n) {
                let i = out.index_of(n);
                assert(out[i] == n);
                if i < given.len() {
                    assert(given[i] == n);
                }
            }
        }
        assert(out.no_duplicates()) by {
            assert(!given.contains(node));
        }
    } else if !v.pending_exhausted() {
        let t = v.drained();
        assert(forall|slot: int, n: ChangesetId| owes(graph, t, slot, n) == owes(graph, v, slot, n));
    } else if v.next_generation.is_empty() {
    } else {
        lemma_advanced_smaller(v.collected());
        lemma_advanced_ordered(graph, hashes, v, given);
        lemma_polled_ordered(graph, hashes, v.collected().advanced(), given);
    }
}

/// A poll keeps what holds of a stream, whatever the frontier excludes beyond the ancestors of
/// `excludes`.
pub proof fn lemma_polled_sound(
    graph: CommitGraph,
    hashes: Set<ChangesetId>,
    excludes: Set<ChangesetId>,
    v: StreamView,
    given: Seq<ChangesetId>,
)
    requires
        graph.wf(),
        is_sound_walk(graph, hashes, excludes, v, given),
    ensures
        is_sound_walk(
            graph,
            hashes,
            excludes,
            v.polled().0,
            given_after(given, v.polled().1),
        ),
    decreases v.next_generation.len(),
{
    lemma_polled_ordered(graph, hashes, v, given);
    if !v.drain.is_empty() && (!(v.exclude is Ready) || is_above(
        v.exclude->Ready_0,
        v.current_generation,
    )) {
    } else if !v.kept().is_empty() {
        vstd::set_lib::lemma_set_subset_finite(v.drain, v.kept());
        lemma_greatest_exists(v.kept());
        let node = greatest(v.kept());
        assert(v.drain.contains(node));
        lemma_kept_not_excluded(graph, excludes, v, node);
    } else if v.pending_exhausted() && !v.next_generation.is_empty() {
        lemma_advanced_smaller(v.collected());
        lemma_advanced_ordered(graph, hashes, v, given);
        lemma_polled_sound(graph, hashes, excludes, v.collected().advanced(), given);
    }
}

/// Where all that the stream still had to look at is looked at later or was an ancestor of
/// `excludes`, no node is lost.
proof fn lemma_nothing_lost(
    graph: CommitGraph,
    hashes: Set<ChangesetId>,
    excludes: Set<ChangesetId>,
    v: StreamView,
    t: StreamView,
    given: Seq<ChangesetId>,
)
    requires
        is_complete_walk(graph, hashes, excludes, v, given),
        frontier(t.exclude) == frontier(v.exclude),
        forall|m: ChangesetId| #[trigger]
            is_ahead(graph, v, m) ==> is_ahead(graph, t, m) || graph.ancestors(excludes).contains(m),
    ensures
        is_complete_walk(graph, hashes, excludes, t, given),
{
    assert forall|n: ChangesetId| #[trigger]
        graph.ancestors(hashes).contains(n) && !graph.ancestors(excludes).contains(n)
            && !given.contains(n) implies exists|m: ChangesetId| #[trigger]
        is_ahead(graph, t, m) && graph.is_ancestor(n, m) by {
        let m = choose|m: ChangesetId| #[trigger]
            is_ahead(graph, v, m) && graph.is_ancestor(n, m);
        if !is_ahead(graph, t, m) {
            graph.lemma_ancestors_closed(excludes, n, m);
        }
        assert(is_ahead(graph, t, m));
    }
}

/// A poll loses no node.
pub proof fn lemma_polled_complete(
    graph: CommitGraph,
    hashes: Set<ChangesetId>,
    excludes: Set<ChangesetId>,
    v: StreamView,
    given: Seq<ChangesetId>,
)
    requires
        graph.wf(),
        is_sound_walk(graph, hashes, excludes, v, given),
        is_complete_walk(graph, hashes, excludes, v, given),
    ensures
        is_complete_walk(
            graph,
            hashes,
            excludes,
            v.polled().0,
            given_after(given, v.polled().1),
        ),
    decreases v.next_generation.len(),
{
    if !v.drain.is_empty() && !(v.exclude is Ready) {
    } else if !v.drain.is_empty() && is_above(v.exclude->Ready_0, v.current_generation) {
        let t = v.asking();
        assert forall|m: ChangesetId| #[trigger] is_ahead(graph, v, m) implies is_ahead(
            graph,
            t,
            m,
        ) by {
            lemma_same_pending(graph, v, t, m);
        }
        lemma_nothing_lost(graph, hashes, excludes, v, t, given);
    } else if !v.kept().is_empty() {
        lemma_given_out_complete(graph, hashes, excludes, v, given);
    } else {
        assert forall|m: ChangesetId| #[trigger] v.drain.contains(m) implies graph.ancestors(
            excludes,
        ).contains(m) by {
            assert(!v.kept().contains(m));
            assert(frontier(v.exclude).contains((m, v.current_generation)));
        }
        if !v.pending_exhausted() {
            let t = v.drained();
            assert forall|m: ChangesetId| #[trigger] is_ahead(graph, v, m) implies is_ahead(
                graph,
                t,
                m,
            ) || graph.ancestors(excludes).contains(m) by {
                lemma_same_pending(graph, v, t, m);
            }
            lemma_nothing_lost(graph, hashes, excludes, v, t, given);
        } else {
            assert forall|slot: int, m: ChangesetId| !#[trigger] owes(graph, v, slot, m) by {
                if owes(graph, v, slot, m) {
                    assert(v.pending_changesets[slot].query() is None);
                }
            }
            if v.next_generation.is_empty() {
                lemma_nothing_lost(graph, hashes, excludes, v, v.collected(), given);
            } else {
                let t = v.collected().advanced();
                assert forall|m: ChangesetId| #[trigger] is_ahead(graph, v, m) implies is_ahead(
                    graph,
                    t,
                    m,
                ) || graph.ancestors(excludes).contains(m) by {
                    let g = max_gen(v.next_generation)->0;
                    if v.next_generation.contains((m, (graph.generation)(m))) {
                        if (graph.generation)(m) == g {
                            assert(t.drain.contains(m));
                        } else {
                            assert(t.next_generation.contains((m, (graph.generation)(m))));
                        }
                    }
                }
                lemma_nothing_lost(graph, hashes, excludes, v, t, given);
                lemma_advanced_smaller(v.collected());
                lemma_advanced_ordered(graph, hashes, v, given);
                lemma_polled_complete(graph, hashes, excludes, t, given);
            }
        }
    }
}

/// Two streams with the same parents to learn of.
proof fn lemma_same_pending(graph: CommitGraph, v: StreamView, t: StreamView, m: ChangesetId)
    requires
        t.pending_changesets == v.pending_changesets,
    ensures
        (exists|slot: int| owes(graph, v, slot, m)) ==> exists|slot: int| owes(graph, t, slot, m),
{
    if exists|slot: int| owes(graph, v, slot, m) {
        let slot = choose|slot: int| owes(graph, v, slot, m);
        assert(owes(graph, t, slot, m));
    }
}

/// Giving out a node loses no node: its parents are pending.
proof fn lemma_given_out_complete(
    graph: CommitGraph,
    hashes: Set<ChangesetId>,
    excludes: Set<ChangesetId>,
    v: StreamView,
    given: Seq<ChangesetId>,
)
    requires
        graph.wf(),
        is_sound_walk(graph, hashes, excludes, v, given),
        is_complete_walk(graph, hashes, excludes, v, given),
        v.exclude is Ready,
        !v.kept().is_empty(),
    ensures
        is_complete_walk(
            graph,
            hashes,
            excludes,
            v.given_out(greatest(v.kept())),
            given.push(greatest(v.kept())),
        ),
{
    vstd::set_lib::lemma_set_subset_finite(v.drain, v.kept());
    lemma_greatest_exists(v.kept());
    let node = greatest(v.kept());
    let t = v.given_out(node);
    let out = given.push(node);
    assert(out[given.len() as int] == node);
    assert forall|n: ChangesetId| #[trigger]
        graph.ancestors(hashes).contains(n) && !graph.ancestors(excludes).contains(n)
            && !out.contains(n) implies exists|m: ChangesetId| #[trigger]
        is_ahead(graph, t, m) && graph.is_ancestor(n, m) by {
        assert(!given.contains(n)) by {
            if given.contains(n) {
                let i = given.index_of(n);
                assert(out[i] == n);
            }
        }
        let m = choose|m: ChangesetId| #[trigger]
            is_ahead(graph, v, m) && graph.is_ancestor(n, m);
        if v.next_generation.contains((m, (graph.generation)(m))) {
            assert(is_ahead(graph, t, m));
        } else if exists|slot: int| owes(graph, v, slot, m) {
            let slot = choose|slot: int| owes(graph, v, slot, m);
            assert(owes(graph, t, slot, m));
            assert(is_ahead(graph, t, m));
        } else if m == node {
            let parent = graph.lemma_unfold(n, node);
            assert(owes(graph, t, v.pending_changesets.len() as int, parent));
            assert(is_ahead(graph, t, parent));
        } else if id_lt(m, node) {
            assert(t.drain.contains(m));
            assert(is_ahead(graph, t, m));
        } else {
            assert(!v.kept().contains(m));
            assert(frontier(v.exclude).contains((m, v.current_generation)));
            graph.lemma_ancestors_closed(excludes, n, m);
        }
    }
}

/// Learning of the parents of a node keeps what holds of a stream.
pub proof fn lemma_parents_fetched(
    graph: CommitGraph,
    hashes: Set<ChangesetId>,
    excludes: Set<ChangesetId>,
    v: StreamView,
    given: Seq<ChangesetId>,
    slot: int,
)
    requires
        is_ordered_walk(graph, hashes, v, given),
        v.query(slot) matches Some(Query::Parents(_)),
    ensures
        ({
            let node = v.query(slot)->0->Parents_0;
            let t = v.parents_fetched(slot, (graph.parents)(node));
            &&& is_ordered_walk(graph, hashes, t, given)
            &&& covers(graph, excludes, v) ==> covers(graph, excludes, t)
            &&& is_complete_walk(graph, hashes, excludes, v, given) ==> is_complete_walk(
                graph,
                hashes,
                excludes,
                t,
                given,
            )
        }),
{
    let node = v.query(slot)->0->Parents_0;
    let t = v.parents_fetched(slot, (graph.parents)(node));
    assert(v.pending_changesets[slot] == PendingView::Parents(node));
    assert forall|i: int, n: ChangesetId| #[trigger] owes(graph, t, i, n) == owes(
        graph,
        v,
        i,
        n,
    ) by {}
    assert forall|m: ChangesetId| #[trigger] is_ahead(graph, v, m) implies is_ahead(
        graph,
        t,
        m,
    ) by {
        if exists|i: int| owes(graph, v, i, m) {
            let i = choose|i: int| owes(graph, v, i, m);
            assert(owes(graph, t, i, m));
        }
    }
    if is_complete_walk(graph, hashes, excludes, v, given) {
        lemma_nothing_lost(graph, hashes, excludes, v, t, given);
    }
}

/// Learning of the generation of a parent keeps what holds of a stream.
pub proof fn lemma_generation_fetched(
    graph: CommitGraph,
    hashes: Set<ChangesetId>,
    excludes: Set<ChangesetId>,
    v: StreamView,
    given: Seq<ChangesetId>,
    slot: int,
)
    requires
        is_ordered_walk(graph, hashes, v, given),
        v.query(slot) matches Some(Query::Generation(_)),
    ensures
        ({
            let node = v.query(slot)->0->Generation_0;
            let t = v.generation_fetched(slot, (graph.generation)(node));
            &&& is_ordered_walk(graph, hashes, t, given)
            &&& covers(graph, excludes, v) ==> covers(graph, excludes, t)
            &&& is_complete_walk(graph, hashes, excludes, v, given) ==> is_complete_walk(
                graph,
                hashes,
                excludes,
                t,
                given,
            )
        }),
{
    let node = v.query(slot)->0->Generation_0;
    let t = v.generation_fetched(slot, (graph.generation)(node));
    let rest = v.pending_changesets[slot]->Generations_0;
    assert(rest[0] == node);
    assert(owes(graph, v, slot, node));
    assert forall|i: int, n: ChangesetId| #[trigger] owes(graph, t, i, n) implies owes(
        graph,
        v,
        i,
        n,
    ) by {
        if i == slot {
            let j = rest.drop_first().index_of(n);
            assert(rest[j + 1] == n);
        }
    }
    assert forall|m: ChangesetId| #[trigger] is_ahead(graph, v, m) implies is_ahead(
        graph,
        t,
        m,
    ) by {
        if exists|i: int| owes(graph, v, i, m) {
            let i = choose|i: int| owes(graph, v, i, m);
            if i == slot && m != node {
                let j = rest.index_of(m);
                assert(rest.drop_first()[j - 1] == m);
                assert(owes(graph, t, i, m));
            } else if i != slot {
                assert(owes(graph, t, i, m));
            }
        }
    }
    if is_complete_walk(graph, hashes, excludes, v, given) {
        lemma_nothing_lost(graph, hashes, excludes, v, t, given);
    }
}

/// Going on without a parent, or all parents, of a node keeps what holds of a stream, but may lose
/// nodes.
pub proof fn lemma_fetch_failed(
    graph: CommitGraph,
    hashes: Set<ChangesetId>,
    excludes: Set<ChangesetId>,
    v: StreamView,
    given: Seq<ChangesetId>,
    slot: int,
)
    requires
        is_ordered_walk(graph, hashes, v, given),
        v.query(slot) is Some,
    ensures
        is_ordered_walk(graph, hashes, v.fetch_failed(slot), given),
        covers(graph, excludes, v) ==> covers(graph, excludes, v.fetch_failed(slot)),
{
    let t = v.fetch_failed(slot);
    assert forall|i: int, n: ChangesetId| #[trigger] owes(graph, t, i, n) implies owes(
        graph,
        v,
        i,
        n,
    ) by {
        if i == slot {
            if let PendingView::Generations(rest) = v.pending_changesets[slot] {
                let j = rest.drop_first().index_of(n);
                assert(rest[j + 1] == n);
            }
        }
    }
}

/// Whether `hint` is what has to be answered when a stream asks to move `frontier` to at most
/// `generation`:
/// - the greatest generation number in it is at most `generation`;
/// - any ancestor of `frontier` with a generation of at most `generation` is also an ancestor of
///   it.
///
/// And like any frontier, it has finitely many nodes, each with its generation.
pub open spec fn is_hint(
    graph: CommitGraph,
    frontier: Set<(ChangesetId, Generation)>,
    generation: Generation,
    hint: Set<(ChangesetId, Generation)>,
) -> bool {
    &&& hint.finite()
    &&& has_generations(graph, hint)
    &&& forall|p: (ChangesetId, Generation)| #[trigger] hint.contains(p) ==> p.1 <= generation
    &&& forall|n: ChangesetId|
        (graph.generation)(n) <= generation && #[trigger] is_below(graph, frontier, n) ==> is_below(
            graph,
            hint,
            n,
        )
}

/// Whether the nodes of `hint` are ancestors of the nodes of `frontier`.
pub open spec fn is_hint_within(
    graph: CommitGraph,
    frontier: Set<(ChangesetId, Generation)>,
    hint: Set<(ChangesetId, Generation)>,
) -> bool {
    forall|p: (ChangesetId, Generation)| #[trigger]
        hint.contains(p) ==> is_below(graph, frontier, p.0)
}

/// Any hint, and no hint at all, keeps what holds of a stream whatever its frontier excludes.
pub proof fn lemma_any_hint(
    graph: CommitGraph,
    hashes: Set<ChangesetId>,
    v: StreamView,
    given: Seq<ChangesetId>,
    exclude: ExcludeView,
)
    requires
        is_ordered_walk(graph, hashes, v, given),
        v.exclude is Moving,
        !(exclude is Moving),
    ensures
        is_ordered_walk(graph, hashes, v.with_exclude(exclude), given),
{
    let t = v.with_exclude(exclude);
    assert forall|slot: int, n: ChangesetId| #[trigger] owes(graph, t, slot, n) implies owes(
        graph,
        v,
        slot,
        n,
    ) by {}
}

/// Taking a hint keeps what holds of a stream, and loses no node if the hint is within the frontier
/// that was given away.
pub proof fn lemma_hint_ready(
    graph: CommitGraph,
    hashes: Set<ChangesetId>,
    excludes: Set<ChangesetId>,
    v: StreamView,
    given: Seq<ChangesetId>,
    hint: Set<(ChangesetId, Generation)>,
)
    requires
        is_sound_walk(graph, hashes, excludes, v, given),
        v.exclude is Moving,
        is_hint(graph, v.exclude->frontier, v.exclude->generation, hint),
    ensures
        ({
            let t = v.with_exclude(ExcludeView::Ready(hint));
            &&& is_sound_walk(graph, hashes, excludes, t, given)
            &&& is_complete_walk(graph, hashes, excludes, v, given) && is_hint_within(
                graph,
                v.exclude->frontier,
                hint,
            ) ==> is_complete_walk(graph, hashes, excludes, t, given)
        }),
{
    let t = v.with_exclude(ExcludeView::Ready(hint));
    let moved = v.exclude->frontier;
    lemma_any_hint(graph, hashes, v, given, ExcludeView::Ready(hint));
    if is_complete_walk(graph, hashes, excludes, v, given) && is_hint_within(graph, moved, hint) {
        assert forall|p: (ChangesetId, Generation)| #[trigger]
            hint.contains(p) implies graph.ancestors(excludes).contains(p.0) by {
            let q = choose|q: (ChangesetId, Generation)| #[trigger]
                moved.contains(q) && graph.is_ancestor(p.0, q.0);
            assert(frontier(v.exclude).contains(q));
            graph.lemma_ancestors_closed(excludes, p.0, q.0);
        }
        assert forall|n: ChangesetId| #[trigger]
            graph.ancestors(hashes).contains(n) && !graph.ancestors(excludes).contains(n)
                && !given.contains(n) implies exists|m: ChangesetId| #[trigger]
            is_ahead(graph, t, m) && graph.is_ancestor(n, m) by {
            let m = choose|m: ChangesetId| #[trigger]
                is_ahead(graph, v, m) && graph.is_ancestor(n, m);
            lemma_same_pending(graph, v, t, m);
            assert(is_ahead(graph, t, m));
        }
    }
}

/// A stream that starts from `hashes` and `excludes`, each node with its generation.
pub proof fn lemma_start(
    graph: CommitGraph,
    hashes: Set<(ChangesetId, Generation)>,
    excludes: Set<(ChangesetId, Generation)>,
)
    requires
        graph.wf(),
        hashes.finite(),
        excludes.finite(),
        has_generations(graph, hashes),
        has_generations(graph, excludes),
    ensures
        ({
            let h = hashes.map(|p: (ChangesetId, Generation)| p.0);
            let x = excludes.map(|p: (ChangesetId, Generation)| p.0);
            &&& is_sound_walk(graph, h, x, StreamView::start(hashes, excludes), Seq::empty())
            &&& is_complete_walk(graph, h, x, StreamView::start(hashes, excludes), Seq::empty())
        }),
{
    let h = hashes.map(|p: (ChangesetId, Generation)| p.0);
    let x = excludes.map(|p: (ChangesetId, Generation)| p.0);
    let v = StreamView::start(hashes, excludes);
    assert forall|p: (ChangesetId, Generation)| #[trigger] hashes.contains(p) implies graph.ancestors(
        h,
    ).contains(p.0) by {
        graph.lemma_reflexive(p.0);
        assert(h.contains(p.0) && graph.is_ancestor(p.0, p.0));
    }
    assert forall|p: (ChangesetId, Generation)| #[trigger]
        excludes.contains(p) implies graph.ancestors(x).contains(p.0) by {
        graph.lemma_reflexive(p.0);
        assert(x.contains(p.0) && graph.is_ancestor(p.0, p.0));
    }
    assert forall|n: ChangesetId| #[trigger] graph.ancestors(x).contains(n) implies is_below(
        graph,
        excludes,
        n,
    ) by {
        let m = choose|m: ChangesetId| #[trigger] x.contains(m) && graph.is_ancestor(n, m);
        let p = choose|p: (ChangesetId, Generation)| excludes.contains(p) && p.0 == m;
        assert(excludes.contains(p) && graph.is_ancestor(n, p.0));
    }
    assert forall|n: ChangesetId| #[trigger] graph.ancestors(h).contains(n) implies exists|
        m: ChangesetId,
    | #[trigger] is_ahead(graph, v, m) && graph.is_ancestor(n, m) by {
        let m = choose|m: ChangesetId| #[trigger] h.contains(m) && graph.is_ancestor(n, m);
        let p = choose|p: (ChangesetId, Generation)| hashes.contains(p) && p.0 == m;
        assert(p == (m, (graph.generation)(m)));
        assert(is_ahead(graph, v, m));
    }
}

} // verus!
