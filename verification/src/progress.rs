//! How much is left for a stream to do.

use vstd::prelude::*;

use crate::graph::CommitGraph;
use crate::node_frontier::max_gen;
use crate::pending::PendingView;
use crate::stream_view::{
    is_above, lemma_advanced_smaller, lemma_max_gen_exists, ExcludeView, StreamView,
};
use crate::types::{ChangesetId, Generation};

verus! {

/// The number of fetches that are left until the parents of a node are known.
pub open spec fn fetches_left(graph: CommitGraph, pending: PendingView) -> nat {
    match pending {
        PendingView::Parents(node) => 1 + (graph.parents)(node).len(),
        PendingView::Generations(rest) => rest.len(),
    }
}

/// The number of fetches that are left until the parents of all given nodes are known.
pub open spec fn all_fetches_left(graph: CommitGraph, pending: Seq<PendingView>) -> nat
    decreases pending.len(),
{
    if pending.len() == 0 {
        0
    } else {
        all_fetches_left(graph, pending.drop_last()) + fetches_left(graph, pending.last())
    }
}

/// A bound on the number of times that the frontier can still be given away or replaced.
pub open spec fn moves_left(exclude: ExcludeView) -> nat {
    match exclude {
        ExcludeView::Ready(frontier) => match max_gen(frontier) {
            Some(generation) => 2 * generation as nat,
            None => 0,
        },
        ExcludeView::Moving { generation, .. } => 2 * generation as nat + 1,
        ExcludeView::Failed => 0,
    }
}

/// Changing what is left for one slot changes what is left by as much.
pub proof fn lemma_update_fetches(
    graph: CommitGraph,
    pending: Seq<PendingView>,
    slot: int,
    p: PendingView,
)
    requires
        0 <= slot < pending.len(),
    ensures
        all_fetches_left(graph, pending.update(slot, p)) + fetches_left(graph, pending[slot])
            == all_fetches_left(graph, pending) + fetches_left(graph, p),
    decreases pending.len(),
{
    let updated = pending.update(slot, p);
    if slot == pending.len() - 1 {
        assert(updated.drop_last() =~= pending.drop_last());
    } else {
        assert(updated.drop_last() =~= pending.drop_last().update(slot, p));
        lemma_update_fetches(graph, pending.drop_last(), slot, p);
    }
}

/// Taking a hint that keeps to the generation leaves fewer moves of the frontier.
pub proof fn lemma_hint_moves(exclude: ExcludeView, hint: Set<(ChangesetId, Generation)>)
    requires
        exclude is Moving,
        hint.finite(),
        !is_above(hint, exclude->generation),
    ensures
        moves_left(ExcludeView::Ready(hint)) < moves_left(exclude),
{
    if !hint.is_empty() {
        lemma_max_gen_exists(hint);
        let g = max_gen(hint)->0;
        let n = choose|n: ChangesetId| hint.contains((n, g));
        assert(hint.contains((n, g)));
    }
}

/// A poll does not make fetches necessary unless it gives out a node, and one that gives the
/// frontier away leaves fewer moves of it.
pub proof fn lemma_polled_work(graph: CommitGraph, v: StreamView)
    requires
        v.next_generation.finite(),
        v.exclude matches ExcludeView::Ready(frontier) ==> frontier.finite(),
    ensures
        v.polled().1 is Node || all_fetches_left(graph, v.polled().0.pending_changesets)
            <= all_fetches_left(graph, v.pending_changesets),
        v.polled().1 is LcaHint ==> moves_left(v.polled().0.exclude) < moves_left(v.exclude),
    decreases v.next_generation.len(),
{
    if !v.drain.is_empty() && !(v.exclude is Ready) {
    } else if !v.drain.is_empty() && is_above(v.exclude->Ready_0, v.current_generation) {
        let f = v.exclude->Ready_0;
        let p = choose|p: (ChangesetId, Generation)| #[trigger]
            f.contains(p) && p.1 > v.current_generation;
        assert(f.contains(p));
        lemma_max_gen_exists(f);
    } else if !v.kept().is_empty() {
    } else if !v.pending_exhausted() {
    } else if !v.next_generation.is_empty() {
        lemma_advanced_smaller(v.collected());
        lemma_polled_work(graph, v.collected().advanced());
    }
}

} // verus!
