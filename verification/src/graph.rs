//! The graph of commits that a stream walks.

use vstd::prelude::*;

use crate::types::{ChangesetId, Generation};

verus! {

/// A graph of commits: the parents of each node, and its generation number.
pub struct CommitGraph {
    pub parents: spec_fn(ChangesetId) -> Seq<ChangesetId>,
    pub generation: spec_fn(ChangesetId) -> Generation,
}

impl CommitGraph {
    /// Whether `parent` is a parent of `node`.
    pub open spec fn is_parent(self, parent: ChangesetId, node: ChangesetId) -> bool {
        (self.parents)(node).contains(parent)
    }

    /// A node has a greater generation number than each of its parents.
    pub open spec fn wf(self) -> bool {
        forall|parent: ChangesetId, node: ChangesetId| #[trigger]
            self.is_parent(parent, node) ==> (self.generation)(parent) < (self.generation)(node)
    }

    /// Whether `steps` steps from a node to one of its parents can lead from `node` to `ancestor`.
    pub open spec fn leads_to(self, node: ChangesetId, ancestor: ChangesetId, steps: nat) -> bool
        decreases steps,
    {
        if steps == 0 {
            node == ancestor
        } else {
            exists|parent: ChangesetId| #[trigger]
                self.is_parent(parent, node) && self.leads_to(parent, ancestor, (steps - 1) as nat)
        }
    }

    /// Whether `ancestor` is an ancestor of `node`. A node is an ancestor of itself.
    pub open spec fn is_ancestor(self, ancestor: ChangesetId, node: ChangesetId) -> bool {
        exists|steps: nat| #[trigger] self.leads_to(node, ancestor, steps)
    }

    /// The ancestors of the given nodes.
    pub open spec fn ancestors(self, nodes: Set<ChangesetId>) -> Set<ChangesetId> {
        Set::new(
            |a: ChangesetId|
                exists|n: ChangesetId| #[trigger] nodes.contains(n) && self.is_ancestor(a, n),
        )
    }

    /// A node is an ancestor of itself.
    pub proof fn lemma_reflexive(self, node: ChangesetId)
        ensures
            self.is_ancestor(node, node),
    {
        assert(self.leads_to(node, node, 0));
    }

    /// An ancestor of a parent is an ancestor.
    pub proof fn lemma_step(self, ancestor: ChangesetId, parent: ChangesetId, node: ChangesetId)
        requires
            self.is_parent(parent, node),
            self.is_ancestor(ancestor, parent),
        ensures
            self.is_ancestor(ancestor, node),
    {
        let steps = choose|steps: nat| self.leads_to(parent, ancestor, steps);
        assert(self.leads_to(node, ancestor, (steps + 1) as nat));
    }

    /// An ancestor is the node itself or an ancestor of one of its parents.
    pub proof fn lemma_unfold(self, ancestor: ChangesetId, node: ChangesetId) -> (parent:
        ChangesetId)
        requires
            self.is_ancestor(ancestor, node),
        ensures
            ancestor == node || (self.is_parent(parent, node) && self.is_ancestor(
                ancestor,
                parent,
            )),
    {
        let steps = choose|steps: nat| self.leads_to(node, ancestor, steps);
        if steps > 0 {
            let parent = choose|parent: ChangesetId| #[trigger]
                self.is_parent(parent, node) && self.leads_to(
                    parent,
                    ancestor,
                    (steps - 1) as nat,
                );
            assert(self.leads_to(parent, ancestor, (steps - 1) as nat));
            parent
        } else {
            node
        }
    }

    /// An ancestor of an ancestor is an ancestor.
    pub proof fn lemma_transitive(self, a: ChangesetId, b: ChangesetId, c: ChangesetId)
        requires
            self.is_ancestor(a, b),
            self.is_ancestor(b, c),
        ensures
            self.is_ancestor(a, c),
    {
        let steps = choose|steps: nat| self.leads_to(c, b, steps);
        self.lemma_transitive_steps(a, b, c, steps);
    }

    proof fn lemma_transitive_steps(
        self,
        a: ChangesetId,
        b: ChangesetId,
        c: ChangesetId,
        steps: nat,
    )
        requires
            self.is_ancestor(a, b),
            self.leads_to(c, b, steps),
        ensures
            self.is_ancestor(a, c),
        decreases steps,
    {
        if steps > 0 {
            let parent = choose|parent: ChangesetId| #[trigger]
                self.is_parent(parent, c) && self.leads_to(parent, b, (steps - 1) as nat);
            self.lemma_transitive_steps(a, b, parent, (steps - 1) as nat);
            self.lemma_step(a, parent, c);
        }
    }

    /// The ancestors of a node other than itself have smaller generation numbers.
    pub proof fn lemma_generation(self, ancestor: ChangesetId, node: ChangesetId)
        requires
            self.wf(),
            self.is_ancestor(ancestor, node),
        ensures
            ancestor == node || (self.generation)(ancestor) < (self.generation)(node),
    {
        let steps = choose|steps: nat| self.leads_to(node, ancestor, steps);
        self.lemma_generation_steps(ancestor, node, steps);
    }

    proof fn lemma_generation_steps(self, ancestor: ChangesetId, node: ChangesetId, steps: nat)
        requires
            self.wf(),
            self.leads_to(node, ancestor, steps),
        ensures
            ancestor == node || (self.generation)(ancestor) < (self.generation)(node),
        decreases steps,
    {
        if steps > 0 {
            let parent = choose|parent: ChangesetId| #[trigger]
                self.is_parent(parent, node) && self.leads_to(
                    parent,
                    ancestor,
                    (steps - 1) as nat,
                );
            self.lemma_generation_steps(ancestor, parent, (steps - 1) as nat);
        }
    }

    /// The ancestors of the given nodes are closed under taking ancestors.
    pub proof fn lemma_ancestors_closed(
        self,
        nodes: Set<ChangesetId>,
        a: ChangesetId,
        b: ChangesetId,
    )
        requires
            self.is_ancestor(a, b),
            self.ancestors(nodes).contains(b),
        ensures
            self.ancestors(nodes).contains(a),
    {
        let n = choose|n: ChangesetId| #[trigger] nodes.contains(n) && self.is_ancestor(b, n);
        self.lemma_transitive(a, b, n);
        assert(nodes.contains(n) && self.is_ancestor(a, n));
    }

    /// A graph is well-formed if, and only if, all parents of all nodes have smaller generation
    /// numbers than these nodes.
    pub proof fn law_generations_grow(self)
        ensures
            self.wf() <==> forall|node: ChangesetId, i: int|
                0 <= i < (self.parents)(node).len() ==> (self.generation)(
                    #[trigger] (self.parents)(node)[i],
                ) < (self.generation)(node),
    {
        if self.wf() {
            assert forall|node: ChangesetId, i: int|
                0 <= i < (self.parents)(node).len() implies (self.generation)(
                #[trigger] (self.parents)(node)[i],
            ) < (self.generation)(node) by {
                assert(self.is_parent((self.parents)(node)[i], node));
            }
        } else {
            let (parent, node) = choose|parent: ChangesetId, node: ChangesetId| #[trigger]
                self.is_parent(parent, node) && (self.generation)(parent) >= (self.generation)(
                    node,
                );
            let i = (self.parents)(node).index_of(parent);
            assert((self.parents)(node)[i] == parent);
        }
    }

    /// The ancestors of the given nodes are these nodes, and all parents of each ancestor.
    pub proof fn law_ancestors_are_closed(self, nodes: Set<ChangesetId>)
        ensures
            nodes.subset_of(self.ancestors(nodes)),
            forall|node: ChangesetId, i: int|
                self.ancestors(nodes).contains(node) && 0 <= i < (self.parents)(node).len()
                    ==> self.ancestors(nodes).contains(#[trigger] (self.parents)(node)[i]),
    {
        assert forall|n: ChangesetId| nodes.contains(n) implies self.ancestors(nodes).contains(
            n,
        ) by {
            self.lemma_reflexive(n);
        }
        assert forall|node: ChangesetId, i: int|
            self.ancestors(nodes).contains(node) && 0 <= i < (self.parents)(
                node,
            ).len() implies self.ancestors(nodes).contains(#[trigger] (self.parents)(node)[i]) by {
            let parent = (self.parents)(node)[i];
            assert(self.is_parent(parent, node));
            self.lemma_reflexive(parent);
            self.lemma_step(parent, parent, node);
            self.lemma_ancestors_closed(nodes, parent, node);
        }
    }

    /// There are no other ancestors: they are in every set that holds the given nodes and all
    /// parents of each of its nodes.
    pub proof fn law_ancestors_are_least(
        self,
        nodes: Set<ChangesetId>,
        closed_set: Set<ChangesetId>,
    )
        requires
            nodes.subset_of(closed_set),
            forall|node: ChangesetId, i: int|
                closed_set.contains(node) && 0 <= i < (self.parents)(node).len()
                    ==> closed_set.contains(#[trigger] (self.parents)(node)[i]),
        ensures
            self.ancestors(nodes).subset_of(closed_set),
    {
        assert forall|a: ChangesetId| self.ancestors(nodes).contains(
            a,
        ) implies closed_set.contains(a) by {
            let n = choose|n: ChangesetId| #[trigger] nodes.contains(n) && self.is_ancestor(a, n);
            let steps = choose|steps: nat| self.leads_to(n, a, steps);
            self.lemma_stays_within(closed_set, n, a, steps);
        }
    }

    proof fn lemma_stays_within(
        self,
        closed_set: Set<ChangesetId>,
        node: ChangesetId,
        ancestor: ChangesetId,
        steps: nat,
    )
        requires
            closed_set.contains(node),
            self.leads_to(node, ancestor, steps),
            forall|n: ChangesetId, i: int|
                closed_set.contains(n) && 0 <= i < (self.parents)(n).len() ==> closed_set.contains(
                    #[trigger] (self.parents)(n)[i],
                ),
        ensures
            closed_set.contains(ancestor),
        decreases steps,
    {
        if steps > 0 {
            let parent = choose|parent: ChangesetId| #[trigger]
                self.is_parent(parent, node) && self.leads_to(
                    parent,
                    ancestor,
                    (steps - 1) as nat,
                );
            let i = (self.parents)(node).index_of(parent);
            assert((self.parents)(node)[i] == parent);
            self.lemma_stays_within(closed_set, parent, ancestor, (steps - 1) as nat);
        }
    }

    /// The ancestors of one node are the ancestors of the set of that node.
    pub proof fn law_ancestors_of_one(self, ancestor: ChangesetId, node: ChangesetId)
        ensures
            self.is_ancestor(ancestor, node) <==> self.ancestors(set![node]).contains(ancestor),
    {
        if self.is_ancestor(ancestor, node) {
            assert(set![node].contains(node));
        }
    }

    /// The ancestors of finitely many nodes are finitely many.
    pub proof fn lemma_ancestors_finite(self, nodes: Set<ChangesetId>)
        requires
            self.wf(),
            nodes.finite(),
        ensures
            self.ancestors(nodes).finite(),
        decreases nodes.len(),
    {
        if nodes.is_empty() {
            assert(self.ancestors(nodes) =~= Set::empty());
        } else {
            let n = nodes.choose();
            let rest = nodes.remove(n);
            self.lemma_ancestors_finite(rest);
            self.lemma_ancestors_of_node_finite(n);
            assert(self.ancestors(nodes) =~= self.ancestors(rest).union(
                self.ancestors(set![n]),
            )) by {
                assert forall|a: ChangesetId| #[trigger]
                    self.ancestors(nodes).contains(a) implies self.ancestors(rest).union(
                    self.ancestors(set![n]),
                ).contains(a) by {
                    let m = choose|m: ChangesetId| #[trigger]
                        nodes.contains(m) && self.is_ancestor(a, m);
                    if m == n {
                        assert(set![n].contains(m));
                    } else {
                        assert(rest.contains(m));
                    }
                }
                assert forall|a: ChangesetId| #[trigger]
                    self.ancestors(rest).contains(a) implies self.ancestors(nodes).contains(a) by {
                    let m = choose|m: ChangesetId| #[trigger]
                        rest.contains(m) && self.is_ancestor(a, m);
                    assert(nodes.contains(m));
                }
                assert forall|a: ChangesetId| #[trigger]
                    self.ancestors(set![n]).contains(a) implies self.ancestors(nodes).contains(
                    a,
                ) by {
                    assert(nodes.contains(n));
                }
            }
        }
    }

    proof fn lemma_ancestors_of_node_finite(self, node: ChangesetId)
        requires
            self.wf(),
        ensures
            self.ancestors(set![node]).finite(),
        decreases (self.generation)(node), 1int, 0int,
    {
        let parents = (self.parents)(node);
        self.lemma_ancestors_of_parents_finite(node, parents.len() as int);
        let above = self.ancestors(parents.take(parents.len() as int).to_set());
        assert(parents.take(parents.len() as int) =~= parents);
        let all = above.insert(node);
        assert forall|a: ChangesetId| #[trigger]
            self.ancestors(set![node]).contains(a) implies all.contains(a) by {
            let m = choose|m: ChangesetId| #[trigger]
                set![node].contains(m) && self.is_ancestor(a, m);
            let parent = self.lemma_unfold(a, node);
            if a != node {
                assert(parents.to_set().contains(parent));
            }
        }
        vstd::set_lib::lemma_set_subset_finite(all, self.ancestors(set![node]));
    }

    /// The ancestors of the first `count` parents of a node.
    proof fn lemma_ancestors_of_parents_finite(self, node: ChangesetId, count: int)
        requires
            self.wf(),
            0 <= count <= (self.parents)(node).len(),
        ensures
            self.ancestors((self.parents)(node).take(count).to_set()).finite(),
        decreases (self.generation)(node), 0int, count,
    {
        let parents = (self.parents)(node);
        let some = self.ancestors(parents.take(count).to_set());
        if count == 0 {
            assert(some =~= Set::empty());
        } else {
            let parent = parents[count - 1];
            let less = self.ancestors(parents.take(count - 1).to_set());
            assert(self.is_parent(parent, node));
            self.lemma_ancestors_of_parents_finite(node, count - 1);
            self.lemma_ancestors_of_node_finite(parent);
            let all = less.union(self.ancestors(set![parent]));
            assert forall|a: ChangesetId| #[trigger] some.contains(a) implies all.contains(a) by {
                let m = choose|m: ChangesetId| #[trigger]
                    parents.take(count).to_set().contains(m) && self.is_ancestor(a, m);
                let i = parents.take(count).index_of(m);
                if i < count - 1 {
                    assert(parents.take(count - 1)[i] == m);
                    assert(parents.take(count - 1).to_set().contains(m));
                } else {
                    assert(set![parent].contains(m));
                }
            }
            vstd::set_lib::lemma_set_subset_finite(all, some);
        }
    }
}

} // verus!
