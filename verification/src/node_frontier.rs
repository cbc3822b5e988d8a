//! Nodes grouped by generation.

use std::collections::{BTreeMap, BTreeSet};
use vstd::prelude::*;

use crate::stream_view::lemma_max_gen_exists;
use crate::types::{ChangesetId, Generation};
use crate::unique_heap::UniqueHeap;

verus! {

broadcast use vstd::laws_cmp::group_laws_cmp;

/// Whether `g` is the greatest generation of the nodes of `s`.
pub open spec fn is_max_gen(s: Set<(ChangesetId, Generation)>, g: Generation) -> bool {
    &&& exists|n: ChangesetId| #[trigger] s.contains((n, g))
    &&& forall|p: (ChangesetId, Generation)| #[trigger] s.contains(p) ==> p.1 <= g
}

/// The greatest generation of the nodes of a finite set; none if the set is empty.
pub open spec fn max_gen(s: Set<(ChangesetId, Generation)>) -> Option<Generation> {
    if s.is_empty() {
        None
    } else {
        Some(choose|g: Generation| is_max_gen(s, g))
    }
}

/// The nodes of generation `g`.
pub open spec fn nodes_at(s: Set<(ChangesetId, Generation)>, g: Generation) -> Set<ChangesetId> {
    Set::new(|n: ChangesetId| s.contains((n, g)))
}

/// The nodes of every generation but `g`.
pub open spec fn nodes_not_at(s: Set<(ChangesetId, Generation)>, g: Generation) -> Set<
    (ChangesetId, Generation),
> {
    s.filter(|p: (ChangesetId, Generation)| p.1 != g)
}

/// There is at most one greatest generation.
pub proof fn lemma_max_gen_unique(s: Set<(ChangesetId, Generation)>, g: Generation)
    requires
        is_max_gen(s, g),
    ensures
        max_gen(s) == Some(g),
{
    let n = choose|n: ChangesetId| s.contains((n, g));
    assert(s.contains((n, g)));
    assert(is_max_gen(s, max_gen(s)->0));
    let m = choose|m: ChangesetId| s.contains((m, max_gen(s)->0));
    assert(s.contains((m, max_gen(s)->0)));
}

/// The greatest generation of a finite set of nodes is that of one of them, and not smaller than
/// that of any other. There is none only if there are no nodes.
pub proof fn law_max_gen(s: Set<(ChangesetId, Generation)>)
    requires
        s.finite(),
    ensures
        match max_gen(s) {
            Some(g) => {
                &&& exists|n: ChangesetId| #[trigger] s.contains((n, g))
                &&& forall|p: (ChangesetId, Generation)| #[trigger] s.contains(p) ==> p.1 <= g
            },
            None => forall|p: (ChangesetId, Generation)| !#[trigger] s.contains(p),
        },
{
    if !s.is_empty() {
        lemma_max_gen_exists(s);
    }
}

/// The nodes of a set are parted into those of one generation and the others.
pub proof fn law_nodes_parted(
    s: Set<(ChangesetId, Generation)>,
    g: Generation,
    p: (ChangesetId, Generation),
)
    ensures
        s.contains(p) <==> nodes_not_at(s, g).contains(p) || (p.1 == g && nodes_at(s, g).contains(
            p.0,
        )),
        nodes_not_at(s, g).contains(p) ==> p.1 != g,
        nodes_at(s, g).contains(p.0) <==> s.contains((p.0, g)),
{
    assert(p == (p.0, p.1));
}

/// A set of nodes, each with its generation, that gives quick access to those of the greatest
/// generation.
pub struct NodeFrontier {
    /// The nodes of each generation.
    gen_map: BTreeMap<Generation, BTreeSet<ChangesetId>>,
    /// The generations of the nodes.
    generations: UniqueHeap,
}

impl View for NodeFrontier {
    type V = Set<(ChangesetId, Generation)>;

    closed spec fn view(&self) -> Set<(ChangesetId, Generation)> {
        Set::new(
            |p: (ChangesetId, Generation)|
                self.gen_map@.contains_key(p.1) && self.gen_map@[p.1]@.contains(p.0),
        )
    }
}

impl NodeFrontier {
    /// The heap holds the generations of the map, and no generation is without nodes.
    pub closed spec fn wf(&self) -> bool {
        &&& self.generations.wf()
        &&& self.generations@ =~= self.gen_map@.dom()
        &&& forall|g: Generation| #[trigger]
            self.gen_map@.contains_key(g) ==> exists|n: ChangesetId| #[trigger]
                self.gen_map@[g]@.contains(n)
        &&& self@.finite()
    }

    /// The set of nodes of a frontier is finite.
    pub proof fn lemma_finite(&self)
        requires
            self.wf(),
        ensures
            self@.finite(),
    {
    }

    /// A frontier without nodes.
    pub fn new() -> (frontier: Self)
        ensures
            frontier.wf(),
            frontier@ == Set::<(ChangesetId, Generation)>::empty(),
    {
        let frontier = NodeFrontier { gen_map: BTreeMap::new(), generations: UniqueHeap::new() };
        assert(frontier@ =~= Set::<(ChangesetId, Generation)>::empty());
        frontier
    }

    /// The frontier of the given nodes.
    pub fn from_iter(nodes: Vec<(ChangesetId, Generation)>) -> (frontier: Self)
        ensures
            frontier.wf(),
            frontier@ == nodes@.to_set(),
    {
        let mut frontier = NodeFrontier::new();
        let mut i: usize = 0;
        assert(nodes@.take(0).to_set() =~= Set::<(ChangesetId, Generation)>::empty());
        while i < nodes.len()
            invariant
                i <= nodes@.len(),
                frontier.wf(),
                frontier@ == nodes@.take(i as int).to_set(),
            decreases nodes@.len() - i,
        {
            let (node, generation) = nodes[i];
            frontier.insert(node, generation);
            proof {
                let before = nodes@.take(i as int);
                let after = nodes@.take(i + 1);
                assert(after == before.push(nodes@[i as int]));
                lemma_push_to_set(before, nodes@[i as int]);
            }
            i = i + 1;
        }
        assert(nodes@.take(nodes@.len() as int) =~= nodes@);
        frontier
    }

    /// Adds a node of the given generation.
    pub fn insert(&mut self, node: ChangesetId, generation: Generation)
        requires
            old(self).wf(),
        ensures
            final(self).wf(),
            final(self)@ == old(self)@.insert((node, generation)),
    {
        let mut nodes = match self.gen_map.remove(&generation) {
            Some(nodes) => nodes,
            None => BTreeSet::new(),
        };
        nodes.insert(node);
        self.gen_map.insert(generation, nodes);
        self.generations.push(generation);
        proof {
            assert(self.gen_map@[generation]@.contains(node));
            assert forall|g: Generation| #[trigger]
                self.gen_map@.contains_key(g) implies exists|n: ChangesetId| #[trigger]
                self.gen_map@[g]@.contains(n) by {
                if g != generation {
                    assert(old(self).gen_map@.contains_key(g));
                    let n = choose|n: ChangesetId| old(self).gen_map@[g]@.contains(n);
                    assert(self.gen_map@[g]@.contains(n));
                } else {
                    assert(self.gen_map@[g]@.contains(node));
                }
            }
            assert(self@ =~= old(self)@.insert((node, generation)));
        }
    }

    /// Whether the frontier has no nodes.
    pub fn is_empty(&self) -> (res: bool)
        requires
            self.wf(),
        ensures
            res == self@.is_empty(),
    {
        let res = self.gen_map.is_empty();
        proof {
            if res {
                assert(self@ =~= Set::<(ChangesetId, Generation)>::empty());
            } else {
                let g = choose|g: Generation| self.gen_map@.contains_key(g);
                assert(exists|g: Generation| self.gen_map@.contains_key(g)) by {
                    if forall|g: Generation| !self.gen_map@.contains_key(g) {
                        assert(self.gen_map@.dom() =~= Set::<Generation>::empty());
                    }
                }
                let n = choose|n: ChangesetId| self.gen_map@[g]@.contains(n);
                assert(self@.contains((n, g)));
            }
        }
        res
    }

    /// The greatest generation of the frontier's nodes.
    pub fn max_gen(&self) -> (res: Option<Generation>)
        requires
            self.wf(),
        ensures
            res == max_gen(self@),
    {
        let res = self.generations.peek();
        proof {
            match res {
                Some(g) => {
                    assert(self.gen_map@.contains_key(g));
                    let n = choose|n: ChangesetId| self.gen_map@[g]@.contains(n);
                    assert(self@.contains((n, g)));
                    assert forall|p: (ChangesetId, Generation)| #[trigger]
                        self@.contains(p) implies p.1 <= g by {
                        assert(self.generations@.contains(p.1));
                    }
                    lemma_max_gen_unique(self@, g);
                },
                None => {
                    assert(self@ =~= Set::<(ChangesetId, Generation)>::empty()) by {
                        assert forall|p: (ChangesetId, Generation)| !self@.contains(p) by {
                            if self@.contains(p) {
                                assert(self.generations@.contains(p.1));
                            }
                        }
                    }
                },
            }
        }
        res
    }

    /// The nodes of one generation; none if the frontier has no node of that generation.
    pub fn get(&self, generation: Generation) -> (res: Option<&BTreeSet<ChangesetId>>)
        requires
            self.wf(),
        ensures
            match res {
                Some(nodes) => nodes@ == nodes_at(self@, generation) && !nodes@.is_empty(),
                None => nodes_at(self@, generation).is_empty(),
            },
    {
        let res = self.gen_map.get(&generation);
        proof {
            match res {
                Some(nodes) => {
                    assert(nodes@ =~= nodes_at(self@, generation));
                    let n = choose|n: ChangesetId| self.gen_map@[generation]@.contains(n);
                    assert(nodes@.contains(n));
                },
                None => {
                    assert(nodes_at(self@, generation) =~= Set::<ChangesetId>::empty());
                },
            }
        }
        res
    }

    /// Takes out all nodes of the greatest generation, and returns them with that generation.
    pub fn remove_max_gen(&mut self) -> (res: Option<(Generation, BTreeSet<ChangesetId>)>)
        requires
            old(self).wf(),
        ensures
            final(self).wf(),
            match res {
                Some((g, nodes)) => {
                    &&& max_gen(old(self)@) == Some(g)
                    &&& nodes@ == nodes_at(old(self)@, g)
                    &&& !nodes@.is_empty()
                    &&& final(self)@ == nodes_not_at(old(self)@, g)
                },
                None => old(self)@.is_empty() && final(self)@ == old(self)@,
            },
    {
        let popped = self.generations.pop();
        match popped {
            Some(g) => {
                let removed = self.gen_map.remove(&g);
                match removed {
                    Some(nodes) => {
                        proof {
                            assert(old(self).gen_map@.contains_key(g));
                            let n = choose|n: ChangesetId| old(self).gen_map@[g]@.contains(n);
                            assert(old(self)@.contains((n, g)));
                            assert forall|p: (ChangesetId, Generation)| #[trigger]
                                old(self)@.contains(p) implies p.1 <= g by {
                                assert(old(self).generations@.contains(p.1));
                            }
                            lemma_max_gen_unique(old(self)@, g);
                            assert(nodes@ =~= nodes_at(old(self)@, g));
                            assert(nodes@.contains(n));
                            assert(self@ =~= nodes_not_at(old(self)@, g));
                            vstd::set_lib::lemma_set_subset_finite(old(self)@, self@);
                            assert forall|h: Generation| #[trigger]
                                self.gen_map@.contains_key(h) implies exists|m: ChangesetId|
                                #[trigger] self.gen_map@[h]@.contains(m) by {
                                assert(old(self).gen_map@.contains_key(h));
                                let m = choose|m: ChangesetId|
                                    old(self).gen_map@[h]@.contains(m);
                                assert(self.gen_map@[h]@.contains(m));
                            }
                        }
                        Some((g, nodes))
                    },
                    None => {
                        assert(false);
                        None
                    },
                }
            },
            None => {
                assert(self@ =~= old(self)@);
                None
            },
        }
    }
}

/// Pushing onto a sequence inserts into the set of its elements.
pub proof fn lemma_push_to_set<A>(s: Seq<A>, x: A)
    ensures
        s.push(x).to_set() == s.to_set().insert(x),
{
    assert forall|y: A| s.push(x).to_set().contains(y) == s.to_set().insert(x).contains(y) by {
        if s.contains(y) {
            let i = s.index_of(y);
            assert(s.push(x)[i] == y);
        }
        if s.push(x).contains(y) && y != x {
            let i = s.push(x).index_of(y);
            assert(s[i] == y);
        }
        assert(s.push(x)[s.len() as int] == x);
    }
    assert(s.push(x).to_set() =~= s.to_set().insert(x));
}

} // verus!
