//! Changesets and their generation numbers.

use vstd::prelude::*;

verus! {

/// The 256-bit hash that names a changeset, as its two halves, the more significant one first.
pub type ChangesetId = (u128, u128);

/// The generation number of a changeset: greater than that of each of its parents.
pub type Generation = u64;

/// The greatest generation number.
pub const MAX_GEN: Generation = 0xffff_ffff_ffff_ffff;

/// Whether hash `a` is smaller than hash `b`, both read as 256-bit numbers.
pub open spec fn id_lt(a: ChangesetId, b: ChangesetId) -> bool {
    a.0 < b.0 || (a.0 == b.0 && a.1 < b.1)
}

/// Whether `x` is the greatest hash of `s`.
pub open spec fn is_greatest(s: Set<ChangesetId>, x: ChangesetId) -> bool {
    s.contains(x) && forall|y: ChangesetId| #[trigger] s.contains(y) ==> y == x || id_lt(y, x)
}

/// The greatest hash of a non-empty finite set.
pub open spec fn greatest(s: Set<ChangesetId>) -> ChangesetId {
    choose|x: ChangesetId| is_greatest(s, x)
}

/// There is at most one greatest hash.
pub proof fn lemma_greatest_unique(s: Set<ChangesetId>, x: ChangesetId)
    requires
        is_greatest(s, x),
    ensures
        greatest(s) == x,
{
    assert(is_greatest(s, greatest(s)));
}

/// A non-empty finite set has a greatest hash.
pub proof fn lemma_greatest_exists(s: Set<ChangesetId>)
    requires
        s.finite(),
        !s.is_empty(),
    ensures
        is_greatest(s, greatest(s)),
    decreases s.len(),
{
    let x = s.choose();
    assert(s.contains(x));
    let rest = s.remove(x);
    if rest.is_empty() {
        assert forall|y: ChangesetId| #[trigger] s.contains(y) implies y == x by {
            if y != x {
                assert(rest.contains(y));
            }
        }
        assert(is_greatest(s, x));
    } else {
        lemma_greatest_exists(rest);
        let z = greatest(rest);
        assert forall|y: ChangesetId| #[trigger] s.contains(y) implies y == x || y == z || id_lt(
            y,
            z,
        ) by {
            if y != x {
                assert(rest.contains(y));
            }
        }
        assert(rest.contains(z));
        assert(is_greatest(s, if id_lt(z, x) { x } else { z }));
    }
}

} // verus!
