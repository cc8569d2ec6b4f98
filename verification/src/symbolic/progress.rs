//! Why the traversal comes to an end.
//!
//! There are finitely many headers. Every node and tunnel keeps the set of
//! headers it has verified, which only grows; the headers still missing,
//! counted over all of them, bound the work that is left.
use crate::kernel::all_valuations;
use vstd::arithmetic::power2::pow2;
use vstd::prelude::*;

verus! {

/// There are finitely many valuations of `n` variables.
pub proof fn lemma_all_valuations_finite(n: nat)
    ensures
        all_valuations(n).finite(),
    decreases n,
{
    if n == 0 {
        assert(all_valuations(0) =~= set![Seq::<bool>::empty()]) by {
            assert forall|v: Seq<bool>| all_valuations(0).contains(v) implies v
                == Seq::<bool>::empty() by {
                assert(v =~= Seq::<bool>::empty());
            }
        }
    } else {
        let shorter = all_valuations((n - 1) as nat);
        lemma_all_valuations_finite((n - 1) as nat);
        let with_true = shorter.map(|s: Seq<bool>| s.push(true));
        let with_false = shorter.map(|s: Seq<bool>| s.push(false));
        shorter.lemma_map_finite(|s: Seq<bool>| s.push(true));
        shorter.lemma_map_finite(|s: Seq<bool>| s.push(false));
        assert(all_valuations(n) =~= with_true.union(with_false)) by {
            assert forall|v: Seq<bool>| all_valuations(n).contains(v) implies with_true.union(
                with_false,
            ).contains(v) by {
                let s = v.drop_last();
                assert(shorter.contains(s));
                assert(v =~= s.push(v.last()));
                if v.last() {
                    assert(with_true.contains(v));
                } else {
                    assert(with_false.contains(v));
                }
            }
        }
    }
}

/// There are at most two to the `n` valuations of `n` variables.
pub proof fn lemma_valuations_count(n: nat)
    ensures
        all_valuations(n).finite(),
        all_valuations(n).len() <= pow2(n),
    decreases n,
{
    lemma_all_valuations_finite(n);
    if n == 0 {
        assert(all_valuations(0) =~= set![Seq::<bool>::empty()]) by {
            assert forall|v: Seq<bool>| all_valuations(0).contains(v) implies v
                == Seq::<bool>::empty() by {
                assert(v =~= Seq::<bool>::empty());
            }
        }
        assert(set![Seq::<bool>::empty()].len() == 1);
        vstd::arithmetic::power2::lemma2_to64();
    } else {
        let shorter = all_valuations((n - 1) as nat);
        lemma_valuations_count((n - 1) as nat);
        let with_true = shorter.map(|s: Seq<bool>| s.push(true));
        let with_false = shorter.map(|s: Seq<bool>| s.push(false));
        vstd::set_lib::lemma_map_size_bound(shorter, with_true, |s: Seq<bool>| s.push(true));
        vstd::set_lib::lemma_map_size_bound(shorter, with_false, |s: Seq<bool>| s.push(false));
        assert(all_valuations(n).subset_of(with_true.union(with_false))) by {
            assert forall|v: Seq<bool>| all_valuations(n).contains(v) implies with_true.union(
                with_false,
            ).contains(v) by {
                let s = v.drop_last();
                assert(shorter.contains(s));
                assert(v =~= s.push(v.last()));
                if v.last() {
                    assert(with_true.contains(v));
                } else {
                    assert(with_false.contains(v));
                }
            }
        }
        vstd::set_lib::lemma_len_union(with_true, with_false);
        vstd::set_lib::lemma_len_subset(all_valuations(n), with_true.union(with_false));
        vstd::arithmetic::power2::lemma_pow2_unfold(n);
    }
}

/// No set misses more headers than there are, and all the sets together no
/// more than that for each of them.
pub proof fn lemma_missing_bound(verified: Seq<Set<Seq<bool>>>, n: nat)
    ensures
        missing_all(verified, n) <= verified.len() * pow2(n),
    decreases verified.len(),
{
    if verified.len() > 0 {
        lemma_missing_bound(verified.drop_last(), n);
        lemma_valuations_count(n);
        let u = all_valuations(n);
        vstd::set_lib::lemma_len_subset(u.difference(verified.last()), u);
        assert(verified.len() * pow2(n) == (verified.len() - 1) * pow2(n) + pow2(n)) by (nonlinear_arith);
    }
}

/// The number of headers of width `n` that `verified` does not hold.
pub open spec fn missing(verified: Set<Seq<bool>>, n: nat) -> nat {
    all_valuations(n).difference(verified).len()
}

/// The headers missing from all the sets together.
pub open spec fn missing_all(verified: Seq<Set<Seq<bool>>>, n: nat) -> nat
    decreases verified.len(),
{
    if verified.len() == 0 {
        0
    } else {
        missing_all(verified.drop_last(), n) + missing(verified.last(), n)
    }
}

/// A set that grows misses no more than before, and fewer once it has
/// gained a header.
pub proof fn lemma_missing_shrinks(before: Set<Seq<bool>>, after: Set<Seq<bool>>, n: nat)
    requires
        before.subset_of(after),
    ensures
        missing(after, n) <= missing(before, n),
        (exists|v: Seq<bool>| v.len() == n && after.contains(v) && !before.contains(v)) ==> missing(
            after,
            n,
        ) < missing(before, n),
{
    lemma_all_valuations_finite(n);
    let u = all_valuations(n);
    let a = u.difference(after);
    let b = u.difference(before);
    vstd::set_lib::lemma_len_difference(u, before);
    vstd::set_lib::lemma_set_subset_finite(u, b);
    assert(a.subset_of(b));
    vstd::set_lib::lemma_len_subset(a, b);
    if exists|v: Seq<bool>| v.len() == n && after.contains(v) && !before.contains(v) {
        let v = choose|v: Seq<bool>| v.len() == n && after.contains(v) && !before.contains(v);
        a.lemma_subset_not_in_lt(b, v);
    }
}

/// When every set has grown, no more is missing than before; when one of
/// them has gained a header, less is.
pub proof fn lemma_missing_all_shrinks(
    before: Seq<Set<Seq<bool>>>,
    after: Seq<Set<Seq<bool>>>,
    n: nat,
)
    requires
        before.len() == after.len(),
        forall|i: int| 0 <= i < before.len() ==> (#[trigger] before[i]).subset_of(after[i]),
    ensures
        missing_all(after, n) <= missing_all(before, n),
        (exists|i: int, v: Seq<bool>|
            0 <= i < before.len() && v.len() == n && #[trigger] after[i].contains(v)
                && !before[i].contains(v)) ==> missing_all(after, n) < missing_all(before, n),
    decreases before.len(),
{
    if before.len() > 0 {
        let b0 = before.drop_last();
        let a0 = after.drop_last();
        assert forall|i: int| 0 <= i < b0.len() implies (#[trigger] b0[i]).subset_of(a0[i]) by {
            assert(b0[i] == before[i] && a0[i] == after[i]);
        }
        lemma_missing_all_shrinks(b0, a0, n);
        assert(before.last() == before[before.len() - 1]);
        lemma_missing_shrinks(before.last(), after.last(), n);
        if exists|i: int, v: Seq<bool>|
            0 <= i < before.len() && v.len() == n && #[trigger] after[i].contains(v)
                && !before[i].contains(v) {
            let (i, v) = choose|i: int, v: Seq<bool>|
                0 <= i < before.len() && v.len() == n && #[trigger] after[i].contains(v)
                    && !before[i].contains(v);
            if i < before.len() - 1 {
                assert(a0[i].contains(v) && !b0[i].contains(v));
            } else {
                assert(after.last().contains(v) && !before.last().contains(v));
            }
        }
    }
}

} // verus!
