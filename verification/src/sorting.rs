//! Stable sorting by a strict weak order.
use vstd::prelude::*;

verus! {

/// A strict weak order: `before(a, b)` says `a` sorts strictly ahead of `b`, and
/// elements where neither is before the other are ties.
pub trait StrictOrder: Sized {
    spec fn before(a: Self, b: Self) -> bool;

    proof fn lemma_irreflexive(a: Self)
        ensures
            !Self::before(a, a),
    ;

    proof fn lemma_transitive(a: Self, b: Self, c: Self)
        requires
            Self::before(a, b),
            Self::before(b, c),
        ensures
            Self::before(a, c),
    ;

    /// Whatever sorts ahead of `b` sorts ahead of everything `b` is not behind.
    proof fn lemma_neg_transitive(a: Self, b: Self, c: Self)
        requires
            Self::before(a, b),
            !Self::before(c, b),
        ensures
            Self::before(a, c),
    ;

    fn precedes(&self, other: &Self) -> (r: bool)
        ensures
            r == Self::before(*self, *other),
    ;
}

/// `perm` maps each position of `out` to the position of `input` its element came from.
pub open spec fn is_permutation_of<T>(out: Seq<T>, input: Seq<T>, perm: Seq<int>) -> bool {
    &&& perm.len() == out.len() == input.len()
    &&& forall|k: int| 0 <= k < out.len() ==> 0 <= #[trigger] perm[k] < input.len() && out[k] == input[perm[k]]
    &&& forall|k: int, l: int| 0 <= k < l < out.len() ==> perm[k] != perm[l]
}

pub open spec fn is_sorted_by<T: StrictOrder>(s: Seq<T>) -> bool {
    forall|k: int, l: int| 0 <= k < l < s.len() ==> !T::before(#[trigger] s[l], #[trigger] s[k])
}

/// `out` is `input` sorted, with ties kept in their input order.
pub open spec fn is_stable_sort_of<T: StrictOrder>(out: Seq<T>, input: Seq<T>, perm: Seq<int>) -> bool {
    &&& is_permutation_of(out, input, perm)
    &&& is_sorted_by(out)
    &&& forall|k: int, l: int|
        0 <= k < l < out.len() && !T::before(#[trigger] out[k], #[trigger] out[l]) ==> perm[k] < perm[l]
}

/// Sorts by insertion: each element goes after every element it does not sort ahead of.
pub fn stable_sort<T: StrictOrder>(v: Vec<T>) -> (r: Vec<T>)
    ensures
        exists|perm: Seq<int>| is_stable_sort_of(r@, v@, perm),
{
    let ghost input = v@;
    let total: usize = v.len();
    assert(input.len() == total);
    let mut rest = v;
    let mut out: Vec<T> = Vec::new();
    let ghost mut perm: Seq<int> = Seq::empty();
    let mut i: usize = 0;
    while rest.len() > 0
        invariant
            input.len() <= usize::MAX,
            i + rest@.len() == input.len(),
            rest@ == input.skip(i as int),
            out@.len() == i,
            perm.len() == i,
            forall|k: int| 0 <= k < i ==> 0 <= #[trigger] perm[k] < i && out@[k] == input[perm[k]],
            forall|k: int, l: int| 0 <= k < l < i ==> perm[k] != perm[l],
            is_sorted_by(out@),
            forall|k: int, l: int|
                0 <= k < l < i && !T::before(#[trigger] out@[k], #[trigger] out@[l]) ==> perm[k] < perm[l],
        decreases rest@.len(),
    {
        let x = rest.remove(0);
        assert(x == input[i as int]);
        let mut p: usize = 0;
        while p < out.len() && !x.precedes(&out[p])
            invariant
                p <= out@.len(),
                forall|k: int| 0 <= k < p ==> !T::before(x, #[trigger] out@[k]),
            decreases out@.len() - p,
        {
            p = p + 1;
        }
        let ghost old_out = out@;
        let ghost old_perm = perm;
        proof {
            assert forall|l: int| p <= l < old_out.len() implies T::before(x, #[trigger] old_out[l]) by {
                if l > p {
                    assert(!T::before(old_out[l], old_out[p as int]));
                    T::lemma_neg_transitive(x, old_out[p as int], old_out[l]);
                }
            }
        }
        out.insert(p, x);
        proof {
            perm = old_perm.insert(p as int, i as int);
            assert forall|l: int| p < l < out@.len() implies !T::before(#[trigger] out@[l], x) by {
                assert(out@[l] == old_out[l - 1]);
                assert(T::before(x, old_out[l - 1]));
                if T::before(old_out[l - 1], x) {
                    T::lemma_transitive(x, old_out[l - 1], x);
                    T::lemma_irreflexive(x);
                }
            }
            assert forall|k: int, l: int| 0 <= k < l < out@.len() implies !T::before(
                #[trigger] out@[l],
                #[trigger] out@[k],
            ) by {
                if l < p {
                } else if l == p {
                    assert(out@[k] == old_out[k]);
                } else if k < p {
                    assert(out@[k] == old_out[k]);
                    assert(out@[l] == old_out[l - 1]);
                } else if k == p {
                } else {
                    assert(out@[k] == old_out[k - 1]);
                    assert(out@[l] == old_out[l - 1]);
                }
            }
            assert forall|k: int| 0 <= k < i + 1 implies 0 <= #[trigger] perm[k] < i + 1 && out@[k]
                == input[perm[k]] by {
                if k < p {
                    assert(out@[k] == old_out[k]);
                } else if k > p {
                    assert(out@[k] == old_out[k - 1]);
                }
            }
            assert forall|k: int, l: int|
                0 <= k < l < i + 1 && !T::before(#[trigger] out@[k], #[trigger] out@[l]) implies perm[k]
                < perm[l] by {
                if l < p {
                } else if l == p {
                    assert(out@[k] == old_out[k]);
                } else if k < p {
                    assert(out@[k] == old_out[k]);
                    assert(out@[l] == old_out[l - 1]);
                } else if k == p {
                    assert(out@[l] == old_out[l - 1]);
                } else {
                    assert(out@[k] == old_out[k - 1]);
                    assert(out@[l] == old_out[l - 1]);
                }
            }
            assert(rest@ =~= input.skip(i as int + 1));
        }
        i = i + 1;
    }
    assert(is_stable_sort_of(out@, input, perm));
    out
}

} // verus!
