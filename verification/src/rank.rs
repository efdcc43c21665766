//! Stable sorting by a ranking: a strict weak order that each ranked type
//! states and proves.
use vstd::prelude::*;

verus! {

/// A type whose values are put in an order: `ranks_before` is a strict weak
/// order (irreflexive, transitive, and transitive in what it leaves unordered).
pub trait Ranked: Sized {
    spec fn ranks_before(self, other: Self) -> bool;

    proof fn lemma_irreflexive(a: Self)
        ensures
            !a.ranks_before(a),
    ;

    proof fn lemma_transitive(a: Self, b: Self, c: Self)
        requires
            a.ranks_before(b),
            b.ranks_before(c),
        ensures
            a.ranks_before(c),
    ;

    proof fn lemma_negatively_transitive(a: Self, b: Self, c: Self)
        requires
            a.ranks_before(c),
        ensures
            a.ranks_before(b) || b.ranks_before(c),
    ;

    fn goes_before(&self, other: &Self) -> (r: bool)
        ensures
            r == self.ranks_before(*other),
    ;
}

/// No later element ranks before an earlier one.
pub open spec fn sorted_by_rank<T: Ranked>(s: Seq<T>) -> bool {
    forall|i: int, j: int| 0 <= i < j < s.len() ==> !(#[trigger] s[j]).ranks_before(#[trigger] s[i])
}

/// `r` is `v` rearranged by `perm` (`r[k]` is `v[perm[k]]`) into rank order,
/// with elements that rank alike left in their order in `v`.
pub open spec fn stable_arrangement<T: Ranked>(r: Seq<T>, v: Seq<T>, perm: Seq<int>) -> bool {
    &&& r.len() == v.len()
    &&& perm.len() == v.len()
    &&& forall|k: int| 0 <= k < r.len() ==> 0 <= #[trigger] perm[k] < v.len() && r[k] == v[perm[k]]
    &&& forall|a: int, b: int| 0 <= a < b < r.len() ==> #[trigger] perm[a] != #[trigger] perm[b]
    &&& sorted_by_rank(r)
    &&& forall|a: int, b: int|
        0 <= a < b < r.len() && !(#[trigger] r[a]).ranks_before(#[trigger] r[b]) ==> perm[a] < perm[b]
}

/// `r` holds the elements of `v`, stably sorted by rank.
pub open spec fn stably_sorted<T: Ranked>(r: Seq<T>, v: Seq<T>) -> bool {
    exists|perm: Seq<int>| stable_arrangement(r, v, perm)
}

proof fn lemma_not_before<T: Ranked>(r: Seq<T>, x: T, p: int, k: int)
    requires
        sorted_by_rank(r),
        0 <= k < p <= r.len(),
        !x.ranks_before(r[p - 1]),
    ensures
        !x.ranks_before(r[k]),
{
    if k < p - 1 && x.ranks_before(r[k]) {
        T::lemma_negatively_transitive(x, r[p - 1], r[k]);
        assert(!r[p - 1].ranks_before(r[k]));
    }
}

proof fn lemma_asymmetric<T: Ranked>(a: T, b: T)
    requires
        a.ranks_before(b),
    ensures
        !b.ranks_before(a),
{
    if b.ranks_before(a) {
        T::lemma_transitive(a, b, a);
        T::lemma_irreflexive(a);
    }
}

/// Placing `x`, the element of `v` at index `i`, at `p` keeps a stable
/// arrangement of the first `i` elements one of the first `i + 1`.
proof fn lemma_place<T: Ranked>(r: Seq<T>, v: Seq<T>, perm: Seq<int>, i: int, p: int)
    requires
        0 <= i < v.len(),
        stable_arrangement(r, v.take(i), perm),
        0 <= p <= r.len(),
        p > 0 ==> !v[i].ranks_before(r[p - 1]),
        forall|q: int| p <= q < r.len() ==> v[i].ranks_before(#[trigger] r[q]),
    ensures
        stable_arrangement(r.insert(p, v[i]), v.take(i + 1), perm.insert(p, i)),
{
    let x = v[i];
    let nr = r.insert(p, x);
    let np = perm.insert(p, i);
    let t = v.take(i);
    let t1 = v.take(i + 1);
    assert forall|k: int| 0 <= k < nr.len() implies 0 <= #[trigger] np[k] < t1.len() && nr[k] == t1[np[k]] by {
        if k < p {
            assert(nr[k] == r[k] && np[k] == perm[k]);
            assert(t[perm[k]] == t1[perm[k]]);
        } else if k > p {
            assert(nr[k] == r[k - 1] && np[k] == perm[k - 1]);
            assert(t[perm[k - 1]] == t1[perm[k - 1]]);
        }
    }
    assert forall|a: int, b: int| 0 <= a < b < nr.len() implies #[trigger] np[a] != #[trigger] np[b] by {
        if a != p && b != p {
            let a0 = if a < p { a } else { a - 1 };
            let b0 = if b < p { b } else { b - 1 };
            assert(np[a] == perm[a0] && np[b] == perm[b0]);
            assert(perm[a0] != perm[b0]);
        } else if a == p {
            assert(np[b] == perm[b - 1]);
        } else {
            assert(np[a] == perm[a]);
        }
    }
    assert forall|a: int, b: int| 0 <= a < b < nr.len() implies !(#[trigger] nr[b]).ranks_before(#[trigger] nr[a]) by {
        if a != p && b != p {
            let a0 = if a < p { a } else { a - 1 };
            let b0 = if b < p { b } else { b - 1 };
            assert(nr[a] == r[a0] && nr[b] == r[b0]);
        } else if a == p {
            assert(nr[b] == r[b - 1]);
            lemma_asymmetric(x, r[b - 1]);
        } else {
            assert(nr[a] == r[a]);
            lemma_not_before(r, x, p, a);
        }
    }
    assert forall|a: int, b: int|
        0 <= a < b < nr.len() && !(#[trigger] nr[a]).ranks_before(#[trigger] nr[b]) implies np[a] < np[b] by {
        if a != p && b != p {
            let a0 = if a < p { a } else { a - 1 };
            let b0 = if b < p { b } else { b - 1 };
            assert(nr[a] == r[a0] && nr[b] == r[b0]);
            assert(np[a] == perm[a0] && np[b] == perm[b0]);
        } else if a == p {
            assert(nr[b] == r[b - 1]);
        } else {
            assert(np[a] == perm[a]);
        }
    }
}

/// Sorts `v` stably by rank (as `sort_by` does with the matching comparison).
pub fn sort_ranked<T: Ranked>(v: &mut Vec<T>)
    ensures
        stably_sorted(final(v)@, old(v)@),
{
    let ghost orig = v@;
    let mut src: Vec<T> = Vec::new();
    std::mem::swap(v, &mut src);
    let ghost mut perm: Seq<int> = Seq::empty();
    let ghost mut i: int = 0;
    assert(orig.skip(0) =~= orig);
    assert(stable_arrangement(v@, orig.take(0), perm));
    while src.len() > 0
        invariant
            0 <= i <= orig.len(),
            src@ == orig.skip(i),
            stable_arrangement(v@, orig.take(i), perm),
        decreases src.len(),
    {
        let x = src.remove(0);
        assert(x == orig[i]);
        let mut p: usize = v.len();
        while p > 0 && x.goes_before(&v[p - 1])
            invariant
                p <= v.len(),
                forall|q: int| p <= q < v@.len() ==> x.ranks_before(#[trigger] v@[q]),
            decreases p,
        {
            p -= 1;
        }
        proof {
            lemma_place(v@, orig, perm, i, p as int);
            perm = perm.insert(p as int, i);
            i = i + 1;
        }
        v.insert(p, x);
        assert(src@ =~= orig.skip(i));
    }
    proof {
        assert(orig.take(i) =~= orig);
    }
}

} // verus!
