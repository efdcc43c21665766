//! Text-keyed maps held as vectors of pairs in strictly increasing key order,
//! the order of `String`'s `Ord` (code point by code point).
use vstd::prelude::*;

use crate::text::{chars_of, same};

verus! {

/// `a` sorts before `b`.
pub open spec fn seq_lt(a: Seq<char>, b: Seq<char>) -> bool
    decreases a.len(),
{
    if a.len() == 0 {
        b.len() > 0
    } else if b.len() == 0 {
        false
    } else if a[0] != b[0] {
        a[0] < b[0]
    } else {
        seq_lt(a.drop_first(), b.drop_first())
    }
}

pub proof fn lemma_lt_irreflexive(a: Seq<char>)
    ensures
        !seq_lt(a, a),
    decreases a.len(),
{
    if a.len() > 0 {
        lemma_lt_irreflexive(a.drop_first());
    }
}

pub proof fn lemma_lt_total(a: Seq<char>, b: Seq<char>)
    ensures
        seq_lt(a, b) || a == b || seq_lt(b, a),
        !(seq_lt(a, b) && seq_lt(b, a)),
    decreases a.len(),
{
    if a.len() > 0 && b.len() > 0 {
        if a[0] == b[0] {
            lemma_lt_total(a.drop_first(), b.drop_first());
            if a.drop_first() == b.drop_first() {
                assert(a =~= seq![a[0]] + a.drop_first());
                assert(b =~= seq![b[0]] + b.drop_first());
            }
        }
    } else if a.len() == 0 && b.len() == 0 {
        assert(a =~= b);
    }
}

pub proof fn lemma_lt_transitive(a: Seq<char>, b: Seq<char>, c: Seq<char>)
    requires
        seq_lt(a, b),
        seq_lt(b, c),
    ensures
        seq_lt(a, c),
    decreases a.len(),
{
    if a.len() > 0 && b.len() > 0 && c.len() > 0 {
        if a[0] == b[0] && b[0] == c[0] {
            lemma_lt_transitive(a.drop_first(), b.drop_first(), c.drop_first());
        }
    }
}

/// Two sequences of texts, each in strictly increasing order, that hold the
/// same texts are equal.
pub proof fn lemma_sorted_texts_equal(a: Seq<Seq<char>>, b: Seq<Seq<char>>)
    requires
        forall|i: int, j: int| 0 <= i < j < a.len() ==> seq_lt(a[i], a[j]),
        forall|i: int, j: int| 0 <= i < j < b.len() ==> seq_lt(b[i], b[j]),
        forall|i: int| 0 <= i < a.len() ==> b.contains(#[trigger] a[i]),
        forall|j: int| 0 <= j < b.len() ==> a.contains(#[trigger] b[j]),
    ensures
        a == b,
    decreases a.len() + b.len(),
{
    if a.len() == 0 {
        if b.len() > 0 {
            assert(a.contains(b[0]));
        }
        assert(a =~= b);
    } else if b.len() == 0 {
        assert(b.contains(a[0]));
    } else {
        let x = a.last();
        let y = b.last();
        assert(b.contains(a[a.len() - 1]));
        assert(a.contains(b[b.len() - 1]));
        let jx = choose|j: int| 0 <= j < b.len() && b[j] == x;
        let iy = choose|i: int| 0 <= i < a.len() && a[i] == y;
        lemma_lt_total(x, y);
        if seq_lt(x, y) {
            if iy < a.len() - 1 {
                assert(seq_lt(a[iy], x));
                lemma_lt_transitive(y, x, y);
            }
            lemma_lt_irreflexive(y);
        } else if seq_lt(y, x) {
            if jx < b.len() - 1 {
                assert(seq_lt(b[jx], y));
                lemma_lt_transitive(x, y, x);
            }
            lemma_lt_irreflexive(x);
        }
        let pa = a.drop_last();
        let pb = b.drop_last();
        assert forall|i: int| 0 <= i < pa.len() implies pb.contains(#[trigger] pa[i]) by {
            assert(a[i] == pa[i]);
            assert(b.contains(a[i]));
            let j = choose|j: int| 0 <= j < b.len() && b[j] == a[i];
            assert(seq_lt(a[i], x));
            if j == b.len() - 1 {
                lemma_lt_irreflexive(x);
            }
            assert(pb[j] == b[j]);
        }
        assert forall|j: int| 0 <= j < pb.len() implies pa.contains(#[trigger] pb[j]) by {
            assert(b[j] == pb[j]);
            assert(a.contains(b[j]));
            let i = choose|i: int| 0 <= i < a.len() && a[i] == b[j];
            assert(seq_lt(b[j], y));
            if i == a.len() - 1 {
                lemma_lt_irreflexive(y);
            }
            assert(pa[i] == a[i]);
        }
        lemma_sorted_texts_equal(pa, pb);
        assert(a =~= pa.push(x));
        assert(b =~= pb.push(y));
    }
}

/// Compares two texts in `String` order.
pub fn less(a: &str, b: &str) -> (r: bool)
    ensures
        r == seq_lt(a@, b@),
{
    let x = chars_of(a);
    let y = chars_of(b);
    let mut i: usize = 0;
    assert(x@.skip(0) =~= x@);
    assert(y@.skip(0) =~= y@);
    while i < x.len() && i < y.len()
        invariant
            i <= x.len(),
            i <= y.len(),
            seq_lt(a@, b@) == seq_lt(x@.skip(i as int), y@.skip(i as int)),
            x@ == a@,
            y@ == b@,
        decreases x.len() - i,
    {
        assert(x@.skip(i as int)[0] == x@[i as int]);
        assert(y@.skip(i as int)[0] == y@[i as int]);
        if x[i] != y[i] {
            return x[i] < y[i];
        }
        assert(x@.skip(i as int).drop_first() =~= x@.skip(i + 1));
        assert(y@.skip(i as int).drop_first() =~= y@.skip(i + 1));
        i += 1;
    }
    i < y.len()
}

/// The keys are in strictly increasing order.
pub open spec fn sorted_keys(v: Seq<(String, String)>) -> bool {
    forall|i: int, j: int| 0 <= i < j < v.len() ==> seq_lt(v[i].0@, v[j].0@)
}

/// The value held for `k`.
pub open spec fn lookup(v: Seq<(String, String)>, k: Seq<char>) -> Option<Seq<char>>
    decreases v.len(),
{
    if v.len() == 0 {
        None
    } else if v.last().0@ == k {
        Some(v.last().1@)
    } else {
        lookup(v.drop_last(), k)
    }
}

pub proof fn lemma_lookup_at(v: Seq<(String, String)>, idx: int)
    requires
        sorted_keys(v),
        0 <= idx < v.len(),
    ensures
        lookup(v, v[idx].0@) == Some(v[idx].1@),
    decreases v.len(),
{
    if idx < v.len() - 1 {
        assert(seq_lt(v[idx].0@, v[v.len() - 1].0@));
        lemma_lt_irreflexive(v[idx].0@);
        let w = v.drop_last();
        assert(sorted_keys(w)) by {
            assert forall|i: int, j: int| 0 <= i < j < w.len() implies seq_lt(w[i].0@, w[j].0@) by {
                assert(w[i] == v[i] && w[j] == v[j]);
            }
        }
        assert(w[idx] == v[idx]);
        lemma_lookup_at(w, idx);
    }
}

pub proof fn lemma_lookup_none(v: Seq<(String, String)>, k: Seq<char>)
    requires
        forall|i: int| 0 <= i < v.len() ==> v[i].0@ != k,
    ensures
        lookup(v, k) is None,
    decreases v.len(),
{
    if v.len() > 0 {
        assert(v.last() == v[v.len() - 1]);
        let w = v.drop_last();
        assert forall|i: int| 0 <= i < w.len() implies w[i].0@ != k by {
            assert(w[i] == v[i]);
        }
        lemma_lookup_none(w, k);
    }
}

/// What `lookup` gives, for a vector whose keys are in order: the value at the
/// index that holds `k`, if one does.
pub proof fn lemma_lookup(v: Seq<(String, String)>, k: Seq<char>)
    requires
        sorted_keys(v),
    ensures
        (exists|i: int| 0 <= i < v.len() && v[i].0@ == k) ==> lookup(v, k) == Some(
            v[choose|i: int| 0 <= i < v.len() && v[i].0@ == k].1@,
        ),
        !(exists|i: int| 0 <= i < v.len() && v[i].0@ == k) ==> lookup(v, k) is None,
{
    if exists|i: int| 0 <= i < v.len() && v[i].0@ == k {
        let i = choose|i: int| 0 <= i < v.len() && v[i].0@ == k;
        lemma_lookup_at(v, i);
    } else {
        lemma_lookup_none(v, k);
    }
}

/// The keys and values of a list of pairs, as texts.
pub open spec fn entry_views(v: Seq<(String, String)>) -> Seq<(Seq<char>, Seq<char>)> {
    v.map_values(|p: (String, String)| (p.0@, p.1@))
}

/// Two lists with keys in strictly increasing order that hold the same value
/// for every key are equal, key for key and value for value.
pub proof fn lemma_same_lookups(a: Seq<(String, String)>, b: Seq<(String, String)>)
    requires
        sorted_keys(a),
        sorted_keys(b),
        forall|k: Seq<char>| #[trigger] lookup(a, k) == lookup(b, k),
    ensures
        entry_views(a) == entry_views(b),
{
    let ka = a.map_values(|p: (String, String)| p.0@);
    let kb = b.map_values(|p: (String, String)| p.0@);
    assert forall|i: int| 0 <= i < ka.len() implies kb.contains(#[trigger] ka[i]) by {
        lemma_lookup_at(a, i);
        assert(lookup(b, a[i].0@) is Some);
        if !(exists|j: int| 0 <= j < b.len() && b[j].0@ == a[i].0@) {
            lemma_lookup_none(b, a[i].0@);
        }
        let j = choose|j: int| 0 <= j < b.len() && b[j].0@ == a[i].0@;
        assert(kb[j] == ka[i]);
    }
    assert forall|j: int| 0 <= j < kb.len() implies ka.contains(#[trigger] kb[j]) by {
        lemma_lookup_at(b, j);
        assert(lookup(a, b[j].0@) is Some);
        if !(exists|i: int| 0 <= i < a.len() && a[i].0@ == b[j].0@) {
            lemma_lookup_none(a, b[j].0@);
        }
        let i = choose|i: int| 0 <= i < a.len() && a[i].0@ == b[j].0@;
        assert(ka[i] == kb[j]);
    }
    assert forall|i: int, j: int| 0 <= i < j < ka.len() implies seq_lt(ka[i], ka[j]) by {
        assert(seq_lt(a[i].0@, a[j].0@));
    }
    assert forall|i: int, j: int| 0 <= i < j < kb.len() implies seq_lt(kb[i], kb[j]) by {
        assert(seq_lt(b[i].0@, b[j].0@));
    }
    lemma_sorted_texts_equal(ka, kb);
    assert forall|i: int| 0 <= i < a.len() implies #[trigger] entry_views(a)[i] == entry_views(b)[i] by {
        assert(ka[i] == kb[i]);
        lemma_lookup_at(a, i);
        lemma_lookup_at(b, i);
    }
    assert(entry_views(a) =~= entry_views(b));
}

/// The value held for `key`.
pub fn get(v: &Vec<(String, String)>, key: &str) -> (r: Option<String>)
    requires
        sorted_keys(v@),
    ensures
        match r {
            Some(s) => lookup(v@, key@) == Some(s@),
            None => lookup(v@, key@) is None,
        },
{
    let mut i: usize = 0;
    while i < v.len()
        invariant
            i <= v.len(),
            sorted_keys(v@),
            forall|k: int| 0 <= k < i ==> v@[k].0@ != key@,
        decreases v.len() - i,
    {
        if same(&chars_of(v[i].0.as_str()), &chars_of(key)) {
            proof {
                lemma_lookup_at(v@, i as int);
                assert(v@[i as int].0@ == key@);
            }
            return Some(v[i].1.clone());
        }
        i += 1;
    }
    proof {
        lemma_lookup_none(v@, key@);
    }
    None
}

/// Sets the value for `key`, keeping the keys in order.
pub fn insert(v: &mut Vec<(String, String)>, key: String, value: String)
    requires
        sorted_keys(old(v)@),
    ensures
        sorted_keys(final(v)@),
        forall|k: Seq<char>| #[trigger] lookup(final(v)@, k) == if k == key@ {
            Some(value@)
        } else {
            lookup(old(v)@, k)
        },
{
    let ghost old_v = v@;
    let mut i: usize = 0;
    while i < v.len()
        invariant
            i <= v.len(),
            v@ == old_v,
            sorted_keys(old_v),
            forall|k: int| 0 <= k < i ==> seq_lt(#[trigger] v@[k].0@, key@),
        ensures
            i <= v.len(),
            v@ == old_v,
            forall|k: int| 0 <= k < i ==> seq_lt(#[trigger] v@[k].0@, key@),
            i < v.len() ==> !seq_lt(v@[i as int].0@, key@),
        decreases v.len() - i,
    {
        if !less(v[i].0.as_str(), key.as_str()) {
            break;
        }
        i += 1;
    }
    proof {
        if i < v.len() {
            lemma_lt_total(v@[i as int].0@, key@);
        }
    }
    if i < v.len() && same(&chars_of(v[i].0.as_str()), &chars_of(key.as_str())) {
        let ghost kk = v@[i as int].0;
        v.set(i, (key, value));
        proof {
            assert forall|a: int| 0 <= a < v@.len() implies #[trigger] v@[a].0@ == old_v[a].0@ by {
                if a != i {
                    assert(v@[a] == old_v[a]);
                }
            }
            assert forall|a: int, b: int| 0 <= a < b < v@.len() implies seq_lt(
                v@[a].0@,
                v@[b].0@,
            ) by {
                assert(old_v[a].0@ == v@[a].0@ || a == i);
                assert(old_v[b].0@ == v@[b].0@ || b == i);
            }
            assert forall|k: Seq<char>| #[trigger] lookup(v@, k) == if k == key@ {
                Some(value@)
            } else {
                lookup(old_v, k)
            } by {
                lemma_lookup_at(v@, i as int);
                if k != key@ {
                    if exists|j: int| 0 <= j < v@.len() && v@[j].0@ == k {
                        let j = choose|j: int| 0 <= j < v@.len() && v@[j].0@ == k;
                        assert(j != i);
                        assert(v@[j] == old_v[j]);
                        lemma_lookup_at(v@, j);
                        lemma_lookup_at(old_v, j);
                    } else {
                        lemma_lookup_none(v@, k);
                        assert forall|j: int| 0 <= j < old_v.len() implies old_v[j].0@ != k by {
                            assert(v@[j].0@ == old_v[j].0@);
                        }
                        lemma_lookup_none(old_v, k);
                    }
                }
            }
        }
    } else {
        let ghost kv = key@;
        let ghost vv = value@;
        v.insert(i, (key, value));
        proof {
            assert(v@ =~= old_v.take(i as int).push((v@[i as int].0, v@[i as int].1)) + old_v.skip(
                i as int,
            ));
            assert forall|k: int| i < k < v@.len() implies seq_lt(kv, #[trigger] v@[k].0@) by {
                assert(v@[k] == old_v[k - 1]);
                if k - 1 > i {
                    assert(seq_lt(old_v[i as int].0@, old_v[k - 1].0@));
                    lemma_lt_transitive(kv, old_v[i as int].0@, old_v[k - 1].0@);
                }
            }
            assert forall|a: int, b: int| 0 <= a < b < v@.len() implies seq_lt(
                v@[a].0@,
                v@[b].0@,
            ) by {
                if a < i && b > i {
                    assert(v@[a] == old_v[a]);
                    lemma_lt_transitive(v@[a].0@, kv, v@[b].0@);
                } else if a < i && b < i {
                    assert(v@[a] == old_v[a] && v@[b] == old_v[b]);
                } else if a > i {
                    assert(v@[a] == old_v[a - 1] && v@[b] == old_v[b - 1]);
                }
            }
            assert forall|k: Seq<char>| #[trigger] lookup(v@, k) == if k == kv {
                Some(vv)
            } else {
                lookup(old_v, k)
            } by {
                lemma_lookup_at(v@, i as int);
                if k != kv {
                    if exists|j: int| 0 <= j < v@.len() && v@[j].0@ == k {
                        let j = choose|j: int| 0 <= j < v@.len() && v@[j].0@ == k;
                        lemma_lookup_at(v@, j);
                        if j < i {
                            assert(v@[j] == old_v[j]);
                            lemma_lookup_at(old_v, j);
                        } else {
                            assert(j > i);
                            assert(v@[j] == old_v[j - 1]);
                            lemma_lookup_at(old_v, j - 1);
                        }
                    } else {
                        lemma_lookup_none(v@, k);
                        assert forall|j: int| 0 <= j < old_v.len() implies old_v[j].0@ != k by {
                            if j < i {
                                assert(v@[j] == old_v[j]);
                            } else {
                                assert(v@[j + 1] == old_v[j]);
                            }
                        }
                        lemma_lookup_none(old_v, k);
                    }
                }
            }
        }
    }
}


/// The value held for `key`, whatever the order of the keys (the last entry for
/// `key` wins).
pub fn get_last(v: &Vec<(String, String)>, key: &str) -> (r: Option<String>)
    ensures
        match r {
            Some(s) => lookup(v@, key@) == Some(s@),
            None => lookup(v@, key@) is None,
        },
{
    let mut i: usize = v.len();
    assert(v@.take(v.len() as int) =~= v@);
    while i > 0
        invariant
            i <= v.len(),
            lookup(v@, key@) == lookup(v@.take(i as int), key@),
        decreases i,
    {
        let ghost t = v@.take(i as int);
        assert(t.last() == v@[i - 1]);
        assert(t.drop_last() =~= v@.take(i - 1));
        if same(&chars_of(v[i - 1].0.as_str()), &chars_of(key)) {
            return Some(v[i - 1].1.clone());
        }
        i -= 1;
    }
    None
}

} // verus!
