//! Gathering values under keys, in key order, as an ordered map from key to
//! the values found under it does.
use vstd::prelude::*;

use crate::assoc::{less, lemma_lt_irreflexive, lemma_lt_total, lemma_lt_transitive, seq_lt};
use crate::text::text_eq;

verus! {

/// A key that values are gathered under: `key_lt` is a strict total order on
/// the classes of `same_key`, which is an equivalence.
pub trait GroupKey: Sized {
    spec fn key_lt(self, other: Self) -> bool;

    spec fn same_key(self, other: Self) -> bool;

    proof fn lemma_key_laws(a: Self, b: Self, c: Self)
        ensures
            !a.key_lt(a),
            a.same_key(a),
            a.same_key(b) ==> b.same_key(a),
            a.key_lt(b) && b.key_lt(c) ==> a.key_lt(c),
            a.key_lt(b) || a.same_key(b) || b.key_lt(a),
            a.same_key(b) ==> !a.key_lt(b),
            a.same_key(b) ==> (a.key_lt(c) == b.key_lt(c) && c.key_lt(a) == c.key_lt(b) && a.same_key(c)
                == b.same_key(c)),
    ;

    fn precedes(&self, other: &Self) -> (r: bool)
        ensures
            r == self.key_lt(*other),
    ;

    fn same_as(&self, other: &Self) -> (r: bool)
        ensures
            r == self.same_key(*other),
    ;
}

impl GroupKey for u64 {
    open spec fn key_lt(self, other: Self) -> bool {
        self < other
    }

    open spec fn same_key(self, other: Self) -> bool {
        self == other
    }

    proof fn lemma_key_laws(a: Self, b: Self, c: Self) {
    }

    fn precedes(&self, other: &Self) -> (r: bool) {
        *self < *other
    }

    fn same_as(&self, other: &Self) -> (r: bool) {
        *self == *other
    }
}

impl GroupKey for u32 {
    open spec fn key_lt(self, other: Self) -> bool {
        self < other
    }

    open spec fn same_key(self, other: Self) -> bool {
        self == other
    }

    proof fn lemma_key_laws(a: Self, b: Self, c: Self) {
    }

    fn precedes(&self, other: &Self) -> (r: bool) {
        *self < *other
    }

    fn same_as(&self, other: &Self) -> (r: bool) {
        *self == *other
    }
}

impl GroupKey for String {
    open spec fn key_lt(self, other: Self) -> bool {
        seq_lt(self@, other@)
    }

    open spec fn same_key(self, other: Self) -> bool {
        self@ == other@
    }

    proof fn lemma_key_laws(a: Self, b: Self, c: Self) {
        lemma_lt_irreflexive(a@);
        lemma_lt_total(a@, b@);
        if seq_lt(a@, b@) && seq_lt(b@, c@) {
            lemma_lt_transitive(a@, b@, c@);
        }
    }

    fn precedes(&self, other: &Self) -> (r: bool) {
        less(self.as_str(), other.as_str())
    }

    fn same_as(&self, other: &Self) -> (r: bool) {
        text_eq(self.as_str(), other.as_str())
    }
}

/// The values gathered under `k`, in the order of `items`.
pub open spec fn members<K: GroupKey, V>(items: Seq<(K, V)>, k: K) -> Seq<V>
    decreases items.len(),
{
    if items.len() == 0 {
        seq![]
    } else {
        members(items.drop_last(), k) + if items.last().0.same_key(k) {
            seq![items.last().1]
        } else {
            seq![]
        }
    }
}

/// Some group has a key equal to `k`.
pub open spec fn has_key<K: GroupKey, V>(groups: Seq<(K, Vec<V>)>, k: K) -> bool {
    exists|i: int| 0 <= i < groups.len() && (#[trigger] groups[i]).0.same_key(k)
}

/// Each key of `items` once, in key order, with the values gathered under it.
pub open spec fn all_groups<K: GroupKey, V>(items: Seq<(K, V)>, groups: Seq<(K, Vec<V>)>) -> bool {
    &&& forall|i: int, j: int| 0 <= i < j < groups.len() ==> (#[trigger] groups[i]).0.key_lt((#[trigger] groups[j]).0)
    &&& forall|i: int| 0 <= i < groups.len() ==> (#[trigger] groups[i]).1@ == members(items, groups[i].0)
    &&& forall|i: int| 0 <= i < groups.len() ==> (#[trigger] groups[i]).1@.len() > 0
    &&& forall|m: int| 0 <= m < items.len() ==> has_key(groups, (#[trigger] items[m]).0)
}

/// A key with something gathered under it is the key of some item.
pub proof fn lemma_members_nonempty<K: GroupKey, V>(items: Seq<(K, V)>, k: K)
    requires
        members(items, k).len() > 0,
    ensures
        exists|m: int| 0 <= m < items.len() && (#[trigger] items[m]).0.same_key(k),
    decreases items.len(),
{
    if items.len() > 0 {
        if items.last().0.same_key(k) {
            assert(items[items.len() - 1].0.same_key(k));
        } else {
            lemma_members_nonempty(items.drop_last(), k);
            let m = choose|m: int| 0 <= m < items.len() - 1 && (#[trigger] items.drop_last()[m]).0.same_key(k);
            assert(items[m] == items.drop_last()[m]);
        }
    }
}

/// Each key under which more than one value is gathered, once, in key order,
/// with those values.
pub open spec fn shared_groups<K: GroupKey, V>(items: Seq<(K, V)>, groups: Seq<(K, Vec<V>)>) -> bool {
    &&& forall|i: int, j: int| 0 <= i < j < groups.len() ==> (#[trigger] groups[i]).0.key_lt((#[trigger] groups[j]).0)
    &&& forall|i: int|
        0 <= i < groups.len() ==> (#[trigger] groups[i]).1@ == members(items, groups[i].0) && groups[i].1@.len() > 1
    &&& forall|m: int| 0 <= m < items.len() && members(items, (#[trigger] items[m]).0).len() > 1 ==> has_key(groups, items[m].0)
}

proof fn lemma_members_same<K: GroupKey, V>(items: Seq<(K, V)>, a: K, b: K)
    requires
        a.same_key(b),
    ensures
        members(items, a) == members(items, b),
    decreases items.len(),
{
    if items.len() > 0 {
        lemma_members_same(items.drop_last(), a, b);
        K::lemma_key_laws(a, b, items.last().0);
        K::lemma_key_laws(items.last().0, a, b);
        K::lemma_key_laws(items.last().0, b, a);
    }
}

proof fn lemma_members_none<K: GroupKey, V>(items: Seq<(K, V)>, k: K)
    requires
        forall|m: int| 0 <= m < items.len() ==> !(#[trigger] items[m]).0.same_key(k),
    ensures
        members(items, k) == Seq::<V>::empty(),
    decreases items.len(),
{
    if items.len() > 0 {
        assert(!items[items.len() - 1].0.same_key(k));
        lemma_members_none(items.drop_last(), k);
    }
}

proof fn lemma_members_push<K: GroupKey, V>(items: Seq<(K, V)>, item: (K, V), k: K)
    ensures
        members(items.push(item), k) == members(items, k) + if item.0.same_key(k) {
            seq![item.1]
        } else {
            seq![]
        },
{
    assert(items.push(item).drop_last() =~= items);
}

proof fn lemma_laws3<K: GroupKey>(a: K, b: K, c: K)
    ensures
        !a.key_lt(a) && !b.key_lt(b) && !c.key_lt(c),
        a.same_key(a) && b.same_key(b) && c.same_key(c),
        a.same_key(b) <==> b.same_key(a),
        a.same_key(c) <==> c.same_key(a),
        b.same_key(c) <==> c.same_key(b),
        a.key_lt(b) || a.same_key(b) || b.key_lt(a),
        a.key_lt(c) || a.same_key(c) || c.key_lt(a),
        b.key_lt(c) || b.same_key(c) || c.key_lt(b),
        a.same_key(b) ==> !a.key_lt(b) && !b.key_lt(a),
        a.same_key(c) ==> !a.key_lt(c) && !c.key_lt(a),
        b.same_key(c) ==> !b.key_lt(c) && !c.key_lt(b),
        a.key_lt(b) && b.key_lt(c) ==> a.key_lt(c),
        a.key_lt(c) && c.key_lt(b) ==> a.key_lt(b),
        b.key_lt(a) && a.key_lt(c) ==> b.key_lt(c),
        b.key_lt(c) && c.key_lt(a) ==> b.key_lt(a),
        c.key_lt(a) && a.key_lt(b) ==> c.key_lt(b),
        c.key_lt(b) && b.key_lt(a) ==> c.key_lt(a),
        a.same_key(b) && b.same_key(c) ==> a.same_key(c),
        a.same_key(b) ==> (a.key_lt(c) == b.key_lt(c) && c.key_lt(a) == c.key_lt(b)),
        a.same_key(c) ==> (a.key_lt(b) == c.key_lt(b) && b.key_lt(a) == b.key_lt(c)),
        b.same_key(c) ==> (b.key_lt(a) == c.key_lt(a) && a.key_lt(b) == a.key_lt(c)),
{
    K::lemma_key_laws(a, b, c);
    K::lemma_key_laws(a, c, b);
    K::lemma_key_laws(b, a, c);
    K::lemma_key_laws(b, c, a);
    K::lemma_key_laws(c, a, b);
    K::lemma_key_laws(c, b, a);
    K::lemma_key_laws(a, a, a);
    K::lemma_key_laws(b, b, b);
    K::lemma_key_laws(c, c, c);
}

/// Adds `p` under `k` to groups that gather `items`.
#[verifier::spinoff_prover]
#[verifier::rlimit(30)]
fn add_member<K: GroupKey, V>(groups: &mut Vec<(K, Vec<V>)>, k: K, p: V, Ghost(items): Ghost<Seq<(K, V)>>)
    requires
        all_groups(items, old(groups)@),
    ensures
        all_groups(items.push((k, p)), final(groups)@),
{
    let ghost item = (k, p);
    let ghost nitems = items.push(item);
    let ghost old_g = groups@;
    let mut i: usize = 0;
    while i < groups.len() && groups[i].0.precedes(&k)
        invariant
            i <= groups.len(),
            groups@ == old_g,
            forall|j: int| 0 <= j < i ==> (#[trigger] old_g[j]).0.key_lt(k),
        decreases groups.len() - i,
    {
        i += 1;
    }
    proof {
        assert forall|g: K| #[trigger] members(nitems, g) == members(items, g) + if k.same_key(g) {
            seq![p]
        } else {
            seq![]
        } by {
            lemma_members_push(items, item, g);
        }
    }
    if i < groups.len() && groups[i].0.same_as(&k) {
        let (key, mut ps) = groups.remove(i);
        let ghost before = ps@;
        ps.push(p);
        assert(ps@ =~= before.push(item.1));
        groups.insert(i, (key, ps));
        proof {
            let g = groups@;
            assert(key == old_g[i as int].0);
            assert(g[i as int] == (key, ps));
            assert forall|x: int| 0 <= x < g.len() && x != i implies #[trigger] g[x] == old_g[x] by {
            }
            assert forall|x: int, y: int| 0 <= x < y < g.len() implies (#[trigger] g[x]).0.key_lt((#[trigger] g[y]).0) by {
                assert(g[x].0 == old_g[x].0 && g[y].0 == old_g[y].0);
            }
            assert forall|x: int| 0 <= x < g.len() implies (#[trigger] g[x]).1@ == members(nitems, g[x].0) by {
                lemma_laws3(old_g[x].0, key, k);
                if x != i {
                    assert(g[x] == old_g[x]);
                    if x < i {
                        assert(old_g[x].0.key_lt(key));
                    } else {
                        assert(key.key_lt(old_g[x].0));
                    }
                    assert(!k.same_key(g[x].0));
                } else {
                    assert(k.same_key(key));
                }
            }
            assert forall|x: int| 0 <= x < g.len() implies (#[trigger] g[x]).1@.len() > 0 by {
                if x != i {
                    assert(g[x] == old_g[x]);
                }
            }
            assert forall|mm: int| 0 <= mm < nitems.len() implies has_key(g, (#[trigger] nitems[mm]).0) by {
                if mm < items.len() {
                    assert(nitems[mm] == items[mm]);
                    let x = choose|x: int| 0 <= x < old_g.len() && (#[trigger] old_g[x]).0.same_key(items[mm].0);
                    assert(g[x].0 == old_g[x].0);
                } else {
                    assert(nitems[mm].0 == k);
                    assert(g[i as int].0.same_key(k));
                }
            }
            assert(all_groups(nitems, g));
        }
    } else {
        let mut ps: Vec<V> = Vec::new();
        let ghost pv = p;
        ps.push(p);
        assert(ps@ =~= seq![pv]);
        let ghost entry = (k, ps);
        groups.insert(i, (k, ps));
        proof {
            lemma_new_group(items, old_g, k, pv, i as int, entry, groups@);
        }
    }
}

/// Adding a group for a key that has none, at its place in key order, keeps
/// the groups those of the items with the new one.
proof fn lemma_new_group<K: GroupKey, V>(
    items: Seq<(K, V)>,
    old_g: Seq<(K, Vec<V>)>,
    k: K,
    pv: V,
    i: int,
    entry: (K, Vec<V>),
    g: Seq<(K, Vec<V>)>,
)
    requires
        all_groups(items, old_g),
        0 <= i <= old_g.len(),
        forall|j: int| 0 <= j < i ==> (#[trigger] old_g[j]).0.key_lt(k),
        i < old_g.len() ==> !old_g[i].0.key_lt(k) && !old_g[i].0.same_key(k),
        entry.0 == k,
        entry.1@ == seq![pv],
        g == old_g.insert(i, entry),
    ensures
        all_groups(items.push((k, pv)), g),
{
    let nitems = items.push((k, pv));
    assert forall|gk: K| #[trigger] members(nitems, gk) == members(items, gk) + if k.same_key(gk) {
        seq![pv]
    } else {
        seq![]
    } by {
        lemma_members_push(items, (k, pv), gk);
    }
    assert forall|m: int| 0 <= m < items.len() implies !(#[trigger] items[m]).0.same_key(k) by {
        let x = choose|x: int| 0 <= x < old_g.len() && (#[trigger] old_g[x]).0.same_key(items[m].0);
        lemma_laws3(old_g[x].0, items[m].0, k);
        if items[m].0.same_key(k) {
            assert(old_g[x].0.same_key(k));
            if x < i {
                assert(old_g[x].0.key_lt(k));
            } else if x == i {
                assert(!old_g[i as int].0.same_key(k));
            } else {
                lemma_laws3(k, old_g[i as int].0, old_g[x].0);
                assert(old_g[i as int].0.key_lt(old_g[x].0));
                assert(!old_g[i as int].0.key_lt(k));
            }
        }
    }
    lemma_members_none(items, k);
    K::lemma_key_laws(k, k, k);
    if i < old_g.len() {
        K::lemma_key_laws(k, old_g[i as int].0, k);
        K::lemma_key_laws(old_g[i as int].0, k, old_g[i as int].0);
    }
    assert forall|x: int, y: int| 0 <= x < y < g.len() implies (#[trigger] g[x]).0.key_lt((#[trigger] g[y]).0) by {
        if x < i && y == i {
        } else if x < i && y > i {
            assert(g[y] == old_g[y - 1]);
            K::lemma_key_laws(old_g[x].0, k, old_g[y - 1].0);
            if y - 1 > i {
                K::lemma_key_laws(k, old_g[i as int].0, old_g[y - 1].0);
            }
        } else if x == i {
            assert(g[y] == old_g[y - 1]);
            if y - 1 > i {
                K::lemma_key_laws(k, old_g[i as int].0, old_g[y - 1].0);
            }
        } else if x > i {
            assert(g[x] == old_g[x - 1] && g[y] == old_g[y - 1]);
        } else {
            assert(g[x] == old_g[x] && g[y] == old_g[y]);
        }
    }
    assert forall|x: int| 0 <= x < g.len() implies (#[trigger] g[x]).1@ == members(nitems, g[x].0) by {
        if x == i {
            K::lemma_key_laws(k, k, k);
            assert(members(items, k) + seq![pv] =~= seq![pv]);
        } else {
            let x0 = if x < i { x } else { x - 1 };
            assert(g[x] == old_g[x0]);
            K::lemma_key_laws(k, old_g[x0].0, k);
            K::lemma_key_laws(old_g[x0].0, k, old_g[x0].0);
            if x0 >= i && x0 > i {
                K::lemma_key_laws(k, old_g[i as int].0, old_g[x0].0);
            }
            assert(!k.same_key(old_g[x0].0));
        }
    }
    assert forall|x: int| 0 <= x < g.len() implies (#[trigger] g[x]).1@.len() > 0 by {
        if x < i {
            assert(g[x] == old_g[x]);
        } else if x > i {
            assert(g[x] == old_g[x - 1]);
        }
    }
    assert forall|m: int| 0 <= m < nitems.len() implies has_key(g, (#[trigger] nitems[m]).0) by {
        if m < items.len() {
            assert(nitems[m] == items[m]);
            let x = choose|x: int| 0 <= x < old_g.len() && (#[trigger] old_g[x]).0.same_key(items[m].0);
            if x < i {
                assert(g[x] == old_g[x]);
            } else {
                assert(g[x + 1] == old_g[x]);
            }
        } else {
            assert(g[i as int].0 == k);
            K::lemma_key_laws(k, k, k);
        }
    }
}

/// Gathers the values of `items` (key, value) under their keys, in key order.
pub fn group_all<K: GroupKey, V>(items: Vec<(K, V)>) -> (r: Vec<(K, Vec<V>)>)
    ensures
        all_groups(items@, r@),
{
    let ghost all = items@;
    let mut groups: Vec<(K, Vec<V>)> = Vec::new();
    let mut rest = items;
    let ghost mut m: int = 0;
    assert(all.skip(0) =~= all);
    while rest.len() > 0
        invariant
            0 <= m <= all.len(),
            rest@ == all.skip(m),
            all_groups(all.take(m), groups@),
        decreases rest.len(),
    {
        let (k, p) = rest.remove(0);
        assert(all[m] == (k, p));
        assert(all.take(m).push((k, p)) =~= all.take(m + 1));
        add_member(&mut groups, k, p, Ghost(all.take(m)));
        proof {
            m = m + 1;
        }
        assert(rest@ =~= all.skip(m));
    }
    assert(all.take(m) =~= all);
    groups
}

/// Gathers the values of `items` (key, value) under their keys and keeps the
/// keys with more than one value, in key order.
pub fn group_shared<K: GroupKey, V>(items: Vec<(K, V)>) -> (r: Vec<(K, Vec<V>)>)
    ensures
        shared_groups(items@, r@),
{
    let ghost all = items@;
    let mut groups = group_all(items);
    let ghost g = groups@;
    let mut out: Vec<(K, Vec<V>)> = Vec::new();
    let ghost mut taken: int = 0;
    let ghost mut origin: Seq<int> = Seq::empty();
    assert(g.skip(0) =~= g);
    while groups.len() > 0
        invariant
            0 <= taken <= g.len(),
            groups@ == g.skip(taken),
            all_groups(all, g),
            origin.len() == out@.len(),
            forall|x: int| 0 <= x < out@.len() ==> 0 <= #[trigger] origin[x] < taken && out@[x] == g[origin[x]],
            forall|x: int, y: int| 0 <= x < y < out@.len() ==> #[trigger] origin[x] < #[trigger] origin[y],
            forall|x: int| 0 <= x < out@.len() ==> (#[trigger] out@[x]).1@.len() > 1,
            forall|z: int| 0 <= z < taken && (#[trigger] g[z]).1@.len() > 1 ==> exists|x: int|
                0 <= x < out@.len() && #[trigger] origin[x] == z,
        decreases groups.len(),
    {
        let e = groups.remove(0);
        assert(e == g[taken]);
        let ghost old_origin = origin;
        let ghost old_len = out@.len();
        if e.1.len() > 1 {
            out.push(e);
            proof {
                origin = origin.push(taken);
                assert(origin[old_len as int] == taken);
            }
        }
        proof {
            assert forall|z: int| 0 <= z < taken + 1 && (#[trigger] g[z]).1@.len() > 1 implies exists|x: int|
                0 <= x < out@.len() && #[trigger] origin[x] == z by {
                if z < taken {
                    let x = choose|x: int| 0 <= x < old_len && #[trigger] old_origin[x] == z;
                    assert(origin[x] == old_origin[x]);
                } else {
                    assert(origin[old_len as int] == z);
                }
            }
            taken = taken + 1;
        }
        assert(groups@ =~= g.skip(taken));
    }
    proof {
        let o = out@;
        assert forall|x: int, y: int| 0 <= x < y < o.len() implies (#[trigger] o[x]).0.key_lt((#[trigger] o[y]).0) by {
            assert(origin[x] < origin[y]);
            assert(g[origin[x]].0.key_lt(g[origin[y]].0));
        }
        assert forall|x: int| 0 <= x < o.len() implies (#[trigger] o[x]).1@ == members(all, o[x].0) && o[x].1@.len() > 1 by {
            assert(o[x] == g[origin[x]]);
        }
        assert forall|mm: int| 0 <= mm < all.len() && members(all, (#[trigger] all[mm]).0).len() > 1 implies has_key(o, all[mm].0) by {
            let z = choose|z: int| 0 <= z < g.len() && (#[trigger] g[z]).0.same_key(all[mm].0);
            lemma_members_same(all, g[z].0, all[mm].0);
            let x = choose|x: int| 0 <= x < o.len() && #[trigger] origin[x] == z;
            assert(o[x] == g[z]);
        }
    }
    out
}

} // verus!
