//! Paths as text. A path is a string; its components are the pieces between
//! `/` separators, with empty pieces and `.` pieces left out, so `a//b/./c/`
//! and `a/b/c` have the same components. Absolute paths start with `/`.
use vstd::prelude::*;

use crate::assoc::{lemma_lt_total, lemma_lt_transitive, less, seq_lt};
use crate::text::{
    chars_of, rfind_sub, same, slice, split, split_by, string_of, CharClass,
};

verus! {

pub open spec fn is_absolute(p: Seq<char>) -> bool {
    p.len() > 0 && p[0] == '/'
}

/// The pieces that name something: neither empty nor `.`.
pub open spec fn keep_named(ps: Seq<Seq<char>>) -> Seq<Seq<char>>
    decreases ps.len(),
{
    if ps.len() == 0 {
        seq![]
    } else if ps.last().len() == 0 || ps.last() == seq!['.'] {
        keep_named(ps.drop_last())
    } else {
        keep_named(ps.drop_last()).push(ps.last())
    }
}

/// The components of a path.
pub open spec fn components(p: Seq<char>) -> Seq<Seq<char>> {
    keep_named(split_by(p, CharClass::Is('/')))
}

/// The parts joined with `sep` between them.
pub open spec fn join_with(parts: Seq<Seq<char>>, sep: Seq<char>) -> Seq<char>
    decreases parts.len(),
{
    if parts.len() == 0 {
        seq![]
    } else if parts.len() == 1 {
        parts[0]
    } else {
        join_with(parts.drop_last(), sep) + sep + parts.last()
    }
}

/// `base.join(name)`: an absolute `name` replaces `base`; otherwise a separator is
/// put between them unless `base` is empty or already ends with one.
pub open spec fn join(base: Seq<char>, name: Seq<char>) -> Seq<char> {
    if is_absolute(name) {
        name
    } else if base.len() == 0 || base.last() == '/' {
        base + name
    } else {
        base + seq!['/'] + name
    }
}

/// The last component, unless it is `..` or there is none.
pub open spec fn file_name(p: Seq<char>) -> Option<Seq<char>> {
    let cs = components(p);
    if cs.len() == 0 || cs.last() == seq!['.', '.'] {
        None
    } else {
        Some(cs.last())
    }
}

/// The text after the last dot of the file name, where that dot is not its first character.
pub open spec fn extension(p: Seq<char>) -> Option<Seq<char>> {
    match file_name(p) {
        Some(n) => match rfind_sub(n, seq!['.']) {
            Some(i) => if i == 0 {
                None
            } else {
                Some(n.skip(i + 1))
            },
            None => None,
        },
        None => None,
    }
}

/// The path made of the given components, absolute or not.
pub open spec fn assemble(absolute: bool, cs: Seq<Seq<char>>) -> Seq<char> {
    if absolute {
        seq!['/'] + join_with(cs, seq!['/'])
    } else {
        join_with(cs, seq!['/'])
    }
}

/// The path without its last component, or `None` where there is no component.
pub open spec fn parent(p: Seq<char>) -> Option<Seq<char>> {
    let cs = components(p);
    if cs.len() == 0 {
        None
    } else {
        Some(assemble(is_absolute(p), cs.drop_last()))
    }
}

/// The path itself, then its parent, its parent's parent, and so on.
pub open spec fn ancestors(p: Seq<char>) -> Seq<Seq<char>> {
    let cs = components(p);
    seq![p] + Seq::new(cs.len(), |i: int| assemble(is_absolute(p), cs.take(cs.len() - 1 - i)))
}

/// `p` relative to `base`, where `base` names `p` or a directory above it.
pub open spec fn strip_prefix(p: Seq<char>, base: Seq<char>) -> Option<Seq<char>> {
    let cp = components(p);
    let cb = components(base);
    if is_absolute(p) == is_absolute(base) && cb.len() <= cp.len() && cp.take(cb.len() as int)
        == cb {
        Some(join_with(cp.skip(cb.len() as int), seq!['/']))
    } else {
        None
    }
}

/// Two paths with the same components.
pub open spec fn same_path(a: Seq<char>, b: Seq<char>) -> bool {
    is_absolute(a) == is_absolute(b) && components(a) == components(b)
}

pub fn keep_named_of(ps: &Vec<Vec<char>>) -> (out: Vec<Vec<char>>)
    ensures
        out@.map_values(|p: Vec<char>| p@) == keep_named(ps@.map_values(|p: Vec<char>| p@)),
{
    let ghost pv = ps@.map_values(|p: Vec<char>| p@);
    let mut out: Vec<Vec<char>> = Vec::new();
    let mut i: usize = 0;
    while i < ps.len()
        invariant
            i <= ps.len(),
            pv == ps@.map_values(|p: Vec<char>| p@),
            out@.map_values(|p: Vec<char>| p@) == keep_named(pv.take(i as int)),
        decreases ps.len() - i,
    {
        assert(pv.take(i + 1).drop_last() =~= pv.take(i as int));
        assert(pv.take(i + 1).last() == ps@[i as int]@);
        let is_dot = ps[i].len() == 1 && ps[i][0] == '.';
        assert(is_dot == (ps@[i as int]@ == seq!['.'])) by {
            if ps@[i as int]@ == seq!['.'] {
                assert(ps@[i as int]@[0] == '.');
            }
            if is_dot {
                assert(ps@[i as int]@ =~= seq!['.']);
            }
        }
        if ps[i].len() > 0 && !is_dot {
            let ghost before = out@.map_values(|p: Vec<char>| p@);
            out.push(ps[i].clone());
            assert(out@.map_values(|p: Vec<char>| p@) =~= before.push(ps@[i as int]@));
        }
        i += 1;
    }
    assert(pv.take(ps.len() as int) =~= pv);
    out
}

/// The components of a path.
pub fn components_of(p: &Vec<char>) -> (out: Vec<Vec<char>>)
    ensures
        out@.map_values(|c: Vec<char>| c@) == components(p@),
{
    let pieces = split(p, CharClass::Is('/'));
    keep_named_of(&pieces)
}

/// The parts joined with `sep`.
pub fn join_parts(parts: &Vec<Vec<char>>, from: usize, to: usize, sep: char) -> (out: Vec<char>)
    requires
        from <= to <= parts.len(),
    ensures
        out@ == join_with(parts@.map_values(|c: Vec<char>| c@).subrange(from as int, to as int), seq![sep]),
{
    let ghost pv = parts@.map_values(|c: Vec<char>| c@);
    let mut out: Vec<char> = Vec::new();
    let mut i = from;
    while i < to
        invariant
            from <= i <= to <= parts.len(),
            pv == parts@.map_values(|c: Vec<char>| c@),
            out@ == join_with(pv.subrange(from as int, i as int), seq![sep]),
        decreases to - i,
    {
        let ghost prev = out@;
        assert(pv.subrange(from as int, i + 1).drop_last() =~= pv.subrange(from as int, i as int));
        assert(pv.subrange(from as int, i + 1).last() == parts@[i as int]@);
        if i > from {
            out.push(sep);
        }
        let mut k: usize = 0;
        let ghost mid = out@;
        while k < parts[i].len()
            invariant
                i < parts.len(),
                k <= parts@[i as int]@.len(),
                out@ == mid + parts@[i as int]@.take(k as int),
            decreases parts@[i as int]@.len() - k,
        {
            out.push(parts[i][k]);
            k += 1;
            assert(out@ =~= mid + parts@[i as int]@.take(k as int));
        }
        assert(parts@[i as int]@.take(k as int) =~= parts@[i as int]@);
        if i > from {
            assert(out@ =~= prev + seq![sep] + parts@[i as int]@);
        } else {
            assert(pv.subrange(from as int, i + 1) =~= seq![parts@[i as int]@]);
            assert(out@ =~= parts@[i as int]@);
        }
        i += 1;
    }
    out
}

/// `base.join(name)`.
pub fn join_path(base: &str, name: &str) -> (out: String)
    ensures
        out@ == join(base@, name@),
{
    let b = chars_of(base);
    let n = chars_of(name);
    let mut out: Vec<char> = Vec::new();
    if n.len() > 0 && n[0] == '/' {
        return string_of(&n);
    }
    let mut i: usize = 0;
    while i < b.len()
        invariant
            i <= b.len(),
            out@ == b@.take(i as int),
        decreases b.len() - i,
    {
        out.push(b[i]);
        i += 1;
        assert(out@ =~= b@.take(i as int));
    }
    assert(b@.take(b.len() as int) =~= b@);
    if b.len() > 0 && b[b.len() - 1] != '/' {
        out.push('/');
    }
    let ghost mid = out@;
    let mut k: usize = 0;
    while k < n.len()
        invariant
            k <= n.len(),
            out@ == mid + n@.take(k as int),
        decreases n.len() - k,
    {
        out.push(n[k]);
        k += 1;
        assert(out@ =~= mid + n@.take(k as int));
    }
    assert(n@.take(n.len() as int) =~= n@);
    string_of(&out)
}

/// The file name of a path.
pub fn file_name_of(p: &Vec<char>) -> (r: Option<Vec<char>>)
    ensures
        r matches Some(n) ==> file_name(p@) == Some(n@),
        r is None ==> file_name(p@) is None,
{
    let cs = components_of(p);
    let ghost cv = cs@.map_values(|c: Vec<char>| c@);
    if cs.len() == 0 {
        return None;
    }
    let last = cs[cs.len() - 1].clone();
    assert(cv.last() == last@);
    let dotdot = last.len() == 2 && last[0] == '.' && last[1] == '.';
    assert(dotdot == (last@ == seq!['.', '.'])) by {
        if last@ == seq!['.', '.'] {
            assert(last@[0] == '.' && last@[1] == '.');
        }
        if dotdot {
            assert(last@ =~= seq!['.', '.']);
        }
    }
    if dotdot {
        None
    } else {
        Some(last)
    }
}

/// The extension of a path.
pub fn extension_of(p: &Vec<char>) -> (r: Option<Vec<char>>)
    ensures
        r matches Some(e) ==> extension(p@) == Some(e@),
        r is None ==> extension(p@) is None,
{
    match file_name_of(p) {
        None => None,
        Some(n) => {
            let mut dot: Vec<char> = Vec::new();
            dot.push('.');
            assert(dot@ =~= seq!['.']);
            match crate::text::rfind(&n, &dot) {
                None => None,
                Some(i) => {
                    if i == 0 {
                        None
                    } else {
                        assert(crate::text::occurs_at(n@, dot@, i as int));
                        let len = n.len();
                        assert(i + 1 <= len);
                        let e = slice(&n, i + 1, len);
                        assert(e@ =~= n@.skip(i + 1));
                        Some(e)
                    }
                },
            }
        },
    }
}

/// `p` relative to `base`.
pub fn strip_prefix_of(p: &str, base: &str) -> (r: Option<String>)
    ensures
        r matches Some(s) ==> strip_prefix(p@, base@) == Some(s@),
        r is None ==> strip_prefix(p@, base@) is None,
{
    let pc = chars_of(p);
    let bc = chars_of(base);
    let cp = components_of(&pc);
    let cb = components_of(&bc);
    let ghost vp = cp@.map_values(|c: Vec<char>| c@);
    let ghost vb = cb@.map_values(|c: Vec<char>| c@);
    let pa = pc.len() > 0 && pc[0] == '/';
    let ba = bc.len() > 0 && bc[0] == '/';
    if pa != ba || cb.len() > cp.len() {
        return None;
    }
    let mut i: usize = 0;
    while i < cb.len()
        invariant
            i <= cb.len() <= cp.len(),
            vp == cp@.map_values(|c: Vec<char>| c@),
            vb == cb@.map_values(|c: Vec<char>| c@),
            vp == components(p@),
            vb == components(base@),
            forall|k: int| 0 <= k < i ==> vp[k] == vb[k],
        decreases cb.len() - i,
    {
        if !same(&cp[i], &cb[i]) {
            assert(vp.take(vb.len() as int)[i as int] != vb[i as int]);
            return None;
        }
        i += 1;
    }
    assert(vp.take(vb.len() as int) =~= vb);
    let rel = join_parts(&cp, cb.len(), cp.len(), '/');
    assert(vp.subrange(cb.len() as int, cp.len() as int) =~= vp.skip(cb.len() as int));
    Some(string_of(&rel))
}


fn assemble_of(absolute: bool, cs: &Vec<Vec<char>>, k: usize) -> (out: String)
    requires
        k <= cs.len(),
    ensures
        out@ == assemble(absolute, cs@.map_values(|c: Vec<char>| c@).take(k as int)),
{
    let body = join_parts(cs, 0, k, '/');
    assert(cs@.map_values(|c: Vec<char>| c@).subrange(0, k as int) =~= cs@.map_values(
        |c: Vec<char>| c@,
    ).take(k as int));
    if absolute {
        let mut v: Vec<char> = Vec::new();
        v.push('/');
        let mut i: usize = 0;
        while i < body.len()
            invariant
                i <= body.len(),
                v@ == seq!['/'] + body@.take(i as int),
            decreases body.len() - i,
        {
            v.push(body[i]);
            i += 1;
            assert(v@ =~= seq!['/'] + body@.take(i as int));
        }
        assert(body@.take(body.len() as int) =~= body@);
        string_of(&v)
    } else {
        string_of(&body)
    }
}

/// The path itself, then each of its parents up to the last one.
pub fn ancestors_of(p: &str) -> (out: Vec<String>)
    ensures
        out@.map_values(|a: String| a@) == ancestors(p@),
{
    let pc = chars_of(p);
    let cs = components_of(&pc);
    let ghost cv = cs@.map_values(|c: Vec<char>| c@);
    let absolute = pc.len() > 0 && pc[0] == '/';
    let mut out: Vec<String> = Vec::new();
    out.push(String::from_str(p));
    let ghost target = ancestors(p@);
    let mut i: usize = 0;
    while i < cs.len()
        invariant
            i <= cs.len(),
            cv == cs@.map_values(|c: Vec<char>| c@),
            cv == components(p@),
            absolute == is_absolute(p@),
            target == ancestors(p@),
            target.len() == cs.len() + 1,
            out@.map_values(|a: String| a@) == target.take(i + 1),
        decreases cs.len() - i,
    {
        let a = assemble_of(absolute, &cs, cs.len() - 1 - i);
        let ghost before = out@.map_values(|a: String| a@);
        out.push(a);
        assert(target[i + 1] == a@);
        assert(out@.map_values(|a: String| a@) =~= before.push(a@));
        assert(target.take(i + 2) =~= target.take(i + 1).push(target[i + 1]));
        i += 1;
    }
    assert(target.take(cs.len() + 1) =~= target);
    out
}


/// What paths are compared by: a root marker (an empty name, which sorts first)
/// for an absolute path, then the components.
#[verifier::opaque]
pub open spec fn path_key(p: Seq<char>) -> Seq<Seq<char>> {
    if is_absolute(p) {
        seq![Seq::<char>::empty()] + components(p)
    } else {
        components(p)
    }
}

/// `a` sorts before `b`, component by component.
pub open spec fn keys_lt(a: Seq<Seq<char>>, b: Seq<Seq<char>>) -> bool
    decreases a.len(),
{
    if a.len() == 0 {
        b.len() > 0
    } else if b.len() == 0 {
        false
    } else if a[0] != b[0] {
        seq_lt(a[0], b[0])
    } else {
        keys_lt(a.drop_first(), b.drop_first())
    }
}

/// Path order: that of `Path`'s `Ord`, on components.
pub open spec fn path_lt(a: Seq<char>, b: Seq<char>) -> bool {
    keys_lt(path_key(a), path_key(b))
}

pub proof fn lemma_keys_irreflexive(a: Seq<Seq<char>>)
    ensures
        !keys_lt(a, a),
    decreases a.len(),
{
    if a.len() > 0 {
        lemma_keys_irreflexive(a.drop_first());
    }
}

pub proof fn lemma_keys_total(a: Seq<Seq<char>>, b: Seq<Seq<char>>)
    ensures
        keys_lt(a, b) || a == b || keys_lt(b, a),
        !(keys_lt(a, b) && keys_lt(b, a)),
    decreases a.len(),
{
    if a.len() > 0 && b.len() > 0 {
        if a[0] == b[0] {
            lemma_keys_total(a.drop_first(), b.drop_first());
            if a.drop_first() == b.drop_first() {
                assert(a =~= seq![a[0]] + a.drop_first());
                assert(b =~= seq![b[0]] + b.drop_first());
            }
        } else {
            lemma_lt_total(a[0], b[0]);
        }
    } else if a.len() == 0 && b.len() == 0 {
        assert(a =~= b);
    }
}

pub proof fn lemma_keys_transitive(a: Seq<Seq<char>>, b: Seq<Seq<char>>, c: Seq<Seq<char>>)
    requires
        keys_lt(a, b),
        keys_lt(b, c),
    ensures
        keys_lt(a, c),
    decreases a.len(),
{
    if a.len() > 0 && b.len() > 0 && c.len() > 0 {
        if a[0] == b[0] && b[0] == c[0] {
            lemma_keys_transitive(a.drop_first(), b.drop_first(), c.drop_first());
        } else if a[0] == b[0] {
        } else if b[0] == c[0] {
        } else {
            lemma_lt_transitive(a[0], b[0], c[0]);
            lemma_lt_total(a[0], b[0]);
        }
    }
}

/// The comparison key of a path.
pub fn path_key_of(p: &str) -> (out: Vec<Vec<char>>)
    ensures
        out@.map_values(|c: Vec<char>| c@) == path_key(p@),
{
    reveal(path_key);
    let pc = chars_of(p);
    let cs = components_of(&pc);
    if pc.len() > 0 && pc[0] == '/' {
        let mut out: Vec<Vec<char>> = Vec::new();
        out.push(Vec::new());
        let ghost cv = cs@.map_values(|c: Vec<char>| c@);
        let mut i: usize = 0;
        while i < cs.len()
            invariant
                i <= cs.len(),
                cv == cs@.map_values(|c: Vec<char>| c@),
                out@.map_values(|c: Vec<char>| c@) == seq![Seq::<char>::empty()] + cv.take(i as int),
            decreases cs.len() - i,
        {
            let ghost before = out@.map_values(|c: Vec<char>| c@);
            out.push(cs[i].clone());
            assert(out@.map_values(|c: Vec<char>| c@) =~= before.push(cs@[i as int]@));
            assert(seq![Seq::<char>::empty()] + cv.take(i + 1) =~= (seq![Seq::<char>::empty()]
                + cv.take(i as int)).push(cv[i as int]));
            i += 1;
        }
        assert(cv.take(cs.len() as int) =~= cv);
        out
    } else {
        cs
    }
}

fn keys_less(a: &Vec<Vec<char>>, b: &Vec<Vec<char>>) -> (r: bool)
    ensures
        r == keys_lt(a@.map_values(|c: Vec<char>| c@), b@.map_values(|c: Vec<char>| c@)),
{
    let ghost av = a@.map_values(|c: Vec<char>| c@);
    let ghost bv = b@.map_values(|c: Vec<char>| c@);
    let mut i: usize = 0;
    assert(av.skip(0) =~= av);
    assert(bv.skip(0) =~= bv);
    while i < a.len() && i < b.len()
        invariant
            i <= a.len(),
            i <= b.len(),
            av == a@.map_values(|c: Vec<char>| c@),
            bv == b@.map_values(|c: Vec<char>| c@),
            keys_lt(av, bv) == keys_lt(av.skip(i as int), bv.skip(i as int)),
        decreases a.len() - i,
    {
        assert(av.skip(i as int)[0] == a@[i as int]@);
        assert(bv.skip(i as int)[0] == b@[i as int]@);
        if !same(&a[i], &b[i]) {
            return less(crate::text::string_of(&a[i]).as_str(), crate::text::string_of(&b[i]).as_str());
        }
        assert(av.skip(i as int).drop_first() =~= av.skip(i + 1));
        assert(bv.skip(i as int).drop_first() =~= bv.skip(i + 1));
        i += 1;
    }
    i < b.len()
}

fn keys_same(a: &Vec<Vec<char>>, b: &Vec<Vec<char>>) -> (r: bool)
    ensures
        r == (a@.map_values(|c: Vec<char>| c@) == b@.map_values(|c: Vec<char>| c@)),
{
    let ghost av = a@.map_values(|c: Vec<char>| c@);
    let ghost bv = b@.map_values(|c: Vec<char>| c@);
    if a.len() != b.len() {
        assert(av.len() != bv.len());
        return false;
    }
    let mut i: usize = 0;
    while i < a.len()
        invariant
            i <= a.len(),
            a.len() == b.len(),
            av == a@.map_values(|c: Vec<char>| c@),
            bv == b@.map_values(|c: Vec<char>| c@),
            forall|k: int| 0 <= k < i ==> av[k] == bv[k],
        decreases a.len() - i,
    {
        assert(av[i as int] == a@[i as int]@ && bv[i as int] == b@[i as int]@);
        if !same(&a[i], &b[i]) {
            return false;
        }
        i += 1;
    }
    assert(av =~= bv);
    true
}

/// `a` sorts before `b` in path order.
pub fn path_less(a: &str, b: &str) -> (r: bool)
    ensures
        r == path_lt(a@, b@),
{
    keys_less(&path_key_of(a), &path_key_of(b))
}

/// `a` and `b` name the same path.
pub fn path_eq(a: &str, b: &str) -> (r: bool)
    ensures
        r == (path_key(a@) == path_key(b@)),
{
    keys_same(&path_key_of(a), &path_key_of(b))
}

/// The paths are in strictly increasing path order.
pub open spec fn sorted_paths(v: Seq<String>) -> bool {
    forall|i: int, j: int| 0 <= i < j < v.len() ==> path_lt(v[i]@, v[j]@)
}

/// Some element names the path `p`.
pub open spec fn holds_path(v: Seq<String>, p: Seq<char>) -> bool {
    exists|i: int| 0 <= i < v.len() && path_key(#[trigger] v[i]@) == path_key(p)
}

/// Adds `p` to a set of paths kept in path order, unless a path equal to it is
/// already there (as `BTreeSet::insert` does). Returns whether it was added.
pub fn insert_path(v: &mut Vec<String>, p: String) -> (added: bool)
    requires
        sorted_paths(old(v)@),
    ensures
        sorted_paths(final(v)@),
        added == !holds_path(old(v)@, p@),
        !added ==> final(v)@ == old(v)@,
        added ==> exists|i: int| 0 <= i <= old(v)@.len() && final(v)@ == old(v)@.insert(i, p),
{
    let ghost old_v = v@;
    let mut i: usize = 0;
    while i < v.len()
        invariant
            i <= v.len(),
            v@ == old_v,
            sorted_paths(old_v),
            forall|k: int| 0 <= k < i ==> path_lt(#[trigger] v@[k]@, p@),
        ensures
            i <= v.len(),
            v@ == old_v,
            forall|k: int| 0 <= k < i ==> path_lt(#[trigger] v@[k]@, p@),
            i < v.len() ==> !path_lt(v@[i as int]@, p@),
        decreases v.len() - i,
    {
        if !path_less(v[i].as_str(), p.as_str()) {
            break;
        }
        i += 1;
    }
    proof {
        if i < v.len() {
            lemma_keys_total(path_key(v@[i as int]@), path_key(p@));
        }
    }
    if i < v.len() && path_eq(v[i].as_str(), p.as_str()) {
        assert(path_key(v@[i as int]@) == path_key(p@));
        return false;
    }
    proof {
        assert forall|k: int| i <= k < old_v.len() implies path_lt(p@, #[trigger] old_v[k]@) by {
            if k > i {
                assert(path_lt(old_v[i as int]@, old_v[k]@));
                lemma_keys_transitive(path_key(p@), path_key(old_v[i as int]@), path_key(old_v[k]@));
            }
        }
        assert(!holds_path(old_v, p@)) by {
            if holds_path(old_v, p@) {
                let j = choose|j: int| 0 <= j < old_v.len() && path_key(#[trigger] old_v[j]@) == path_key(p@);
                lemma_keys_irreflexive(path_key(p@));
                if j < i {
                    assert(path_lt(old_v[j]@, p@));
                } else {
                    assert(path_lt(p@, old_v[j]@));
                }
            }
        }
    }
    let ghost pv = p@;
    v.insert(i, p);
    proof {
        assert(v@ == old_v.insert(i as int, v@[i as int]));
        assert forall|a: int, b: int| 0 <= a < b < v@.len() implies path_lt(v@[a]@, v@[b]@) by {
            if a < i && b == i {
                assert(v@[a] == old_v[a]);
            } else if a < i && b > i {
                assert(v@[a] == old_v[a] && v@[b] == old_v[b - 1]);
                assert(path_lt(pv, old_v[b - 1]@));
                lemma_keys_transitive(path_key(v@[a]@), path_key(pv), path_key(v@[b]@));
            } else if a == i {
                assert(v@[b] == old_v[b - 1]);
            } else if b < i {
                assert(v@[a] == old_v[a] && v@[b] == old_v[b]);
            } else {
                assert(v@[a] == old_v[a - 1] && v@[b] == old_v[b - 1]);
            }
        }
    }
    true
}

} // verus!
