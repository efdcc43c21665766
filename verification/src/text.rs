//! Character-level text handling: the model of strings as `Seq<char>` and the
//! operations that the parsers of this crate are built from.
use vstd::prelude::*;

verus! {

/// Unicode `White_Space`, the set of characters that `str::trim` and
/// `str::split_whitespace` treat as blank.
pub open spec fn is_ws(c: char) -> bool {
    ||| c == ' '
    ||| ('\t' <= c && c <= '\r')
    ||| c == '\u{85}'
    ||| c == '\u{a0}'
    ||| c == '\u{1680}'
    ||| ('\u{2000}' <= c && c <= '\u{200a}')
    ||| c == '\u{2028}'
    ||| c == '\u{2029}'
    ||| c == '\u{202f}'
    ||| c == '\u{205f}'
    ||| c == '\u{3000}'
}

pub open spec fn is_digit(c: char) -> bool {
    '0' <= c && c <= '9'
}

/// A class of separator characters.
#[derive(Clone, Copy)]
pub enum CharClass {
    /// exactly this character
    Is(char),
    /// one of two characters
    Either(char, char),
    /// Unicode whitespace
    Whitespace,
    /// anything that is neither an ASCII digit nor `.`
    NotVersionChar,
}

impl CharClass {
    pub open spec fn has(self, c: char) -> bool {
        match self {
            CharClass::Is(a) => c == a,
            CharClass::Either(a, b) => c == a || c == b,
            CharClass::Whitespace => is_ws(c),
            CharClass::NotVersionChar => !(is_digit(c) || c == '.'),
        }
    }

    pub fn contains(&self, c: char) -> (r: bool)
        ensures
            r == self.has(c),
    {
        match *self {
            CharClass::Is(a) => c == a,
            CharClass::Either(a, b) => c == a || c == b,
            CharClass::Whitespace => whitespace(c),
            CharClass::NotVersionChar => !(('0' <= c && c <= '9') || c == '.'),
        }
    }
}

pub fn whitespace(c: char) -> (r: bool)
    ensures
        r == is_ws(c),
{
    c == ' ' || ('\t' <= c && c <= '\r') || c == '\u{85}' || c == '\u{a0}' || c == '\u{1680}'
        || ('\u{2000}' <= c && c <= '\u{200a}') || c == '\u{2028}' || c == '\u{2029}' || c
        == '\u{202f}' || c == '\u{205f}' || c == '\u{3000}'
}

/// Index of the first character of `s` in `cls`, or `s.len()` when there is none.
pub open spec fn first_in(s: Seq<char>, cls: CharClass) -> nat
    decreases s.len(),
{
    if s.len() == 0 {
        0
    } else if cls.has(s[0]) {
        0
    } else {
        1 + first_in(s.drop_first(), cls)
    }
}

pub proof fn lemma_first_in(s: Seq<char>, cls: CharClass, i: int)
    requires
        0 <= i <= s.len(),
        forall|k: int| 0 <= k < i ==> !cls.has(#[trigger] s[k]),
        i < s.len() ==> cls.has(s[i]),
    ensures
        first_in(s, cls) == i,
    decreases s.len(),
{
    if s.len() > 0 && i > 0 {
        assert(!cls.has(s[0]));
        lemma_first_in(s.drop_first(), cls, i - 1);
    }
}

pub proof fn lemma_first_in_bound(s: Seq<char>, cls: CharClass)
    ensures
        first_in(s, cls) <= s.len(),
        forall|k: int| 0 <= k < first_in(s, cls) ==> !cls.has(#[trigger] s[k]),
        first_in(s, cls) < s.len() ==> cls.has(s[first_in(s, cls) as int]),
    decreases s.len(),
{
    if s.len() > 0 && !cls.has(s[0]) {
        lemma_first_in_bound(s.drop_first(), cls);
        assert forall|k: int| 0 <= k < first_in(s, cls) implies !cls.has(#[trigger] s[k]) by {
            if k > 0 {
                assert(s[k] == s.drop_first()[k - 1]);
            }
        }
    }
}

/// The pieces of `s` between characters of `cls`, as `str::split` yields them.
pub open spec fn split_by(s: Seq<char>, cls: CharClass) -> Seq<Seq<char>>
    decreases s.len(),
{
    let i = first_in(s, cls);
    if i >= s.len() {
        seq![s]
    } else {
        seq![s.take(i as int)].add(split_by(s.skip(i + 1 as int), cls))
    }
}

/// Index of the first character of `s` at or after `from` that is in `cls`, or `s.len()`.
pub fn find_class(s: &Vec<char>, from: usize, cls: CharClass) -> (r: usize)
    requires
        from <= s.len(),
    ensures
        from <= r <= s.len(),
        forall|k: int| from <= k < r ==> !cls.has(#[trigger] s@[k]),
        r < s.len() ==> cls.has(s@[r as int]),
        r - from == first_in(s@.skip(from as int), cls),
{
    let mut i = from;
    while i < s.len()
        invariant
            from <= i <= s.len(),
            forall|k: int| from <= k < i ==> !cls.has(#[trigger] s@[k]),
        ensures
            from <= i <= s.len(),
            forall|k: int| from <= k < i ==> !cls.has(#[trigger] s@[k]),
            i < s.len() ==> cls.has(s@[i as int]),
        decreases s.len() - i,
    {
        if cls.contains(s[i]) {
            break;
        }
        i += 1;
    }
    proof {
        let t = s@.skip(from as int);
        assert forall|k: int| 0 <= k < i - from implies !cls.has(#[trigger] t[k]) by {
            assert(t[k] == s@[k + from]);
        }
        if i < s.len() {
            assert(t[i - from] == s@[i as int]);
        }
        lemma_first_in(t, cls, i - from);
    }
    i
}

/// The characters `s[from..to]`.
pub fn slice(s: &Vec<char>, from: usize, to: usize) -> (out: Vec<char>)
    requires
        from <= to <= s.len(),
    ensures
        out@ == s@.subrange(from as int, to as int),
{
    let mut out: Vec<char> = Vec::new();
    let mut i = from;
    while i < to
        invariant
            from <= i <= to <= s.len(),
            out@ == s@.subrange(from as int, i as int),
        decreases to - i,
    {
        out.push(s[i]);
        i += 1;
        assert(out@ =~= s@.subrange(from as int, i as int));
    }
    out
}

pub proof fn lemma_split_step(s: Seq<char>, cls: CharClass, st: int, j: int)
    requires
        0 <= st <= j < s.len(),
        forall|k: int| st <= k < j ==> !cls.has(#[trigger] s[k]),
        cls.has(s[j]),
    ensures
        split_by(s.skip(st), cls) == seq![s.subrange(st, j)].add(split_by(s.skip(j + 1), cls)),
{
    let t = s.skip(st);
    assert forall|k: int| 0 <= k < j - st implies !cls.has(#[trigger] t[k]) by {
        assert(t[k] == s[k + st]);
    }
    assert(t[j - st] == s[j]);
    lemma_first_in(t, cls, j - st);
    assert(t.take(j - st) =~= s.subrange(st, j));
    assert(t.skip(j - st + 1) =~= s.skip(j + 1));
}

pub proof fn lemma_split_last(s: Seq<char>, cls: CharClass, st: int)
    requires
        0 <= st <= s.len(),
        forall|k: int| st <= k < s.len() ==> !cls.has(#[trigger] s[k]),
    ensures
        split_by(s.skip(st), cls) == seq![s.skip(st)],
{
    let t = s.skip(st);
    assert forall|k: int| 0 <= k < t.len() implies !cls.has(#[trigger] t[k]) by {
        assert(t[k] == s[k + st]);
    }
    lemma_first_in(t, cls, t.len() as int);
}

/// The pieces of `s` separated by characters of `cls`, empty pieces included.
pub fn split(s: &Vec<char>, cls: CharClass) -> (out: Vec<Vec<char>>)
    ensures
        out@.map_values(|p: Vec<char>| p@) == split_by(s@, cls),
{
    let mut out: Vec<Vec<char>> = Vec::new();
    let mut st: usize = 0;
    let mut j: usize = 0;
    assert(s@.skip(0) =~= s@);
    while j < s.len()
        invariant
            st <= j <= s.len(),
            forall|k: int| st <= k < j ==> !cls.has(#[trigger] s@[k]),
            split_by(s@, cls) == out@.map_values(|p: Vec<char>| p@).add(
                split_by(s@.skip(st as int), cls),
            ),
        decreases s.len() - j,
    {
        if cls.contains(s[j]) {
            let piece = slice(s, st, j);
            proof {
                lemma_split_step(s@, cls, st as int, j as int);
            }
            let ghost before = out@.map_values(|p: Vec<char>| p@);
            out.push(piece);
            assert(out@.map_values(|p: Vec<char>| p@) =~= before.push(piece@));
            assert(before.add(seq![piece@].add(split_by(s@.skip(j + 1), cls))) =~= before.push(
                piece@,
            ).add(split_by(s@.skip(j + 1), cls)));
            st = j + 1;
        }
        j += 1;
    }
    proof {
        lemma_split_last(s@, cls, st as int);
    }
    let piece = slice(s, st, s.len());
    let ghost before = out@.map_values(|p: Vec<char>| p@);
    out.push(piece);
    assert(s@.subrange(st as int, s@.len() as int) =~= s@.skip(st as int));
    assert(out@.map_values(|p: Vec<char>| p@) =~= before.add(seq![piece@]));
    out
}


/// `s` without its leading whitespace (`str::trim_start`).
pub open spec fn trim_start(s: Seq<char>) -> Seq<char>
    decreases s.len(),
{
    if s.len() > 0 && is_ws(s[0]) {
        trim_start(s.drop_first())
    } else {
        s
    }
}

/// `s` without its trailing whitespace (`str::trim_end`).
pub open spec fn trim_end(s: Seq<char>) -> Seq<char>
    decreases s.len(),
{
    if s.len() > 0 && is_ws(s.last()) {
        trim_end(s.drop_last())
    } else {
        s
    }
}

/// `s` without leading and trailing whitespace (`str::trim`).
pub open spec fn trim(s: Seq<char>) -> Seq<char> {
    trim_end(trim_start(s))
}

pub proof fn lemma_trim_start(s: Seq<char>, i: int)
    requires
        0 <= i <= s.len(),
        forall|k: int| 0 <= k < i ==> is_ws(#[trigger] s[k]),
        i < s.len() ==> !is_ws(s[i]),
    ensures
        trim_start(s) == s.skip(i),
    decreases s.len(),
{
    if i > 0 {
        assert(is_ws(s[0]));
        assert forall|k: int| 0 <= k < i - 1 implies is_ws(#[trigger] s.drop_first()[k]) by {
            assert(s.drop_first()[k] == s[k + 1]);
        }
        lemma_trim_start(s.drop_first(), i - 1);
        assert(s.drop_first().skip(i - 1) =~= s.skip(i));
    } else {
        assert(s.skip(0) =~= s);
    }
}

pub proof fn lemma_trim_end(s: Seq<char>, j: int)
    requires
        0 <= j <= s.len(),
        forall|k: int| j <= k < s.len() ==> is_ws(#[trigger] s[k]),
        j > 0 ==> !is_ws(s[j - 1]),
    ensures
        trim_end(s) == s.take(j),
    decreases s.len(),
{
    if j < s.len() {
        assert(is_ws(s.last()));
        assert forall|k: int| j <= k < s.len() - 1 implies is_ws(#[trigger] s.drop_last()[k]) by {
            assert(s.drop_last()[k] == s[k]);
        }
        lemma_trim_end(s.drop_last(), j);
        assert(s.drop_last().take(j) =~= s.take(j));
    } else {
        assert(s.take(j) =~= s);
    }
}

/// Index of the first non-whitespace character at or after `from`, or `s.len()`.
pub fn skip_ws(s: &Vec<char>, from: usize) -> (r: usize)
    requires
        from <= s.len(),
    ensures
        from <= r <= s.len(),
        forall|k: int| from <= k < r ==> is_ws(#[trigger] s@[k]),
        r < s.len() ==> !is_ws(s@[r as int]),
{
    let mut i = from;
    while i < s.len()
        invariant
            from <= i <= s.len(),
            forall|k: int| from <= k < i ==> is_ws(#[trigger] s@[k]),
        ensures
            from <= i <= s.len(),
            forall|k: int| from <= k < i ==> is_ws(#[trigger] s@[k]),
            i < s.len() ==> !is_ws(s@[i as int]),
        decreases s.len() - i,
    {
        if !whitespace(s[i]) {
            break;
        }
        i += 1;
    }
    i
}

/// `s` without leading and trailing whitespace.
pub fn trimmed(s: &Vec<char>) -> (out: Vec<char>)
    ensures
        out@ == trim(s@),
{
    let i = skip_ws(s, 0);
    let mut j = s.len();
    while j > i
        invariant
            i <= j <= s.len(),
            forall|k: int| j <= k < s.len() ==> is_ws(#[trigger] s@[k]),
        ensures
            i <= j <= s.len(),
            forall|k: int| j <= k < s.len() ==> is_ws(#[trigger] s@[k]),
            j > i ==> !is_ws(s@[j - 1]),
        decreases j,
    {
        if !whitespace(s[j - 1]) {
            break;
        }
        j -= 1;
    }
    proof {
        lemma_trim_start(s@, i as int);
        let t = s@.skip(i as int);
        assert forall|k: int| j - i <= k < t.len() implies is_ws(#[trigger] t[k]) by {
            assert(t[k] == s@[k + i]);
        }
        if j > i {
            assert(t[j - i - 1] == s@[j - 1]);
        }
        lemma_trim_end(t, j - i);
        assert(t.take(j - i) =~= s@.subrange(i as int, j as int));
    }
    slice(s, i, j)
}

/// `s` without its leading whitespace.
pub fn trimmed_start(s: &Vec<char>) -> (out: Vec<char>)
    ensures
        out@ == trim_start(s@),
{
    let i = skip_ws(s, 0);
    proof {
        lemma_trim_start(s@, i as int);
        assert(s@.skip(i as int) =~= s@.subrange(i as int, s@.len() as int));
    }
    slice(s, i, s.len())
}

/// `pat` occurs in `s` at index `i`.
pub open spec fn occurs_at(s: Seq<char>, pat: Seq<char>, i: int) -> bool {
    0 <= i && i + pat.len() <= s.len() && s.subrange(i, i + pat.len()) == pat
}

/// Index of the first occurrence of `pat` in `s` (`str::find`).
#[verifier::opaque]
pub open spec fn find_sub(s: Seq<char>, pat: Seq<char>) -> Option<int> {
    if exists|i: int| occurs_at(s, pat, i) {
        Some(
            choose|i: int|
                occurs_at(s, pat, i) && forall|j: int| 0 <= j < i ==> !occurs_at(s, pat, j),
        )
    } else {
        None
    }
}

/// Index of the last occurrence of `pat` in `s` (`str::rfind`).
#[verifier::opaque]
pub open spec fn rfind_sub(s: Seq<char>, pat: Seq<char>) -> Option<int> {
    if exists|i: int| occurs_at(s, pat, i) {
        Some(
            choose|i: int|
                occurs_at(s, pat, i) && forall|j: int| i < j ==> !occurs_at(s, pat, j),
        )
    } else {
        None
    }
}

pub fn matches_at(s: &Vec<char>, pat: &Vec<char>, i: usize) -> (r: bool)
    ensures
        r == occurs_at(s@, pat@, i as int),
{
    if pat.len() > s.len() || i > s.len() - pat.len() {
        return false;
    }
    let mut k: usize = 0;
    while k < pat.len()
        invariant
            i + pat.len() <= s.len(),
            k <= pat.len(),
            forall|m: int| 0 <= m < k ==> s@[i + m] == pat@[m],
        decreases pat.len() - k,
    {
        if s[i + k] != pat[k] {
            assert(s@.subrange(i as int, i + pat.len())[k as int] != pat@[k as int]);
            return false;
        }
        k += 1;
    }
    assert(s@.subrange(i as int, i + pat.len()) =~= pat@);
    true
}

/// The first occurrence of `pat` in `s`.
pub fn find(s: &Vec<char>, pat: &Vec<char>) -> (r: Option<usize>)
    ensures
        r matches Some(i) ==> Some(i as int) == find_sub(s@, pat@),
        r is None ==> find_sub(s@, pat@) is None,
        r matches Some(i) ==> occurs_at(s@, pat@, i as int),
{
    reveal(find_sub);
    if pat.len() > s.len() {
        assert(forall|i: int| !occurs_at(s@, pat@, i));
        return None;
    }
    if pat.len() == 0 {
        assert(s@.subrange(0, 0) =~= pat@);
        assert(occurs_at(s@, pat@, 0));
        let ghost c = choose|k: int|
            occurs_at(s@, pat@, k) && forall|j: int| 0 <= j < k ==> !occurs_at(s@, pat@, j);
        assert(c == 0);
        return Some(0);
    }
    let mut i: usize = 0;
    while i <= s.len() - pat.len()
        invariant
            1 <= pat.len() <= s.len(),
            i <= s.len() - pat.len() + 1,
            forall|j: int| 0 <= j < i ==> !occurs_at(s@, pat@, j),
        decreases s.len() - pat.len() + 1 - i,
    {
        if matches_at(s, pat, i) {
            reveal(find_sub);
            assert(occurs_at(s@, pat@, i as int) && forall|j: int|
                0 <= j < i ==> !occurs_at(s@, pat@, j));
            let ghost c = choose|k: int|
                occurs_at(s@, pat@, k) && forall|j: int| 0 <= j < k ==> !occurs_at(s@, pat@, j);
            assert(c == i);
            return Some(i);
        }
        i += 1;
    }
    assert forall|j: int| !occurs_at(s@, pat@, j) by {
        if 0 <= j && j + pat.len() <= s.len() {
            assert(j < i);
        }
    }
    None
}

/// The last occurrence of `pat` in `s`.
pub fn rfind(s: &Vec<char>, pat: &Vec<char>) -> (r: Option<usize>)
    ensures
        r matches Some(i) ==> Some(i as int) == rfind_sub(s@, pat@),
        r is None ==> rfind_sub(s@, pat@) is None,
        r matches Some(i) ==> occurs_at(s@, pat@, i as int),
{
    reveal(rfind_sub);
    if pat.len() > s.len() {
        assert(forall|i: int| !occurs_at(s@, pat@, i));
        return None;
    }
    if pat.len() == 0 {
        assert(s@.subrange(s@.len() as int, s@.len() as int) =~= pat@);
        assert(occurs_at(s@, pat@, s@.len() as int));
        let ghost c = choose|k: int|
            occurs_at(s@, pat@, k) && forall|j: int| k < j ==> !occurs_at(s@, pat@, j);
        assert(c == s@.len());
        return Some(s.len());
    }
    let mut i: usize = s.len() - pat.len() + 1;
    while i > 0
        invariant
            1 <= pat.len() <= s.len(),
            i <= s.len() - pat.len() + 1,
            forall|j: int| i <= j ==> !occurs_at(s@, pat@, j),
        decreases i,
    {
        if matches_at(s, pat, i - 1) {
            reveal(rfind_sub);
            let ghost c = choose|k: int|
                occurs_at(s@, pat@, k) && forall|j: int| k < j ==> !occurs_at(s@, pat@, j);
            assert(occurs_at(s@, pat@, (i - 1) as int));
            assert(c == i - 1);
            return Some(i - 1);
        }
        i -= 1;
    }
    None
}

/// `p` is a prefix of `s`.
pub open spec fn starts_with(s: Seq<char>, p: Seq<char>) -> bool {
    p.len() <= s.len() && s.take(p.len() as int) == p
}

/// `p` is a suffix of `s`.
pub open spec fn ends_with(s: Seq<char>, p: Seq<char>) -> bool {
    p.len() <= s.len() && s.skip(s.len() - p.len()) == p
}

pub fn has_prefix(s: &Vec<char>, p: &Vec<char>) -> (r: bool)
    ensures
        r == starts_with(s@, p@),
{
    let r = matches_at(s, p, 0);
    proof {
        if r {
            assert(s@.take(p@.len() as int) =~= s@.subrange(0, p@.len() as int));
        } else if p.len() <= s.len() {
            assert(s@.take(p@.len() as int) =~= s@.subrange(0, p@.len() as int));
        }
    }
    r
}

pub fn has_suffix(s: &Vec<char>, p: &Vec<char>) -> (r: bool)
    ensures
        r == ends_with(s@, p@),
{
    if p.len() > s.len() {
        return false;
    }
    let r = matches_at(s, p, s.len() - p.len());
    assert(s@.skip(s.len() - p.len()) =~= s@.subrange(
        s.len() - p.len(),
        s.len() - p.len() + p.len(),
    ));
    r
}

/// The two vectors hold the same characters.
pub fn same(a: &Vec<char>, b: &Vec<char>) -> (r: bool)
    ensures
        r == (a@ == b@),
{
    if a.len() != b.len() {
        return false;
    }
    let mut i: usize = 0;
    while i < a.len()
        invariant
            a.len() == b.len(),
            i <= a.len(),
            forall|k: int| 0 <= k < i ==> a@[k] == b@[k],
        decreases a.len() - i,
    {
        if a[i] != b[i] {
            return false;
        }
        i += 1;
    }
    assert(a@ =~= b@);
    true
}


/// A line as `str::lines` yields it: a `\r` that ended a `\r\n` pair is dropped.
pub open spec fn strip_cr(l: Seq<char>) -> Seq<char> {
    if l.len() > 0 && l.last() == '\r' {
        l.drop_last()
    } else {
        l
    }
}

/// The lines of `s` (`str::lines`): split at `\n`, a final empty line not counted.
pub open spec fn lines(s: Seq<char>) -> Seq<Seq<char>>
    decreases s.len(),
{
    if s.len() == 0 {
        seq![]
    } else {
        let i = first_in(s, CharClass::Is('\n'));
        if i >= s.len() {
            seq![s]
        } else {
            seq![strip_cr(s.take(i as int))].add(lines(s.skip(i + 1 as int)))
        }
    }
}

pub fn line_list(s: &Vec<char>) -> (out: Vec<Vec<char>>)
    ensures
        out@.map_values(|p: Vec<char>| p@) == lines(s@),
{
    let mut out: Vec<Vec<char>> = Vec::new();
    let mut st: usize = 0;
    assert(s@.skip(0) =~= s@);
    while st < s.len()
        invariant
            st <= s.len(),
            lines(s@) == out@.map_values(|p: Vec<char>| p@).add(lines(s@.skip(st as int))),
        decreases s.len() - st,
    {
        let j = find_class(s, st, CharClass::Is('\n'));
        let ghost t = s@.skip(st as int);
        let ghost before = out@.map_values(|p: Vec<char>| p@);
        if j == s.len() {
            let piece = slice(s, st, j);
            assert(piece@ =~= t);
            out.push(piece);
            assert(out@.map_values(|p: Vec<char>| p@) =~= before.add(lines(t)));
            assert(s@.skip(s.len() as int).len() == 0);
            assert(out@.map_values(|p: Vec<char>| p@).add(lines(s@.skip(s.len() as int)))
                =~= out@.map_values(|p: Vec<char>| p@));
            st = j;
        } else {
            let mut piece = slice(s, st, j);
            if piece.len() > 0 && piece[piece.len() - 1] == '\r' {
                piece.pop();
            }
            assert(t.take(j - st) =~= s@.subrange(st as int, j as int));
            assert(t.skip(j - st + 1) =~= s@.skip(j + 1));
            assert(piece@ =~= strip_cr(t.take(j - st)));
            out.push(piece);
            assert(out@.map_values(|p: Vec<char>| p@) =~= before.push(piece@));
            assert(before.add(seq![piece@].add(lines(s@.skip(j + 1)))) =~= before.push(
                piece@,
            ).add(lines(s@.skip(j + 1))));
            st = j + 1;
        }
    }
    assert(s@.skip(st as int).len() == 0);
    assert(out@.map_values(|p: Vec<char>| p@).add(lines(s@.skip(st as int)))
        =~= out@.map_values(|p: Vec<char>| p@));
    out
}

/// The non-empty pieces of `ps`, in order.
pub open spec fn nonempty(ps: Seq<Seq<char>>) -> Seq<Seq<char>>
    decreases ps.len(),
{
    if ps.len() == 0 {
        seq![]
    } else if ps.last().len() == 0 {
        nonempty(ps.drop_last())
    } else {
        nonempty(ps.drop_last()).push(ps.last())
    }
}

/// The whitespace-separated words of `s` (`str::split_whitespace`).
pub open spec fn words(s: Seq<char>) -> Seq<Seq<char>> {
    nonempty(split_by(s, CharClass::Whitespace))
}

pub fn word_list(s: &Vec<char>) -> (out: Vec<Vec<char>>)
    ensures
        out@.map_values(|p: Vec<char>| p@) == words(s@),
{
    let pieces = split(s, CharClass::Whitespace);
    let ghost ps = pieces@.map_values(|p: Vec<char>| p@);
    let mut out: Vec<Vec<char>> = Vec::new();
    let mut i: usize = 0;
    while i < pieces.len()
        invariant
            i <= pieces.len(),
            ps == pieces@.map_values(|p: Vec<char>| p@),
            out@.map_values(|p: Vec<char>| p@) == nonempty(ps.take(i as int)),
        decreases pieces.len() - i,
    {
        assert(ps.take(i + 1).drop_last() =~= ps.take(i as int));
        assert(ps.take(i + 1).last() == pieces@[i as int]@);
        if pieces[i].len() > 0 {
            let ghost before = out@.map_values(|p: Vec<char>| p@);
            out.push(pieces[i].clone());
            assert(out@.map_values(|p: Vec<char>| p@) =~= before.push(pieces@[i as int]@));
        }
        i += 1;
    }
    assert(ps.take(pieces.len() as int) =~= ps);
    out
}

/// The character of the decimal digit `d`.
pub open spec fn digit_char(d: nat) -> char {
    (48 + d) as char
}

/// The decimal representation of `n`, as `to_string` writes it.
pub open spec fn decimal(n: nat) -> Seq<char>
    decreases n,
{
    if n < 10 {
        seq![digit_char(n)]
    } else {
        decimal(n / 10).push(digit_char(n % 10))
    }
}

pub fn decimal_chars(n: u64) -> (out: Vec<char>)
    ensures
        out@ == decimal(n as nat),
    decreases n,
{
    if n < 10 {
        let c = (48u8 + n as u8) as char;
        let mut v: Vec<char> = Vec::new();
        v.push(c);
        assert(v@ =~= seq![digit_char(n as nat)]);
        v
    } else {
        let mut v = decimal_chars(n / 10);
        let c = (48u8 + (n % 10) as u8) as char;
        v.push(c);
        v
    }
}

/// The decimal text of `n`.
pub fn decimal_string(n: u64) -> (out: String)
    ensures
        out@ == decimal(n as nat),
{
    string_of(&decimal_chars(n))
}

/// The value of a run of decimal digits.
pub open spec fn digits_value(s: Seq<char>) -> nat
    decreases s.len(),
{
    if s.len() == 0 {
        0
    } else {
        digits_value(s.drop_last()) * 10 + ((s.last() as nat) - 48) as nat
    }
}

pub open spec fn all_digits(s: Seq<char>) -> bool {
    forall|i: int| 0 <= i < s.len() ==> is_digit(#[trigger] s[i])
}

/// What `str::parse::<u32>` gives: an optional `+`, then at least one digit, within range.
pub open spec fn parse_u32(s: Seq<char>) -> Option<u32> {
    let d = if s.len() > 0 && s[0] == '+' {
        s.drop_first()
    } else {
        s
    };
    if d.len() > 0 && all_digits(d) && digits_value(d) <= u32::MAX {
        Some(digits_value(d) as u32)
    } else {
        None
    }
}

pub proof fn lemma_digits_value_monotone(s: Seq<char>, i: int)
    requires
        0 <= i <= s.len(),
        all_digits(s),
    ensures
        digits_value(s.take(i)) <= digits_value(s),
    decreases s.len() - i,
{
    if i < s.len() {
        lemma_digits_value_monotone(s, i + 1);
        assert(s.take(i + 1).drop_last() =~= s.take(i));
        assert(s.take(i + 1).last() == s[i]);
        assert(is_digit(s[i]));
    } else {
        assert(s.take(i) =~= s);
    }
}

pub fn parse_u32_chars(s: &Vec<char>) -> (r: Option<u32>)
    ensures
        r == parse_u32(s@),
{
    let start: usize = if s.len() > 0 && s[0] == '+' {
        1
    } else {
        0
    };
    let ghost d = if s@.len() > 0 && s@[0] == '+' {
        s@.drop_first()
    } else {
        s@
    };
    assert(d =~= s@.skip(start as int));
    if start >= s.len() {
        return None;
    }
    let mut value: u64 = 0;
    let mut i = start;
    while i < s.len()
        invariant
            start <= i <= s.len(),
            start < s.len(),
            d == s@.skip(start as int),
            d == (if s@.len() > 0 && s@[0] == '+' {
                s@.drop_first()
            } else {
                s@
            }),
            forall|k: int| start <= k < i ==> is_digit(#[trigger] s@[k]),
            value == digits_value(d.take(i - start)),
            value <= u32::MAX,
        decreases s.len() - i,
    {
        let c = s[i];
        assert(d[i - start] == s@[i as int]);
        if !('0' <= c && c <= '9') {
            assert(!is_digit(d[i - start]));
            assert(!all_digits(d));
            return None;
        }
        assert(d.take(i - start + 1).drop_last() =~= d.take(i - start));
        assert(d.take(i - start + 1).last() == c);
        value = value * 10 + (c as u32 - 48) as u64;
        assert(value == digits_value(d.take(i - start + 1)));
        if value > 0xffff_ffff {
            proof {
                assert forall|k: int| 0 <= k < i - start + 1 implies is_digit(
                    #[trigger] d.take(i - start + 1)[k],
                ) by {
                    assert(d.take(i - start + 1)[k] == s@[k + start]);
                }
                if all_digits(d) {
                    lemma_digits_value_monotone(d, i - start + 1);
                }
            }
            return None;
        }
        i += 1;
    }
    assert(d.take(i - start) =~= d);
    assert(all_digits(d)) by {
        assert forall|k: int| 0 <= k < d.len() implies is_digit(#[trigger] d[k]) by {
            assert(d[k] == s@[k + start]);
        }
    }
    Some(value as u32)
}

/// ASCII lower case of one character (`char::to_ascii_lowercase`).
pub open spec fn lower(c: char) -> char {
    if 'A' <= c && c <= 'Z' {
        ((c as u32) + 32) as char
    } else {
        c
    }
}

/// ASCII lower case of a text (`str::to_ascii_lowercase`).
pub open spec fn lower_all(s: Seq<char>) -> Seq<char> {
    s.map_values(|c: char| lower(c))
}

/// `str::eq_ignore_ascii_case`.
pub open spec fn eq_ignore_case(a: Seq<char>, b: Seq<char>) -> bool {
    lower_all(a) == lower_all(b)
}

pub fn lower_char(c: char) -> (r: char)
    ensures
        r == lower(c),
{
    if 'A' <= c && c <= 'Z' {
        ((c as u8) + 32) as char
    } else {
        c
    }
}

pub fn lowered(s: &Vec<char>) -> (out: Vec<char>)
    ensures
        out@ == lower_all(s@),
{
    let mut out: Vec<char> = Vec::new();
    let mut i: usize = 0;
    while i < s.len()
        invariant
            i <= s.len(),
            out@ == lower_all(s@.take(i as int)),
        decreases s.len() - i,
    {
        out.push(lower_char(s[i]));
        i += 1;
        assert(out@ =~= lower_all(s@.take(i as int)));
    }
    assert(s@.take(s.len() as int) =~= s@);
    out
}

pub fn same_ignore_case(a: &Vec<char>, b: &Vec<char>) -> (r: bool)
    ensures
        r == eq_ignore_case(a@, b@),
{
    let la = lowered(a);
    let lb = lowered(b);
    same(&la, &lb)
}

/// The characters of a string.
pub fn chars_of(s: &str) -> (out: Vec<char>)
    ensures
        out@ == s@,
{
    let mut out: Vec<char> = Vec::new();
    for c in it: s.chars()
        invariant
            out@ == it.seq().take(it.index() as int),
    {
        out.push(c);
    }
    out
}

/// Appends one character to a string (`String::push`).
#[verifier::external_body]
pub(crate) fn push_char(s: &mut String, c: char)
    ensures
        final(s)@ == old(s)@.push(c),
{
    s.push(c);
}

/// Lower case as `str::to_lowercase` gives it (Unicode case mapping).
pub uninterp spec fn lowercase(s: Seq<char>) -> Seq<char>;

/// `str::to_lowercase`: the text in lower case, by Unicode's case mapping.
#[verifier::external_body]
pub(crate) fn to_lowercase(s: &str) -> (r: String)
    ensures
        r@ == lowercase(s@),
{
    s.to_lowercase()
}

/// A string made of the given characters.
pub fn string_of(chars: &Vec<char>) -> (out: String)
    ensures
        out@ == chars@,
{
    let mut out = String::new();
    let mut i: usize = 0;
    while i < chars.len()
        invariant
            i <= chars.len(),
            out@ == chars@.take(i as int),
        decreases chars.len() - i,
    {
        push_char(&mut out, chars[i]);
        i += 1;
        assert(out@ =~= chars@.take(i as int));
    }
    assert(chars@.take(chars.len() as int) =~= chars@);
    out
}

/// The concatenation of two texts.
pub fn concat(a: &str, b: &str) -> (out: String)
    ensures
        out@ == a@ + b@,
{
    let mut out = String::from_str(a);
    out.append(b);
    out
}

/// The concatenation of three texts.
pub fn concat3(a: &str, b: &str, c: &str) -> (out: String)
    ensures
        out@ == a@ + b@ + c@,
{
    let mut out = String::from_str(a);
    out.append(b);
    out.append(c);
    out
}


/// The second piece of `s.split(pat)`: the text between the first occurrence of
/// `pat` and the next one (or the end).
pub open spec fn second_piece(s: Seq<char>, pat: Seq<char>) -> Option<Seq<char>> {
    match find_sub(s, pat) {
        Some(i) => {
            let rest = s.skip(i + pat.len());
            match find_sub(rest, pat) {
                Some(j) => Some(rest.take(j)),
                None => Some(rest),
            }
        },
        None => None,
    }
}

pub fn second_piece_of(s: &Vec<char>, pat: &Vec<char>) -> (r: Option<Vec<char>>)
    requires
        pat.len() > 0,
    ensures
        r matches Some(v) ==> second_piece(s@, pat@) == Some(v@),
        r is None ==> second_piece(s@, pat@) is None,
{
    match find(s, pat) {
        None => None,
        Some(i) => {
            assert(occurs_at(s@, pat@, i as int));
            let n = s.len();
            let m = pat.len();
            assert(i + m <= n);
            let rest = slice(s, i + m, n);
            assert(rest@ =~= s@.skip(i + pat.len()));
            match find(&rest, pat) {
                Some(j) => {
                    let piece = slice(&rest, 0, j);
                    assert(piece@ =~= rest@.take(j as int));
                    Some(piece)
                },
                None => Some(rest),
            }
        },
    }
}

/// The first whitespace-separated word of `s`, if any.
pub open spec fn first_word(s: Seq<char>) -> Option<Seq<char>> {
    if words(s).len() > 0 {
        Some(words(s)[0])
    } else {
        None
    }
}

pub fn first_word_of(s: &Vec<char>) -> (r: Option<Vec<char>>)
    ensures
        r matches Some(v) ==> first_word(s@) == Some(v@),
        r is None ==> first_word(s@) is None,
{
    let ws = word_list(s);
    if ws.len() > 0 {
        assert(ws@.map_values(|p: Vec<char>| p@)[0] == ws@[0]@);
        Some(ws[0].clone())
    } else {
        None
    }
}


/// The value of a digit in base 10 or 16 (either case of `a`-`f`).
pub open spec fn digit_value(c: char, radix: nat) -> Option<nat> {
    if '0' <= c && c <= '9' {
        Some(((c as nat) - 48) as nat)
    } else if radix == 16 && 'a' <= c && c <= 'f' {
        Some(((c as nat) - 87) as nat)
    } else if radix == 16 && 'A' <= c && c <= 'F' {
        Some(((c as nat) - 55) as nat)
    } else {
        None
    }
}

pub open spec fn all_radix_digits(s: Seq<char>, radix: nat) -> bool {
    forall|i: int| 0 <= i < s.len() ==> (#[trigger] digit_value(s[i], radix)) is Some
}

pub open spec fn radix_value(s: Seq<char>, radix: nat) -> nat
    decreases s.len(),
{
    if s.len() == 0 {
        0
    } else {
        radix_value(s.drop_last(), radix) * radix + match digit_value(s.last(), radix) {
            Some(d) => d,
            None => 0,
        }
    }
}

/// What `from_str_radix` gives for an unsigned type whose largest value is `max`:
/// an optional `+`, then at least one digit, within range.
pub open spec fn parse_unsigned(s: Seq<char>, radix: nat, max: nat) -> Option<nat> {
    let d = if s.len() > 0 && s[0] == '+' {
        s.drop_first()
    } else {
        s
    };
    if d.len() > 0 && all_radix_digits(d, radix) && radix_value(d, radix) <= max {
        Some(radix_value(d, radix))
    } else {
        None
    }
}

proof fn lemma_radix_value_monotone(s: Seq<char>, radix: nat, i: int)
    requires
        0 <= i <= s.len(),
        radix >= 1,
    ensures
        radix_value(s.take(i), radix) <= radix_value(s, radix),
    decreases s.len() - i,
{
    if i < s.len() {
        lemma_radix_value_monotone(s, radix, i + 1);
        assert(s.take(i + 1).drop_last() =~= s.take(i));
        let v = radix_value(s.take(i), radix);
        assert(v <= v * radix) by (nonlinear_arith)
            requires
                radix >= 1,
        ;
    } else {
        assert(s.take(i) =~= s);
    }
}

fn digit_of(c: char, radix: u64) -> (r: Option<u64>)
    requires
        radix == 10 || radix == 16,
    ensures
        r matches Some(d) ==> digit_value(c, radix as nat) == Some(d as nat) && d < radix,
        r is None ==> digit_value(c, radix as nat) is None,
{
    if '0' <= c && c <= '9' {
        Some((c as u32 - 48) as u64)
    } else if radix == 16 && 'a' <= c && c <= 'f' {
        Some((c as u32 - 87) as u64)
    } else if radix == 16 && 'A' <= c && c <= 'F' {
        Some((c as u32 - 55) as u64)
    } else {
        None
    }
}

/// Reads an unsigned number in base 10 or 16 no larger than `max`.
pub fn parse_unsigned_chars(s: &Vec<char>, radix: u64, max: u64) -> (r: Option<u64>)
    requires
        radix == 10 || radix == 16,
    ensures
        r matches Some(v) ==> parse_unsigned(s@, radix as nat, max as nat) == Some(v as nat),
        r is None ==> parse_unsigned(s@, radix as nat, max as nat) is None,
{
    let start: usize = if s.len() > 0 && s[0] == '+' {
        1
    } else {
        0
    };
    let ghost d = if s@.len() > 0 && s@[0] == '+' {
        s@.drop_first()
    } else {
        s@
    };
    assert(d =~= s@.skip(start as int));
    if start >= s.len() {
        return None;
    }
    let mut value: u64 = 0;
    let mut i = start;
    while i < s.len()
        invariant
            start <= i <= s.len(),
            start < s.len(),
            radix == 10 || radix == 16,
            d == s@.skip(start as int),
            d == (if s@.len() > 0 && s@[0] == '+' {
                s@.drop_first()
            } else {
                s@
            }),
            forall|k: int| 0 <= k < i - start ==> (#[trigger] digit_value(d[k], radix as nat)) is Some,
            value == radix_value(d.take(i - start), radix as nat),
            value <= max,
        decreases s.len() - i,
    {
        assert(d[i - start] == s@[i as int]);
        let dv = match digit_of(s[i], radix) {
            Some(x) => x,
            None => {
                assert(!all_radix_digits(d, radix as nat));
                return None;
            },
        };
        assert(d.take(i - start + 1).drop_last() =~= d.take(i - start));
        assert(d.take(i - start + 1).last() == s@[i as int]);
        if dv > max || value > (max - dv) / radix {
            proof {
                if dv <= max {
                    assert(value * radix + dv > max) by (nonlinear_arith)
                        requires
                            value > (max - dv) as int / radix as int,
                            radix > 0,
                            dv <= max,
                    ;
                }
                assert(radix_value(d.take(i - start + 1), radix as nat) == value * radix + dv);
                if all_radix_digits(d, radix as nat) {
                    assert(d.take(i - start + 1) =~= d.take(i - start + 1));
                    lemma_radix_value_monotone(d, radix as nat, i - start + 1);
                }
            }
            return None;
        }
        proof {
            assert(value * radix + dv <= max) by (nonlinear_arith)
                requires
                    value <= (max - dv) as int / radix as int,
                    radix > 0,
                    dv <= max,
            ;
        }
        value = value * radix + dv;
        i += 1;
    }
    assert(d.take(i - start) =~= d);
    Some(value)
}


/// `s` with every occurrence of `from` replaced by `to`, scanning left to right
/// (`str::replace`); an empty `from` matches before every character and at the end.
pub open spec fn replace_all(s: Seq<char>, from: Seq<char>, to: Seq<char>) -> Seq<char>
    decreases s.len(), from.len(),
{
    if from.len() == 0 {
        if s.len() == 0 {
            to
        } else {
            to + seq![s[0]] + replace_all(s.drop_first(), from, to)
        }
    } else if s.len() == 0 {
        seq![]
    } else if starts_with(s, from) {
        to + replace_all(s.skip(from.len() as int), from, to)
    } else {
        seq![s[0]] + replace_all(s.drop_first(), from, to)
    }
}

pub fn replace(s: &str, from: &str, to: &str) -> (out: String)
    ensures
        out@ == replace_all(s@, from@, to@),
{
    let sc = chars_of(s);
    let fc = chars_of(from);
    let tc = chars_of(to);
    let mut out: Vec<char> = Vec::new();
    let mut i: usize = 0;
    assert(sc@.skip(0) =~= sc@);
    while i < sc.len()
        invariant
            i <= sc.len(),
            sc@ == s@,
            fc@ == from@,
            tc@ == to@,
            out@ + replace_all(sc@.skip(i as int), fc@, tc@) == replace_all(s@, from@, to@),
        decreases sc.len() - i,
    {
        let ghost rest = sc@.skip(i as int);
        let ghost before = out@;
        if fc.len() > 0 && matches_at(&sc, &fc, i) {
            assert(rest.take(fc@.len() as int) =~= sc@.subrange(i as int, i + fc@.len()));
            assert(rest.skip(fc@.len() as int) =~= sc@.skip(i + fc@.len()));
            let mut k: usize = 0;
            while k < tc.len()
                invariant
                    k <= tc.len(),
                    out@ == before + tc@.take(k as int),
                decreases tc.len() - k,
            {
                out.push(tc[k]);
                k += 1;
                assert(out@ =~= before + tc@.take(k as int));
            }
            assert(tc@.take(tc.len() as int) =~= tc@);
            assert(out@ + replace_all(sc@.skip(i + fc@.len()), fc@, tc@) =~= before + (tc@
                + replace_all(rest.skip(fc@.len() as int), fc@, tc@)));
            i = i + fc.len();
        } else {
            if fc.len() == 0 {
                let mut k: usize = 0;
                while k < tc.len()
                    invariant
                        k <= tc.len(),
                        out@ == before + tc@.take(k as int),
                    decreases tc.len() - k,
                {
                    out.push(tc[k]);
                    k += 1;
                    assert(out@ =~= before + tc@.take(k as int));
                }
                assert(tc@.take(tc.len() as int) =~= tc@);
            } else {
                assert(!starts_with(rest, fc@)) by {
                    if starts_with(rest, fc@) {
                        assert(rest.take(fc@.len() as int) =~= sc@.subrange(i as int, i + fc@.len()));
                    }
                }
            }
            let ghost mid = out@;
            out.push(sc[i]);
            assert(rest.drop_first() =~= sc@.skip(i + 1));
            assert(rest[0] == sc@[i as int]);
            assert(out@ + replace_all(sc@.skip(i + 1), fc@, tc@) =~= before + (if fc@.len() == 0 {
                tc@
            } else {
                seq![]
            }) + seq![rest[0]] + replace_all(rest.drop_first(), fc@, tc@));
            i = i + 1;
        }
    }
    let ghost before = out@;
    if fc.len() == 0 {
        let mut k: usize = 0;
        while k < tc.len()
            invariant
                k <= tc.len(),
                out@ == before + tc@.take(k as int),
            decreases tc.len() - k,
        {
            out.push(tc[k]);
            k += 1;
            assert(out@ =~= before + tc@.take(k as int));
        }
        assert(tc@.take(tc.len() as int) =~= tc@);
    }
    assert(sc@.skip(i as int).len() == 0);
    string_of(&out)
}


/// The two texts are equal.
pub fn text_eq(a: &str, b: &str) -> (r: bool)
    ensures
        r == (a@ == b@),
{
    same(&chars_of(a), &chars_of(b))
}

/// `pat` occurs in `s`.
pub fn contains_text(s: &str, pat: &str) -> (r: bool)
    ensures
        r == find_sub(s@, pat@) is Some,
{
    find(&chars_of(s), &chars_of(pat)).is_some()
}

} // verus!
