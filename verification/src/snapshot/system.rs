//! The operating system's name, from `/etc/os-release`.
use vstd::prelude::*;

use crate::snapshot::opt_view;
use crate::text::{chars_of, has_prefix, line_list, lines, slice, starts_with, string_of};

verus! {

/// `s` with every leading and trailing `"` removed (`trim_matches('"')`).
pub open spec fn trim_quotes(s: Seq<char>) -> Seq<char>
    decreases s.len(),
{
    if s.len() > 0 && s[0] == '"' {
        trim_quotes(s.drop_first())
    } else if s.len() > 0 && s.last() == '"' {
        trim_quotes(s.drop_last())
    } else {
        s
    }
}

/// The value of the first `PRETTY_NAME=` line, its quotes removed.
pub open spec fn pretty_name(ls: Seq<Seq<char>>) -> Option<Seq<char>>
    decreases ls.len(),
{
    if ls.len() == 0 {
        None
    } else if starts_with(ls[0], "PRETTY_NAME="@) {
        Some(trim_quotes(ls[0].skip(12)))
    } else {
        pretty_name(ls.skip(1))
    }
}

/// The name of the operating system: the pretty name that `os-release`
/// (where it could be read) gives, else the platform's own name `os`.
pub open spec fn spec_os_name(os_release: Option<Seq<char>>, os: Seq<char>) -> Seq<char> {
    match os_release {
        Some(data) => match pretty_name(lines(data)) {
            Some(n) => n,
            None => os,
        },
        None => os,
    }
}

fn trim_quotes_of(s: &Vec<char>) -> (r: Vec<char>)
    ensures
        r@ == trim_quotes(s@),
{
    let mut i: usize = 0;
    let mut j: usize = s.len();
    assert(s@.subrange(0, s@.len() as int) =~= s@);
    while i < j && s[i] == '"'
        invariant
            i <= j,
            j == s.len(),
            trim_quotes(s@.subrange(i as int, j as int)) == trim_quotes(s@),
        decreases j - i,
    {
        assert(s@.subrange(i as int, j as int).drop_first() =~= s@.subrange(i + 1, j as int));
        i += 1;
    }
    while j > i && s[j - 1] == '"'
        invariant
            i <= j <= s.len(),
            i < j ==> s@[i as int] != '"',
            trim_quotes(s@.subrange(i as int, j as int)) == trim_quotes(s@),
        decreases j - i,
    {
        let ghost t = s@.subrange(i as int, j as int);
        assert(t.drop_last() =~= s@.subrange(i as int, j - 1));
        assert(t[0] == s@[i as int]);
        j -= 1;
    }
    let r = slice(s, i, j);
    proof {
        let t = s@.subrange(i as int, j as int);
        if i < j {
            assert(t[0] == s@[i as int] && t.last() == s@[j - 1]);
        }
        assert(r@ =~= t);
    }
    r
}

fn pretty_name_of(ls: &Vec<Vec<char>>) -> (r: Option<Vec<char>>)
    ensures
        match r {
            Some(v) => pretty_name(ls@.map_values(|p: Vec<char>| p@)) == Some(v@),
            None => pretty_name(ls@.map_values(|p: Vec<char>| p@)) is None,
        },
{
    let key = chars_of("PRETTY_NAME=");
    proof {
        reveal_strlit("PRETTY_NAME=");
    }
    let ghost lv = ls@.map_values(|p: Vec<char>| p@);
    let mut i: usize = 0;
    assert(lv.skip(0) =~= lv);
    while i < ls.len()
        invariant
            i <= ls.len(),
            lv == ls@.map_values(|p: Vec<char>| p@),
            key@ == "PRETTY_NAME="@,
            key@.len() == 12,
            pretty_name(lv) == pretty_name(lv.skip(i as int)),
        decreases ls.len() - i,
    {
        let ghost rest = lv.skip(i as int);
        assert(rest[0] == ls@[i as int]@);
        assert(rest.skip(1) =~= lv.skip(i + 1));
        if has_prefix(&ls[i], &key) {
            let v = slice(&ls[i], 12, ls[i].len());
            assert(v@ =~= ls@[i as int]@.skip(12));
            return Some(trim_quotes_of(&v));
        }
        i += 1;
    }
    assert(lv.skip(i as int).len() == 0);
    None
}

/// The name of the operating system, from the text of `/etc/os-release`
/// where it was read, else the platform's name `os`.
pub fn os_name(os_release: Option<String>, os: &str) -> (r: Option<String>)
    ensures
        opt_view(r) == Some(spec_os_name(opt_view(os_release), os@)),
{
    match &os_release {
        Some(data) => {
            let ls = line_list(&chars_of(data.as_str()));
            match pretty_name_of(&ls) {
                Some(n) => Some(string_of(&n)),
                None => Some(String::from_str(os)),
            }
        },
        None => Some(String::from_str(os)),
    }
}

} // verus!
