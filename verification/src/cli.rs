//! Command-line option values: the human sizes and ages that `devx disk` takes,
//! and the option sets of the subcommands.
use vstd::prelude::*;

use crate::text::{
    all_digits, chars_of, digits_value, find_class, first_in, is_digit, lemma_digits_value_monotone,
    lower_all, lowered, same, slice, trim, trimmed, CharClass,
};

verus! {

/// Options of `devx disk`.
pub struct DiskArgs {
    pub path: String,
    pub interactive: bool,
    pub filesystems: bool,
    pub project: bool,
    pub safe: bool,
    pub top: Option<usize>,
    pub duplicates: bool,
    pub older_than: Option<u64>,
    pub larger_than: Option<u64>,
    pub json: bool,
    pub csv: bool,
}

/// Options of `devx snapshot`.
pub struct SnapshotArgs {
    pub path: String,
    pub compact: bool,
    pub minimal: bool,
    pub redact_paths: bool,
    pub output: Option<String>,
}

/// Options of `devx doctor`.
pub struct DoctorArgs {
    pub path: String,
    pub explain: bool,
    pub json: bool,
    pub strict: bool,
    pub markdown: bool,
}

/// Options of `devx diff`.
pub struct DiffArgs {
    pub left: String,
    pub right: String,
    pub only: Vec<String>,
    pub ignore_host: bool,
    pub project: bool,
    pub json: bool,
    pub strict: bool,
}

pub open spec fn pow10(k: nat) -> nat
    decreases k,
{
    if k == 0 {
        1
    } else {
        10 * pow10((k - 1) as nat)
    }
}

/// The number at the front of an option value: its leading digits and dots.
pub open spec fn number_text(v: Seq<char>) -> Seq<char> {
    v.take(first_in(v, CharClass::NotVersionChar) as int)
}

/// The unit after the number, trimmed and in lower case.
pub open spec fn unit_text(v: Seq<char>) -> Seq<char> {
    lower_all(trim(v.skip(first_in(v, CharClass::NotVersionChar) as int)))
}

/// A run of digits and dots that reads as a decimal number: not empty, not a
/// lone dot, at most one dot.
pub open spec fn valid_decimal(n: Seq<char>) -> bool {
    &&& n.len() > 0
    &&& n != seq!['.']
    &&& forall|i: int, j: int|
        0 <= i < n.len() && 0 <= j < n.len() && n[i] == '.' && n[j] == '.' ==> i == j
}

/// The digits before the dot.
pub open spec fn whole_digits(n: Seq<char>) -> Seq<char> {
    n.take(first_in(n, CharClass::Is('.')) as int)
}

/// The digits after the dot.
pub open spec fn fraction_digits(n: Seq<char>) -> Seq<char> {
    let d = first_in(n, CharClass::Is('.'));
    if d < n.len() {
        n.skip(d + 1 as int)
    } else {
        seq![]
    }
}

/// The decimal number `n` times `mult`, rounded down: computed exactly.
pub open spec fn scaled_value(n: Seq<char>, mult: nat) -> nat {
    let f = fraction_digits(n);
    ((digits_value(whole_digits(n)) * pow10(f.len()) + digits_value(f)) * mult) / pow10(f.len())
}

/// The number of bytes in one unit of a size.
pub open spec fn size_multiplier(u: Seq<char>) -> Option<nat> {
    if u.len() == 0 || u == "b"@ {
        Some(1)
    } else if u == "k"@ || u == "kb"@ || u == "kib"@ {
        Some(1024)
    } else if u == "m"@ || u == "mb"@ || u == "mib"@ {
        Some(1024 * 1024)
    } else if u == "g"@ || u == "gb"@ || u == "gib"@ {
        Some(1024 * 1024 * 1024)
    } else if u == "t"@ || u == "tb"@ || u == "tib"@ {
        Some(1024 * 1024 * 1024 * 1024)
    } else {
        None
    }
}

/// The number of seconds in one unit of an age.
pub open spec fn duration_multiplier(u: Seq<char>) -> Option<nat> {
    if u == "s"@ {
        Some(1)
    } else if u == "m"@ || u == "min"@ {
        Some(60)
    } else if u == "h"@ {
        Some(3600)
    } else if u == "d"@ {
        Some(86400)
    } else if u == "w"@ {
        Some(604800)
    } else {
        None
    }
}

/// How an option value with a number and a unit is read: the number first,
/// then the unit, then the range.
pub open spec fn spec_parse_quantity(
    v: Seq<char>,
    mult: Option<nat>,
    invalid: Seq<char>,
    bad_unit: Seq<char>,
    out_of_range: Seq<char>,
) -> Result<u64, Seq<char>> {
    if !valid_decimal(number_text(v)) {
        Err(invalid)
    } else {
        match mult {
            None => Err(bad_unit),
            Some(m) => {
                let total = scaled_value(number_text(v), m);
                if total > u64::MAX {
                    Err(out_of_range)
                } else {
                    Ok(total as u64)
                }
            },
        }
    }
}

/// A size such as `500MB` or `1.5GB` in bytes; units are powers of 1024.
pub open spec fn spec_parse_bytes(v: Seq<char>) -> Result<u64, Seq<char>> {
    spec_parse_quantity(
        v,
        size_multiplier(unit_text(v)),
        "invalid size"@,
        "size unit must be B, KB, MB, GB, or TB"@,
        "size is out of range"@,
    )
}

/// An age such as `30d` or `1.5h` in seconds.
pub open spec fn spec_parse_duration(v: Seq<char>) -> Result<u64, Seq<char>> {
    spec_parse_quantity(
        v,
        duration_multiplier(unit_text(v)),
        "invalid duration"@,
        "duration unit must be s, m, h, d, or w"@,
        "duration is out of range"@,
    )
}

pub open spec fn result_view(r: Result<u64, String>) -> Result<u64, Seq<char>> {
    match r {
        Ok(n) => Ok(n),
        Err(e) => Err(e@),
    }
}

pub proof fn lemma_pow10_pos(k: nat)
    ensures
        pow10(k) > 0,
    decreases k,
{
    if k > 0 {
        lemma_pow10_pos((k - 1) as nat);
    }
}

proof fn lemma_prepend_digit(c: char, t: Seq<char>)
    ensures
        digits_value(seq![c].add(t)) == (((c as nat) - 48) as nat) * pow10(t.len()) + digits_value(
            t,
        ),
    decreases t.len(),
{
    let s = seq![c].add(t);
    let a = ((c as nat) - 48) as nat;
    if t.len() == 0 {
        assert(s.drop_last() =~= Seq::<char>::empty());
        assert(s.last() == c);
        assert(pow10(0) == 1);
        assert(digits_value(s) == digits_value(s.drop_last()) * 10 + a);
        assert(digits_value(t) == 0);
    } else {
        lemma_prepend_digit(c, t.drop_last());
        assert(s.drop_last() =~= seq![c].add(t.drop_last()));
        assert(s.last() == t.last());
        assert(pow10(t.len()) == 10 * pow10((t.len() - 1) as nat));
        let p = pow10((t.len() - 1) as nat);
        let b = digits_value(t.drop_last());
        let dl = ((t.last() as nat) - 48) as nat;
        assert(digits_value(s.drop_last()) == a * p + b);
        assert(digits_value(s) == digits_value(s.drop_last()) * 10 + dl);
        assert(digits_value(t) == b * 10 + dl);
        assert((a * p + b) * 10 == a * (10 * p) + b * 10) by (nonlinear_arith);
    }
}

proof fn lemma_digits_bound(s: Seq<char>)
    requires
        all_digits(s),
    ensures
        digits_value(s) < pow10(s.len()),
    decreases s.len(),
{
    if s.len() > 0 {
        let t = s.drop_last();
        assert(all_digits(t)) by {
            assert forall|i: int| 0 <= i < t.len() implies is_digit(#[trigger] t[i]) by {
                assert(t[i] == s[i]);
            }
        }
        lemma_digits_bound(t);
        assert(is_digit(s[s.len() - 1]));
        let v = digits_value(t);
        let p = pow10(t.len());
        let d = ((s.last() as nat) - 48) as nat;
        assert(v * 10 + d < 10 * p) by (nonlinear_arith)
            requires
                v < p,
                d <= 9,
        ;
    }
}

proof fn lemma_fraction_step(mult: nat, f: nat, v: nat, p: nat, q: nat)
    requires
        p > 0,
        q == (mult * v) / p,
    ensures
        (mult * f + q) / 10 == (mult * (f * p + v)) / (p * 10),
{
    vstd::arithmetic::div_mod::lemma_hoist_over_denominator((mult * v) as int, (mult * f) as int, p);
    assert(mult * (f * p + v) == mult * v + (mult * f) * p) by (nonlinear_arith);
    vstd::arithmetic::div_mod::lemma_div_denominator((mult * (f * p + v)) as int, p as int, 10);
}

/// The digits of `n[from..to]` as a number; `None` when it does not fit.
fn whole_value(n: &Vec<char>, to: usize) -> (r: Option<u64>)
    requires
        to <= n.len(),
        all_digits(n@.take(to as int)),
    ensures
        r matches Some(v) ==> v == digits_value(n@.take(to as int)),
        r is None ==> digits_value(n@.take(to as int)) > u64::MAX,
{
    let mut v: u64 = 0;
    let mut i: usize = 0;
    while i < to
        invariant
            i <= to <= n.len(),
            all_digits(n@.take(to as int)),
            v == digits_value(n@.take(i as int)),
        decreases to - i,
    {
        assert(n@.take(i + 1).drop_last() =~= n@.take(i as int));
        assert(n@.take(i + 1).last() == n@[i as int]);
        assert(n@.take(to as int)[i as int] == n@[i as int]);
        let d = (n[i] as u32 - 48) as u64;
        if v > (u64::MAX - d) / 10 {
            proof {
                assert(v * 10 + d > u64::MAX) by (nonlinear_arith)
                    requires
                        v > (u64::MAX - d) / 10,
                        d <= 9,
                ;
                assert(n@.take(to as int).take(i + 1) =~= n@.take(i + 1));
                lemma_digits_value_monotone(n@.take(to as int), i + 1);
            }
            return None;
        }
        v = v * 10 + d;
        i += 1;
    }
    Some(v)
}

/// `mult` times the fraction `0.f`, rounded down, for the digits `f`.
fn fraction_value(f: &Vec<char>, mult: u64) -> (r: u64)
    requires
        all_digits(f@),
        1 <= mult <= 1024 * 1024 * 1024 * 1024,
    ensures
        r == ((mult as nat) * digits_value(f@)) / pow10(f@.len()),
{
    let mut q: u64 = 0;
    let mut i: usize = f.len();
    assert(f@.skip(f.len() as int) =~= Seq::<char>::empty());
    while i > 0
        invariant
            i <= f.len(),
            all_digits(f@),
            1 <= mult <= 1024 * 1024 * 1024 * 1024,
            q == ((mult as nat) * digits_value(f@.skip(i as int))) / pow10((f.len() - i) as nat),
            q < mult,
        decreases i,
    {
        let ghost rest = f@.skip(i as int);
        let ghost p = pow10((f.len() - i) as nat);
        let c = f[i - 1];
        assert(is_digit(f@[i - 1]));
        let d = (c as u32 - 48) as u64;
        assert(d <= 9);
        proof {
            lemma_pow10_pos((f.len() - i) as nat);
            assert(f@.skip(i - 1) =~= seq![c].add(rest));
            lemma_prepend_digit(c, rest);
            lemma_fraction_step(mult as nat, d as nat, digits_value(rest), p, q as nat);
            assert(pow10((f.len() - (i - 1)) as nat) == 10 * p);
            assert(10 * p == p * 10);
            assert(all_digits(rest)) by {
                assert forall|k: int| 0 <= k < rest.len() implies is_digit(#[trigger] rest[k]) by {
                    assert(rest[k] == f@[k + i]);
                }
            }
        }
        proof {
            assert(mult * d + q < 10 * mult) by (nonlinear_arith)
                requires
                    d <= 9,
                    q < mult,
            ;
            assert((mult * d + q) / 10 < mult as int) by (nonlinear_arith)
                requires
                    mult * d + q < 10 * mult,
            ;
        }
        let next = (mult * d + q) / 10;
        q = next;
        i -= 1;
    }
    assert(f@.skip(0) =~= f@);
    q
}

proof fn lemma_valid_parts(n: Seq<char>)
    requires
        valid_decimal(n),
        forall|i: int| 0 <= i < n.len() ==> (is_digit(#[trigger] n[i]) || n[i] == '.'),
    ensures
        all_digits(whole_digits(n)),
        all_digits(fraction_digits(n)),
{
    let d = first_in(n, CharClass::Is('.'));
    crate::text::lemma_first_in_bound(n, CharClass::Is('.'));
    let w = whole_digits(n);
    assert forall|i: int| 0 <= i < w.len() implies is_digit(#[trigger] w[i]) by {
        assert(w[i] == n[i]);
        assert(!CharClass::Is('.').has(n[i]));
    }
    if d < n.len() {
        let f = fraction_digits(n);
        assert forall|i: int| 0 <= i < f.len() implies is_digit(#[trigger] f[i]) by {
            assert(f[i] == n[i + d + 1]);
            assert(n[d as int] == '.');
            if n[i + d + 1] == '.' {
                assert(i + d + 1 == d);
            }
        }
    }
}

/// The number `n` (digits and at most one dot) times `mult`, rounded down; `None`
/// when that does not fit in 64 bits.
fn scale(n: &Vec<char>, mult: u64) -> (r: Option<u64>)
    requires
        valid_decimal(n@),
        forall|i: int| 0 <= i < n@.len() ==> (is_digit(#[trigger] n@[i]) || n@[i] == '.'),
        1 <= mult <= 1024 * 1024 * 1024 * 1024,
    ensures
        r matches Some(v) ==> v == scaled_value(n@, mult as nat),
        r is None ==> scaled_value(n@, mult as nat) > u64::MAX,
{
    proof {
        lemma_valid_parts(n@);
    }
    let d = find_class(n, 0, CharClass::Is('.'));
    assert(n@.skip(0) =~= n@);
    let frac = if d < n.len() {
        slice(n, d + 1, n.len())
    } else {
        Vec::new()
    };
    assert(frac@ =~= fraction_digits(n@));
    let ghost w = whole_digits(n@);
    let ghost p = pow10(frac@.len());
    let ghost fv = digits_value(frac@);
    proof {
        lemma_digits_bound(frac@);
        assert(p > 0) by {
            assert(fv < p);
        }
    }
    let q = fraction_value(&frac, mult);
    match whole_value(n, d) {
        None => {
            proof {
                let wv = digits_value(w);
                assert((wv * p + fv) * mult >= wv * p) by (nonlinear_arith)
                    requires
                        mult >= 1,
                ;
                vstd::arithmetic::div_mod::lemma_div_is_ordered(
                    (wv * p) as int,
                    ((wv * p + fv) * mult) as int,
                    p as int,
                );
                vstd::arithmetic::div_mod::lemma_div_multiples_vanish_fancy(wv as int, 0, p as int);
                assert(p * wv == wv * p) by (nonlinear_arith);
            }
            None
        },
        Some(whole) => {
            let ghost total = scaled_value(n@, mult as nat);
            proof {
                let wv = whole as nat;
                vstd::arithmetic::div_mod::lemma_hoist_over_denominator(
                    (mult * fv) as int,
                    (wv * mult) as int,
                    p,
                );
                assert((wv * p + fv) * mult == mult * fv + (wv * mult) * p) by (nonlinear_arith);
                assert(total == wv * mult + q);
            }
            match whole.checked_mul(mult) {
                None => None,
                Some(a) => match a.checked_add(q) {
                    None => None,
                    Some(t) => Some(t),
                },
            }
        },
    }
}

proof fn lemma_number_chars(v: Seq<char>)
    ensures
        forall|i: int|
            0 <= i < number_text(v).len() ==> (is_digit(#[trigger] number_text(v)[i])
                || number_text(v)[i] == '.'),
{
    crate::text::lemma_first_in_bound(v, CharClass::NotVersionChar);
}

fn is_valid_decimal(n: &Vec<char>) -> (r: bool)
    ensures
        r == valid_decimal(n@),
{
    if n.len() == 0 {
        return false;
    }
    let mut dots: usize = 0;
    let mut first_dot: usize = 0;
    let mut i: usize = 0;
    while i < n.len()
        invariant
            i <= n.len(),
            n.len() > 0,
            dots <= 1,
            dots == 0 ==> forall|k: int| 0 <= k < i ==> n@[k] != '.',
            dots == 1 ==> first_dot < i && n@[first_dot as int] == '.' && forall|k: int|
                0 <= k < i && n@[k] == '.' ==> k == first_dot,
        decreases n.len() - i,
    {
        if n[i] == '.' {
            if dots == 1 {
                return false;
            }
            dots = 1;
            first_dot = i;
        }
        i += 1;
    }
    if n.len() == 1 && n[0] == '.' {
        assert(n@ =~= seq!['.']);
        return false;
    }
    assert(n@ != seq!['.']) by {
        if n@ == seq!['.'] {
            assert(n@[0] == '.');
        }
    }
    true
}

/// The unit text of `v` (from the split point on, trimmed, lower case).
fn unit_of(v: &Vec<char>, split: usize) -> (u: Vec<char>)
    requires
        split <= v.len(),
        split == first_in(v@, CharClass::NotVersionChar),
    ensures
        u@ == unit_text(v@),
{
    let rest = slice(v, split, v.len());
    assert(rest@ =~= v@.skip(split as int));
    lowered(&trimmed(&rest))
}

/// Reads `v` as a number followed by a unit; `mult` is the unit's multiplier
/// where the unit is known.
fn parse_quantity(
    v: &Vec<char>,
    mult: Option<u64>,
    invalid: &str,
    bad_unit: &str,
    out_of_range: &str,
) -> (r: Result<u64, String>)
    requires
        mult matches Some(m) ==> 1 <= m <= 1024 * 1024 * 1024 * 1024,
    ensures
        result_view(r) == spec_parse_quantity(
            v@,
            match mult {
                Some(m) => Some(m as nat),
                None => None,
            },
            invalid@,
            bad_unit@,
            out_of_range@,
        ),
{
    let split = find_class(v, 0, CharClass::NotVersionChar);
    assert(v@.skip(0) =~= v@);
    let number = slice(v, 0, split);
    assert(number@ =~= number_text(v@));
    proof {
        lemma_number_chars(v@);
    }
    if !is_valid_decimal(&number) {
        return Err(String::from_str(invalid));
    }
    match mult {
        None => Err(String::from_str(bad_unit)),
        Some(m) => match scale(&number, m) {
            Some(total) => Ok(total),
            None => Err(String::from_str(out_of_range)),
        },
    }
}

fn unit_is(u: &Vec<char>, name: &str) -> (r: bool)
    ensures
        r == (u@ == name@),
{
    same(u, &chars_of(name))
}

/// Reads a size such as `500MB`, `2GB` or `1.5G` into bytes.
pub fn parse_bytes(value: &str) -> (r: Result<u64, String>)
    ensures
        result_view(r) == spec_parse_bytes(value@),
{
    let v = chars_of(value);
    let split = find_class(&v, 0, CharClass::NotVersionChar);
    assert(v@.skip(0) =~= v@);
    let u = unit_of(&v, split);
    let mult: Option<u64> = if u.len() == 0 || unit_is(&u, "b") {
        Some(1)
    } else if unit_is(&u, "k") || unit_is(&u, "kb") || unit_is(&u, "kib") {
        Some(1024)
    } else if unit_is(&u, "m") || unit_is(&u, "mb") || unit_is(&u, "mib") {
        Some(1024 * 1024)
    } else if unit_is(&u, "g") || unit_is(&u, "gb") || unit_is(&u, "gib") {
        Some(1024 * 1024 * 1024)
    } else if unit_is(&u, "t") || unit_is(&u, "tb") || unit_is(&u, "tib") {
        Some(1024 * 1024 * 1024 * 1024)
    } else {
        None
    };
    parse_quantity(
        &v,
        mult,
        "invalid size",
        "size unit must be B, KB, MB, GB, or TB",
        "size is out of range",
    )
}

/// Reads an age such as `30d`, `12h` or `1.5h` into seconds.
pub fn parse_duration(value: &str) -> (r: Result<u64, String>)
    ensures
        result_view(r) == spec_parse_duration(value@),
{
    let v = chars_of(value);
    let split = find_class(&v, 0, CharClass::NotVersionChar);
    assert(v@.skip(0) =~= v@);
    let u = unit_of(&v, split);
    let mult: Option<u64> = if unit_is(&u, "s") {
        Some(1)
    } else if unit_is(&u, "m") || unit_is(&u, "min") {
        Some(60)
    } else if unit_is(&u, "h") {
        Some(3600)
    } else if unit_is(&u, "d") {
        Some(86400)
    } else if unit_is(&u, "w") {
        Some(604800)
    } else {
        None
    };
    parse_quantity(
        &v,
        mult,
        "invalid duration",
        "duration unit must be s, m, h, d, or w",
        "duration is out of range",
    )
}

/// A whole number (no fractional digits) scaled by `m` is the number times `m`.
proof fn lemma_whole_scaled(n: Seq<char>, m: nat)
    requires
        fraction_digits(n).len() == 0,
    ensures
        scaled_value(n, m) == digits_value(whole_digits(n)) * m,
{
    let f = fraction_digits(n);
    assert(pow10(0) == 1);
    assert(digits_value(f) == 0);
    let w = digits_value(whole_digits(n));
    assert(w * 1 + 0 == w);
}

/// A size written as a whole number and a unit is that many units of bytes.
pub proof fn lemma_whole_size(v: Seq<char>, m: nat)
    requires
        valid_decimal(number_text(v)),
        fraction_digits(number_text(v)).len() == 0,
        size_multiplier(unit_text(v)) == Some(m),
        digits_value(whole_digits(number_text(v))) * m <= u64::MAX,
    ensures
        spec_parse_bytes(v) == Ok::<u64, Seq<char>>((digits_value(whole_digits(number_text(v))) * m) as u64),
{
    lemma_whole_scaled(number_text(v), m);
}

/// An age written as a whole number and a unit is that many units of seconds.
pub proof fn lemma_whole_duration(v: Seq<char>, m: nat)
    requires
        valid_decimal(number_text(v)),
        fraction_digits(number_text(v)).len() == 0,
        duration_multiplier(unit_text(v)) == Some(m),
        digits_value(whole_digits(number_text(v))) * m <= u64::MAX,
    ensures
        spec_parse_duration(v) == Ok::<u64, Seq<char>>((digits_value(whole_digits(number_text(v))) * m) as u64),
{
    lemma_whole_scaled(number_text(v), m);
}

} // verus!
