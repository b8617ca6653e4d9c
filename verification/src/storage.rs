//! Naming of note files: safe file-name stems, collision-free names, the
//! extensions treated as notes, newest-first ordering, and relative times.

use vstd::prelude::*;
use crate::text::{
    chars_of, dec, has_at, is_control, is_ctrl, is_whitespace, is_ws, lowercase, push_decimal,
    push_range, same_chars, string_of, to_lowercase, trim, trim_bounds,
};

verus! {

/// Characters that Windows refuses in file names.
pub open spec fn is_forbidden(c: char) -> bool {
    c == '<' || c == '>' || c == ':' || c == '"' || c == '/' || c == '\\' || c == '|' || c == '?'
        || c == '*'
}

/// A forbidden or control character becomes a space.
pub open spec fn scrub(c: char) -> char {
    if is_forbidden(c) || is_ctrl(c) {
        ' '
    } else {
        c
    }
}

/// The words of `t[i..]` (maximal runs of non-whitespace) joined by single
/// spaces; `started` says whether a word was already emitted and `gap` whether
/// whitespace followed it.
pub open spec fn squash_from(t: Seq<char>, i: int, started: bool, gap: bool) -> Seq<char>
    decreases t.len() - i,
{
    if i >= t.len() {
        seq![]
    } else if is_ws(t[i]) {
        squash_from(t, i + 1, started, true)
    } else if started && gap {
        seq![' ', t[i]] + squash_from(t, i + 1, true, false)
    } else {
        seq![t[i]] + squash_from(t, i + 1, true, false)
    }
}

/// The words of `t` joined by single spaces (`split_whitespace` then `join(" ")`).
pub open spec fn squash(t: Seq<char>) -> Seq<char> {
    squash_from(t, 0, false, false)
}

pub open spec fn untitled() -> Seq<char> {
    seq!['U', 'n', 't', 'i', 't', 'l', 'e', 'd']
}

/// File-name stems that Windows reserves.
pub open spec fn reserved_names() -> Seq<Seq<char>> {
    seq![
        seq!['c', 'o', 'n'],
        seq!['p', 'r', 'n'],
        seq!['a', 'u', 'x'],
        seq!['n', 'u', 'l'],
        seq!['c', 'o', 'm', '1'],
        seq!['c', 'o', 'm', '2'],
        seq!['c', 'o', 'm', '3'],
        seq!['c', 'o', 'm', '4'],
        seq!['l', 'p', 't', '1'],
        seq!['l', 'p', 't', '2'],
        seq!['l', 'p', 't', '3'],
    ]
}

/// `t` without the characters `c` at its end.
pub open spec fn drop_trailing(t: Seq<char>, c: char) -> Seq<char>
    decreases t.len(),
{
    if t.len() > 0 && t.last() == c {
        drop_trailing(t.drop_last(), c)
    } else {
        t
    }
}

/// The first `n` characters of `t` (all of them when it is shorter).
pub open spec fn take_chars(t: Seq<char>, n: int) -> Seq<char> {
    if t.len() <= n {
        t
    } else {
        t.take(n)
    }
}

/// The file-name stem for a note title: trimmed, forbidden and control
/// characters made spaces, whitespace runs collapsed to one space, cut to 60
/// characters and trimmed again, trailing dots dropped, and `Untitled` when
/// what is left is empty or a reserved name.
pub open spec fn sanitized(title: Seq<char>) -> Seq<char> {
    let s1 = squash(trim(title).map_values(|c: char| scrub(c)));
    let s2 = trim(take_chars(s1, 60));
    let s3 = drop_trailing(s2, '.');
    if s3.len() == 0 || reserved_names().contains(lowercase(s3)) {
        untitled()
    } else {
        s3
    }
}

fn is_forbidden_char(c: char) -> (r: bool)
    ensures
        r == is_forbidden(c),
{
    c == '<' || c == '>' || c == ':' || c == '"' || c == '/' || c == '\\' || c == '|' || c == '?'
        || c == '*'
}

fn is_reserved(v: &Vec<char>) -> (r: bool)
    ensures
        r == reserved_names().contains(v@),
{
    let names: Vec<Vec<char>> = vec![
        vec!['c', 'o', 'n'],
        vec!['p', 'r', 'n'],
        vec!['a', 'u', 'x'],
        vec!['n', 'u', 'l'],
        vec!['c', 'o', 'm', '1'],
        vec!['c', 'o', 'm', '2'],
        vec!['c', 'o', 'm', '3'],
        vec!['c', 'o', 'm', '4'],
        vec!['l', 'p', 't', '1'],
        vec!['l', 'p', 't', '2'],
        vec!['l', 'p', 't', '3'],
    ];
    let ghost rn = reserved_names();
    assert(names@.len() == rn.len());
    assert forall|k: int| 0 <= k < rn.len() implies (#[trigger] names@[k])@ == rn[k] by {
        assert(names@[k]@ =~= rn[k]);
    }
    let mut k: usize = 0;
    while k < names.len()
        invariant
            k <= names.len(),
            names@.len() == rn.len(),
            rn == reserved_names(),
            forall|j: int| 0 <= j < rn.len() ==> (#[trigger] names@[j])@ == rn[j],
            forall|j: int| 0 <= j < k ==> rn[j] != v@,
        decreases names.len() - k,
    {
        if same_chars(&names[k], v) {
            proof {
                assert(rn[k as int] == v@);
            }
            return true;
        }
        k = k + 1;
    }
    proof {
        if rn.contains(v@) {
            let j = choose|j: int| 0 <= j < rn.len() && rn[j] == v@;
            assert(rn[j] != v@);
        }
    }
    false
}

/// Turns a note title into a safe Windows file-name stem.
pub fn sanitize(title: &str) -> (r: String)
    ensures
        r@ == sanitized(title@),
{
    let v = chars_of(title);
    let (a, b) = trim_bounds(&v, 0, v.len());
    proof {
        assert(v@.subrange(0, v@.len() as int) =~= v@);
    }
    let ghost tr = trim(title@);
    // Forbidden and control characters become spaces.
    let mut w: Vec<char> = Vec::new();
    let mut k = a;
    while k < b
        invariant
            a <= k <= b <= v.len(),
            tr == v@.subrange(a as int, b as int),
            w@ == v@.subrange(a as int, k as int).map_values(|c: char| scrub(c)),
        decreases b - k,
    {
        let c = v[k];
        let d = if is_forbidden_char(c) || is_control(c) {
            ' '
        } else {
            c
        };
        w.push(d);
        proof {
            assert(v@.subrange(a as int, k + 1).map_values(|c: char| scrub(c)) =~= v@.subrange(
                a as int,
                k as int,
            ).map_values(|c: char| scrub(c)).push(scrub(c)));
        }
        k = k + 1;
    }
    let ghost ws = tr.map_values(|c: char| scrub(c));
    assert(w@ =~= ws);
    // Whitespace runs collapse to one space.
    let mut sq: Vec<char> = Vec::new();
    let mut i: usize = 0;
    let mut started = false;
    let mut gap = false;
    while i < w.len()
        invariant
            i <= w.len(),
            w@ == ws,
            started == (sq@.len() > 0),
            sq@ + squash_from(ws, i as int, started, gap) == squash(ws),
        decreases w.len() - i,
    {
        let c = w[i];
        if is_whitespace(c) {
            gap = true;
        } else {
            if started && gap {
                proof {
                    assert(sq@.push(' ').push(c) + squash_from(ws, i + 1, true, false) =~= sq@ + (seq![
                        ' ',
                        c,
                    ] + squash_from(ws, i + 1, true, false)));
                }
                sq.push(' ');
                sq.push(c);
            } else {
                proof {
                    assert(sq@.push(c) + squash_from(ws, i + 1, true, false) =~= sq@ + (seq![c]
                        + squash_from(ws, i + 1, true, false)));
                }
                sq.push(c);
            }
            started = true;
            gap = false;
        }
        i = i + 1;
    }
    proof {
        assert(sq@ + Seq::<char>::empty() =~= sq@);
    }
    let ghost s1 = squash(ws);
    // At most 60 characters, trimmed again.
    let cut = if sq.len() <= 60 {
        sq.len()
    } else {
        60
    };
    proof {
        assert(sq@.subrange(0, cut as int) =~= take_chars(s1, 60));
    }
    let (a2, b2) = trim_bounds(&sq, 0, cut);
    let ghost s2 = sq@.subrange(a2 as int, b2 as int);
    // Trailing dots dropped.
    let mut end = b2;
    while end > a2 && sq[end - 1] == '.'
        invariant
            a2 <= end <= b2 <= sq.len(),
            s2 == sq@.subrange(a2 as int, b2 as int),
            drop_trailing(sq@.subrange(a2 as int, end as int), '.') == drop_trailing(s2, '.'),
        decreases end,
    {
        proof {
            assert(sq@.subrange(a2 as int, end as int).drop_last() =~= sq@.subrange(
                a2 as int,
                end - 1,
            ));
        }
        end = end - 1;
    }
    proof {
        let t = sq@.subrange(a2 as int, end as int);
        if end > a2 {
            assert(t.last() == sq@[end - 1]);
        }
        assert(drop_trailing(t, '.') == t);
    }
    let s3 = string_of(&sq, a2, end);
    let u = vec!['U', 'n', 't', 'i', 't', 'l', 'e', 'd'];
    proof {
        assert(u@.subrange(0, 8) =~= untitled());
    }
    if end == a2 {
        return string_of(&u, 0, 8);
    }
    let low = to_lowercase(s3.as_str());
    let lv = chars_of(low.as_str());
    if is_reserved(&lv) {
        string_of(&u, 0, 8)
    } else {
        s3
    }
}

/// The file name `base.ext` for `n <= 1`, else `base n.ext`.
pub open spec fn candidate_name(base: Seq<char>, ext: Seq<char>, n: nat) -> Seq<char> {
    if n <= 1 {
        base + seq!['.'] + ext
    } else {
        base + seq![' '] + dec(n) + seq!['.'] + ext
    }
}

/// A name is free when nothing in the folder has it, or when it is the note's own.
pub open spec fn name_free(name: Seq<char>, keep: Option<Seq<char>>, taken: Seq<Seq<char>>) -> bool {
    !taken.contains(name) || keep == Some(name)
}

pub open spec fn names_view(taken: Seq<String>) -> Seq<Seq<char>> {
    taken.map_values(|s: String| s@)
}

pub open spec fn opt_view(keep: Option<&str>) -> Option<Seq<char>> {
    match keep {
        Some(k) => Some(k@),
        None => None,
    }
}

/// The number of the free name that [`unique_path`] picks: 1 for `base.ext`,
/// otherwise the first `n >= 2` whose `base n.ext` is free.
pub open spec fn picks(
    base: Seq<char>,
    ext: Seq<char>,
    keep: Option<Seq<char>>,
    taken: Seq<Seq<char>>,
    n: nat,
) -> bool {
    &&& n >= 1
    &&& name_free(candidate_name(base, ext, n), keep, taken)
    &&& forall|m: nat| 1 <= m < n ==> !name_free(#[trigger] candidate_name(base, ext, m), keep, taken)
}

fn name_of(base: &Vec<char>, ext: &Vec<char>, n: u128) -> (r: Vec<char>)
    ensures
        r@ == candidate_name(base@, ext@, n as nat),
{
    let mut out: Vec<char> = Vec::new();
    push_range(&mut out, base, 0, base.len());
    if n > 1 {
        out.push(' ');
        push_decimal(&mut out, n);
    }
    out.push('.');
    push_range(&mut out, ext, 0, ext.len());
    proof {
        assert(base@.subrange(0, base@.len() as int) =~= base@);
        assert(ext@.subrange(0, ext@.len() as int) =~= ext@);
        assert(out@ =~= candidate_name(base@, ext@, n as nat));
    }
    out
}

fn contains_name(taken: &Vec<String>, name: &Vec<char>) -> (r: bool)
    ensures
        r == names_view(taken@).contains(name@),
{
    let ghost tv = names_view(taken@);
    let mut k: usize = 0;
    while k < taken.len()
        invariant
            k <= taken.len(),
            tv == names_view(taken@),
            forall|j: int| 0 <= j < k ==> tv[j] != name@,
        decreases taken.len() - k,
    {
        let cv = chars_of(taken[k].as_str());
        if same_chars(&cv, name) {
            proof {
                assert(tv[k as int] == name@);
            }
            return true;
        }
        k = k + 1;
    }
    proof {
        if tv.contains(name@) {
            let j = choose|j: int| 0 <= j < tv.len() && tv[j] == name@;
            assert(tv[j] != name@);
        }
    }
    false
}

fn is_free(name: &Vec<char>, keep: Option<&str>, taken: &Vec<String>) -> (r: bool)
    ensures
        r == name_free(name@, opt_view(keep), names_view(taken@)),
{
    if !contains_name(taken, name) {
        return true;
    }
    match keep {
        Some(k) => {
            let kv = chars_of(k);
            same_chars(&kv, name)
        },
        None => false,
    }
}

/// Different numbers give different candidate names.
proof fn lemma_candidate_injective(base: Seq<char>, ext: Seq<char>, a: nat, b: nat)
    requires
        a >= 2,
        b >= 2,
        candidate_name(base, ext, a) == candidate_name(base, ext, b),
    ensures
        a == b,
{
    let ca = candidate_name(base, ext, a);
    let cb = candidate_name(base, ext, b);
    let lo = base.len() + 1;
    assert(ca == base + seq![' '] + dec(a) + seq!['.'] + ext);
    assert(cb == base + seq![' '] + dec(b) + seq!['.'] + ext);
    assert(dec(a).len() == dec(b).len());
    assert(ca.subrange(lo as int, (lo + dec(a).len()) as int) =~= dec(a));
    assert(cb.subrange(lo as int, (lo + dec(b).len()) as int) =~= dec(b));
    crate::text::lemma_dec_injective(a, b);
}

/// When every name numbered `2..n` is taken, the folder holds at least `n - 2` names.
proof fn lemma_taken_count(
    base: Seq<char>,
    ext: Seq<char>,
    keep: Option<Seq<char>>,
    taken: Seq<Seq<char>>,
    n: nat,
)
    requires
        n >= 2,
        forall|m: nat| 2 <= m < n ==> !name_free(#[trigger] candidate_name(base, ext, m), keep, taken),
    ensures
        n - 2 <= taken.len(),
{
    let x = vstd::set_lib::set_int_range(2, n as int);
    vstd::set_lib::lemma_int_range(2, n as int);
    let f = |m: int| candidate_name(base, ext, m as nat);
    let y = x.map(f);
    assert forall|p: int, q: int| x.contains(p) && x.contains(q) && f(p) == f(q) implies p == q by {
        lemma_candidate_injective(base, ext, p as nat, q as nat);
    }
    assert(vstd::relations::injective_on(f, x));
    vstd::set_lib::lemma_map_size(x, y, f);
    assert(y.subset_of(taken.to_set())) by {
        assert forall|s: Seq<char>| y.contains(s) implies taken.to_set().contains(s) by {
            let m = choose|m: int| x.contains(m) && f(m) == s;
            assert(!name_free(candidate_name(base, ext, m as nat), keep, taken));
        }
    }
    taken.lemma_cardinality_of_set();
    vstd::set_lib::lemma_len_subset(y, taken.to_set());
}

/// A file name `<base>.<ext>`, or `<base> <n>.<ext>` with the smallest `n >= 2`,
/// that no name in `taken` (the names already in the folder) has, unless it is
/// `keep`, the note's own current name.
pub fn unique_path(base: &str, ext: &str, keep: Option<&str>, taken: &Vec<String>) -> (r: String)
    ensures
        exists|n: nat|
            picks(base@, ext@, opt_view(keep), names_view(taken@), n) && r@ == candidate_name(
                base@,
                ext@,
                n,
            ),
{
    let bv = chars_of(base);
    let ev = chars_of(ext);
    let ghost kv = opt_view(keep);
    let ghost tv = names_view(taken@);
    let first = name_of(&bv, &ev, 1);
    if is_free(&first, keep, taken) {
        proof {
            assert(picks(base@, ext@, kv, tv, 1));
        }
        return string_of(&first, 0, first.len());
    }
    let tl = taken.len();
    let mut n: u128 = 2;
    loop
        invariant
            2 <= n,
            tl == taken@.len(),
            n - 2 <= taken@.len(),
            bv@ == base@,
            ev@ == ext@,
            kv == opt_view(keep),
            tv == names_view(taken@),
            forall|m: nat| 1 <= m < n ==> !name_free(#[trigger] candidate_name(base@, ext@, m), kv, tv),
        decreases taken@.len() + 2 - n,
    {
        let name = name_of(&bv, &ev, n);
        if is_free(&name, keep, taken) {
            proof {
                assert(picks(base@, ext@, kv, tv, n as nat));
                assert(name@.subrange(0, name@.len() as int) =~= name@);
            }
            return string_of(&name, 0, name.len());
        }
        proof {
            lemma_taken_count(base@, ext@, kv, tv, (n + 1) as nat);
            assert(tv.len() == taken@.len());
        }
        n = n + 1;
    }
}

/// Whether `y` is a leap year of the Gregorian calendar.
pub open spec fn is_leap(y: int) -> bool {
    (y % 4 == 0 && y % 100 != 0) || y % 400 == 0
}

pub open spec fn year_len(y: int) -> int {
    if is_leap(y) {
        366
    } else {
        365
    }
}

/// The number of days of month `m` (0 for January).
pub open spec fn month_len(leap: bool, m: int) -> int {
    if m == 1 {
        if leap {
            29
        } else {
            28
        }
    } else if m == 3 || m == 5 || m == 8 || m == 10 {
        30
    } else {
        31
    }
}

/// Month (from 0) and day of month (from 0) of day `d` (from 0) of a year,
/// counting from month `m`.
pub open spec fn month_day(leap: bool, m: int, d: int) -> (int, int)
    decreases 12 - m,
{
    if m >= 11 || d < month_len(leap, m) {
        (m, d)
    } else {
        month_day(leap, m + 1, d - month_len(leap, m))
    }
}

/// Month and day of month of the day that lies `d` days after the first of
/// January of year `y`.
pub open spec fn date_in(y: int, d: int) -> (int, int)
    decreases d,
{
    if d < 0 || d < year_len(y) {
        month_day(is_leap(y), 0, d)
    } else {
        date_in(y + 1, d - year_len(y))
    }
}

/// Month and day of month (both from 0) of the day `days` days after the
/// first of January 1970. The Gregorian calendar repeats every 400 years,
/// which are 146 097 days, so only the remainder by that matters.
pub open spec fn day_month(days: nat) -> (int, int) {
    date_in(1970, (days % 146_097) as int)
}

/// The English three-letter name of month `m` (0 for January).
pub open spec fn month_abbr(m: int) -> Seq<char> {
    if m == 0 {
        seq!['J', 'a', 'n']
    } else if m == 1 {
        seq!['F', 'e', 'b']
    } else if m == 2 {
        seq!['M', 'a', 'r']
    } else if m == 3 {
        seq!['A', 'p', 'r']
    } else if m == 4 {
        seq!['M', 'a', 'y']
    } else if m == 5 {
        seq!['J', 'u', 'n']
    } else if m == 6 {
        seq!['J', 'u', 'l']
    } else if m == 7 {
        seq!['A', 'u', 'g']
    } else if m == 8 {
        seq!['S', 'e', 'p']
    } else if m == 9 {
        seq!['O', 'c', 't']
    } else if m == 10 {
        seq!['N', 'o', 'v']
    } else {
        seq!['D', 'e', 'c']
    }
}

/// The calendar date (UTC) of the moment `at` seconds after 1970-01-01
/// 00:00 UTC, as `<day> <Mon>`, such as `12 Jun`.
pub open spec fn date_text(at: nat) -> Seq<char> {
    let dm = day_month(at / 86_400);
    dec((dm.1 + 1) as nat) + seq![' '] + month_abbr(dm.0)
}

/// A human-friendly age for something changed at `at` (seconds after
/// 1970-01-01 UTC) and now `secs` seconds old: `Just now`, `Nm ago`,
/// `Nh ago`, `Yesterday`, or its date such as `12 Jun`.
pub open spec fn age_text(secs: nat, at: nat) -> Seq<char> {
    if secs <= 45 {
        seq!['J', 'u', 's', 't', ' ', 'n', 'o', 'w']
    } else if secs <= 3599 {
        dec(if secs / 60 >= 1 {
            secs / 60
        } else {
            1
        }) + seq!['m', ' ', 'a', 'g', 'o']
    } else if secs <= 86_399 {
        dec(secs / 3600) + seq!['h', ' ', 'a', 'g', 'o']
    } else if secs <= 172_799 {
        seq!['Y', 'e', 's', 't', 'e', 'r', 'd', 'a', 'y']
    } else {
        date_text(at)
    }
}

fn leap_year(y: u64) -> (r: bool)
    ensures
        r == is_leap(y as int),
{
    (y % 4 == 0 && y % 100 != 0) || y % 400 == 0
}

fn year_days(y: u64) -> (r: u64)
    ensures
        r == year_len(y as int),
{
    if leap_year(y) {
        366
    } else {
        365
    }
}

fn days_in_month(leap: bool, m: u64) -> (r: u64)
    ensures
        r == month_len(leap, m as int),
{
    if m == 1 {
        if leap {
            29
        } else {
            28
        }
    } else if m == 3 || m == 5 || m == 8 || m == 10 {
        30
    } else {
        31
    }
}

/// Month and day of month (both from 0) of the day `days` days after the
/// first of January 1970.
pub fn day_month_of(days: u64) -> (r: (u64, u64))
    ensures
        r.0 == day_month(days as nat).0,
        r.1 == day_month(days as nat).1,
        r.0 < 12,
        r.1 < 146_097,
{
    let d0: u64 = days % 146_097;
    let mut d: u64 = d0;
    let mut y: u64 = 1970;
    while d >= year_days(y)
        invariant
            d <= d0 < 146_097,
            1970 <= y,
            (y - 1970) * 365 <= d0 - d,
            date_in(y as int, d as int) == date_in(1970, d0 as int),
        decreases d,
    {
        d = d - year_days(y);
        y = y + 1;
    }
    let leap = leap_year(y);
    let mut m: u64 = 0;
    while m < 11 && d >= days_in_month(leap, m)
        invariant
            m <= 11,
            d < 146_097,
            month_day(leap, m as int, d as int) == date_in(1970, d0 as int),
        decreases 11 - m,
    {
        d = d - days_in_month(leap, m);
        m = m + 1;
    }
    (m, d)
}

fn month_name(m: u64) -> (r: Vec<char>)
    ensures
        r@ == month_abbr(m as int),
        r@.len() == 3,
{
    let r = if m == 0 {
        vec!['J', 'a', 'n']
    } else if m == 1 {
        vec!['F', 'e', 'b']
    } else if m == 2 {
        vec!['M', 'a', 'r']
    } else if m == 3 {
        vec!['A', 'p', 'r']
    } else if m == 4 {
        vec!['M', 'a', 'y']
    } else if m == 5 {
        vec!['J', 'u', 'n']
    } else if m == 6 {
        vec!['J', 'u', 'l']
    } else if m == 7 {
        vec!['A', 'u', 'g']
    } else if m == 8 {
        vec!['S', 'e', 'p']
    } else if m == 9 {
        vec!['O', 'c', 't']
    } else if m == 10 {
        vec!['N', 'o', 'v']
    } else {
        vec!['D', 'e', 'c']
    };
    proof {
        assert(r@ =~= month_abbr(m as int));
    }
    r
}

/// How long ago something was changed, given its age `secs` in seconds and
/// the moment `at` it was changed, in seconds after 1970-01-01 UTC.
pub fn relative_time(secs: u64, at: u64) -> (r: String)
    ensures
        r@ == age_text(secs as nat, at as nat),
{
    let mut out: Vec<char> = Vec::new();
    if secs <= 45 {
        out = vec!['J', 'u', 's', 't', ' ', 'n', 'o', 'w'];
    } else if secs <= 3599 {
        let mins = if secs / 60 >= 1 {
            secs / 60
        } else {
            1
        };
        push_decimal(&mut out, mins as u128);
        out.push('m');
        out.push(' ');
        out.push('a');
        out.push('g');
        out.push('o');
    } else if secs <= 86_399 {
        push_decimal(&mut out, (secs / 3600) as u128);
        out.push('h');
        out.push(' ');
        out.push('a');
        out.push('g');
        out.push('o');
    } else if secs <= 172_799 {
        out = vec!['Y', 'e', 's', 't', 'e', 'r', 'd', 'a', 'y'];
    } else {
        let (m, d) = day_month_of(at / 86_400);
        push_decimal(&mut out, (d + 1) as u128);
        out.push(' ');
        let abbr = month_name(m);
        push_range(&mut out, &abbr, 0, 3);
        proof {
            assert(abbr@.subrange(0, 3) =~= abbr@);
        }
    }
    proof {
        assert(out@ =~= age_text(secs as nat, at as nat));
        assert(out@.subrange(0, out@.len() as int) =~= out@);
    }
    string_of(&out, 0, out.len())
}

} // verus!
verus! {

/// A note file read from disk.
pub struct LoadedNote {
    pub path: String,
    pub content: String,
    /// Last modification, in nanoseconds since the Unix epoch.
    pub modified: u128,
}

} // verus!
verus! {

/// The extensions of the files treated as editable plain-text notes.
pub open spec fn note_exts() -> Seq<Seq<char>> {
    seq![
        seq!['t', 'x', 't'],
        seq!['m', 'd'],
        seq!['m', 'a', 'r', 'k', 'd', 'o', 'w', 'n'],
        seq!['l', 'o', 'g'],
        seq!['t', 'e', 'x', 't'],
        seq!['c', 'o', 'n', 'f'],
        seq!['c', 's', 'v'],
    ]
}

/// Whether a file with this extension is a note (compared in lowercase).
pub fn is_note_ext(ext: &str) -> (r: bool)
    ensures
        r == note_exts().contains(lowercase(ext@)),
{
    let low = to_lowercase(ext);
    let v = chars_of(low.as_str());
    let names: Vec<Vec<char>> = vec![
        vec!['t', 'x', 't'],
        vec!['m', 'd'],
        vec!['m', 'a', 'r', 'k', 'd', 'o', 'w', 'n'],
        vec!['l', 'o', 'g'],
        vec!['t', 'e', 'x', 't'],
        vec!['c', 'o', 'n', 'f'],
        vec!['c', 's', 'v'],
    ];
    let ghost ne = note_exts();
    assert(names@.len() == ne.len());
    assert forall|k: int| 0 <= k < ne.len() implies (#[trigger] names@[k])@ == ne[k] by {
        assert(names@[k]@ =~= ne[k]);
    }
    let mut k: usize = 0;
    while k < names.len()
        invariant
            k <= names.len(),
            names@.len() == ne.len(),
            ne == note_exts(),
            v@ == lowercase(ext@),
            forall|j: int| 0 <= j < ne.len() ==> (#[trigger] names@[j])@ == ne[j],
            forall|j: int| 0 <= j < k ==> ne[j] != v@,
        decreases names.len() - k,
    {
        if same_chars(&names[k], &v) {
            proof {
                assert(ne[k as int] == v@);
            }
            return true;
        }
        k = k + 1;
    }
    proof {
        if ne.contains(v@) {
            let j = choose|j: int| 0 <= j < ne.len() && ne[j] == v@;
            assert(ne[j] != v@);
        }
    }
    false
}

/// The first place in `s` holding a note that is not newer than `x`.
pub open spec fn first_not_newer(s: Seq<LoadedNote>, x: LoadedNote, p: int) -> int
    decreases s.len() - p,
{
    if p >= s.len() {
        s.len() as int
    } else if s[p].modified <= x.modified {
        p
    } else {
        first_not_newer(s, x, p + 1)
    }
}

/// `s` ordered newest first, notes of equal age keeping their order: each note
/// goes before the later ones that are not newer than it.
pub open spec fn newest_first_spec(s: Seq<LoadedNote>) -> Seq<LoadedNote>
    decreases s.len(),
{
    if s.len() == 0 {
        seq![]
    } else {
        let rest = newest_first_spec(s.drop_first());
        rest.insert(first_not_newer(rest, s[0], 0), s[0])
    }
}

proof fn lemma_first_not_newer(s: Seq<LoadedNote>, x: LoadedNote, p: int)
    requires
        0 <= p <= s.len(),
    ensures
        p <= first_not_newer(s, x, p) <= s.len(),
    decreases s.len() - p,
{
    if p < s.len() && s[p].modified > x.modified {
        lemma_first_not_newer(s, x, p + 1);
    }
}

pub proof fn lemma_newest_first_len(s: Seq<LoadedNote>)
    ensures
        newest_first_spec(s).len() == s.len(),
    decreases s.len(),
{
    if s.len() > 0 {
        lemma_newest_first_len(s.drop_first());
        lemma_first_not_newer(newest_first_spec(s.drop_first()), s[0], 0);
    }
}

/// The notes read from disk, newest first (a stable sort by modification time).
pub fn newest_first(notes: Vec<LoadedNote>) -> (r: Vec<LoadedNote>)
    ensures
        r@ == newest_first_spec(notes@),
{
    let ghost src = notes@;
    let mut rest = notes;
    let mut out: Vec<LoadedNote> = Vec::new();
    proof {
        assert(src.skip(src.len() as int) =~= Seq::<LoadedNote>::empty());
    }
    while rest.len() > 0
        invariant
            rest@ == src.take(rest@.len() as int),
            rest@.len() <= src.len(),
            out@ == newest_first_spec(src.skip(rest@.len() as int)),
        decreases rest@.len(),
    {
        let x = rest.pop().unwrap();
        let k = rest.len();
        proof {
            assert(x == src[k as int]);
            assert(rest@ =~= src.take(k as int));
            assert(src.skip(k as int).drop_first() =~= src.skip(k + 1));
            assert(src.skip(k as int)[0] == x);
            lemma_first_not_newer(out@, x, 0);
        }
        let mut p: usize = 0;
        while p < out.len() && out[p].modified > x.modified
            invariant
                p <= out@.len(),
                first_not_newer(out@, x, p as int) == first_not_newer(out@, x, 0),
            decreases out@.len() - p,
        {
            p = p + 1;
        }
        out.insert(p, x);
    }
    proof {
        assert(src.skip(0) =~= src);
    }
    out
}

} // verus!
verus! {

/// A character Windows accepts in a file name.
pub open spec fn name_char_ok(c: char) -> bool {
    !is_forbidden(c) && !is_ctrl(c)
}

pub open spec fn name_chars_ok(t: Seq<char>) -> bool {
    forall|i: int| 0 <= i < t.len() ==> name_char_ok(#[trigger] t[i])
}

proof fn lemma_squash_ok(t: Seq<char>, i: int, started: bool, gap: bool)
    requires
        name_chars_ok(t),
        0 <= i <= t.len(),
    ensures
        name_chars_ok(squash_from(t, i, started, gap)),
    decreases t.len() - i,
{
    if i < t.len() {
        if is_ws(t[i]) {
            lemma_squash_ok(t, i + 1, started, true);
        } else {
            lemma_squash_ok(t, i + 1, true, false);
            let rest = squash_from(t, i + 1, true, false);
            let head: Seq<char> = if started && gap {
                seq![' ', t[i]]
            } else {
                seq![t[i]]
            };
            assert(squash_from(t, i, started, gap) == head + rest);
            assert forall|k: int| 0 <= k < (head + rest).len() implies name_char_ok(
                #[trigger] (head + rest)[k],
            ) by {
                if k >= head.len() {
                    assert((head + rest)[k] == rest[k - head.len()]);
                }
            }
        }
    }
}

proof fn lemma_drop_trailing(t: Seq<char>, c: char)
    ensures
        drop_trailing(t, c).len() <= t.len(),
        drop_trailing(t, c) == t.take(drop_trailing(t, c).len() as int),
        drop_trailing(t, c).len() > 0 ==> drop_trailing(t, c).last() != c,
    decreases t.len(),
{
    if t.len() > 0 && t.last() == c {
        lemma_drop_trailing(t.drop_last(), c);
        let r = drop_trailing(t.drop_last(), c);
        assert(t.drop_last().take(r.len() as int) =~= t.take(r.len() as int));
    } else {
        assert(t.take(t.len() as int) =~= t);
    }
}

/// A sanitized stem holds no character that Windows refuses in file names
/// (`<>:"/\|?*` and control characters), is never empty, is at most 60
/// characters long, does not end in a dot, and is either the fixed name
/// `Untitled` or a stem whose lowercase is none of the reserved names.
pub proof fn lemma_sanitized_is_safe(title: Seq<char>)
    ensures
        name_chars_ok(sanitized(title)),
        sanitized(title).len() > 0,
        sanitized(title).len() <= 60,
        sanitized(title).last() != '.',
        sanitized(title) == untitled() || !reserved_names().contains(lowercase(sanitized(title))),
{
    let ws = trim(title).map_values(|c: char| scrub(c));
    assert(name_chars_ok(ws)) by {
        assert forall|i: int| 0 <= i < ws.len() implies name_char_ok(#[trigger] ws[i]) by {
            assert(ws[i] == scrub(trim(title)[i]));
        }
    }
    lemma_squash_ok(ws, 0, false, false);
    let s1 = squash(ws);
    let cut = take_chars(s1, 60);
    assert(name_chars_ok(cut)) by {
        assert forall|i: int| 0 <= i < cut.len() implies name_char_ok(#[trigger] cut[i]) by {
            assert(cut[i] == s1[i]);
        }
    }
    let a = crate::text::skip_ws(cut, 0);
    crate::text::lemma_skip_ws(cut, 0);
    crate::text::lemma_skip_ws_back(cut, a, cut.len() as int);
    let s2 = trim(cut);
    assert(name_chars_ok(s2)) by {
        assert forall|i: int| 0 <= i < s2.len() implies name_char_ok(#[trigger] s2[i]) by {
            assert(s2[i] == cut[a + i]);
        }
    }
    lemma_drop_trailing(s2, '.');
    let s3 = drop_trailing(s2, '.');
    assert(name_chars_ok(s3)) by {
        assert forall|i: int| 0 <= i < s3.len() implies name_char_ok(#[trigger] s3[i]) by {
            assert(s3[i] == s2.take(s3.len() as int)[i]);
        }
    }
    let r = sanitized(title);
    if r == untitled() {
        assert forall|i: int| 0 <= i < r.len() implies name_char_ok(#[trigger] r[i]) by {
            assert(0 <= i < 8);
        }
    }
}

/// Sorting keeps the notes and puts them newest first.
pub proof fn lemma_newest_first_sorted(s: Seq<LoadedNote>)
    ensures
        newest_first_spec(s).to_multiset() == s.to_multiset(),
        forall|i: int, j: int|
            0 <= i < j < newest_first_spec(s).len() ==> (#[trigger] newest_first_spec(s)[i]).modified
                >= (#[trigger] newest_first_spec(s)[j]).modified,
    decreases s.len(),
{
    broadcast use vstd::seq_lib::to_multiset_insert;
    broadcast use vstd::multiset::group_multiset_axioms;

    if s.len() == 0 {
        assert(s =~= Seq::<LoadedNote>::empty());
    } else {
        let rest = newest_first_spec(s.drop_first());
        lemma_newest_first_sorted(s.drop_first());
        lemma_newest_first_len(s.drop_first());
        let p = first_not_newer(rest, s[0], 0);
        lemma_first_not_newer(rest, s[0], 0);
        lemma_first_not_newer_facts(rest, s[0], 0);
        let r = rest.insert(p, s[0]);
        assert(r.to_multiset() == rest.to_multiset().insert(s[0]));
        assert(s.drop_first().insert(0, s[0]) =~= s);
        assert(s.to_multiset() == s.drop_first().to_multiset().insert(s[0]));
        assert forall|i: int, j: int| 0 <= i < j < r.len() implies (#[trigger] r[i]).modified >= (
        #[trigger] r[j]).modified by {
            if j < p {
                assert(r[i] == rest[i] && r[j] == rest[j]);
            } else if j == p {
                assert(r[i] == rest[i]);
            } else if i < p {
                assert(r[i] == rest[i] && r[j] == rest[j - 1]);
            } else if i == p {
                assert(r[j] == rest[j - 1]);
            } else {
                assert(r[i] == rest[i - 1] && r[j] == rest[j - 1]);
            }
        }
    }
}

proof fn lemma_first_not_newer_facts(s: Seq<LoadedNote>, x: LoadedNote, p: int)
    requires
        0 <= p <= s.len(),
        forall|i: int, j: int| 0 <= i < j < s.len() ==> (#[trigger] s[i]).modified >= (#[trigger] s[j]).modified,
        forall|i: int| 0 <= i < p ==> (#[trigger] s[i]).modified > x.modified,
    ensures
        forall|i: int| 0 <= i < first_not_newer(s, x, p) ==> (#[trigger] s[i]).modified > x.modified,
        forall|i: int|
            first_not_newer(s, x, p) <= i < s.len() ==> (#[trigger] s[i]).modified <= x.modified,
    decreases s.len() - p,
{
    if p < s.len() && s[p].modified > x.modified {
        lemma_first_not_newer_facts(s, x, p + 1);
    } else if p < s.len() {
        assert forall|i: int| p <= i < s.len() implies (#[trigger] s[i]).modified <= x.modified by {
            if i > p {
                assert(s[p].modified >= s[i].modified);
            }
        }
    }
}

} // verus!
