//! The `key=value` preference files, the update record kept in one of them,
//! and how a release description updates that record.

use vstd::prelude::*;
use crate::text::{chars_of, string_of, trim, trim_bounds, push_range};

verus! {

/// The first `'='` in `l` at or after `k`.
pub open spec fn find_eq(l: Seq<char>, k: int) -> Option<int>
    decreases l.len() - k,
{
    if k >= l.len() {
        None
    } else if l[k] == '=' {
        Some(k)
    } else {
        find_eq(l, k + 1)
    }
}

/// The setting a line holds: the text before its first `'='` and the text
/// after it, both trimmed; none when the line has no `'='`.
pub open spec fn setting_of(l: Seq<char>) -> Option<(Seq<char>, Seq<char>)> {
    match find_eq(l, 0) {
        Some(k) => Some((trim(l.take(k)), trim(l.skip(k + 1)))),
        None => None,
    }
}

pub open spec fn opt_setting(l: Seq<char>) -> Seq<(Seq<char>, Seq<char>)> {
    match setting_of(l) {
        Some(p) => seq![p],
        None => seq![],
    }
}

/// The settings of the lines of `t`, scanning from `i` with the current line
/// starting at `s`, in order.
///
/// Lines are separated by `'\n'`; a final empty line does not count. A `'\r'`
/// before a `'\n'` stays in the line here and is removed by the trimming, so
/// the result is the same as with std's `str::lines`.
pub open spec fn settings_scan(t: Seq<char>, s: int, i: int) -> Seq<(Seq<char>, Seq<char>)>
    decreases t.len() - i,
{
    if i >= t.len() {
        if 0 <= s < t.len() {
            opt_setting(t.subrange(s, t.len() as int))
        } else {
            seq![]
        }
    } else if t[i] == '\n' {
        opt_setting(t.subrange(s, i)) + settings_scan(t, i + 1, i + 1)
    } else {
        settings_scan(t, s, i + 1)
    }
}

pub open spec fn settings(t: Seq<char>) -> Seq<(Seq<char>, Seq<char>)> {
    settings_scan(t, 0, 0)
}

pub open spec fn pairs_view(v: Seq<(String, String)>) -> Seq<(Seq<char>, Seq<char>)> {
    v.map_values(|p: (String, String)| (p.0@, p.1@))
}

/// The setting held by the line `v[i..e]`.
fn setting_in(v: &Vec<char>, i: usize, e: usize) -> (r: Option<(String, String)>)
    requires
        i <= e <= v.len(),
    ensures
        match r {
            Some(p) => setting_of(v@.subrange(i as int, e as int)) == Some((p.0@, p.1@)),
            None => setting_of(v@.subrange(i as int, e as int)) is None,
        },
{
    let ghost l = v@.subrange(i as int, e as int);
    let mut k = i;
    while k < e && v[k] != '='
        invariant
            i <= k <= e <= v.len(),
            l == v@.subrange(i as int, e as int),
            find_eq(l, k - i) == find_eq(l, 0),
        decreases e - k,
    {
        k = k + 1;
    }
    if k == e {
        return None;
    }
    let (a, b) = trim_bounds(v, i, k);
    let (c, d) = trim_bounds(v, k + 1, e);
    proof {
        assert(find_eq(l, 0) == Some(k - i));
        assert(l.take(k - i) =~= v@.subrange(i as int, k as int));
        assert(l.skip(k - i + 1) =~= v@.subrange(k + 1, e as int));
    }
    Some((string_of(v, a, b), string_of(v, c, d)))
}

/// The `key=value` settings in a preferences text, in order: one for each line
/// that holds a `'='`, split at its first `'='`, both sides trimmed.
pub fn parse_settings(text: &str) -> (r: Vec<(String, String)>)
    ensures
        pairs_view(r@) == settings(text@),
{
    let v = chars_of(text);
    let ghost t = v@;
    let mut out: Vec<(String, String)> = Vec::new();
    let mut s: usize = 0;
    let mut i: usize = 0;
    while i < v.len()
        invariant
            s <= i <= v.len(),
            t == v@,
            t == text@,
            pairs_view(out@) + settings_scan(t, s as int, i as int) == settings(t),
        decreases v.len() - i,
    {
        if v[i] == '\n' {
            let ghost before = pairs_view(out@);
            let ghost here = opt_setting(t.subrange(s as int, i as int));
            match setting_in(&v, s, i) {
                Some(p) => {
                    let ghost pv = (p.0@, p.1@);
                    out.push(p);
                    proof {
                        assert(pairs_view(out@) =~= before.push(pv));
                        assert(here =~= seq![pv]);
                    }
                },
                None => {},
            }
            proof {
                assert(pairs_view(out@) =~= before + here);
                assert(before + (here + settings_scan(t, i + 1, i + 1)) =~= (before + here)
                    + settings_scan(t, i + 1, i + 1));
            }
            s = i + 1;
        }
        i = i + 1;
    }
    if s < v.len() {
        let ghost before = pairs_view(out@);
        let ghost here = opt_setting(t.subrange(s as int, t.len() as int));
        match setting_in(&v, s, v.len()) {
            Some(p) => {
                let ghost pv = (p.0@, p.1@);
                out.push(p);
                proof {
                    assert(pairs_view(out@) =~= before.push(pv));
                    assert(here =~= seq![pv]);
                }
            },
            None => {},
        }
        proof {
            assert(pairs_view(out@) =~= before + here);
        }
    } else {
        proof {
            assert(pairs_view(out@) + Seq::<(Seq<char>, Seq<char>)>::empty() =~= pairs_view(out@));
        }
    }
    out
}

} // verus!
