//! Properties of the markup functions that hold across calls and inputs.

use vstd::prelude::*;
use crate::markup::{
    link_holding, links_in_bytes, url_at_spec, http_chars, is_link_start, is_stop, is_trail, link_end, links_from, scan_end, trim_trail,
};
use crate::markup::{
    clamp, is_wrapped, parse_spec, runs_from, runs_in_bytes, stripped, to_bytes, toggled,
    toggled_selection, CharSeg, candidate, find_marker, marker_at, marker_of, opens, with_fmt,
    Style,
};
use crate::text::{byte_pos, encode_utf8_len, has_at, lemma_byte_pos_full, lemma_byte_pos_mono,
    remove_all};

verus! {

/// Toggling a marker that was not there, then toggling it again on the
/// selection that the first call returned, gives back the text and the
/// selection it started from.
pub proof fn lemma_toggle_twice(t: Seq<char>, s: int, e: int, m: Seq<char>)
    requires
        0 <= s <= e <= t.len(),
        !is_wrapped(t, s, e, m),
    ensures
        ({
            let t2 = toggled(t, s, e, m);
            let (s2, e2) = toggled_selection(t, s, e, m);
            &&& toggled(t2, s2, e2, m) == t
            &&& toggled_selection(t2, s2, e2, m) == (s, e)
        }),
{
    let t2 = toggled(t, s, e, m);
    let ml = m.len() as int;
    let s2 = s + ml;
    let e2 = e + ml;
    assert(t2 == t.take(s) + m + t.subrange(s, e) + m + t.skip(e));
    assert(t2.len() == t.len() + 2 * ml);
    assert(clamp(t2, s2) == s2);
    assert(clamp(t2, e2) == e2);
    assert(t2.subrange(s2 - ml, s2) =~= m);
    assert(t2.subrange(e2, e2 + ml) =~= m);
    assert(is_wrapped(t2, s2, e2, m));
    assert(t2.take(s2 - ml) + t2.subrange(s2, e2) + t2.skip(e2 + ml) =~= t);
}

/// After a toggle the returned selection covers the same characters as the
/// selection that was passed in.
pub proof fn lemma_toggle_keeps_selection(t: Seq<char>, s: int, e: int, m: Seq<char>)
    requires
        0 <= s <= e <= t.len(),
    ensures
        ({
            let t2 = toggled(t, s, e, m);
            let (s2, e2) = toggled_selection(t, s, e, m);
            &&& 0 <= s2 <= e2 <= t2.len()
            &&& t2.subrange(s2, e2) == t.subrange(s, e)
        }),
{
    let t2 = toggled(t, s, e, m);
    let ml = m.len() as int;
    if is_wrapped(t, s, e, m) {
        assert(t2.subrange(s - ml, e - ml) =~= t.subrange(s, e));
    } else {
        assert(t2.subrange(s + ml, e + ml) =~= t.subrange(s, e));
    }
}

/// `r` covers `a..b` with non-empty runs that follow one another without gap or overlap.
pub open spec fn tiles(r: Seq<CharSeg>, a: int, b: int) -> bool {
    if r.len() == 0 {
        a == b
    } else {
        &&& r[0].0 == a
        &&& r[r.len() - 1].1 == b
        &&& forall|k: int| 0 <= k < r.len() ==> (#[trigger] r[k]).0 < r[k].1
        &&& forall|k: int| 0 <= k < r.len() - 1 ==> (#[trigger] r[k]).1 == r[k + 1].0
    }
}

proof fn lemma_tiles_concat(r1: Seq<CharSeg>, r2: Seq<CharSeg>, a: int, b: int, c: int)
    requires
        tiles(r1, a, b),
        tiles(r2, b, c),
    ensures
        tiles(r1 + r2, a, c),
{
    let r = r1 + r2;
    if r1.len() == 0 {
        assert(r =~= r2);
    } else if r2.len() == 0 {
        assert(r =~= r1);
    } else {
        assert forall|k: int| 0 <= k < r.len() implies (#[trigger] r[k]).0 < r[k].1 by {
            if k >= r1.len() {
                assert(r[k] == r2[k - r1.len()]);
            }
        }
        assert forall|k: int| 0 <= k < r.len() - 1 implies (#[trigger] r[k]).1 == r[k + 1].0 by {
            if k >= r1.len() {
                assert(r[k] == r2[k - r1.len()]);
                assert(r[k + 1] == r2[k + 1 - r1.len()]);
            } else if k == r1.len() - 1 {
                assert(r[k + 1] == r2[0]);
            }
        }
    }
}

proof fn lemma_tiles_one(a: int, b: int, st: crate::markup::Style, mk: bool)
    requires
        a < b,
    ensures
        tiles(seq![(a, b, st, mk)], a, b),
{
}

proof fn lemma_runs_tile(t: Seq<char>, hi: int, i: int, lit: int, st: crate::markup::Style)
    requires
        lit <= i <= hi,
    ensures
        tiles(runs_from(t, hi, i, lit, st), lit, hi),
    decreases hi - i,
{
    if i >= hi {
        if lit < hi {
            lemma_tiles_one(lit, hi, st, false);
        }
    } else {
        let c = candidate(t, hi, i, st);
        if c is Some && opens(t, hi, i, c->0) {
            let f = c->0;
            let m = marker_of(f).len() as int;
            let close = find_marker(t, hi, i + m, f);
            if close is Some && close->0 > i + m && close->0 + m <= hi {
                let k = close->0;
                let pending: Seq<CharSeg> = if i > lit {
                    seq![(lit, i, st, false)]
                } else {
                    seq![]
                };
                if i > lit {
                    lemma_tiles_one(lit, i, st, false);
                }
                lemma_tiles_one(i, i + m, st, true);
                lemma_runs_tile(t, k, i + m, i + m, with_fmt(st, f));
                lemma_tiles_one(k, k + m, st, true);
                lemma_runs_tile(t, hi, k + m, k + m, st);
                let a = seq![(i, i + m, st, true)];
                let inner = runs_from(t, k, i + m, i + m, with_fmt(st, f));
                let b = seq![(k, k + m, st, true)];
                let rest = runs_from(t, hi, k + m, k + m, st);
                lemma_tiles_concat(pending, a, lit, i, i + m);
                lemma_tiles_concat(pending + a, inner, lit, i + m, k);
                lemma_tiles_concat(pending + a + inner, b, lit, k, k + m);
                lemma_tiles_concat(pending + a + inner + b, rest, lit, k + m, hi);
            } else {
                lemma_runs_tile(t, hi, i + 1, lit, st);
            }
        } else {
            lemma_runs_tile(t, hi, i + 1, lit, st);
        }
    }
}

/// The runs of [`crate::markup::parse`] cover the whole text, in order, with no
/// gap, no overlap and no empty run; their byte offsets do the same over the
/// text's bytes.
pub proof fn lemma_parse_tiles(t: Seq<char>)
    ensures
        tiles(parse_spec(t), 0, t.len() as int),
        tiles(runs_in_bytes(t, parse_spec(t)), 0, encode_utf8_len(t) as int),
{
    lemma_runs_tile(t, t.len() as int, 0, 0, crate::markup::plain());
    let r = parse_spec(t);
    let rb = runs_in_bytes(t, r);
    lemma_byte_pos_full(t);
    assert(t.take(0) =~= Seq::<char>::empty());
    assert(byte_pos(t, 0) == 0) by {
        assert(vstd::utf8::encode_utf8(Seq::<char>::empty()) =~= Seq::<u8>::empty());
    }
    if r.len() > 0 {
        assert forall|k: int| 0 <= k < rb.len() implies (#[trigger] rb[k]).0 < rb[k].1 by {
            assert(rb[k] == to_bytes(t, r[k]));
            lemma_runs_bounds(t, r, k);
            lemma_byte_pos_mono(t, r[k].0, r[k].1);
        }
        assert forall|k: int| 0 <= k < rb.len() - 1 implies (#[trigger] rb[k]).1 == rb[k + 1].0 by {
            assert(rb[k] == to_bytes(t, r[k]));
            assert(rb[k + 1] == to_bytes(t, r[k + 1]));
        }
        assert(rb[0] == to_bytes(t, r[0]));
        assert(rb[rb.len() - 1] == to_bytes(t, r[r.len() - 1]));
    }
}

pub proof fn lemma_runs_bounds(t: Seq<char>, r: Seq<CharSeg>, k: int)
    requires
        tiles(r, 0, t.len() as int),
        0 <= k < r.len(),
    ensures
        0 <= r[k].0 < r[k].1 <= t.len(),
    decreases k,
{
    if k > 0 {
        lemma_runs_bounds(t, r, k - 1);
        assert(r[k - 1].1 == r[k].0);
    }
    lemma_runs_upper(t, r, k);
}

proof fn lemma_runs_upper(t: Seq<char>, r: Seq<CharSeg>, k: int)
    requires
        tiles(r, 0, t.len() as int),
        0 <= k < r.len(),
    ensures
        r[k].1 <= t.len(),
    decreases r.len() - k,
{
    if k < r.len() - 1 {
        lemma_runs_upper(t, r, k + 1);
        assert(r[k].1 == r[k + 1].0);
    }
}

proof fn lemma_no_star(t: Seq<char>)
    ensures
        !remove_all(t, seq!['*']).contains('*'),
    decreases t.len(),
{
    if t.len() > 0 {
        lemma_no_star(t.skip(1));
        if has_at(t, 0, seq!['*']) {
            assert(t.skip(seq!['*'].len() as int) =~= t.skip(1));
        } else {
            assert(t.subrange(0, 1) =~= seq![t[0]]);
            let r = seq![t[0]] + remove_all(t.skip(1), seq!['*']);
            assert forall|k: int| 0 <= k < r.len() implies r[k] != '*' by {
                if k > 0 {
                    assert(r[k] == remove_all(t.skip(1), seq!['*'])[k - 1]);
                }
            }
        }
    }
}

/// Text with its markers stripped holds no `*`.
pub proof fn lemma_stripped_has_no_star(t: Seq<char>)
    ensures
        !stripped(t).contains('*'),
{
    lemma_no_star(remove_all(remove_all(t, seq!['*', '*']), seq!['_', '_']));
}

/// Every character before `scan_end(t, k)` from `k` on is no stop character.
proof fn lemma_scan_end_clear(t: Seq<char>, k: int)
    requires
        0 <= k <= t.len(),
    ensures
        k <= scan_end(t, k) <= t.len(),
        forall|m: int| k <= m < scan_end(t, k) ==> !is_stop(#[trigger] t[m]),
    decreases t.len() - k,
{
    if k < t.len() && !is_stop(t[k]) {
        lemma_scan_end_clear(t, k + 1);
    }
}

proof fn lemma_trim_trail_end(t: Seq<char>, s: int, e: int)
    requires
        0 <= s <= e <= t.len(),
    ensures
        s <= trim_trail(t, s, e) <= e,
        trim_trail(t, s, e) > s ==> !is_trail(t[trim_trail(t, s, e) - 1]),
    decreases e - s,
{
    if e > s && is_trail(t[e - 1]) {
        lemma_trim_trail_end(t, s, e - 1);
    }
}

/// What every link found in a text looks like.
pub open spec fn link_shape(t: Seq<char>, s: int, e: int) -> bool {
    &&& 0 <= s < e <= t.len()
    &&& is_link_start(t, s)
    &&& forall|m: int| s <= m < e ==> !is_stop(#[trigger] t[m])
    &&& !is_trail(t[e - 1])
    &&& byte_pos(t, e) > byte_pos(t, s) + 8
}

/// Each link found starts with `http://` or `https://`, holds no whitespace or
/// other stop character, does not end in trailing punctuation and is more
/// than 8 bytes long; the links come in text order without overlapping.
pub proof fn lemma_links_well_formed(t: Seq<char>, j: int)
    requires
        0 <= j <= t.len(),
    ensures
        forall|k: int|
            0 <= k < links_from(t, j).len() ==> j <= (#[trigger] links_from(t, j)[k]).0 && link_shape(
                t,
                links_from(t, j)[k].0,
                links_from(t, j)[k].1,
            ),
        forall|k: int|
            0 <= k < links_from(t, j).len() - 1 ==> (#[trigger] links_from(t, j)[k]).1 <= links_from(
                t,
                j,
            )[k + 1].0,
    decreases t.len() - j,
{
    let r = links_from(t, j);
    if j + 4 > t.len() {
    } else if has_at(t, j, http_chars()) {
        if is_link_start(t, j) {
            let e0 = scan_end(t, j);
            let e = link_end(t, j);
            lemma_scan_end_clear(t, j);
            lemma_trim_trail_end(t, j, e0);
            let next = if e > j + 4 {
                e
            } else {
                j + 4
            };
            let here: Seq<(int, int)> = if byte_pos(t, e) > byte_pos(t, j) + 8 {
                seq![(j, e)]
            } else {
                seq![]
            };
            if byte_pos(t, e) > byte_pos(t, j) + 8 {
                if e <= j {
                    lemma_byte_pos_mono(t, e, j);
                }
                assert(link_shape(t, j, e));
            }
            lemma_links_well_formed(t, next);
            let rest = links_from(t, next);
            assert(r == here + rest);
            assert forall|k: int| 0 <= k < r.len() implies j <= (#[trigger] r[k]).0 && link_shape(
                t,
                r[k].0,
                r[k].1,
            ) by {
                if k >= here.len() {
                    assert(r[k] == rest[k - here.len()]);
                }
            }
            assert forall|k: int| 0 <= k < r.len() - 1 implies (#[trigger] r[k]).1 <= r[k + 1].0 by {
                if k >= here.len() {
                    assert(r[k] == rest[k - here.len()]);
                    assert(r[k + 1] == rest[k + 1 - here.len()]);
                } else {
                    assert(r[k + 1] == rest[0]);
                }
            }
        } else {
            assert(r == links_from(t, j + 4));
            lemma_links_well_formed(t, j + 4);
        }
    } else {
        assert(r == links_from(t, j + 1));
        lemma_links_well_formed(t, j + 1);
    }
}

} // verus!
verus! {

proof fn lemma_find_marker_at(t: Seq<char>, hi: int, j: int, f: crate::markup::Fmt)
    ensures
        find_marker(t, hi, j, f) matches Some(k) ==> j <= k && crate::markup::marker_at(t, hi, k, f),
    decreases hi - j,
{
    if j + marker_of(f).len() > hi {
    } else if crate::markup::marker_at(t, hi, j, f) {
    } else {
        lemma_find_marker_at(t, hi, j + 1, f);
    }
}

/// Whether every marker run of `r` holds exactly the characters of a marker.
pub open spec fn markers_hold_markers(t: Seq<char>, r: Seq<CharSeg>) -> bool {
    forall|k: int|
        0 <= k < r.len() && (#[trigger] r[k]).3 ==> exists|f: crate::markup::Fmt|
            0 <= r[k].0 <= r[k].1 <= t.len() && t.subrange(r[k].0, r[k].1) == marker_of(f)
}

proof fn lemma_markers_concat(t: Seq<char>, a: Seq<CharSeg>, b: Seq<CharSeg>)
    requires
        markers_hold_markers(t, a),
        markers_hold_markers(t, b),
    ensures
        markers_hold_markers(t, a + b),
{
    assert forall|k: int| 0 <= k < (a + b).len() && (#[trigger] (a + b)[k]).3 implies exists|
        f: crate::markup::Fmt,
    |
        0 <= (a + b)[k].0 <= (a + b)[k].1 <= t.len() && t.subrange((a + b)[k].0, (a + b)[k].1)
            == marker_of(f) by {
        if k >= a.len() {
            assert((a + b)[k] == b[k - a.len()]);
        } else {
            assert((a + b)[k] == a[k]);
        }
    }
}

proof fn lemma_runs_markers(t: Seq<char>, hi: int, i: int, lit: int, st: crate::markup::Style)
    requires
        0 <= lit <= i <= hi <= t.len(),
    ensures
        markers_hold_markers(t, runs_from(t, hi, i, lit, st)),
    decreases hi - i,
{
    if i >= hi {
    } else {
        let c = candidate(t, hi, i, st);
        if c is Some && opens(t, hi, i, c->0) {
            let f = c->0;
            let m = marker_of(f).len() as int;
            let close = find_marker(t, hi, i + m, f);
            if close is Some && close->0 > i + m && close->0 + m <= hi {
                let k = close->0;
                lemma_find_marker_at(t, hi, i + m, f);
                let pending: Seq<CharSeg> = if i > lit {
                    seq![(lit, i, st, false)]
                } else {
                    seq![]
                };
                let a = seq![(i, i + m, st, true)];
                let inner = runs_from(t, k, i + m, i + m, with_fmt(st, f));
                let b = seq![(k, k + m, st, true)];
                let rest = runs_from(t, hi, k + m, k + m, st);
                lemma_runs_markers(t, k, i + m, i + m, with_fmt(st, f));
                lemma_runs_markers(t, hi, k + m, k + m, st);
                assert(markers_hold_markers(t, a)) by {
                    assert(a[0].3);
                    assert(t.subrange(i, i + m) == marker_of(f));
                }
                assert(markers_hold_markers(t, b)) by {
                    assert(t.subrange(k, k + m) == marker_of(f));
                }
                lemma_markers_concat(t, pending, a);
                lemma_markers_concat(t, pending + a, inner);
                lemma_markers_concat(t, pending + a + inner, b);
                lemma_markers_concat(t, pending + a + inner + b, rest);
            } else {
                lemma_runs_markers(t, hi, i + 1, lit, st);
            }
        } else {
            lemma_runs_markers(t, hi, i + 1, lit, st);
        }
    }
}

/// Every marker run of a parsed text holds exactly the characters of one
/// marker (`**`, `*` or `__`): the markers themselves, which stay in the text.
pub proof fn lemma_parse_markers(t: Seq<char>)
    ensures
        markers_hold_markers(t, parse_spec(t)),
{
    lemma_runs_markers(t, t.len() as int, 0, 0, crate::markup::plain());
}

/// Runs moved `d` positions to the right.
pub open spec fn shifted(r: Seq<CharSeg>, d: int) -> Seq<CharSeg> {
    r.map_values(|c: CharSeg| (c.0 + d, c.1 + d, c.2, c.3))
}

/// `t` from `lo` to `hi` and `u` from 0 to `hi - lo` hold the same characters.
pub open spec fn same_window(t: Seq<char>, u: Seq<char>, lo: int, hi: int) -> bool {
    &&& 0 <= lo <= hi <= t.len()
    &&& hi - lo <= u.len()
    &&& forall|j: int| lo <= j < hi ==> t[j] == #[trigger] u[j - lo]
}

proof fn lemma_marker_window(t: Seq<char>, u: Seq<char>, lo: int, hi: int, i: int, f: crate::markup::Fmt)
    requires
        same_window(t, u, lo, hi),
        lo <= i,
    ensures
        marker_at(t, hi, i, f) == marker_at(u, hi - lo, i - lo, f),
{
    let m = marker_of(f).len() as int;
    if i + m <= hi {
        assert forall|j: int| 0 <= j < m implies #[trigger] t.subrange(i, i + m)[j] == u.subrange(
            i - lo,
            i - lo + m,
        )[j] by {
            assert(u[(i + j) - lo] == t[i + j]);
        }
        assert(t.subrange(i, i + m) =~= u.subrange(i - lo, i - lo + m));
    }
}

proof fn lemma_find_window(t: Seq<char>, u: Seq<char>, lo: int, hi: int, j: int, f: crate::markup::Fmt)
    requires
        same_window(t, u, lo, hi),
        lo <= j,
    ensures
        match find_marker(t, hi, j, f) {
            Some(p) => find_marker(u, hi - lo, j - lo, f) == Some(p - lo),
            None => find_marker(u, hi - lo, j - lo, f) is None,
        },
    decreases hi - j,
{
    lemma_marker_window(t, u, lo, hi, j, f);
    if j + marker_of(f).len() > hi {
    } else if marker_at(t, hi, j, f) {
    } else {
        lemma_find_window(t, u, lo, hi, j + 1, f);
    }
}

proof fn lemma_shifted_add(a: Seq<CharSeg>, b: Seq<CharSeg>, d: int)
    ensures
        shifted(a + b, d) == shifted(a, d) + shifted(b, d),
{
    assert(shifted(a + b, d) =~= shifted(a, d) + shifted(b, d));
}

proof fn lemma_runs_window(
    t: Seq<char>,
    u: Seq<char>,
    lo: int,
    hi: int,
    i: int,
    lit: int,
    st: Style,
)
    requires
        same_window(t, u, lo, hi),
        lo <= lit <= i,
    ensures
        runs_from(t, hi, i, lit, st) == shifted(runs_from(u, hi - lo, i - lo, lit - lo, st), lo),
    decreases hi - i,
{
    let r = runs_from(t, hi, i, lit, st);
    let ru = runs_from(u, hi - lo, i - lo, lit - lo, st);
    if i >= hi {
        assert(r =~= shifted(ru, lo));
    } else {
        lemma_marker_window(t, u, lo, hi, i, crate::markup::Fmt::Bold);
        lemma_marker_window(t, u, lo, hi, i, crate::markup::Fmt::Underline);
        lemma_marker_window(t, u, lo, hi, i, crate::markup::Fmt::Italic);
        let c = candidate(t, hi, i, st);
        assert(c == candidate(u, hi - lo, i - lo, st));
        if i + 1 < hi {
            assert(u[(i + 1) - lo] == t[i + 1]);
        }
        if c is Some && opens(t, hi, i, c->0) {
            let f = c->0;
            let m = marker_of(f).len() as int;
            assert(opens(u, hi - lo, i - lo, f));
            lemma_find_window(t, u, lo, hi, i + m, f);
            let close = find_marker(t, hi, i + m, f);
            if close is Some && close->0 > i + m && close->0 + m <= hi {
                let k = close->0;
                lemma_runs_window(t, u, lo, k, i + m, i + m, with_fmt(st, f));
                lemma_runs_window(t, u, lo, hi, k + m, k + m, st);
                let pending: Seq<CharSeg> = if i > lit {
                    seq![(lit, i, st, false)]
                } else {
                    seq![]
                };
                let pu: Seq<CharSeg> = if i - lo > lit - lo {
                    seq![(lit - lo, i - lo, st, false)]
                } else {
                    seq![]
                };
                assert(shifted(pu, lo) =~= pending);
                let a = seq![(i - lo, i - lo + m, st, true)];
                let b = seq![(k - lo, k - lo + m, st, true)];
                assert(shifted(a, lo) =~= seq![(i, i + m, st, true)]);
                assert(shifted(b, lo) =~= seq![(k, k + m, st, true)]);
                let inner = runs_from(u, k - lo, i + m - lo, i + m - lo, with_fmt(st, f));
                let rest = runs_from(u, hi - lo, k + m - lo, k + m - lo, st);
                assert(ru == pu + a + inner + b + rest);
                lemma_shifted_add(pu, a, lo);
                lemma_shifted_add(pu + a, inner, lo);
                lemma_shifted_add(pu + a + inner, b, lo);
                lemma_shifted_add(pu + a + inner + b, rest, lo);
            } else {
                lemma_runs_window(t, u, lo, hi, i + 1, lit, st);
            }
        } else {
            lemma_runs_window(t, u, lo, hi, i + 1, lit, st);
        }
    }
}

/// Parsing the window `lo..hi` of a text (as the parser does for the inside
/// of a marker pair) gives the runs of that stretch parsed on its own, moved
/// `lo` positions to the right.
pub proof fn lemma_parse_window(t: Seq<char>, lo: int, hi: int, st: Style)
    requires
        0 <= lo <= hi <= t.len(),
    ensures
        runs_from(t, hi, lo, lo, st) == shifted(
            runs_from(t.subrange(lo, hi), hi - lo, 0, 0, st),
            lo,
        ),
        runs_from(t, hi, lo, lo, crate::markup::plain()) == shifted(parse_spec(t.subrange(lo, hi)), lo),
{
    let u = t.subrange(lo, hi);
    assert forall|j: int| lo <= j < hi implies t[j] == #[trigger] u[j - lo] by {}
    lemma_runs_window(t, u, lo, hi, lo, lo, st);
    lemma_runs_window(t, u, lo, hi, lo, lo, crate::markup::plain());
}

/// No marker character (`*` or `_`) stands in `t` between `x` and `y`.
pub open spec fn no_marker_chars(t: Seq<char>, x: int, y: int) -> bool {
    forall|j: int| x <= j < y ==> #[trigger] t[j] != '*' && t[j] != '_'
}

proof fn lemma_no_marker_at(t: Seq<char>, hi: int, i: int, f: crate::markup::Fmt)
    requires
        0 <= i < t.len(),
        t[i] != '*' && t[i] != '_',
    ensures
        !marker_at(t, hi, i, f),
{
    let m = marker_of(f);
    if marker_at(t, hi, i, f) {
        assert(t.subrange(i, i + m.len())[0] == t[i]);
    }
}

proof fn lemma_skip_literal(t: Seq<char>, hi: int, i: int, p: int, lit: int, st: Style)
    requires
        0 <= i <= p <= hi <= t.len(),
        no_marker_chars(t, i, p),
    ensures
        runs_from(t, hi, i, lit, st) == runs_from(t, hi, p, lit, st),
    decreases p - i,
{
    if i < p {
        assert(t[i] != '*' && t[i] != '_');
        lemma_no_marker_at(t, hi, i, crate::markup::Fmt::Bold);
        lemma_no_marker_at(t, hi, i, crate::markup::Fmt::Underline);
        lemma_no_marker_at(t, hi, i, crate::markup::Fmt::Italic);
        lemma_skip_literal(t, hi, i + 1, p, lit, st);
    }
}

proof fn lemma_find_skip(t: Seq<char>, hi: int, j: int, p: int, f: crate::markup::Fmt)
    requires
        0 <= j <= p,
        p + marker_of(f).len() <= hi <= t.len(),
        no_marker_chars(t, j, p),
    ensures
        find_marker(t, hi, j, f) == find_marker(t, hi, p, f),
    decreases p - j,
{
    if j < p {
        assert(t[j] != '*' && t[j] != '_');
        lemma_no_marker_at(t, hi, j, f);
        lemma_find_skip(t, hi, j + 1, p, f);
    }
}

/// The runs of a text of `n` characters without marker characters after the
/// characters `a..b` were wrapped in the marker of `f`: the text before, the
/// opening marker, the selection in the style of `f`, the closing marker, and
/// the text after, all other runs unstyled.
pub open spec fn wrapped_runs(n: int, a: int, b: int, f: crate::markup::Fmt) -> Seq<CharSeg> {
    let m = marker_of(f).len() as int;
    let p = crate::markup::plain();
    let before: Seq<CharSeg> = if a > 0 {
        seq![(0, a, p, false)]
    } else {
        seq![]
    };
    let after: Seq<CharSeg> = if b < n {
        seq![(b + 2 * m, n + 2 * m, p, false)]
    } else {
        seq![]
    };
    before + seq![(a, a + m, p, true)] + seq![(a + m, b + m, with_fmt(p, f), false)] + seq![
        (b + m, b + 2 * m, p, true),
    ] + after
}

/// Formatting applies only to the range selected: wrapping a non-empty
/// selection of a text without marker characters in a style's marker makes
/// exactly the selected characters styled, the two markers marker runs, and
/// everything else unstyled text. (A `*` followed by whitespace opens
/// nothing, so for italics the selection must not start with whitespace.)
pub proof fn lemma_toggle_styles_selection(t0: Seq<char>, a: int, b: int, f: crate::markup::Fmt)
    requires
        0 <= a < b <= t0.len(),
        no_marker_chars(t0, 0, t0.len() as int),
        f == crate::markup::Fmt::Italic ==> !crate::text::is_ws(t0[a]),
    ensures
        parse_spec(toggled(t0, a, b, marker_of(f))) == wrapped_runs(t0.len() as int, a, b, f),
{
    let mk = marker_of(f);
    let m = mk.len() as int;
    let n = t0.len() as int;
    let p = crate::markup::plain();
    if a >= m {
        assert(t0.subrange(a - m, a)[0] == t0[a - m]);
    }
    assert(!is_wrapped(t0, a, b, mk));
    let t = toggled(t0, a, b, mk);
    assert(t == t0.take(a) + mk + t0.subrange(a, b) + mk + t0.skip(b));
    let hi = n + 2 * m;
    assert(t.len() == hi);
    assert forall|j: int| 0 <= j < a implies #[trigger] t[j] == t0[j] by {}
    assert forall|j: int| a + m <= j < b + m implies #[trigger] t[j] == t0[j - m] by {}
    assert forall|j: int| b + 2 * m <= j < hi implies #[trigger] t[j] == t0[j - 2 * m] by {}
    assert(t.subrange(a, a + m) =~= mk);
    assert(t.subrange(b + m, b + 2 * m) =~= mk);
    assert(no_marker_chars(t, 0, a)) by {
        assert forall|j: int| 0 <= j < a implies #[trigger] t[j] != '*' && t[j] != '_' by {
            assert(t[j] == t0[j]);
        }
    }
    assert(no_marker_chars(t, a + m, b + m)) by {
        assert forall|j: int| a + m <= j < b + m implies #[trigger] t[j] != '*' && t[j] != '_' by {
            assert(t[j] == t0[j - m]);
        }
    }
    assert(no_marker_chars(t, b + 2 * m, hi)) by {
        assert forall|j: int| b + 2 * m <= j < hi implies #[trigger] t[j] != '*' && t[j] != '_' by {
            assert(t[j] == t0[j - 2 * m]);
        }
    }
    lemma_skip_literal(t, hi, 0, a, 0, p);
    // The marker of `f` opens at `a`.
    assert(marker_at(t, hi, a, f));
    assert(t[a + m] == t0[a]);
    match f {
        crate::markup::Fmt::Bold => {},
        crate::markup::Fmt::Underline => {
            assert(t.subrange(a, a + 2)[0] == '_');
            assert(!marker_at(t, hi, a, crate::markup::Fmt::Bold));
        },
        crate::markup::Fmt::Italic => {
            assert(t[a + 1] == t0[a]);
            assert(t.subrange(a, a + 2)[1] == t[a + 1]);
            assert(!marker_at(t, hi, a, crate::markup::Fmt::Bold));
            assert(t.subrange(a, a + 2)[0] == '*');
            assert(!marker_at(t, hi, a, crate::markup::Fmt::Underline));
        },
    }
    assert(candidate(t, hi, a, p) == Some(f));
    assert(opens(t, hi, a, f));
    // It closes at `b + m`.
    lemma_find_skip(t, hi, a + m, b + m, f);
    assert(marker_at(t, hi, b + m, f));
    assert(find_marker(t, hi, a + m, f) == Some(b + m));
    let st = with_fmt(p, f);
    lemma_skip_literal(t, b + m, a + m, b + m, a + m, st);
    lemma_skip_literal(t, hi, b + 2 * m, hi, b + 2 * m, p);
    let inner = runs_from(t, b + m, a + m, a + m, st);
    assert(inner == seq![(a + m, b + m, st, false)]);
    let rest = runs_from(t, hi, b + 2 * m, b + 2 * m, p);
    let pending: Seq<CharSeg> = if a > 0 {
        seq![(0, a, p, false)]
    } else {
        seq![]
    };
    assert(runs_from(t, hi, a, 0, p) == pending + seq![(a, a + m, p, true)] + inner + seq![
        (b + m, b + 2 * m, p, true),
    ] + rest);
    assert(parse_spec(t) =~= wrapped_runs(n, a, b, f));
}

/// The byte range of link `k` of `t` holds the byte offset `b`.
pub open spec fn link_holds(t: Seq<char>, k: int, b: int) -> bool {
    0 <= k < links_in_bytes(t).len() && links_in_bytes(t)[k].0 <= b < links_in_bytes(t)[k].1
}

proof fn lemma_links_sorted(t: Seq<char>, i: int, j: int)
    requires
        0 <= i < j < links_from(t, 0).len(),
    ensures
        links_from(t, 0)[i].1 <= links_from(t, 0)[j].0,
    decreases j - i,
{
    let l = links_from(t, 0);
    lemma_links_well_formed(t, 0);
    assert(l[i].1 <= l[i + 1].0);
    if i + 1 < j {
        lemma_links_sorted(t, i + 1, j);
        assert(link_shape(t, l[i + 1].0, l[i + 1].1));
    }
}

proof fn lemma_holding_from(t: Seq<char>, n: int, b: int)
    requires
        0 <= n <= links_from(t, 0).len(),
    ensures
        ({
            let l = links_from(t, 0);
            match link_holding(t, l.skip(n), b) {
                Some(p) => exists|k: int| n <= k < l.len() && link_holds(t, k, b) && p == l[k],
                None => forall|k: int| n <= k < l.len() ==> !link_holds(t, k, b),
            }
        }),
    decreases links_from(t, 0).len() - n,
{
    let l = links_from(t, 0);
    if n < l.len() {
        assert(l.skip(n).drop_first() =~= l.skip(n + 1));
        assert(l.skip(n)[0] == l[n]);
        lemma_holding_from(t, n + 1, b);
        if link_holding(t, l.skip(n), b) == Some(l[n]) && byte_pos(t, l[n].0) <= b < byte_pos(
            t,
            l[n].1,
        ) {
            assert(link_holds(t, n, b));
        }
    } else {
        assert(l.skip(n).len() == 0);
    }
}

/// The link under a position: `url_at` gives the text of the link (as
/// `find_urls` reports them) whose byte range holds the byte offset of the
/// character, at most one link holds it, and a position at or past the end of
/// the text is under no link.
pub proof fn lemma_url_at_link(t: Seq<char>, ci: int)
    ensures
        ({
            let b = byte_pos(t, clamp(t, ci));
            let l = links_from(t, 0);
            &&& forall|k: int|
                link_holds(t, k, b) ==> url_at_spec(t, ci) == Some(t.subrange(l[k].0, l[k].1))
            &&& (forall|k: int| !link_holds(t, k, b)) ==> url_at_spec(t, ci) is None
            &&& forall|k: int, k2: int|
                link_holds(t, k, b) && link_holds(t, k2, b) ==> k == k2
            &&& ci >= t.len() ==> url_at_spec(t, ci) is None
        }),
{
    let b = byte_pos(t, clamp(t, ci));
    let l = links_from(t, 0);
    lemma_links_well_formed(t, 0);
    assert(l.skip(0) =~= l);
    lemma_holding_from(t, 0, b);
    assert forall|k: int, k2: int| link_holds(t, k, b) && link_holds(t, k2, b) implies k == k2 by {
        if k < k2 {
            lemma_links_sorted(t, k, k2);
            assert(link_shape(t, l[k].0, l[k].1));
            lemma_byte_pos_mono(t, l[k].1, l[k2].0);
        } else if k2 < k {
            lemma_links_sorted(t, k2, k);
            assert(link_shape(t, l[k2].0, l[k2].1));
            lemma_byte_pos_mono(t, l[k2].1, l[k].0);
        }
    }
    if ci >= t.len() {
        assert forall|k: int| !link_holds(t, k, b) by {
            if 0 <= k < l.len() {
                assert(link_shape(t, l[k].0, l[k].1));
                lemma_byte_pos_mono(t, l[k].1, t.len() as int);
            }
        }
    }
}

proof fn lemma_byte_pos_window(t: Seq<char>, lo: int, hi: int, x: int)
    requires
        0 <= lo <= hi <= t.len(),
        0 <= x <= hi - lo,
    ensures
        byte_pos(t, lo + x) == byte_pos(t, lo) + byte_pos(t.subrange(lo, hi), x),
{
    assert(t.take(lo + x) =~= t.take(lo) + t.subrange(lo, hi).take(x));
    crate::text::lemma_encode_concat(t.take(lo), t.subrange(lo, hi).take(x));
}

/// The window law in byte offsets, as `parse_into` appends its runs: the
/// byte runs of the window `lo..hi` of a text are the byte runs of that
/// stretch parsed on its own, moved by the byte offset of `lo`.
pub proof fn lemma_parse_window_bytes(t: Seq<char>, lo: int, hi: int, st: Style)
    requires
        0 <= lo <= hi <= t.len(),
    ensures
        runs_in_bytes(t, runs_from(t, hi, lo, lo, st)) == shifted(
            runs_in_bytes(t.subrange(lo, hi), runs_from(t.subrange(lo, hi), hi - lo, 0, 0, st)),
            byte_pos(t, lo),
        ),
{
    let u = t.subrange(lo, hi);
    let n = hi - lo;
    let ru = runs_from(u, n, 0, 0, st);
    lemma_parse_window(t, lo, hi, st);
    lemma_runs_tile(u, n, 0, 0, st);
    let lhs = runs_in_bytes(t, runs_from(t, hi, lo, lo, st));
    let rhs = shifted(runs_in_bytes(u, ru), byte_pos(t, lo));
    assert forall|k: int| 0 <= k < lhs.len() implies #[trigger] lhs[k] == rhs[k] by {
        lemma_runs_bounds(u, ru, k);
        lemma_byte_pos_window(t, lo, hi, ru[k].0);
        lemma_byte_pos_window(t, lo, hi, ru[k].1);
        assert(shifted(ru, lo)[k] == (ru[k].0 + lo, ru[k].1 + lo, ru[k].2, ru[k].3));
        assert(runs_in_bytes(u, ru)[k] == to_bytes(u, ru[k]));
    }
    assert(lhs =~= rhs);
}

/// The characters that end a link: Unicode whitespace and `<>"|\^`{}`.
pub open spec fn ends_link(c: char) -> bool {
    crate::text::is_ws(c) || c == '<' || c == '>' || c == '"' || c == '|' || c == '\\' || c == '^'
        || c == '`' || c == '{' || c == '}'
}

/// The punctuation dropped from the end of a link: `.,)]}!?:;'`.
pub open spec fn trims_link(c: char) -> bool {
    c == '.' || c == ',' || c == ')' || c == ']' || c == '}' || c == '!' || c == '?' || c == ':'
        || c == ';' || c == '\''
}

proof fn lemma_scan_end_stops(t: Seq<char>, k: int)
    requires
        0 <= k <= t.len(),
    ensures
        scan_end(t, k) == t.len() || is_stop(t[scan_end(t, k)]),
    decreases t.len() - k,
{
    if k < t.len() && !is_stop(t[k]) {
        lemma_scan_end_stops(t, k + 1);
    }
}

proof fn lemma_trim_trail_all(t: Seq<char>, s: int, e: int)
    requires
        0 <= s <= e <= t.len(),
    ensures
        forall|m: int| trim_trail(t, s, e) <= m < e ==> is_trail(#[trigger] t[m]),
    decreases e - s,
{
    if e > s && is_trail(t[e - 1]) {
        lemma_trim_trail_all(t, s, e - 1);
    }
}

proof fn lemma_links_end(t: Seq<char>, j: int)
    requires
        0 <= j <= t.len(),
    ensures
        forall|k: int|
            0 <= k < links_from(t, j).len() ==> (#[trigger] links_from(t, j)[k]).1 == link_end(
                t,
                links_from(t, j)[k].0,
            ),
    decreases t.len() - j,
{
    let r = links_from(t, j);
    if j + 4 > t.len() {
    } else if has_at(t, j, http_chars()) {
        if is_link_start(t, j) {
            let e0 = scan_end(t, j);
            let e = link_end(t, j);
            lemma_scan_end_clear(t, j);
            lemma_trim_trail_end(t, j, e0);
            let next = if e > j + 4 {
                e
            } else {
                j + 4
            };
            let here: Seq<(int, int)> = if byte_pos(t, e) > byte_pos(t, j) + 8 {
                seq![(j, e)]
            } else {
                seq![]
            };
            if next <= t.len() {
                lemma_links_end(t, next);
                let rest = links_from(t, next);
                assert(r == here + rest);
                assert forall|k: int| 0 <= k < r.len() implies (#[trigger] r[k]).1 == link_end(
                    t,
                    r[k].0,
                ) by {
                    if k >= here.len() {
                        assert(r[k] == rest[k - here.len()]);
                    }
                }
            } else {
                assert(r == here);
            }
        } else {
            assert(r == links_from(t, j + 4));
            lemma_links_end(t, j + 4);
        }
    } else {
        assert(r == links_from(t, j + 1));
        lemma_links_end(t, j + 1);
    }
}

/// How far a link reaches. Each link found starts with `http://` or
/// `https://` and holds no whitespace and none of `<>"|\^`{}`; it runs on to
/// the first of those characters (or the end of the text), less only the
/// punctuation `.,)]}!?:;'` at its very end, and so its last character is no
/// such punctuation.
pub proof fn lemma_link_reach(t: Seq<char>, k: int)
    requires
        0 <= k < links_from(t, 0).len(),
    ensures
        ({
            let (s, e) = links_from(t, 0)[k];
            &&& is_link_start(t, s)
            &&& 0 <= s < e <= t.len()
            &&& forall|m: int| s <= m < e ==> !ends_link(#[trigger] t[m])
            &&& !trims_link(t[e - 1])
            &&& forall|m: int|
                e <= m < t.len() && (forall|j: int| e <= j <= m ==> !ends_link(#[trigger] t[j]))
                    ==> trims_link(#[trigger] t[m])
        }),
{
    let (s, e) = links_from(t, 0)[k];
    lemma_links_well_formed(t, 0);
    lemma_links_end(t, 0);
    assert(link_shape(t, s, e));
    let e0 = scan_end(t, s);
    lemma_scan_end_clear(t, s);
    lemma_scan_end_stops(t, s);
    lemma_trim_trail_end(t, s, e0);
    lemma_trim_trail_all(t, s, e0);
    assert(e == trim_trail(t, s, e0));
    assert forall|m: int| s <= m < e implies !ends_link(#[trigger] t[m]) by {
        assert(!is_stop(t[m]));
    }
    assert forall|m: int|
        e <= m < t.len() && (forall|j: int| e <= j <= m ==> !ends_link(#[trigger] t[j])) implies trims_link(
        #[trigger] t[m],
    ) by {
        if m >= e0 {
            assert(is_stop(t[e0]));
            assert(!ends_link(t[e0]));
        }
        assert(is_trail(t[m]));
    }
}

} // verus!
