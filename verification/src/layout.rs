//! How the editor lays out a note: the styled runs of the markup, with each
//! non-marker run further split into plain text and links.

use vstd::prelude::*;
use crate::markup::{
    byte_table, is_byte_table, links_from, links_of, parse_into, parse_spec, runs_in_bytes, segs_view,
    CharSeg, Seg, Style,
};
use crate::markup_laws::{lemma_links_well_formed, lemma_parse_tiles, lemma_runs_bounds, tiles};
use crate::text::{
    byte_len, byte_pos, chars_of, encode_utf8_len, lemma_byte_pos_injective, lemma_sub_bytes,
    push_range,
};

verus! {

/// What a laid-out run is drawn as.
#[derive(Clone, Copy, PartialEq, Eq, Structural, Debug)]
pub enum RunKind {
    /// A `**`/`*`/`__` marker, drawn invisibly.
    Marker,
    /// Ordinary text in its style.
    Text,
    /// A link inside text, drawn in the link color.
    Link,
}

/// A run of the editor layout; `start` and `end` are byte offsets into the text.
#[derive(Clone, Copy, Debug)]
pub struct LayoutRun {
    pub start: usize,
    pub end: usize,
    pub style: Style,
    pub kind: RunKind,
}

pub type RunView = (int, int, Style, RunKind);

pub open spec fn run_view(r: LayoutRun) -> RunView {
    (r.start as int, r.end as int, r.style, r.kind)
}

pub open spec fn runs_view(v: Seq<LayoutRun>) -> Seq<RunView> {
    v.map_values(|r: LayoutRun| run_view(r))
}

/// A text of length `len` cut around its links (positions from `cur` on):
/// `(start, end, is_link)` for the text before each link, the link, and the
/// text after the last one.
pub open spec fn text_pieces(links: Seq<(int, int)>, cur: int, len: int) -> Seq<(int, int, bool)>
    decreases links.len(),
{
    if links.len() == 0 {
        if cur < len {
            seq![(cur, len, false)]
        } else {
            seq![]
        }
    } else {
        let (a, b) = links[0];
        (if a > cur {
            seq![(cur, a, false)]
        } else {
            seq![]
        }) + seq![(a, b, true)] + text_pieces(links.drop_first(), b, len)
    }
}

/// The layout of one styled run of `t`: a marker stays whole; other text is
/// cut around the links found in it.
pub open spec fn run_layout(t: Seq<char>, c: CharSeg) -> Seq<RunView> {
    if c.3 {
        seq![(byte_pos(t, c.0), byte_pos(t, c.1), c.2, RunKind::Marker)]
    } else {
        text_pieces(links_from(t.subrange(c.0, c.1), 0), 0, c.1 - c.0).map_values(
            |p: (int, int, bool)|
                (byte_pos(t, c.0 + p.0), byte_pos(t, c.0 + p.1), c.2, if p.2 {
                    RunKind::Link
                } else {
                    RunKind::Text
                }),
        )
    }
}

/// The layout of the runs `runs[k..]`, one after the other.
pub open spec fn layout_from(t: Seq<char>, runs: Seq<CharSeg>, k: int) -> Seq<RunView>
    decreases runs.len() - k,
{
    if k < 0 || k >= runs.len() {
        seq![]
    } else {
        run_layout(t, runs[k]) + layout_from(t, runs, k + 1)
    }
}

/// The editor layout of a text.
pub open spec fn layout_spec(t: Seq<char>) -> Seq<RunView> {
    layout_from(t, parse_spec(t), 0)
}

/// Cuts the run `v[ca..cb]` around its links and appends the pieces to `out`.
#[verifier::loop_isolation(false)]
#[verifier::rlimit(50)]
#[verifier::spinoff_prover]
fn lay_text_run(
    v: &Vec<char>,
    bp: &Vec<usize>,
    ca: usize,
    cb: usize,
    style: Style,
    out: &mut Vec<LayoutRun>,
)
    requires
        ca <= cb <= v.len(),
        is_byte_table(v@, bp@),
    ensures
        runs_view(final(out)@) == runs_view(old(out)@) + run_layout(
            v@,
            (ca as int, cb as int, style, false),
        ),
{
    let ghost t = v@;
    let mut sub: Vec<char> = Vec::new();
    push_range(&mut sub, v, ca, cb);
    proof {
        lemma_sub_bytes(t, ca as int, cb as int);
        assert(sub@ =~= t.subrange(ca as int, cb as int));
        assert(bp@[cb as int] == byte_pos(t, cb as int));
        assert(bp@[ca as int] == byte_pos(t, ca as int));
        crate::text::lemma_byte_pos_mono(t, ca as int, cb as int);
    }
    let sub_bp = byte_table(&sub, bp[cb] - bp[ca]);
    let links = links_of(&sub, &sub_bp);
    let ghost lv = links@.map_values(|p: (usize, usize)| (p.0 as int, p.1 as int));
    let ghost all = text_pieces(lv, 0, (cb - ca) as int);
    let ghost f = |p: (int, int, bool)|
        (byte_pos(t, ca + p.0), byte_pos(t, ca + p.1), style, if p.2 {
            RunKind::Link
        } else {
            RunKind::Text
        });
    let ghost old_out = out@;
    proof {
        crate::markup::lemma_links_in_range(sub@, 0);
        assert(lv.skip(0) =~= lv);
    }
    let mut cur: usize = 0;
    let mut k: usize = 0;
    while k < links.len()
        invariant
            k <= links@.len(),
            ca <= cb <= v.len(),
            t == v@,
            is_byte_table(t, bp@),
            sub@ == t.subrange(ca as int, cb as int),
            lv == links@.map_values(|p: (usize, usize)| (p.0 as int, p.1 as int)),
            lv == links_from(sub@, 0),
            forall|q: int| 0 <= q < lv.len() ==> 0 <= (#[trigger] lv[q]).0 < lv[q].1 <= sub@.len(),
            cur <= cb - ca,
            k > 0 ==> cur == lv[k - 1].1,
            all == text_pieces(lv, 0, (cb - ca) as int),
            runs_view(out@) + text_pieces(lv.skip(k as int), cur as int, (cb - ca) as int).map_values(f)
                == runs_view(old_out) + all.map_values(f),
        decreases links@.len() - k,
    {
        let (a, b) = links[k];
        let ghost rest = lv.skip(k as int);
        proof {
            assert(lv[k as int] == (a as int, b as int));
            assert(rest[0] == (a as int, b as int));
            assert(rest.drop_first() =~= lv.skip(k + 1));
        }
        let ghost prev = out@;
        let ghost head: Seq<(int, int, bool)> = if a > cur {
            seq![(cur as int, a as int, false)]
        } else {
            seq![]
        };
        if a > cur {
            proof {
                assert(bp@[ca + cur] == byte_pos(t, ca + cur));
                assert(bp@[ca + a] == byte_pos(t, ca + a));
            }
            out.push(LayoutRun { start: bp[ca + cur], end: bp[ca + a], style, kind: RunKind::Text });
            proof {
                assert(f((cur as int, a as int, false)) == run_view(out@.last()));
                assert(runs_view(out@) =~= runs_view(prev) + head.map_values(f));
            }
        } else {
            proof {
                assert(runs_view(out@) =~= runs_view(prev) + head.map_values(f));
            }
        }
        let ghost mid = out@;
        proof {
            assert(bp@[ca + b] == byte_pos(t, ca + b));
            assert(bp@[ca + a] == byte_pos(t, ca + a));
        }
        out.push(LayoutRun { start: bp[ca + a], end: bp[ca + b], style, kind: RunKind::Link });
        proof {
            assert(text_pieces(rest, cur as int, (cb - ca) as int) == head + seq![
                (a as int, b as int, true),
            ] + text_pieces(lv.skip(k + 1), b as int, (cb - ca) as int));
            assert(f((a as int, b as int, true)) == run_view(out@.last()));
            assert(runs_view(out@) =~= runs_view(mid).push(f((a as int, b as int, true))));
            assert((head + seq![(a as int, b as int, true)]).map_values(f) =~= head.map_values(f).push(f((a as int, b as int, true))));
            assert(runs_view(out@) =~= runs_view(prev) + (head + seq![(a as int, b as int, true)]).map_values(f));
            assert((head + seq![(a as int, b as int, true)] + text_pieces(lv.skip(k + 1), b as int, (cb - ca) as int)).map_values(f)
                =~= (head + seq![(a as int, b as int, true)]).map_values(f) + text_pieces(lv.skip(k + 1), b as int, (cb - ca) as int).map_values(f));
        }
        cur = b;
        k = k + 1;
    }
    let ghost prev = out@;
    proof {
        assert(lv.skip(k as int) =~= Seq::<(int, int)>::empty());
    }
    if cur < cb - ca {
        proof {
            assert(bp@[ca + cur] == byte_pos(t, ca + cur));
            assert(bp@[cb as int] == byte_pos(t, cb as int));
        }
        out.push(LayoutRun { start: bp[ca + cur], end: bp[cb], style, kind: RunKind::Text });
        proof {
            assert(runs_view(out@) =~= runs_view(prev) + seq![(cur as int, (cb - ca) as int, false)].map_values(f));
        }
    } else {
        proof {
            assert(runs_view(out@) =~= runs_view(prev) + Seq::<(int, int, bool)>::empty().map_values(f));
        }
    }
}

/// The editor layout of `text`: its styled runs in order, markers whole and
/// other runs cut around the links they hold.
pub fn layout_runs(text: &str) -> (r: Vec<LayoutRun>)
    ensures
        runs_view(r@) == layout_spec(text@),
{
    let v = chars_of(text);
    let total = byte_len(text);
    let bp = byte_table(&v, total);
    let ghost t = v@;
    let mut segs: Vec<Seg> = Vec::new();
    parse_into(&v, &bp, 0, v.len(), Style { bold: false, italic: false, underline: false }, &mut segs);
    let ghost runs = parse_spec(t);
    proof {
        assert(segs_view(Seq::<Seg>::empty()) =~= Seq::<CharSeg>::empty());
        assert(Seq::<CharSeg>::empty() + runs_in_bytes(t, runs) =~= runs_in_bytes(t, runs));
        lemma_parse_tiles(t);
    }
    let mut out: Vec<LayoutRun> = Vec::new();
    let mut k: usize = 0;
    let mut ca: usize = 0;
    proof {
        assert(runs_view(out@) + layout_from(t, runs, 0) =~= layout_from(t, runs, 0));
    }
    while k < segs.len()
        invariant
            k <= segs@.len(),
            t == v@,
            t == text@,
            is_byte_table(t, bp@),
            runs == parse_spec(t),
            tiles(runs, 0, t.len() as int),
            segs_view(segs@) == runs_in_bytes(t, runs),
            segs@.len() == runs.len(),
            ca <= t.len(),
            k < runs.len() ==> ca == runs[k as int].0,
            runs_view(out@) + layout_from(t, runs, k as int) == layout_from(t, runs, 0),
        decreases segs@.len() - k,
    {
        let sg = segs[k];
        let ghost c = runs[k as int];
        proof {
            lemma_runs_bounds(t, runs, k as int);
            assert(segs_view(segs@)[k as int] == crate::markup::to_bytes(t, c));
            assert(sg.end == byte_pos(t, c.1));
        }
        let mut cb = ca;
        while cb < v.len() && bp[cb] != sg.end
            invariant
                ca <= cb <= v.len(),
                t == v@,
                is_byte_table(t, bp@),
                ca <= c.1 <= t.len(),
                sg.end == byte_pos(t, c.1),
                cb <= c.1,
            decreases v.len() - cb,
        {
            proof {
                if cb == c.1 {
                    assert(bp@[cb as int] == byte_pos(t, cb as int));
                }
            }
            cb = cb + 1;
        }
        proof {
            if cb < v.len() {
                assert(bp@[cb as int] == byte_pos(t, cb as int));
                lemma_byte_pos_injective(t, cb as int, c.1);
            } else {
                assert(cb == c.1);
            }
        }
        let ghost prev = out@;
        if sg.marker {
            out.push(LayoutRun { start: sg.start, end: sg.end, style: sg.style, kind: RunKind::Marker });
            proof {
                assert(runs_view(out@) =~= runs_view(prev) + run_layout(t, c));
            }
        } else {
            lay_text_run(&v, &bp, ca, cb, sg.style, &mut out);
        }
        proof {
            assert(layout_from(t, runs, k as int) == run_layout(t, c) + layout_from(t, runs, k + 1));
            assert(runs_view(out@) + layout_from(t, runs, k + 1) =~= runs_view(prev) + layout_from(t, runs, k as int));
            if k + 1 < runs.len() {
                assert(runs[k as int].1 == runs[k + 1].0);
            }
        }
        ca = cb;
        k = k + 1;
    }
    proof {
        assert(layout_from(t, runs, k as int) =~= Seq::<RunView>::empty());
        assert(runs_view(out@) + Seq::<RunView>::empty() =~= runs_view(out@));
    }
    out
}

/// `r` covers `a..b` with non-empty spans that follow one another without gap
/// or overlap.
pub open spec fn span_tiles(r: Seq<(int, int)>, a: int, b: int) -> bool {
    if r.len() == 0 {
        a == b
    } else {
        &&& r[0].0 == a
        &&& r[r.len() - 1].1 == b
        &&& forall|k: int| 0 <= k < r.len() ==> (#[trigger] r[k]).0 < r[k].1
        &&& forall|k: int| 0 <= k < r.len() - 1 ==> (#[trigger] r[k]).1 == r[k + 1].0
    }
}

pub open spec fn spans_of(r: Seq<RunView>) -> Seq<(int, int)> {
    r.map_values(|x: RunView| (x.0, x.1))
}

proof fn lemma_span_concat(r1: Seq<(int, int)>, r2: Seq<(int, int)>, a: int, b: int, c: int)
    requires
        span_tiles(r1, a, b),
        span_tiles(r2, b, c),
    ensures
        span_tiles(r1 + r2, a, c),
{
    let r = r1 + r2;
    if r1.len() == 0 {
        assert(r =~= r2);
    } else if r2.len() == 0 {
        assert(r =~= r1);
    } else {
        assert forall|k: int| 0 <= k < r.len() implies (#[trigger] r[k]).0 < r[k].1 by {
            if k >= r1.len() {
                assert(r[k] == r2[k - r1.len()]);
            }
        }
        assert forall|k: int| 0 <= k < r.len() - 1 implies (#[trigger] r[k]).1 == r[k + 1].0 by {
            if k >= r1.len() {
                assert(r[k] == r2[k - r1.len()]);
                assert(r[k + 1] == r2[k + 1 - r1.len()]);
            } else if k == r1.len() - 1 {
                assert(r[k + 1] == r2[0]);
            }
        }
    }
}

/// The pieces of a text cut around sorted, non-overlapping, non-empty links
/// cover it.
proof fn lemma_pieces_tile(links: Seq<(int, int)>, cur: int, len: int)
    requires
        cur <= len,
        forall|k: int| 0 <= k < links.len() ==> cur <= (#[trigger] links[k]).0 < links[k].1 <= len,
        forall|k: int| 0 <= k < links.len() - 1 ==> (#[trigger] links[k]).1 <= links[k + 1].0,
    ensures
        span_tiles(text_pieces(links, cur, len).map_values(|p: (int, int, bool)| (p.0, p.1)), cur, len),
    decreases links.len(),
{
    let proj = |p: (int, int, bool)| (p.0, p.1);
    if links.len() == 0 {
        if cur < len {
            assert(text_pieces(links, cur, len).map_values(proj) =~= seq![(cur, len)]);
        } else {
            assert(text_pieces(links, cur, len).map_values(proj) =~= Seq::<(int, int)>::empty());
        }
    } else {
        let (a, b) = links[0];
        let rest = links.drop_first();
        assert forall|k: int| 0 <= k < rest.len() implies b <= (#[trigger] rest[k]).0 < rest[k].1
            <= len by {
            assert(rest[k] == links[k + 1]);
            if k > 0 {
                assert(links[k].1 <= links[k + 1].0);
                assert(links[0].1 <= links[k].0) by {
                    lemma_sorted_links(links, 0, k);
                }
            }
        }
        assert forall|k: int| 0 <= k < rest.len() - 1 implies (#[trigger] rest[k]).1 <= rest[k + 1].0 by {
            assert(rest[k] == links[k + 1]);
            assert(rest[k + 1] == links[k + 2]);
        }
        lemma_pieces_tile(rest, b, len);
        let head: Seq<(int, int, bool)> = if a > cur {
            seq![(cur, a, false)]
        } else {
            seq![]
        };
        let hp = head.map_values(proj);
        assert(span_tiles(hp, cur, a)) by {
            if a > cur {
                assert(hp =~= seq![(cur, a)]);
            } else {
                assert(hp =~= Seq::<(int, int)>::empty());
            }
        }
        let lp = seq![(a, b, true)].map_values(proj);
        assert(lp =~= seq![(a, b)]);
        let tp = text_pieces(rest, b, len).map_values(proj);
        lemma_span_concat(hp, lp, cur, a, b);
        lemma_span_concat(hp + lp, tp, cur, b, len);
        assert(text_pieces(links, cur, len).map_values(proj) =~= hp + lp + tp);
    }
}

proof fn lemma_sorted_links(links: Seq<(int, int)>, i: int, j: int)
    requires
        0 <= i < j < links.len(),
        forall|k: int| 0 <= k < links.len() ==> (#[trigger] links[k]).0 < links[k].1,
        forall|k: int| 0 <= k < links.len() - 1 ==> (#[trigger] links[k]).1 <= links[k + 1].0,
    ensures
        links[i].1 <= links[j].0,
    decreases j - i,
{
    if j > i + 1 {
        lemma_sorted_links(links, i, j - 1);
        assert(links[j - 1].0 < links[j - 1].1);
    }
}

/// Spans moved by a strictly increasing map still tile.
proof fn lemma_span_map(t: Seq<char>, off: int, r: Seq<(int, int)>, a: int, b: int)
    requires
        span_tiles(r, a, b),
        0 <= off,
        0 <= a,
        off + b <= t.len(),
    ensures
        span_tiles(
            r.map_values(|p: (int, int)| (byte_pos(t, off + p.0), byte_pos(t, off + p.1))),
            byte_pos(t, off + a),
            byte_pos(t, off + b),
        ),
{
    let m = r.map_values(|p: (int, int)| (byte_pos(t, off + p.0), byte_pos(t, off + p.1)));
    if r.len() > 0 {
        assert forall|k: int| 0 <= k < r.len() implies a <= (#[trigger] r[k]).0 && r[k].1 <= b by {
            lemma_span_bounds(r, a, b, k);
        }
        assert forall|k: int| 0 <= k < m.len() implies (#[trigger] m[k]).0 < m[k].1 by {
            crate::text::lemma_byte_pos_mono(t, off + r[k].0, off + r[k].1);
        }
        assert forall|k: int| 0 <= k < m.len() - 1 implies (#[trigger] m[k]).1 == m[k + 1].0 by {
            assert(r[k].1 == r[k + 1].0);
        }
    }
}

proof fn lemma_span_bounds(r: Seq<(int, int)>, a: int, b: int, k: int)
    requires
        span_tiles(r, a, b),
        0 <= k < r.len(),
    ensures
        a <= r[k].0,
        r[k].1 <= b,
    decreases r.len(),
{
    lemma_span_lower(r, a, b, k);
    lemma_span_upper(r, a, b, k);
}

proof fn lemma_span_lower(r: Seq<(int, int)>, a: int, b: int, k: int)
    requires
        span_tiles(r, a, b),
        0 <= k < r.len(),
    ensures
        a <= r[k].0,
    decreases k,
{
    if k > 0 {
        lemma_span_lower(r, a, b, k - 1);
        assert(r[k - 1].1 == r[k].0);
    }
}

proof fn lemma_span_upper(r: Seq<(int, int)>, a: int, b: int, k: int)
    requires
        span_tiles(r, a, b),
        0 <= k < r.len(),
    ensures
        r[k].1 <= b,
    decreases r.len() - k,
{
    if k < r.len() - 1 {
        lemma_span_upper(r, a, b, k + 1);
        assert(r[k].1 == r[k + 1].0);
    }
}

/// The layout of one styled run covers that run's bytes.
proof fn lemma_run_layout_tiles(t: Seq<char>, c: CharSeg)
    requires
        0 <= c.0 < c.1 <= t.len(),
    ensures
        span_tiles(spans_of(run_layout(t, c)), byte_pos(t, c.0), byte_pos(t, c.1)),
{
    if c.3 {
        crate::text::lemma_byte_pos_mono(t, c.0, c.1);
        assert(spans_of(run_layout(t, c)) =~= seq![(byte_pos(t, c.0), byte_pos(t, c.1))]);
    } else {
        let sub = t.subrange(c.0, c.1);
        let len = c.1 - c.0;
        let links = links_from(sub, 0);
        lemma_links_well_formed(sub, 0);
        assert forall|k: int| 0 <= k < links.len() implies 0 <= (#[trigger] links[k]).0 < links[k].1
            <= len by {
            assert(crate::markup_laws::link_shape(sub, links[k].0, links[k].1));
        }
        lemma_pieces_tile(links, 0, len);
        let pieces = text_pieces(links, 0, len);
        let pp = pieces.map_values(|p: (int, int, bool)| (p.0, p.1));
        lemma_span_map(t, c.0, pp, 0, len);
        assert(spans_of(run_layout(t, c)) =~= pp.map_values(
            |p: (int, int)| (byte_pos(t, c.0 + p.0), byte_pos(t, c.0 + p.1)),
        ));
    }
}

proof fn lemma_layout_from_tiles(t: Seq<char>, runs: Seq<CharSeg>, k: int)
    requires
        tiles(runs, 0, t.len() as int),
        0 <= k <= runs.len(),
        runs.len() > 0,
    ensures
        span_tiles(
            spans_of(layout_from(t, runs, k)),
            if k < runs.len() {
                byte_pos(t, runs[k].0)
            } else {
                byte_pos(t, t.len() as int)
            },
            byte_pos(t, t.len() as int),
        ),
    decreases runs.len() - k,
{
    if k < runs.len() {
        lemma_runs_bounds(t, runs, k);
        lemma_run_layout_tiles(t, runs[k]);
        lemma_layout_from_tiles(t, runs, k + 1);
        if k + 1 < runs.len() {
            assert(runs[k].1 == runs[k + 1].0);
        } else {
            assert(runs[k].1 == t.len());
        }
        lemma_span_concat(
            spans_of(run_layout(t, runs[k])),
            spans_of(layout_from(t, runs, k + 1)),
            byte_pos(t, runs[k].0),
            byte_pos(t, runs[k].1),
            byte_pos(t, t.len() as int),
        );
        assert(spans_of(layout_from(t, runs, k)) =~= spans_of(run_layout(t, runs[k])) + spans_of(
            layout_from(t, runs, k + 1),
        ));
    } else {
        assert(spans_of(layout_from(t, runs, k)) =~= Seq::<(int, int)>::empty());
    }
}

/// The editor layout covers every byte of the text once, in order: markers
/// included, so positions in the laid-out text line up with the text itself.
pub proof fn lemma_layout_tiles(t: Seq<char>)
    ensures
        span_tiles(spans_of(layout_spec(t)), 0, encode_utf8_len(t) as int),
{
    lemma_parse_tiles(t);
    let runs = parse_spec(t);
    crate::text::lemma_byte_pos_full(t);
    crate::text::lemma_byte_pos_zero(t);
    if runs.len() == 0 {
        assert(t.len() == 0);
        assert(spans_of(layout_spec(t)) =~= Seq::<(int, int)>::empty());
    } else {
        lemma_layout_from_tiles(t, runs, 0);
        assert(runs[0].0 == 0);
    }
}

proof fn lemma_pieces_hold_links(links: Seq<(int, int)>, cur: int, len: int, j: int)
    requires
        0 <= j < links.len(),
    ensures
        text_pieces(links, cur, len).contains((links[j].0, links[j].1, true)),
    decreases links.len(),
{
    let (a, b) = links[0];
    let head: Seq<(int, int, bool)> = if a > cur {
        seq![(cur, a, false)]
    } else {
        seq![]
    };
    let rest = text_pieces(links.drop_first(), b, len);
    let all = head + seq![(a, b, true)] + rest;
    assert(text_pieces(links, cur, len) == all);
    if j == 0 {
        assert(all[head.len() as int] == (a, b, true));
    } else {
        lemma_pieces_hold_links(links.drop_first(), b, len, j - 1);
        assert(links.drop_first()[j - 1] == links[j]);
        let w = choose|w: int| 0 <= w < rest.len() && rest[w] == (links[j].0, links[j].1, true);
        assert(all[head.len() + 1 + w] == rest[w]);
    }
}

proof fn lemma_layout_from_holds(t: Seq<char>, runs: Seq<CharSeg>, k: int, j: int, x: RunView)
    requires
        0 <= j <= k < runs.len(),
        run_layout(t, runs[k]).contains(x),
    ensures
        layout_from(t, runs, j).contains(x),
    decreases k - j,
{
    let here = run_layout(t, runs[j]);
    let rest = layout_from(t, runs, j + 1);
    assert(layout_from(t, runs, j) == here + rest);
    if j == k {
        let w = choose|w: int| 0 <= w < here.len() && here[w] == x;
        assert((here + rest)[w] == x);
    } else {
        lemma_layout_from_holds(t, runs, k, j + 1, x);
        let w = choose|w: int| 0 <= w < rest.len() && rest[w] == x;
        assert((here + rest)[here.len() + w] == x);
    }
}

/// Every link in text is drawn as a link: for each styled run of the text
/// that is not a marker, each link found in that run's text (wherever it
/// starts in the run, its very first character included) appears in the
/// layout as a run of kind `Link`, with the run's style, over the link's
/// bytes.
pub proof fn lemma_links_laid_out(t: Seq<char>, k: int, j: int)
    requires
        0 <= k < parse_spec(t).len(),
        !parse_spec(t)[k].3,
        0 <= j < links_from(t.subrange(parse_spec(t)[k].0, parse_spec(t)[k].1), 0).len(),
    ensures
        ({
            let c = parse_spec(t)[k];
            let l = links_from(t.subrange(c.0, c.1), 0)[j];
            layout_spec(t).contains(
                (byte_pos(t, c.0 + l.0), byte_pos(t, c.0 + l.1), c.2, RunKind::Link),
            )
        }),
{
    let c = parse_spec(t)[k];
    let links = links_from(t.subrange(c.0, c.1), 0);
    let l = links[j];
    let pieces = text_pieces(links, 0, c.1 - c.0);
    lemma_pieces_hold_links(links, 0, c.1 - c.0, j);
    let w = choose|w: int| 0 <= w < pieces.len() && pieces[w] == (l.0, l.1, true);
    let x = (byte_pos(t, c.0 + l.0), byte_pos(t, c.0 + l.1), c.2, RunKind::Link);
    assert(run_layout(t, c)[w] == x);
    lemma_layout_from_holds(t, parse_spec(t), k, 0, x);
}

} // verus!
