//! Inline formatting kept in the text itself (`**bold**`, `*italic*`,
//! `__underline__`), and detection of `http(s)` links.
//!
//! The markers stay in the file, so formatting survives saving and loading
//! while notes remain ordinary plain-text files. All positions that this module
//! hands out are byte offsets into the text, as `str` slicing expects; the
//! specifications work on characters and relate the two through
//! [`byte_pos`].

use vstd::prelude::*;
use crate::text::{
    byte_len, byte_pos, char_len_utf8, chars_of, encode_utf8_len, has_at, has_at_vec,
    is_whitespace, is_ws, lemma_byte_pos_full, lemma_byte_pos_mono, lemma_byte_pos_step,
    lemma_byte_pos_zero, push_range, remove_all, remove_pattern, string_of,
};

verus! {

/// Which inline style a toolbar button or shortcut applies.
#[derive(Clone, Copy, PartialEq, Eq, Structural, Debug)]
pub enum Fmt {
    Bold,
    Italic,
    Underline,
}

/// The marker characters of a style.
pub open spec fn marker_of(f: Fmt) -> Seq<char> {
    match f {
        Fmt::Bold => seq!['*', '*'],
        Fmt::Italic => seq!['*'],
        Fmt::Underline => seq!['_', '_'],
    }
}

impl Fmt {
    /// The marker text of this style.
    pub fn marker(self) -> (r: &'static str)
        ensures
            r@ == marker_of(self),
    {
        match self {
            Fmt::Bold => {
                proof {
                    reveal_strlit("**");
                }
                "**"
            },
            Fmt::Italic => {
                proof {
                    reveal_strlit("*");
                }
                "*"
            },
            Fmt::Underline => {
                proof {
                    reveal_strlit("__");
                }
                "__"
            },
        }
    }
}

/// The inline styles in force for a run of text.
#[derive(Clone, Copy, PartialEq, Eq, Structural, Debug)]
pub struct Style {
    pub bold: bool,
    pub italic: bool,
    pub underline: bool,
}

/// The unstyled style.
pub open spec fn plain() -> Style {
    Style { bold: false, italic: false, underline: false }
}

impl Default for Style {
    fn default() -> (r: Style)
        ensures
            r == plain(),
    {
        Style { bold: false, italic: false, underline: false }
    }
}

/// `st` with the style of `f` switched on.
pub open spec fn with_fmt(st: Style, f: Fmt) -> Style {
    match f {
        Fmt::Bold => Style { bold: true, ..st },
        Fmt::Italic => Style { italic: true, ..st },
        Fmt::Underline => Style { underline: true, ..st },
    }
}

/// A run of text sharing one style. Marker runs are the `**`/`*`/`__`
/// characters themselves, which the editor draws invisibly. `start` and `end`
/// are byte offsets into the whole text.
#[derive(Clone, Copy, Debug)]
pub struct Seg {
    pub start: usize,
    pub end: usize,
    pub style: Style,
    pub marker: bool,
}

/// A run in character positions: `(start, end, style, marker)`.
pub type CharSeg = (int, int, Style, bool);

/// Whether the marker of `f` stands at `i`, ending no later than `hi`.
pub open spec fn marker_at(t: Seq<char>, hi: int, i: int, f: Fmt) -> bool {
    let m = marker_of(f);
    0 <= i && i + m.len() <= hi && hi <= t.len() && t.subrange(i, i + m.len()) == m
}

/// The marker that could open a run at `i` under `st`: `**` first, then `__`,
/// then `*`, each only when its style is not already on.
pub open spec fn candidate(t: Seq<char>, hi: int, i: int, st: Style) -> Option<Fmt> {
    if marker_at(t, hi, i, Fmt::Bold) && !st.bold {
        Some(Fmt::Bold)
    } else if marker_at(t, hi, i, Fmt::Underline) && !st.underline {
        Some(Fmt::Underline)
    } else if marker_at(t, hi, i, Fmt::Italic) && !st.italic {
        Some(Fmt::Italic)
    } else {
        None
    }
}

/// A lone `*` followed by whitespace (a bullet, `2 * 3`) opens nothing.
pub open spec fn opens(t: Seq<char>, hi: int, i: int, f: Fmt) -> bool {
    f != Fmt::Italic || !(i + 1 < hi && is_ws(t[i + 1]))
}

/// The first position at or after `j` where the marker of `f` stands, within `hi`.
pub open spec fn find_marker(t: Seq<char>, hi: int, j: int, f: Fmt) -> Option<int>
    decreases hi - j,
{
    if j + marker_of(f).len() > hi {
        None
    } else if marker_at(t, hi, j, f) {
        Some(j)
    } else {
        find_marker(t, hi, j + 1, f)
    }
}

/// The runs of the window `t[..hi]` from position `i` on, with the literal
/// text pending since `lit`, under style `st`.
///
/// At each position an opening marker (see [`candidate`] and [`opens`]) whose
/// first closing occurrence leaves a non-empty inner text produces: the pending
/// literal run, the opening marker, the runs of the inner text under the added
/// style, the closing marker, and then the runs after it. Any other position is
/// literal text.
pub open spec fn runs_from(t: Seq<char>, hi: int, i: int, lit: int, st: Style) -> Seq<CharSeg>
    decreases hi - i,
{
    if i >= hi {
        if lit < hi {
            seq![(lit, hi, st, false)]
        } else {
            seq![]
        }
    } else {
        let c = candidate(t, hi, i, st);
        if c is Some && opens(t, hi, i, c->0) {
            let f = c->0;
            let m = marker_of(f).len() as int;
            let close = find_marker(t, hi, i + m, f);
            if close is Some && close->0 > i + m && close->0 + m <= hi {
                let k = close->0;
                let pending: Seq<CharSeg> = if i > lit {
                    seq![(lit, i, st, false)]
                } else {
                    seq![]
                };
                pending + seq![(i, i + m, st, true)] + runs_from(t, k, i + m, i + m, with_fmt(st, f))
                    + seq![(k, k + m, st, true)] + runs_from(t, hi, k + m, k + m, st)
            } else {
                runs_from(t, hi, i + 1, lit, st)
            }
        } else {
            runs_from(t, hi, i + 1, lit, st)
        }
    }
}

/// The runs of a whole text, in character positions.
pub open spec fn parse_spec(t: Seq<char>) -> Seq<CharSeg> {
    runs_from(t, t.len() as int, 0, 0, plain())
}

/// A character run with its positions turned into byte offsets.
pub open spec fn to_bytes(t: Seq<char>, c: CharSeg) -> CharSeg {
    (byte_pos(t, c.0), byte_pos(t, c.1), c.2, c.3)
}

pub open spec fn runs_in_bytes(t: Seq<char>, s: Seq<CharSeg>) -> Seq<CharSeg> {
    s.map_values(|c: CharSeg| to_bytes(t, c))
}

pub open spec fn seg_view(s: Seg) -> CharSeg {
    (s.start as int, s.end as int, s.style, s.marker)
}

pub open spec fn segs_view(v: Seq<Seg>) -> Seq<CharSeg> {
    v.map_values(|s: Seg| seg_view(s))
}

/// Byte offsets of every character boundary of `t`.
pub open spec fn is_byte_table(t: Seq<char>, bp: Seq<usize>) -> bool {
    &&& bp.len() == t.len() + 1
    &&& forall|k: int| 0 <= k <= t.len() ==> bp[k] == byte_pos(t, k)
}

/// The byte offset of every character boundary of `v`.
pub fn byte_table(v: &Vec<char>, total: usize) -> (bp: Vec<usize>)
    requires
        total == encode_utf8_len(v@),
    ensures
        is_byte_table(v@, bp@),
{
    let mut bp: Vec<usize> = Vec::new();
    let mut acc: usize = 0;
    let mut k: usize = 0;
    proof {
        lemma_byte_pos_zero(v@);
        lemma_byte_pos_full(v@);
    }
    bp.push(0);
    while k < v.len()
        invariant
            k <= v.len(),
            total == encode_utf8_len(v@),
            bp.len() == k + 1,
            acc == byte_pos(v@, k as int),
            forall|j: int| 0 <= j <= k ==> bp@[j] == byte_pos(v@, j),
        decreases v.len() - k,
    {
        proof {
            lemma_byte_pos_step(v@, k as int);
            lemma_byte_pos_mono(v@, k + 1, v@.len() as int);
            lemma_byte_pos_full(v@);
        }
        acc = acc + char_len_utf8(v[k]);
        bp.push(acc);
        k = k + 1;
    }
    bp
}

/// Whether the marker of `f` stands at `j`, ending no later than `hi`.
fn has_marker(v: &Vec<char>, hi: usize, j: usize, f: Fmt) -> (r: bool)
    requires
        hi <= v.len(),
    ensures
        r == marker_at(v@, hi as int, j as int, f),
{
    let m = marker_len(f);
    if j >= hi || hi - j < m {
        return false;
    }
    let (c0, c1) = match f {
        Fmt::Bold => ('*', '*'),
        Fmt::Italic => ('*', '*'),
        Fmt::Underline => ('_', '_'),
    };
    let r = v[j] == c0 && (m == 1 || v[j + 1] == c1);
    proof {
        let s = v@.subrange(j as int, j + m);
        let mk = marker_of(f);
        if r {
            assert(s =~= mk);
        } else if v@[j as int] != c0 {
            assert(s[0] != mk[0]);
        } else {
            assert(s[1] != mk[1]);
        }
    }
    r
}

fn marker_len(f: Fmt) -> (r: usize)
    ensures
        r == marker_of(f).len(),
{
    match f {
        Fmt::Italic => 1,
        _ => 2,
    }
}

fn add_fmt(st: Style, f: Fmt) -> (r: Style)
    ensures
        r == with_fmt(st, f),
{
    match f {
        Fmt::Bold => Style { bold: true, ..st },
        Fmt::Italic => Style { italic: true, ..st },
        Fmt::Underline => Style { underline: true, ..st },
    }
}

proof fn lemma_push_step(
    t: Seq<char>,
    base: Seq<Seg>,
    prev: Seq<Seg>,
    done: Seq<CharSeg>,
    s: Seg,
    c: CharSeg,
)
    requires
        segs_view(prev) == segs_view(base) + runs_in_bytes(t, done),
        seg_view(s) == to_bytes(t, c),
    ensures
        segs_view(prev.push(s)) == segs_view(base) + runs_in_bytes(t, done.push(c)),
{
    assert(segs_view(prev.push(s)) =~= segs_view(prev).push(seg_view(s)));
    assert(runs_in_bytes(t, done.push(c)) =~= runs_in_bytes(t, done).push(to_bytes(t, c)));
    assert(segs_view(prev).push(seg_view(s)) =~= segs_view(base) + runs_in_bytes(t, done).push(
        to_bytes(t, c),
    ));
}

proof fn lemma_bytes_add(t: Seq<char>, a: Seq<CharSeg>, b: Seq<CharSeg>)
    ensures
        runs_in_bytes(t, a + b) == runs_in_bytes(t, a) + runs_in_bytes(t, b),
{
    assert(runs_in_bytes(t, a + b) =~= runs_in_bytes(t, a) + runs_in_bytes(t, b));
}

/// Appends the runs of the window `v[lo..hi]` under `style` to `out`.
pub fn parse_into(
    v: &Vec<char>,
    bp: &Vec<usize>,
    lo: usize,
    hi: usize,
    style: Style,
    out: &mut Vec<Seg>,
)
    requires
        lo <= hi <= v.len(),
        is_byte_table(v@, bp@),
    ensures
        segs_view(final(out)@) == segs_view(old(out)@) + runs_in_bytes(
            v@,
            runs_from(v@, hi as int, lo as int, lo as int, style),
        ),
    decreases hi - lo,
{
    let ghost t = v@;
    let ghost old_out = out@;
    let ghost mut done: Seq<CharSeg> = Seq::empty();
    let mut i = lo;
    let mut lit = lo;
    proof {
        assert(segs_view(out@) =~= segs_view(old_out) + runs_in_bytes(t, done));
        assert(done + runs_from(t, hi as int, i as int, lit as int, style) =~= runs_from(
            t,
            hi as int,
            lo as int,
            lo as int,
            style,
        ));
    }
    while i < hi
        invariant
            lo <= lit <= i <= hi <= v.len(),
            t == v@,
            is_byte_table(t, bp@),
            segs_view(out@) == segs_view(old_out) + runs_in_bytes(t, done),
            done + runs_from(t, hi as int, i as int, lit as int, style) == runs_from(
                t,
                hi as int,
                lo as int,
                lo as int,
                style,
            ),
        decreases hi - i,
    {
        let ghost rest = runs_from(t, hi as int, i as int, lit as int, style);
        let cand: Option<Fmt> = if has_marker(v, hi, i, Fmt::Bold) && !style.bold {
            Some(Fmt::Bold)
        } else if has_marker(v, hi, i, Fmt::Underline) && !style.underline {
            Some(Fmt::Underline)
        } else if has_marker(v, hi, i, Fmt::Italic) && !style.italic {
            Some(Fmt::Italic)
        } else {
            None
        };
        assert(cand == candidate(t, hi as int, i as int, style));
        let mut moved = false;
        if let Some(f) = cand {
            let m = marker_len(f);
            let op = match f {
                Fmt::Italic => !(i + 1 < hi && is_whitespace(v[i + 1])),
                _ => true,
            };
            assert(op == opens(t, hi as int, i as int, f));
            if op {
                let mut j = i + m;
                while m <= hi - j && !has_marker(v, hi, j, f)
                    invariant
                        i + m <= j,
                        j <= hi,
                        hi <= v.len(),
                        t == v@,
                        m == marker_of(f).len(),
                        find_marker(t, hi as int, j as int, f) == find_marker(
                            t,
                            hi as int,
                            i + m,
                            f,
                        ),
                    decreases hi - j,
                {
                    j = j + 1;
                }
                if m <= hi - j && j > i + m {
                    let close = j;
                    assert(find_marker(t, hi as int, i + m, f) == Some(close as int));
                    let ghost d0 = done;
                    let ghost pending: Seq<CharSeg> = if i > lit {
                        seq![(lit as int, i as int, style, false)]
                    } else {
                        seq![]
                    };
                    if i > lit {
                        let ghost prev = out@;
                        let sg = Seg { start: bp[lit], end: bp[i], style, marker: false };
                        out.push(sg);
                        proof {
                            lemma_push_step(t, old_out, prev, done, sg, (lit as int, i as int, style, false));
                            done = done.push((lit as int, i as int, style, false));
                        }
                    }
                    assert(done == d0 + pending);
                    let ghost prev = out@;
                    let so = Seg { start: bp[i], end: bp[i + m], style, marker: true };
                    out.push(so);
                    proof {
                        lemma_push_step(t, old_out, prev, done, so, (i as int, (i + m) as int, style, true));
                        done = done.push((i as int, (i + m) as int, style, true));
                    }
                    let ghost before_inner = out@;
                    let inner = add_fmt(style, f);
                    parse_into(v, bp, i + m, close, inner, out);
                    let ghost inner_runs = runs_from(t, close as int, i + m, i + m, with_fmt(style, f));
                    proof {
                        lemma_bytes_add(t, done, inner_runs);
                        assert(segs_view(out@) =~= segs_view(old_out) + runs_in_bytes(t, done + inner_runs));
                        done = done + inner_runs;
                    }
                    let ghost prev = out@;
                    let sc = Seg { start: bp[close], end: bp[close + m], style, marker: true };
                    out.push(sc);
                    proof {
                        lemma_push_step(t, old_out, prev, done, sc, (close as int, (close + m) as int, style, true));
                        done = done.push((close as int, (close + m) as int, style, true));
                        let cont = runs_from(t, hi as int, close + m, close + m, style);
                        assert(rest == pending + seq![(i as int, (i + m) as int, style, true)]
                            + inner_runs + seq![(close as int, (close + m) as int, style, true)] + cont);
                        assert(d0 + rest =~= done + cont);
                    }
                    i = close + m;
                    lit = i;
                    moved = true;
                }
            }
        }
        if !moved {
            assert(rest == runs_from(t, hi as int, i + 1, lit as int, style));
            i = i + 1;
        }
    }
    if lit < hi {
        let ghost prev = out@;
        let sg = Seg { start: bp[lit], end: bp[hi], style, marker: false };
        out.push(sg);
        proof {
            lemma_push_step(t, old_out, prev, done, sg, (lit as int, hi as int, style, false));
            assert(done.push((lit as int, hi as int, style, false)) =~= done + runs_from(t, hi as int, i as int, lit as int, style));
        }
    } else {
        proof {
            assert(done =~= done + runs_from(t, hi as int, i as int, lit as int, style));
        }
    }
}

/// Splits `text` into styled runs.
pub fn parse(text: &str) -> (r: Vec<Seg>)
    ensures
        segs_view(r@) == runs_in_bytes(text@, parse_spec(text@)),
{
    let v = chars_of(text);
    let total = byte_len(text);
    let bp = byte_table(&v, total);
    let mut out: Vec<Seg> = Vec::new();
    parse_into(&v, &bp, 0, v.len(), Style { bold: false, italic: false, underline: false }, &mut out);
    proof {
        assert(segs_view(Seq::<Seg>::empty()) =~= Seq::<CharSeg>::empty());
        assert(Seq::<CharSeg>::empty() + runs_in_bytes(v@, parse_spec(v@)) =~= runs_in_bytes(
            v@,
            parse_spec(v@),
        ));
    }
    out
}

/// A character index, clamped to the end of the text.
pub open spec fn clamp(t: Seq<char>, c: int) -> int {
    if c <= t.len() {
        c
    } else {
        t.len() as int
    }
}

/// The byte offset of character `ci` of `s`, or `s.len()` past the end.
fn char_to_byte(v: &Vec<char>, bp: &Vec<usize>, ci: usize) -> (r: usize)
    requires
        is_byte_table(v@, bp@),
    ensures
        r == byte_pos(v@, clamp(v@, ci as int)),
{
    if ci <= v.len() {
        bp[ci]
    } else {
        bp[v.len()]
    }
}

/// Whether the selection `s..e` already has the marker `m` right before and
/// right after it.
pub open spec fn is_wrapped(t: Seq<char>, s: int, e: int, m: Seq<char>) -> bool {
    s >= m.len() && t.subrange(s - m.len(), s) == m && has_at(t, e, m)
}

/// The text after toggling `m` around the selected characters `sc..ec`:
/// the markers around the selection are removed when present, otherwise the
/// selection is wrapped in them.
pub open spec fn toggled(t: Seq<char>, sc: int, ec: int, m: Seq<char>) -> Seq<char> {
    let s = clamp(t, sc);
    let e = clamp(t, ec);
    if is_wrapped(t, s, e, m) {
        t.take(s - m.len()) + t.subrange(s, e) + t.skip(e + m.len())
    } else {
        t.take(s) + m + t.subrange(s, e) + m + t.skip(e)
    }
}

/// The selection after toggling: it keeps covering the same characters.
pub open spec fn toggled_selection(t: Seq<char>, sc: int, ec: int, m: Seq<char>) -> (int, int) {
    if is_wrapped(t, clamp(t, sc), clamp(t, ec), m) {
        (sc - m.len(), ec - m.len())
    } else {
        (sc + m.len(), ec + m.len())
    }
}

/// Wraps the selected character range `start_c..end_c` in `marker`, or unwraps
/// it when it is already wrapped. Returns the new selection as character indices.
pub fn toggle_wrap(text: &mut String, start_c: usize, end_c: usize, marker: &str) -> (r: (
    usize,
    usize,
))
    requires
        start_c <= end_c,
        end_c > old(text)@.len() ==> end_c + marker@.len() <= usize::MAX,
    ensures
        final(text)@ == toggled(old(text)@, start_c as int, end_c as int, marker@),
        (r.0 as int, r.1 as int) == toggled_selection(
            old(text)@,
            start_c as int,
            end_c as int,
            marker@,
        ),
{
    let v = chars_of(text.as_str());
    let mv = chars_of(marker);
    let ghost t = v@;
    let ghost m = mv@;
    let ml = mv.len();
    let s = if start_c <= v.len() {
        start_c
    } else {
        v.len()
    };
    let e = if end_c <= v.len() {
        end_c
    } else {
        v.len()
    };
    let already = s >= ml && has_at_vec(&v, s - ml, &mv) && has_at_vec(&v, e, &mv);
    proof {
        if s >= ml {
            if has_at(t, s - ml, m) {
                assert(t.subrange(s - ml, s as int) == m);
            }
            if t.subrange(s - ml, s as int) == m {
                assert(has_at(t, s - ml, m));
            }
        }
        assert(already == is_wrapped(t, s as int, e as int, m));
    }
    let mut out: Vec<char> = Vec::new();
    if already {
        push_range(&mut out, &v, 0, s - ml);
        push_range(&mut out, &v, s, e);
        push_range(&mut out, &v, e + ml, v.len());
        proof {
            assert(out@ =~= t.take(s - ml) + t.subrange(s as int, e as int) + t.skip(e + ml));
        }
        *text = string_of(&out, 0, out.len());
        proof {
            assert(out@.subrange(0, out@.len() as int) =~= out@);
        }
        (start_c - ml, end_c - ml)
    } else {
        push_range(&mut out, &v, 0, s);
        push_range(&mut out, &mv, 0, ml);
        push_range(&mut out, &v, s, e);
        push_range(&mut out, &mv, 0, ml);
        push_range(&mut out, &v, e, v.len());
        proof {
            assert(mv@.subrange(0, ml as int) =~= m);
            assert(out@ =~= t.take(s as int) + m + t.subrange(s as int, e as int) + m + t.skip(
                e as int,
            ));
        }
        let n = out.len();
        proof {
            // Past the end of the text the caller bounds the sum; inside it,
            // the wrapped text holds the selection and a marker.
            assert(out@.len() == t.len() + 2 * ml);
            assert(n <= usize::MAX);
        }
        *text = string_of(&out, 0, n);
        proof {
            assert(out@.subrange(0, out@.len() as int) =~= out@);
        }
        (start_c + ml, end_c + ml)
    }
}

/// Characters that end a link.
pub open spec fn is_stop(c: char) -> bool {
    is_ws(c) || c == '<' || c == '>' || c == '"' || c == '|' || c == '\\' || c == '^' || c == '`'
        || c == '{' || c == '}'
}

/// Punctuation trimmed from the end of a link.
pub open spec fn is_trail(c: char) -> bool {
    c == '.' || c == ',' || c == ')' || c == ']' || c == '}' || c == '!' || c == '?' || c == ':'
        || c == ';' || c == '\''
}

pub open spec fn http_chars() -> Seq<char> {
    seq!['h', 't', 't', 'p']
}

/// Whether a link scheme (`http://` or `https://`) starts at `s`.
pub open spec fn is_link_start(t: Seq<char>, s: int) -> bool {
    has_at(t, s, seq!['h', 't', 't', 'p', ':', '/', '/']) || has_at(
        t,
        s,
        seq!['h', 't', 't', 'p', 's', ':', '/', '/'],
    )
}

/// The first position at or after `k` holding a stop character, or the end.
pub open spec fn scan_end(t: Seq<char>, k: int) -> int
    decreases t.len() - k,
{
    if k >= t.len() || is_stop(t[k]) {
        k
    } else {
        scan_end(t, k + 1)
    }
}

/// `e` moved back over trailing punctuation, but not before `s`.
pub open spec fn trim_trail(t: Seq<char>, s: int, e: int) -> int
    decreases e - s,
{
    if e > s && is_trail(t[e - 1]) {
        trim_trail(t, s, e - 1)
    } else {
        e
    }
}

/// Where the link starting at `s` ends.
pub open spec fn link_end(t: Seq<char>, s: int) -> int {
    trim_trail(t, s, scan_end(t, s))
}

/// The links found scanning from position `j` on, as character ranges.
///
/// At each occurrence of `http` that starts a link scheme, the link runs to the
/// first stop character (whitespace or one of `<>"|\^`{}`), minus trailing
/// punctuation; it is kept when it is more than 8 bytes long, and scanning
/// resumes at its end. An `http` that starts no scheme is skipped.
pub open spec fn links_from(t: Seq<char>, j: int) -> Seq<(int, int)>
    decreases t.len() - j,
{
    if j < 0 || j + 4 > t.len() {
        seq![]
    } else if has_at(t, j, http_chars()) {
        if is_link_start(t, j) {
            let e = link_end(t, j);
            let next = if e > j + 4 {
                e
            } else {
                j + 4
            };
            let here: Seq<(int, int)> = if byte_pos(t, e) > byte_pos(t, j) + 8 {
                seq![(j, e)]
            } else {
                seq![]
            };
            if next <= t.len() {
                here + links_from(t, next)
            } else {
                here
            }
        } else {
            links_from(t, j + 4)
        }
    } else {
        links_from(t, j + 1)
    }
}

/// The links of a text as byte ranges.
pub open spec fn links_in_bytes(t: Seq<char>) -> Seq<(int, int)> {
    links_from(t, 0).map_values(|p: (int, int)| (byte_pos(t, p.0), byte_pos(t, p.1)))
}

proof fn lemma_scan_end(t: Seq<char>, k: int)
    requires
        0 <= k <= t.len(),
    ensures
        k <= scan_end(t, k) <= t.len(),
    decreases t.len() - k,
{
    if k < t.len() && !is_stop(t[k]) {
        lemma_scan_end(t, k + 1);
    }
}

proof fn lemma_trim_trail(t: Seq<char>, s: int, e: int)
    requires
        0 <= s <= e <= t.len(),
    ensures
        s <= trim_trail(t, s, e) <= e,
    decreases e - s,
{
    if e > s && is_trail(t[e - 1]) {
        lemma_trim_trail(t, s, e - 1);
    }
}

fn is_stop_char(c: char) -> (r: bool)
    ensures
        r == is_stop(c),
{
    is_whitespace(c) || c == '<' || c == '>' || c == '"' || c == '|' || c == '\\' || c == '^'
        || c == '`' || c == '{' || c == '}'
}

fn is_trail_char(c: char) -> (r: bool)
    ensures
        r == is_trail(c),
{
    c == '.' || c == ',' || c == ')' || c == ']' || c == '}' || c == '!' || c == '?' || c == ':'
        || c == ';' || c == '\''
}

fn has_http(v: &Vec<char>, j: usize) -> (r: bool)
    ensures
        r == has_at(v@, j as int, http_chars()),
{
    let p = vec!['h', 't', 't', 'p'];
    proof {
        assert(p@ =~= http_chars());
    }
    has_at_vec(v, j, &p)
}

fn has_link_start(v: &Vec<char>, j: usize) -> (r: bool)
    ensures
        r == is_link_start(v@, j as int),
{
    let a = vec!['h', 't', 't', 'p', ':', '/', '/'];
    let b = vec!['h', 't', 't', 'p', 's', ':', '/', '/'];
    proof {
        assert(a@ =~= seq!['h', 't', 't', 'p', ':', '/', '/']);
        assert(b@ =~= seq!['h', 't', 't', 'p', 's', ':', '/', '/']);
    }
    has_at_vec(v, j, &a) || has_at_vec(v, j, &b)
}

/// The links of `v` as character ranges.
pub fn links_of(v: &Vec<char>, bp: &Vec<usize>) -> (r: Vec<(usize, usize)>)
    requires
        is_byte_table(v@, bp@),
    ensures
        r@.map_values(|p: (usize, usize)| (p.0 as int, p.1 as int)) == links_from(v@, 0),
{
    let ghost t = v@;
    let mut out: Vec<(usize, usize)> = Vec::new();
    let mut j: usize = 0;
    while j < v.len() && 4 <= v.len() - j
        invariant
            j <= v.len(),
            t == v@,
            is_byte_table(t, bp@),
            out@.map_values(|p: (usize, usize)| (p.0 as int, p.1 as int)) + links_from(t, j as int)
                == links_from(t, 0),
        decreases v.len() - j,
    {
        let ghost before = out@.map_values(|p: (usize, usize)| (p.0 as int, p.1 as int));
        if has_http(v, j) {
            if has_link_start(v, j) {
                let mut e = j;
                while e < v.len() && !is_stop_char(v[e])
                    invariant
                        j <= e <= v.len(),
                        t == v@,
                        scan_end(t, e as int) == scan_end(t, j as int),
                    decreases v.len() - e,
                {
                    e = e + 1;
                }
                while e > j && is_trail_char(v[e - 1])
                    invariant
                        j <= e <= v.len(),
                        t == v@,
                        trim_trail(t, j as int, e as int) == link_end(t, j as int),
                    decreases e - j,
                {
                    e = e - 1;
                }
                if bp[e] > bp[j] && bp[e] - bp[j] > 8 {
                    out.push((j, e));
                    proof {
                        assert(out@.map_values(|p: (usize, usize)| (p.0 as int, p.1 as int))
                            =~= before.push((j as int, e as int)));
                    }
                }
                let next = if e > j + 4 {
                    e
                } else {
                    j + 4
                };
                proof {
                    let here: Seq<(int, int)> = if byte_pos(t, e as int) > byte_pos(t, j as int)
                        + 8 {
                        seq![(j as int, e as int)]
                    } else {
                        seq![]
                    };
                    assert(links_from(t, j as int) == here + links_from(t, next as int));
                    assert(out@.map_values(|p: (usize, usize)| (p.0 as int, p.1 as int))
                        =~= before + here);
                    assert(before + (here + links_from(t, next as int)) =~= (before + here)
                        + links_from(t, next as int));
                }
                j = next;
            } else {
                j = j + 4;
            }
        } else {
            j = j + 1;
        }
    }
    proof {
        assert(links_from(t, j as int) =~= Seq::<(int, int)>::empty());
        assert(out@.map_values(|p: (usize, usize)| (p.0 as int, p.1 as int)) + Seq::<
            (int, int),
        >::empty() =~= out@.map_values(|p: (usize, usize)| (p.0 as int, p.1 as int)));
    }
    out
}

/// Byte ranges of the `http(s)` links of `text`, trailing punctuation trimmed.
pub fn find_urls(text: &str) -> (r: Vec<(usize, usize)>)
    ensures
        r@.map_values(|p: (usize, usize)| (p.0 as int, p.1 as int)) == links_in_bytes(text@),
{
    let v = chars_of(text);
    let total = byte_len(text);
    let bp = byte_table(&v, total);
    let cs = links_of(&v, &bp);
    let ghost t = v@;
    let mut out: Vec<(usize, usize)> = Vec::new();
    let mut k: usize = 0;
    while k < cs.len()
        invariant
            k <= cs.len(),
            t == v@,
            is_byte_table(t, bp@),
            cs@.map_values(|p: (usize, usize)| (p.0 as int, p.1 as int)) == links_from(t, 0),
            out@.map_values(|p: (usize, usize)| (p.0 as int, p.1 as int)) == links_from(
                t,
                0,
            ).take(k as int).map_values(|p: (int, int)| (byte_pos(t, p.0), byte_pos(t, p.1))),
        decreases cs.len() - k,
    {
        let (a, b) = cs[k];
        proof {
            let cv = cs@.map_values(|p: (usize, usize)| (p.0 as int, p.1 as int));
            assert(cv[k as int] == (a as int, b as int));
            lemma_links_in_range(t, 0);
            assert(links_from(t, 0)[k as int] == (a as int, b as int));
            assert(bp@[a as int] == byte_pos(t, a as int));
            assert(bp@[b as int] == byte_pos(t, b as int));
        }
        let ghost prev = out@;
        let x = (bp[a], bp[b]);
        out.push(x);
        proof {
            let g = |p: (usize, usize)| (p.0 as int, p.1 as int);
            let f = |p: (int, int)| (byte_pos(t, p.0), byte_pos(t, p.1));
            let l = links_from(t, 0);
            assert(l.take(k + 1) =~= l.take(k as int).push(l[k as int]));
            assert(l.take(k + 1).map_values(f) =~= l.take(k as int).map_values(f).push(f(l[k as int])));
            assert(out@ == prev.push(x));
            assert(out@.map_values(g) =~= prev.map_values(g).push(g(x)));
            assert(g(x) == f(l[k as int]));
        }
        k = k + 1;
    }
    proof {
        assert(links_from(t, 0).take(cs@.len() as int) =~= links_from(t, 0));
    }
    out
}

/// Every link lies within the text and is non-empty.
pub proof fn lemma_links_in_range(t: Seq<char>, j: int)
    requires
        0 <= j <= t.len(),
    ensures
        forall|k: int|
            0 <= k < links_from(t, j).len() ==> j <= (#[trigger] links_from(t, j)[k]).0 < links_from(
                t,
                j,
            )[k].1 <= t.len(),
    decreases t.len() - j,
{
    let r = links_from(t, j);
    if j + 4 > t.len() {
    } else if has_at(t, j, http_chars()) {
        if is_link_start(t, j) {
            let e = link_end(t, j);
            lemma_scan_end(t, j);
            lemma_trim_trail(t, j, scan_end(t, j));
            let next = if e > j + 4 {
                e
            } else {
                j + 4
            };
            let here: Seq<(int, int)> = if byte_pos(t, e) > byte_pos(t, j) + 8 {
                seq![(j, e)]
            } else {
                seq![]
            };
            if byte_pos(t, e) > byte_pos(t, j) + 8 {
                if e <= j {
                    lemma_byte_pos_mono(t, e, j);
                }
                assert(e > j);
            }
            lemma_links_in_range(t, next);
            let rest = links_from(t, next);
            assert(r == here + rest);
            assert forall|k: int| 0 <= k < r.len() implies j <= (#[trigger] r[k]).0 < r[k].1
                <= t.len() by {
                if k >= here.len() {
                    assert(r[k] == rest[k - here.len()]);
                }
            }
        } else {
            assert(r == links_from(t, j + 4));
            lemma_links_in_range(t, j + 4);
        }
    } else {
        assert(r == links_from(t, j + 1));
        lemma_links_in_range(t, j + 1);
    }
}

/// The first of `links` whose byte range holds `b`.
pub open spec fn link_holding(t: Seq<char>, links: Seq<(int, int)>, b: int) -> Option<(int, int)>
    decreases links.len(),
{
    if links.len() == 0 {
        None
    } else if byte_pos(t, links[0].0) <= b < byte_pos(t, links[0].1) {
        Some(links[0])
    } else {
        link_holding(t, links.drop_first(), b)
    }
}

/// The text of the link under character `ci`, if any.
pub open spec fn url_at_spec(t: Seq<char>, ci: int) -> Option<Seq<char>> {
    match link_holding(t, links_from(t, 0), byte_pos(t, clamp(t, ci))) {
        Some(p) => Some(t.subrange(p.0, p.1)),
        None => None,
    }
}

/// The link at a given character index, if any.
pub fn url_at(text: &str, char_idx: usize) -> (r: Option<String>)
    ensures
        r matches Some(s) ==> url_at_spec(text@, char_idx as int) == Some(s@),
        r is None ==> url_at_spec(text@, char_idx as int) is None,
{
    let v = chars_of(text);
    let total = byte_len(text);
    let bp = byte_table(&v, total);
    let byte = char_to_byte(&v, &bp, char_idx);
    let cs = links_of(&v, &bp);
    let ghost t = v@;
    let ghost all = links_from(t, 0);
    proof {
        lemma_links_in_range(t, 0);
        assert(all.skip(0) =~= all);
    }
    let mut k: usize = 0;
    while k < cs.len()
        invariant
            k <= cs.len(),
            t == v@,
            t == text@,
            is_byte_table(t, bp@),
            byte == byte_pos(t, clamp(t, char_idx as int)),
            cs@.map_values(|p: (usize, usize)| (p.0 as int, p.1 as int)) == all,
            all == links_from(t, 0),
            forall|q: int| 0 <= q < all.len() ==> 0 <= (#[trigger] all[q]).0 < all[q].1 <= t.len(),
            link_holding(t, all.skip(k as int), byte as int) == link_holding(t, all, byte as int),
        decreases cs.len() - k,
    {
        let (a, b) = cs[k];
        proof {
            let cv = cs@.map_values(|p: (usize, usize)| (p.0 as int, p.1 as int));
            assert(cv[k as int] == (a as int, b as int));
            assert(all.skip(k as int)[0] == all[k as int]);
            assert(all.skip(k as int).drop_first() =~= all.skip(k + 1));
        }
        if byte >= bp[a] && byte < bp[b] {
            proof {
                assert(all[k as int] == (a as int, b as int));
                assert(bp@[a as int] == byte_pos(t, a as int));
                assert(bp@[b as int] == byte_pos(t, b as int));
                assert(all.skip(k as int)[0] == (a as int, b as int));
                assert(link_holding(t, all.skip(k as int), byte as int) == Some((a as int, b as int)));
            }
            let res = string_of(&v, a, b);
            proof {
                assert(link_holding(t, all, byte as int) == Some((a as int, b as int)));
                assert(url_at_spec(t, char_idx as int) == Some(t.subrange(a as int, b as int)));
                assert(t == text@);
                assert(res@ == t.subrange(a as int, b as int));
            }
            return Some(res);
        }
        k = k + 1;
    }
    None
}

/// `t` with the formatting markers dropped: every `**`, then every `__`, then
/// every `*` removed.
pub open spec fn stripped(t: Seq<char>) -> Seq<char> {
    remove_all(remove_all(remove_all(t, seq!['*', '*']), seq!['_', '_']), seq!['*'])
}

/// Drops the markers, for display (sidebar titles, file names).
pub fn strip_markers(s: &str) -> (r: String)
    ensures
        r@ == stripped(s@),
{
    let v = chars_of(s);
    let bold = vec!['*', '*'];
    let under = vec!['_', '_'];
    let star = vec!['*'];
    proof {
        assert(bold@ =~= seq!['*', '*']);
        assert(under@ =~= seq!['_', '_']);
        assert(star@ =~= seq!['*']);
    }
    let a = remove_pattern(&v, &bold);
    let b = remove_pattern(&a, &under);
    let c = remove_pattern(&b, &star);
    let r = string_of(&c, 0, c.len());
    proof {
        assert(c@.subrange(0, c@.len() as int) =~= c@);
    }
    r
}

} // verus!
