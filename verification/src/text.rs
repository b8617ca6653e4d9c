//! Character-level building blocks shared by the text-handling modules: the
//! character view of a string, UTF-8 byte positions, Unicode whitespace and
//! control predicates, and trimming.

use vstd::prelude::*;
use vstd::utf8::*;

verus! {

broadcast use vstd::utf8::char_is_scalar;

/// The number of bytes the UTF-8 encoding of `c` takes.
pub open spec fn utf8_len(c: char) -> nat {
    encode_scalar(c as u32).len()
}

/// The byte offset at which character `i` of `t` starts.
pub open spec fn byte_pos(t: Seq<char>, i: int) -> int {
    encode_utf8(t.take(i)).len() as int
}

pub proof fn lemma_encode_concat(a: Seq<char>, b: Seq<char>)
    ensures
        encode_utf8(a + b) == encode_utf8(a) + encode_utf8(b),
    decreases a.len(),
{
    if a.len() == 0 {
        assert(a + b =~= b);
        assert(encode_utf8(a) =~= Seq::<u8>::empty());
        assert(encode_utf8(a) + encode_utf8(b) =~= encode_utf8(b));
    } else {
        lemma_encode_concat(a.drop_first(), b);
        assert((a + b).drop_first() =~= a.drop_first() + b);
        assert((a + b)[0] == a[0]);
        assert(encode_utf8(a + b) =~= encode_scalar(a[0] as u32) + (encode_utf8(a.drop_first())
            + encode_utf8(b)));
    }
}

pub proof fn lemma_encode_single(c: char)
    ensures
        encode_utf8(seq![c]).len() == utf8_len(c),
{
    let s = seq![c];
    assert(s.drop_first() =~= Seq::<char>::empty());
    assert(encode_utf8(s.drop_first()) =~= Seq::<u8>::empty());
    assert(encode_utf8(s) =~= encode_scalar(c as u32) + Seq::<u8>::empty());
}

/// Stepping over one character advances the byte position by its UTF-8 length.
pub proof fn lemma_byte_pos_step(t: Seq<char>, i: int)
    requires
        0 <= i < t.len(),
    ensures
        byte_pos(t, i + 1) == byte_pos(t, i) + utf8_len(t[i]),
{
    assert(t.take(i + 1) =~= t.take(i) + seq![t[i]]);
    lemma_encode_concat(t.take(i), seq![t[i]]);
    lemma_encode_single(t[i]);
}

pub proof fn lemma_byte_pos_zero(t: Seq<char>)
    ensures
        byte_pos(t, 0) == 0,
{
    assert(t.take(0) =~= Seq::<char>::empty());
}

pub proof fn lemma_byte_pos_full(t: Seq<char>)
    ensures
        byte_pos(t, t.len() as int) == encode_utf8(t).len(),
{
    assert(t.take(t.len() as int) =~= t);
}

pub proof fn lemma_utf8_len_bounds(c: char)
    ensures
        1 <= utf8_len(c) <= 4,
        (c as u32) < 0x80 <==> utf8_len(c) == 1,
{
}

/// Byte positions grow strictly with the character index.
pub proof fn lemma_byte_pos_mono(t: Seq<char>, i: int, j: int)
    requires
        0 <= i <= j <= t.len(),
    ensures
        byte_pos(t, i) + (j - i) <= byte_pos(t, j),
    decreases j - i,
{
    if i < j {
        lemma_byte_pos_mono(t, i, j - 1);
        lemma_byte_pos_step(t, j - 1);
        lemma_utf8_len_bounds(t[j - 1]);
    }
}

/// The number of bytes `c` takes in UTF-8.
pub fn char_len_utf8(c: char) -> (r: usize)
    ensures
        r == utf8_len(c),
        1 <= r <= 4,
{
    let u = c as u32;
    if u <= 0x7F {
        1
    } else if u <= 0x7FF {
        2
    } else if u <= 0xFFFF {
        3
    } else {
        4
    }
}

/// The characters of `s`, in order.
pub fn chars_of(s: &str) -> (r: Vec<char>)
    ensures
        r@ == s@,
{
    let mut v: Vec<char> = Vec::new();
    for c in it: s.chars()
        invariant
            v@ == it.seq().take(it.index() as int),
    {
        v.push(c);
    }
    v
}

/// Appends one character to a string (std's `String::push`).
#[verifier::external_body]
pub fn push_char(s: &mut String, c: char)
    ensures
        final(s)@ == old(s)@.push(c),
{
    s.push(c);
}

/// The string made of the characters `v[lo..hi]`.
pub fn string_of(v: &Vec<char>, lo: usize, hi: usize) -> (r: String)
    requires
        lo <= hi <= v.len(),
    ensures
        r@ == v@.subrange(lo as int, hi as int),
{
    let mut s = String::new();
    let mut k = lo;
    while k < hi
        invariant
            lo <= k <= hi <= v.len(),
            s@ == v@.subrange(lo as int, k as int),
        decreases hi - k,
    {
        push_char(&mut s, v[k]);
        assert(v@.subrange(lo as int, k + 1) =~= v@.subrange(lo as int, k as int).push(v@[k as int]));
        k = k + 1;
    }
    s
}

/// Unicode `White_Space`, the property that std's `char::is_whitespace` tests.
pub open spec fn is_ws(c: char) -> bool {
    let u = c as u32;
    ||| 0x09 <= u <= 0x0D
    ||| u == 0x20
    ||| u == 0x85
    ||| u == 0xA0
    ||| u == 0x1680
    ||| 0x2000 <= u <= 0x200A
    ||| u == 0x2028
    ||| u == 0x2029
    ||| u == 0x202F
    ||| u == 0x205F
    ||| u == 0x3000
}

/// Whether `c` is Unicode whitespace.
pub fn is_whitespace(c: char) -> (r: bool)
    ensures
        r == is_ws(c),
{
    let u = c as u32;
    (0x09 <= u && u <= 0x0D) || u == 0x20 || u == 0x85 || u == 0xA0 || u == 0x1680 || (0x2000
        <= u && u <= 0x200A) || u == 0x2028 || u == 0x2029 || u == 0x202F || u == 0x205F || u
        == 0x3000
}

/// Unicode general category `Cc`, the property that std's `char::is_control` tests.
pub open spec fn is_ctrl(c: char) -> bool {
    let u = c as u32;
    u <= 0x1F || (0x7F <= u <= 0x9F)
}

/// Whether `c` is a control character.
pub fn is_control(c: char) -> (r: bool)
    ensures
        r == is_ctrl(c),
{
    let u = c as u32;
    u <= 0x1F || (0x7F <= u && u <= 0x9F)
}

/// Index of the first non-whitespace character of `t` at or after `i` (or `t.len()`).
pub open spec fn skip_ws(t: Seq<char>, i: int) -> int
    decreases t.len() - i,
{
    if i >= t.len() || !is_ws(t[i]) {
        i
    } else {
        skip_ws(t, i + 1)
    }
}

/// One past the last non-whitespace character of `t` before `j` (or `lo`).
pub open spec fn skip_ws_back(t: Seq<char>, lo: int, j: int) -> int
    decreases j - lo,
{
    if j <= lo || !is_ws(t[j - 1]) {
        j
    } else {
        skip_ws_back(t, lo, j - 1)
    }
}

/// `t` without leading and trailing whitespace (what std's `str::trim` returns).
pub open spec fn trim(t: Seq<char>) -> Seq<char> {
    let a = skip_ws(t, 0);
    t.subrange(a, skip_ws_back(t, a, t.len() as int))
}

pub proof fn lemma_skip_ws(t: Seq<char>, i: int)
    requires
        0 <= i <= t.len(),
    ensures
        i <= skip_ws(t, i) <= t.len(),
        forall|k: int| i <= k < skip_ws(t, i) ==> is_ws(#[trigger] t[k]),
        skip_ws(t, i) < t.len() ==> !is_ws(t[skip_ws(t, i)]),
    decreases t.len() - i,
{
    if i < t.len() && is_ws(t[i]) {
        lemma_skip_ws(t, i + 1);
    }
}

pub proof fn lemma_skip_ws_back(t: Seq<char>, lo: int, j: int)
    requires
        0 <= lo <= j <= t.len(),
    ensures
        lo <= skip_ws_back(t, lo, j) <= j,
        forall|k: int| skip_ws_back(t, lo, j) <= k < j ==> is_ws(#[trigger] t[k]),
        skip_ws_back(t, lo, j) > lo ==> !is_ws(t[skip_ws_back(t, lo, j) - 1]),
    decreases j - lo,
{
    if j > lo && is_ws(t[j - 1]) {
        lemma_skip_ws_back(t, lo, j - 1);
    }
}

/// The bounds `(a, b)` such that `v[a..b]` is `v[lo..hi]` with surrounding whitespace removed.
pub fn trim_bounds(v: &Vec<char>, lo: usize, hi: usize) -> (r: (usize, usize))
    requires
        lo <= hi <= v.len(),
    ensures
        lo <= r.0 <= r.1 <= hi,
        v@.subrange(r.0 as int, r.1 as int) == trim(v@.subrange(lo as int, hi as int)),
        r.0 - lo == skip_ws(v@.subrange(lo as int, hi as int), 0),
{
    let ghost t = v@.subrange(lo as int, hi as int);
    let mut a = lo;
    while a < hi && is_whitespace(v[a])
        invariant
            lo <= a <= hi <= v.len(),
            t == v@.subrange(lo as int, hi as int),
            skip_ws(t, a - lo) == skip_ws(t, 0),
        decreases hi - a,
    {
        a = a + 1;
    }
    let mut b = hi;
    while b > a && is_whitespace(v[b - 1])
        invariant
            lo <= a <= b <= hi <= v.len(),
            t == v@.subrange(lo as int, hi as int),
            skip_ws(t, 0) == a - lo,
            skip_ws_back(t, a - lo, b - lo) == skip_ws_back(t, a - lo, hi - lo),
        decreases b - a,
    {
        b = b - 1;
    }
    proof {
        assert(t.subrange(a - lo, b - lo) =~= v@.subrange(a as int, b as int));
    }
    (a, b)
}

/// Whether `t` has `p` at position `i`.
pub open spec fn has_at(t: Seq<char>, i: int, p: Seq<char>) -> bool {
    0 <= i && i + p.len() <= t.len() && t.subrange(i, i + p.len()) == p
}

/// Whether `v` holds the characters of `p` at position `i`.
pub fn has_at_vec(v: &Vec<char>, i: usize, p: &Vec<char>) -> (r: bool)
    ensures
        r == has_at(v@, i as int, p@),
{
    if i > v.len() || p.len() > v.len() - i {
        return false;
    }
    let mut k: usize = 0;
    while k < p.len()
        invariant
            i + p.len() <= v.len(),
            k <= p.len(),
            forall|j: int| 0 <= j < k ==> v@[i + j] == p@[j],
        decreases p.len() - k,
    {
        if v[i + k] != p[k] {
            proof {
                assert(v@.subrange(i as int, i + p.len())[k as int] != p@[k as int]);
            }
            return false;
        }
        k = k + 1;
    }
    proof {
        assert(v@.subrange(i as int, i + p.len()) =~= p@);
    }
    true
}

} // verus!
verus! {

/// The number of bytes of the UTF-8 encoding of `t`.
pub open spec fn encode_utf8_len(t: Seq<char>) -> nat {
    encode_utf8(t).len()
}

/// The byte length of `s` (what std's `str::len` returns).
pub fn byte_len(s: &str) -> (r: usize)
    ensures
        r == encode_utf8_len(s@),
        r == byte_pos(s@, s@.len() as int),
        r == s.len(),
{
    proof {
        lemma_byte_pos_full(s@);
    }
    s.as_bytes().len()
}

} // verus!
verus! {

/// Appends `src[lo..hi]` to `dst`.
pub fn push_range(dst: &mut Vec<char>, src: &Vec<char>, lo: usize, hi: usize)
    requires
        lo <= hi <= src.len(),
    ensures
        final(dst)@ == old(dst)@ + src@.subrange(lo as int, hi as int),
{
    let mut k = lo;
    while k < hi
        invariant
            lo <= k <= hi <= src.len(),
            dst@ == old(dst)@ + src@.subrange(lo as int, k as int),
        decreases hi - k,
    {
        dst.push(src[k]);
        assert(src@.subrange(lo as int, k + 1) =~= src@.subrange(lo as int, k as int).push(
            src@[k as int],
        ));
        k = k + 1;
    }
}

/// `t` with every non-overlapping occurrence of `p` removed, scanning left to
/// right (what std's `str::replace(p, "")` returns for a non-empty `p`).
pub open spec fn remove_all(t: Seq<char>, p: Seq<char>) -> Seq<char>
    decreases t.len(),
{
    if t.len() == 0 || p.len() == 0 {
        t
    } else if has_at(t, 0, p) {
        remove_all(t.skip(p.len() as int), p)
    } else {
        seq![t[0]] + remove_all(t.skip(1), p)
    }
}

/// `v` with every non-overlapping occurrence of `p` removed.
pub fn remove_pattern(v: &Vec<char>, p: &Vec<char>) -> (r: Vec<char>)
    requires
        p.len() > 0,
    ensures
        r@ == remove_all(v@, p@),
{
    let mut out: Vec<char> = Vec::new();
    let mut i: usize = 0;
    proof {
        assert(v@.skip(0) =~= v@);
    }
    while i < v.len()
        invariant
            i <= v.len(),
            p.len() > 0,
            out@ + remove_all(v@.skip(i as int), p@) == remove_all(v@, p@),
        decreases v.len() - i,
    {
        let ghost rest = v@.skip(i as int);
        if has_at_vec(v, i, p) {
            proof {
                assert(rest.subrange(0, p@.len() as int) =~= v@.subrange(i as int, i + p@.len()));
                assert(rest.skip(p@.len() as int) =~= v@.skip(i + p@.len()));
            }
            i = i + p.len();
        } else {
            proof {
                if p@.len() <= rest.len() {
                    assert(rest.subrange(0, p@.len() as int) =~= v@.subrange(i as int, i + p@.len()));
                }
                assert(rest.skip(1) =~= v@.skip(i + 1));
                assert(rest[0] == v@[i as int]);
                assert(out@.push(v@[i as int]) + remove_all(v@.skip(i + 1), p@) =~= out@ + (seq![
                    v@[i as int],
                ] + remove_all(rest.skip(1), p@)));
            }
            out.push(v[i]);
            i = i + 1;
        }
    }
    proof {
        assert(v@.skip(i as int) =~= Seq::<char>::empty());
        assert(out@ + Seq::<char>::empty() =~= out@);
    }
    out
}

} // verus!
verus! {

/// The character of a decimal digit.
pub open spec fn digit_char(d: nat) -> char {
    if d == 0 {
        '0'
    } else if d == 1 {
        '1'
    } else if d == 2 {
        '2'
    } else if d == 3 {
        '3'
    } else if d == 4 {
        '4'
    } else if d == 5 {
        '5'
    } else if d == 6 {
        '6'
    } else if d == 7 {
        '7'
    } else if d == 8 {
        '8'
    } else {
        '9'
    }
}

/// The decimal digits of `n`, without leading zeros (how `{}` prints an integer).
pub open spec fn dec(n: nat) -> Seq<char>
    decreases n,
{
    if n < 10 {
        seq![digit_char(n)]
    } else {
        dec(n / 10).push(digit_char(n % 10))
    }
}

pub proof fn lemma_dec_len(n: nat)
    ensures
        dec(n).len() >= 1,
        n >= 10 ==> dec(n).len() >= 2,
    decreases n,
{
    if n >= 10 {
        lemma_dec_len(n / 10);
    }
}

/// Different numbers print differently.
pub proof fn lemma_dec_injective(a: nat, b: nat)
    requires
        dec(a) == dec(b),
    ensures
        a == b,
    decreases a,
{
    lemma_dec_len(a);
    lemma_dec_len(b);
    if a >= 10 && b >= 10 {
        assert(dec(a).drop_last() =~= dec(a / 10));
        assert(dec(b).drop_last() =~= dec(b / 10));
        lemma_dec_injective(a / 10, b / 10);
        assert(dec(a).last() == digit_char(a % 10));
        assert(dec(b).last() == digit_char(b % 10));
    } else if a < 10 && b < 10 {
        assert(dec(a)[0] == digit_char(a));
        assert(dec(b)[0] == digit_char(b));
    }
}

fn digit(d: u64) -> (r: char)
    requires
        d < 10,
    ensures
        r == digit_char(d as nat),
{
    if d == 0 {
        '0'
    } else if d == 1 {
        '1'
    } else if d == 2 {
        '2'
    } else if d == 3 {
        '3'
    } else if d == 4 {
        '4'
    } else if d == 5 {
        '5'
    } else if d == 6 {
        '6'
    } else if d == 7 {
        '7'
    } else if d == 8 {
        '8'
    } else {
        '9'
    }
}

/// Appends the decimal digits of `n` to `out`.
pub fn push_decimal(out: &mut Vec<char>, n: u128)
    ensures
        final(out)@ == old(out)@ + dec(n as nat),
    decreases n,
{
    if n >= 10 {
        push_decimal(out, n / 10);
    }
    out.push(digit((n % 10) as u64));
    proof {
        if n >= 10 {
            assert(old(out)@ + dec((n / 10) as nat) + seq![digit_char((n % 10) as nat)] =~= old(
                out,
            )@ + dec(n as nat));
        } else {
            assert(old(out)@.push(digit_char(n as nat)) =~= old(out)@ + dec(n as nat));
        }
    }
}

/// The Unicode lowercase of a text (what std's `str::to_lowercase` returns).
pub uninterp spec fn lowercase(s: Seq<char>) -> Seq<char>;

/// std's `str::to_lowercase`: the text with every character mapped to its
/// Unicode lowercase form. Its result is named, not spelled out.
#[verifier::external_body]
pub fn to_lowercase(s: &str) -> (r: String)
    ensures
        r@ == lowercase(s@),
{
    s.to_lowercase()
}

/// Whether two character sequences are equal.
pub fn same_chars(a: &Vec<char>, b: &Vec<char>) -> (r: bool)
    ensures
        r == (a@ == b@),
{
    if a.len() != b.len() {
        return false;
    }
    let mut k: usize = 0;
    while k < a.len()
        invariant
            a.len() == b.len(),
            k <= a.len(),
            forall|j: int| 0 <= j < k ==> a@[j] == b@[j],
        decreases a.len() - k,
    {
        if a[k] != b[k] {
            return false;
        }
        k = k + 1;
    }
    proof {
        assert(a@ =~= b@);
    }
    true
}

} // verus!
verus! {

/// The UTF-8 length of a stretch of text is the difference of its byte positions.
pub proof fn lemma_sub_bytes(t: Seq<char>, a: int, b: int)
    requires
        0 <= a <= b <= t.len(),
    ensures
        encode_utf8_len(t.subrange(a, b)) == byte_pos(t, b) - byte_pos(t, a),
{
    assert(t.take(b) =~= t.take(a) + t.subrange(a, b));
    lemma_encode_concat(t.take(a), t.subrange(a, b));
}

/// Different character positions have different byte positions.
pub proof fn lemma_byte_pos_injective(t: Seq<char>, i: int, j: int)
    requires
        0 <= i <= t.len(),
        0 <= j <= t.len(),
        byte_pos(t, i) == byte_pos(t, j),
    ensures
        i == j,
{
    if i < j {
        lemma_byte_pos_mono(t, i, j);
    } else if j < i {
        lemma_byte_pos_mono(t, j, i);
    }
}

} // verus!
