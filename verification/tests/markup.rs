use litepad::markup::{
    byte_table, find_urls, parse, parse_into, strip_markers, toggle_wrap, url_at, Fmt, Seg, Style,
};

/// The styles applied to each run of `text`, for assertions.
fn styles_of(text: &str) -> Vec<(String, Style, bool)> {
    parse(text)
        .into_iter()
        .map(|s| (text[s.start..s.end].to_string(), s.style, s.marker))
        .collect()
}

#[test]
fn wraps_only_the_selection() {
    let mut t = String::from("hello brave world");
    // select "brave" (chars 6..11)
    let (s, e) = toggle_wrap(&mut t, 6, 11, "**");
    assert_eq!(t, "hello **brave** world");
    assert_eq!((s, e), (8, 13));
    assert_eq!(&t[8..13], "brave"); // selection still covers the same word
}

#[test]
fn toggling_twice_removes_the_markers() {
    let mut t = String::from("hello brave world");
    let (s, e) = toggle_wrap(&mut t, 6, 11, "**");
    let (s2, e2) = toggle_wrap(&mut t, s, e, "**");
    assert_eq!(t, "hello brave world");
    assert_eq!((s2, e2), (6, 11));
}

#[test]
fn only_the_wrapped_span_is_styled() {
    let segs = styles_of("plain **bold** plain");
    let bold: Vec<_> = segs
        .iter()
        .filter(|(_, st, marker)| st.bold && !marker)
        .map(|(t, _, _)| t.as_str())
        .collect();
    assert_eq!(bold, vec!["bold"]);
    // The surrounding text must not be bold.
    let unstyled: Vec<_> = segs
        .iter()
        .filter(|(_, st, marker)| !st.bold && !marker)
        .map(|(t, _, _)| t.as_str())
        .collect();
    assert_eq!(unstyled, vec!["plain ", " plain"]);
}

#[test]
fn italic_and_underline_spans() {
    let segs = styles_of("a *it* b __un__ c");
    let it: Vec<_> = segs
        .iter()
        .filter(|(_, s, m)| s.italic && !m)
        .map(|(t, _, _)| t.as_str())
        .collect();
    let un: Vec<_> = segs
        .iter()
        .filter(|(_, s, m)| s.underline && !m)
        .map(|(t, _, _)| t.as_str())
        .collect();
    assert_eq!(it, vec!["it"]);
    assert_eq!(un, vec!["un"]);
}

#[test]
fn nested_bold_italic() {
    let segs = styles_of("**bold *both* **");
    let both: Vec<_> = segs
        .iter()
        .filter(|(_, s, m)| s.bold && s.italic && !m)
        .map(|(t, _, _)| t.as_str())
        .collect();
    assert_eq!(both, vec!["both"]);
}

#[test]
fn lone_asterisks_are_literal() {
    // Bullets and arithmetic must not turn into italics.
    for text in ["* item one\n* item two", "2 * 3 * 4"] {
        assert!(
            parse(text).iter().all(|s| !s.style.italic && !s.marker),
            "{text:?} should stay literal"
        );
    }
}

#[test]
fn unmatched_marker_stays_literal() {
    assert!(parse("**not closed").iter().all(|s| !s.style.bold));
}

#[test]
fn urls_are_detected_and_trimmed() {
    let t = "see https://example.com/a, ok";
    let urls = find_urls(t);
    assert_eq!(urls.len(), 1);
    let (s, e) = urls[0];
    assert_eq!(&t[s..e], "https://example.com/a"); // trailing comma trimmed
    assert_eq!(url_at(t, 10).as_deref(), Some("https://example.com/a"));
    assert_eq!(url_at(t, 0), None);
}

#[test]
fn multibyte_selection_is_safe() {
    let mut t = String::from("héllo wörld");
    let (s, e) = toggle_wrap(&mut t, 6, 11, "**");
    assert_eq!(t, "héllo **wörld**");
    assert_eq!(&t[..], "héllo **wörld**");
    assert_eq!((s, e), (8, 13));
}

#[test]
fn markers_of_each_style() {
    assert_eq!(Fmt::Bold.marker(), "**");
    assert_eq!(Fmt::Italic.marker(), "*");
    assert_eq!(Fmt::Underline.marker(), "__");
}

#[test]
fn runs_cover_the_whole_text_in_order() {
    for text in ["plain **bold** plain", "a *it* b __un__ c", "héllo **wörld** ✓", "", "**"] {
        let segs = parse(text);
        let mut at = 0;
        for s in &segs {
            assert_eq!(s.start, at);
            assert!(s.end > s.start);
            at = s.end;
        }
        assert_eq!(at, text.len());
    }
}

#[test]
fn runs_use_byte_offsets() {
    let segs = styles_of("é **ü** x");
    let bold: Vec<_> = segs.iter().filter(|(_, s, m)| s.bold && !m).map(|(t, _, _)| t.as_str()).collect();
    assert_eq!(bold, vec!["ü"]);
}

#[test]
fn empty_inner_text_is_literal() {
    assert!(parse("****").iter().all(|s| !s.style.bold && !s.marker));
}

#[test]
fn unwrap_when_already_wrapped() {
    let mut t = String::from("a **b** c");
    let (s, e) = toggle_wrap(&mut t, 4, 5, "**");
    assert_eq!(t, "a b c");
    assert_eq!((s, e), (2, 3));
}

#[test]
fn selection_past_the_end_is_clamped() {
    let mut t = String::from("ab");
    let (s, e) = toggle_wrap(&mut t, 1, 9, "*");
    assert_eq!(t, "a*b*");
    assert_eq!((s, e), (2, 10));
}

#[test]
fn http_without_scheme_is_not_a_link() {
    assert!(find_urls("httpx http:/ no").is_empty());
    assert_eq!(find_urls("go http://a.b/c).").len(), 1);
    let t = "go http://a.b/c).";
    let (s, e) = find_urls(t)[0];
    assert_eq!(&t[s..e], "http://a.b/c");
}

#[test]
fn short_links_are_dropped() {
    // Eight bytes is not enough.
    assert!(find_urls("http://a").is_empty());
    assert_eq!(find_urls("http://ab").len(), 1);
    // Byte length counts: one two-byte character makes it long enough.
    assert_eq!(find_urls("http://é").len(), 1);
}

#[test]
fn two_links_and_stop_characters() {
    let t = "<https://x.org/a>|https://y.org/b";
    let urls = find_urls(t);
    let texts: Vec<_> = urls.iter().map(|&(s, e)| &t[s..e]).collect();
    assert_eq!(texts, vec!["https://x.org/a", "https://y.org/b"]);
    assert_eq!(url_at(t, 20).as_deref(), Some("https://y.org/b"));
    assert_eq!(url_at(t, 500), None);
}

#[test]
fn strip_markers_removes_all_markers() {
    assert_eq!(strip_markers("**bold** *it* __un__"), "bold it un");
    assert_eq!(strip_markers("a___b"), "a_b");
    assert_eq!(strip_markers("***"), "");
}

#[test]
fn wrapping_styles_exactly_the_selection() {
    for (fmt, marker) in [(Fmt::Bold, "**"), (Fmt::Italic, "*"), (Fmt::Underline, "__")] {
        let mut t = String::from("héllo wörld again");
        toggle_wrap(&mut t, 6, 11, fmt.marker());
        let segs = styles_of(&t);
        let styled: Vec<_> = segs
            .iter()
            .filter(|(_, st, m)| !m && *st != Style::default())
            .map(|(x, _, _)| x.as_str())
            .collect();
        assert_eq!(styled, vec!["wörld"]);
        let markers: Vec<_> = segs.iter().filter(|(_, _, m)| *m).map(|(x, _, _)| x.as_str()).collect();
        assert_eq!(markers, vec![marker, marker]);
        let plain: Vec<_> = segs
            .iter()
            .filter(|(_, st, m)| !m && *st == Style::default())
            .map(|(x, _, _)| x.as_str())
            .collect();
        assert_eq!(plain, vec!["héllo ", " again"]);
    }
}

#[test]
fn a_window_parses_like_its_text() {
    let text = "ab **cd** __e__ f";
    let v: Vec<char> = text.chars().collect();
    let bp = byte_table(&v, text.len());
    let mut out: Vec<Seg> = Vec::new();
    parse_into(&v, &bp, 3, 15, Style::default(), &mut out);
    let alone = parse(&text[3..15]);
    assert_eq!(out.len(), alone.len());
    for (w, a) in out.iter().zip(alone.iter()) {
        assert_eq!((w.start, w.end, w.style, w.marker), (a.start + 3, a.end + 3, a.style, a.marker));
    }
}

#[test]
fn a_multibyte_window_parses_like_its_text() {
    let text = "é€ **ö** _x_ __ü__!";
    let v: Vec<char> = text.chars().collect();
    let bp = byte_table(&v, text.len());
    let (lo, hi) = (3, v.len() - 1);
    let mut out: Vec<Seg> = vec![Seg { start: 0, end: 1, style: Style::default(), marker: false }];
    parse_into(&v, &bp, lo, hi, Style::default(), &mut out);
    let alone = parse(&text[bp[lo]..bp[hi]]);
    assert_eq!(out.len(), 1 + alone.len());
    assert_eq!((out[0].start, out[0].end), (0, 1));
    for (w, a) in out[1..].iter().zip(alone.iter()) {
        assert_eq!(
            (w.start, w.end, w.style, w.marker),
            (a.start + bp[lo], a.end + bp[lo], a.style, a.marker)
        );
    }
}
