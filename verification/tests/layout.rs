use litepad::fonts::{candidates, fallback, font_choices, key_for, Family};
use litepad::layout::{layout_runs, RunKind};

fn pieces(text: &str) -> Vec<(String, RunKind, bool)> {
    layout_runs(text)
        .into_iter()
        .map(|r| (text[r.start..r.end].to_string(), r.kind, r.style.bold))
        .collect()
}

#[test]
fn layout_splits_links_out_of_text() {
    let p = pieces("see https://a.org/x now **bold http://b.io/yy**");
    let want = vec![
        ("see ".to_string(), RunKind::Text, false),
        ("https://a.org/x".to_string(), RunKind::Link, false),
        (" now ".to_string(), RunKind::Text, false),
        ("**".to_string(), RunKind::Marker, false),
        ("bold ".to_string(), RunKind::Text, true),
        ("http://b.io/yy".to_string(), RunKind::Link, true),
        ("**".to_string(), RunKind::Marker, false),
    ];
    assert_eq!(p, want);
}

#[test]
fn layout_covers_the_text() {
    for text in ["", "plain", "é https://ü.de/ä *x*", "**https://a.b/c**"] {
        let runs = layout_runs(text);
        let mut at = 0;
        for r in &runs {
            assert_eq!(r.start, at);
            assert!(r.end > r.start);
            at = r.end;
        }
        assert_eq!(at, text.len());
    }
}

#[test]
fn font_candidates_and_keys() {
    let c = candidates();
    let labels: Vec<&str> = c.iter().map(|c| c.label.as_str()).collect();
    assert_eq!(labels, vec!["Segoe UI", "Arial", "Georgia", "Consolas"]);
    assert_eq!(c[0].regular_file, "segoeui.ttf");
    assert_eq!(c[3].bold_file, "consolab.ttf");
    let groups: Vec<&str> = c.iter().map(|c| c.group.as_str()).collect();
    assert_eq!(groups, vec!["Modern", "Modern", "Classic", "Classic"]);
    assert_eq!(c[1].regular_file, "arial.ttf");
    assert_eq!(c[1].bold_file, "arialbd.ttf");
    assert_eq!(c[2].bold_file, "georgiab.ttf");
    assert_eq!(key_for("Arial", false), "Arial-reg");
    assert_eq!(key_for("Arial", true), "Arial-bold");
    assert_eq!(fallback("Arial-reg"), vec!["Arial-reg", "Ubuntu-Light", "NotoEmoji-Regular"]);
}

#[test]
fn font_choices_from_found_files() {
    let c = candidates();
    let found = vec![(true, true), (true, false), (false, true), (false, false)];
    let ch = font_choices(&c, &found);
    assert_eq!(ch.len(), 2);
    assert_eq!(ch[0].label, "Segoe UI");
    assert_eq!(ch[0].group, "Modern");
    assert!(matches!(&ch[0].bold, Family::Named(k) if k == "Segoe UI-bold"));
    assert!(matches!(&ch[1].regular, Family::Named(k) if k == "Arial-reg"));
    assert!(matches!(&ch[1].bold, Family::Named(k) if k == "Arial-reg"));
    let none = font_choices(&c, &vec![(false, true); 4]);
    let labels: Vec<&str> = none.iter().map(|c| c.label.as_str()).collect();
    assert_eq!(labels, vec!["Sans", "Mono"]);
    assert!(matches!(none[0].regular, Family::Proportional));
    assert!(matches!(none[1].bold, Family::Monospace));
}
