use litepad::storage::{
    day_month_of, is_note_ext, newest_first, relative_time, sanitize, unique_path, LoadedNote,
};

#[test]
fn sanitize_replaces_forbidden_characters() {
    assert_eq!(sanitize("  a<b>c:d\"e/f\\g|h?i*j  "), "a b c d e f g h i j");
}

#[test]
fn sanitize_collapses_whitespace_and_controls() {
    assert_eq!(sanitize("one \t two\u{7}three"), "one two three");
}

#[test]
fn sanitize_caps_length_and_trims() {
    let long = "x".repeat(59) + " yyyy";
    assert_eq!(sanitize(&long), "x".repeat(59));
    assert_eq!(sanitize(&"z".repeat(100)).chars().count(), 60);
}

#[test]
fn sanitize_reserved_and_empty_names() {
    assert_eq!(sanitize("CON"), "Untitled");
    assert_eq!(sanitize("com1"), "Untitled");
    assert_eq!(sanitize("   "), "Untitled");
    assert_eq!(sanitize("***"), "Untitled");
    assert_eq!(sanitize("console"), "console");
}

#[test]
fn sanitize_drops_trailing_dots() {
    assert_eq!(sanitize("notes..."), "notes");
    assert_eq!(sanitize("a . ."), "a . ");
    // Nothing but dots leaves nothing.
    assert_eq!(sanitize("..."), "Untitled");
    assert_eq!(sanitize("con."), "Untitled");
    assert_eq!(sanitize("CON..."), "Untitled");
    assert_eq!(sanitize("lpt3 ."), "lpt3 ");
}

#[test]
fn unique_path_first_free_name() {
    let taken: Vec<String> = vec![];
    assert_eq!(unique_path("Note", "txt", None, &taken), "Note.txt");
    let taken = vec!["Note.txt".to_string(), "Note 2.txt".to_string()];
    assert_eq!(unique_path("Note", "txt", None, &taken), "Note 3.txt");
    assert_eq!(unique_path("Note", "txt", Some("Note.txt"), &taken), "Note.txt");
    assert_eq!(unique_path("Note", "txt", Some("Note 2.txt"), &taken), "Note 2.txt");
    assert_eq!(unique_path("Other", "md", None, &taken), "Other.md");
}

#[test]
fn unique_path_many_taken() {
    let mut taken = vec!["a.txt".to_string()];
    for n in 2..15 {
        taken.push(format!("a {n}.txt"));
    }
    assert_eq!(unique_path("a", "txt", None, &taken), "a 15.txt");
}

#[test]
fn relative_time_buckets() {
    let at: u64 = 1_718_150_400; // 2024-06-12 00:00 UTC
    assert_eq!(relative_time(0, at), "Just now");
    assert_eq!(relative_time(45, at), "Just now");
    assert_eq!(relative_time(46, at), "1m ago");
    assert_eq!(relative_time(300, at), "5m ago");
    assert_eq!(relative_time(3599, at), "59m ago");
    assert_eq!(relative_time(3600, at), "1h ago");
    assert_eq!(relative_time(86_399, at), "23h ago");
    assert_eq!(relative_time(86_400, at), "Yesterday");
    assert_eq!(relative_time(172_799, at), "Yesterday");
    assert_eq!(relative_time(172_800, at), "12 Jun");
    assert_eq!(relative_time(10 * 86_400 + 5, at + 86_399), "12 Jun");
}

#[test]
fn relative_time_dates() {
    assert_eq!(relative_time(200_000, 0), "1 Jan");
    assert_eq!(relative_time(200_000, 1_709_164_800), "29 Feb"); // 2024-02-29
    assert_eq!(relative_time(200_000, 1_709_251_200), "1 Mar"); // 2024-03-01
    assert_eq!(relative_time(200_000, 1_677_628_800), "1 Mar"); // 2023-03-01
    assert_eq!(relative_time(200_000, 1_704_067_199), "31 Dec"); // 2023-12-31 23:59:59
    assert_eq!(relative_time(200_000, 951_782_400), "29 Feb"); // 2000-02-29
    assert_eq!(relative_time(200_000, 4_107_542_400), "1 Mar"); // 2100-03-01, no leap day
    assert_eq!(day_month_of(0), (0, 0));
    assert_eq!(day_month_of(365), (0, 0)); // 1971-01-01
}

#[test]
fn note_extensions() {
    for e in ["txt", "md", "markdown", "log", "text", "conf", "csv", "TXT", "Md"] {
        assert!(is_note_ext(e), "{e}");
    }
    for e in ["", "rs", "png", "txtx"] {
        assert!(!is_note_ext(e), "{e}");
    }
}

fn ln(path: &str, modified: u128) -> LoadedNote {
    LoadedNote { path: path.to_string(), content: String::new(), modified }
}

#[test]
fn newest_first_is_a_stable_sort() {
    let notes = vec![ln("a", 5), ln("b", 9), ln("c", 5), ln("d", 1), ln("e", 9)];
    let order: Vec<String> = newest_first(notes).into_iter().map(|n| n.path).collect();
    assert_eq!(order, vec!["b", "e", "a", "c", "d"]);
    assert!(newest_first(vec![]).is_empty());
}
