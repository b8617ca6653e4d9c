use litepad::notes::{
    font_idx, shortcuts, text_stats, Action, KeyState, Note, NoteBook, SaveMoment, SavePlan,
};
use litepad::markup::Fmt;
use litepad::storage::LoadedNote;

fn note(id: u64, path: Option<&str>, content: &str) -> Note {
    Note {
        id,
        path: path.map(|p| p.to_string()),
        content: content.to_string(),
        modified: id as u128,
        dirty: false,
        last_edit: None,
    }
}

#[test]
fn titles_and_previews() {
    let n = note(1, None, "\n  **Shopping** list  \n\n milk *and* eggs\nbread");
    assert_eq!(n.title(), "Shopping list");
    assert_eq!(n.preview(), "milk and eggs");
    assert_eq!(note(1, None, "").title(), "New note");
    assert_eq!(note(1, None, "  \n\t\n").title(), "New note");
    assert_eq!(note(1, None, "**\nsecond").title(), "New note");
    assert_eq!(note(1, None, "only").preview(), "No additional text");
    let long = "y".repeat(100);
    assert_eq!(note(1, None, &long).title().chars().count(), 80);
    assert_eq!(note(1, None, &format!("t\n{long}")).preview().chars().count(), 90);
}

#[test]
fn extensions_of_note_files() {
    assert_eq!(note(1, None, "").ext(), "txt");
    assert_eq!(note(1, Some("C:\\notes\\a.MD"), "").ext(), "md");
    assert_eq!(note(1, Some("/n/a.b.Log"), "").ext(), "log");
    assert_eq!(note(1, Some("/n.d/readme"), "").ext(), "txt");
    assert_eq!(note(1, Some("/n/.hidden"), "").ext(), "txt");
    assert_eq!(note(1, Some("/n/x."), "").ext(), "");
}

fn loaded(path: &str, content: &str, modified: u128) -> LoadedNote {
    LoadedNote { path: path.to_string(), content: content.to_string(), modified }
}

#[test]
fn notebook_from_loaded_and_empty() {
    let b = NoteBook::from_loaded(vec![loaded("a.txt", "A", 3), loaded("b.txt", "B", 2)], 99);
    assert_eq!(b.notes.len(), 2);
    assert_eq!(b.notes[0].id, 1);
    assert_eq!(b.notes[1].id, 2);
    assert_eq!(b.notes[1].path.as_deref(), Some("b.txt"));
    assert_eq!(b.current, 1);
    assert_eq!(b.next_id, 3);
    let e = NoteBook::from_loaded(vec![], 99);
    assert_eq!(e.notes.len(), 1);
    assert_eq!(e.notes[0].id, 1);
    assert_eq!(e.notes[0].modified, 99);
    assert!(e.notes[0].path.is_none());
    assert_eq!(e.current, 1);
    assert_eq!(e.next_id, 2);
}

#[test]
fn new_and_delete_notes() {
    let mut b = NoteBook::from_loaded(vec![loaded("a", "A", 3), loaded("b", "B", 2), loaded("c", "C", 1)], 0);
    b.new_note(7);
    assert_eq!(b.current, 4);
    assert_eq!(b.notes.len(), 4);
    assert_eq!(b.idx_of(4), Some(3));
    // Deleting the selected note selects the one now in its place, or the last.
    let gone = b.delete_note(4, 8);
    assert_eq!(gone, Some(None));
    assert_eq!(b.current, 3);
    b.select(2);
    assert_eq!(b.delete_note(2, 8), Some(Some("b".to_string())));
    assert_eq!(b.current, 3);
    assert_eq!(b.idx_of(2), None);
    assert_eq!(b.delete_note(42, 8), None);
    b.select(1);
    assert_eq!(b.delete_note(3, 8), Some(Some("c".to_string())));
    assert_eq!(b.current, 1);
    // The last note gives way to a blank one.
    assert_eq!(b.delete_note(1, 9), Some(Some("a".to_string())));
    assert_eq!(b.notes.len(), 1);
    assert_eq!(b.notes[0].id, 5);
    assert_eq!(b.current, 5);
    assert_eq!(b.next_id, 6);
    b.select(77);
    assert_eq!(b.current, 5);
}

#[test]
fn dirty_and_due_notes() {
    let mut b = NoteBook::from_loaded(vec![loaded("a", "A", 3), loaded("b", "B", 2), loaded("c", "C", 1)], 0);
    b.mark_edited(0, 1000, 50);
    b.mark_edited(2, 1500, 60);
    assert!(b.notes[0].dirty && b.notes[0].modified == 50);
    assert_eq!(b.dirty_ids(), vec![1, 3]);
    assert_eq!(b.due_ids(1700), vec![1]);
    assert_eq!(b.due_ids(2200), vec![1, 3]);
    assert_eq!(b.due_ids(100), Vec::<u64>::new());
    b.mark_clean(0);
    assert_eq!(b.dirty_ids(), vec![3]);
    b.mark_saved(2, "c2".to_string(), 70);
    assert!(b.dirty_ids().is_empty());
    assert_eq!(b.notes[2].path.as_deref(), Some("c2"));
}

#[test]
fn save_plans() {
    let mut b = NoteBook::from_loaded(vec![], 0);
    match b.save_plan(1) {
        SavePlan::Clean(0) => {}
        _ => panic!("a blank unsaved note has nothing to write"),
    }
    b.notes[0].content = "My: list?\nmore".to_string();
    match b.save_plan(1) {
        SavePlan::Write { idx, stem, ext } => {
            assert_eq!(idx, 0);
            assert_eq!(stem, "My list");
            assert_eq!(ext, "txt");
        }
        _ => panic!("expected a write"),
    }
    assert!(matches!(b.save_plan(9), SavePlan::Missing));
}

#[test]
fn sidebar_order_and_search() {
    let mut b = NoteBook::from_loaded(
        vec![loaded("a", "Apple pie", 5), loaded("b", "banana", 9), loaded("c", "APPLE jam", 5)],
        0,
    );
    assert_eq!(b.sidebar_order(""), vec![1, 0, 2]);
    assert_eq!(b.sidebar_order("apple"), vec![0, 2]);
    assert_eq!(b.sidebar_order("PIE"), vec![0]);
    assert_eq!(b.sidebar_order("kiwi"), Vec::<usize>::new());
    b.mark_edited(2, 0, 100);
    assert_eq!(b.sidebar_order("apple"), vec![2, 0]);
}

#[test]
fn word_and_char_counts() {
    assert_eq!(text_stats(""), (0, 0));
    assert_eq!(text_stats("  hello   wörld \n x"), (3, 19));
}

#[test]
fn font_index() {
    let labels = vec!["Segoe UI".to_string(), "Arial".to_string()];
    assert_eq!(font_idx(&labels, "Arial"), 1);
    assert_eq!(font_idx(&labels, "Comic"), 0);
}

fn keys() -> KeyState {
    KeyState {
        ctrl: true,
        shift: false,
        n: false,
        s: false,
        f: false,
        d: false,
        b: false,
        i: false,
        u: false,
        plus: false,
        minus: false,
    }
}

#[test]
fn keyboard_shortcuts() {
    let none = shortcuts(KeyState { ctrl: false, n: true, ..keys() }, 3);
    assert!(none.action.is_none() && !none.save_all);
    let r = shortcuts(KeyState { n: true, ..keys() }, 3);
    assert_eq!(r.action, Some(Action::New));
    let r = shortcuts(KeyState { s: true, ..keys() }, 3);
    assert!(r.save_all && r.action.is_none());
    let r = shortcuts(KeyState { s: true, shift: true, n: true, ..keys() }, 3);
    assert_eq!(r.action, Some(Action::SaveAs));
    assert!(!r.save_all);
    let r = shortcuts(KeyState { d: true, n: true, ..keys() }, 3);
    assert_eq!(r.action, Some(Action::RequestDelete(3)));
    let r = shortcuts(KeyState { b: true, i: true, f: true, plus: true, ..keys() }, 3);
    assert!(matches!(r.format, Some(Fmt::Italic)));
    assert!(r.focus_search && r.bigger && !r.smaller);
}

#[test]
fn notes_saved_at_each_moment() {
    let mut b = NoteBook::from_loaded(vec![loaded("a", "A", 3), loaded("b", "B", 2), loaded("c", "C", 1)], 0);
    b.mark_edited(0, 1000, 50);
    b.mark_edited(2, 1500, 60);
    assert_eq!(b.save_at(SaveMoment::Tick(1700)), vec![1]);
    assert_eq!(b.save_at(SaveMoment::Tick(100)), Vec::<u64>::new());
    assert_eq!(b.save_at(SaveMoment::Switch), vec![1, 3]);
    assert_eq!(b.save_at(SaveMoment::Close), vec![1, 3]);
    assert_eq!(b.save_at(SaveMoment::Request), vec![1, 3]);
}
