//! The note list: titles, previews and extensions of notes, the list's
//! identity and selection bookkeeping, autosave scheduling, the sidebar's order
//! and search, and the editor's keyboard shortcuts.

use vstd::prelude::*;
use crate::markup::{strip_markers, stripped, Fmt};
use crate::storage::{take_chars, LoadedNote};
use crate::text::{
    chars_of, is_whitespace, is_ws, lowercase, push_range, same_chars, string_of, to_lowercase, trim,
    trim_bounds,
};

verus! {

/// The lines of `t`, scanning from `i` with the current line starting at `s`.
/// Lines are separated by `'\n'`; a final empty line does not count. Callers
/// trim the lines, so a `'\r'` before a `'\n'` makes no difference.
pub open spec fn lines_scan(t: Seq<char>, s: int, i: int) -> Seq<Seq<char>>
    decreases t.len() - i,
{
    if i >= t.len() {
        if 0 <= s < t.len() {
            seq![t.subrange(s, t.len() as int)]
        } else {
            seq![]
        }
    } else if t[i] == '\n' {
        seq![t.subrange(s, i)] + lines_scan(t, i + 1, i + 1)
    } else {
        lines_scan(t, s, i + 1)
    }
}

pub open spec fn text_lines(t: Seq<char>) -> Seq<Seq<char>> {
    lines_scan(t, 0, 0)
}

/// The lines that are not blank, trimmed, in order.
pub open spec fn filled(ls: Seq<Seq<char>>) -> Seq<Seq<char>>
    decreases ls.len(),
{
    if ls.len() == 0 {
        seq![]
    } else if trim(ls[0]).len() > 0 {
        seq![trim(ls[0])] + filled(ls.drop_first())
    } else {
        filled(ls.drop_first())
    }
}

pub open spec fn filled_lines(t: Seq<char>) -> Seq<Seq<char>> {
    filled(text_lines(t))
}

pub open spec fn new_note_title() -> Seq<char> {
    seq!['N', 'e', 'w', ' ', 'n', 'o', 't', 'e']
}

pub open spec fn no_more_text() -> Seq<char> {
    seq![
        'N', 'o', ' ', 'a', 'd', 'd', 'i', 't', 'i', 'o', 'n', 'a', 'l', ' ', 't', 'e', 'x', 't',
    ]
}

/// A note's title: its first non-blank line with markers stripped, cut to 80
/// characters; `New note` when there is no such line or it is blank once
/// stripped.
pub open spec fn title_of(t: Seq<char>) -> Seq<char> {
    let ls = filled_lines(t);
    if ls.len() == 0 {
        new_note_title()
    } else {
        let s = take_chars(stripped(ls[0]), 80);
        if trim(s).len() == 0 {
            new_note_title()
        } else {
            s
        }
    }
}

/// A note's preview: its second non-blank line with markers stripped, cut to
/// 90 characters, or `No additional text`.
pub open spec fn preview_of(t: Seq<char>) -> Seq<char> {
    let ls = filled_lines(t);
    if ls.len() < 2 {
        no_more_text()
    } else {
        take_chars(stripped(ls[1]), 90)
    }
}

/// The file name of a path as Windows reads it, the platform this editor is
/// built for: the text after its last `'/'` or `'\\'`, both being separators
/// there. (On Unix a `'\\'` inside a file name would count as a separator
/// here, unlike std's `Path::file_name` on that platform.)
pub open spec fn last_sep(p: Seq<char>, i: int) -> int
    decreases i,
{
    if i <= 0 {
        -1
    } else if p[i - 1] == '/' || p[i - 1] == '\\' {
        i - 1
    } else {
        last_sep(p, i - 1)
    }
}

pub open spec fn file_name(p: Seq<char>) -> Seq<char> {
    p.skip(last_sep(p, p.len() as int) + 1)
}

/// The last `'.'` of `n` before position `i`, or -1.
pub open spec fn last_dot(n: Seq<char>, i: int) -> int
    decreases i,
{
    if i <= 0 {
        -1
    } else if n[i - 1] == '.' {
        i - 1
    } else {
        last_dot(n, i - 1)
    }
}

/// The extension of a file name as std's `Path::extension` gives it: the text
/// after the last `'.'`, none when there is no dot, when the only dot starts
/// the name, or when the name is `..`.
pub open spec fn extension(n: Seq<char>) -> Option<Seq<char>> {
    let d = last_dot(n, n.len() as int);
    if n == seq!['.', '.'] || d <= 0 {
        None
    } else {
        Some(n.skip(d + 1))
    }
}

pub open spec fn txt() -> Seq<char> {
    seq!['t', 'x', 't']
}

/// The extension a note is saved with: its file's extension in lowercase, or
/// `txt` when it has none or no file yet.
pub open spec fn ext_of(path: Option<Seq<char>>) -> Seq<char> {
    match path {
        Some(p) => match extension(file_name(p)) {
            Some(e) => lowercase(e),
            None => txt(),
        },
        None => txt(),
    }
}

/// A note in the list.
pub struct Note {
    pub id: u64,
    pub path: Option<String>,
    pub content: String,
    /// Last change, in nanoseconds since the Unix epoch.
    pub modified: u128,
    /// Changed since it was last written to disk.
    pub dirty: bool,
    /// The last keystroke, in milliseconds on a monotonic clock.
    pub last_edit: Option<u64>,
}

pub open spec fn path_view(p: Option<String>) -> Option<Seq<char>> {
    match p {
        Some(s) => Some(s@),
        None => None,
    }
}

fn vec_string(v: &Vec<char>) -> (r: String)
    ensures
        r@ == v@,
{
    let r = string_of(v, 0, v.len());
    proof {
        assert(v@.subrange(0, v@.len() as int) =~= v@);
    }
    r
}

/// The non-blank lines of `s`, trimmed.
fn filled_lines_of(s: &str) -> (r: Vec<Vec<char>>)
    ensures
        r@.map_values(|l: Vec<char>| l@) == filled_lines(s@),
{
    let v = chars_of(s);
    let ghost t = v@;
    let mut out: Vec<Vec<char>> = Vec::new();
    let mut st: usize = 0;
    let mut i: usize = 0;
    proof {
        lemma_filled_concat(Seq::empty(), text_lines(t));
        assert(Seq::<Seq<char>>::empty() + text_lines(t) =~= text_lines(t));
    }
    while i < v.len()
        invariant
            st <= i <= v.len(),
            t == v@,
            t == s@,
            out@.map_values(|l: Vec<char>| l@) + filled(lines_scan(t, st as int, i as int))
                == filled_lines(t),
        decreases v.len() - i,
    {
        if v[i] == '\n' {
            let ghost before = out@.map_values(|l: Vec<char>| l@);
            let ghost line = t.subrange(st as int, i as int);
            let (a, b) = trim_bounds(&v, st, i);
            proof {
                lemma_filled_concat(seq![line], lines_scan(t, i + 1, i + 1));
                lemma_filled_one(line);
            }
            if b > a {
                let mut l: Vec<char> = Vec::new();
                push_range(&mut l, &v, a, b);
                out.push(l);
                proof {
                    assert(out@.map_values(|l: Vec<char>| l@) =~= before.push(trim(line)));
                    assert(filled(seq![line]) =~= seq![trim(line)]);
                }
            } else {
                proof {
                    assert(filled(seq![line]) =~= Seq::<Seq<char>>::empty());
                }
            }
            proof {
                assert(out@.map_values(|l: Vec<char>| l@) =~= before + filled(seq![line]));
            }
            st = i + 1;
        }
        i = i + 1;
    }
    if st < v.len() {
        let ghost before = out@.map_values(|l: Vec<char>| l@);
        let ghost line = t.subrange(st as int, t.len() as int);
        let (a, b) = trim_bounds(&v, st, v.len());
        proof {
            lemma_filled_one(line);
        }
        if b > a {
            let mut l: Vec<char> = Vec::new();
            push_range(&mut l, &v, a, b);
            out.push(l);
            proof {
                assert(filled(seq![line]) =~= seq![trim(line)]);
                assert(out@.map_values(|l: Vec<char>| l@) =~= before + filled(seq![line]));
            }
        } else {
            proof {
                assert(filled(seq![line]) =~= Seq::<Seq<char>>::empty());
                assert(out@.map_values(|l: Vec<char>| l@) =~= before + filled(seq![line]));
            }
        }
    } else {
        proof {
            assert(filled(Seq::<Seq<char>>::empty()) =~= Seq::<Seq<char>>::empty());
            assert(out@.map_values(|l: Vec<char>| l@) + Seq::<Seq<char>>::empty() =~= out@.map_values(
                |l: Vec<char>| l@,
            ));
        }
    }
    out
}

proof fn lemma_filled_one(l: Seq<char>)
    ensures
        filled(seq![l]) == (if trim(l).len() > 0 {
            seq![trim(l)]
        } else {
            Seq::<Seq<char>>::empty()
        }),
{
    assert(seq![l].drop_first() =~= Seq::<Seq<char>>::empty());
    assert(seq![l][0] == l);
    assert(filled(Seq::<Seq<char>>::empty()) == Seq::<Seq<char>>::empty());
    if trim(l).len() > 0 {
        assert(seq![trim(l)] + Seq::<Seq<char>>::empty() =~= seq![trim(l)]);
    }
}

proof fn lemma_filled_concat(a: Seq<Seq<char>>, b: Seq<Seq<char>>)
    ensures
        filled(a + b) == filled(a) + filled(b),
    decreases a.len(),
{
    if a.len() == 0 {
        assert(a + b =~= b);
        assert(filled(a) + filled(b) =~= filled(b));
    } else {
        lemma_filled_concat(a.drop_first(), b);
        assert((a + b).drop_first() =~= a.drop_first() + b);
        assert((a + b)[0] == a[0]);
        if trim(a[0]).len() > 0 {
            assert(seq![trim(a[0])] + (filled(a.drop_first()) + filled(b)) =~= (seq![trim(a[0])]
                + filled(a.drop_first())) + filled(b));
        }
    }
}

/// `s` with markers stripped, cut to `n` characters.
fn stripped_prefix(l: &Vec<char>, n: usize) -> (r: Vec<char>)
    ensures
        r@ == take_chars(stripped(l@), n as int),
{
    let s = vec_string(l);
    let st = strip_markers(s.as_str());
    let sv = chars_of(st.as_str());
    let cut = if sv.len() <= n {
        sv.len()
    } else {
        n
    };
    let mut out: Vec<char> = Vec::new();
    push_range(&mut out, &sv, 0, cut);
    proof {
        assert(out@ =~= take_chars(stripped(l@), n as int));
    }
    out
}

impl Note {
    /// First non-blank line, with formatting markers stripped (see [`title_of`]).
    pub fn title(&self) -> (r: String)
        ensures
            r@ == title_of(self.content@),
    {
        let ls = filled_lines_of(self.content.as_str());
        proof {
            assert(ls@.len() == filled_lines(self.content@).len());
        }
        if ls.len() == 0 {
            let v = vec!['N', 'e', 'w', ' ', 'n', 'o', 't', 'e'];
            proof {
                assert(v@ =~= new_note_title());
            }
            return vec_string(&v);
        }
        proof {
            assert(ls@[0]@ == filled_lines(self.content@)[0]);
        }
        let s = stripped_prefix(&ls[0], 80);
        let (a, b) = trim_bounds(&s, 0, s.len());
        proof {
            assert(s@.subrange(0, s@.len() as int) =~= s@);
        }
        if a == b {
            let v = vec!['N', 'e', 'w', ' ', 'n', 'o', 't', 'e'];
            proof {
                assert(v@ =~= new_note_title());
            }
            vec_string(&v)
        } else {
            vec_string(&s)
        }
    }

    /// Second non-blank line, with formatting markers stripped (see [`preview_of`]).
    pub fn preview(&self) -> (r: String)
        ensures
            r@ == preview_of(self.content@),
    {
        let ls = filled_lines_of(self.content.as_str());
        proof {
            assert(ls@.len() == filled_lines(self.content@).len());
        }
        if ls.len() < 2 {
            let v = vec![
                'N', 'o', ' ', 'a', 'd', 'd', 'i', 't', 'i', 'o', 'n', 'a', 'l', ' ', 't', 'e', 'x', 't',
            ];
            proof {
                assert(v@ =~= no_more_text());
            }
            return vec_string(&v);
        }
        proof {
            assert(ls@[1]@ == filled_lines(self.content@)[1]);
        }
        let s = stripped_prefix(&ls[1], 90);
        vec_string(&s)
    }

    /// The extension this note is saved with (see [`ext_of`]); its path is read
    /// with Windows separators (see [`file_name`]).
    pub fn ext(&self) -> (r: String)
        ensures
            r@ == ext_of(path_view(self.path)),
    {
        let txt_v = vec!['t', 'x', 't'];
        proof {
            assert(txt_v@ =~= txt());
        }
        match &self.path {
            None => vec_string(&txt_v),
            Some(p) => {
                let pv = chars_of(p.as_str());
                let mut i = pv.len();
                while i > 0 && pv[i - 1] != '/' && pv[i - 1] != '\\'
                    invariant
                        i <= pv.len(),
                        last_sep(pv@, i as int) == last_sep(pv@, pv@.len() as int),
                    decreases i,
                {
                    i = i - 1;
                }
                // The file name is pv[i..].
                proof {
                    assert(last_sep(pv@, pv@.len() as int) + 1 == i);
                }
                let ghost name = pv@.skip(i as int);
                let mut j = pv.len();
                while j > i && pv[j - 1] != '.'
                    invariant
                        i <= j <= pv.len(),
                        name == pv@.skip(i as int),
                        last_dot(name, j - i) == last_dot(name, name.len() as int),
                    decreases j,
                {
                    j = j - 1;
                }
                proof {
                    assert(last_dot(name, name.len() as int) == j - i - 1);
                }
                let dotdot = pv.len() - i == 2 && pv[i] == '.' && pv[i + 1] == '.';
                proof {
                    if pv.len() - i == 2 {
                        if dotdot {
                            assert(name =~= seq!['.', '.']);
                        } else {
                            assert(name[0] != '.' || name[1] != '.');
                        }
                    }
                }
                if dotdot || j - i <= 1 {
                    vec_string(&txt_v)
                } else {
                    let e = string_of(&pv, j, pv.len());
                    proof {
                        assert(pv@.subrange(j as int, pv@.len() as int) =~= name.skip(j - i));
                    }
                    to_lowercase(e.as_str())
                }
            },
        }
    }
}

/// A fresh, empty, unsaved note.
pub open spec fn blank_note(n: Note, id: u64, now: u128) -> bool {
    &&& n.id == id
    &&& n.path is None
    &&& n.content@ == Seq::<char>::empty()
    &&& n.modified == now
    &&& !n.dirty
    &&& n.last_edit is None
}

/// The note list with the selected note and the next free id.
pub struct NoteBook {
    pub notes: Vec<Note>,
    pub current: u64,
    pub next_id: u64,
}

pub open spec fn ids_of(notes: Seq<Note>) -> Seq<u64> {
    notes.map_values(|n: Note| n.id)
}

pub open spec fn has_id(notes: Seq<Note>, id: u64) -> bool {
    exists|i: int| 0 <= i < notes.len() && notes[i].id == id
}

impl NoteBook {
    /// The list is never empty, ids are distinct and below `next_id`, and the
    /// selected note is in the list.
    pub open spec fn wf(&self) -> bool {
        &&& self.notes@.len() > 0
        &&& forall|i: int, j: int|
            0 <= i < j < self.notes@.len() ==> (#[trigger] self.notes@[i]).id != (
            #[trigger] self.notes@[j]).id
        &&& forall|i: int| 0 <= i < self.notes@.len() ==> (#[trigger] self.notes@[i]).id < self.next_id
        &&& has_id(self.notes@, self.current)
    }

    /// The list made of the notes found on disk (given newest first), numbered
    /// from 1; a single blank note when there are none. The first is selected.
    pub fn from_loaded(loaded: Vec<LoadedNote>, now: u128) -> (r: NoteBook)
        requires
            loaded@.len() + 1 < u64::MAX,
        ensures
            r.wf(),
            loaded@.len() > 0 ==> {
                &&& r.notes@.len() == loaded@.len()
                &&& r.next_id == loaded@.len() + 1
                &&& forall|i: int|
                    0 <= i < loaded@.len() ==> {
                        let n = #[trigger] r.notes@[i];
                        &&& n.id == i + 1
                        &&& path_view(n.path) == Some(loaded@[i].path@)
                        &&& n.content@ == loaded@[i].content@
                        &&& n.modified == loaded@[i].modified
                        &&& !n.dirty
                        &&& n.last_edit is None
                    }
            },
            loaded@.len() == 0 ==> r.notes@.len() == 1 && blank_note(r.notes@[0], 1, now) && r.next_id
                == 2,
            r.current == r.notes@[0].id,
    {
        let ghost src = loaded@;
        let mut rest = loaded;
        let mut notes: Vec<Note> = Vec::new();
        let mut k: usize = 0;
        // Take the notes from the back, then put them in order.
        let total = rest.len();
        while rest.len() > 0
            invariant
                rest@ == src.take(rest@.len() as int),
                total == src.len(),
                total + 1 < u64::MAX,
                notes@.len() + rest@.len() == total,
                forall|i: int|
                    0 <= i < notes@.len() ==> {
                        let n = #[trigger] notes@[i];
                        let j = total - 1 - i;
                        &&& n.id == j + 1
                        &&& path_view(n.path) == Some(src[j].path@)
                        &&& n.content@ == src[j].content@
                        &&& n.modified == src[j].modified
                        &&& !n.dirty
                        &&& n.last_edit is None
                    },
            decreases rest@.len(),
        {
            let ln = rest.pop().unwrap();
            let id = rest.len() as u64 + 1;
            proof {
                assert(ln == src[rest@.len() as int]);
                assert(rest@ =~= src.take(rest@.len() as int));
            }
            notes.push(Note {
                id,
                path: Some(ln.path),
                content: ln.content,
                modified: ln.modified,
                dirty: false,
                last_edit: None,
            });
        }
        // `notes` holds them last first: reverse.
        let mut ordered: Vec<Note> = Vec::new();
        while notes.len() > 0
            invariant
                total == src.len(),
                total + 1 < u64::MAX,
                notes@.len() + ordered@.len() == total,
                forall|i: int|
                    0 <= i < notes@.len() ==> {
                        let n = #[trigger] notes@[i];
                        let j = total - 1 - i;
                        &&& n.id == j + 1
                        &&& path_view(n.path) == Some(src[j].path@)
                        &&& n.content@ == src[j].content@
                        &&& n.modified == src[j].modified
                        &&& !n.dirty
                        &&& n.last_edit is None
                    },
                forall|i: int|
                    0 <= i < ordered@.len() ==> {
                        let n = #[trigger] ordered@[i];
                        &&& n.id == i + 1
                        &&& path_view(n.path) == Some(src[i].path@)
                        &&& n.content@ == src[i].content@
                        &&& n.modified == src[i].modified
                        &&& !n.dirty
                        &&& n.last_edit is None
                    },
            decreases notes@.len(),
        {
            let n = notes.pop().unwrap();
            ordered.push(n);
        }
        if ordered.len() == 0 {
            ordered.push(Note {
                id: 1,
                path: None,
                content: String::new(),
                modified: now,
                dirty: false,
                last_edit: None,
            });
            proof {
                assert(ordered@[0].id == 1);
                assert(has_id(ordered@, 1));
            }
            return NoteBook { notes: ordered, current: 1, next_id: 2 };
        }
        let next = total as u64 + 1;
        let current = ordered[0].id;
        proof {
            assert(has_id(ordered@, current));
        }
        NoteBook { notes: ordered, current, next_id: next }
    }

    /// The position of the note with this id.
    pub fn idx_of(&self, id: u64) -> (r: Option<usize>)
        ensures
            match r {
                Some(i) => i < self.notes@.len() && self.notes@[i as int].id == id && forall|j: int|
                    0 <= j < i ==> (#[trigger] self.notes@[j]).id != id,
                None => !has_id(self.notes@, id),
            },
    {
        let mut i: usize = 0;
        while i < self.notes.len()
            invariant
                i <= self.notes@.len(),
                forall|j: int| 0 <= j < i ==> (#[trigger] self.notes@[j]).id != id,
            decreases self.notes@.len() - i,
        {
            if self.notes[i].id == id {
                return Some(i);
            }
            i = i + 1;
        }
        None
    }

    /// Adds a blank note and selects it.
    pub fn new_note(&mut self, now: u128)
        requires
            old(self).wf(),
            old(self).next_id < u64::MAX,
        ensures
            final(self).wf(),
            final(self).notes@.len() == old(self).notes@.len() + 1,
            final(self).notes@.take(old(self).notes@.len() as int) == old(self).notes@,
            blank_note(final(self).notes@.last(), old(self).next_id, now),
            final(self).current == old(self).next_id,
            final(self).next_id == old(self).next_id + 1,
    {
        let id = self.next_id;
        self.next_id = self.next_id + 1;
        self.notes.push(Note {
            id,
            path: None,
            content: String::new(),
            modified: now,
            dirty: false,
            last_edit: None,
        });
        self.current = id;
        proof {
            assert(self.notes@.take(old(self).notes@.len() as int) =~= old(self).notes@);
            assert(has_id(self.notes@, id)) by {
                assert(self.notes@[self.notes@.len() - 1].id == id);
            }
        }
    }

    /// Records a keystroke in the note at `idx`: it is changed, at `now` (for
    /// ordering) and at `now_ms` on the monotonic clock (for autosave).
    pub fn mark_edited(&mut self, idx: usize, now_ms: u64, now: u128)
        requires
            old(self).wf(),
            idx < old(self).notes@.len(),
        ensures
            final(self).wf(),
            final(self).current == old(self).current,
            final(self).next_id == old(self).next_id,
            final(self).notes@.len() == old(self).notes@.len(),
            forall|j: int|
                0 <= j < old(self).notes@.len() && j != idx ==> final(self).notes@[j] == old(
                    self,
                ).notes@[j],
            ({
                let (n, o) = (final(self).notes@[idx as int], old(self).notes@[idx as int]);
                &&& n.dirty
                &&& n.last_edit == Some(now_ms)
                &&& n.modified == now
                &&& n.id == o.id
                &&& n.path == o.path
                &&& n.content == o.content
            }),
    {
        let mut n = self.notes.remove(idx);
        n.dirty = true;
        n.last_edit = Some(now_ms);
        n.modified = now;
        self.notes.insert(idx, n);
        proof {
            assert(forall|j: int|
                0 <= j < old(self).notes@.len() && j != idx ==> self.notes@[j] == old(self).notes@[j]);
            assert(has_id(self.notes@, self.current)) by {
                let w = choose|i: int| 0 <= i < old(self).notes@.len() && old(self).notes@[i].id
                    == old(self).current;
                assert(self.notes@[w].id == self.current);
            }
        }
    }

    /// Removes the note with this id. Returns `None` when there is no such
    /// note; otherwise the note's file (for the caller to delete). When the
    /// list would become empty a blank note takes its place; when the removed
    /// note was selected, the note now at its position (or the last one) is.
    pub fn delete_note(&mut self, id: u64, now: u128) -> (r: Option<Option<String>>)
        requires
            old(self).wf(),
            old(self).notes@.len() == 1 && old(self).notes@[0].id == id ==> old(self).next_id
                < u64::MAX,
        ensures
            final(self).wf(),
            !has_id(final(self).notes@, id),
            match r {
                None => !has_id(old(self).notes@, id) && *final(self) == *old(self),
                Some(p) => exists|idx: int|
                    0 <= idx < old(self).notes@.len() && old(self).notes@[idx].id == id && p
                        == old(self).notes@[idx].path && if old(self).notes@.len() == 1 {
                        &&& final(self).notes@.len() == 1
                        &&& blank_note(final(self).notes@[0], old(self).next_id, now)
                        &&& final(self).current == old(self).next_id
                        &&& final(self).next_id == old(self).next_id + 1
                    } else {
                        &&& final(self).notes@ == old(self).notes@.remove(idx)
                        &&& final(self).next_id == old(self).next_id
                        &&& final(self).current == if old(self).current == id {
                            final(self).notes@[if idx < final(self).notes@.len() {
                                idx
                            } else {
                                final(self).notes@.len() - 1
                            }].id
                        } else {
                            old(self).current
                        }
                    },
            },
    {
        let idx = match self.idx_of(id) {
            None => {
                return None;
            },
            Some(i) => i,
        };
        let ghost old_notes = self.notes@;
        let n = self.notes.remove(idx);
        proof {
            assert(self.notes@ == old_notes.remove(idx as int));
            assert forall|k: int| 0 <= k < self.notes@.len() implies (#[trigger] self.notes@[k]).id
                != id by {
                if k < idx {
                    assert(self.notes@[k] == old_notes[k]);
                } else {
                    assert(self.notes@[k] == old_notes[k + 1]);
                }
            }
        }
        if self.notes.len() == 0 {
            let nid = self.next_id;
            self.next_id = self.next_id + 1;
            self.notes.push(Note {
                id: nid,
                path: None,
                content: String::new(),
                modified: now,
                dirty: false,
                last_edit: None,
            });
            self.current = nid;
            proof {
                assert(self.notes@[0].id == nid);
                assert(has_id(self.notes@, nid));
                assert(old_notes[idx as int].id < nid);
            }
        } else {
            if self.current == id {
                let pick = if idx < self.notes.len() {
                    idx
                } else {
                    self.notes.len() - 1
                };
                self.current = self.notes[pick].id;
                proof {
                    assert(has_id(self.notes@, self.current));
                }
            } else {
                proof {
                    let w = choose|i: int| 0 <= i < old_notes.len() && old_notes[i].id == self.current;
                    if w < idx {
                        assert(self.notes@[w] == old_notes[w]);
                    } else {
                        assert(w != idx);
                        assert(self.notes@[w - 1] == old_notes[w]);
                    }
                    assert(has_id(self.notes@, self.current));
                }
            }
            proof {
                assert forall|a: int, b: int| 0 <= a < b < self.notes@.len() implies (
                #[trigger] self.notes@[a]).id != (#[trigger] self.notes@[b]).id by {
                    let oa = if a < idx {
                        a
                    } else {
                        a + 1
                    };
                    let ob = if b < idx {
                        b
                    } else {
                        b + 1
                    };
                    assert(self.notes@[a] == old_notes[oa]);
                    assert(self.notes@[b] == old_notes[ob]);
                }
                assert forall|a: int| 0 <= a < self.notes@.len() implies (
                #[trigger] self.notes@[a]).id < self.next_id by {
                    if a < idx {
                        assert(self.notes@[a] == old_notes[a]);
                    } else {
                        assert(self.notes@[a] == old_notes[a + 1]);
                    }
                }
            }
        }
        Some(n.path)
    }

    /// Selects the note with this id, when there is one.
    pub fn select(&mut self, id: u64)
        requires
            old(self).wf(),
        ensures
            final(self).wf(),
            final(self).notes == old(self).notes,
            final(self).next_id == old(self).next_id,
            final(self).current == if has_id(old(self).notes@, id) {
                id
            } else {
                old(self).current
            },
    {
        if self.idx_of(id).is_some() {
            self.current = id;
        }
    }

    /// Marks the note at `idx` as written to disk at `path`, at `now`.
    pub fn mark_saved(&mut self, idx: usize, path: String, now: u128)
        requires
            old(self).wf(),
            idx < old(self).notes@.len(),
        ensures
            final(self).wf(),
            final(self).current == old(self).current,
            final(self).next_id == old(self).next_id,
            final(self).notes@.len() == old(self).notes@.len(),
            forall|j: int|
                0 <= j < old(self).notes@.len() && j != idx ==> final(self).notes@[j] == old(
                    self,
                ).notes@[j],
            ({
                let (n, o) = (final(self).notes@[idx as int], old(self).notes@[idx as int]);
                &&& !n.dirty
                &&& n.path == Some(path)
                &&& n.modified == now
                &&& n.id == o.id
                &&& n.content == o.content
                &&& n.last_edit == o.last_edit
            }),
    {
        let mut n = self.notes.remove(idx);
        n.dirty = false;
        n.path = Some(path);
        n.modified = now;
        self.notes.insert(idx, n);
        proof {
            assert(has_id(self.notes@, self.current)) by {
                let w = choose|i: int| 0 <= i < old(self).notes@.len() && old(self).notes@[i].id
                    == old(self).current;
                assert(self.notes@[w].id == self.current);
            }
        }
    }

    /// Marks the note at `idx` as having nothing to write.
    pub fn mark_clean(&mut self, idx: usize)
        requires
            old(self).wf(),
            idx < old(self).notes@.len(),
        ensures
            final(self).wf(),
            final(self).current == old(self).current,
            final(self).next_id == old(self).next_id,
            final(self).notes@.len() == old(self).notes@.len(),
            forall|j: int|
                0 <= j < old(self).notes@.len() && j != idx ==> final(self).notes@[j] == old(
                    self,
                ).notes@[j],
            final(self).notes@[idx as int] == (Note { dirty: false, ..old(self).notes@[idx as int] }),
    {
        let mut n = self.notes.remove(idx);
        n.dirty = false;
        self.notes.insert(idx, n);
        proof {
            assert(has_id(self.notes@, self.current)) by {
                let w = choose|i: int| 0 <= i < old(self).notes@.len() && old(self).notes@[i].id
                    == old(self).current;
                assert(self.notes@[w].id == self.current);
            }
        }
    }

    /// The ids of the notes to write when `moment` comes: every changed note
    /// when the user switches notes, asks to save or closes the window, and the notes due
    /// for autosave (see [`due_ids`](Self::due_ids)) on a timer tick.
    pub fn save_at(&self, moment: SaveMoment) -> (r: Vec<u64>)
        ensures
            r@ == ids_to_save(self.notes@, moment),
    {
        match moment {
            SaveMoment::Tick(now_ms) => self.due_ids(now_ms),
            SaveMoment::Switch => self.dirty_ids(),
            SaveMoment::Close => self.dirty_ids(),
            SaveMoment::Request => self.dirty_ids(),
        }
    }

    /// The ids of the notes with unsaved changes, in list order.
    pub fn dirty_ids(&self) -> (r: Vec<u64>)
        ensures
            r@ == dirty_of(self.notes@),
    {
        let mut out: Vec<u64> = Vec::new();
        let mut i: usize = 0;
        proof {
            assert(self.notes@.take(0) =~= Seq::<Note>::empty());
        }
        while i < self.notes.len()
            invariant
                i <= self.notes@.len(),
                out@ == dirty_of(self.notes@.take(i as int)),
            decreases self.notes@.len() - i,
        {
            proof {
                lemma_dirty_push(self.notes@.take(i as int), self.notes@[i as int]);
                assert(self.notes@.take(i + 1) =~= self.notes@.take(i as int).push(
                    self.notes@[i as int],
                ));
            }
            if self.notes[i].dirty {
                out.push(self.notes[i].id);
            }
            i = i + 1;
        }
        proof {
            assert(self.notes@.take(i as int) =~= self.notes@);
        }
        out
    }

    /// The ids of the notes due for autosave at `now_ms`: changed, and either
    /// never typed in or last typed in at least 700 ms ago, in list order.
    pub fn due_ids(&self, now_ms: u64) -> (r: Vec<u64>)
        ensures
            r@ == due_of(self.notes@, now_ms),
    {
        let mut out: Vec<u64> = Vec::new();
        let mut i: usize = 0;
        proof {
            assert(self.notes@.take(0) =~= Seq::<Note>::empty());
        }
        while i < self.notes.len()
            invariant
                i <= self.notes@.len(),
                out@ == due_of(self.notes@.take(i as int), now_ms),
            decreases self.notes@.len() - i,
        {
            proof {
                lemma_due_push(self.notes@.take(i as int), self.notes@[i as int], now_ms);
                assert(self.notes@.take(i + 1) =~= self.notes@.take(i as int).push(
                    self.notes@[i as int],
                ));
            }
            let n = &self.notes[i];
            let due = n.dirty && match n.last_edit {
                None => true,
                Some(t) => now_ms >= t && now_ms - t >= 700,
            };
            if due {
                out.push(n.id);
            }
            i = i + 1;
        }
        proof {
            assert(self.notes@.take(i as int) =~= self.notes@);
        }
        out
    }

    /// What saving the note with this id takes (see [`SavePlan`]).
    pub fn save_plan(&self, id: u64) -> (r: SavePlan)
        ensures
            match r {
                SavePlan::Missing => !has_id(self.notes@, id),
                SavePlan::Clean(i) => i < self.notes@.len() && self.notes@[i as int].id == id
                    && self.notes@[i as int].path is None && trim(self.notes@[i as int].content@).len()
                    == 0,
                SavePlan::Write { idx, stem, ext } => idx < self.notes@.len() && self.notes@[idx as int].id
                    == id && !(self.notes@[idx as int].path is None && trim(
                    self.notes@[idx as int].content@,
                ).len() == 0) && stem@ == crate::storage::sanitized(
                    title_of(self.notes@[idx as int].content@),
                ) && ext@ == ext_of(path_view(self.notes@[idx as int].path)),
            },
            match r {
                SavePlan::Clean(i) => forall|j: int| 0 <= j < i ==> (#[trigger] self.notes@[j]).id != id,
                SavePlan::Write { idx, stem, ext } => forall|j: int|
                    0 <= j < idx ==> (#[trigger] self.notes@[j]).id != id,
                SavePlan::Missing => true,
            },
    {
        let idx = match self.idx_of(id) {
            None => {
                return SavePlan::Missing;
            },
            Some(i) => i,
        };
        let n = &self.notes[idx];
        if n.path.is_none() {
            let cv = chars_of(n.content.as_str());
            let (a, b) = trim_bounds(&cv, 0, cv.len());
            proof {
                assert(cv@.subrange(0, cv@.len() as int) =~= cv@);
            }
            if a == b {
                return SavePlan::Clean(idx);
            }
        }
        let title = n.title();
        let stem = crate::storage::sanitize(title.as_str());
        let ext = n.ext();
        SavePlan::Write { idx, stem, ext }
    }
}

/// What saving a note takes.
pub enum SavePlan {
    /// No note has the id.
    Missing,
    /// The note at this position was never saved and is blank: nothing to write.
    Clean(usize),
    /// Write the note at `idx` under the stem and extension given.
    Write { idx: usize, stem: String, ext: String },
}

/// The ids of the changed notes, in order.
/// When notes may be written to disk.
#[derive(Clone, Copy, Debug)]
pub enum SaveMoment {
    /// A periodic check, at this time in milliseconds.
    Tick(u64),
    /// The user picks another note.
    Switch,
    /// The window is being closed.
    Close,
    /// The user asks to save.
    Request,
}

/// The ids of the notes written at `moment` (see [`NoteBook::save_at`]).
pub open spec fn ids_to_save(ns: Seq<Note>, moment: SaveMoment) -> Seq<u64> {
    match moment {
        SaveMoment::Tick(now_ms) => due_of(ns, now_ms),
        SaveMoment::Switch | SaveMoment::Close | SaveMoment::Request => dirty_of(ns),
    }
}

pub open spec fn dirty_of(ns: Seq<Note>) -> Seq<u64>
    decreases ns.len(),
{
    if ns.len() == 0 {
        seq![]
    } else {
        dirty_of(ns.drop_last()) + if ns.last().dirty {
            seq![ns.last().id]
        } else {
            seq![]
        }
    }
}

/// Whether autosave is due for a note at `now_ms`.
pub open spec fn is_due(n: Note, now_ms: u64) -> bool {
    n.dirty && match n.last_edit {
        None => true,
        Some(t) => now_ms >= t && now_ms - t >= 700,
    }
}

/// The ids of the notes due for autosave, in order.
pub open spec fn due_of(ns: Seq<Note>, now_ms: u64) -> Seq<u64>
    decreases ns.len(),
{
    if ns.len() == 0 {
        seq![]
    } else {
        due_of(ns.drop_last(), now_ms) + if is_due(ns.last(), now_ms) {
            seq![ns.last().id]
        } else {
            seq![]
        }
    }
}

proof fn lemma_dirty_push(ns: Seq<Note>, n: Note)
    ensures
        dirty_of(ns.push(n)) == dirty_of(ns) + if n.dirty {
            seq![n.id]
        } else {
            seq![]
        },
{
    assert(ns.push(n).drop_last() =~= ns);
}

proof fn lemma_due_push(ns: Seq<Note>, n: Note, now_ms: u64)
    ensures
        due_of(ns.push(n), now_ms) == due_of(ns, now_ms) + if is_due(n, now_ms) {
            seq![n.id]
        } else {
            seq![]
        },
{
    assert(ns.push(n).drop_last() =~= ns);
}

} // verus!
verus! {

/// The position of the first font whose label is `font`, else 0.
pub open spec fn font_pos(labels: Seq<Seq<char>>, font: Seq<char>, k: int) -> int
    decreases labels.len() - k,
{
    if k >= labels.len() {
        0
    } else if labels[k] == font {
        k
    } else {
        font_pos(labels, font, k + 1)
    }
}

/// The position among the font labels of the font in use, or 0 when it is
/// not offered.
pub fn font_idx(labels: &Vec<String>, font: &str) -> (r: usize)
    ensures
        r == font_pos(labels@.map_values(|s: String| s@), font@, 0),
{
    let ghost lv = labels@.map_values(|s: String| s@);
    let fv = chars_of(font);
    let mut k: usize = 0;
    while k < labels.len()
        invariant
            k <= labels@.len(),
            lv == labels@.map_values(|s: String| s@),
            fv@ == font@,
            font_pos(lv, font@, k as int) == font_pos(lv, font@, 0),
        decreases labels@.len() - k,
    {
        let l = chars_of(labels[k].as_str());
        if same_chars(&l, &fv) {
            return k;
        }
        k = k + 1;
    }
    0
}

/// The number of words (maximal runs of non-whitespace) in `t[..i]`.
pub open spec fn word_count(t: Seq<char>, i: int) -> nat
    decreases i,
{
    if i <= 0 {
        0
    } else {
        word_count(t, i - 1) + if !is_ws(t[i - 1]) && (i == 1 || is_ws(t[i - 2])) {
            1nat
        } else {
            0nat
        }
    }
}

/// The word and character counts shown in the status bar.
pub fn text_stats(s: &str) -> (r: (usize, usize))
    ensures
        r.0 == word_count(s@, s@.len() as int),
        r.1 == s@.len(),
{
    let v = chars_of(s);
    let mut words: usize = 0;
    let mut i: usize = 0;
    while i < v.len()
        invariant
            i <= v.len(),
            v@ == s@,
            words == word_count(s@, i as int),
            words <= i,
        decreases v.len() - i,
    {
        if !is_whitespace(v[i]) && (i == 0 || is_whitespace(v[i - 1])) {
            words = words + 1;
        }
        i = i + 1;
    }
    (words, v.len())
}

/// Whether `q` occurs in `t`.
pub open spec fn occurs(t: Seq<char>, q: Seq<char>) -> bool {
    exists|i: int| 0 <= i && i + q.len() <= t.len() && #[trigger] t.subrange(i, i + q.len()) == q
}

fn occurs_in(t: &Vec<char>, q: &Vec<char>) -> (r: bool)
    ensures
        r == occurs(t@, q@),
{
    if q.len() > t.len() {
        proof {
            assert forall|i: int| 0 <= i && i + q@.len() <= t@.len() implies #[trigger] t@.subrange(
                i,
                i + q@.len(),
            ) != q@ by {}
        }
        return false;
    }
    if q.len() == 0 {
        proof {
            assert(t@.subrange(0int, 0int + q@.len()) =~= q@);
        }
        return true;
    }
    let mut i: usize = 0;
    while i <= t.len() - q.len()
        invariant
            q.len() > 0,
            q.len() <= t.len(),
            i <= t.len() - q.len() + 1,
            forall|j: int| 0 <= j < i ==> #[trigger] t@.subrange(j, j + q@.len()) != q@,
        decreases t.len() - q.len() + 1 - i,
    {
        if crate::text::has_at_vec(t, i, q) {
            proof {
                assert(t@.subrange(i as int, i + q@.len()) == q@);
            }
            return true;
        }
        i = i + 1;
    }
    false
}

/// Whether a note shows in the sidebar for the search text `query_lower`
/// (already in lowercase): always when it is empty, else when the note's
/// lowercase content contains it.
pub open spec fn shows(content: Seq<char>, query_lower: Seq<char>) -> bool {
    query_lower.len() == 0 || occurs(lowercase(content), query_lower)
}

/// The positions `0..k` ordered newest first by `keys`, ties in position
/// order: each position goes after every earlier one that is at least as new.
pub open spec fn newest_order(keys: Seq<u128>, k: int) -> Seq<int>
    decreases k,
{
    if k <= 0 {
        seq![]
    } else {
        let prev = newest_order(keys, k - 1);
        prev.insert(first_older(keys, prev, keys[k - 1], 0), k - 1)
    }
}

/// The first place in `order` holding something older than `key`.
pub open spec fn first_older(keys: Seq<u128>, order: Seq<int>, key: u128, p: int) -> int
    decreases order.len() - p,
{
    if p >= order.len() {
        order.len() as int
    } else if keys[order[p]] < key {
        p
    } else {
        first_older(keys, order, key, p + 1)
    }
}

pub open spec fn keys_of(ns: Seq<Note>) -> Seq<u128> {
    ns.map_values(|n: Note| n.modified)
}

/// The sidebar: positions of the notes, newest first, keeping those that match
/// the search text `query_lower`.
pub open spec fn sidebar_spec(ns: Seq<Note>, query_lower: Seq<char>) -> Seq<int> {
    newest_order(keys_of(ns), ns.len() as int).filter(|i: int| shows(ns[i].content@, query_lower))
}

pub proof fn lemma_newest_order_range(keys: Seq<u128>, k: int)
    requires
        0 <= k <= keys.len(),
    ensures
        newest_order(keys, k).len() == k,
        forall|j: int| 0 <= j < k ==> 0 <= #[trigger] newest_order(keys, k)[j] < k,
    decreases k,
{
    if k > 0 {
        lemma_newest_order_range(keys, k - 1);
        let prev = newest_order(keys, k - 1);
        let p = first_older(keys, prev, keys[k - 1], 0);
        lemma_first_older(keys, prev, keys[k - 1], 0);
        let r = prev.insert(p, k - 1);
        assert forall|j: int| 0 <= j < k implies 0 <= #[trigger] r[j] < k by {
            if j < p {
                assert(r[j] == prev[j]);
            } else if j > p {
                assert(r[j] == prev[j - 1]);
            }
        }
    }
}

proof fn lemma_first_older(keys: Seq<u128>, order: Seq<int>, key: u128, p: int)
    requires
        0 <= p <= order.len(),
    ensures
        p <= first_older(keys, order, key, p) <= order.len(),
    decreases order.len() - p,
{
    if p < order.len() && !(keys[order[p]] < key) {
        lemma_first_older(keys, order, key, p + 1);
    }
}

impl NoteBook {
    /// The sidebar's notes (positions in the list), newest first, filtered
    /// by the search text (see [`sidebar_spec`]).
    pub fn sidebar_order(&self, query: &str) -> (r: Vec<usize>)
        ensures
            r@.map_values(|i: usize| i as int) == sidebar_spec(self.notes@, lowercase(query@)),
    {
        let ghost keys = keys_of(self.notes@);
        let n = self.notes.len();
        // Stable insertion of each position after the ones at least as new.
        let mut order: Vec<usize> = Vec::new();
        let mut k: usize = 0;
        while k < n
            invariant
                k <= n,
                n == self.notes@.len(),
                keys == keys_of(self.notes@),
                order@.map_values(|i: usize| i as int) == newest_order(keys, k as int),
            decreases n - k,
        {
            let ghost prev = newest_order(keys, k as int);
            proof {
                lemma_newest_order_range(keys, k as int);
            }
            let key = self.notes[k].modified;
            let mut p: usize = 0;
            proof {
                lemma_first_older(keys, prev, keys[k as int], 0);
            }
            while p < order.len() && !(self.notes[order[p]].modified < key)
                invariant
                    p <= order@.len(),
                    n == self.notes@.len(),
                    keys == keys_of(self.notes@),
                    k < n,
                    key == keys[k as int],
                    prev == newest_order(keys, k as int),
                    prev.len() == k,
                    forall|j: int| 0 <= j < k ==> 0 <= #[trigger] prev[j] < k,
                    order@.map_values(|i: usize| i as int) == prev,
                    first_older(keys, prev, key, p as int) == first_older(keys, prev, key, 0),
                decreases order@.len() - p,
            {
                proof {
                    assert(prev[p as int] == order@[p as int] as int);
                }
                p = p + 1;
            }
            proof {
                if p < order@.len() {
                    assert(prev[p as int] == order@[p as int] as int);
                }
                assert(first_older(keys, prev, key, 0) == p);
            }
            order.insert(p, k);
            proof {
                assert(order@.map_values(|i: usize| i as int) =~= prev.insert(p as int, k as int));
            }
            k = k + 1;
        }
        proof {
            lemma_newest_order_range(keys, n as int);
        }
        // Keep the matches.
        let low = to_lowercase(query);
        let qv = chars_of(low.as_str());
        let ghost all = newest_order(keys, n as int);
        let mut out: Vec<usize> = Vec::new();
        let mut j: usize = 0;
        proof {
            assert(all.take(0).filter(|i: int| shows(self.notes@[i].content@, lowercase(query@)))
                =~= Seq::<int>::empty());
        }
        while j < order.len()
            invariant
                j <= order@.len(),
                n == self.notes@.len(),
                order@.map_values(|i: usize| i as int) == all,
                all.len() == n,
                forall|q: int| 0 <= q < n ==> 0 <= #[trigger] all[q] < n,
                qv@ == lowercase(query@),
                out@.map_values(|i: usize| i as int) == all.take(j as int).filter(
                    |i: int| shows(self.notes@[i].content@, lowercase(query@)),
                ),
            decreases order@.len() - j,
        {
            let i = order[j];
            proof {
                assert(all[j as int] == i as int);
            }
            let keep = if qv.len() == 0 {
                true
            } else {
                let lc = to_lowercase(self.notes[i].content.as_str());
                let cv = chars_of(lc.as_str());
                occurs_in(&cv, &qv)
            };
            proof {
                let f = |x: int| shows(self.notes@[x].content@, lowercase(query@));
                assert(keep == f(i as int));
                assert(all.take(j + 1) =~= all.take(j as int).push(i as int));
                reveal_with_fuel(Seq::filter, 1);
                assert(all.take(j + 1).filter(f) == all.take(j as int).filter(f) + if f(i as int) {
                    seq![i as int]
                } else {
                    Seq::<int>::empty()
                }) by {
                    assert(all.take(j + 1).drop_last() =~= all.take(j as int));
                    assert(all.take(j + 1).last() == i as int);
                }
            }
            let ghost before = out@;
            if keep {
                out.push(i);
                proof {
                    assert(out@.map_values(|i: usize| i as int) =~= before.map_values(
                        |i: usize| i as int,
                    ).push(i as int));
                }
            } else {
                proof {
                    assert(before.map_values(|i: usize| i as int) + Seq::<int>::empty()
                        =~= before.map_values(|i: usize| i as int));
                }
            }
            j = j + 1;
        }
        proof {
            assert(all.take(j as int) =~= all);
        }
        out
    }
}

/// The keys held while Ctrl (or Cmd) is down in one frame.
#[derive(Clone, Copy, Debug)]
pub struct KeyState {
    pub ctrl: bool,
    pub shift: bool,
    pub n: bool,
    pub s: bool,
    pub f: bool,
    pub d: bool,
    pub b: bool,
    pub i: bool,
    pub u: bool,
    /// `+` or `=`.
    pub plus: bool,
    pub minus: bool,
}

/// An action the window takes once a frame has been drawn.
#[derive(Clone, Copy, PartialEq, Eq, Structural, Debug)]
pub enum Action {
    New,
    Select(u64),
    RequestDelete(u64),
    Delete(u64),
    RevealFolder,
    SaveAs,
    CheckUpdates,
    InstallUpdate,
}

/// What the keyboard shortcuts of one frame ask for, in the order they apply:
/// save all changed notes, focus the search box, make the text one point
/// bigger, then one point smaller; plus an action and a format to apply.
#[derive(Clone, Copy, Debug)]
pub struct Shortcuts {
    pub action: Option<Action>,
    pub save_all: bool,
    pub focus_search: bool,
    pub format: Option<Fmt>,
    pub bigger: bool,
    pub smaller: bool,
}

/// The effect of the shortcuts pressed in a frame with note `current`
/// selected. Nothing happens without Ctrl. When several apply, the later one
/// in the order N, S, D wins the action and the later one in B, I, U the
/// format.
pub open spec fn shortcut_spec(k: KeyState, current: u64) -> Shortcuts {
    if !k.ctrl {
        Shortcuts {
            action: None,
            save_all: false,
            focus_search: false,
            format: None,
            bigger: false,
            smaller: false,
        }
    } else {
        Shortcuts {
            action: if k.d {
                Some(Action::RequestDelete(current))
            } else if k.s && k.shift {
                Some(Action::SaveAs)
            } else if k.n {
                Some(Action::New)
            } else {
                None
            },
            save_all: k.s && !k.shift,
            focus_search: k.f,
            format: if k.u {
                Some(Fmt::Underline)
            } else if k.i {
                Some(Fmt::Italic)
            } else if k.b {
                Some(Fmt::Bold)
            } else {
                None
            },
            bigger: k.plus,
            smaller: k.minus,
        }
    }
}

/// The shortcuts pressed in a frame (see [`shortcut_spec`]).
pub fn shortcuts(keys: KeyState, current: u64) -> (r: Shortcuts)
    ensures
        r == shortcut_spec(keys, current),
{
    let mut r = Shortcuts {
        action: None,
        save_all: false,
        focus_search: false,
        format: None,
        bigger: false,
        smaller: false,
    };
    if !keys.ctrl {
        return r;
    }
    if keys.n {
        r.action = Some(Action::New);
    }
    if keys.s {
        if keys.shift {
            r.action = Some(Action::SaveAs);
        } else {
            r.save_all = true;
        }
    }
    if keys.f {
        r.focus_search = true;
    }
    if keys.d {
        r.action = Some(Action::RequestDelete(current));
    }
    if keys.b {
        r.format = Some(Fmt::Bold);
    }
    if keys.i {
        r.format = Some(Fmt::Italic);
    }
    if keys.u {
        r.format = Some(Fmt::Underline);
    }
    if keys.plus {
        r.bigger = true;
    }
    if keys.minus {
        r.smaller = true;
    }
    r
}

/// The shortcut keys, each on its own terms: nothing happens without Ctrl;
/// with Ctrl, B makes bold, I italic and U underline (U over I over B when
/// several are pressed), S saves every changed note (Shift+S opens "save as"),
/// D asks to delete the current note (over Shift+S, over N), N makes a new
/// note, F focuses the search box, and `+` and `-` change the text size.
pub proof fn lemma_shortcut_keys(k: KeyState, current: u64)
    ensures
        ({
            let r = shortcut_spec(k, current);
            &&& !k.ctrl ==> r.action is None && !r.save_all && !r.focus_search && r.format is None
                && !r.bigger && !r.smaller
            &&& k.ctrl && k.b && !k.i && !k.u ==> r.format == Some(Fmt::Bold)
            &&& k.ctrl && k.i && !k.u ==> r.format == Some(Fmt::Italic)
            &&& k.ctrl && k.u ==> r.format == Some(Fmt::Underline)
            &&& k.ctrl && !k.b && !k.i && !k.u ==> r.format is None
            &&& k.ctrl && k.d ==> r.action == Some(Action::RequestDelete(current))
            &&& k.ctrl && !k.d && k.s && k.shift ==> r.action == Some(Action::SaveAs)
            &&& k.ctrl && !k.d && !(k.s && k.shift) && k.n ==> r.action == Some(Action::New)
            &&& k.ctrl && !k.d && !(k.s && k.shift) && !k.n ==> r.action is None
            &&& r.save_all == (k.ctrl && k.s && !k.shift)
            &&& r.focus_search == (k.ctrl && k.f)
            &&& r.bigger == (k.ctrl && k.plus)
            &&& r.smaller == (k.ctrl && k.minus)
        }),
{
}

/// The number of words of `t`.
pub open spec fn words_of(t: Seq<char>) -> nat {
    word_count(t, t.len() as int)
}

proof fn lemma_word_count_prefix(x: Seq<char>, y: Seq<char>, i: int)
    requires
        0 <= i <= x.len(),
        i <= y.len(),
        forall|k: int| 0 <= k < i ==> x[k] == y[k],
    ensures
        word_count(x, i) == word_count(y, i),
    decreases i,
{
    if i > 0 {
        lemma_word_count_prefix(x, y, i - 1);
    }
}

proof fn lemma_word_count_join(a: Seq<char>, w: char, b: Seq<char>, j: int)
    requires
        is_ws(w),
        0 <= j <= b.len(),
    ensures
        word_count(a + seq![w] + b, a.len() + 1 + j) == words_of(a) + word_count(b, j),
    decreases j,
{
    let x = a + seq![w] + b;
    let n = a.len() as int;
    if j == 0 {
        lemma_word_count_prefix(x, a, n);
        assert(x[n] == w);
    } else {
        lemma_word_count_join(a, w, b, j - 1);
        assert(x[n + 1 + j - 1] == b[j - 1]);
        if j >= 2 {
            assert(x[n + 1 + j - 2] == b[j - 2]);
        } else {
            assert(x[n] == w);
        }
    }
}

/// Word counting: a text without characters has no words, one character is
/// one word unless it is whitespace, and any whitespace character (space, tab,
/// line break or other Unicode whitespace) between two texts separates their
/// words, so the counts add up.
pub proof fn lemma_words_split(a: Seq<char>, w: char, b: Seq<char>, c: char)
    requires
        is_ws(w),
    ensures
        words_of(Seq::<char>::empty()) == 0,
        words_of(seq![c]) == if is_ws(c) {
            0nat
        } else {
            1nat
        },
        words_of(a + seq![w] + b) == words_of(a) + words_of(b),
        is_ws(' ') && is_ws('\n') && is_ws('\t') && is_ws('\r'),
{
    lemma_word_count_join(a, w, b, b.len() as int);
    assert((a + seq![w] + b).len() == a.len() + 1 + b.len());
    let one = seq![c];
    assert(word_count(one, 0) == 0);
    assert(one[0] == c);
    assert(word_count(one, 1) == word_count(one, 0) + if !is_ws(one[0]) {
        1nat
    } else {
        0nat
    });
}

/// Search finds a query anywhere in a note: a non-empty lowercased query
/// shows a note exactly when the note's lowercased text is some text, the
/// query, then some text.
pub proof fn lemma_search_anywhere(content: Seq<char>, q: Seq<char>)
    requires
        q.len() > 0,
    ensures
        shows(content, q) <==> exists|a: Seq<char>, b: Seq<char>| lowercase(content) == a + q + b,
        forall|a: Seq<char>, b: Seq<char>| lowercase(content) == a + q + b ==> shows(content, q),
{
    let t = lowercase(content);
    assert forall|a: Seq<char>, b: Seq<char>| t == a + q + b implies shows(content, q) by {
        assert(t.subrange(a.len() as int, a.len() + q.len() as int) =~= q);
    }
    if shows(content, q) {
        let i = choose|i: int| 0 <= i && i + q.len() <= t.len() && #[trigger] t.subrange(i, i + q.len()) == q;
        assert(t == t.take(i) + q + t.skip(i + q.len()));
    }
}

} // verus!
verus! {

proof fn lemma_first_older_facts(keys: Seq<u128>, order: Seq<int>, key: u128, p: int)
    requires
        0 <= p <= order.len(),
        forall|i: int, j: int|
            0 <= i < j < order.len() ==> keys[#[trigger] order[i]] >= keys[#[trigger] order[j]],
        forall|i: int| 0 <= i < p ==> keys[#[trigger] order[i]] >= key,
    ensures
        forall|i: int| 0 <= i < first_older(keys, order, key, p) ==> keys[#[trigger] order[i]] >= key,
        forall|i: int|
            first_older(keys, order, key, p) <= i < order.len() ==> keys[#[trigger] order[i]] < key,
    decreases order.len() - p,
{
    if p < order.len() && !(keys[order[p]] < key) {
        lemma_first_older_facts(keys, order, key, p + 1);
    } else if p < order.len() {
        assert forall|i: int| p <= i < order.len() implies keys[#[trigger] order[i]] < key by {
            if i > p {
                assert(keys[order[p]] >= keys[order[i]]);
            }
        }
    }
}

/// The sidebar lists the notes newest first.
pub proof fn lemma_newest_order_sorted(keys: Seq<u128>, k: int)
    requires
        0 <= k <= keys.len(),
    ensures
        forall|i: int, j: int|
            0 <= i < j < newest_order(keys, k).len() ==> keys[#[trigger] newest_order(keys, k)[i]]
                >= keys[#[trigger] newest_order(keys, k)[j]],
    decreases k,
{
    if k > 0 {
        lemma_newest_order_sorted(keys, k - 1);
        lemma_newest_order_range(keys, k - 1);
        let prev = newest_order(keys, k - 1);
        let key = keys[k - 1];
        let p = first_older(keys, prev, key, 0);
        lemma_first_older(keys, prev, key, 0);
        lemma_first_older_facts(keys, prev, key, 0);
        let r = prev.insert(p, k - 1);
        assert forall|i: int, j: int| 0 <= i < j < r.len() implies keys[#[trigger] r[i]] >= keys[#[trigger] r[j]] by {
            if j < p {
                assert(r[i] == prev[i] && r[j] == prev[j]);
            } else if j == p {
                assert(r[i] == prev[i]);
            } else if i < p {
                assert(r[i] == prev[i] && r[j] == prev[j - 1]);
            } else if i == p {
                assert(r[j] == prev[j - 1]);
            } else {
                assert(r[i] == prev[i - 1] && r[j] == prev[j - 1]);
            }
        }
    }
}

} // verus!
