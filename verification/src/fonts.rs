//! The editor fonts on offer: which system font files are tried, the font
//! family names they are registered under, and the choices shown in the
//! font picker.

use vstd::prelude::*;
use crate::text::{chars_of, push_range};

verus! {

/// A font family: one registered under a name, or one of the built-in ones.
#[derive(Debug)]
pub enum Family {
    Named(String),
    Proportional,
    Monospace,
}

pub enum FamilyView {
    Named(Seq<char>),
    Proportional,
    Monospace,
}

pub open spec fn family_view(f: Family) -> FamilyView {
    match f {
        Family::Named(s) => FamilyView::Named(s@),
        Family::Proportional => FamilyView::Proportional,
        Family::Monospace => FamilyView::Monospace,
    }
}

/// A font the user can pick for the editor.
pub struct FontChoice {
    pub label: String,
    pub group: String,
    pub regular: Family,
    pub bold: Family,
}

/// A system font tried at start-up: display name, group, regular and bold files.
pub struct Candidate {
    pub label: String,
    pub group: String,
    pub regular_file: String,
    pub bold_file: String,
}

fn s(v: Vec<char>) -> (r: String)
    ensures
        r@ == v@,
{
    let mut out = String::new();
    let mut k: usize = 0;
    while k < v.len()
        invariant
            k <= v.len(),
            out@ == v@.take(k as int),
        decreases v.len() - k,
    {
        crate::text::push_char(&mut out, v[k]);
        proof {
            assert(v@.take(k + 1) =~= v@.take(k as int).push(v@[k as int]));
        }
        k = k + 1;
    }
    proof {
        assert(v@.take(k as int) =~= v@);
    }
    out
}

/// A tried system font as its label, group, regular file and bold file.
pub open spec fn candidate_view(c: Candidate) -> (Seq<char>, Seq<char>, Seq<char>, Seq<char>) {
    (c.label@, c.group@, c.regular_file@, c.bold_file@)
}

/// The system fonts tried, in order: label, group, regular file, bold file.
pub open spec fn candidate_table() -> Seq<(Seq<char>, Seq<char>, Seq<char>, Seq<char>)> {
    let modern = seq!['M', 'o', 'd', 'e', 'r', 'n'];
    let classic = seq!['C', 'l', 'a', 's', 's', 'i', 'c'];
    seq![
        (
            seq!['S', 'e', 'g', 'o', 'e', ' ', 'U', 'I'],
            modern,
            seq!['s', 'e', 'g', 'o', 'e', 'u', 'i', '.', 't', 't', 'f'],
            seq!['s', 'e', 'g', 'o', 'e', 'u', 'i', 'b', '.', 't', 't', 'f'],
        ),
        (
            seq!['A', 'r', 'i', 'a', 'l'],
            modern,
            seq!['a', 'r', 'i', 'a', 'l', '.', 't', 't', 'f'],
            seq!['a', 'r', 'i', 'a', 'l', 'b', 'd', '.', 't', 't', 'f'],
        ),
        (
            seq!['G', 'e', 'o', 'r', 'g', 'i', 'a'],
            classic,
            seq!['g', 'e', 'o', 'r', 'g', 'i', 'a', '.', 't', 't', 'f'],
            seq!['g', 'e', 'o', 'r', 'g', 'i', 'a', 'b', '.', 't', 't', 'f'],
        ),
        (
            seq!['C', 'o', 'n', 's', 'o', 'l', 'a', 's'],
            classic,
            seq!['c', 'o', 'n', 's', 'o', 'l', 'a', '.', 't', 't', 'f'],
            seq!['c', 'o', 'n', 's', 'o', 'l', 'a', 'b', '.', 't', 't', 'f'],
        ),
    ]
}

/// The Windows fonts tried (see [`candidate_table`]): Segoe UI and Arial
/// (Modern), Georgia and Consolas (Classic), each with its regular and bold
/// file.
pub fn candidates() -> (r: Vec<Candidate>)
    ensures
        r@.map_values(|c: Candidate| candidate_view(c)) == candidate_table(),
{
    let v = vec![
        Candidate {
            label: s(vec!['S', 'e', 'g', 'o', 'e', ' ', 'U', 'I']),
            group: s(vec!['M', 'o', 'd', 'e', 'r', 'n']),
            regular_file: s(vec!['s', 'e', 'g', 'o', 'e', 'u', 'i', '.', 't', 't', 'f']),
            bold_file: s(vec!['s', 'e', 'g', 'o', 'e', 'u', 'i', 'b', '.', 't', 't', 'f']),
        },
        Candidate {
            label: s(vec!['A', 'r', 'i', 'a', 'l']),
            group: s(vec!['M', 'o', 'd', 'e', 'r', 'n']),
            regular_file: s(vec!['a', 'r', 'i', 'a', 'l', '.', 't', 't', 'f']),
            bold_file: s(vec!['a', 'r', 'i', 'a', 'l', 'b', 'd', '.', 't', 't', 'f']),
        },
        Candidate {
            label: s(vec!['G', 'e', 'o', 'r', 'g', 'i', 'a']),
            group: s(vec!['C', 'l', 'a', 's', 's', 'i', 'c']),
            regular_file: s(vec!['g', 'e', 'o', 'r', 'g', 'i', 'a', '.', 't', 't', 'f']),
            bold_file: s(vec!['g', 'e', 'o', 'r', 'g', 'i', 'a', 'b', '.', 't', 't', 'f']),
        },
        Candidate {
            label: s(vec!['C', 'o', 'n', 's', 'o', 'l', 'a', 's']),
            group: s(vec!['C', 'l', 'a', 's', 's', 'i', 'c']),
            regular_file: s(vec!['c', 'o', 'n', 's', 'o', 'l', 'a', '.', 't', 't', 'f']),
            bold_file: s(vec!['c', 'o', 'n', 's', 'o', 'l', 'a', 'b', '.', 't', 't', 'f']),
        },
    ];
    proof {
        let t = candidate_table();
        assert(candidate_view(v@[0]) == t[0]);
        assert(candidate_view(v@[1]) == t[1]);
        assert(candidate_view(v@[2]) == t[2]);
        assert(candidate_view(v@[3]) == t[3]);
        assert(v@.map_values(|c: Candidate| candidate_view(c)) =~= t);
    }
    v
}

pub open spec fn ubuntu_light() -> Seq<char> {
    seq!['U', 'b', 'u', 'n', 't', 'u', '-', 'L', 'i', 'g', 'h', 't']
}

pub open spec fn noto_emoji() -> Seq<char> {
    seq!['N', 'o', 't', 'o', 'E', 'm', 'o', 'j', 'i', '-', 'R', 'e', 'g', 'u', 'l', 'a', 'r']
}

/// The fonts a family falls back on for missing glyphs: itself, then the
/// bundled proportional and emoji fonts.
pub fn fallback(key: &str) -> (r: Vec<String>)
    ensures
        r@.map_values(|x: String| x@) == seq![key@, ubuntu_light(), noto_emoji()],
{
    let kv = chars_of(key);
    let r = vec![
        s(kv),
        s(vec!['U', 'b', 'u', 'n', 't', 'u', '-', 'L', 'i', 'g', 'h', 't']),
        s(vec!['N', 'o', 't', 'o', 'E', 'm', 'o', 'j', 'i', '-', 'R', 'e', 'g', 'u', 'l', 'a', 'r']),
    ];
    proof {
        assert(r@[1]@ =~= ubuntu_light());
        assert(r@[2]@ =~= noto_emoji());
        assert(r@.map_values(|x: String| x@) =~= seq![key@, ubuntu_light(), noto_emoji()]);
    }
    r
}

/// The family name a font file is registered under: `<label>-reg` or `<label>-bold`.
pub open spec fn font_key(label: Seq<char>, bold: bool) -> Seq<char> {
    label + if bold {
        seq!['-', 'b', 'o', 'l', 'd']
    } else {
        seq!['-', 'r', 'e', 'g']
    }
}

/// The family name for a font file.
pub fn key_for(label: &str, bold: bool) -> (r: String)
    ensures
        r@ == font_key(label@, bold),
{
    let mut v = chars_of(label);
    let suffix = if bold {
        vec!['-', 'b', 'o', 'l', 'd']
    } else {
        vec!['-', 'r', 'e', 'g']
    };
    push_range(&mut v, &suffix, 0, suffix.len());
    proof {
        assert(v@ =~= font_key(label@, bold));
    }
    s(v)
}

pub open spec fn choice_view(c: FontChoice) -> (Seq<char>, Seq<char>, FamilyView, FamilyView) {
    (c.label@, c.group@, family_view(c.regular), family_view(c.bold))
}

/// The picker's choices given, for each candidate in order, whether its
/// regular and its bold file could be read: each candidate whose regular file
/// was read, with its bold family when that file was read too and its regular
/// family otherwise. When none was read, `Sans` (proportional) and `Mono`
/// (monospace) take their place.
pub open spec fn choices_spec(
    cands: Seq<(Seq<char>, Seq<char>)>,
    found: Seq<(bool, bool)>,
) -> Seq<(Seq<char>, Seq<char>, FamilyView, FamilyView)> {
    let picked = picked_from(cands, found, 0);
    if picked.len() == 0 {
        seq![
            (seq!['S', 'a', 'n', 's'], seq!['M', 'o', 'd', 'e', 'r', 'n'], FamilyView::Proportional,
            FamilyView::Proportional),
            (seq!['M', 'o', 'n', 'o'], seq!['C', 'l', 'a', 's', 's', 'i', 'c'], FamilyView::Monospace,
            FamilyView::Monospace),
        ]
    } else {
        picked
    }
}

pub open spec fn picked_from(
    cands: Seq<(Seq<char>, Seq<char>)>,
    found: Seq<(bool, bool)>,
    k: int,
) -> Seq<(Seq<char>, Seq<char>, FamilyView, FamilyView)>
    decreases cands.len() - k,
{
    if k < 0 || k >= cands.len() || k >= found.len() {
        seq![]
    } else if found[k].0 {
        let (label, group) = cands[k];
        let regular = FamilyView::Named(font_key(label, false));
        let bold = if found[k].1 {
            FamilyView::Named(font_key(label, true))
        } else {
            regular
        };
        seq![(label, group, regular, bold)] + picked_from(cands, found, k + 1)
    } else {
        picked_from(cands, found, k + 1)
    }
}

/// The label and group of a tried font: all that the picker reads of it.
pub open spec fn label_and_group(c: Candidate) -> (Seq<char>, Seq<char>) {
    (c.label@, c.group@)
}

fn copy(x: &String) -> (r: String)
    ensures
        r@ == x@,
{
    s(chars_of(x.as_str()))
}

/// The picker's choices (see [`choices_spec`]).
pub fn font_choices(cands: &Vec<Candidate>, found: &Vec<(bool, bool)>) -> (r: Vec<FontChoice>)
    requires
        found@.len() == cands@.len(),
    ensures
        r@.map_values(|c: FontChoice| choice_view(c)) == choices_spec(
            cands@.map_values(|c: Candidate| label_and_group(c)),
            found@,
        ),
{
    let ghost cv = cands@.map_values(|c: Candidate| label_and_group(c));
    let mut out: Vec<FontChoice> = Vec::new();
    let mut k: usize = 0;
    proof {
        assert(Seq::<(Seq<char>, Seq<char>, FamilyView, FamilyView)>::empty() + picked_from(cv, found@, 0)
            =~= picked_from(cv, found@, 0));
    }
    while k < cands.len()
        invariant
            k <= cands@.len(),
            found@.len() == cands@.len(),
            cv == cands@.map_values(|c: Candidate| label_and_group(c)),
            out@.map_values(|c: FontChoice| choice_view(c)) + picked_from(cv, found@, k as int)
                == picked_from(cv, found@, 0),
        decreases cands@.len() - k,
    {
        let ghost before = out@.map_values(|c: FontChoice| choice_view(c));
        proof {
            assert(cv[k as int] == label_and_group(cands@[k as int]));
        }
        if found[k].0 {
            let c = &cands[k];
            let regular = Family::Named(key_for(c.label.as_str(), false));
            let bold = if found[k].1 {
                Family::Named(key_for(c.label.as_str(), true))
            } else {
                Family::Named(key_for(c.label.as_str(), false))
            };
            let choice = FontChoice { label: copy(&c.label), group: copy(&c.group), regular, bold };
            let ghost ch = choice_view(choice);
            out.push(choice);
            proof {
                assert(out@.map_values(|c: FontChoice| choice_view(c)) =~= before.push(ch));
                assert(before.push(ch) + picked_from(cv, found@, k + 1) =~= before + (seq![ch]
                    + picked_from(cv, found@, k + 1)));
            }
        }
        k = k + 1;
    }
    proof {
        assert(picked_from(cv, found@, k as int) =~= Seq::<
            (Seq<char>, Seq<char>, FamilyView, FamilyView),
        >::empty());
        assert(out@.map_values(|c: FontChoice| choice_view(c)) + Seq::<
            (Seq<char>, Seq<char>, FamilyView, FamilyView),
        >::empty() =~= out@.map_values(|c: FontChoice| choice_view(c)));
    }
    if out.len() == 0 {
        let sans = FontChoice {
            label: s(vec!['S', 'a', 'n', 's']),
            group: s(vec!['M', 'o', 'd', 'e', 'r', 'n']),
            regular: Family::Proportional,
            bold: Family::Proportional,
        };
        let mono = FontChoice {
            label: s(vec!['M', 'o', 'n', 'o']),
            group: s(vec!['C', 'l', 'a', 's', 's', 'i', 'c']),
            regular: Family::Monospace,
            bold: Family::Monospace,
        };
        out.push(sans);
        out.push(mono);
        proof {
            assert(out@.map_values(|c: FontChoice| choice_view(c)) =~= choices_spec(cv, found@));
        }
    }
    out
}

} // verus!
