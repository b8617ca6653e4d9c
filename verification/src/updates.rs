//! The record of the last update check, how it is stored in its preferences
//! file, and how a release description fetched from GitHub updates it.

use vstd::prelude::*;
use crate::settings::{find_eq, opt_setting, pairs_view, parse_settings, setting_of, settings, settings_scan};
use crate::text::{chars_of, push_range, same_chars, string_of, trim};

verus! {

/// What is known about available updates.
pub struct UpdateInfo {
    pub available: bool,
    pub current_version: String,
    pub latest_version: String,
    pub download_url: String,
    pub checking: bool,
    /// When the last check started, in seconds since the Unix epoch.
    pub last_check: Option<u64>,
}

pub struct UpdateView {
    pub available: bool,
    pub current_version: Seq<char>,
    pub latest_version: Seq<char>,
    pub download_url: Seq<char>,
    pub checking: bool,
    pub last_check: Option<u64>,
}

impl View for UpdateInfo {
    type V = UpdateView;

    open spec fn view(&self) -> UpdateView {
        UpdateView {
            available: self.available,
            current_version: self.current_version@,
            latest_version: self.latest_version@,
            download_url: self.download_url@,
            checking: self.checking,
            last_check: self.last_check,
        }
    }
}

/// The record before anything is known: the latest version is the running one.
pub open spec fn fresh_update(current: Seq<char>) -> UpdateView {
    UpdateView {
        available: false,
        current_version: current,
        latest_version: current,
        download_url: seq![],
        checking: false,
        last_check: None,
    }
}

pub open spec fn key_latest() -> Seq<char> {
    seq!['l', 'a', 't', 'e', 's', 't', '_', 'v', 'e', 'r', 's', 'i', 'o', 'n']
}

pub open spec fn key_url() -> Seq<char> {
    seq!['d', 'o', 'w', 'n', 'l', 'o', 'a', 'd', '_', 'u', 'r', 'l']
}

pub open spec fn key_available() -> Seq<char> {
    seq!['a', 'v', 'a', 'i', 'l', 'a', 'b', 'l', 'e']
}

pub open spec fn word_true() -> Seq<char> {
    seq!['t', 'r', 'u', 'e']
}

pub open spec fn word_false() -> Seq<char> {
    seq!['f', 'a', 'l', 's', 'e']
}

/// One stored setting applied to the record; unknown keys are ignored.
pub open spec fn with_setting(v: UpdateView, k: Seq<char>, val: Seq<char>) -> UpdateView {
    if k == key_latest() {
        UpdateView { latest_version: val, ..v }
    } else if k == key_url() {
        UpdateView { download_url: val, ..v }
    } else if k == key_available() {
        UpdateView { available: val == word_true(), ..v }
    } else {
        v
    }
}

/// The settings applied in order, later ones overriding earlier ones.
pub open spec fn with_settings(v: UpdateView, s: Seq<(Seq<char>, Seq<char>)>) -> UpdateView
    decreases s.len(),
{
    if s.len() == 0 {
        v
    } else {
        with_settings(with_setting(v, s[0].0, s[0].1), s.drop_first())
    }
}

/// The record read back from the text of its file.
pub open spec fn loaded_update(text: Seq<char>, current: Seq<char>) -> UpdateView {
    with_settings(fresh_update(current), settings(text))
}

/// The text that stores a record.
pub open spec fn update_text(v: UpdateView) -> Seq<char> {
    key_latest() + seq!['='] + v.latest_version + seq!['\n'] + key_url() + seq!['='] + v.download_url
        + seq!['\n'] + key_available() + seq!['='] + (if v.available {
        word_true()
    } else {
        word_false()
    }) + seq!['\n']
}

fn vec_string(v: &Vec<char>) -> (r: String)
    ensures
        r@ == v@,
{
    let r = string_of(v, 0, v.len());
    proof {
        assert(v@.subrange(0, v@.len() as int) =~= v@);
    }
    r
}

fn copy_string(s: &String) -> (r: String)
    ensures
        r@ == s@,
{
    let v = chars_of(s.as_str());
    vec_string(&v)
}

impl UpdateInfo {
    /// The record before anything is known, for the running version `current_version`.
    pub fn new(current_version: &str) -> (r: UpdateInfo)
        ensures
            r@ == fresh_update(current_version@),
    {
        let cv = chars_of(current_version);
        UpdateInfo {
            available: false,
            current_version: vec_string(&cv),
            latest_version: vec_string(&cv),
            download_url: String::new(),
            checking: false,
            last_check: None,
        }
    }

    /// The record stored in `text` (the contents of the updates file), for the
    /// running version `current_version`.
    pub fn from_text(text: &str, current_version: &str) -> (r: UpdateInfo)
        ensures
            r@ == loaded_update(text@, current_version@),
    {
        let mut info = UpdateInfo::new(current_version);
        let s = parse_settings(text);
        let ghost sv = pairs_view(s@);
        let latest = vec!['l', 'a', 't', 'e', 's', 't', '_', 'v', 'e', 'r', 's', 'i', 'o', 'n'];
        let url = vec!['d', 'o', 'w', 'n', 'l', 'o', 'a', 'd', '_', 'u', 'r', 'l'];
        let avail = vec!['a', 'v', 'a', 'i', 'l', 'a', 'b', 'l', 'e'];
        let yes = vec!['t', 'r', 'u', 'e'];
        proof {
            assert(latest@ =~= key_latest());
            assert(url@ =~= key_url());
            assert(avail@ =~= key_available());
            assert(yes@ =~= word_true());
            assert(sv.skip(0) =~= sv);
        }
        let mut k: usize = 0;
        while k < s.len()
            invariant
                k <= s.len(),
                sv == pairs_view(s@),
                sv == settings(text@),
                latest@ == key_latest(),
                url@ == key_url(),
                avail@ == key_available(),
                yes@ == word_true(),
                with_settings(info@, sv.skip(k as int)) == loaded_update(text@, current_version@),
            decreases s.len() - k,
        {
            let key = chars_of(s[k].0.as_str());
            let val = chars_of(s[k].1.as_str());
            proof {
                assert(sv[k as int] == (s@[k as int].0@, s@[k as int].1@));
                assert(sv.skip(k as int)[0] == sv[k as int]);
                assert(sv.skip(k as int).drop_first() =~= sv.skip(k + 1));
            }
            if same_chars(&key, &latest) {
                info.latest_version = vec_string(&val);
            } else if same_chars(&key, &url) {
                info.download_url = vec_string(&val);
            } else if same_chars(&key, &avail) {
                info.available = same_chars(&val, &yes);
            }
            k = k + 1;
        }
        proof {
            assert(sv.skip(k as int) =~= Seq::<(Seq<char>, Seq<char>)>::empty());
        }
        info
    }

    /// The text that stores this record in the updates file.
    pub fn to_text(&self) -> (r: String)
        ensures
            r@ == update_text(self@),
    {
        let mut out: Vec<char> = vec![
            'l', 'a', 't', 'e', 's', 't', '_', 'v', 'e', 'r', 's', 'i', 'o', 'n', '=',
        ];
        let lv = chars_of(self.latest_version.as_str());
        push_range(&mut out, &lv, 0, lv.len());
        let mid: Vec<char> = vec!['\n', 'd', 'o', 'w', 'n', 'l', 'o', 'a', 'd', '_', 'u', 'r', 'l', '='];
        push_range(&mut out, &mid, 0, mid.len());
        let uv = chars_of(self.download_url.as_str());
        push_range(&mut out, &uv, 0, uv.len());
        let tail: Vec<char> = vec!['\n', 'a', 'v', 'a', 'i', 'l', 'a', 'b', 'l', 'e', '='];
        push_range(&mut out, &tail, 0, tail.len());
        let word: Vec<char> = if self.available {
            vec!['t', 'r', 'u', 'e', '\n']
        } else {
            vec!['f', 'a', 'l', 's', 'e', '\n']
        };
        push_range(&mut out, &word, 0, word.len());
        proof {
            assert(lv@.subrange(0, lv@.len() as int) =~= lv@);
            assert(uv@.subrange(0, uv@.len() as int) =~= uv@);
            assert(mid@.subrange(0, mid@.len() as int) =~= mid@);
            assert(tail@.subrange(0, tail@.len() as int) =~= tail@);
            assert(word@.subrange(0, word@.len() as int) =~= word@);
            assert(out@ =~= update_text(self@));
        }
        vec_string(&out)
    }
}

/// Names whether `latest` and `current` both parse as SemVer versions and
/// `latest` orders after `current`, as the `semver` crate's `Version::parse`
/// and `Version`'s ordering decide.
pub uninterp spec fn semver_newer(latest: Seq<char>, current: Seq<char>) -> bool;

/// `semver::Version::parse` on both texts, then `>` on the two versions; false
/// when either does not parse. The ordering is a total order (derived over
/// major, minor, patch, pre-release and build metadata), so a version is
/// never newer than itself.
#[verifier::external_body]
fn is_newer(latest: &str, current: &str) -> (r: bool)
    ensures
        r == semver_newer(latest@, current@),
        latest@ == current@ ==> !r,
{
    match (semver::Version::parse(latest), semver::Version::parse(current)) {
        (Ok(l), Ok(c)) => l > c,
        _ => false,
    }
}

/// One downloadable file of a release, as GitHub describes it.
pub struct ReleaseAsset {
    pub name: Option<String>,
    pub url: Option<String>,
}

/// A GitHub release description: its tag and its files.
pub struct Release {
    pub tag: Option<String>,
    pub assets: Vec<ReleaseAsset>,
}

pub open spec fn opt_chars(o: Option<String>) -> Option<Seq<char>> {
    match o {
        Some(s) => Some(s@),
        None => None,
    }
}

pub open spec fn asset_view(a: ReleaseAsset) -> (Option<Seq<char>>, Option<Seq<char>>) {
    (opt_chars(a.name), opt_chars(a.url))
}

pub open spec fn assets_view(v: Seq<ReleaseAsset>) -> Seq<(Option<Seq<char>>, Option<Seq<char>>)> {
    v.map_values(|a: ReleaseAsset| asset_view(a))
}

/// `t` without its leading `'v'` characters.
pub open spec fn strip_v(t: Seq<char>) -> Seq<char>
    decreases t.len(),
{
    if t.len() > 0 && t[0] == 'v' {
        strip_v(t.drop_first())
    } else {
        t
    }
}

/// Whether a file name ends in `.exe`.
pub open spec fn is_exe(n: Seq<char>) -> bool {
    n.len() >= 4 && n.skip(n.len() - 4) == seq!['.', 'e', 'x', 'e']
}

/// The download link of the first `.exe` file that has one.
pub open spec fn exe_url(a: Seq<(Option<Seq<char>>, Option<Seq<char>>)>) -> Option<Seq<char>>
    decreases a.len(),
{
    if a.len() == 0 {
        None
    } else if a[0].0 is Some && is_exe(a[0].0->0) && a[0].1 is Some {
        a[0].1
    } else {
        exe_url(a.drop_first())
    }
}

pub open spec fn parse_failure() -> Seq<char> {
    seq![
        'F', 'a', 'i', 'l', 'e', 'd', ' ', 't', 'o', ' ', 'p', 'a', 'r', 's', 'e', ' ', 'G',
        'i', 't', 'H', 'u', 'b', ' ', 'r', 'e', 's', 'p', 'o', 'n', 's', 'e',
    ]
}

/// The record after reading a release description (`None` when the reply could
/// not be read as one): the tag without leading `v`s becomes the latest
/// version; the first `.exe` file with a link gives the download link, and the
/// update becomes available when the latest version is newer than the running
/// one. A missing description or tag is an error.
pub open spec fn released(
    v: UpdateView,
    tag: Option<Option<Seq<char>>>,
    assets: Seq<(Option<Seq<char>>, Option<Seq<char>>)>,
) -> Result<UpdateView, Seq<char>> {
    match tag {
        None => Err(parse_failure()),
        Some(None) => Err(parse_failure()),
        Some(Some(t)) => {
            let latest = strip_v(t);
            let v1 = UpdateView { latest_version: latest, ..v };
            match exe_url(assets) {
                None => Ok(v1),
                Some(u) => Ok(
                    UpdateView {
                        download_url: u,
                        available: v1.available || semver_newer(latest, v1.current_version),
                        ..v1
                    },
                ),
            }
        },
    }
}

pub open spec fn release_tag(r: Option<Release>) -> Option<Option<Seq<char>>> {
    match r {
        Some(rel) => Some(opt_chars(rel.tag)),
        None => None,
    }
}

pub open spec fn release_assets(r: Option<Release>) -> Seq<(Option<Seq<char>>, Option<Seq<char>>)> {
    match r {
        Some(rel) => assets_view(rel.assets@),
        None => seq![],
    }
}

pub open spec fn result_view(r: Result<UpdateInfo, String>) -> Result<UpdateView, Seq<char>> {
    match r {
        Ok(i) => Ok(i@),
        Err(e) => Err(e@),
    }
}

fn failure() -> (r: String)
    ensures
        r@ == parse_failure(),
{
    let v = vec![
        'F', 'a', 'i', 'l', 'e', 'd', ' ', 't', 'o', ' ', 'p', 'a', 'r', 's', 'e', ' ', 'G',
        'i', 't', 'H', 'u', 'b', ' ', 'r', 'e', 's', 'p', 'o', 'n', 's', 'e',
    ];
    proof {
        assert(v@ =~= parse_failure());
    }
    vec_string(&v)
}

fn ends_with_exe(v: &Vec<char>) -> (r: bool)
    ensures
        r == is_exe(v@),
{
    let n = v.len();
    if n < 4 {
        return false;
    }
    let r = v[n - 4] == '.' && v[n - 3] == 'e' && v[n - 2] == 'x' && v[n - 1] == 'e';
    proof {
        let s = v@.skip(n - 4);
        if r {
            assert(s =~= seq!['.', 'e', 'x', 'e']);
        } else {
            assert(s[0] != '.' || s[1] != 'e' || s[2] != 'x' || s[3] != 'e');
            assert(s != seq!['.', 'e', 'x', 'e']);
        }
    }
    r
}

/// Applies a fetched release description to the record (see [`released`]).
#[verifier::loop_isolation(false)]
pub fn apply_release(info: UpdateInfo, release: Option<Release>) -> (r: Result<UpdateInfo, String>)
    ensures
        result_view(r) == released(info@, release_tag(release), release_assets(release)),
{
    let ghost v_in = info@;
    let ghost tag_in = release_tag(release);
    let ghost assets_in = release_assets(release);
    let rel = match release {
        Some(rel) => rel,
        None => {
            return Err(failure());
        },
    };
    let tag = match &rel.tag {
        Some(t) => t,
        None => {
            return Err(failure());
        },
    };
    let tv = chars_of(tag.as_str());
    let mut a: usize = 0;
    proof {
        assert(tv@.skip(0) =~= tv@);
    }
    while a < tv.len() && tv[a] == 'v'
        invariant
            a <= tv.len(),
            strip_v(tv@.skip(a as int)) == strip_v(tv@),
        decreases tv.len() - a,
    {
        proof {
            assert(tv@.skip(a as int).drop_first() =~= tv@.skip(a + 1));
        }
        a = a + 1;
    }
    proof {
        assert(tv@.skip(0) =~= tv@);
    }
    let latest = string_of(&tv, a, tv.len());
    proof {
        assert(tv@.subrange(a as int, tv@.len() as int) =~= tv@.skip(a as int));
        assert(strip_v(tv@.skip(a as int)) == tv@.skip(a as int));
    }
    let mut info = info;
    info.latest_version = copy_string(&latest);
    let ghost av = assets_view(rel.assets@);
    let ghost v1 = UpdateView { latest_version: strip_v(tv@), ..v_in };
    proof {
        assert(av.skip(0) =~= av);
        assert(tag_in == Some(Some(tv@)));
        assert(assets_in == av);
        assert(info@ == v1);
    }
    let mut k: usize = 0;
    while k < rel.assets.len()
        invariant
            k <= rel.assets.len(),
            av == assets_view(rel.assets@),
            exe_url(av.skip(k as int)) == exe_url(av),
            info@ == v1,
            v1 == (UpdateView { latest_version: strip_v(tv@), ..v_in }),
            latest@ == strip_v(tv@),
            released(v_in, tag_in, assets_in) == released(v_in, Some(Some(tv@)), av),
        decreases rel.assets.len() - k,
    {
        proof {
            assert(av.skip(k as int)[0] == asset_view(rel.assets@[k as int]));
            assert(av.skip(k as int).drop_first() =~= av.skip(k + 1));
        }
        match (&rel.assets[k].name, &rel.assets[k].url) {
            (Some(name), Some(url)) => {
                let nv = chars_of(name.as_str());
                if ends_with_exe(&nv) {
                    proof {
                        assert(av.skip(k as int)[0] == (Some(name@), Some(url@)));
                    }
                    info.download_url = copy_string(url);
                    let newer = is_newer(latest.as_str(), info.current_version.as_str());
                    if newer {
                        info.available = true;
                    }
                    proof {
                        assert(info@ == UpdateView {
                            download_url: url@,
                            available: v1.available || semver_newer(strip_v(tv@), v1.current_version),
                            ..v1
                        });
                    }
                    return Ok(info);
                }
            },
            _ => {},
        }
        k = k + 1;
    }
    proof {
        assert(av.skip(k as int) =~= Seq::<(Option<Seq<char>>, Option<Seq<char>>)>::empty());
    }
    Ok(info)
}

/// What a GitHub release reply holds, if it is JSON: its `tag_name` text (if
/// that field is a string) and, for each element of its `assets` array (none
/// when that field is not an array), the `name` and `browser_download_url`
/// texts (if those fields are strings), as `serde_json` reads the reply.
pub uninterp spec fn github_release(reply: Seq<char>) -> Option<
    (Option<Seq<char>>, Seq<(Option<Seq<char>>, Option<Seq<char>>)>),
>;

/// A release description as its tag and each asset's name and url.
pub open spec fn release_view(r: Option<Release>) -> Option<
    (Option<Seq<char>>, Seq<(Option<Seq<char>>, Option<Seq<char>>)>),
> {
    match r {
        Some(rel) => Some((opt_chars(rel.tag), assets_view(rel.assets@))),
        None => None,
    }
}

pub open spec fn reply_tag(
    g: Option<(Option<Seq<char>>, Seq<(Option<Seq<char>>, Option<Seq<char>>)>)>,
) -> Option<Option<Seq<char>>> {
    match g {
        Some(p) => Some(p.0),
        None => None,
    }
}

pub open spec fn reply_assets(
    g: Option<(Option<Seq<char>>, Seq<(Option<Seq<char>>, Option<Seq<char>>)>)>,
) -> Seq<(Option<Seq<char>>, Option<Seq<char>>)> {
    match g {
        Some(p) => p.1,
        None => seq![],
    }
}

/// `serde_json::from_str` into a `serde_json::Value`, then the string fields
/// `tag_name` and, in each element of the `assets` array, `name` and
/// `browser_download_url`, each read with `Value::get` and `Value::as_str`.
/// `None` when the reply is not JSON. The result depends on the reply text
/// alone and is named [`github_release`].
#[verifier::external_body]
fn release_of(reply: &str) -> (r: Option<Release>)
    ensures
        release_view(r) == github_release(reply@),
{
    let json: serde_json::Value = serde_json::from_str(reply).ok()?;
    let text = |v: &serde_json::Value, k: &str| v.get(k).and_then(|x| x.as_str()).map(String::from);
    let list = json.get("assets").and_then(|v| v.as_array()).cloned().unwrap_or_default();
    let assets = list.iter().map(
        |a| ReleaseAsset { name: text(a, "name"), url: text(a, "browser_download_url") },
    ).collect();
    Some(Release { tag: text(&json, "tag_name"), assets })
}

/// Applies the reply text of a GitHub release request to the record: the
/// release it describes goes through [`apply_release`].
pub fn apply_reply(info: UpdateInfo, reply: &str) -> (r: Result<UpdateInfo, String>)
    ensures
        result_view(r) == released(
            info@,
            reply_tag(github_release(reply@)),
            reply_assets(github_release(reply@)),
        ),
{
    let release = release_of(reply);
    apply_release(info, release)
}

proof fn lemma_scan_line(t: Seq<char>, s: int, i: int, e: int)
    requires
        0 <= s <= i <= e < t.len(),
        t[e] == '\n',
        forall|k: int| i <= k < e ==> t[k] != '\n',
    ensures
        settings_scan(t, s, i) == opt_setting(t.subrange(s, e)) + settings_scan(t, e + 1, e + 1),
    decreases e - i,
{
    if i < e {
        lemma_scan_line(t, s, i + 1, e);
    }
}

proof fn lemma_find_eq_at(l: Seq<char>, start: int, m: int)
    requires
        0 <= start <= m < l.len(),
        l[m] == '=',
        forall|k: int| start <= k < m ==> l[k] != '=',
    ensures
        find_eq(l, start) == Some(m),
    decreases m - start,
{
    if start < m {
        lemma_find_eq_at(l, start + 1, m);
    }
}

proof fn lemma_trim_same(t: Seq<char>)
    requires
        t.len() == 0 || (!crate::text::is_ws(t[0]) && !crate::text::is_ws(t.last())),
    ensures
        trim(t) == t,
{
    assert(crate::text::skip_ws(t, 0) == 0);
    assert(crate::text::skip_ws_back(t, 0, t.len() as int) == t.len());
    assert(t.subrange(0, t.len() as int) =~= t);
}

/// The setting held by a line `key=value` whose key has no `=` and no
/// surrounding whitespace, and whose value has no surrounding whitespace.
proof fn lemma_line_setting(key: Seq<char>, val: Seq<char>)
    requires
        key.len() > 0,
        !crate::text::is_ws(key[0]),
        !crate::text::is_ws(key.last()),
        forall|k: int| 0 <= k < key.len() ==> key[k] != '=',
        trim(val) == val,
    ensures
        setting_of(key + seq!['='] + val) == Some((key, val)),
{
    let l = key + seq!['='] + val;
    lemma_find_eq_at(l, 0, key.len() as int);
    assert(l.take(key.len() as int) =~= key);
    assert(l.skip(key.len() + 1int) =~= val);
    lemma_trim_same(key);
}

/// Reading back the text that stores an update record gives back its latest
/// version, download link and availability, when the version and the link
/// have no line break and no surrounding whitespace.
pub proof fn lemma_update_round_trip(v: UpdateView, current: Seq<char>)
    requires
        trim(v.latest_version) == v.latest_version,
        trim(v.download_url) == v.download_url,
        !v.latest_version.contains('\n'),
        !v.download_url.contains('\n'),
    ensures
        ({
            let w = loaded_update(update_text(v), current);
            &&& w.latest_version == v.latest_version
            &&& w.download_url == v.download_url
            &&& w.available == v.available
            &&& w.current_version == current
        }),
{
    let l = v.latest_version;
    let u = v.download_url;
    let word = if v.available {
        word_true()
    } else {
        word_false()
    };
    let line1 = key_latest() + seq!['='] + l;
    let line2 = key_url() + seq!['='] + u;
    let line3 = key_available() + seq!['='] + word;
    let t = update_text(v);
    assert(t =~= line1 + seq!['\n'] + line2 + seq!['\n'] + line3 + seq!['\n']);
    let e1 = line1.len() as int;
    let e2 = e1 + 1 + line2.len();
    let e3 = e2 + 1 + line3.len();
    assert(t.len() == e3 + 1);
    assert(t[e1] == '\n');
    assert(t[e2] == '\n');
    assert(t[e3] == '\n');
    assert forall|k: int| 0 <= k < e1 implies t[k] != '\n' by {
        assert(t[k] == line1[k]);
        if k >= 15 {
            assert(line1[k] == l[k - 15]);
            assert(l.contains(l[k - 15]));
        }
    }
    assert forall|k: int| e1 + 1 <= k < e2 implies t[k] != '\n' by {
        assert(t[k] == line2[k - e1 - 1]);
        if k - e1 - 1 >= 13 {
            assert(line2[k - e1 - 1] == u[k - e1 - 1 - 13]);
            assert(u.contains(u[k - e1 - 1 - 13]));
        }
    }
    assert forall|k: int| e2 + 1 <= k < e3 implies t[k] != '\n' by {
        assert(t[k] == line3[k - e2 - 1]);
    }
    lemma_scan_line(t, 0, 0, e1);
    lemma_scan_line(t, e1 + 1, e1 + 1, e2);
    lemma_scan_line(t, e2 + 1, e2 + 1, e3);
    assert(t.subrange(0, e1) =~= line1);
    assert(t.subrange(e1 + 1, e2) =~= line2);
    assert(t.subrange(e2 + 1, e3) =~= line3);
    assert(settings_scan(t, e3 + 1, e3 + 1) == Seq::<(Seq<char>, Seq<char>)>::empty());
    lemma_line_setting(key_latest(), l);
    lemma_line_setting(key_url(), u);
    lemma_trim_same(word);
    lemma_line_setting(key_available(), word);
    let st = settings(t);
    assert(st =~= seq![(key_latest(), l), (key_url(), u), (key_available(), word)]);
    let f0 = fresh_update(current);
    let f1 = with_setting(f0, key_latest(), l);
    let f2 = with_setting(f1, key_url(), u);
    let f3 = with_setting(f2, key_available(), word);
    assert(key_url() != key_latest()) by {
        assert(key_url()[0] != key_latest()[0]);
    }
    assert(key_available() != key_latest()) by {
        assert(key_available()[0] != key_latest()[0]);
    }
    assert(key_available() != key_url()) by {
        assert(key_available()[0] != key_url()[0]);
    }
    assert(word_false() != word_true()) by {
        assert(word_false()[0] != word_true()[0]);
    }
    assert(st.drop_first() =~= seq![(key_url(), u), (key_available(), word)]);
    assert(st.drop_first().drop_first() =~= seq![(key_available(), word)]);
    assert(st.drop_first().drop_first().drop_first() =~= Seq::<(Seq<char>, Seq<char>)>::empty());
    let s1 = st.drop_first();
    let s2 = s1.drop_first();
    let s3 = s2.drop_first();
    assert(st[0] == (key_latest(), l));
    assert(s1[0] == (key_url(), u));
    assert(s2[0] == (key_available(), word));
    assert(with_settings(f0, st) == with_settings(f1, s1));
    assert(with_settings(f1, s1) == with_settings(f2, s2));
    assert(with_settings(f2, s2) == with_settings(f3, s3));
    assert(with_settings(f3, s3) == f3);
}

} // verus!
