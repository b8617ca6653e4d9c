use litepad::settings::parse_settings;
use litepad::updates::{apply_release, apply_reply, Release, ReleaseAsset, UpdateInfo};

fn pairs(text: &str) -> Vec<(String, String)> {
    parse_settings(text)
}

#[test]
fn settings_are_split_and_trimmed() {
    let p = pairs("theme = dark\r\nfont_size=17\n\nnonsense\n font = Segoe UI = x \n");
    let want: Vec<(String, String)> = vec![
        ("theme".into(), "dark".into()),
        ("font_size".into(), "17".into()),
        ("font".into(), "Segoe UI = x".into()),
    ];
    assert_eq!(p, want);
    assert!(pairs("").is_empty());
    assert_eq!(pairs("a=b"), vec![("a".to_string(), "b".to_string())]);
}

#[test]
fn update_record_round_trip() {
    let mut info = UpdateInfo::new("1.2.0");
    info.latest_version = "1.3.0".to_string();
    info.download_url = "https://x/y.exe".to_string();
    info.available = true;
    let text = info.to_text();
    assert_eq!(text, "latest_version=1.3.0\ndownload_url=https://x/y.exe\navailable=true\n");
    let back = UpdateInfo::from_text(&text, "1.2.0");
    assert_eq!(back.latest_version, "1.3.0");
    assert_eq!(back.download_url, "https://x/y.exe");
    assert!(back.available);
    assert_eq!(back.current_version, "1.2.0");
}

#[test]
fn update_record_defaults() {
    let info = UpdateInfo::from_text("junk\nother=1\n", "0.9.0");
    assert!(!info.available);
    assert_eq!(info.latest_version, "0.9.0");
    assert_eq!(info.download_url, "");
    assert!(!info.checking);
    assert!(info.last_check.is_none());
    let info = UpdateInfo::from_text("available=yes\n", "0.9.0");
    assert!(!info.available);
}

fn asset(name: Option<&str>, url: Option<&str>) -> ReleaseAsset {
    ReleaseAsset { name: name.map(|s| s.to_string()), url: url.map(|s| s.to_string()) }
}

#[test]
fn newer_release_becomes_available() {
    let info = UpdateInfo::new("1.0.0");
    let rel = Release {
        tag: Some("vv1.1.0".to_string()),
        assets: vec![
            asset(Some("notes.zip"), Some("z")),
            asset(Some("litepad.exe"), None),
            asset(None, Some("n")),
            asset(Some("litepad.exe"), Some("https://dl/litepad.exe")),
        ],
    };
    let out = apply_release(info, Some(rel)).ok().unwrap();
    assert_eq!(out.latest_version, "1.1.0");
    assert_eq!(out.download_url, "https://dl/litepad.exe");
    assert!(out.available);
}

#[test]
fn same_or_older_release_is_not_available() {
    let rel = |tag: &str| Release {
        tag: Some(tag.to_string()),
        assets: vec![asset(Some("a.exe"), Some("u"))],
    };
    let out = apply_release(UpdateInfo::new("1.0.0"), Some(rel("v1.0.0"))).ok().unwrap();
    assert!(!out.available);
    assert_eq!(out.download_url, "u");
    let out = apply_release(UpdateInfo::new("1.0.0"), Some(rel("0.9.9"))).ok().unwrap();
    assert!(!out.available);
    let out = apply_release(UpdateInfo::new("1.0.0"), Some(rel("not-a-version"))).ok().unwrap();
    assert!(!out.available);
}

#[test]
fn release_without_exe_keeps_link() {
    let mut info = UpdateInfo::new("1.0.0");
    info.download_url = "old".to_string();
    let rel = Release { tag: Some("2.0.0".to_string()), assets: vec![] };
    let out = apply_release(info, Some(rel)).ok().unwrap();
    assert_eq!(out.latest_version, "2.0.0");
    assert_eq!(out.download_url, "old");
    assert!(!out.available);
}

#[test]
fn unreadable_release_is_an_error() {
    let e = apply_release(UpdateInfo::new("1.0.0"), None).err().unwrap();
    assert_eq!(e, "Failed to parse GitHub response");
    let rel = Release { tag: None, assets: vec![asset(Some("a.exe"), Some("u"))] };
    let e = apply_release(UpdateInfo::new("1.0.0"), Some(rel)).err().unwrap();
    assert_eq!(e, "Failed to parse GitHub response");
}

#[test]
fn github_reply_is_read() {
    let reply = r#"{"tag_name":"v1.2.0","name":"LitePad 1.2","assets":[
        {"name":"notes.zip","browser_download_url":"https://dl/notes.zip"},
        {"name":"litepad.exe","browser_download_url":"https://dl/litepad.exe","size":5}
    ]}"#;
    let out = apply_reply(UpdateInfo::new("1.0.0"), reply).ok().unwrap();
    assert_eq!(out.latest_version, "1.2.0");
    assert_eq!(out.download_url, "https://dl/litepad.exe");
    assert!(out.available);
}

#[test]
fn github_reply_without_assets_or_tag() {
    let out = apply_reply(UpdateInfo::new("1.0.0"), r#"{"tag_name":"0.5.0"}"#).ok().unwrap();
    assert_eq!(out.latest_version, "0.5.0");
    assert!(!out.available);
    let e = apply_reply(UpdateInfo::new("1.0.0"), r#"{"message":"Not Found"}"#).err().unwrap();
    assert_eq!(e, "Failed to parse GitHub response");
    let e = apply_reply(UpdateInfo::new("1.0.0"), "<html>rate limited</html>").err().unwrap();
    assert_eq!(e, "Failed to parse GitHub response");
    let e = apply_reply(UpdateInfo::new("1.0.0"), r#"{"tag_name":7}"#).err().unwrap();
    assert_eq!(e, "Failed to parse GitHub response");
}
