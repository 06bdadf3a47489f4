use wsinit::cli::{
    get_default_profile, multi_operation_checker, overwrite_allowed, profile_list_lines,
    resolve_profile_name, select_profile, SelectOutcome,
};
use wsinit::paths::get_profile_path;
use wsinit::settings::Settings;

#[test]
fn profile_path_appends_extension() {
    assert_eq!(
        get_profile_path("foo".to_string(), "CFG/", "/"),
        "CFG/profiles/foo.bincode"
    );
}

#[test]
fn profile_path_extension_is_idempotent() {
    let bare = get_profile_path("foo".to_string(), "CFG/", "/");
    let full = get_profile_path("foo.bincode".to_string(), "CFG/", "/");
    assert_eq!(bare, full);
}

#[test]
fn settings_render_and_default() {
    let mut s = Settings::new();
    assert_eq!(get_default_profile(&s), "");
    s.wsinit.set_default("p1.bincode");
    assert_eq!(get_default_profile(&s), "p1.bincode");
    assert_eq!(s.render(), "[wsinit]\ndefault_profile = \"p1.bincode\"\n");
}

#[test]
fn settings_parse_round_trip() {
    let mut s = Settings::new();
    s.wsinit.set_default("p2");
    let doc = s.render();
    let back = Settings::parse(&doc).expect("a rendered document parses");
    assert_eq!(back.wsinit.get_default(), "p2");
}

#[test]
fn settings_parse_rejects_malformed() {
    assert!(Settings::parse("").is_err());
    assert!(Settings::parse("[wsinit]\n").is_err());
    assert!(Settings::parse("default_profile = \"x\"\n").is_err());
    assert!(Settings::parse("[wsinit]\ndefault_profile = \"x\"").is_err());
}

#[test]
fn multi_operation_rejection() {
    assert!(multi_operation_checker(true, false, true));
    assert!(multi_operation_checker(true, true, false));
    assert!(multi_operation_checker(false, true, true));
    assert!(multi_operation_checker(true, true, true));
    assert!(!multi_operation_checker(true, false, false));
    assert!(!multi_operation_checker(false, true, false));
    assert!(!multi_operation_checker(false, false, true));
    assert!(!multi_operation_checker(false, false, false));
}

#[test]
fn default_profile_fallback() {
    assert_eq!(
        resolve_profile_name(None, "dflt.bincode".to_string()),
        Some("dflt.bincode".to_string())
    );
    assert_eq!(
        resolve_profile_name(Some("mine".to_string()), "dflt".to_string()),
        Some("mine".to_string())
    );
    assert_eq!(resolve_profile_name(None, String::new()), None);
    assert_eq!(
        resolve_profile_name(Some(String::new()), String::new()),
        None
    );
}

#[test]
fn listing_is_numbered_from_one() {
    let profiles = vec!["p1.bincode".to_string(), "p2.bincode".to_string()];
    let lines = profile_list_lines(&profiles);
    assert_eq!(
        lines,
        vec!["1: p1.bincode".to_string(), "2: p2.bincode".to_string()]
    );
}

#[test]
fn listing_counts_past_nine() {
    let profiles: Vec<String> = (0..12).map(|i| format!("p{}", i)).collect();
    let lines = profile_list_lines(&profiles);
    assert_eq!(lines[9], "10: p9");
    assert_eq!(lines[11], "12: p11");
}

#[test]
fn selection_semantics() {
    let profiles = vec!["a".to_string(), "b".to_string()];
    assert!(matches!(
        select_profile(&profiles, 0),
        SelectOutcome::Cancelled
    ));
    match select_profile(&profiles, 1) {
        SelectOutcome::Chosen(name) => assert_eq!(name, "a"),
        _ => panic!("index 1 picks the first entry"),
    }
    match select_profile(&profiles, 2) {
        SelectOutcome::Chosen(name) => assert_eq!(name, "b"),
        _ => panic!("index 2 picks the second entry"),
    }
    assert!(matches!(
        select_profile(&profiles, 3),
        SelectOutcome::Invalid
    ));
}

#[test]
fn overwrite_prompt_semantics() {
    assert!(overwrite_allowed(true, true, "n"));
    assert!(overwrite_allowed(false, false, "n"));
    assert!(overwrite_allowed(false, true, "y"));
    assert!(overwrite_allowed(false, true, "Y"));
    assert!(!overwrite_allowed(false, true, "n"));
    assert!(!overwrite_allowed(false, true, ""));
    assert!(!overwrite_allowed(false, true, "yes"));
}
