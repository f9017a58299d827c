use offers_studio::setup::api_key_present;
use offers_studio::setup::check_setup;
use offers_studio::setup::get_standard_project_path;
use offers_studio::setup::resolve_project_path;
use offers_studio::setup::upsert_api_key;
use offers_studio::setup::ProjectPathState;

#[test]
fn project_path_state_roundtrip() {
    let mut state = ProjectPathState::new();
    assert!(state.get().is_none());
    state.set("/work/p".to_string());
    assert_eq!(state.get().as_deref(), Some("/work/p"));
    state.set("/other".to_string());
    assert_eq!(state.get().as_deref(), Some("/other"));
}

#[test]
fn setup_status_complete_rule() {
    let all = check_setup(true, true, true, true, true, "/p".to_string());
    assert!(all.is_complete);
    assert_eq!(all.project_path, "/p");
    // the env file's presence alone is not part of completeness
    let no_env_file = check_setup(true, true, false, true, true, "/p".to_string());
    assert!(no_env_file.is_complete);
    let no_key = check_setup(true, true, true, false, true, "/p".to_string());
    assert!(!no_key.is_complete);
    let no_md = check_setup(false, true, true, true, true, "/p".to_string());
    assert!(!no_md.is_complete);
}

#[test]
fn api_key_detection() {
    assert!(api_key_present("GOOGLE_API_KEY=abc123\n"));
    assert!(!api_key_present("OTHER=1\n"));
    assert!(!api_key_present("GOOGLE_API_KEY=your_key_here\n"));
    assert!(!api_key_present("GOOGLE_API_KEY=\"\"\n"));
    assert!(!api_key_present("GOOGLE_API_KEY=''\n"));
}

#[test]
fn resolve_priority() {
    assert_eq!(
        resolve_project_path(Some("a".to_string()), Some("b".to_string())).as_deref(),
        Some("a")
    );
    assert_eq!(
        resolve_project_path(None, Some("b".to_string())).as_deref(),
        Some("b")
    );
    assert!(resolve_project_path(None, None).is_none());
}

#[test]
fn standard_project_path() {
    assert_eq!(
        get_standard_project_path("/home/u"),
        "/home/u/Documents/GenImage Studio"
    );
}

#[test]
fn upsert_replaces_existing_key_line() {
    let content = "FOO=1\nGOOGLE_API_KEY=old\nBAR=2";
    let out = upsert_api_key(content, "new");
    assert_eq!(out, "FOO=1\nGOOGLE_API_KEY=new\nBAR=2");
}

#[test]
fn upsert_replaces_on_rejoined_lines() {
    // rejoining drops the trailing line ending, as line iteration does
    let content = "GOOGLE_API_KEY=old\n";
    let out = upsert_api_key(content, "fresh");
    assert_eq!(out, "GOOGLE_API_KEY=fresh");
}

#[test]
fn upsert_appends_when_absent() {
    assert_eq!(upsert_api_key("", "k"), "GOOGLE_API_KEY=k\n");
    assert_eq!(upsert_api_key("FOO=1", "k"), "FOO=1\nGOOGLE_API_KEY=k\n");
    assert_eq!(upsert_api_key("FOO=1\n", "k"), "FOO=1\nGOOGLE_API_KEY=k\n");
}
