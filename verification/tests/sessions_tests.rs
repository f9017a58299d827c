use offers_studio::sessions::encode_project_path;
use offers_studio::sessions::estimate_message_count;
use offers_studio::sessions::find_project_dir;
use offers_studio::sessions::format_message;
use offers_studio::sessions::get_agent_projects_dir;
use offers_studio::sessions::get_session_names_file;
use offers_studio::sessions::preview_from_summary;
use offers_studio::sessions::preview_from_user_message;
use offers_studio::sessions::session_id_from_filename;
use offers_studio::sessions::sort_sessions_newest_first;
use offers_studio::sessions::truncate_preview;
use offers_studio::sessions::SessionInfo;

#[test]
fn test_encode_project_path() {
    let path = "/Users/test/dev/apps/offers";
    let encoded = encode_project_path(path);
    // Should be dash-separated
    assert_eq!(encoded, "-Users-test-dev-apps-offers");
}

#[test]
fn encode_project_path_without_separators() {
    assert_eq!(encode_project_path(""), "");
    assert_eq!(encode_project_path("plain"), "plain");
}

#[test]
fn project_dir_paths() {
    assert_eq!(get_agent_projects_dir("/home/u"), "/home/u/.agent/projects");
    assert_eq!(
        find_project_dir("/home/u", "/a/b"),
        "/home/u/.agent/projects/-a-b"
    );
    assert_eq!(
        get_session_names_file("/home/u"),
        "/home/u/.agent/genimage-studio-session-names.json"
    );
}

#[test]
fn truncate_preview_clips_at_one_hundred() {
    let short = "hello";
    assert_eq!(truncate_preview(short), "hello");
    let exact: String = "x".repeat(100);
    assert_eq!(truncate_preview(&exact), exact);
    let long: String = "y".repeat(101);
    let clipped = truncate_preview(&long);
    assert_eq!(clipped.chars().count(), 103);
    assert!(clipped.ends_with("..."));
    assert!(clipped.starts_with(&"y".repeat(100)));
}

#[test]
fn summary_preview_rules() {
    let r = preview_from_summary("summary", Some("the gist".to_string()));
    assert_eq!(r.as_deref(), Some("the gist"));
    assert!(preview_from_summary("user", Some("x".to_string())).is_none());
    assert!(preview_from_summary("summary", None).is_none());
}

#[test]
fn user_message_preview_rules() {
    let ok = preview_from_user_message(
        "user",
        None,
        Some("user".to_string()),
        Some("draw a cat".to_string()),
    );
    assert_eq!(ok.as_deref(), Some("draw a cat"));
    // meta messages are skipped
    assert!(preview_from_user_message(
        "user",
        Some(true),
        Some("user".to_string()),
        Some("t".to_string())
    )
    .is_none());
    // command text opening with '<' is skipped
    assert!(preview_from_user_message(
        "user",
        None,
        Some("user".to_string()),
        Some("<command>".to_string())
    )
    .is_none());
    // empty text is skipped
    assert!(preview_from_user_message(
        "user",
        None,
        Some("user".to_string()),
        Some(String::new())
    )
    .is_none());
    // wrong role or wrong type is skipped
    assert!(preview_from_user_message(
        "user",
        None,
        Some("assistant".to_string()),
        Some("t".to_string())
    )
    .is_none());
    assert!(preview_from_user_message(
        "summary",
        None,
        Some("user".to_string()),
        Some("t".to_string())
    )
    .is_none());
}

#[test]
fn session_id_strips_suffix() {
    assert_eq!(session_id_from_filename("abc-123.jsonl"), "abc-123");
    assert_eq!(session_id_from_filename("noext"), "noext");
    assert_eq!(session_id_from_filename("a.jsonl.jsonl"), "a");
}

#[test]
fn message_count_estimate_takes_larger() {
    assert_eq!(estimate_message_count(3, 1000), 3);
    assert_eq!(estimate_message_count(1, 1000), 2);
    assert_eq!(estimate_message_count(0, 0), 0);
}

#[test]
fn format_message_joins_role_and_text() {
    assert_eq!(format_message("user", "hello"), "user: hello");
}

fn info(id: &str, ts: &str) -> SessionInfo {
    SessionInfo {
        id: id.to_string(),
        project_path: "/p".to_string(),
        timestamp: ts.to_string(),
        first_message: String::new(),
        message_count: 0,
        custom_name: None,
    }
}

#[test]
fn sort_orders_newest_first() {
    let list = vec![
        info("a", "2024-01-02 10:00:00"),
        info("b", "2024-03-01 09:00:00"),
        info("c", "2023-12-31 23:59:59"),
        info("d", "2024-03-01 09:00:00"),
    ];
    let sorted = sort_sessions_newest_first(list);
    let stamps: Vec<&str> = sorted.iter().map(|s| s.timestamp.as_str()).collect();
    assert_eq!(
        stamps,
        vec![
            "2024-03-01 09:00:00",
            "2024-03-01 09:00:00",
            "2024-01-02 10:00:00",
            "2023-12-31 23:59:59"
        ]
    );
    // the two equal keys keep both entries
    let ids: Vec<&str> = sorted.iter().map(|s| s.id.as_str()).collect();
    assert!(ids.contains(&"b") && ids.contains(&"d"));
}

#[test]
fn sort_empty_list() {
    let sorted = sort_sessions_newest_first(Vec::new());
    assert!(sorted.is_empty());
}
