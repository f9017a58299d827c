use offers_studio::commands::greet;
use offers_studio::commands::get_statusline_script_path;
use offers_studio::commands::is_image_extension;
use offers_studio::commands::mode_is_executable;
use offers_studio::context::get_context_file_path;
use offers_studio::context::hex_lower;
use offers_studio::strutil::str_contains;
use offers_studio::strutil::str_eq;
use offers_studio::strutil::str_le;
use offers_studio::strutil::str_starts_with;

#[test]
fn greeting_text() {
    assert_eq!(greet("Ada"), "Hello, Ada! You've been greeted from Rust!");
}

#[test]
fn statusline_script_location() {
    assert_eq!(
        get_statusline_script_path("/home/u"),
        "/home/u/.agent/statusline-genimage-studio.sh"
    );
}

#[test]
fn executable_mode_bits() {
    assert!(mode_is_executable(0o755));
    assert!(mode_is_executable(0o100));
    assert!(!mode_is_executable(0o644));
    assert!(!mode_is_executable(0));
}

#[test]
fn image_extensions_matched_case_insensitively() {
    assert!(is_image_extension("png"));
    assert!(is_image_extension("PNG"));
    assert!(is_image_extension("jPg"));
    assert!(is_image_extension("jpeg"));
    assert!(!is_image_extension("gif"));
    assert!(!is_image_extension("jpg "));
    assert!(!is_image_extension(""));
}

#[test]
fn hex_spelling() {
    assert_eq!(hex_lower(&[]), "");
    assert_eq!(hex_lower(&[0x00, 0xFF, 0x1A]), "00ff1a");
}

#[test]
fn context_file_path_embeds_short_hash() {
    // the digest of "abc" is 900150983cd24fb0d6963f7d28e17f72; the path
    // carries its first eight digits
    assert_eq!(
        get_context_file_path("abc"),
        "/tmp/genimage-studio-context-90015098.json"
    );
}

#[test]
fn string_helpers() {
    assert!(str_eq("same", "same"));
    assert!(!str_eq("same", "sameé"));
    assert!(str_starts_with("prefix rest", "prefix"));
    assert!(!str_starts_with("pre", "prefix"));
    assert!(str_contains("haystack needle here", "needle"));
    assert!(!str_contains("haystack", "needle"));
    assert!(str_contains("anything", ""));
    assert!(str_le("abc", "abd"));
    assert!(str_le("abc", "abc"));
    assert!(!str_le("abd", "abc"));
    assert!(str_le("ab", "abc"));
}
