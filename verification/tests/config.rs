//! Identity resolution from configuration text.

use ptl::config::Config;

#[test]
fn test_state_default() {
    let cfg = Config::default();
    assert_eq!(cfg.email, "anonymous".to_string())
}

#[test]
fn test_config_email() {
    let mut cfg = Config::default();
    cfg.email = "unknown@unknown.unk".to_string();
    assert_eq!(*cfg.email(), "unknown@unknown.unk".to_string());
}

#[test]
fn missing_file_falls_back_to_anonymous() {
    let cfg = Config::from_contents(None);
    assert_eq!(cfg.email, "anonymous".to_string());
}

#[test]
fn configured_email_is_resolved() {
    let cfg = Config::from_contents(Some("email = \"user@example.com\"\n"));
    assert_eq!(cfg.email, "user@example.com".to_string());
}

#[test]
fn configured_email_without_trailing_newline() {
    let cfg = Config::from_contents(Some("email = \"user@example.com\""));
    assert_eq!(cfg.email, "user@example.com".to_string());
}

#[test]
fn email_line_after_other_lines_is_found() {
    let cfg = Config::from_contents(Some("# settings\nname = \"x\"\nemail = \"a@b.c\"\n"));
    assert_eq!(cfg.email, "a@b.c".to_string());
}

#[test]
fn unparsable_text_falls_back_to_anonymous() {
    let cfg = Config::from_contents(Some("this is not a config file"));
    assert_eq!(cfg.email, "anonymous".to_string());
    let cfg = Config::from_contents(Some(""));
    assert_eq!(cfg.email, "anonymous".to_string());
    let cfg = Config::from_contents(Some("email = unquoted\n"));
    assert_eq!(cfg.email, "anonymous".to_string());
}
