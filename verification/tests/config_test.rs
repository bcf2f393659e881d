use stax::config::{mask_token, parse_bool, Config, ConfigError};

#[test]
fn test_default_config() {
    let c = Config::default();
    assert_eq!(c.default_base_branch, "main");
    assert!(c.auto_push);
    assert!(!c.draft_prs);
    assert!(c.github_token.is_none());
    assert!(c.pr_template.is_none());
    assert!(c.user_settings.is_empty());
}

#[test]
fn test_get_after_set_known_and_free_keys() {
    let mut c = Config::default();
    assert!(c.set("default_base_branch", "develop").is_ok());
    assert_eq!(c.get("default_base_branch"), Some("develop".to_string()));
    assert!(c.set("draft_prs", "true").is_ok());
    assert_eq!(c.get("draft_prs"), Some("true".to_string()));
    assert!(c.draft_prs);
    assert!(c.set("editor", "vim").is_ok());
    assert_eq!(c.get("editor"), Some("vim".to_string()));
    assert_eq!(c.get("missing"), None);
    assert_eq!(c.get("github_token"), None);
}

#[test]
fn test_set_refuses_non_bool() {
    let mut c = Config::default();
    assert_eq!(c.set("auto_push", "yes"), Err(ConfigError::InvalidBool));
    assert!(c.auto_push);
    assert_eq!(
        ConfigError::InvalidBool.message(),
        "provided string was not `true` or `false`"
    );
}

#[test]
fn test_parse_bool_only_exact_words() {
    assert_eq!(parse_bool("true"), Some(true));
    assert_eq!(parse_bool("false"), Some(false));
    assert_eq!(parse_bool("True"), None);
    assert_eq!(parse_bool(""), None);
}

#[test]
fn test_mask_token() {
    assert_eq!(mask_token("ghp_1234567890abcd"), "ghp_...abcd");
    assert_eq!(mask_token("12345678"), "***");
    assert_eq!(mask_token(""), "***");
}

#[test]
fn test_list_masks_token_and_shows_all() {
    let mut c = Config::default();
    c.set("github_token", "ghp_1234567890abcd").unwrap();
    c.set("pr_template", "tpl").unwrap();
    c.set("custom", "x").unwrap();
    let l = c.list();
    assert_eq!(l.len(), 6);
    assert_eq!(l.get("github_token"), Some(&"ghp_...abcd".to_string()));
    assert_eq!(l.get("default_base_branch"), Some(&"main".to_string()));
    assert_eq!(l.get("auto_push"), Some(&"true".to_string()));
    assert_eq!(l.get("draft_prs"), Some(&"false".to_string()));
    assert_eq!(l.get("pr_template"), Some(&"tpl".to_string()));
    assert_eq!(l.get("custom"), Some(&"x".to_string()));
}

#[test]
fn test_set_leaves_other_keys() {
    let mut c = Config::default();
    assert!(c.set("editor", "vim").is_ok());
    assert!(c.set("draft_prs", "true").is_ok());
    let before_base = c.get("default_base_branch");
    let before_editor = c.get("editor");
    assert!(c.set("auto_push", "false").is_ok());
    assert_eq!(c.get("default_base_branch"), before_base);
    assert_eq!(c.get("editor"), before_editor);
    assert_eq!(c.get("draft_prs"), Some("true".to_string()));
    assert_eq!(c.get("auto_push"), Some("false".to_string()));
}
