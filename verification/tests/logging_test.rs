use stax::logging::{level_from_lowercase, parse_level, LevelFilter};

#[test]
fn test_parse_level_valid() {
    assert_eq!(parse_level("error"), LevelFilter::Error);
    assert_eq!(parse_level("warn"), LevelFilter::Warn);
    assert_eq!(parse_level("info"), LevelFilter::Info);
    assert_eq!(parse_level("debug"), LevelFilter::Debug);
    assert_eq!(parse_level("trace"), LevelFilter::Trace);
}

#[test]
fn test_parse_level_case_insensitive() {
    assert_eq!(parse_level("DEBUG"), LevelFilter::Debug);
    assert_eq!(parse_level("Error"), LevelFilter::Error);
}

#[test]
fn test_parse_level_invalid_defaults_to_error() {
    assert_eq!(parse_level("invalid"), LevelFilter::Error);
    assert_eq!(parse_level(""), LevelFilter::Error);
}

#[test]
fn test_level_from_lowercase_is_case_sensitive() {
    assert_eq!(level_from_lowercase("trace"), LevelFilter::Trace);
    assert_eq!(level_from_lowercase("TRACE"), LevelFilter::Error);
    assert_eq!(parse_level("TrAcE"), LevelFilter::Trace);
}
