use oxiden::config::{Backend, Config, ConfigError};

fn parse(text: &str) -> Result<Config, ConfigError> {
    Config::parse(text, "config.toml")
}

#[test]
fn empty_text_yields_defaults() {
    assert_eq!(parse("").unwrap(), Config::default());
}

#[test]
fn comments_and_blank_lines_are_ignored() {
    let text = "\n# a comment\n\ntab_width = 2\n";

    assert_eq!(parse(text).unwrap().tab_width, 2);
}

#[test]
fn parses_all_keys() {
    let text = "tab_width = 2\n\
                 insert_spaces_for_tab = true\n\
                 backend = \"rope\"\n";

    let config = parse(text).unwrap();

    assert_eq!(config.tab_width, 2);
    assert!(config.insert_spaces_for_tab);
    assert_eq!(config.backend, Backend::Rope);
}

#[test]
fn unquoted_backend_value_is_accepted() {
    let config = parse("backend = ropey").unwrap();

    assert_eq!(config.backend, Backend::Ropey);
}

#[test]
fn unmentioned_keys_keep_their_default() {
    let config = parse("tab_width = 8").unwrap();

    assert!(!config.insert_spaces_for_tab);
    assert_eq!(config.backend, Backend::Ropey);
}

#[test]
fn unknown_key_is_a_parse_error() {
    let err = parse("nonexistent = 1").unwrap_err();

    assert!(matches!(err, ConfigError::Parse { line: 1, .. }));
}

#[test]
fn malformed_line_is_a_parse_error() {
    let err = parse("just some text").unwrap_err();

    assert!(matches!(err, ConfigError::Parse { line: 1, .. }));
}

#[test]
fn invalid_tab_width_is_a_parse_error() {
    let err = parse("tab_width = wide").unwrap_err();

    assert!(matches!(err, ConfigError::Parse { .. }));
}

#[test]
fn zero_tab_width_is_a_parse_error() {
    let err = parse("tab_width = 0").unwrap_err();

    assert!(matches!(err, ConfigError::Parse { .. }));
}

#[test]
fn invalid_bool_is_a_parse_error() {
    let err = parse("insert_spaces_for_tab = yes").unwrap_err();

    assert!(matches!(err, ConfigError::Parse { .. }));
}

#[test]
fn invalid_backend_is_a_parse_error() {
    let err = parse("backend = quantum").unwrap_err();

    assert!(matches!(err, ConfigError::Parse { .. }));
}

#[test]
fn error_line_number_matches_the_offending_line() {
    let text = "tab_width = 2\nbackend = nonsense\n";

    let err = parse(text).unwrap_err();

    assert!(matches!(err, ConfigError::Parse { line: 2, .. }));
}

#[test]
fn missing_file_yields_defaults() {
    // No file was found at the path, so there is no text to parse.
    let config = Config::load(None, "/nonexistent/oxiden/config.toml").unwrap();

    assert_eq!(config, Config::default());
}

#[test]
fn backend_display_round_trips_through_parse() {
    for backend in [Backend::Vec, Backend::Rope, Backend::Ropey] {
        assert_eq!(Backend::parse(backend.name()), Some(backend));
    }
}

// ===== Own tests =====

#[test]
fn parse_error_names_the_file_line_and_problem() {
    let err = Config::parse("\n\ntab_width = 0\n", "my.toml").unwrap_err();

    assert_eq!(
        err,
        ConfigError::Parse {
            path: "my.toml".to_string(),
            line: 3,
            message: "tab_width must be at least 1".to_string(),
        }
    );
}

#[test]
fn parse_error_messages_quote_the_offending_text() {
    let err = parse("backend = quantum").unwrap_err();
    assert!(matches!(
        err,
        ConfigError::Parse { ref message, .. }
            if message == "unknown backend \"quantum\" (expected vec, rope, or ropey)"
    ));

    let err = parse("colour = red").unwrap_err();
    assert!(matches!(
        err,
        ConfigError::Parse { ref message, .. } if message == "unknown config key \"colour\""
    ));

    let err = parse("  no equals sign  ").unwrap_err();
    assert!(matches!(
        err,
        ConfigError::Parse { ref message, .. }
            if message == "expected `key = value`, got \"  no equals sign  \""
    ));

    let err = parse("tab_width = -1").unwrap_err();
    assert!(matches!(
        err,
        ConfigError::Parse { ref message, .. }
            if message == "tab_width must be a positive integer, got \"-1\""
    ));

    let err = parse("insert_spaces_for_tab = TRUE").unwrap_err();
    assert!(matches!(
        err,
        ConfigError::Parse { ref message, .. }
            if message == "insert_spaces_for_tab must be true or false, got \"TRUE\""
    ));
}

#[test]
fn later_lines_override_earlier_ones_and_crlf_is_accepted() {
    let config = parse("tab_width = 2\r\ntab_width = +8\r\nbackend = \"vec\"\r\n").unwrap();

    assert_eq!(config.tab_width, 8);
    assert_eq!(config.backend, Backend::Vec);
}

#[test]
fn huge_tab_width_is_a_parse_error() {
    let err = parse("tab_width = 99999999999999999999999").unwrap_err();

    assert!(matches!(err, ConfigError::Parse { line: 1, .. }));
}

#[test]
fn defaults_are_four_columns_tabs_and_ropey() {
    let config = Config::default();

    assert_eq!(config.tab_width, 4);
    assert!(!config.insert_spaces_for_tab);
    assert_eq!(config.backend, Backend::Ropey);
    assert_eq!(Config::load(Some(""), "x").unwrap(), config);
}

#[test]
fn backend_names() {
    assert_eq!(Backend::Vec.name(), "vec");
    assert_eq!(Backend::Rope.name(), "rope");
    assert_eq!(Backend::Ropey.name(), "ropey");
    assert_eq!(Backend::parse("ROPE"), None);
}
