use rustybrain_core::config::{Config, ConfigError};

const GOOD: &str = "\
[repo]
path = \"/home/u/notes\"

[shortcut]
find = \"<Control>f\"
insert = \"<Control>i\"
quit = \"<Control>q\"
";

#[test]
fn parses_a_full_document() {
    let c = Config::from_str(GOOD).unwrap();
    assert_eq!(c.repo_path(), "/home/u/notes");
    assert_eq!(c.shortcut().find(), "<Control>f");
    assert_eq!(c.shortcut().insert(), "<Control>i");
    assert_eq!(c.shortcut().quit(), "<Control>q");
    assert!(!c.is_default());
}

#[test]
fn missing_field_is_a_parse_error() {
    let doc = "[repo]\npath = \"/n\"\n[shortcut]\nfind = \"f\"\ninsert = \"i\"\n";
    let e = Config::from_str(doc).unwrap_err();
    assert!(matches!(e, ConfigError::ParseError(_)));
}

#[test]
fn missing_table_is_a_parse_error() {
    assert!(Config::from_str("[repo]\npath = \"/n\"\n").is_err());
}

#[test]
fn bad_syntax_is_a_parse_error() {
    assert!(Config::from_str("this is = = not toml").is_err());
}

#[test]
fn wrong_type_is_a_parse_error() {
    assert!(Config::from_str("[repo]\npath = 7\n[shortcut]\nfind = \"f\"\ninsert = \"i\"\nquit = \"q\"\n").is_err());
}

#[test]
fn default_config_is_marked_default() {
    let c = Config::default();
    assert!(c.is_default());
    assert_eq!(c.repo_path(), "__default");
    assert_eq!(c.shortcut().find(), "<Control><Shift>f");
    assert_eq!(c.shortcut().insert(), "<Control>i");
    assert_eq!(c.shortcut().quit(), "<Meta>q");
}

#[test]
fn absent_file_loads_the_default() {
    let c = Config::from_file_text(None).unwrap();
    assert!(c.is_default());
}

#[test]
fn present_file_must_parse() {
    let c = Config::from_file_text(Some(GOOD)).unwrap();
    assert_eq!(c.repo_path(), "/home/u/notes");
    assert!(Config::from_file_text(Some("garbage [")).is_err());
}
