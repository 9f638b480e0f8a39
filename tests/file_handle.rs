use gitter::file::{FileHandle, SettingsError};
use gitter::settings::Settings;

fn pairs(s: &Settings) -> Vec<(String, String)> {
    s.entries().clone()
}

#[test]
fn test_get_settings_value() {
    let file_handle = FileHandle::new(String::new(), "key1=value1\n");

    let value = file_handle.get_settings_value("key1").unwrap();

    assert_eq!("value1", value);
}

#[test]
fn test_set_settings_value() {
    let mut file_handle = FileHandle::new(String::new(), "");

    let test_settings = vec![("key1".to_string(), "value1".to_string())];

    let result = file_handle.set_settings_value("key1", "value1");

    match result {
        Err(e) => assert_eq!("Value cannot be empty", e.message()),
        Ok(o) => assert_eq!("Key 'key1' updated.", o),
    }

    assert_eq!(test_settings, pairs(file_handle.get_settings()));
}

#[test]
fn test_write_settings() {
    let mut file_handle = FileHandle::new(String::new(), "");
    file_handle.set_settings_value("key2", "value2").unwrap();
    file_handle.set_settings_value("key1", "value1").unwrap();

    let content = file_handle.settings_text();
    let expected_content = "key1=value1\nkey2=value2\n";
    assert_eq!(content, expected_content);
}

#[test]
fn test_read_settings() {
    let settings = Settings::parse("key1=value1\nkey2=value2\n");

    let test_settings = vec![
        ("key1".to_string(), "value1".to_string()),
        ("key2".to_string(), "value2".to_string()),
    ];

    assert_eq!(test_settings, pairs(&settings));
}

#[test]
fn test_text_to_vec() {
    let result: Vec<String> = FileHandle::text_to_vec("key1=value1\nkey2=value2\n");
    let expected: Vec<String> = vec!["key1=value1".to_string(), "key2=value2".to_string()];

    assert_eq!(expected, result);
}

#[test]
fn get_missing_key_is_key_not_found() {
    let file_handle = FileHandle::new(String::new(), "a=1\n");
    assert_eq!(file_handle.get_settings_value("b"), Err(SettingsError::KeyNotFound));
    assert_eq!(SettingsError::KeyNotFound.message(), "Key not found");
}

#[test]
fn set_empty_or_blank_value_is_refused_and_changes_nothing() {
    let mut file_handle = FileHandle::new(String::new(), "k=old\n");
    let before = file_handle.settings_text();
    assert_eq!(file_handle.set_settings_value("k", ""), Err(SettingsError::InvalidValue));
    assert_eq!(file_handle.set_settings_value("k", "   "), Err(SettingsError::InvalidValue));
    assert_eq!(file_handle.set_settings_value("new", " \t "), Err(SettingsError::InvalidValue));
    assert_eq!(file_handle.settings_text(), before);
    assert_eq!(file_handle.get_settings_value("k").unwrap(), "old");
    assert!(file_handle.get_settings_value("new").is_err());
}

#[test]
fn set_overwrites_and_load_gives_latest_value() {
    let mut file_handle = FileHandle::new(String::new(), "");
    file_handle.set_settings_value("branch", "dev").unwrap();
    file_handle.set_settings_value("remote", "origin").unwrap();
    file_handle.set_settings_value("branch", "main").unwrap();
    let text = file_handle.settings_text();
    assert_eq!(text, "branch=main\nremote=origin\n");
    let reloaded = FileHandle::new(String::new(), &text);
    assert_eq!(reloaded.get_settings_value("branch").unwrap(), "main");
    assert_eq!(reloaded.get_settings_value("remote").unwrap(), "origin");
}

#[test]
fn save_then_load_round_trips() {
    let mut s = Settings::new();
    s.insert("zeta", "last");
    s.insert("alpha", "first");
    s.insert("mid", "a=b=c");
    let text = s.render();
    assert_eq!(text, "alpha=first\nmid=a=b=c\nzeta=last\n");
    let back = Settings::parse(&text);
    assert_eq!(pairs(&back), pairs(&s));
}

#[test]
fn parse_splits_on_first_equals_and_keeps_text() {
    let s = Settings::parse("  key = some=value  \r\n\nno separator here\n   \nother=x");
    assert_eq!(
        pairs(&s),
        vec![
            ("  key ".to_string(), " some=value  ".to_string()),
            ("other".to_string(), "x".to_string()),
        ]
    );
}

#[test]
fn value_with_surrounding_whitespace_comes_back_as_set() {
    let mut file_handle = FileHandle::new(String::new(), "");
    file_handle.set_settings_value("k", " x").unwrap();
    file_handle.set_settings_value(" k ", "y\t").unwrap();
    let reloaded = FileHandle::new(String::new(), &file_handle.settings_text());
    assert_eq!(reloaded.get_settings_value("k").unwrap(), " x");
    assert_eq!(reloaded.get_settings_value(" k ").unwrap(), "y\t");
    assert_eq!(pairs(reloaded.get_settings()), pairs(file_handle.get_settings()));
}

#[test]
fn parse_later_duplicate_wins_and_empty_text_is_empty() {
    let s = Settings::parse("a=1\na=2\n");
    assert_eq!(s.get("a").unwrap(), "2");
    assert!(pairs(&Settings::parse("")).is_empty());
}

#[test]
fn lines_follow_line_endings() {
    assert_eq!(FileHandle::text_to_vec("a\r\nb\n\nc"), vec!["a", "b", "", "c"]);
    assert_eq!(FileHandle::text_to_vec("a\r"), vec!["a\r"]);
    assert!(FileHandle::text_to_vec("").is_empty());
    assert_eq!(FileHandle::text_to_vec("\n"), vec![""]);
}

#[test]
fn paths_are_kept() {
    let f = FileHandle::new("/r/.git/gitter".to_string(), "");
    assert_eq!(f.get_gitter_path(), "/r/.git/gitter");
    assert_eq!(f.settings_path(), "/r/.git/gitter/settings.txt");
}

#[test]
fn settings_path_is_settings_txt_in_directory() {
    assert_eq!(FileHandle::get_settings_path("/r/.git/gitter"), "/r/.git/gitter/settings.txt");
    assert_eq!(FileHandle::get_settings_path("dir/"), "dir/settings.txt");
    assert_eq!(FileHandle::get_settings_path(""), "settings.txt");
}
