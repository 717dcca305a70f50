use folder_watch::filter::should_include_file;
use folder_watch::model::StoredConfig;

fn with_extensions(extensions: Vec<&str>) -> StoredConfig {
    StoredConfig {
        extensions: extensions.iter().map(|e| e.to_string()).collect(),
        ..StoredConfig::default()
    }
}

#[test]
fn without_extensions_every_file_is_watched() {
    let config = with_extensions(vec![]);
    assert!(should_include_file(b"/input/a.txt", &config));
    assert!(should_include_file(b"/input/noext", &config));
}

#[test]
fn hidden_files_are_watched_if_configured() {
    let config = StoredConfig { include_hidden: true, ..StoredConfig::default() };
    assert!(should_include_file(b"/input/.secret", &config));
    assert!(should_include_file(b"/input/.dir/file.txt", &config));
}

#[test]
fn a_file_without_extension_has_no_listed_one() {
    let config = with_extensions(vec!["txt"]);
    assert!(!should_include_file(b"/input/txt", &config));
    assert!(!should_include_file(b"/input/a.", &config));
    assert!(!should_include_file(b"/input/a.\xff", &config));
    assert!(should_include_file(b"/input/a.b.txt", &config));
}

#[test]
fn empty_entries_list_nothing() {
    let config = with_extensions(vec!["", " ", ".", " .. "]);
    assert!(!should_include_file(b"/input/a.txt", &config));
    assert!(!should_include_file(b"/input/a.", &config));
    assert!(!should_include_file(b"/input/a", &config));
}

#[test]
fn white_space_round_an_entry_is_trimmed() {
    for entry in ["txt", " txt ", "\ttxt\n", "\u{3000}txt\u{a0}", "\u{2028}.txt\u{85}"] {
        let config = with_extensions(vec![entry]);
        assert!(should_include_file(b"/input/a.txt", &config));
        assert!(!should_include_file(b"/input/a.rs", &config));
    }
    let inner = with_extensions(vec!["t xt"]);
    assert!(!should_include_file(b"/input/a.txt", &inner));
    assert!(should_include_file(b"/input/a.t xt", &inner));
    let after_the_dot = with_extensions(vec![". txt"]);
    assert!(!should_include_file(b"/input/a.txt", &after_the_dot));
    assert!(should_include_file(b"/input/a. txt", &after_the_dot));
}

#[test]
fn leading_dots_of_an_entry_are_trimmed() {
    let config = with_extensions(vec!["...txt"]);
    assert!(should_include_file(b"/input/a.txt", &config));
    let inner = with_extensions(vec!["tar.gz"]);
    assert!(!should_include_file(b"/input/a.tar.gz", &inner));
}

#[test]
fn only_ascii_letters_are_compared_without_case() {
    let config = with_extensions(vec!["\u{c4}B"]);
    assert!(should_include_file("/input/x.\u{c4}b".as_bytes(), &config));
    assert!(!should_include_file("/input/x.\u{e4}b".as_bytes(), &config));
}

#[test]
fn white_space_is_that_of_the_platform() {
    for code in 0..0x3100u32 {
        if let Some(c) = char::from_u32(code) {
            if c == '.' || c == '/' || c == '\0' {
                continue;
            }
            let entry = format!("{}txt", c);
            let config = with_extensions(vec![entry.as_str()]);
            assert_eq!(should_include_file(b"/input/a.txt", &config), c.is_whitespace(), "{}", code);
        }
    }
}
