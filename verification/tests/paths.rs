use std::path::Path;

use folder_watch::filter::should_include_file;
use folder_watch::model::StoredConfig;
use folder_watch::path::{file_name_text, has_hidden_component, relative_path};
use folder_watch::path_map::PathMap;
use folder_watch::model::StoredFingerprint;

fn sample_paths() -> Vec<&'static str> {
    vec![
        "", "/", ".", "..", "./", "../", "a", "a/", "a/b", "a//b", "/a", "//a", "/a/./b",
        "./a", "./.", "a/.", "a/..", "a/../b", "/.", "/..", ".a", "a/.b", "a/.b/c", ".a/b",
        "a.b", "a.b.c", ".a.b", "a.", "a..", "...", "a...", "..a", "/input", "/input/",
        "/input/a.txt", "/input/b/c.txt", "/input//b///c.txt", "/input/b/./c.txt",
        "/input/b/c.txt/", "/inputs/a.txt", "/input/a\\b.txt", "/input/\u{e4}.\u{f6}",
        "/input/.git/config", "input/a.txt",
    ]
}

#[test]
fn hidden_components_are_those_of_the_platform() {
    for path in sample_paths() {
        let hidden = Path::new(path)
            .components()
            .any(|c| c.as_os_str().to_str().map(|p| p.starts_with('.')).unwrap_or(false));
        assert_eq!(has_hidden_component(path.as_bytes()), hidden, "{}", path);
    }
}

#[test]
fn file_names_are_those_of_the_platform() {
    for path in sample_paths() {
        let name = Path::new(path).file_name().and_then(|n| n.to_str()).unwrap_or(path);
        assert_eq!(file_name_text(path), name, "{}", path);
    }
}

#[test]
fn extensions_are_those_of_the_platform() {
    for path in sample_paths() {
        for wanted in ["b", "c", "txt", "\u{f6}", "a", ""] {
            let config = StoredConfig {
                include_hidden: true,
                extensions: vec![wanted.to_string()],
                ..StoredConfig::default()
            };
            let is = !wanted.is_empty()
                && Path::new(path).extension().and_then(|e| e.to_str()) == Some(wanted);
            assert_eq!(should_include_file(path.as_bytes(), &config), is, "{} {}", path, wanted);
        }
    }
}

#[test]
fn relative_paths_are_those_of_the_platform() {
    for root in ["/input", "/input/", "/", "", "a", ".", "/input/b", "/input/./b/"] {
        for path in sample_paths() {
            let expected = Path::new(path)
                .strip_prefix(Path::new(root))
                .unwrap_or(Path::new(path))
                .to_string_lossy()
                .replace('\\', "/");
            assert_eq!(
                relative_path(root.as_bytes(), path.as_bytes()),
                expected,
                "{} below {}",
                path,
                root
            );
        }
    }
}

#[test]
fn bytes_that_are_no_text_are_replaced() {
    assert_eq!(relative_path(b"/in", b"/in/a\xffb"), "a\u{fffd}b");
    assert_eq!(relative_path(b"/in", b"/out/\xff"), "/out/\u{fffd}");
}

#[test]
fn slashes_stay_slashes() {
    let samples: Vec<&[u8]> = vec![
        b"/x\xe2\x82/y",
        b"/\xf0\x9f\x98/\xff/\xc3\xa9",
        b"/\xed\xa0\x80/\xc0\xaf/z",
        b"\x80/\xf4\x90\x80\x80//",
        b"/plain/path",
    ];
    for path in samples {
        let text = relative_path(b"/elsewhere", path);
        assert_eq!(text, String::from_utf8_lossy(path));
        let slashes = path.iter().filter(|b| **b == b'/').count();
        assert_eq!(text.chars().filter(|c| *c == '/').count(), slashes);
    }
    assert_eq!(relative_path(b"/elsewhere", "/\u{e9}\u{20ac}".as_bytes()), "/\u{e9}\u{20ac}");
}

#[test]
fn a_name_that_is_no_text_is_not_hidden() {
    assert!(has_hidden_component(b"/in/.a"));
    assert!(!has_hidden_component(b"/in/.\xff"));
}

#[test]
fn an_entry_lies_below_its_directory() {
    assert_eq!(relative_path(b"/input", b"/input/a.txt"), "a.txt");
    assert_eq!(relative_path(b"/input/", b"/input//a.txt"), "a.txt");
    assert_eq!(file_name_text("/input/a.txt"), "a.txt");
    assert!(has_hidden_component(b"/input/.a"));
    assert!(!has_hidden_component(b"/input/a"));
}

#[test]
fn a_path_is_hidden_if_a_name_on_the_way_is() {
    assert!(has_hidden_component(b"/input/a/.b/c"));
    assert!(has_hidden_component(b"/.input/a/b/c"));
    assert!(!has_hidden_component(b"/input/a/b/c"));
    assert_eq!(relative_path(b"/input", b"/input/a/.b/c"), "a/.b/c");
}

fn fingerprint(size_bytes: u64) -> StoredFingerprint {
    StoredFingerprint { size_bytes, modified_unix_ms: 0, sha256: String::new() }
}

#[test]
fn a_path_map_is_walked_in_the_order_of_the_paths() {
    let mut map: PathMap<StoredFingerprint> = PathMap::new();
    assert!(map.is_empty());
    let paths = vec!["b", "a/b", "\u{e4}", "a", "", "ab", "z"];
    for (i, path) in paths.iter().enumerate() {
        map.insert(path.to_string(), fingerprint(i as u64));
    }
    map.insert("ab".to_string(), fingerprint(50));
    assert_eq!(map.len(), 7);
    assert!(!map.is_empty());
    let mut sorted: Vec<String> = paths.iter().map(|path| path.to_string()).collect();
    sorted.sort();
    for (i, path) in sorted.iter().enumerate() {
        let (key, _value) = map.entry(i).unwrap();
        assert_eq!(key, path);
    }
    assert!(map.entry(7).is_none());
    assert_eq!(map.get("ab").unwrap().size_bytes, 50);
    assert_eq!(map.get("a/b").unwrap().size_bytes, 1);
    assert!(map.get("c").is_none());
    assert!(map.contains_key(""));
    assert!(!map.contains_key("c"));
}
