use folder_watch::digest::{hex_lower, sha256_hex};
use folder_watch::json::{change_bytes, kind_label, observed_change_to_json};
use folder_watch::model::{ObservedChange, ObservedChangeKind};

fn deleted() -> ObservedChange {
    ObservedChange {
        watcher: "w".to_string(),
        stream_name: "s".to_string(),
        change_kind: ObservedChangeKind::Deleted,
        absolute_path: "/in/a \"b\"".to_string(),
        relative_path: "a".to_string(),
        size_bytes: None,
        modified_unix_ms: None,
        sha256: None,
        detected_at: "t".to_string(),
    }
}

#[test]
fn what_a_change_does_not_have_is_null() {
    let json = observed_change_to_json(&deleted());
    assert!(json["size_bytes"].is_null());
    assert!(json["modified_unix_ms"].is_null());
    assert!(json["sha256"].is_null());
    assert_eq!(json["change_kind"], "deleted");
    assert_eq!(json.as_object().unwrap().len(), 9);
}

#[test]
fn the_members_are_written_in_the_order_of_their_names() {
    let expected = "{\"absolute_path\":\"/in/a \\\"b\\\"\",\"change_kind\":\"deleted\",\
        \"detected_at\":\"t\",\"modified_unix_ms\":null,\"relative_path\":\"a\",\
        \"sha256\":null,\"size_bytes\":null,\"stream\":\"s\",\"watcher\":\"w\"}";
    assert_eq!(String::from_utf8(change_bytes(&deleted())).unwrap(), expected);
}

#[test]
fn numbers_are_written_in_full() {
    let change = ObservedChange {
        change_kind: ObservedChangeKind::Modified,
        size_bytes: Some(u64::MAX),
        modified_unix_ms: Some(0),
        sha256: Some("x".to_string()),
        ..deleted()
    };
    let json = observed_change_to_json(&change);
    assert_eq!(json["size_bytes"].as_u64(), Some(u64::MAX));
    assert_eq!(json["modified_unix_ms"].as_u64(), Some(0));
    let text = String::from_utf8(change_bytes(&change)).unwrap();
    assert!(text.contains("\"size_bytes\":18446744073709551615"));
    assert!(text.contains("\"change_kind\":\"modified\""));
}

#[test]
fn each_kind_has_its_word() {
    assert_eq!(kind_label(ObservedChangeKind::Created), "created");
    assert_eq!(kind_label(ObservedChangeKind::Modified), "modified");
    assert_eq!(kind_label(ObservedChangeKind::Deleted), "deleted");
}

#[test]
fn digests_are_those_of_sha_256() {
    assert_eq!(
        sha256_hex(b"hello"),
        "2cf24dba5fb0a30e26e83b2ac5b9e29e1b161e5c1fa7425e73043362938b9824"
    );
    assert_eq!(
        sha256_hex(b""),
        "e3b0c44298fc1c149afbf4c8996fb92427ae41e4649b934ca495991b7852b855"
    );
}

#[test]
fn bytes_are_written_with_two_digits_each() {
    assert_eq!(hex_lower(b""), "");
    assert_eq!(hex_lower(&[0, 9, 10, 15, 16, 0xab, 0xff]), "00090a0f10abff");
    assert_ne!(hex_lower(&[0x01, 0x0f]), hex_lower(&[0x10, 0x0f]));
}
