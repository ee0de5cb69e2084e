use archive_attachments::discovery::{is_metadata_file, merge_metadata, select_metadata_files};
use archive_attachments::error::{check_archive_layout, AttachmentError, IntegrityViolation};
use archive_attachments::paths::{
    attachment_path, attachments_dir_path, join_path, metadata_path, resolve, strip_archive_root,
};
use archive_attachments::ranking::{collect_sizes, label, label_attachments, rank_by_size};
use archive_attachments::record::Attachment;
use archive_attachments::text::{decimal, has_prefix, has_suffix, lex_less};

fn record(
    name: &str,
    pull_request: Option<&str>,
    issue: Option<&str>,
    issue_comment: Option<&str>,
) -> Attachment {
    Attachment {
        kind: "attachment".to_string(),
        url: format!("https://user-images.example.com/{}", name),
        pull_request: pull_request.map(|s| s.to_string()),
        issue: issue.map(|s| s.to_string()),
        issue_comment: issue_comment.map(|s| s.to_string()),
        user: "https://github.com/someone".to_string(),
        asset_name: name.to_string(),
        asset_content_type: "image/jpeg".to_string(),
        asset_url: format!("tarball://root/attachments/abc123/{}", name),
        created_at: "2021-01-01T00:00:00Z".to_string(),
    }
}

const NOT_FOUND_TAIL: &str = "This suggests that either (a) your archive contains no attachments or (b) you're not in a directory created when you extract a GitHub archive.";

#[test]
fn it_identifies_attachments() {
    let records = vec![record(
        "todd-trapani-QldMpmrmWuc-unsplash.jpg",
        Some("https://github.com/caffeinesoftware/rewardnights/pull/337"),
        None,
        None,
    )];
    let val = label_attachments(&records, &vec![144106]);
    assert_eq!(val, vec!["todd-trapani-QldMpmrmWuc-unsplash.jpg (https://github.com/caffeinesoftware/rewardnights/pull/337) - 144106 bytes"]);
}

#[test]
fn it_errors_if_expected_files_are_not_present() {
    let result = check_archive_layout(&Some("src".to_string()), false, false);
    match result {
        Ok(_val) => {
            panic!("process_attachments returned a value, but was expected to error");
        }
        Err(e) => {
            assert_eq!(e.message(), "Could not find `src/attachments_000001.json` file and/or `src/attachments/` directory. This suggests that either (a) your archive contains no attachments or (b) you're not in a directory created when you extract a GitHub archive.".to_string());
        }
    }
}

#[test]
fn single_pull_request_attachment_label() {
    let records = vec![record("photo.jpg", Some("PR-7"), None, None)];
    assert_eq!(
        label_attachments(&records, &vec![147561]),
        vec!["photo.jpg (PR-7) - 147561 bytes"]
    );
}

#[test]
fn two_attachments_larger_first() {
    let records = vec![
        record("small.png", Some("PR-1"), None, None),
        record("large.png", None, Some("ISSUE-2"), None),
    ];
    assert_eq!(
        label_attachments(&records, &vec![73780, 147561]),
        vec!["large.png (ISSUE-2) - 147561 bytes", "small.png (PR-1) - 73780 bytes"]
    );
}

#[test]
fn attachment_without_parent_is_skipped() {
    let records = vec![
        record("orphan.png", None, None, None),
        record("kept.png", None, None, Some("COMMENT-3")),
    ];
    assert_eq!(
        label_attachments(&records, &vec![500, 10]),
        vec!["kept.png (COMMENT-3) - 10 bytes"]
    );
    assert!(label(&records[0], 500).is_none());
}

#[test]
fn equal_sizes_keep_discovery_order() {
    let records = vec![
        record("a.png", Some("A"), None, None),
        record("b.png", Some("B"), None, None),
        record("c.png", Some("C"), None, None),
        record("d.png", Some("D"), None, None),
    ];
    assert_eq!(
        label_attachments(&records, &vec![5, 9, 5, 5]),
        vec!["b.png (B) - 9 bytes", "a.png (A) - 5 bytes", "c.png (C) - 5 bytes", "d.png (D) - 5 bytes"]
    );
}

#[test]
fn rank_by_size_orders_indices() {
    assert_eq!(rank_by_size(&vec![3, 8, 3, 0, 8]), vec![1, 4, 0, 2, 3]);
    assert_eq!(rank_by_size(&vec![]), Vec::<usize>::new());
}

#[test]
fn empty_metadata_gives_no_lines() {
    assert_eq!(label_attachments(&vec![], &vec![]), Vec::<String>::new());
}

#[test]
fn largest_size_is_rendered_in_full() {
    let records = vec![record("huge.bin", Some("PR"), None, None)];
    assert_eq!(
        label_attachments(&records, &vec![u64::MAX]),
        vec!["huge.bin (PR) - 18446744073709551615 bytes"]
    );
}

#[test]
fn parent_precedence_is_pull_request_issue_comment() {
    let r = record("x.png", Some("P"), Some("I"), Some("C"));
    assert_eq!(r.context().cloned(), Some("P".to_string()));
    let r = record("x.png", None, Some("I"), Some("C"));
    assert_eq!(r.context().cloned(), Some("I".to_string()));
    assert_eq!(label(&r, 1), Some("x.png (I) - 1 bytes".to_string()));
}

#[test]
fn merged_files_are_ranked_together() {
    let first = vec![record("one.png", Some("P1"), None, None)];
    let second = vec![
        record("two.png", Some("P2"), None, None),
        record("three.png", None, Some("I3"), None),
    ];
    let merged = merge_metadata(vec![first, vec![], second]);
    let names: Vec<String> = merged.iter().map(|a| a.asset_name.clone()).collect();
    assert_eq!(names, vec!["one.png", "two.png", "three.png"]);
    assert_eq!(
        label_attachments(&merged, &vec![10, 30, 20]),
        vec!["two.png (P2) - 30 bytes", "three.png (I3) - 20 bytes", "one.png (P1) - 10 bytes"]
    );
}

#[test]
fn missing_layout_in_current_directory() {
    let e = check_archive_layout(&None, false, false).unwrap_err();
    assert_eq!(
        e.message(),
        format!(
            "Could not find `attachments_000001.json` file and/or `attachments/` directory. {}",
            NOT_FOUND_TAIL
        )
    );
    assert!(check_archive_layout(&None, true, false).is_err());
    assert!(check_archive_layout(&None, false, true).is_err());
    assert!(check_archive_layout(&None, true, true).is_ok());
}

#[test]
fn not_found_error_names_both_paths() {
    let e = check_archive_layout(&Some("export/".to_string()), true, false).unwrap_err();
    let text = e.message();
    assert!(text.contains("export/attachments_000001.json"));
    assert!(text.contains("export/attachments/"));
    match e {
        AttachmentError::NotFound { metadata_path, attachments_path } => {
            assert_eq!(metadata_path, "export/attachments_000001.json");
            assert_eq!(attachments_path, "export/attachments");
        }
        AttachmentError::DataFormat { .. } => panic!("wrong error kind"),
    }
}

#[test]
fn unparsable_metadata_is_a_data_format_error() {
    let detail = match serde_json::from_str::<serde_json::Value>("[{\"type\": ") {
        Ok(_) => panic!("truncated JSON parsed"),
        Err(err) => err.to_string(),
    };
    let e = AttachmentError::DataFormat {
        path: "attachments_000001.json".to_string(),
        detail: detail.clone(),
    };
    assert_eq!(
        e.message(),
        format!("Could not parse `attachments_000001.json`: {}", detail)
    );
}

#[test]
fn integrity_violation_message() {
    let v = IntegrityViolation { path: "attachments/abc/photo.jpg".to_string() };
    assert_eq!(v.message(), "Could not find listed attachment file `attachments/abc/photo.jpg`. Please make sure you're running this tool in the directory created when you extract a GitHub archive.");
}

#[test]
fn collect_sizes_stops_at_first_missing_file() {
    let paths = vec!["a".to_string(), "b".to_string(), "c".to_string()];
    assert_eq!(
        collect_sizes(&paths, &vec![Some(1), Some(2), Some(3)]).ok(),
        Some(vec![1, 2, 3])
    );
    match collect_sizes(&paths, &vec![Some(1), None, None]) {
        Ok(_) => panic!("missing file accepted"),
        Err(v) => assert_eq!(v.path, "b"),
    }
}

#[test]
fn decimal_rendering() {
    assert_eq!(decimal(0), "0");
    assert_eq!(decimal(7), "7");
    assert_eq!(decimal(10), "10");
    assert_eq!(decimal(147561), "147561");
}

#[test]
fn path_joining() {
    assert_eq!(join_path("src", "attachments"), "src/attachments");
    assert_eq!(join_path("src/", "attachments"), "src/attachments");
    assert_eq!(join_path("", "attachments"), "attachments");
    assert_eq!(join_path("src", "/abs/file"), "/abs/file");
    assert_eq!(resolve(&None, "x.json"), "x.json");
    assert_eq!(metadata_path(&Some("d".to_string())), "d/attachments_000001.json");
    assert_eq!(attachments_dir_path(&None), "attachments");
}

#[test]
fn archive_root_is_stripped() {
    assert_eq!(strip_archive_root("tarball://root/attachments/a/b.png"), "attachments/a/b.png");
    assert_eq!(strip_archive_root("attachments/a/b.png"), "attachments/a/b.png");
    assert_eq!(strip_archive_root("tarball://root"), "tarball://root");
    let r = record("photo.jpg", Some("P"), None, None);
    assert_eq!(attachment_path(&Some("fixtures".to_string()), &r), "fixtures/attachments/abc123/photo.jpg");
    assert_eq!(attachment_path(&None, &r), "attachments/abc123/photo.jpg");
}

#[test]
fn metadata_files_are_chosen_and_sorted() {
    let names: Vec<String> = vec![
        "attachments_000002.json",
        "issues_000001.json",
        "attachments",
        "attachments_000001.json",
        "attachments_000010.json",
        "attachments_000003.txt",
    ]
    .into_iter()
    .map(|s| s.to_string())
    .collect();
    assert_eq!(
        select_metadata_files(&names),
        vec!["attachments_000001.json", "attachments_000002.json", "attachments_000010.json"]
    );
    assert!(is_metadata_file("attachments_.json"));
    assert!(!is_metadata_file("attachments.json"));
}

#[test]
fn text_helpers() {
    assert!(has_prefix("abc", "ab"));
    assert!(!has_prefix("ab", "abc"));
    assert!(has_suffix("abc", "bc"));
    assert!(!has_suffix("abc", "ab"));
    assert!(lex_less("ab", "abc"));
    assert!(lex_less("abc", "abd"));
    assert!(!lex_less("b", "abc"));
    assert!(!lex_less("same", "same"));
}
