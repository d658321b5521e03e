use photonyx::version::{px_self_version, tag_distance, version, BuildEnv, CommitInfo, SelfVersionInfo};

fn commit(n: u32) -> CommitInfo {
    CommitInfo {
        short_commit_hash: "53b0f5d92".to_string(),
        commit_hash: "53b0f5d924110e5b26fbf09f6fd3a03d67b475b7".to_string(),
        last_tag: Some("v0.0.1".to_string()),
        commit_date: "2023-10-19".to_string(),
        commits_since_last_tag: n,
    }
}

#[test]
fn test_get_version() {
    assert_eq!(version().to_string(), "0.1.0".to_string());
}

#[test]
fn version_formatting() {
    let version = SelfVersionInfo {
        package_name: "px".to_string(),
        version: "0.0.0".to_string(),
        commit_info: None,
        target_triple: "x86_64-unknown-linux-gnu".to_string(),
    };
    assert_eq!(version.display_text(), "0.0.0 (x86_64-unknown-linux-gnu)");
}

#[test]
fn version_formatting_with_commit_info() {
    let version = SelfVersionInfo {
        package_name: "px".to_string(),
        version: "0.0.0".to_string(),
        commit_info: Some(commit(0)),
        target_triple: "x86_64-unknown-linux-gnu".to_string(),
    };
    assert_eq!(version.display_text(), "0.0.0 (53b0f5d92 2023-10-19 x86_64-unknown-linux-gnu)");
}

#[test]
fn version_formatting_with_commits_since_last_tag() {
    let version = SelfVersionInfo {
        package_name: "px".to_string(),
        version: "0.0.0".to_string(),
        commit_info: Some(commit(24)),
        target_triple: "x86_64-unknown-linux-gnu".to_string(),
    };
    assert_eq!(version.display_text(), "0.0.0+24 (53b0f5d92 2023-10-19 x86_64-unknown-linux-gnu)");
}

#[test]
fn commit_info_display_text() {
    assert_eq!(commit(0).display_text(), " (53b0f5d92 2023-10-19)");
    assert_eq!(commit(3).display_text(), "+3 (53b0f5d92 2023-10-19)");
}

#[test]
fn tag_distance_parses_a_count() {
    assert_eq!(tag_distance("3"), 3);
    assert_eq!(tag_distance("+7"), 7);
    assert_eq!(tag_distance("4294967295"), 4294967295);
}

#[test]
fn tag_distance_is_zero_when_not_a_count() {
    assert_eq!(tag_distance(""), 0);
    assert_eq!(tag_distance("+"), 0);
    assert_eq!(tag_distance("-1"), 0);
    assert_eq!(tag_distance("12a"), 0);
    assert_eq!(tag_distance("4294967296"), 0);
}

#[test]
fn self_version_without_commit() {
    let v = px_self_version(BuildEnv {
        commit_hash: None,
        commit_short_hash: None,
        commit_date: None,
        last_tag: None,
        last_tag_distance: None,
        target_triple: "x86_64-unknown-linux-gnu".to_string(),
    });
    assert_eq!(v.package_name, "px");
    assert_eq!(v.version, "0.1.0");
    assert!(v.commit_info.is_none());
    assert_eq!(v.display_text(), "0.1.0 (x86_64-unknown-linux-gnu)");
}

#[test]
fn self_version_with_commit() {
    let v = px_self_version(BuildEnv {
        commit_hash: Some("53b0f5d924110e5b26fbf09f6fd3a03d67b475b7".to_string()),
        commit_short_hash: Some("53b0f5d92".to_string()),
        commit_date: Some("2023-10-19".to_string()),
        last_tag: Some("v0.0.1".to_string()),
        last_tag_distance: Some("33".to_string()),
        target_triple: "x86_64-unknown-linux-gnu".to_string(),
    });
    let ci = v.commit_info.clone().unwrap();
    assert_eq!(ci.commits_since_last_tag, 33);
    assert_eq!(ci.last_tag.as_deref(), Some("v0.0.1"));
    assert_eq!(v.display_text(), "0.1.0+33 (53b0f5d92 2023-10-19 x86_64-unknown-linux-gnu)");
}
