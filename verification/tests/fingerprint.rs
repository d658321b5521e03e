use std::path::PathBuf;

use photonyx::config::{ObservationEntry, ProjectLinearStack};
use photonyx::fingerprint::{hash_linear_stack, stack_fingerprint};
use sha2::Digest;

fn sha_hex(s: &str) -> String {
    let mut h = sha2::Sha256::new();
    h.update(s.as_bytes());
    h.finalize().iter().map(|b| format!("{b:02x}")).collect()
}

#[test]
fn fingerprint_hashes_name_filter_option_and_sorted_paths() {
    let paths = vec!["/obs/b".to_string(), "/obs/a".to_string(), "/obs/ab".to_string()];
    let got = stack_fingerprint("M31", &Some("Ha".to_string()), true, &paths);
    assert_eq!(got, sha_hex("M31|Some(\"Ha\")|true|/obs/a|/obs/ab|/obs/b"));
    assert_eq!(got.len(), 64);
    let none = stack_fingerprint("M31", &None, false, &Vec::new());
    assert_eq!(none, sha_hex("M31|None|false|"));
}

#[test]
fn hash_linear_stack_ignores_observation_order() {
    let mk = |ps: &[&str]| ProjectLinearStack {
        profile: PathBuf::from("/profile"),
        name: "NGC7000".to_string(),
        panel: None,
        comments: None,
        filter: Some("OIII".to_string()),
        extract_background: false,
        observations: ps.iter().map(|p| ObservationEntry { path: p.to_string() }).collect(),
    };
    let a = hash_linear_stack(&mk(&["/x/2", "/x/1"]));
    let b = hash_linear_stack(&mk(&["/x/1", "/x/2"]));
    assert_eq!(a, b);
    assert_eq!(a, sha_hex("NGC7000|Some(\"OIII\")|false|/x/1|/x/2"));
    assert_ne!(a, hash_linear_stack(&mk(&["/x/1"])));
    assert_eq!(a.len(), 64);
    assert!(a.chars().all(|c| c.is_ascii_digit() || ('a'..='f').contains(&c)));
}
