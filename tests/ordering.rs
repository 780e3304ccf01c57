use core::cmp::Ordering;
use lvm::semver::{compare_versions, sort_versions_desc, version_key_of};

fn strings(v: &[&str]) -> Vec<String> {
    v.iter().map(|s| s.to_string()).collect()
}

#[test]
fn compare_newer_minor_is_greater() {
    assert_eq!(compare_versions("3.10.0", "3.9.0"), Ordering::Greater);
    assert_eq!(compare_versions("3.9.0", "3.10.0"), Ordering::Less);
}

#[test]
fn compare_pads_short_keys_with_zeros() {
    assert_eq!(compare_versions("3.10", "3.10.0"), Ordering::Equal);
    assert_eq!(compare_versions("3.10", "3.10.1"), Ordering::Less);
}

#[test]
fn compare_drops_unparsable_parts() {
    assert_eq!(compare_versions("3.12.0rc1", "3.12"), Ordering::Equal);
    assert_eq!(compare_versions("abc", ""), Ordering::Equal);
    assert_eq!(compare_versions("abc", "0.1"), Ordering::Less);
}

#[test]
fn key_reads_plus_sign_and_skips_overflow() {
    assert_eq!(version_key_of("+3.x.4294967296.7"), vec![3, 7]);
    assert_eq!(version_key_of("4294967295"), vec![4294967295]);
    assert_eq!(version_key_of("1..2"), vec![1, 2]);
}

#[test]
fn sort_is_descending() {
    let mut v = strings(&["3.9.0", "3.12.0", "3.11.5", "3.10.1"]);
    sort_versions_desc(&mut v);
    assert_eq!(v, strings(&["3.12.0", "3.11.5", "3.10.1", "3.9.0"]));
}

#[test]
fn sort_is_stable_for_equal_keys() {
    let mut v = strings(&["3.10.0", "3.9.0", "3.10", "3.12.0", "3.10.0.0"]);
    sort_versions_desc(&mut v);
    assert_eq!(v, strings(&["3.12.0", "3.10.0", "3.10", "3.10.0.0", "3.9.0"]));
}

#[test]
fn sort_empty_and_single() {
    let mut v: Vec<String> = Vec::new();
    sort_versions_desc(&mut v);
    assert!(v.is_empty());
    let mut w = strings(&["3.1.4"]);
    sort_versions_desc(&mut w);
    assert_eq!(w, strings(&["3.1.4"]));
}
