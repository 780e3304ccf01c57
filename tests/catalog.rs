use lvm::catalog::{build_page, contains_str, filter_versions, PageResult};
use lvm::error::LvmError;
use lvm::manager::{Language, LanguageManager};

fn strings(v: &[&str]) -> Vec<String> {
    v.iter().map(|s| s.to_string()).collect()
}

fn records(p: &PageResult) -> Vec<(String, bool, bool)> {
    p.list.iter().map(|r| (r.version.clone(), r.install_status, r.use_status)).collect()
}

fn scenario(page: usize, page_size: usize, key_word: Option<&str>) -> Result<PageResult, LvmError> {
    let m = LanguageManager::new("python".to_string()).unwrap();
    m.list_versions(
        page,
        page_size,
        key_word,
        Ok(strings(&["3.12.0", "3.11.5", "3.9.0"])),
        Ok(strings(&["3.11.5"])),
        Ok(Some("3.11.5".to_string())),
    )
}

#[test]
fn first_page_of_three() {
    let p = scenario(0, 2, None).unwrap();
    assert_eq!(p.total, 3);
    assert_eq!(
        records(&p),
        vec![("3.12.0".to_string(), false, false), ("3.11.5".to_string(), true, true)]
    );
}

#[test]
fn second_page_of_three() {
    let p = scenario(1, 2, None).unwrap();
    assert_eq!(p.total, 3);
    assert_eq!(records(&p), vec![("3.9.0".to_string(), false, false)]);
}

#[test]
fn page_past_the_end_is_empty() {
    let p = scenario(5, 2, None).unwrap();
    assert_eq!(p.total, 3);
    assert!(p.list.is_empty());
}

#[test]
fn huge_page_number_is_empty() {
    let p = scenario(usize::MAX, usize::MAX, None).unwrap();
    assert_eq!(p.total, 3);
    assert!(p.list.is_empty());
}

#[test]
fn page_size_zero_is_refused() {
    assert!(matches!(scenario(0, 0, None), Err(LvmError::InvalidPageSize)));
}

#[test]
fn page_lengths_follow_the_formula() {
    for page in 0..6usize {
        for size in 1..5usize {
            let p = scenario(page, size, None).unwrap();
            let rest = 3i64 - (page * size) as i64;
            let want = rest.max(0).min(size as i64) as usize;
            assert_eq!(p.list.len(), want);
        }
    }
}

#[test]
fn empty_keyword_filters_nothing() {
    assert_eq!(scenario(0, 10, Some("")).unwrap().total, 3);
    assert_eq!(scenario(0, 10, None).unwrap().total, 3);
}

#[test]
fn keyword_keeps_matching_versions() {
    let p = scenario(0, 10, Some("3.11")).unwrap();
    assert_eq!(p.total, 1);
    assert_eq!(records(&p), vec![("3.11.5".to_string(), true, true)]);
    let q = scenario(0, 10, Some("4.")).unwrap();
    assert_eq!(q.total, 0);
}

#[test]
fn catalog_is_sorted_before_paging() {
    let m = LanguageManager::new("python".to_string()).unwrap();
    let p = m
        .list_versions(0, 2, None, Ok(strings(&["3.9.0", "3.12.0", "3.10.2"])), Ok(vec![]), Ok(None))
        .unwrap();
    assert_eq!(
        records(&p),
        vec![("3.12.0".to_string(), false, false), ("3.10.2".to_string(), false, false)]
    );
}

#[test]
fn dangling_marker_marks_nothing_active() {
    let p = build_page(
        &strings(&["3.12.0", "3.11.5"]),
        &strings(&["3.12.0"]),
        &Some("3.11.5".to_string()),
        0,
        5,
        None,
    )
    .unwrap();
    assert_eq!(
        records(&p),
        vec![("3.12.0".to_string(), true, false), ("3.11.5".to_string(), false, false)]
    );
    for r in &p.list {
        assert!(!r.use_status || r.install_status);
    }
}

#[test]
fn backend_errors_fail_the_request() {
    let m = LanguageManager::new("python".to_string()).unwrap();
    let r = m.list_versions(0, 2, None, Err(LvmError::Network("down".to_string())), Ok(vec![]), Ok(None));
    assert!(matches!(r, Err(LvmError::Network(s)) if s == "down"));
    let r = m.list_versions(0, 2, None, Ok(vec![]), Err(LvmError::Io("denied".to_string())), Ok(None));
    assert!(matches!(r, Err(LvmError::Io(s)) if s == "denied"));
    let r = m.list_versions(0, 2, None, Ok(vec![]), Ok(vec![]), Err(LvmError::Io("marker".to_string())));
    assert!(matches!(r, Err(LvmError::Io(s)) if s == "marker"));
}

#[test]
fn unknown_language_is_refused() {
    assert!(matches!(
        LanguageManager::new("ruby".to_string()),
        Err(LvmError::UnsupportedLanguage(s)) if s == "ruby"
    ));
    assert!(LanguageManager::new("Python".to_string()).is_err());
    assert_eq!(LanguageManager::new("python".to_string()).unwrap().language(), Language::Python);
}

#[test]
fn substring_search() {
    assert!(contains_str("3.11.5", "3.11"));
    assert!(contains_str("3.11.5", ""));
    assert!(contains_str("3.11.5", "1.5"));
    assert!(!contains_str("3.11.5", "3.12"));
    assert!(!contains_str("3.1", "3.11"));
}

#[test]
fn filter_keeps_order() {
    let all = strings(&["3.12.1", "3.11.2", "3.1.2", "3.11.0"]);
    assert_eq!(filter_versions(&all, Some("3.11")), strings(&["3.11.2", "3.11.0"]));
    assert_eq!(filter_versions(&all, Some("")), all);
    assert_eq!(filter_versions(&all, None), all);
}

#[test]
fn keyword_total_counts_the_unordered_catalog() {
    let m = LanguageManager::new("python".to_string()).unwrap();
    let p = m
        .list_versions(
            0,
            1,
            Some("3.11"),
            Ok(strings(&["3.11.0", "3.9.0", "3.11.4", "3.12.0", "3.11.2"])),
            Ok(vec![]),
            Ok(None),
        )
        .unwrap();
    assert_eq!(p.total, 3);
    assert_eq!(records(&p), vec![("3.11.4".to_string(), false, false)]);
}
