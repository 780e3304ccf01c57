use lvm::error::LvmError;
use lvm::python::{file_name_of, select_versions, str_eq, PythonInstaller};

#[test]
fn platform_tags() {
    let p = PythonInstaller::new();
    assert_eq!(p.get_platform("linux"), "linux");
    assert_eq!(p.get_platform("windows"), "windows");
    assert_eq!(p.get_platform("macos"), "macos");
    assert_eq!(p.get_platform("freebsd"), "unknown");
}

#[test]
fn arch_tags() {
    let p = PythonInstaller::new();
    assert_eq!(p.get_arch("x86_64"), "x86_64");
    assert_eq!(p.get_arch("aarch64"), "arm64");
    assert_eq!(p.get_arch("x86"), "unknown");
}

#[test]
fn download_urls() {
    let p = PythonInstaller::new();
    assert_eq!(
        p.download_url("3.12.0", "windows", "x86_64").unwrap(),
        "https://www.python.org/ftp/python/3.12.0/python-3.12.0-embed-amd64.zip"
    );
    assert_eq!(
        p.download_url("3.12.0", "windows", "unknown").unwrap(),
        "https://www.python.org/ftp/python/3.12.0/python-3.12.0-embed-win32.zip"
    );
    assert_eq!(
        p.download_url("3.11.5", "macos", "arm64").unwrap(),
        "https://www.python.org/ftp/python/3.11.5/python-3.11.5-macosx11.0.pkg"
    );
    assert_eq!(
        p.download_url("3.9.0", "linux", "x86_64").unwrap(),
        "https://www.python.org/ftp/python/3.9.0/Python-3.9.0.tgz"
    );
    assert!(matches!(
        p.download_url("3.9.0", "unknown", "x86_64"),
        Err(LvmError::UnsupportedPlatform(s)) if s == "unknown"
    ));
}

#[test]
fn file_names() {
    assert_eq!(file_name_of("https://www.python.org/ftp/python/3.9.0/Python-3.9.0.tgz"), "Python-3.9.0.tgz");
    assert_eq!(file_name_of("python.zip"), "python.zip");
    assert_eq!(file_name_of("a/b/"), "");
}

#[test]
fn select_keeps_python3_newest_first() {
    let m = vec![
        Some("3.9.0".to_string()),
        None,
        Some("2.7.18".to_string()),
        Some("3.10.1".to_string()),
        Some("30.1.0".to_string()),
    ];
    assert_eq!(select_versions(m).unwrap(), vec!["3.10.1".to_string(), "3.9.0".to_string()]);
}

#[test]
fn select_without_python3_is_parse_empty() {
    assert!(matches!(select_versions(vec![]), Err(LvmError::ParseEmpty)));
    assert!(matches!(select_versions(vec![Some("2.7.1".to_string()), None]), Err(LvmError::ParseEmpty)));
}

#[test]
fn listing_is_scraped_filtered_and_sorted() {
    let html = "<a href=\"3.9.0/\">3.9.0/</a>\n<a href=\"2.7.18/\">2.7.18/</a>\n\
                <a href=\"3.12.1/\">3.12.1/</a>\n<a href=\"3.10/\">3.10/</a>\n<a href=\"3.10.13/\">x</a>";
    let v = PythonInstaller::new().catalog_from_listing(html).unwrap();
    assert_eq!(v, vec!["3.12.1".to_string(), "3.10.13".to_string(), "3.9.0".to_string()]);
}

#[test]
fn listing_without_versions_is_parse_empty() {
    let r = PythonInstaller::new().catalog_from_listing("<html>nothing here</html>");
    assert!(matches!(r, Err(LvmError::ParseEmpty)));
}

#[test]
fn string_equality() {
    assert!(str_eq("python", "python"));
    assert!(!str_eq("python", "pythons"));
    assert!(!str_eq("", "a"));
}

#[test]
fn base_dir_prefers_the_override() {
    let p = PythonInstaller::new();
    assert_eq!(p.get_base_dir(Some("/srv/lvm".to_string()), "/home/u", "/"), "/srv/lvm");
    assert_eq!(p.get_base_dir(None, "/home/u", "/"), "/home/u/.lvm");
    assert_eq!(p.get_base_dir(None, "C:\\Users\\u", "\\"), "C:\\Users\\u\\.lvm");
}
