use lvm::catalog::build_page;
use lvm::error::LvmError;
use lvm::lifecycle::{prepend_search_path, InstallState};

fn strings(v: &[&str]) -> Vec<String> {
    v.iter().map(|s| s.to_string()).collect()
}

#[test]
fn install_twice_is_idempotent() {
    let mut s = InstallState::new(strings(&["3.9.0"]), None);
    let v = "3.11.5".to_string();
    assert!(s.needs_install(&v));
    s.record_install(v.clone());
    assert!(!s.needs_install(&v));
    s.record_install(v.clone());
    assert_eq!(s.installed, strings(&["3.9.0", "3.11.5"]));
}

#[test]
fn new_state_drops_repeated_versions() {
    let s = InstallState::new(strings(&["3.9.0", "3.9.0", "3.10.1"]), None);
    assert_eq!(s.installed, strings(&["3.9.0", "3.10.1"]));
}

#[test]
fn activate_needs_install() {
    let mut s = InstallState::new(strings(&["3.9.0"]), None);
    let r = s.activate(&"3.11.5".to_string());
    assert!(matches!(r, Err(LvmError::NotInstalled(v)) if v == "3.11.5"));
    assert_eq!(s.active, None);
    assert!(s.activate(&"3.9.0".to_string()).is_ok());
    assert_eq!(s.active, Some("3.9.0".to_string()));
}

#[test]
fn activate_demotes_previous() {
    let mut s = InstallState::new(strings(&["3.9.0", "3.10.1"]), Some("3.9.0".to_string()));
    assert!(s.activate(&"3.10.1".to_string()).is_ok());
    assert_eq!(s.active, Some("3.10.1".to_string()));
    assert_eq!(s.installed, strings(&["3.9.0", "3.10.1"]));
}

#[test]
fn uninstall_active_clears_marker() {
    let mut s = InstallState::new(strings(&["3.11.5", "3.9.0"]), Some("3.11.5".to_string()));
    let r = s.uninstall(&"3.11.5".to_string());
    assert!(matches!(r, Ok(true)));
    assert_eq!(s.active, None);
    assert_eq!(s.installed, strings(&["3.9.0"]));
    let p = build_page(&strings(&["3.11.5"]), &s.installed, &s.active, 0, 1, None).unwrap();
    assert!(!p.list[0].install_status);
    assert!(!p.list[0].use_status);
}

#[test]
fn uninstall_other_keeps_marker() {
    let mut s = InstallState::new(strings(&["3.11.5", "3.9.0"]), Some("3.11.5".to_string()));
    assert!(matches!(s.uninstall(&"3.9.0".to_string()), Ok(false)));
    assert_eq!(s.active, Some("3.11.5".to_string()));
}

#[test]
fn uninstall_missing_is_refused() {
    let mut s = InstallState::new(strings(&["3.9.0"]), None);
    let r = s.uninstall(&"3.8.0".to_string());
    assert!(matches!(r, Err(LvmError::NotInstalled(v)) if v == "3.8.0"));
    assert_eq!(s.installed, strings(&["3.9.0"]));
}

#[test]
fn search_path_is_prepended() {
    assert_eq!(
        prepend_search_path("./pyvm/versions/3.9.0/Scripts", ";", "C:\\bin"),
        "./pyvm/versions/3.9.0/Scripts;C:\\bin"
    );
    assert_eq!(prepend_search_path("/opt/py/bin", ":", ""), "/opt/py/bin:");
}
