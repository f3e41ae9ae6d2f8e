use codegen_sync::{ensure_trailing_newline, rustfmt_reports_nightly, TOOLCHAIN};

#[test]
fn appends_missing_newline() {
    assert_eq!(ensure_trailing_newline(String::from("fn a() {}")), "fn a() {}\n");
}

#[test]
fn keeps_existing_newline() {
    assert_eq!(ensure_trailing_newline(String::from("fn a() {}\n")), "fn a() {}\n");
}

#[test]
fn empty_output_gets_newline() {
    assert_eq!(ensure_trailing_newline(String::new()), "\n");
}

#[test]
fn trailing_newline_is_stable() {
    let once = ensure_trailing_newline(String::from("x"));
    assert_eq!(ensure_trailing_newline(once.clone()), once);
}

#[test]
fn nightly_version_accepted() {
    assert!(rustfmt_reports_nightly("rustfmt 1.5.1-nightly (5e37043d 2022-09-22)\n"));
    assert!(rustfmt_reports_nightly("nightly"));
}

#[test]
fn stable_or_missing_version_refused() {
    assert!(!rustfmt_reports_nightly("rustfmt 1.5.1-stable (2022-09-22)"));
    assert!(!rustfmt_reports_nightly(""));
    assert!(!rustfmt_reports_nightly("nightl"));
}

#[test]
fn toolchain_is_pinned() {
    assert_eq!(TOOLCHAIN, "nightly-2022-09-23");
}
