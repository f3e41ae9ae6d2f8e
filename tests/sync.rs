use codegen_sync::{
    ci_hint, decimal_string, ensure_file_contents, ensure_files_contents, summary_message,
    SyncOutcome,
};

#[test]
fn equal_content_is_unchanged() {
    assert_eq!(ensure_file_contents("a\nb\n", "a\nb\n"), SyncOutcome::Unchanged);
}

#[test]
fn line_endings_do_not_count() {
    assert_eq!(ensure_file_contents("a\r\nb\r\n", "a\nb\n"), SyncOutcome::Unchanged);
    assert_eq!(ensure_file_contents("a\nb\n", "a\r\nb\r\n"), SyncOutcome::Unchanged);
}

#[test]
fn different_content_is_updated() {
    assert_eq!(ensure_file_contents("a\nb\n", "a\nc\n"), SyncOutcome::UpdatedOnDisk);
    assert_eq!(ensure_file_contents("", "x"), SyncOutcome::UpdatedOnDisk);
}

#[test]
fn second_run_is_unchanged() {
    let expected = "fn x() {}\n";
    let first = ensure_file_contents("fn y() {}\n", expected);
    assert_eq!(first, SyncOutcome::UpdatedOnDisk);
    let on_disk = expected;
    assert_eq!(ensure_file_contents(on_disk, expected), SyncOutcome::Unchanged);
}

#[test]
fn one_correct_one_drifted_then_rerun() {
    let a_expected = String::from("// a\n");
    let b_expected = String::from("// b new\n");
    let units = vec![
        (a_expected.clone(), a_expected.clone()),
        (String::from("// b old\n"), b_expected.clone()),
    ];
    let report = ensure_files_contents(&units);
    assert_eq!(report.outcomes, vec![SyncOutcome::Unchanged, SyncOutcome::UpdatedOnDisk]);
    assert_eq!(report.updated, 1);
    let msg = summary_message(report.updated).unwrap();
    assert!(msg.starts_with("1 file was not up to date"));

    let rerun = vec![(a_expected.clone(), a_expected), (b_expected.clone(), b_expected)];
    let second = ensure_files_contents(&rerun);
    assert_eq!(second.outcomes, vec![SyncOutcome::Unchanged, SyncOutcome::Unchanged]);
    assert_eq!(second.updated, 0);
    assert_eq!(summary_message(second.updated), None);
}

#[test]
fn empty_batch_updates_nothing() {
    let report = ensure_files_contents(&Vec::new());
    assert!(report.outcomes.is_empty());
    assert_eq!(report.updated, 0);
}

#[test]
fn summary_plural() {
    assert_eq!(
        summary_message(3).unwrap(),
        "3 files were not up to date and have been updated, simply re-run the tests"
    );
}

#[test]
fn summary_singular() {
    assert_eq!(
        summary_message(1).unwrap(),
        "1 file was not up to date and has been updated, simply re-run the tests"
    );
}

#[test]
fn decimal_digits() {
    assert_eq!(decimal_string(0), "0");
    assert_eq!(decimal_string(7), "7");
    assert_eq!(decimal_string(1204), "1204");
    assert_eq!(decimal_string(usize::MAX), usize::MAX.to_string());
}

#[test]
fn ci_hint_only_in_ci() {
    assert!(ci_hint(true).unwrap().contains("commit the updated files"));
    assert_eq!(ci_hint(false), None);
}
