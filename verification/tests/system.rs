use binfmt_dispatcher::system::{acknowledged, get_page_size, DialogOutcome};

#[test]
fn page_size_of_a_successful_query() {
    assert_eq!(get_page_size(4096), Some(4096));
    assert_eq!(get_page_size(16384), Some(16384));
    assert_eq!(get_page_size(1), Some(1));
}

#[test]
fn page_size_of_a_failed_query() {
    assert_eq!(get_page_size(-1), None);
}

#[test]
fn page_size_of_other_answers() {
    assert_eq!(get_page_size(0), Some(0));
    assert_eq!(get_page_size(-2), None);
    assert_eq!(get_page_size(i64::MIN), None);
}

#[test]
fn affirmed_dialog_is_acknowledged() {
    assert!(acknowledged(DialogOutcome::Affirmed));
}

#[test]
fn missing_backend_is_not_acknowledged() {
    assert!(!acknowledged(DialogOutcome::Unavailable));
}

#[test]
fn dismissed_dialog_is_not_acknowledged() {
    assert!(!acknowledged(DialogOutcome::Rejected));
    assert!(!acknowledged(DialogOutcome::Unknown));
}
