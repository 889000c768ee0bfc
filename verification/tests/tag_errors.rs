use kapy_exif::tag_errors::{failure_message, missing_tag, status_result};

#[test]
fn failure_message_prefers_the_library_error() {
    assert_eq!(failure_message(Some("bad blob".to_string()), "fallback".to_string()), "bad blob");
    assert_eq!(failure_message(None, "fallback".to_string()), "fallback");
}

#[test]
fn missing_tag_is_an_error_only_where_the_library_reports_one() {
    assert_eq!(missing_tag(Some("no such tag".to_string())), Err("no such tag".to_string()));
    assert_eq!(missing_tag(None), Ok(None));
}

#[test]
fn status_result_fails_only_on_a_nonzero_status() {
    assert_eq!(status_result(0, Some("ignored".to_string()), "fallback".to_string()), Ok(()));
    assert_eq!(
        status_result(1, Some("bad blob".to_string()), "fallback".to_string()),
        Err("bad blob".to_string())
    );
    assert_eq!(status_result(-1, None, "fallback".to_string()), Err("fallback".to_string()));
}
