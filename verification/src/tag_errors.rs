//! What a call of the EXIF tag library answers when it fails: the library's last error
//! message where it left one, a message of the caller's otherwise.

use vstd::prelude::*;

verus! {

/// The message of a failed call: the library's last error `last_error`, or `fallback`
/// where it left none.
pub fn failure_message(last_error: Option<String>, fallback: String) -> (r: String)
    ensures
        r == match last_error {
            Some(m) => m,
            None => fallback,
        },
{
    match last_error {
        Some(m) => m,
        None => fallback,
    }
}

/// The answer to a tag that the library does not return: its last error where it left
/// one, otherwise no value (the tag is not set).
pub fn missing_tag(last_error: Option<String>) -> (r: Result<Option<String>, String>)
    ensures
        r == match last_error {
            Some(m) => Err::<Option<String>, String>(m),
            None => Ok::<Option<String>, String>(None),
        },
{
    match last_error {
        Some(m) => Err(m),
        None => Ok(None),
    }
}

/// The outcome of a call that reports `status`: success where it is 0, otherwise the
/// message of [`failure_message`].
pub fn status_result(status: i32, last_error: Option<String>, fallback: String) -> (r: Result<(), String>)
    ensures
        status == 0 ==> r == Ok::<(), String>(()),
        status != 0 ==> r == Err::<(), String>(
            match last_error {
                Some(m) => m,
                None => fallback,
            },
        ),
{
    if status == 0 {
        Ok(())
    } else {
        Err(failure_message(last_error, fallback))
    }
}

} // verus!
