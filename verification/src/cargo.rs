//! What is reported of the steps of an integration test run, each of which is a run of `cargo`.
use vstd::prelude::*;
use vstd::string::*;

verus! {

/// The outcome of a step that failed unless `success`, which `what` describes.
fn outcome(success: bool, what: &str) -> (r: Result<(), String>)
    ensures
        match r {
            Ok(_) => success,
            Err(message) => !success && message@ == what@,
        },
{
    if success {
        Ok(())
    } else {
        Err(what.to_owned())
    }
}

/// Reports whether `cargo clean` in the test program succeeded.
pub fn clean_test_app(success: bool) -> (r: Result<(), String>)
    ensures
        match r {
            Ok(_) => success,
            Err(message) => !success && message@ == "cleaning `test-flip-link-app`"@,
        },
{
    outcome(success, "cleaning `test-flip-link-app`")
}

/// Reports whether the installation of the local revision of `flip-link` succeeded.
pub fn install_flip_link(success: bool) -> (r: Result<(), String>)
    ensures
        match r {
            Ok(_) => success,
            Err(message) => !success && message@ == "installing flip-link from path"@,
        },
{
    outcome(success, "installing flip-link from path")
}

/// Reports whether `cargo test` succeeded.
pub fn test(success: bool) -> (r: Result<(), String>)
    ensures
        match r {
            Ok(_) => success,
            Err(message) => !success && message@ == "running `cargo test`"@,
        },
{
    outcome(success, "running `cargo test`")
}

} // verus!
