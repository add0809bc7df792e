//! The two facts the library takes from the machine: where its data files
//! live and what time it is.

use vstd::prelude::*;

verus! {

#[verifier::external_type_specification]
#[verifier::external_body]
pub struct ExPathBuf(std::path::PathBuf);

#[verifier::external_type_specification]
#[verifier::external_body]
pub struct ExSystemTime(std::time::SystemTime);

/// Calls `std::path::Path::join`. Nothing is claimed of the joined path: how
/// paths are joined depends on the platform.
#[verifier::external_body]
fn join_path(dir: &std::path::PathBuf, name: &str) -> std::path::PathBuf {
    dir.join(name)
}

/// Calls `std::time::SystemTime::now`. Nothing is claimed: it reads the clock.
#[verifier::external_body]
fn system_now() -> std::time::SystemTime {
    std::time::SystemTime::now()
}

/// Calls `SystemTime::duration_since(UNIX_EPOCH)`; `None` when the time lies
/// before the epoch. Nothing is claimed of the duration.
#[verifier::external_body]
fn elapsed_since_unix_epoch(time: &std::time::SystemTime) -> Option<std::time::Duration> {
    time.duration_since(std::time::UNIX_EPOCH).ok()
}

/// Calls `Duration::as_secs`. Nothing is claimed: a duration is opaque here.
#[verifier::external_body]
fn whole_seconds(duration: &std::time::Duration) -> u64 {
    duration.as_secs()
}

/// The location of the data file `name` in the application's data directory.
pub fn path(data_dir: &std::path::PathBuf, name: &str) -> std::path::PathBuf {
    join_path(data_dir, name)
}

/// The seconds elapsed since the Unix epoch, or zero when the clock read
/// before it.
pub fn seconds_or_zero(elapsed: Option<u64>) -> (seconds: u64)
    ensures
        seconds == match elapsed {
            Some(s) => s,
            None => 0,
        },
{
    match elapsed {
        Some(s) => s,
        None => 0,
    }
}

/// Whole seconds since the Unix epoch, or zero when the clock reads earlier.
pub fn epoch() -> u64 {
    let now = system_now();
    let elapsed = match elapsed_since_unix_epoch(&now) {
        Some(duration) => Some(whole_seconds(&duration)),
        None => None,
    };
    seconds_or_zero(elapsed)
}

} // verus!
