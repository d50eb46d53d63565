//! Wall-clock seconds.

use vstd::prelude::*;

verus! {

#[verifier::external_type_specification]
#[verifier::external_body]
pub struct ExSystemTime(std::time::SystemTime);

#[verifier::external_type_specification]
#[verifier::external_body]
pub struct ExSystemTimeError(std::time::SystemTimeError);

/// `SystemTime::now` reads the clock: nothing is claimed of what it shows.
pub assume_specification[ std::time::SystemTime::now ]() -> std::time::SystemTime
;

/// `SystemTime::duration_since` counts from the start of 1970, and fails where the
/// clock stands before it: nothing is claimed of the outcome, which is the clock's.
#[verifier::external_body]
fn since_epoch(t: std::time::SystemTime) -> Result<std::time::Duration, std::time::SystemTimeError> {
    t.duration_since(std::time::UNIX_EPOCH)
}

/// `Duration::as_secs` gives the whole seconds: nothing is claimed of how many the
/// clock had counted.
pub assume_specification[ std::time::Duration::as_secs ](d: &std::time::Duration) -> u64
;

/// The seconds that a reading of the clock stands for, as a signed number in two's
/// complement; zero where there is no reading.
pub open spec fn reading_secs(reading: Option<u64>) -> i64 {
    match reading {
        Some(s) => s as i64,
        None => 0,
    }
}

/// The seconds that a reading of the clock stands for.
pub fn secs_of_reading(reading: Option<u64>) -> (r: i64)
    ensures
        r == reading_secs(reading),
        reading is None ==> r == 0,
        reading matches Some(s) ==> (s <= i64::MAX ==> r == s),
{
    match reading {
        Some(s) => s as i64,
        None => 0,
    }
}

/// What the clock shows: the whole seconds since the start of 1970, nothing where it stands
/// before that. Which of these it is rests with the clock alone, so no clause narrows it.
fn read_clock() -> Option<u64> {
    match since_epoch(std::time::SystemTime::now()) {
        Ok(d) => Some(d.as_secs()),
        Err(_) => None,
    }
}

/// Wall-clock unix seconds: what accounts are stamped with.
pub fn now() -> (r: i64)
    ensures
        exists|reading: Option<u64>| r == #[trigger] reading_secs(reading),
{
    let reading = read_clock();
    secs_of_reading(reading)
}

/// Wall-clock unix seconds: what reputation decays by and leases lapse by.
pub fn now_secs() -> (r: i64)
    ensures
        exists|reading: Option<u64>| r == #[trigger] reading_secs(reading),
{
    let reading = read_clock();
    secs_of_reading(reading)
}

} // verus!
