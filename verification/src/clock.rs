//! The time of day, as whole seconds since the epoch.

use vstd::prelude::*;
use crate::words::{decimal, decimal_text};

verus! {

/// A time as the records write it: the seconds in decimal, or nothing where
/// the clock stands before the epoch.
pub open spec fn timestamp_text(seconds: Option<u64>) -> Seq<char> {
    match seconds {
        Some(s) => decimal_text(s as nat),
        None => Seq::empty(),
    }
}

/// `s` is a time as the records write it.
pub open spec fn is_timestamp(s: Seq<char>) -> bool {
    exists|seconds: Option<u64>| s == #[trigger] timestamp_text(seconds)
}

/// `std::time::SystemTime::elapsed` of the epoch: the time since then, or an
/// error where the clock stands before it. Nothing is stated of the value.
#[verifier::external_body]
fn seconds_since_epoch() -> (r: Option<u64>) {
    std::time::UNIX_EPOCH.elapsed().ok().map(|d| d.as_secs())
}

/// Writes a time.
pub fn timestamp(seconds: Option<u64>) -> (r: String)
    ensures
        r@ == timestamp_text(seconds),
        is_timestamp(r@),
{
    proof {
        assert(is_timestamp(timestamp_text(seconds)));
    }
    match seconds {
        Some(s) => decimal(s),
        None => String::new(),
    }
}

/// The present time.
pub fn now() -> (r: String)
    ensures
        is_timestamp(r@),
{
    timestamp(seconds_since_epoch())
}

} // verus!
