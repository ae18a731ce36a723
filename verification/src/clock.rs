//! The millisecond clock that names outgoing items.

use vstd::prelude::*;
use crate::text::{signed_dec, u128_to_dec};

verus! {

/// Relies on std's `SystemTime::now` and `SystemTime::duration_since`
/// against `UNIX_EPOCH`: the wall clock's distance from the Unix epoch in
/// milliseconds, and whether the clock stands before the epoch (the `Err`
/// of `duration_since` carries that negative offset). Both arms only move
/// the converted duration out, so the call cannot panic, wherever the
/// clock stands; the value depends on the wall clock, so nothing is
/// promised of it.
#[verifier::external_body]
fn now_epoch_offset() -> (bool, u128) {
    match std::time::SystemTime::now().duration_since(std::time::UNIX_EPOCH) {
        Ok(offset) => (false, offset.as_millis()),
        Err(pre_epoch) => (true, pre_epoch.duration().as_millis()),
    }
}

/// The current time in milliseconds since the Unix epoch, rendered as a
/// decimal string, with a leading `-` when the clock stands before the
/// epoch: the stem that names the files of a freshly enqueued item.
pub fn current_timestamp_string() -> (r: String)
    ensures
        exists|neg: bool, m: int| 0 <= m && r@ == signed_dec(neg, m),
{
    let (before_epoch, millis) = now_epoch_offset();
    let digits = u128_to_dec(millis);
    if before_epoch && millis > 0 {
        proof {
            reveal_strlit("-");
        }
        let r = String::from_str("-").concat(digits.as_str());
        proof {
            assert(r@ =~= signed_dec(true, millis as int));
        }
        r
    } else {
        proof {
            assert(digits@ == signed_dec(before_epoch, millis as int));
        }
        digits
    }
}

} // verus!
