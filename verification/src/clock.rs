//! The wall clock.
use vstd::prelude::*;

verus! {

/// `std::time::SystemTime::now().duration_since(UNIX_EPOCH)`, as whole seconds and the
/// nanoseconds beyond them: `Ok` for a clock at or after the epoch, `Err` with the
/// distance for one before it. Nothing is stated of the reading itself.
#[verifier::external_body]
fn system_time_since_epoch() -> (r: Result<(u64, u32), (u64, u32)>)
    ensures
        match r {
            Ok((_, n)) => n < 1_000_000_000,
            Err((_, n)) => n < 1_000_000_000,
        },
{
    match std::time::SystemTime::now().duration_since(std::time::UNIX_EPOCH) {
        Ok(d) => Ok((d.as_secs(), d.subsec_nanos())),
        Err(e) => Err((e.duration().as_secs(), e.duration().subsec_nanos())),
    }
}

/// The Unix timestamp, in whole seconds rounded down, of a clock reading given as the
/// distance after (`Ok`) or before (`Err`) the epoch, held to the range of `i64`.
pub open spec fn unix_seconds_spec(since: Result<(u64, u32), (u64, u32)>) -> int {
    let t: int = match since {
        Ok((s, _)) => s as int,
        Err((s, n)) => if n > 0 { -(s as int) - 1 } else { -(s as int) },
    };
    if t > i64::MAX {
        i64::MAX as int
    } else if t < i64::MIN {
        i64::MIN as int
    } else {
        t
    }
}

/// The Unix timestamp of a clock reading (see `unix_seconds_spec`).
pub fn unix_seconds(since: Result<(u64, u32), (u64, u32)>) -> (t: i64)
    ensures
        t == unix_seconds_spec(since),
{
    match since {
        Ok((s, _)) => {
            if s > 0x7fff_ffff_ffff_ffffu64 {
                i64::MAX
            } else {
                s as i64
            }
        },
        Err((s, n)) => {
            if s > 0x7fff_ffff_ffff_ffffu64 {
                i64::MIN
            } else if n > 0 {
                -(s as i64) - 1
            } else {
                -(s as i64)
            }
        },
    }
}

/// The current time, in whole seconds since the Unix epoch (negative before it). Nothing
/// is stated of its value: it is whatever the clock reads.
pub(crate) fn utc_now_timestamp() -> i64 {
    unix_seconds(system_time_since_epoch())
}

} // verus!
