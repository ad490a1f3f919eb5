//! Human-readable ages and the tones sizes and ages are shown in.
use vstd::prelude::*;
use crate::text::{append_str, append_chars, dec_i128, dec_int, string_from_chars};

verus! {

/// A color a value is shown in.
#[derive(Clone, Copy, PartialEq, Eq, Structural, Debug)]
pub enum Tone {
    Gray,
    White,
    Green,
    BrightGreen,
    Yellow,
    Red,
    BrightRed,
    Magenta,
}

/// How long ago something `diff` seconds old happened, in the largest whole unit below
/// the next: seconds, minutes, hours, days, weeks (under 30 days), else months of 30
/// days.
pub open spec fn relative_time_text(diff: int) -> Seq<char> {
    if diff < 0 {
        "in the future"@
    } else if diff < 60 {
        dec_int(diff) + " seconds ago"@
    } else if diff < 3600 {
        dec_int(diff / 60) + " minutes ago"@
    } else if diff < 86400 {
        dec_int(diff / 3600) + " hours ago"@
    } else if diff < 604800 {
        dec_int(diff / 86400) + " days ago"@
    } else if diff < 2592000 {
        dec_int(diff / 604800) + " weeks ago"@
    } else {
        dec_int(diff / 2592000) + " months ago"@
    }
}

/// The age of a modification time `mtime` at time `now`.
pub open spec fn age_text(mtime: i64, now: i64) -> Seq<char> {
    relative_time_text(now - mtime)
}

/// The age of a modification time `mtime` at time `now`.
pub fn relative_time_at(mtime: i64, now: i64) -> (r: String)
    ensures
        r@ == relative_time_text(now - mtime),
{
    let diff: i128 = (now as i128) - (mtime as i128);
    let mut v: Vec<char> = Vec::new();
    if diff < 0 {
        append_str(&mut v, "in the future");
    } else if diff < 60 {
        append_chars(&mut v, dec_i128(diff).as_slice());
        append_str(&mut v, " seconds ago");
    } else if diff < 3600 {
        append_chars(&mut v, dec_i128(diff / 60).as_slice());
        append_str(&mut v, " minutes ago");
    } else if diff < 86400 {
        append_chars(&mut v, dec_i128(diff / 3600).as_slice());
        append_str(&mut v, " hours ago");
    } else if diff < 604800 {
        append_chars(&mut v, dec_i128(diff / 86400).as_slice());
        append_str(&mut v, " days ago");
    } else if diff < 2592000 {
        append_chars(&mut v, dec_i128(diff / 604800).as_slice());
        append_str(&mut v, " weeks ago");
    } else {
        append_chars(&mut v, dec_i128(diff / 2592000).as_slice());
        append_str(&mut v, " months ago");
    }
    string_from_chars(v.as_slice())
}

/// The age of `mtime` now, by the system clock.
pub fn format_relative_time(mtime: i64) -> (r: String)
    ensures
        exists|now: i64| #[trigger] age_text(mtime, now) == r@,
{
    let now = crate::clock::utc_now_timestamp();
    let r = relative_time_at(mtime, now);
    assert(age_text(mtime, now) == r@);
    r
}

/// The tone of a size: gray under 1 KiB, green under 1 MiB, yellow under 100 MiB, red
/// under 1 GiB, bright red from there.
pub open spec fn size_tone(bytes: u64) -> Tone {
    if bytes < 1024 {
        Tone::Gray
    } else if bytes < 1024 * 1024 {
        Tone::Green
    } else if bytes < 100 * 1024 * 1024 {
        Tone::Yellow
    } else if bytes < 1024 * 1024 * 1024 {
        Tone::Red
    } else {
        Tone::BrightRed
    }
}

/// The tone of a size (see `size_tone`).
pub fn format_size_color(bytes: u64) -> (t: Tone)
    ensures
        t == size_tone(bytes),
{
    if bytes < 1024 {
        Tone::Gray
    } else if bytes < 1024 * 1024 {
        Tone::Green
    } else if bytes < 100 * 1024 * 1024 {
        Tone::Yellow
    } else if bytes < 1024 * 1024 * 1024 {
        Tone::Red
    } else {
        Tone::BrightRed
    }
}

/// The tone of an age of `diff` seconds: magenta in the future, bright green under an
/// hour, green under a day, yellow under a week, white under 30 days, gray after.
pub open spec fn age_tone(diff: int) -> Tone {
    if diff < 0 {
        Tone::Magenta
    } else if diff < 3600 {
        Tone::BrightGreen
    } else if diff < 86400 {
        Tone::Green
    } else if diff < 604800 {
        Tone::Yellow
    } else if diff < 2592000 {
        Tone::White
    } else {
        Tone::Gray
    }
}

/// The tone of the age of `mtime` at time `now`.
pub open spec fn time_tone(mtime: i64, now: i64) -> Tone {
    age_tone(now - mtime)
}

/// The tone of the age of `mtime` at time `now` (see `age_tone`).
pub fn time_color_at(mtime: i64, now: i64) -> (t: Tone)
    ensures
        t == age_tone(now - mtime),
{
    let diff: i128 = (now as i128) - (mtime as i128);
    if diff < 0 {
        Tone::Magenta
    } else if diff < 3600 {
        Tone::BrightGreen
    } else if diff < 86400 {
        Tone::Green
    } else if diff < 604800 {
        Tone::Yellow
    } else if diff < 2592000 {
        Tone::White
    } else {
        Tone::Gray
    }
}

/// The tone of the age of `mtime` now, by the system clock.
pub fn format_time_color(mtime: i64) -> (t: Tone)
    ensures
        exists|now: i64| #[trigger] time_tone(mtime, now) == t,
{
    let now = crate::clock::utc_now_timestamp();
    let t = time_color_at(mtime, now);
    assert(time_tone(mtime, now) == t);
    t
}

} // verus!
