//! Choice of the radiosonde launch times to try for an observed sounding.

use vstd::prelude::*;

use crate::text::push_str;

verus! {

/// The launch times to try, most recent first, as `YYYYMMDDHHMM` stamps from the
/// dates `today` and `yesterday` (`YYYYMMDD`) and the current UTC hour: after noon
/// today's 12Z and 00Z, before it today's 00Z and yesterday's 12Z; then yesterday's
/// 00Z.
pub open spec fn raob_times(today: Seq<char>, yesterday: Seq<char>, hour: u32) -> Seq<Seq<char>> {
    if hour >= 12 {
        seq![today + "1200"@, today + "0000"@, yesterday + "0000"@]
    } else {
        seq![today + "0000"@, yesterday + "1200"@, yesterday + "0000"@]
    }
}

fn stamp(date: &str, time: &str) -> (s: String)
    ensures
        s@ == date@ + time@,
{
    let mut s = String::new();
    push_str(&mut s, date);
    push_str(&mut s, time);
    s
}

/// The launch times to try for an observed sounding, most recent first.
pub fn raob_candidate_times(today: &str, yesterday: &str, hour: u32) -> (r: Vec<String>)
    ensures
        r@.map_values(|s: String| s@) == raob_times(today@, yesterday@, hour),
{
    let mut r: Vec<String> = Vec::new();
    if hour >= 12 {
        r.push(stamp(today, "1200"));
        r.push(stamp(today, "0000"));
    } else {
        r.push(stamp(today, "0000"));
        r.push(stamp(yesterday, "1200"));
    }
    r.push(stamp(yesterday, "0000"));
    assert(r@.map_values(|s: String| s@) =~= raob_times(today@, yesterday@, hour));
    r
}

} // verus!
