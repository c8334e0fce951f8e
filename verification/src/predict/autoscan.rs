//! Nationwide rotation scanning: choosing each station's latest volume scan.

use vstd::prelude::*;

use crate::data::aws::{raw_keys, raw_keys_of};
use crate::text::{
    after_last_slash, char_rows, chars_of, contains_chars, decimal, ends_with, has_chars,
    has_suffix, last_segment_start, push_decimal_padded, push_signed_padded, push_str,
    signed_padded, string_of, string_views, sub_vec, zero_padded,
};

verus! {

/// A listed key the scanner considers: its file name neither ends in `_MDM` nor
/// contains `NXL2`.
pub open spec fn scan_keep(key: Seq<char>) -> bool {
    let name = after_last_slash(key);
    !ends_with(name, "_MDM"@) && !contains_chars(name, "NXL2"@)
}

/// The keys the scanner considers, in listing order.
pub open spec fn scan_keys(resp: Seq<char>) -> Seq<Seq<char>> {
    raw_keys(resp).filter(|k: Seq<char>| scan_keep(k))
}

/// The keys the scanner considers from a listing, in listing order.
pub fn parse_scan_keys(resp: &str) -> (keys: Vec<String>)
    ensures
        string_views(keys@) == scan_keys(resp@),
{
    let raw = raw_keys_of(resp);
    let ghost all = char_rows(raw@);
    let mdm = chars_of("_MDM");
    let nxl2 = chars_of("NXL2");
    let mut keys: Vec<String> = Vec::new();
    let mut i: usize = 0;
    proof {
        reveal(Seq::filter);
        assert(all.subrange(0, 0).filter(|k: Seq<char>| scan_keep(k)) =~= Seq::<Seq<char>>::empty());
    }
    while i < raw.len()
        invariant
            i <= raw.len(),
            mdm@ == "_MDM"@,
            nxl2@ == "NXL2"@,
            all == char_rows(raw@),
            all == raw_keys(resp@),
            string_views(keys@) == all.subrange(0, i as int).filter(|k: Seq<char>| scan_keep(k)),
        decreases raw.len() - i,
    {
        let key = &raw[i];
        let start = last_segment_start(key);
        let name = sub_vec(key, start, key.len());
        let keep = !has_suffix(&name, &mdm) && !has_chars(&name, &nxl2);
        proof {
            assert(all[i as int] == key@);
            assert(all.subrange(0, i + 1).drop_last() =~= all.subrange(0, i as int));
            assert(all.subrange(0, i + 1).last() == key@);
            assert(keep == scan_keep(key@));
            reveal(Seq::filter);
        }
        if keep {
            let k = string_of(key);
            let ghost before = string_views(keys@);
            let ghost kv = k@;
            keys.push(k);
            proof {
                assert(string_views(keys@) =~= before.push(kv));
            }
        }
        i = i + 1;
    }
    proof {
        assert(all.subrange(0, i as int) =~= all);
    }
    keys
}

/// The key of the latest volume scan in a listing: the last key considered.
pub fn latest_scan_key(resp: &str) -> (r: Option<String>)
    ensures
        match r {
            Some(k) => scan_keys(resp@).len() > 0 && k@ == scan_keys(resp@).last(),
            None => scan_keys(resp@).len() == 0,
        },
{
    let mut keys = parse_scan_keys(resp);
    let ghost sv = string_views(keys@);
    match keys.pop() {
        Some(k) => {
            assert(sv[sv.len() - 1] == k@);
            Some(k)
        },
        None => None,
    }
}

/// The date part of an object key, `YYYY/MM/DD` (`{:04}/{:02}/{:02}`).
pub open spec fn date_prefix_text(year: int, month: nat, day: nat) -> Seq<char> {
    signed_padded(year, 4) + "/"@ + zero_padded(decimal(month), 2) + "/"@ + zero_padded(
        decimal(day),
        2,
    )
}

/// The date part of an object key.
pub fn date_prefix(year: i32, month: u32, day: u32) -> (r: String)
    ensures
        r@ == date_prefix_text(year as int, month as nat, day as nat),
{
    let mut s = String::new();
    push_signed_padded(&mut s, year, 4);
    push_str(&mut s, "/");
    push_decimal_padded(&mut s, month as u64, 2);
    push_str(&mut s, "/");
    push_decimal_padded(&mut s, day as u64, 2);
    assert(s@ =~= date_prefix_text(year as int, month as nat, day as nat));
    s
}

/// The listing prefix of one station under a date prefix, `{date}/{station}/`.
pub fn station_prefix(date: &str, station: &str) -> (r: String)
    ensures
        r@ == date@ + "/"@ + station@ + "/"@,
{
    let mut s = String::new();
    push_str(&mut s, date);
    push_str(&mut s, "/");
    push_str(&mut s, station);
    push_str(&mut s, "/");
    assert(s@ =~= date@ + "/"@ + station@ + "/"@);
    s
}

/// Whether a scan is due: auto-scan is on, no scan is running, and there was no
/// scan yet or the last one is at least an interval old (`interval_passed`).
pub fn scan_due(active: bool, scanning: bool, interval_passed: Option<bool>) -> (b: bool)
    ensures
        b == (active && !scanning && match interval_passed {
            Some(p) => p,
            None => true,
        }),
{
    if !active || scanning {
        return false;
    }
    match interval_passed {
        Some(p) => p,
        None => true,
    }
}

} // verus!
