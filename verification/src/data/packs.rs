//! Data packs: every volume scan of one station and day, kept on disk as
//! `{STATION}_{YYYYMMDD}/{name}.nexrad`.

use vstd::prelude::*;

use crate::data::aws::{is_metadata_name, raw_keys, raw_keys_of};
use crate::text::{
    after_last_slash, chars_of, decimal, last_segment_start, push_decimal_padded,
    push_signed_padded, push_str, signed_padded, sort_strings, sorted_seqs, string_of,
    string_of_range, string_views, zero_padded, char_rows,
};

verus! {

/// Status of a data pack download.
#[derive(Debug, Clone)]
pub enum PackStatus {
    /// Not downloaded
    NotDownloaded,
    /// Currently downloading
    Downloading { done: usize, total: usize },
    /// Finished downloading: the number of files saved
    Ready(usize),
    /// Error
    Error(String),
}

/// The directory name of a pack, `{station}_{YYYY}{MM}{DD}`.
pub open spec fn pack_dir_text(station: Seq<char>, year: int, month: nat, day: nat) -> Seq<char> {
    station + "_"@ + signed_padded(year, 4) + zero_padded(decimal(month), 2) + zero_padded(
        decimal(day),
        2,
    )
}

/// The directory name of a pack (`format!("{}_{:04}{:02}{:02}", ..)`).
pub fn pack_dir_name(station: &str, year: i32, month: u32, day: u32) -> (r: String)
    ensures
        r@ == pack_dir_text(station@, year as int, month as nat, day as nat),
{
    let mut s = String::new();
    push_str(&mut s, station);
    push_str(&mut s, "_");
    push_signed_padded(&mut s, year, 4);
    push_decimal_padded(&mut s, month as u64, 2);
    push_decimal_padded(&mut s, day as u64, 2);
    assert(s@ =~= pack_dir_text(station@, year as int, month as nat, day as nat));
    s
}

/// The file a pack keeps a key in: the key's file name with `.nexrad` appended.
pub open spec fn pack_file_text(key: Seq<char>) -> Seq<char> {
    after_last_slash(key) + ".nexrad"@
}

/// The file name a pack keeps `key` in.
pub fn pack_file_name(key: &str) -> (r: String)
    ensures
        r@ == pack_file_text(key@),
{
    let v = chars_of(key);
    let start = last_segment_start(&v);
    let mut s = string_of_range(&v, start, v.len());
    push_str(&mut s, ".nexrad");
    s
}

/// A listed key a pack downloads: not empty, not a metadata file.
pub open spec fn pack_keep(key: Seq<char>) -> bool {
    key.len() > 0 && !is_metadata_name(after_last_slash(key))
}

/// The keys a pack downloads from a listing, in listing order.
pub open spec fn pack_keys(resp: Seq<char>) -> Seq<Seq<char>> {
    raw_keys(resp).filter(|k: Seq<char>| pack_keep(k))
}

/// The keys a pack downloads from a listing, ascending.
pub fn parse_pack_keys(resp: &str) -> (keys: Vec<String>)
    ensures
        sorted_seqs(string_views(keys@)),
        string_views(keys@).to_multiset() == pack_keys(resp@).to_multiset(),
{
    let raw = raw_keys_of(resp);
    let ghost all = char_rows(raw@);
    let mut keys: Vec<String> = Vec::new();
    let mut i: usize = 0;
    proof {
        reveal(Seq::filter);
        assert(all.subrange(0, 0).filter(|k: Seq<char>| pack_keep(k)) =~= Seq::<Seq<char>>::empty());
    }
    while i < raw.len()
        invariant
            i <= raw.len(),
            all == char_rows(raw@),
            all == raw_keys(resp@),
            string_views(keys@) == all.subrange(0, i as int).filter(|k: Seq<char>| pack_keep(k)),
        decreases raw.len() - i,
    {
        let key = &raw[i];
        proof {
            assert(all[i as int] == key@);
            assert(all.subrange(0, i + 1).drop_last() =~= all.subrange(0, i as int));
            assert(all.subrange(0, i + 1).last() == key@);
        }
        let start = last_segment_start(key);
        let name = crate::text::sub_vec(key, start, key.len());
        let meta = crate::data::aws::metadata_name(&name);
        let keep = key.len() > 0 && !meta;
        proof {
            let pred = |k: Seq<char>| pack_keep(k);
            assert(keep == pack_keep(key@));
            let s1 = all.subrange(0, i + 1);
            reveal(Seq::filter);
            assert(s1.filter(pred) == (if pred(s1.last()) {
                s1.drop_last().filter(pred).push(s1.last())
            } else {
                s1.drop_last().filter(pred)
            }));
        }
        if keep {
            let k = string_of(key);
            let ghost before = string_views(keys@);
            let ghost kv = k@;
            keys.push(k);
            proof {
                assert(string_views(keys@) =~= before.push(kv));
            }
        }
        i = i + 1;
    }
    proof {
        assert(all.subrange(0, i as int) =~= all);
    }
    sort_strings(keys)
}

/// The status once the listing is read: an error when it lists nothing to
/// download, else downloading none of `count` files yet.
pub fn listed_status(count: usize) -> (s: PackStatus)
    ensures
        count == 0 ==> (s matches PackStatus::Error(m) && m@ == "No files found for this date"@),
        count > 0 ==> s == (PackStatus::Downloading { done: 0, total: count }),
{
    if count == 0 {
        PackStatus::Error(String::from_str("No files found for this date"))
    } else {
        PackStatus::Downloading { done: 0, total: count }
    }
}

/// The status when the listing request fails: `List error: {e}`.
pub fn list_error_status(e: &str) -> (s: PackStatus)
    ensures
        s matches PackStatus::Error(m) && m@ == "List error: "@ + e@,
{
    let mut m = String::new();
    push_str(&mut m, "List error: ");
    push_str(&mut m, e);
    PackStatus::Error(m)
}

/// The status when the pack directory cannot be made: `mkdir error: {e}`.
pub fn mkdir_error_status(e: &str) -> (s: PackStatus)
    ensures
        s matches PackStatus::Error(m) && m@ == "mkdir error: "@ + e@,
{
    let mut m = String::new();
    push_str(&mut m, "mkdir error: ");
    push_str(&mut m, e);
    PackStatus::Error(m)
}

/// The status when all `total` downloads have ended, `errors` of them failed:
/// ready with the files saved.
pub fn finished_status(total: usize, errors: usize) -> (s: PackStatus)
    requires
        errors <= total,
    ensures
        s == PackStatus::Ready((total - errors) as usize),
{
    PackStatus::Ready(total - errors)
}

} // verus!
