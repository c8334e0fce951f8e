//! Listing and naming of NEXRAD Level 2 files in the public S3 bucket.

use vstd::prelude::*;

use crate::text::{
    after_last_slash, char_rows, chars_of, decimal, ends_with, has_suffix, last_segment_start,
    parse_i64, parse_i64_chars, push_decimal_padded, push_signed_padded, push_str, prefix_before,
    signed_padded, split_after, split_pieces, string_of, string_of_range, tag_field, tag_ordered,
    tag_ordered_check, tag_value, to_upper, uppercase, zero_padded, before_first, seq_lt,
    lemma_seq_lt_total, lemma_seq_lt_trans, lemma_seq_lt_irreflexive, str_lt, find_first,
    find_chars, lemma_find_from, sub_vec,
};

verus! {

// ── Addresses ────────────────────────────────────────────────────────

/// The bucket's address.
pub open spec fn base_url_text() -> Seq<char> {
    "https://unidata-nexrad-level2.s3.amazonaws.com"@
}

/// The bucket's address.
pub fn base_url() -> (r: &'static str)
    ensures
        r@ == base_url_text(),
{
    "https://unidata-nexrad-level2.s3.amazonaws.com"
}

/// The object-key prefix of one station's files for one day, `YYYY/MM/DD/STATION/`
/// (`{:04}/{:02}/{:02}/{}/`).
pub open spec fn day_prefix_text(station: Seq<char>, year: int, month: nat, day: nat) -> Seq<char> {
    signed_padded(year, 4) + "/"@ + zero_padded(decimal(month), 2) + "/"@ + zero_padded(
        decimal(day),
        2,
    ) + "/"@ + station + "/"@
}

/// `YYYY/MM/DD/STATION/` for `station` as given.
pub fn day_prefix(station: &str, year: i32, month: u32, day: u32) -> (p: String)
    ensures
        p@ == day_prefix_text(station@, year as int, month as nat, day as nat),
{
    let mut s = String::new();
    push_signed_padded(&mut s, year, 4);
    push_str(&mut s, "/");
    push_decimal_padded(&mut s, month as u64, 2);
    push_str(&mut s, "/");
    push_decimal_padded(&mut s, day as u64, 2);
    push_str(&mut s, "/");
    push_str(&mut s, station);
    push_str(&mut s, "/");
    assert(s@ =~= day_prefix_text(station@, year as int, month as nat, day as nat));
    s
}

/// `YYYY/MM/DD/STATION/` with the station upper-cased.
pub fn station_day_prefix(station: &str, year: i32, month: u32, day: u32) -> (p: String)
    ensures
        p@ == day_prefix_text(uppercase(station@), year as int, month as nat, day as nat),
{
    let upper = to_upper(station);
    day_prefix(upper.as_str(), year, month, day)
}

/// The listing request for the objects under `prefix` (`list-type=2`).
pub open spec fn listing_url_text(prefix: Seq<char>) -> Seq<char> {
    base_url_text() + "?list-type=2&prefix="@ + prefix
}

/// The listing request for the objects under `prefix`.
pub fn listing_url(prefix: &str) -> (u: String)
    ensures
        u@ == listing_url_text(prefix@),
{
    let mut s = String::new();
    push_str(&mut s, base_url());
    push_str(&mut s, "?list-type=2&prefix=");
    push_str(&mut s, prefix);
    assert(s@ =~= listing_url_text(prefix@));
    s
}

/// The address of the object `key`.
pub open spec fn object_url_text(key: Seq<char>) -> Seq<char> {
    base_url_text() + "/"@ + key
}

/// The address of the object `key`.
pub fn object_url(key: &str) -> (u: String)
    ensures
        u@ == object_url_text(key@),
{
    let mut s = String::new();
    push_str(&mut s, base_url());
    push_str(&mut s, "/");
    push_str(&mut s, key);
    assert(s@ =~= object_url_text(key@));
    s
}

// ── Keys ─────────────────────────────────────────────────────────────

/// The file name of a key: its text after the last `/` (`rsplit('/').next()`).
pub fn key_display_name(key: &str) -> (name: String)
    ensures
        name@ == after_last_slash(key@),
{
    let v = chars_of(key);
    let start = last_segment_start(&v);
    string_of_range(&v, start, v.len())
}

/// A metadata file, not a volume scan: the name ends in `_MDM` or `.md`.
pub open spec fn is_metadata_name(name: Seq<char>) -> bool {
    ends_with(name, "_MDM"@) || ends_with(name, ".md"@)
}

/// Whether `name` is a metadata file name.
pub fn metadata_name(name: &Vec<char>) -> (b: bool)
    ensures
        b == is_metadata_name(name@),
{
    let mdm = chars_of("_MDM");
    let md = chars_of(".md");
    has_suffix(name, &mdm) || has_suffix(name, &md)
}

// ── Listings ─────────────────────────────────────────────────────────

/// A file in the bucket listing.
#[derive(Debug, Clone)]
pub struct NexradFileInfo {
    pub key: String,
    pub size: i64,
    pub last_modified: String,
    pub display_name: String,
}

impl View for NexradFileInfo {
    /// (key, size, last modified, display name)
    type V = (Seq<char>, i64, Seq<char>, Seq<char>);

    open spec fn view(&self) -> Self::V {
        (self.key@, self.size, self.last_modified@, self.display_name@)
    }
}

/// The views of a list of files.
pub open spec fn files_view(s: Seq<NexradFileInfo>) -> Seq<(Seq<char>, i64, Seq<char>, Seq<char>)> {
    s.map_values(|f: NexradFileInfo| f@)
}

/// The `<Contents>` elements of a listing: each piece after a `<Contents>`,
/// cut at its first `</Contents>`.
pub open spec fn contents_blocks(xml: Seq<char>) -> Seq<Seq<char>> {
    split_after(xml, "<Contents>"@, 0).map_values(|c: Seq<char>| before_first(c, "</Contents>"@))
}

/// The file a `<Contents>` element describes: its `Key`, `Size` (0 where it does not
/// parse as an `i64`), `LastModified` and the key's file name; none for an empty
/// key or a metadata file.
pub open spec fn file_of_block(block: Seq<char>) -> Option<(Seq<char>, i64, Seq<char>, Seq<char>)> {
    let key = tag_field(block, "Key"@);
    let size = match parse_i64(tag_field(block, "Size"@)) {
        Some(v) => v,
        None => 0,
    };
    let modified = tag_field(block, "LastModified"@);
    let display = after_last_slash(key);
    if key.len() == 0 || is_metadata_name(display) {
        None
    } else {
        Some((key, size, modified, display))
    }
}

/// The files that the elements `blocks` describe, in order.
pub open spec fn files_of_blocks(blocks: Seq<Seq<char>>) -> Seq<(Seq<char>, i64, Seq<char>, Seq<char>)>
    decreases blocks.len(),
{
    if blocks.len() == 0 {
        Seq::empty()
    } else {
        let rest = files_of_blocks(blocks.drop_last());
        match file_of_block(blocks.last()) {
            Some(f) => rest.push(f),
            None => rest,
        }
    }
}

/// In every `<Contents>` element the `Key`, `Size` and `LastModified` tags close
/// no earlier than they open (where both occur).
pub open spec fn listing_ordered(xml: Seq<char>) -> bool {
    forall|k: int|
        0 <= k < contents_blocks(xml).len() ==> {
            &&& tag_ordered(#[trigger] contents_blocks(xml)[k], "Key"@)
            &&& tag_ordered(contents_blocks(xml)[k], "Size"@)
            &&& tag_ordered(contents_blocks(xml)[k], "LastModified"@)
        }
}

/// The `<Contents>` elements of `xml`, as character vectors.
pub(crate) fn contents_of(xml: &str) -> (blocks: Vec<Vec<char>>)
    ensures
        char_rows(blocks@) == contents_blocks(xml@),
{
    let x = chars_of(xml);
    let open = chars_of("<Contents>");
    let close = chars_of("</Contents>");
    proof {
        reveal_strlit("<Contents>");
    }
    let pieces = split_pieces(&x, &open);
    let mut blocks: Vec<Vec<char>> = Vec::new();
    let mut i: usize = 0;
    while i < pieces.len()
        invariant
            i <= pieces.len(),
            close@ == "</Contents>"@,
            char_rows(pieces@) == split_after(xml@, "<Contents>"@, 0),
            char_rows(blocks@) == char_rows(pieces@).subrange(0, i as int).map_values(
                |c: Seq<char>| before_first(c, "</Contents>"@),
            ),
        decreases pieces.len() - i,
    {
        let b = prefix_before(&pieces[i], &close);
        let ghost before = char_rows(blocks@);
        let ghost bv = b@;
        blocks.push(b);
        proof {
            assert(char_rows(pieces@)[i as int] == pieces@[i as int]@);
            assert(char_rows(blocks@) =~= before.push(bv));
            assert(char_rows(blocks@) =~= char_rows(pieces@).subrange(0, i + 1).map_values(
                |c: Seq<char>| before_first(c, "</Contents>"@),
            ));
        }
        i = i + 1;
    }
    assert(char_rows(pieces@).subrange(0, i as int) =~= char_rows(pieces@));
    blocks
}

/// Whether `listing_ordered` holds of `xml`.
pub fn listing_ordered_check(xml: &str) -> (b: bool)
    ensures
        b == listing_ordered(xml@),
{
    let blocks = contents_of(xml);
    let mut i: usize = 0;
    while i < blocks.len()
        invariant
            i <= blocks.len(),
            char_rows(blocks@) == contents_blocks(xml@),
            forall|k: int|
                0 <= k < i ==> {
                    &&& tag_ordered(#[trigger] contents_blocks(xml@)[k], "Key"@)
                    &&& tag_ordered(contents_blocks(xml@)[k], "Size"@)
                    &&& tag_ordered(contents_blocks(xml@)[k], "LastModified"@)
                },
        decreases blocks.len() - i,
    {
        assert(char_rows(blocks@)[i as int] == blocks@[i as int]@);
        let ok = tag_ordered_check(&blocks[i], "Key") && tag_ordered_check(&blocks[i], "Size")
            && tag_ordered_check(&blocks[i], "LastModified");
        if !ok {
            return false;
        }
        i = i + 1;
    }
    true
}

/// The text of element `tag` in `block`, or an empty string.
fn field_text(block: &Vec<char>, tag: &str) -> (r: String)
    requires
        tag_ordered(block@, tag@),
    ensures
        r@ == tag_field(block@, tag@),
{
    match tag_value(block, tag) {
        Some(t) => t,
        None => String::new(),
    }
}

/// Parses a `ListObjectsV2` response into the files it lists, in listing order,
/// leaving out empty keys and metadata files.
pub fn parse_s3_list_xml(xml: &str) -> (files: Vec<NexradFileInfo>)
    requires
        listing_ordered(xml@),
    ensures
        files_view(files@) == files_of_blocks(contents_blocks(xml@)),
{
    let blocks = contents_of(xml);
    let mut files: Vec<NexradFileInfo> = Vec::new();
    let mut i: usize = 0;
    while i < blocks.len()
        invariant
            i <= blocks.len(),
            char_rows(blocks@) == contents_blocks(xml@),
            listing_ordered(xml@),
            files_view(files@) == files_of_blocks(char_rows(blocks@).subrange(0, i as int)),
        decreases blocks.len() - i,
    {
        let block = &blocks[i];
        proof {
            assert(char_rows(blocks@)[i as int] == block@);
            assert(tag_ordered(contents_blocks(xml@)[i as int], "Key"@));
        }
        let key = field_text(block, "Key");
        let size_text = field_text(block, "Size");
        let modified = field_text(block, "LastModified");
        let size_chars = chars_of(size_text.as_str());
        let size = match parse_i64_chars(&size_chars, 0, size_chars.len()) {
            Some(v) => v,
            None => 0,
        };
        proof {
            assert(size_chars@.subrange(0, size_chars@.len() as int) =~= size_chars@);
        }
        let display = key_display_name(key.as_str());
        let display_chars = chars_of(display.as_str());
        let skip = key.as_str().is_empty() || metadata_name(&display_chars);
        let ghost prev = char_rows(blocks@).subrange(0, i as int);
        proof {
            assert(char_rows(blocks@).subrange(0, i + 1).drop_last() =~= prev);
            assert(char_rows(blocks@).subrange(0, i + 1).last() == block@);
        }
        if !skip {
            let ghost fv = (key@, size, modified@, display@);
            let f = NexradFileInfo { key, size, last_modified: modified, display_name: display };
            let ghost before = files@;
            files.push(f);
            proof {
                assert(files_view(files@) =~= files_view(before).push(fv));
            }
        }
        i = i + 1;
    }
    proof {
        assert(char_rows(blocks@).subrange(0, i as int) =~= char_rows(blocks@));
    }
    files
}

/// `out` is `inp` sorted by key, ties kept in their order: `out[k]` is
/// `inp[perm[k]]` for a permutation `perm`, keys ascend, and of two files with
/// equal keys the earlier one in `inp` comes first.
pub open spec fn stable_sorted_by_key(
    out: Seq<(Seq<char>, i64, Seq<char>, Seq<char>)>,
    inp: Seq<(Seq<char>, i64, Seq<char>, Seq<char>)>,
    perm: Seq<int>,
) -> bool {
    &&& out.len() == inp.len()
    &&& perm.len() == inp.len()
    &&& forall|k: int| 0 <= k < out.len() ==> 0 <= #[trigger] perm[k] < inp.len() && out[k] == inp[perm[k]]
    &&& forall|k: int, l: int| 0 <= k < l < out.len() ==> #[trigger] perm[k] != #[trigger] perm[l]
    &&& forall|k: int, l: int| 0 <= k < l < out.len() ==> !seq_lt(#[trigger] out[l].0, #[trigger] out[k].0)
    &&& forall|k: int, l: int|
        0 <= k < l < out.len() && #[trigger] out[k].0 == #[trigger] out[l].0 ==> perm[k] < perm[l]
}

/// Sorts files by key, keeping files with equal keys in their order
/// (`sort_by(|a, b| a.key.cmp(&b.key))`).
pub fn sort_by_key(files: Vec<NexradFileInfo>) -> (r: Vec<NexradFileInfo>)
    ensures
        exists|perm: Seq<int>| stable_sorted_by_key(files_view(r@), files_view(files@), perm),
{
    let ghost orig = files_view(files@);
    let mut src = files;
    let mut out: Vec<NexradFileInfo> = Vec::new();
    let ghost mut taken: int = 0;
    let ghost mut perm: Seq<int> = Seq::empty();
    while src.len() > 0
        invariant
            0 <= taken <= orig.len(),
            files_view(src@) == orig.subrange(taken, orig.len() as int),
            stable_sorted_by_key(files_view(out@), orig.subrange(0, taken), perm),
        decreases src.len(),
    {
        let ghost sv = src@;
        let x = src.remove(0);
        proof {
            assert(files_view(sv).len() == sv.len());
            assert(src@ == sv.remove(0));
            assert(files_view(sv)[0] == sv[0]@);
            assert(orig.subrange(taken, orig.len() as int)[0] == orig[taken]);
            assert(x@ == orig[taken]);
            assert forall|k: int| 0 <= k < src@.len() implies files_view(src@)[k] == orig[taken + 1 + k] by {
                assert(src@[k] == sv.remove(0)[k]);
                assert(src@[k] == sv[k + 1]);
                assert(files_view(sv)[k + 1] == orig.subrange(taken, orig.len() as int)[k + 1]);
            }
            assert(files_view(src@) =~= orig.subrange(taken + 1, orig.len() as int));
        }
        let xk = x.key.as_str();
        let mut p: usize = 0;
        let mut found = false;
        while !found && p < out.len()
            invariant
                p <= out.len(),
                xk@ == x@.0,
                stable_sorted_by_key(files_view(out@), orig.subrange(0, taken), perm),
                forall|k: int| 0 <= k < p ==> !seq_lt(x@.0, #[trigger] files_view(out@)[k].0),
                found ==> p < out.len() && seq_lt(x@.0, files_view(out@)[p as int].0),
            decreases out.len() - p + (if found { 0int } else { 1int }),
        {
            let lt = str_lt(xk, out[p].key.as_str());
            assert(files_view(out@)[p as int] == out@[p as int]@);
            if lt {
                found = true;
            } else {
                p = p + 1;
            }
        }
        let ghost before = files_view(out@);
        let ghost inp = orig.subrange(0, taken);
        proof {
            assert forall|k: int| p <= k < before.len() implies seq_lt(x@.0, #[trigger] before[k].0) by {
                assert(found);
                assert(seq_lt(x@.0, before[p as int].0));
                if k > p {
                    assert(!seq_lt(before[k].0, before[p as int].0));
                    lemma_seq_lt_total(before[k].0, before[p as int].0);
                    if before[k].0 != before[p as int].0 {
                        lemma_seq_lt_trans(x@.0, before[p as int].0, before[k].0);
                    }
                }
            }
        }
        let ghost xv = x@;
        out.insert(p, x);
        proof {
            let after = files_view(out@);
            let perm2 = perm.insert(p as int, taken);
            let inp2 = orig.subrange(0, taken + 1);
            assert(after =~= before.insert(p as int, xv));
            assert forall|k: int| 0 <= k < after.len() implies 0 <= #[trigger] perm2[k] < inp2.len()
                && after[k] == inp2[perm2[k]] by {
                if k < p {
                    assert(perm2[k] == perm[k] && after[k] == before[k]);
                    assert(inp2[perm[k]] == inp[perm[k]]);
                } else if k == p {
                } else {
                    assert(perm2[k] == perm[k - 1] && after[k] == before[k - 1]);
                    assert(inp2[perm[k - 1]] == inp[perm[k - 1]]);
                }
            }
            assert forall|k: int, l: int| 0 <= k < l < after.len() implies #[trigger] perm2[k]
                != #[trigger] perm2[l] by {
                if k < p && l < p {
                    assert(perm2[k] == perm[k] && perm2[l] == perm[l]);
                } else if k < p && l == p {
                    assert(perm2[k] == perm[k]);
                } else if k < p {
                    assert(perm2[k] == perm[k] && perm2[l] == perm[l - 1]);
                } else if k == p {
                    assert(perm2[l] == perm[l - 1]);
                } else {
                    assert(perm2[k] == perm[k - 1] && perm2[l] == perm[l - 1]);
                }
            }
            assert forall|k: int, l: int| 0 <= k < l < after.len() implies !seq_lt(
                #[trigger] after[l].0,
                #[trigger] after[k].0,
            ) by {
                if l < p {
                    assert(after[k] == before[k] && after[l] == before[l]);
                } else if l == p {
                    assert(after[k] == before[k]);
                    lemma_seq_lt_total(xv.0, before[k].0);
                    if xv.0 == before[k].0 {
                        lemma_seq_lt_irreflexive(xv.0);
                    }
                } else if k > p {
                    assert(after[k] == before[k - 1] && after[l] == before[l - 1]);
                } else if k == p {
                    assert(after[l] == before[l - 1]);
                    lemma_seq_lt_total(xv.0, before[l - 1].0);
                } else {
                    assert(after[k] == before[k] && after[l] == before[l - 1]);
                }
            }
            assert forall|k: int, l: int|
                0 <= k < l < after.len() && #[trigger] after[k].0 == #[trigger] after[l].0 implies perm2[k]
                    < perm2[l] by {
                if l < p {
                    assert(after[k] == before[k] && after[l] == before[l]);
                    assert(perm2[k] == perm[k] && perm2[l] == perm[l]);
                } else if l == p {
                    assert(perm2[k] == perm[k]);
                } else if k > p {
                    assert(after[k] == before[k - 1] && after[l] == before[l - 1]);
                    assert(perm2[k] == perm[k - 1] && perm2[l] == perm[l - 1]);
                } else if k == p {
                    assert(after[l] == before[l - 1]);
                    lemma_seq_lt_irreflexive(xv.0);
                } else {
                    assert(after[k] == before[k] && after[l] == before[l - 1]);
                    assert(perm2[k] == perm[k] && perm2[l] == perm[l - 1]);
                }
            }
            assert(stable_sorted_by_key(after, inp2, perm2));
            perm = perm2;
            taken = taken + 1;
        }
    }
    proof {
        assert(orig.subrange(0, taken) =~= orig);
    }
    out
}

// ── Raw keys ─────────────────────────────────────────────────────────

/// The key in a piece following `<Key>`: the text before its first `</Key>`, if
/// there is one.
pub open spec fn raw_key_of(chunk: Seq<char>) -> Option<Seq<char>> {
    match find_first(chunk, "</Key>"@) {
        Some(e) => Some(chunk.subrange(0, e)),
        None => None,
    }
}

/// The keys of a listing read element by element: each piece after a `<Key>` cut
/// at its `</Key>`, pieces without one dropped.
pub open spec fn raw_keys(resp: Seq<char>) -> Seq<Seq<char>> {
    split_after(resp, "<Key>"@, 0).filter_map(|c: Seq<char>| raw_key_of(c))
}

/// The keys of a listing, in order, as character vectors.
pub fn raw_keys_of(resp: &str) -> (r: Vec<Vec<char>>)
    ensures
        char_rows(r@) == raw_keys(resp@),
{
    let x = chars_of(resp);
    let open = chars_of("<Key>");
    let close = chars_of("</Key>");
    proof {
        reveal_strlit("<Key>");
    }
    let pieces = split_pieces(&x, &open);
    let ghost all = char_rows(pieces@);
    let mut out: Vec<Vec<char>> = Vec::new();
    let mut i: usize = 0;
    while i < pieces.len()
        invariant
            i <= pieces.len(),
            close@ == "</Key>"@,
            all == char_rows(pieces@),
            all == split_after(resp@, "<Key>"@, 0),
            char_rows(out@) == all.subrange(0, i as int).filter_map(|c: Seq<char>| raw_key_of(c)),
        decreases pieces.len() - i,
    {
        let chunk = &pieces[i];
        proof {
            assert(all[i as int] == chunk@);
            assert(all.subrange(0, i + 1).drop_last() =~= all.subrange(0, i as int));
            assert(all.subrange(0, i + 1).last() == chunk@);
            lemma_find_from(chunk@, close@, 0);
        }
        match find_chars(chunk, &close, 0) {
            Some(e) => {
                let key = sub_vec(chunk, 0, e);
                let ghost before = char_rows(out@);
                let ghost kv = key@;
                out.push(key);
                proof {
                    assert(char_rows(out@) =~= before + seq![kv]);
                }
            },
            None => {},
        }
        i = i + 1;
    }
    proof {
        assert(all.subrange(0, i as int) =~= all);
    }
    out
}

/// The first key of a listing: the text after the first `<Key>` up to the next
/// `</Key>`.
pub open spec fn first_key_text(xml: Seq<char>) -> Option<Seq<char>> {
    match find_first(xml, "<Key>"@) {
        Some(i) => match crate::text::find_from(xml, "</Key>"@, i + 5) {
            Some(e) => Some(xml.subrange(i + 5, e)),
            None => None,
        },
        None => None,
    }
}

/// The first key of a listing, if it has one.
pub fn extract_key(xml: &str) -> (r: Option<String>)
    ensures
        match r {
            Some(k) => first_key_text(xml@) == Some(k@),
            None => first_key_text(xml@) is None,
        },
{
    let x = chars_of(xml);
    let open = chars_of("<Key>");
    let close = chars_of("</Key>");
    proof {
        reveal_strlit("<Key>");
        lemma_find_from(x@, open@, 0);
    }
    let i = match find_chars(&x, &open, 0) {
        Some(i) => i,
        None => return None,
    };
    assert(open@.len() == 5);
    assert(crate::text::matches_at(x@, open@, i as int));
    assert(i + open@.len() <= x@.len());
    assert(i + 5 <= x.len());
    let start = i + 5;
    proof {
        lemma_find_from(x@, close@, start as int);
    }
    let e = match find_chars(&x, &close, start) {
        Some(e) => e,
        None => return None,
    };
    Some(string_of_range(&x, start, e))
}

} // verus!
