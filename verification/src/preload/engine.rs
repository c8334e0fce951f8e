//! Helpers of the background preloader: listing parsing and payload decoding.

use std::io::Read;
use vstd::prelude::*;

use crate::data::aws::{contents_blocks, contents_of, is_metadata_name};
use crate::text::{
    after_last_slash, between, char_rows, chars_of, close_tag, last_segment_start, open_tag,
    seq_lt, sort_strings, sorted_seqs, string_of, string_of_range, string_views, tag_ordered,
    tag_ordered_check, tag_text, tag_value, has_suffix, lemma_seq_lt_total,
};

verus! {

// ── Tags and keys ────────────────────────────────────────────────────

/// The text between the first `<tag>` and the first `</tag>` of `xml`, if both occur.
pub fn extract_xml_tag(xml: &str, tag: &str) -> (r: Option<String>)
    requires
        tag_ordered(xml@, tag@),
    ensures
        match r {
            Some(t) => tag_text(xml@, tag@) == Some(t@),
            None => tag_text(xml@, tag@) is None,
        },
{
    let x = chars_of(xml);
    tag_value(&x, tag)
}

/// The key a `<Contents>` element names, unless it is empty or a metadata file.
pub open spec fn key_of_block(block: Seq<char>) -> Option<Seq<char>> {
    match tag_text(block, "Key"@) {
        Some(k) => if k.len() == 0 || is_metadata_name(after_last_slash(k)) {
            None
        } else {
            Some(k)
        },
        None => None,
    }
}

/// The keys the elements `blocks` name, in order.
pub open spec fn keys_of_blocks(blocks: Seq<Seq<char>>) -> Seq<Seq<char>>
    decreases blocks.len(),
{
    if blocks.len() == 0 {
        Seq::empty()
    } else {
        let rest = keys_of_blocks(blocks.drop_last());
        match key_of_block(blocks.last()) {
            Some(k) => rest.push(k),
            None => rest,
        }
    }
}

/// In every `<Contents>` element `</Key>` does not come before the end of `<Key>`.
pub open spec fn keys_ordered(xml: Seq<char>) -> bool {
    forall|k: int|
        0 <= k < contents_blocks(xml).len() ==> tag_ordered(
            #[trigger] contents_blocks(xml)[k],
            "Key"@,
        )
}

/// Whether `keys_ordered` holds of `xml`.
pub fn keys_ordered_check(xml: &str) -> (b: bool)
    ensures
        b == keys_ordered(xml@),
{
    let blocks = contents_of(xml);
    let mut i: usize = 0;
    while i < blocks.len()
        invariant
            i <= blocks.len(),
            char_rows(blocks@) == contents_blocks(xml@),
            forall|k: int| 0 <= k < i ==> tag_ordered(#[trigger] contents_blocks(xml@)[k], "Key"@),
        decreases blocks.len() - i,
    {
        assert(char_rows(blocks@)[i as int] == blocks@[i as int]@);
        if !tag_ordered_check(&blocks[i], "Key") {
            return false;
        }
        i = i + 1;
    }
    true
}

/// The keys of the volume scans in a listing, ascending.
pub fn parse_s3_list_xml(xml: &str) -> (keys: Vec<String>)
    requires
        keys_ordered(xml@),
    ensures
        sorted_seqs(string_views(keys@)),
        string_views(keys@).to_multiset() == keys_of_blocks(contents_blocks(xml@)).to_multiset(),
{
    let blocks = contents_of(xml);
    let mut keys: Vec<String> = Vec::new();
    let mut i: usize = 0;
    while i < blocks.len()
        invariant
            i <= blocks.len(),
            char_rows(blocks@) == contents_blocks(xml@),
            keys_ordered(xml@),
            string_views(keys@) == keys_of_blocks(char_rows(blocks@).subrange(0, i as int)),
        decreases blocks.len() - i,
    {
        let block = &blocks[i];
        proof {
            assert(char_rows(blocks@)[i as int] == block@);
            assert(tag_ordered(contents_blocks(xml@)[i as int], "Key"@));
            assert(char_rows(blocks@).subrange(0, i + 1).drop_last() =~= char_rows(blocks@).subrange(
                0,
                i as int,
            ));
            assert(char_rows(blocks@).subrange(0, i + 1).last() == block@);
        }
        match tag_value(block, "Key") {
            Some(key) => {
                let kc = chars_of(key.as_str());
                let start = last_segment_start(&kc);
                let name = crate::text::sub_vec(&kc, start, kc.len());
                let meta = crate::data::aws::metadata_name(&name);
                if !(kc.len() == 0 || meta) {
                    let ghost before = string_views(keys@);
                    let ghost kv = key@;
                    keys.push(key);
                    proof {
                        assert(string_views(keys@) =~= before.push(kv));
                    }
                }
            },
            None => {},
        }
        i = i + 1;
    }
    proof {
        assert(char_rows(blocks@).subrange(0, i as int) =~= char_rows(blocks@));
    }
    sort_strings(keys)
}

/// The greatest key of a listing, if it lists any volume scan.
pub fn latest_key(xml: &str) -> (r: Option<String>)
    requires
        keys_ordered(xml@),
    ensures
        match r {
            Some(k) => keys_of_blocks(contents_blocks(xml@)).contains(k@) && forall|j: int|
                0 <= j < keys_of_blocks(contents_blocks(xml@)).len() ==> !seq_lt(
                    k@,
                    #[trigger] keys_of_blocks(contents_blocks(xml@))[j],
                ),
            None => keys_of_blocks(contents_blocks(xml@)).len() == 0,
        },
{
    broadcast use vstd::seq_lib::group_to_multiset_ensures;

    let mut keys = parse_s3_list_xml(xml);
    let ghost all = keys_of_blocks(contents_blocks(xml@));
    let ghost sv = string_views(keys@);
    proof {
        assert(sv.len() == all.len()) by {
            vstd::seq_lib::to_multiset_len(sv);
            vstd::seq_lib::to_multiset_len(all);
        }
    }
    match keys.pop() {
        Some(k) => {
            proof {
                let n = sv.len() - 1;
                assert(sv[n] == k@);
                assert(sv.to_multiset().count(k@) > 0) by {
                    vstd::seq_lib::to_multiset_contains(sv, k@);
                    assert(sv.contains(k@));
                }
                vstd::seq_lib::to_multiset_contains(all, k@);
                assert forall|j: int| 0 <= j < all.len() implies !seq_lt(k@, #[trigger] all[j]) by {
                    vstd::seq_lib::to_multiset_contains(all, all[j]);
                    assert(all.contains(all[j]));
                    vstd::seq_lib::to_multiset_contains(sv, all[j]);
                    let m = choose|m: int| 0 <= m < sv.len() && sv[m] == all[j];
                    if m < n {
                        assert(!seq_lt(sv[n], sv[m]));
                    } else {
                        crate::text::lemma_seq_lt_irreflexive(k@);
                    }
                }
            }
            Some(k)
        },
        None => None,
    }
}

// ── Payloads ─────────────────────────────────────────────────────────

/// What flate2's `GzDecoder` yields reading all of `data`: the decompressed bytes,
/// or nothing where decoding fails.
pub uninterp spec fn gzip_decoded(data: Seq<u8>) -> Option<Seq<u8>>;

/// flate2 `GzDecoder::new(&data[..]).read_to_end(..)`: the bytes read when it
/// succeeds, `None` when it reports an error. The result is named `gzip_decoded`;
/// decoding depends on the bytes alone.
#[verifier::external_body]
fn gunzip(data: &Vec<u8>) -> (r: Option<Vec<u8>>)
    ensures
        match r {
            Some(v) => gzip_decoded(data@) == Some(v@),
            None => gzip_decoded(data@) is None,
        },
{
    let mut decoder = flate2::read::GzDecoder::new(&data[..]);
    let mut out = Vec::new();
    match decoder.read_to_end(&mut out) {
        Ok(_) => Some(out),
        Err(_) => None,
    }
}

/// The data starts with the gzip magic bytes `1f 8b`.
pub open spec fn has_gzip_magic(data: Seq<u8>) -> bool {
    data.len() >= 2 && data[0] == 0x1f && data[1] == 0x8b
}

/// Whether `data` starts with the gzip magic bytes.
pub fn gzip_magic(data: &Vec<u8>) -> (b: bool)
    ensures
        b == has_gzip_magic(data@),
{
    data.len() >= 2 && data[0] == 0x1f && data[1] == 0x8b
}

/// The decoded bytes where decoding succeeded, else the data as it came.
pub fn keep_decoded(data: Vec<u8>, decoded: Option<Vec<u8>>) -> (r: Vec<u8>)
    ensures
        r@ == match decoded {
            Some(d) => d@,
            None => data@,
        },
{
    match decoded {
        Some(d) => d,
        None => data,
    }
}

/// Decompresses gzip data (recognised by its magic bytes); data that is not gzip,
/// or fails to decode, is returned as it came.
pub fn maybe_decompress_gz(data: Vec<u8>) -> (r: Vec<u8>)
    ensures
        r@ == if has_gzip_magic(data@) {
            match gzip_decoded(data@) {
                Some(d) => d,
                None => data@,
            }
        } else {
            data@
        },
{
    if gzip_magic(&data) {
        let decoded = gunzip(&data);
        keep_decoded(data, decoded)
    } else {
        data
    }
}

/// Decompresses gzip data; data that is not gzip is returned as it came, and a
/// decoding failure gives `None`.
pub fn decompress_if_gzip(data: Vec<u8>) -> (r: Option<Vec<u8>>)
    ensures
        match r {
            Some(v) => if has_gzip_magic(data@) {
                gzip_decoded(data@) == Some(v@)
            } else {
                v@ == data@
            },
            None => has_gzip_magic(data@) && gzip_decoded(data@) is None,
        },
{
    if gzip_magic(&data) {
        gunzip(&data)
    } else {
        Some(data)
    }
}

} // verus!
