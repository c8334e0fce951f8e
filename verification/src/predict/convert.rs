//! NumPy `.npy` framing of radar sequences.

use vstd::prelude::*;

use crate::text::{chars_of, decimal, push_decimal, push_str};

verus! {

/// The dimensions of a shape in decimal, separated by `", "`.
pub open spec fn shape_list(s: Seq<usize>) -> Seq<char>
    decreases s.len(),
{
    if s.len() == 0 {
        Seq::empty()
    } else if s.len() == 1 {
        decimal(s[0] as nat)
    } else {
        shape_list(s.drop_last()) + ", "@ + decimal(s.last() as nat)
    }
}

/// The header dictionary of a little-endian `f32` array of the given shape.
pub open spec fn npy_dict(shape: Seq<usize>) -> Seq<char> {
    "{'descr': '<f4', 'fortran_order': False, 'shape': ("@ + shape_list(shape) + ",), }"@
}

/// The spaces added after a dictionary of `len` characters so that the header,
/// with its 10 leading bytes and final newline, fills a multiple of 64 bytes.
pub open spec fn npy_pad(len: nat) -> int {
    64 - ((10 + len) % 64)
}

/// The dictionary padded with spaces and ended by a newline.
pub open spec fn npy_padded(shape: Seq<usize>) -> Seq<char> {
    let d = npy_dict(shape);
    d + Seq::new((npy_pad(d.len()) - 1) as nat, |i: int| ' ') + "\n"@
}

/// The `.npy` header: magic `\x93NUMPY`, version 1.0, the padded dictionary's length
/// as a little-endian `u16` (truncated), then the padded dictionary.
pub open spec fn npy_header_bytes(shape: Seq<usize>) -> Seq<u8> {
    let p = npy_padded(shape);
    let len16 = p.len() % 65536;
    seq![0x93u8, 0x4eu8, 0x55u8, 0x4du8, 0x50u8, 0x59u8, 1u8, 0u8, (len16 % 256) as u8, (len16 / 256) as u8]
        + p.map_values(|c: char| #[verifier::truncate] (c as u8))
}

/// The padded header length, with the 10 leading bytes, is a multiple of 64.
pub proof fn law_npy_aligned(shape: Seq<usize>)
    ensures
        (10 + npy_padded(shape).len()) % 64 == 0,
{
    reveal_strlit("\n");
    let d = npy_dict(shape);
    let pad = npy_pad(d.len());
    assert(1 <= pad <= 64);
    assert(npy_padded(shape).len() == d.len() + pad);
    assert((10 + d.len() + (64 - ((10 + d.len()) % 64))) % 64 == 0) by (nonlinear_arith);
}

/// Appends the dimensions of `shape` separated by `", "`.
fn push_shape_list(s: &mut String, shape: &Vec<usize>)
    ensures
        final(s)@ == old(s)@ + shape_list(shape@),
{
    let ghost start = s@;
    let mut i: usize = 0;
    while i < shape.len()
        invariant
            i <= shape.len(),
            s@ == start + shape_list(shape@.subrange(0, i as int)),
        decreases shape.len() - i,
    {
        let ghost prev = s@;
        if i > 0 {
            push_str(s, ", ");
        }
        push_decimal(s, shape[i] as u64);
        proof {
            let t = shape@.subrange(0, i + 1);
            assert(t.drop_last() =~= shape@.subrange(0, i as int));
            assert(t.last() == shape@[i as int]);
            if i == 0 {
                assert(shape@.subrange(0, 0) =~= Seq::<usize>::empty());
                assert(s@ =~= start + shape_list(t));
            } else {
                assert(s@ =~= start + shape_list(t));
            }
        }
        i = i + 1;
    }
    assert(shape@.subrange(0, i as int) =~= shape@);
}

/// The `.npy` header for a little-endian `f32` array of the given shape.
pub fn npy_header(shape: &Vec<usize>) -> (b: Vec<u8>)
    ensures
        b@ == npy_header_bytes(shape@),
{
    let mut d = String::new();
    push_str(&mut d, "{'descr': '<f4', 'fortran_order': False, 'shape': (");
    push_shape_list(&mut d, shape);
    push_str(&mut d, ",), }");
    let dc = chars_of(d.as_str());
    let dlen = dc.len();
    // Lengths of real headers are tiny; a dictionary too long to count is refused
    // by the size of memory long before.
    let pad: usize = 64 - ((10 + (dlen % 64)) % 64);
    proof {
        assert(((10 + (dlen % 64)) % 64) == ((10 + dlen) % 64)) by (nonlinear_arith);
    }
    let mut p: Vec<char> = dc;
    let mut k: usize = 0;
    while k < pad - 1
        invariant
            1 <= pad <= 64,
            k <= pad - 1,
            p@ == d@ + Seq::new(k as nat, |i: int| ' '),
        decreases pad - 1 - k,
    {
        p.push(' ');
        k = k + 1;
        assert(p@ =~= d@ + Seq::new(k as nat, |i: int| ' '));
    }
    p.push('\n');
    proof {
        reveal_strlit("\n");
        assert(d@ == npy_dict(shape@));
        assert(pad == npy_pad(d@.len()));
        assert(p@ =~= npy_padded(shape@));
    }
    let plen = p.len();
    let len16: usize = plen % 65536;
    let mut b: Vec<u8> = Vec::new();
    b.push(0x93);
    b.push(0x4e);
    b.push(0x55);
    b.push(0x4d);
    b.push(0x50);
    b.push(0x59);
    b.push(1);
    b.push(0);
    b.push((len16 % 256) as u8);
    b.push((len16 / 256) as u8);
    let ghost head = b@;
    let mut i: usize = 0;
    while i < p.len()
        invariant
            i <= p.len(),
            b@ == head + p@.subrange(0, i as int).map_values(|c: char| #[verifier::truncate] (c as u8)),
        decreases p.len() - i,
    {
        b.push(#[verifier::truncate] (p[i] as u8));
        i = i + 1;
        assert(b@ =~= head + p@.subrange(0, i as int).map_values(|c: char| #[verifier::truncate] (c as u8)));
    }
    assert(p@.subrange(0, i as int) =~= p@);
    assert(b@ =~= npy_header_bytes(shape@));
    b
}

} // verus!
