//! Animated GIF export: palette quantization of RGBA frames and GIF encoding.

use std::collections::HashMap;
use vstd::prelude::*;

use crate::text::{decimal, push_decimal, push_str};

verus! {

broadcast use vstd::std_specs::hash::group_hash_axioms;

// ── Nearest palette colour ──────────────────────────────────────────

/// Squared Euclidean distance between two RGB colours.
pub open spec fn sqdist(c: [u8; 3], t: [u8; 3]) -> int {
    (c[0] - t[0]) * (c[0] - t[0]) + (c[1] - t[1]) * (c[1] - t[1]) + (c[2] - t[2]) * (c[2] - t[2])
}

/// `i` is the first palette entry at the smallest distance from `t`.
pub open spec fn is_nearest(pal: Seq<[u8; 3]>, t: [u8; 3], i: int) -> bool {
    &&& 0 <= i < pal.len()
    &&& forall|j: int| 0 <= j < pal.len() ==> sqdist(pal[i], t) <= #[trigger] sqdist(pal[j], t)
    &&& forall|j: int| 0 <= j < i ==> sqdist(pal[i], t) < #[trigger] sqdist(pal[j], t)
}

/// The first palette entry nearest to `t`.
pub open spec fn nearest_index(pal: Seq<[u8; 3]>, t: [u8; 3]) -> int {
    choose|i: int| is_nearest(pal, t, i)
}

/// There is only one first-nearest entry.
pub proof fn lemma_nearest_unique(pal: Seq<[u8; 3]>, t: [u8; 3], i: int, j: int)
    requires
        is_nearest(pal, t, i),
        is_nearest(pal, t, j),
    ensures
        i == j,
{
    if i < j {
        assert(sqdist(pal[j], t) < sqdist(pal[i], t));
    } else if j < i {
        assert(sqdist(pal[i], t) < sqdist(pal[j], t));
    }
}

proof fn lemma_nearest_prefix(pal: Seq<[u8; 3]>, t: [u8; 3], n: int) -> (i: int)
    requires
        1 <= n <= pal.len(),
    ensures
        is_nearest(pal.take(n), t, i),
    decreases n,
{
    if n == 1 {
        lemma_sqdist_bound(pal[0], t);
        0
    } else {
        let j = lemma_nearest_prefix(pal, t, n - 1);
        let p0 = pal.take(n - 1);
        let p1 = pal.take(n);
        assert forall|k: int| 0 <= k < n - 1 implies p1[k] == p0[k] by {}
        if sqdist(pal[n - 1], t) < sqdist(pal[j], t) {
            assert forall|k: int| 0 <= k < p1.len() implies sqdist(p1[n - 1], t) <= #[trigger] sqdist(p1[k], t) by {
                if k < n - 1 {
                    assert(sqdist(p0[j], t) <= sqdist(p0[k], t));
                }
            }
            assert forall|k: int| 0 <= k < n - 1 implies sqdist(p1[n - 1], t) < #[trigger] sqdist(p1[k], t) by {
                assert(sqdist(p0[j], t) <= sqdist(p0[k], t));
            }
            n - 1
        } else {
            assert forall|k: int| 0 <= k < p1.len() implies sqdist(p1[j], t) <= #[trigger] sqdist(p1[k], t) by {
                if k < n - 1 {
                    assert(sqdist(p0[j], t) <= sqdist(p0[k], t));
                }
            }
            assert forall|k: int| 0 <= k < j implies sqdist(p1[j], t) < #[trigger] sqdist(p1[k], t) by {
                assert(sqdist(p0[j], t) < sqdist(p0[k], t));
            }
            j
        }
    }
}

/// A non-empty palette has a first nearest entry, which `nearest_index` names.
proof fn lemma_nearest_exists(pal: Seq<[u8; 3]>, t: [u8; 3])
    requires
        pal.len() > 0,
    ensures
        is_nearest(pal, t, nearest_index(pal, t)),
{
    let i = lemma_nearest_prefix(pal, t, pal.len() as int);
    assert(pal.take(pal.len() as int) =~= pal);
    assert(is_nearest(pal, t, i));
}

/// The nearest palette colour is nearest in Euclidean RGB distance, summing the
/// squared differences of all three channels; on ties the first entry wins, and a
/// colour that is in the palette is matched exactly.
pub proof fn law_nearest_colour(pal: Seq<[u8; 3]>, t: [u8; 3])
    requires
        pal.len() > 0,
    ensures
        ({
            let i = nearest_index(pal, t);
            &&& 0 <= i < pal.len()
            &&& forall|k: int| 0 <= k < pal.len() ==>
                (pal[i][0] - t[0]) * (pal[i][0] - t[0]) + (pal[i][1] - t[1]) * (pal[i][1] - t[1])
                    + (pal[i][2] - t[2]) * (pal[i][2] - t[2])
                <= (#[trigger] pal[k][0] - t[0]) * (pal[k][0] - t[0]) + (pal[k][1] - t[1]) * (pal[k][1] - t[1])
                    + (pal[k][2] - t[2]) * (pal[k][2] - t[2])
            &&& forall|k: int| 0 <= k < i ==>
                (pal[i][0] - t[0]) * (pal[i][0] - t[0]) + (pal[i][1] - t[1]) * (pal[i][1] - t[1])
                    + (pal[i][2] - t[2]) * (pal[i][2] - t[2])
                < (#[trigger] pal[k][0] - t[0]) * (pal[k][0] - t[0]) + (pal[k][1] - t[1]) * (pal[k][1] - t[1])
                    + (pal[k][2] - t[2]) * (pal[k][2] - t[2])
            &&& pal.contains(t) ==> pal[i] == t
        }),
{
    lemma_nearest_exists(pal, t);
    let i = nearest_index(pal, t);
    assert forall|k: int| 0 <= k < pal.len() implies
        (pal[i][0] - t[0]) * (pal[i][0] - t[0]) + (pal[i][1] - t[1]) * (pal[i][1] - t[1])
            + (pal[i][2] - t[2]) * (pal[i][2] - t[2])
        <= (#[trigger] pal[k][0] - t[0]) * (pal[k][0] - t[0]) + (pal[k][1] - t[1]) * (pal[k][1] - t[1])
            + (pal[k][2] - t[2]) * (pal[k][2] - t[2]) by {
        assert(sqdist(pal[i], t) <= sqdist(pal[k], t));
    }
    assert forall|k: int| 0 <= k < i implies
        (pal[i][0] - t[0]) * (pal[i][0] - t[0]) + (pal[i][1] - t[1]) * (pal[i][1] - t[1])
            + (pal[i][2] - t[2]) * (pal[i][2] - t[2])
        < (#[trigger] pal[k][0] - t[0]) * (pal[k][0] - t[0]) + (pal[k][1] - t[1]) * (pal[k][1] - t[1])
            + (pal[k][2] - t[2]) * (pal[k][2] - t[2]) by {
        assert(sqdist(pal[i], t) < sqdist(pal[k], t));
    }
    if pal.contains(t) {
        let k = choose|k: int| 0 <= k < pal.len() && pal[k] == t;
        assert(pal[k][0] == t[0] && pal[k][1] == t[1] && pal[k][2] == t[2]);
        assert(sqdist(pal[k], t) == 0);
        let c = pal[i];
        assert(sqdist(c, t) <= 0);
        assert((c[0] - t[0]) * (c[0] - t[0]) >= 0) by (nonlinear_arith);
        assert((c[1] - t[1]) * (c[1] - t[1]) >= 0) by (nonlinear_arith);
        assert((c[2] - t[2]) * (c[2] - t[2]) >= 0) by (nonlinear_arith);
        assert(c[0] == t[0]) by (nonlinear_arith)
            requires (c[0] - t[0]) * (c[0] - t[0]) <= 0;
        assert(c[1] == t[1]) by (nonlinear_arith)
            requires (c[1] - t[1]) * (c[1] - t[1]) <= 0;
        assert(c[2] == t[2]) by (nonlinear_arith)
            requires (c[2] - t[2]) * (c[2] - t[2]) <= 0;
        assert(c =~= t);
    }
}

proof fn lemma_sqdist_bound(c: [u8; 3], t: [u8; 3])
    ensures
        0 <= sqdist(c, t) <= 3 * 255 * 255,
{
    assert(0 <= (c[0] - t[0]) * (c[0] - t[0]) <= 255 * 255) by (nonlinear_arith)
        requires -255 <= c[0] - t[0] <= 255;
    assert(0 <= (c[1] - t[1]) * (c[1] - t[1]) <= 255 * 255) by (nonlinear_arith)
        requires -255 <= c[1] - t[1] <= 255;
    assert(0 <= (c[2] - t[2]) * (c[2] - t[2]) <= 255 * 255) by (nonlinear_arith)
        requires -255 <= c[2] - t[2] <= 255;
}

fn sqdist_exec(c: [u8; 3], t: [u8; 3]) -> (d: u32)
    ensures
        d as int == sqdist(c, t),
{
    proof {
        lemma_sqdist_bound(c, t);
    }
    let dr = if c[0] >= t[0] { (c[0] - t[0]) as u32 } else { (t[0] - c[0]) as u32 };
    let dg = if c[1] >= t[1] { (c[1] - t[1]) as u32 } else { (t[1] - c[1]) as u32 };
    let db = if c[2] >= t[2] { (c[2] - t[2]) as u32 } else { (t[2] - c[2]) as u32 };
    assert(dr * dr <= 255 * 255) by (nonlinear_arith) requires dr <= 255;
    assert(dg * dg <= 255 * 255) by (nonlinear_arith) requires dg <= 255;
    assert(db * db <= 255 * 255) by (nonlinear_arith) requires db <= 255;
    assert(dr * dr == (c[0] - t[0]) * (c[0] - t[0])) by (nonlinear_arith)
        requires dr == c[0] - t[0] || dr == t[0] - c[0];
    assert(dg * dg == (c[1] - t[1]) * (c[1] - t[1])) by (nonlinear_arith)
        requires dg == c[1] - t[1] || dg == t[1] - c[1];
    assert(db * db == (c[2] - t[2]) * (c[2] - t[2])) by (nonlinear_arith)
        requires db == c[2] - t[2] || db == t[2] - c[2];
    dr * dr + dg * dg + db * db
}

/// Index of the nearest palette colour to `target` (the first one on ties), as a
/// byte; 0 for an empty palette.
pub fn find_nearest_color(palette: &Vec<[u8; 3]>, target: [u8; 3]) -> (r: u8)
    ensures
        palette@.len() == 0 ==> r == 0,
        palette@.len() > 0 ==> is_nearest(palette@, target, nearest_index(palette@, target)),
        palette@.len() > 0 ==> r as int == nearest_index(palette@, target) % 256,
{
    let mut best_idx: u8 = 0;
    let mut best_dist: u32 = u32::MAX;
    let ghost mut best: int = -1;
    let mut i: usize = 0;
    while i < palette.len()
        invariant
            i <= palette@.len(),
            i == 0 ==> best_idx == 0 && best_dist == u32::MAX,
            i > 0 ==> 0 <= best < i && best_idx as int == best % 256 && best_dist as int == sqdist(palette@[best], target),
            i > 0 ==> forall|j: int| 0 <= j < i ==> sqdist(palette@[best], target) <= #[trigger] sqdist(palette@[j], target),
            i > 0 ==> forall|j: int| 0 <= j < best ==> sqdist(palette@[best], target) < #[trigger] sqdist(palette@[j], target),
        decreases palette@.len() - i,
    {
        let dist = sqdist_exec(palette[i], target);
        proof {
            lemma_sqdist_bound(palette@[i as int], target);
        }
        if dist < best_dist {
            best_dist = dist;
            best_idx = (i % 256) as u8;
            proof {
                best = i as int;
            }
        }
        i = i + 1;
    }
    proof {
        if palette@.len() > 0 {
            assert(is_nearest(palette@, target, best));
            let n = nearest_index(palette@, target);
            lemma_nearest_unique(palette@, target, best, n);
        }
    }
    best_idx
}

// ── Palette quantization ────────────────────────────────────────────

/// The colour map key of an RGB colour.
pub open spec fn rgb_key(c: [u8; 3]) -> u32 {
    (c[0] as int * 65536 + c[1] as int * 256 + c[2] as int) as u32
}

/// Quantizer state: (palette, colour map from `rgb_key` to index, transparent index,
/// indices emitted so far).
pub type QuantState = (Seq<[u8; 3]>, Map<u32, u8>, Option<u8>, Seq<u8>);

/// One pixel through the quantizer. A pixel with alpha below 128 gets the
/// transparent index, which is allocated (as black) on first use while the palette
/// has room, else 0. An opaque colour gets its existing index, or a new palette slot
/// while fewer than 256 colours are in use, or else the nearest palette colour.
pub open spec fn quant_step(st: QuantState, r: u8, g: u8, b: u8, a: u8) -> QuantState {
    let (pal, map, trans, out) = st;
    if a < 128 {
        match trans {
            Some(t) => (pal, map, trans, out.push(t)),
            None => if pal.len() < 256 {
                (pal.push([0u8, 0u8, 0u8]), map, Some(pal.len() as u8), out.push(pal.len() as u8))
            } else {
                (pal, map, Some(0u8), out.push(0u8))
            },
        }
    } else {
        let c = [r, g, b];
        let k = rgb_key(c);
        if map.contains_key(k) {
            (pal, map, trans, out.push(map[k]))
        } else if pal.len() < 256 {
            (pal.push(c), map.insert(k, pal.len() as u8), trans, out.push(pal.len() as u8))
        } else {
            (pal, map, trans, out.push((nearest_index(pal, c) % 256) as u8))
        }
    }
}

/// The quantizer state after the first `n` pixels of the RGBA bytes `px`.
pub open spec fn quant_prefix(px: Seq<u8>, n: nat) -> QuantState
    decreases n,
{
    if n == 0 {
        (Seq::empty(), Map::empty(), None, Seq::empty())
    } else {
        let i = n - 1;
        quant_step(quant_prefix(px, (n - 1) as nat), px[4 * i], px[4 * i + 1], px[4 * i + 2], px[4 * i + 3])
    }
}

/// Smallest power of two that is at least `n`, searching up from `p`.
pub open spec fn pow2_at_least(p: nat, n: nat) -> nat
    decreases (if p < n { n - p } else { 0 }),
{
    if p == 0 || p >= n {
        p
    } else {
        pow2_at_least(2 * p, n)
    }
}

/// Palette size after padding: the smallest power of two holding `n` colours,
/// and at least 2 (`next_power_of_two` of `max(n, 2)`).
pub open spec fn padded_len(n: nat) -> nat {
    pow2_at_least(1, if n < 2 { 2 } else { n })
}

/// The palette padded with black up to `padded_len`.
pub open spec fn padded(pal: Seq<[u8; 3]>) -> Seq<[u8; 3]> {
    pal + Seq::new((padded_len(pal.len()) - pal.len()) as nat, |i: int| [0u8, 0u8, 0u8])
}

/// Colours flattened to `[r, g, b, r, g, b, ...]`.
pub open spec fn flatten(pal: Seq<[u8; 3]>) -> Seq<u8>
    decreases pal.len(),
{
    if pal.len() == 0 {
        Seq::empty()
    } else {
        flatten(pal.drop_last()) + seq![pal.last()[0], pal.last()[1], pal.last()[2]]
    }
}

/// An indexed-colour frame ready for GIF encoding.
pub struct IndexedFrame {
    /// One palette index per pixel.
    pub indices: Vec<u8>,
    /// The palette, flattened to `[r, g, b, ...]`, with a power-of-two number of colours.
    pub palette: Vec<u8>,
    /// The palette index used for transparent pixels, if any pixel was transparent.
    pub transparent: Option<u8>,
}

proof fn lemma_pow2_at_least(p: nat, n: nat)
    requires
        p > 0,
    ensures
        pow2_at_least(p, n) >= n,
        pow2_at_least(p, n) >= p,
        p < n ==> pow2_at_least(p, n) < 2 * n,
    decreases (if p < n { n - p } else { 0 }),
{
    if p < n {
        lemma_pow2_at_least(2 * p, n);
    }
}

fn pad_palette(pal: &mut Vec<[u8; 3]>)
    requires
        old(pal)@.len() <= 256,
    ensures
        final(pal)@ == padded(old(pal)@),
{
    let ghost start = pal@;
    while pal.len() < 2
        invariant
            start.len() <= 256,
            pal@.len() <= 256,
            pal@.len() >= start.len(),
            pal@ == start + Seq::new((pal@.len() - start.len()) as nat, |i: int| [0u8, 0u8, 0u8]),
            pal@.len() > start.len() ==> pal@.len() <= 2,
        decreases 2 - pal@.len(),
    {
        pal.push([0, 0, 0]);
        assert(pal@ =~= start + Seq::new((pal@.len() - start.len()) as nat, |i: int| [0u8, 0u8, 0u8]));
    }
    let m = pal.len();
    let mut p: usize = 1;
    while p < m
        invariant
            2 <= m <= 256,
            p == 1 || p == 2 || p == 4 || p == 8 || p == 16 || p == 32 || p == 64 || p == 128 || p == 256,
            pow2_at_least(p as nat, m as nat) == pow2_at_least(1, m as nat),
        decreases 256 - p,
    {
        p = p * 2;
    }
    proof {
        lemma_pow2_at_least(1, m as nat);
        let n0 = start.len();
        assert(m as nat == (if n0 < 2 { 2 } else { n0 }));
    }
    while pal.len() < p
        invariant
            start.len() <= 256,
            p <= 256,
            pal@.len() <= p,
            pal@.len() >= start.len(),
            pal@ == start + Seq::new((pal@.len() - start.len()) as nat, |i: int| [0u8, 0u8, 0u8]),
        decreases p - pal@.len(),
    {
        pal.push([0, 0, 0]);
        assert(pal@ =~= start + Seq::new((pal@.len() - start.len()) as nat, |i: int| [0u8, 0u8, 0u8]));
    }
}

fn flatten_palette(pal: &Vec<[u8; 3]>) -> (r: Vec<u8>)
    ensures
        r@ == flatten(pal@),
{
    let mut r: Vec<u8> = Vec::new();
    let mut i: usize = 0;
    while i < pal.len()
        invariant
            i <= pal@.len(),
            r@ == flatten(pal@.take(i as int)),
        decreases pal@.len() - i,
    {
        let c = pal[i];
        r.push(c[0]);
        r.push(c[1]);
        r.push(c[2]);
        proof {
            assert(pal@.take(i + 1).drop_last() =~= pal@.take(i as int));
            assert(r@ =~= flatten(pal@.take(i as int)) + seq![c[0], c[1], c[2]]);
        }
        i = i + 1;
    }
    assert(pal@.take(pal@.len() as int) =~= pal@);
    r
}

/// Converts RGBA pixels (4 bytes each) to palette indices with a palette of at most
/// 256 colours (see `quant_step`), padded with black to a power-of-two size.
pub fn index_frame(rgba: &Vec<u8>) -> (f: IndexedFrame)
    ensures
        ({
            let st = quant_prefix(rgba@, rgba@.len() / 4);
            &&& f.indices@ == st.3
            &&& f.transparent == st.2
            &&& f.palette@ == flatten(padded(st.0))
        }),
        f.indices@.len() == rgba@.len() / 4,
{
    let n = rgba.len() / 4;
    let mut palette_colors: Vec<[u8; 3]> = Vec::new();
    let mut color_map: HashMap<u32, u8> = HashMap::new();
    let mut indexed: Vec<u8> = Vec::new();
    let mut transparent_index: Option<u8> = None;
    let mut i: usize = 0;
    while i < n
        invariant
            n == rgba@.len() / 4,
            i <= n,
            (palette_colors@, color_map@, transparent_index, indexed@) == quant_prefix(rgba@, i as nat),
            palette_colors@.len() <= 256,
        decreases n - i,
    {
        assert(4 * i + 3 < rgba.len()) by (nonlinear_arith)
            requires i < n, n == rgba.len() / 4;
        let r = rgba[4 * i];
        let g = rgba[4 * i + 1];
        let b = rgba[4 * i + 2];
        let a = rgba[4 * i + 3];
        if a < 128 {
            if transparent_index.is_none() {
                if palette_colors.len() < 256 {
                    transparent_index = Some(palette_colors.len() as u8);
                    palette_colors.push([0, 0, 0]);
                } else {
                    transparent_index = Some(0);
                }
            }
            indexed.push(transparent_index.unwrap());
        } else {
            let rgb = [r, g, b];
            let key = (r as u32) * 65536 + (g as u32) * 256 + (b as u32);
            match color_map.get(&key) {
                Some(idx) => {
                    indexed.push(*idx);
                },
                None => {
                    if palette_colors.len() < 256 {
                        let idx = palette_colors.len() as u8;
                        palette_colors.push(rgb);
                        color_map.insert(key, idx);
                        indexed.push(idx);
                    } else {
                        let nearest = find_nearest_color(&palette_colors, rgb);
                        indexed.push(nearest);
                    }
                },
            }
        }
        i = i + 1;
    }
    let ghost pal = palette_colors@;
    pad_palette(&mut palette_colors);
    let flat = flatten_palette(&palette_colors);
    proof {
        lemma_quant_monotone(rgba@, n as nat, n as nat);
    }
    IndexedFrame { indices: indexed, palette: flat, transparent: transparent_index }
}

/// Distinct colours have distinct colour map keys.
pub proof fn lemma_rgb_key_injective(c: [u8; 3], d: [u8; 3])
    requires
        rgb_key(c) == rgb_key(d),
    ensures
        c == d,
{
    assert(c[0] == d[0] && c[1] == d[1] && c[2] == d[2]);
    assert(c =~= d);
}

/// The quantizer's bookkeeping while its palette has room: every colour map entry
/// points at its colour, the transparent index at a black slot, and every emitted
/// index at a palette slot.
pub open spec fn quant_consistent(st: QuantState) -> bool {
    let (pal, map, trans, out) = st;
    &&& forall|k: u32| #[trigger] map.contains_key(k) ==> map[k] < pal.len() && rgb_key(pal[map[k] as int]) == k
    &&& trans matches Some(t) ==> t < pal.len() && pal[t as int] == [0u8, 0u8, 0u8]
    &&& forall|j: int| 0 <= j < out.len() ==> #[trigger] out[j] < pal.len()
}

proof fn lemma_quant_monotone(px: Seq<u8>, m: nat, n: nat)
    requires
        m <= n,
        4 * n <= px.len(),
    ensures
        quant_prefix(px, m).0.len() <= quant_prefix(px, n).0.len(),
        quant_prefix(px, m).0 == quant_prefix(px, n).0.take(quant_prefix(px, m).0.len() as int),
        quant_prefix(px, m).3 == quant_prefix(px, n).3.take(m as int),
        quant_prefix(px, n).3.len() == n,
    decreases n,
{
    if n > 0 {
        let prev = quant_prefix(px, (n - 1) as nat);
        let cur = quant_prefix(px, n);
        lemma_quant_monotone(px, (n - 1) as nat, (n - 1) as nat);
        assert(prev.0 == cur.0.take(prev.0.len() as int)) by {
            assert(prev.0 =~= cur.0.take(prev.0.len() as int));
        }
        assert(prev.3 =~= cur.3.take(n - 1));
        if m < n {
            lemma_quant_monotone(px, m, (n - 1) as nat);
            assert(quant_prefix(px, m).0 =~= cur.0.take(quant_prefix(px, m).0.len() as int));
            assert(quant_prefix(px, m).3 =~= cur.3.take(m as int));
        } else {
            assert(cur.0 =~= cur.0.take(cur.0.len() as int));
            assert(cur.3 =~= cur.3.take(m as int));
        }
    } else {
        assert(quant_prefix(px, 0).0 =~= quant_prefix(px, 0).0.take(0));
        assert(quant_prefix(px, 0).3 =~= quant_prefix(px, 0).3.take(0));
    }
}

/// Pixel `j`'s index in state `st` names its colour, or the transparent black slot.
pub open spec fn pixel_exact(st: QuantState, px: Seq<u8>, j: int) -> bool {
    let (pal, map, trans, out) = st;
    &&& px[4 * j + 3] >= 128 ==> pal[out[j] as int] == [px[4 * j], px[4 * j + 1], px[4 * j + 2]]
    &&& px[4 * j + 3] < 128 ==> trans == Some(out[j]) && pal[out[j] as int] == [0u8, 0u8, 0u8]
}

proof fn lemma_quant_consistent(px: Seq<u8>, n: nat)
    requires
        4 * n <= px.len(),
        quant_prefix(px, n).0.len() < 256,
    ensures
        quant_consistent(quant_prefix(px, n)),
        forall|j: int| 0 <= j < n ==> #[trigger] pixel_exact(quant_prefix(px, n), px, j),
    decreases n,
{
    if n > 0 {
        let i = n - 1;
        lemma_quant_monotone(px, (n - 1) as nat, n);
        lemma_quant_consistent(px, (n - 1) as nat);
        let prev = quant_prefix(px, (n - 1) as nat);
        let cur = quant_prefix(px, n);
        let (pal0, map0, trans0, out0) = prev;
        let (pal, map, trans, out) = cur;
        let c = [px[4 * i], px[4 * i + 1], px[4 * i + 2]];
        assert(out.len() == n);
        assert forall|j: int| 0 <= j < pal0.len() implies pal[j] == pal0[j] by {
            assert(pal0 == pal.take(pal0.len() as int));
        }
        assert forall|j: int| 0 <= j < i implies out[j] == out0[j] by {
            assert(out0 == out.take(i as int));
        }
        if px[4 * i + 3] < 128 {
        } else {
            let k = rgb_key(c);
            if map0.contains_key(k) {
                lemma_rgb_key_injective(pal0[map0[k] as int], c);
            } else {
                assert forall|k2: u32| #[trigger] map.contains_key(k2) implies map[k2] < pal.len() && rgb_key(pal[map[k2] as int]) == k2 by {
                    if k2 != k {
                        assert(map0.contains_key(k2));
                    }
                }
            }
        }
        assert forall|j: int| 0 <= j < n implies #[trigger] pixel_exact(cur, px, j) by {
            if j < i {
                assert(pixel_exact(prev, px, j));
                assert(out0[j] < pal0.len());
                assert(out[j] == out0[j]);
                assert(pal[out[j] as int] == pal0[out0[j] as int]);
                if px[4 * j + 3] < 128 {
                    assert(trans0 == Some(out0[j]));
                }
            }
        }
    }
}

/// While fewer than 256 palette slots are in use, quantization is lossless: every
/// opaque pixel's index names exactly its colour, and every transparent pixel gets
/// the transparent index, a black slot.
pub proof fn law_quantize_lossless(px: Seq<u8>)
    requires
        quant_prefix(px, px.len() / 4).0.len() < 256,
    ensures
        ({
            let n = px.len() / 4;
            let (pal, map, trans, out) = quant_prefix(px, n);
            &&& out.len() == n
            &&& forall|j: int| 0 <= j < n ==> #[trigger] out[j] < pal.len()
            &&& forall|j: int| 0 <= j < n && px[4 * j + 3] >= 128 ==> #[trigger] pal[out[j] as int] == [px[4 * j], px[4 * j + 1], px[4 * j + 2]]
            &&& forall|j: int| 0 <= j < n && px[4 * j + 3] < 128 ==> trans == Some(#[trigger] out[j]) && pal[out[j] as int] == [0u8, 0u8, 0u8]
        }),
{
    let n = px.len() / 4;
    lemma_quant_monotone(px, n, n);
    lemma_quant_consistent(px, n);
    let (pal, map, trans, out) = quant_prefix(px, n);
    assert forall|j: int| 0 <= j < n && px[4 * j + 3] >= 128 implies #[trigger] pal[out[j] as int] == [px[4 * j], px[4 * j + 1], px[4 * j + 2]] by {
        assert(pixel_exact(quant_prefix(px, n), px, j));
    }
    assert forall|j: int| 0 <= j < n && px[4 * j + 3] < 128 implies trans == Some(#[trigger] out[j]) && pal[out[j] as int] == [0u8, 0u8, 0u8] by {
        assert(pixel_exact(quant_prefix(px, n), px, j));
    }
}

/// The colour of pixel `j` of the RGBA bytes `px`.
spec fn pixel_rgb(px: Seq<u8>, j: int) -> [u8; 3] {
    [px[4 * j], px[4 * j + 1], px[4 * j + 2]]
}

/// Palette entry `x` is `c` itself, or the palette is full and entry `x` is nearest
/// to `c` among all its entries.
spec fn near_ok(pal: Seq<[u8; 3]>, x: u8, c: [u8; 3]) -> bool {
    ||| pal[x as int] == c
    ||| pal.len() == 256 && forall|k: int| 0 <= k < pal.len() ==> sqdist(pal[x as int], c) <= #[trigger] sqdist(pal[k], c)
}

proof fn lemma_quant_near(px: Seq<u8>, n: nat)
    requires
        4 * n <= px.len(),
    ensures
        ({
            let (pal, map, trans, out) = quant_prefix(px, n);
            &&& pal.len() <= 256
            &&& out.len() == n
            &&& forall|k: u32| #[trigger] map.contains_key(k) ==> map[k] < pal.len() && rgb_key(pal[map[k] as int]) == k
            &&& trans matches Some(t) ==> t < pal.len()
            &&& forall|j: int| 0 <= j < n ==> #[trigger] out[j] < pal.len()
            &&& forall|j: int| 0 <= j < n && px[4 * j + 3] >= 128 ==> near_ok(pal, #[trigger] out[j], pixel_rgb(px, j))
        }),
    decreases n,
{
    if n > 0 {
        let i = n - 1;
        lemma_quant_near(px, (n - 1) as nat);
        let (pal0, map0, trans0, out0) = quant_prefix(px, (n - 1) as nat);
        let (pal, map, trans, out) = quant_prefix(px, n);
        let c = [px[4 * i], px[4 * i + 1], px[4 * i + 2]];
        assert(c == pixel_rgb(px, i as int));
        assert(out == out0.push(out[i as int]));
        // The palette only grows by appending, and not once it is full.
        assert(pal == pal0 || (pal0.len() < 256 && pal == pal0.push(pal[pal0.len() as int])));
        assert forall|j: int| 0 <= j < i implies #[trigger] pal[out0[j] as int] == pal0[out0[j] as int] by {}
        if px[4 * i + 3] >= 128 {
            let k = rgb_key(c);
            if map0.contains_key(k) {
                lemma_rgb_key_injective(pal0[map0[k] as int], c);
            } else if pal0.len() < 256 {
                assert forall|k2: u32| #[trigger] map.contains_key(k2) implies map[k2] < pal.len() && rgb_key(pal[map[k2] as int]) == k2 by {
                    if k2 != k {
                        assert(map0.contains_key(k2));
                    }
                }
            } else {
                lemma_nearest_exists(pal0, c);
                let x = nearest_index(pal0, c);
                assert(x % 256 == x);
                assert(out[i as int] == x as u8);
                assert forall|m: int| 0 <= m < pal.len() implies sqdist(pal[out[i as int] as int], c) <= #[trigger] sqdist(pal[m], c) by {
                    assert(is_nearest(pal0, c, x));
                }
            }
        }
        assert forall|j: int| 0 <= j < n && px[4 * j + 3] >= 128 implies near_ok(pal, #[trigger] out[j], pixel_rgb(px, j)) by {
            if j < i {
                assert(out[j] == out0[j]);
                assert(near_ok(pal0, out0[j], pixel_rgb(px, j)));
                if pal0[out0[j] as int] != pixel_rgb(px, j) {
                    assert(pal == pal0);
                }
            }
        }
        assert forall|j: int| 0 <= j < n implies #[trigger] out[j] < pal.len() by {
            if j < i {
                assert(out[j] == out0[j]);
            }
        }
    }
}

/// Every opaque pixel of a frame is drawn with the palette colour nearest to its
/// own in Euclidean RGB distance: its colour itself while the palette has room, and
/// once 256 colours are taken the nearest of them (a colour beyond the 256th is
/// never replaced by an arbitrary entry).
pub proof fn law_quantized_nearest(px: Seq<u8>)
    ensures
        ({
            let n = px.len() / 4;
            let st = quant_prefix(px, n);
            let pal = padded(st.0);
            forall|j: int| 0 <= j < n && px[4 * j + 3] >= 128 ==> {
                let x = pal[#[trigger] st.3[j] as int];
                &&& st.3[j] < pal.len()
                &&& forall|k: int| 0 <= k < pal.len() ==>
                    (x[0] - px[4 * j]) * (x[0] - px[4 * j]) + (x[1] - px[4 * j + 1]) * (x[1] - px[4 * j + 1])
                        + (x[2] - px[4 * j + 2]) * (x[2] - px[4 * j + 2])
                    <= (#[trigger] pal[k][0] - px[4 * j]) * (pal[k][0] - px[4 * j])
                        + (pal[k][1] - px[4 * j + 1]) * (pal[k][1] - px[4 * j + 1])
                        + (pal[k][2] - px[4 * j + 2]) * (pal[k][2] - px[4 * j + 2])
            }
        }),
{
    let n = px.len() / 4;
    assert(4 * n <= px.len());
    lemma_quant_near(px, n);
    let st = quant_prefix(px, n);
    let p0 = st.0;
    let pal = padded(p0);
    let m: nat = if p0.len() < 2 { 2 } else { p0.len() };
    lemma_pow2_at_least(1, m);
    assert(pal.len() >= p0.len());
    assert forall|y: int| 0 <= y < p0.len() implies pal[y] == p0[y] by {}
    if p0.len() == 256 {
        lemma_pow2_at_least_le(1, m, 256);
        assert(pal =~= p0);
    }
    assert forall|j: int| 0 <= j < n && px[4 * j + 3] >= 128 implies {
        let x = pal[#[trigger] st.3[j] as int];
        &&& st.3[j] < pal.len()
        &&& forall|k: int| 0 <= k < pal.len() ==>
            (x[0] - px[4 * j]) * (x[0] - px[4 * j]) + (x[1] - px[4 * j + 1]) * (x[1] - px[4 * j + 1])
                + (x[2] - px[4 * j + 2]) * (x[2] - px[4 * j + 2])
            <= (#[trigger] pal[k][0] - px[4 * j]) * (pal[k][0] - px[4 * j])
                + (pal[k][1] - px[4 * j + 1]) * (pal[k][1] - px[4 * j + 1])
                + (pal[k][2] - px[4 * j + 2]) * (pal[k][2] - px[4 * j + 2])
    } by {
        let c = pixel_rgb(px, j);
        let xi = st.3[j];
        assert(near_ok(p0, xi, c));
        assert(pal[xi as int] == p0[xi as int]);
        assert(c[0] == px[4 * j] && c[1] == px[4 * j + 1] && c[2] == px[4 * j + 2]);
        let x = pal[xi as int];
        assert forall|k: int| 0 <= k < pal.len() implies
            (x[0] - px[4 * j]) * (x[0] - px[4 * j]) + (x[1] - px[4 * j + 1]) * (x[1] - px[4 * j + 1])
                + (x[2] - px[4 * j + 2]) * (x[2] - px[4 * j + 2])
            <= (#[trigger] pal[k][0] - px[4 * j]) * (pal[k][0] - px[4 * j])
                + (pal[k][1] - px[4 * j + 1]) * (pal[k][1] - px[4 * j + 1])
                + (pal[k][2] - px[4 * j + 2]) * (pal[k][2] - px[4 * j + 2]) by {
            lemma_sqdist_bound(pal[k], c);
            if p0[xi as int] == c {
                assert(x[0] == c[0] && x[1] == c[1] && x[2] == c[2]);
                assert(sqdist(x, c) == 0);
            } else {
                assert(p0.len() == 256);
                assert(sqdist(p0[xi as int], c) <= sqdist(p0[k], c));
            }
            assert(sqdist(x, c) <= sqdist(pal[k], c));
        }
    }
}

/// The padded palette size is a power of two, at least 2 and at least the number of
/// colours, and less than twice that; for at most 256 colours it is at most 256.
pub proof fn law_padded_len(n: nat)
    ensures
        padded_len(n) >= 2,
        padded_len(n) >= n,
        n > 2 ==> padded_len(n) < 2 * n,
        n <= 256 ==> padded_len(n) <= 256,
        exists|e: nat| padded_len(n) == vstd::arithmetic::power2::pow2(e),
{
    let m: nat = if n < 2 { 2 } else { n };
    lemma_pow2_at_least(1, m);
    vstd::arithmetic::power2::lemma2_to64();
    lemma_pow2_at_least_is_pow2(1, m, 0);
    if n <= 256 {
        lemma_pow2_at_least_le(1, m, 256);
    }
}

proof fn lemma_pow2_at_least_is_pow2(p: nat, n: nat, e: nat)
    requires
        p == vstd::arithmetic::power2::pow2(e),
    ensures
        exists|f: nat| pow2_at_least(p, n) == vstd::arithmetic::power2::pow2(f),
    decreases (if p < n { n - p } else { 0 }),
{
    vstd::arithmetic::power2::lemma_pow2_pos(e);
    if p < n {
        vstd::arithmetic::power2::lemma_pow2_unfold(e + 1);
        lemma_pow2_at_least_is_pow2(2 * p, n, e + 1);
    }
}

proof fn lemma_pow2_at_least_le(p: nat, n: nat, bound: nat)
    requires
        p >= 1,
        n <= bound,
        p <= bound,
        bound == 256,
        p == 1 || p == 2 || p == 4 || p == 8 || p == 16 || p == 32 || p == 64 || p == 128 || p == 256,
    ensures
        pow2_at_least(p, n) <= bound,
    decreases (if p < n { n - p } else { 0 }),
{
    if p < n {
        lemma_pow2_at_least_le(2 * p, n, bound);
    }
}

// ── GIF encoding ────────────────────────────────────────────────────

/// A GIF encoder writing into a byte vector, held opaquely; `gif_written` names the
/// bytes its vector holds.
#[verifier::external_body]
pub struct GifStream {
    enc: gif::Encoder<Vec<u8>>,
}

#[verifier::external_type_specification]
#[verifier::external_body]
pub struct ExGifEncodingError(gif::EncodingError);

#[verifier::external_type_specification]
#[verifier::external_body]
pub struct ExIoError(std::io::Error);

/// The bytes that the encoder has written into its vector so far.
pub uninterp spec fn gif_written(enc: GifStream) -> Seq<u8>;

/// The image data block that `Encoder::write_frame` writes for the palette indices
/// `indices`: the LZW minimum code size, the LZW code stream in sub-blocks of at
/// most 255 bytes, and the block terminator. It depends on the indices alone.
pub uninterp spec fn gif_image_data(indices: Seq<u8>) -> Seq<u8>;

/// How often the animation plays (the NETSCAPE2.0 application extension).
pub enum GifRepeat {
    Finite(u16),
    Infinite,
}

/// What a viewer does with a frame before drawing the next one.
pub enum GifDisposal {
    Any,
    Keep,
    Background,
    Previous,
}

/// The disposal method's number in the graphic control extension.
pub open spec fn disposal_code(d: GifDisposal) -> nat {
    match d {
        GifDisposal::Any => 0,
        GifDisposal::Keep => 1,
        GifDisposal::Background => 2,
        GifDisposal::Previous => 3,
    }
}

/// A 16-bit value, least significant byte first.
pub open spec fn le16(n: u16) -> Seq<u8> {
    seq![(n % 256) as u8, (n / 256) as u8]
}

/// The size field of a colour table of `n` colours: the smallest `b` with
/// `n <= 2^(b+1)`, at most 7.
pub open spec fn table_bits(n: nat) -> nat {
    if n <= 2 { 0 }
    else if n <= 4 { 1 }
    else if n <= 8 { 2 }
    else if n <= 16 { 3 }
    else if n <= 32 { 4 }
    else if n <= 64 { 5 }
    else if n <= 128 { 6 }
    else { 7 }
}

/// The number of colours a table of `n` colours is padded to: `2^(table_bits(n)+1)`.
pub open spec fn table_slots(n: nat) -> nat {
    if n <= 2 { 2 }
    else if n <= 4 { 4 }
    else if n <= 8 { 8 }
    else if n <= 16 { 16 }
    else if n <= 32 { 32 }
    else if n <= 64 { 64 }
    else if n <= 128 { 128 }
    else { 256 }
}

/// A colour table as written: the whole `[r, g, b]` triples of `pal`, then black
/// up to `table_slots` colours.
pub open spec fn gif_color_table(pal: Seq<u8>) -> Seq<u8> {
    let n = pal.len() / 3;
    pal.take(3 * n as int) + Seq::new((3 * (table_slots(n) - n)) as nat, |i: int| 0u8)
}

/// The header, logical screen descriptor and global colour table.
pub open spec fn gif_screen(width: u16, height: u16, pal: Seq<u8>) -> Seq<u8> {
    let bits = table_bits(pal.len() / 3);
    seq![71u8, 73u8, 70u8, 56u8, 57u8, 97u8] + le16(width) + le16(height)
        + seq![(128 + 17 * bits) as u8, 0u8, 0u8] + gif_color_table(pal)
}

/// The NETSCAPE2.0 application extension for `rep`; none for `Finite(0)`.
pub open spec fn gif_repeat_block(rep: GifRepeat) -> Seq<u8> {
    match rep {
        GifRepeat::Finite(0) => Seq::empty(),
        _ => {
            let count: u16 = match rep {
                GifRepeat::Finite(n) => n,
                GifRepeat::Infinite => 0,
            };
            seq![0x21u8, 0xFFu8, 11u8, 78u8, 69u8, 84u8, 83u8, 67u8, 65u8, 80u8, 69u8, 50u8, 46u8, 48u8, 3u8, 1u8]
                + le16(count) + seq![0u8]
        },
    }
}

/// The start of a frame as written: graphic control extension, image descriptor at
/// the origin (not interlaced) and the local colour table. The image data follows.
pub open spec fn gif_frame_head(
    width: u16,
    height: u16,
    delay: u16,
    dispose: GifDisposal,
    pal: Seq<u8>,
    transparent: Option<u8>,
) -> Seq<u8> {
    let trns_flag: nat = if transparent is Some { 1 } else { 0 };
    let trns: u8 = match transparent {
        Some(t) => t,
        None => 0,
    };
    seq![0x21u8, 0xF9u8, 4u8, (trns_flag + 4 * disposal_code(dispose)) as u8] + le16(delay) + seq![trns, 0u8]
        + seq![0x2Cu8, 0u8, 0u8, 0u8, 0u8] + le16(width) + le16(height)
        + seq![(128 + table_bits(pal.len() / 3)) as u8] + gif_color_table(pal)
}

/// `gif::Encoder::new` on an empty byte vector with the given screen size and global
/// palette (`[r, g, b, ...]`). It fails exactly when the palette has more than 256
/// colours, and otherwise has written the header, screen descriptor and colour table.
#[verifier::external_body]
fn gif_encoder_new(width: u16, height: u16, global_palette: &Vec<u8>) -> (r: Result<GifStream, gif::EncodingError>)
    ensures
        (r is Ok) == (global_palette@.len() / 3 <= 256),
        r matches Ok(enc) ==> gif_written(enc) == gif_screen(width, height, global_palette@),
{
    match gif::Encoder::new(Vec::new(), width, height, global_palette.as_slice()) {
        Ok(enc) => Ok(GifStream { enc }),
        Err(e) => Err(e),
    }
}

/// `Encoder::set_repeat`: writing into a vector cannot fail, and appends the
/// repetition extension.
#[verifier::external_body]
fn gif_set_repeat(enc: &mut GifStream, repeat: GifRepeat) -> (r: Result<(), gif::EncodingError>)
    ensures
        r is Ok,
        gif_written(*final(enc)) == gif_written(*old(enc)) + gif_repeat_block(repeat),
{
    let repeat = match repeat {
        GifRepeat::Finite(n) => gif::Repeat::Finite(n),
        GifRepeat::Infinite => gif::Repeat::Infinite,
    };
    enc.enc.set_repeat(repeat)
}

/// `Encoder::write_frame` of a `gif::Frame` at the origin with the given size, delay
/// (centiseconds) and disposal, the frame's indices as its buffer, its palette as the
/// local palette and its transparent index. It fails when the buffer holds fewer than
/// `width * height` indices or the palette more than 256 colours; on success it has
/// appended the frame. It may also fail when reserving scratch memory for the LZW
/// encoder fails; which inputs that happens on rests on the machine and is not stated.
/// The encoder asserts that a frame with no pixels has an empty buffer.
#[verifier::external_body]
fn gif_write_frame(
    enc: &mut GifStream,
    width: u16,
    height: u16,
    delay: u16,
    dispose: GifDisposal,
    frame: &IndexedFrame,
) -> (r: Result<(), gif::EncodingError>)
    requires
        (width > 0 && height > 0) || frame.indices@.len() == 0,
    ensures
        (width as nat) * (height as nat) > frame.indices@.len() ==> r is Err,
        frame.palette@.len() / 3 > 256 ==> r is Err,
        r is Ok ==> gif_written(*final(enc)) == gif_written(*old(enc))
            + gif_frame_head(width, height, delay, dispose, frame.palette@, frame.transparent)
            + gif_image_data(frame.indices@),
{
    let dispose = match dispose {
        GifDisposal::Any => gif::DisposalMethod::Any,
        GifDisposal::Keep => gif::DisposalMethod::Keep,
        GifDisposal::Background => gif::DisposalMethod::Background,
        GifDisposal::Previous => gif::DisposalMethod::Previous,
    };
    let buffer = std::borrow::Cow::Borrowed(frame.indices.as_slice());
    let palette = Some(frame.palette.clone());
    let f = gif::Frame { width, height, delay, dispose, buffer, palette, transparent: frame.transparent, ..gif::Frame::default() };
    enc.enc.write_frame(&f)
}

/// `Encoder::into_inner`: writes the trailer byte `0x3B` into the vector, which cannot
/// fail, and hands the vector back.
#[verifier::external_body]
fn gif_finish(enc: GifStream) -> (r: Result<Vec<u8>, std::io::Error>)
    ensures
        r is Ok,
        r->Ok_0@ == gif_written(enc) + seq![0x3Bu8],
{
    enc.enc.into_inner()
}

/// The `Display` text of a GIF encoding error. Nothing is stated of the text.
#[verifier::external_body]
fn gif_error_text(e: &gif::EncodingError) -> String {
    e.to_string()
}

/// The `Display` text of an I/O error. Nothing is stated of the text.
#[verifier::external_body]
fn io_error_text(e: &std::io::Error) -> String {
    e.to_string()
}

/// An RGBA frame: `pixels` holds 4 bytes per pixel, row by row.
pub struct RgbaFrame {
    pub width: usize,
    pub height: usize,
    pub pixels: Vec<u8>,
}

/// A dimension as the GIF header holds it (`as u16`, keeping the low 16 bits).
pub open spec fn dim16(d: usize) -> u16 {
    (d as int % 65536) as u16
}

/// The error for frame `i` of size `fw` x `fh` when the first frame is `w` x `h`.
pub open spec fn dims_message(i: nat, fw: nat, fh: nat, w: nat, h: nat) -> Seq<char> {
    "Frame "@ + decimal(i) + " has different dimensions ("@ + decimal(fw) + "x"@ + decimal(fh)
        + ") than first frame ("@ + decimal(w) + "x"@ + decimal(h) + ")"@
}

/// Frame `i` has the first frame's dimensions, as the GIF header holds them.
pub open spec fn same_dims(frames: Seq<RgbaFrame>, i: int) -> bool {
    dim16(frames[i].width) == dim16(frames[0].width) && dim16(frames[i].height) == dim16(frames[0].height)
}

/// `s` starts with `p`.
pub open spec fn starts_with(s: Seq<char>, p: Seq<char>) -> bool {
    p.len() <= s.len() && s.subrange(0, p.len() as int) == p
}

fn to_u16(d: usize) -> (r: u16)
    ensures
        r == dim16(d),
{
    (d % 65536) as u16
}

fn err_with(prefix: &str, detail: String) -> (r: Result<Vec<u8>, String>)
    ensures
        r matches Err(e) && e@ == prefix@ + detail@,
{
    let mut s = String::new();
    push_str(&mut s, prefix);
    push_str(&mut s, detail.as_str());
    Err(s)
}

/// Frame `f` holds at least `w * h` pixels.
pub open spec fn frame_fits(f: RgbaFrame, w: u16, h: u16) -> bool {
    (w as nat) * (h as nat) <= f.pixels@.len() / 4
}

/// The GIF block of RGBA pixels `px`, indexed as `index_frame` does, shown at
/// `w` x `h` for `delay` centiseconds and restored to background afterwards.
pub open spec fn indexed_block(px: Seq<u8>, w: u16, h: u16, delay: u16) -> Seq<u8> {
    let st = quant_prefix(px, px.len() / 4);
    gif_frame_head(w, h, delay, GifDisposal::Background, flatten(padded(st.0)), st.2) + gif_image_data(st.3)
}

/// The blocks of the first `n` frames.
pub open spec fn gif_frames(frames: Seq<RgbaFrame>, n: nat, w: u16, h: u16, delay: u16) -> Seq<u8>
    decreases n,
{
    if n == 0 {
        Seq::empty()
    } else {
        gif_frames(frames, (n - 1) as nat, w, h, delay) + indexed_block(frames[n - 1].pixels@, w, h, delay)
    }
}

/// The delay in centiseconds for `delay_ms` milliseconds, rounded to nearest.
pub open spec fn delay_cs(delay_ms: u16) -> u16 {
    ((delay_ms + 5) / 10) as u16
}

/// The animated GIF of `frames`: the first frame's size as screen size, an empty
/// global palette, endless looping, every frame, and the trailer.
pub open spec fn gif_animation(frames: Seq<RgbaFrame>, delay_ms: u16) -> Seq<u8> {
    let w = dim16(frames[0].width);
    let h = dim16(frames[0].height);
    gif_screen(w, h, Seq::empty()) + gif_repeat_block(GifRepeat::Infinite)
        + gif_frames(frames, frames.len(), w, h, delay_cs(delay_ms)) + seq![0x3Bu8]
}

/// Frames `0..=i` all have the first frame's dimensions.
pub open spec fn same_dims_through(frames: Seq<RgbaFrame>, i: int) -> bool {
    forall|j: int| 0 <= j <= i ==> #[trigger] same_dims(frames, j)
}

/// Frames `0..i` all hold enough pixels for the first frame's dimensions.
pub open spec fn fit_before(frames: Seq<RgbaFrame>, i: int) -> bool {
    forall|j: int| 0 <= j < i ==> #[trigger] frame_fits(frames[j], dim16(frames[0].width), dim16(frames[0].height))
}

/// Frame `i` is the first whose dimensions differ from the first frame's, every
/// frame before it was written, and `e` is the message for it.
pub open spec fn dims_failed_at(frames: Seq<RgbaFrame>, i: int, e: Seq<char>) -> bool {
    &&& 0 <= i < frames.len()
    &&& !same_dims(frames, i)
    &&& same_dims_through(frames, i - 1)
    &&& fit_before(frames, i)
    &&& e == dims_message(i as nat, frames[i].width as nat, frames[i].height as nat,
        dim16(frames[0].width) as nat, dim16(frames[0].height) as nat)
}

/// Frames before `i` were written, frame `i` has the first frame's dimensions, and
/// `e` reports that writing frame `i` failed.
pub open spec fn write_failed_at(frames: Seq<RgbaFrame>, i: int, e: Seq<char>) -> bool {
    &&& 0 <= i < frames.len()
    &&& same_dims_through(frames, i)
    &&& fit_before(frames, i)
    &&& starts_with(e, "Failed to write frame "@ + decimal(i as nat) + ": "@)
}

/// Encodes the frames as an infinitely looping animated GIF with a delay of
/// `delay_ms` (rounded to centiseconds) between frames, each frame with its own
/// palette from `index_frame`. All frames must have the first frame's dimensions.
/// A frame that is written with a zero dimension must hold no pixel (the encoder
/// asserts it).
pub fn encode_animation_gif(frames: &Vec<RgbaFrame>, delay_ms: u16) -> (r: Result<Vec<u8>, String>)
    requires
        delay_ms <= 65530,
        forall|i: int| 0 <= i < frames@.len() && same_dims_through(frames@, i) && frames@[i].pixels@.len() >= 4
            ==> dim16(frames@[0].width) > 0 && dim16(frames@[0].height) > 0,
    ensures
        frames@.len() == 0 ==> (r matches Err(e) && e@ == "No frames to export"@),
        r matches Ok(b) ==> {
            &&& frames@.len() > 0
            &&& same_dims_through(frames@, frames@.len() - 1)
            &&& fit_before(frames@, frames@.len() as int)
            &&& b@ == gif_animation(frames@, delay_ms)
        },
        frames@.len() > 0 && !(same_dims_through(frames@, frames@.len() - 1) && fit_before(frames@, frames@.len() as int))
            ==> r is Err,
        frames@.len() > 0 ==> (r matches Err(e) ==> {
            ||| exists|i: int| #[trigger] dims_failed_at(frames@, i, e@)
            ||| exists|i: int| #[trigger] write_failed_at(frames@, i, e@)
        }),
{
    if frames.len() == 0 {
        let mut s = String::new();
        push_str(&mut s, "No frames to export");
        return Err(s);
    }
    let width = to_u16(frames[0].width);
    let height = to_u16(frames[0].height);
    let no_palette: Vec<u8> = Vec::new();
    let mut encoder = match gif_encoder_new(width, height, &no_palette) {
        Ok(e) => e,
        Err(e) => {
            return err_with("Failed to create GIF encoder: ", gif_error_text(&e));
        },
    };
    match gif_set_repeat(&mut encoder, GifRepeat::Infinite) {
        Ok(()) => {},
        Err(e) => {
            return err_with("Failed to set repeat: ", gif_error_text(&e));
        },
    }
    let delay = (delay_ms + 5) / 10;
    let ghost head = gif_screen(width, height, Seq::empty()) + gif_repeat_block(GifRepeat::Infinite);
    let mut i: usize = 0;
    while i < frames.len()
        invariant
            frames@.len() > 0,
            i <= frames@.len(),
            width == dim16(frames@[0].width),
            height == dim16(frames@[0].height),
            delay == delay_cs(delay_ms),
            same_dims_through(frames@, i - 1),
            fit_before(frames@, i as int),
            gif_written(encoder) == head + gif_frames(frames@, i as nat, width, height, delay),
            forall|k: int| 0 <= k < frames@.len() && same_dims_through(frames@, k) && frames@[k].pixels@.len() >= 4
                ==> width > 0 && height > 0,
        decreases frames@.len() - i,
    {
        let frame = &frames[i];
        if to_u16(frame.width) != width || to_u16(frame.height) != height {
            let mut s = String::new();
            push_str(&mut s, "Frame ");
            push_decimal(&mut s, i as u64);
            push_str(&mut s, " has different dimensions (");
            push_decimal(&mut s, frame.width as u64);
            push_str(&mut s, "x");
            push_decimal(&mut s, frame.height as u64);
            push_str(&mut s, ") than first frame (");
            push_decimal(&mut s, width as u64);
            push_str(&mut s, "x");
            push_decimal(&mut s, height as u64);
            push_str(&mut s, ")");
            proof {
                assert(!same_dims(frames@, i as int));
                assert(s@ =~= dims_message(i as nat, frames@[i as int].width as nat, frames@[i as int].height as nat,
                    dim16(frames@[0].width) as nat, dim16(frames@[0].height) as nat));
                assert(!same_dims_through(frames@, frames@.len() - 1));
                assert(dims_failed_at(frames@, i as int, s@));
                assert(exists|k: int| dims_failed_at(frames@, k, s@));
            }
            let r: Result<Vec<u8>, String> = Err(s);
            assert(dims_failed_at(frames@, i as int, r->Err_0@));
            return r;
        }
        proof {
            assert(same_dims(frames@, i as int));
            assert(same_dims_through(frames@, i as int));
        }
        let indexed = index_frame(&frame.pixels);
        match gif_write_frame(&mut encoder, width, height, delay, GifDisposal::Background, &indexed) {
            Ok(()) => {},
            Err(e) => {
                let mut s = String::new();
                push_str(&mut s, "Failed to write frame ");
                push_decimal(&mut s, i as u64);
                push_str(&mut s, ": ");
                let t = gif_error_text(&e);
                let ghost p = s@;
                push_str(&mut s, t.as_str());
                proof {
                    assert(s@.subrange(0, p.len() as int) =~= p);
                    let ii = i as int;
                    assert(p == "Failed to write frame "@ + decimal(ii as nat) + ": "@);
                    assert(starts_with(s@, "Failed to write frame "@ + decimal(ii as nat) + ": "@));
                    assert(0 <= ii < frames@.len() && same_dims_through(frames@, ii) && fit_before(frames@, ii));
                    assert(write_failed_at(frames@, ii, s@));
                }
                let r: Result<Vec<u8>, String> = Err(s);
                assert(write_failed_at(frames@, i as int, r->Err_0@));
                return r;
            },
        }
        proof {
            assert(frame_fits(frames@[i as int], width, height));
            assert(gif_frames(frames@, (i + 1) as nat, width, height, delay)
                == gif_frames(frames@, i as nat, width, height, delay) + indexed_block(frames@[i as int].pixels@, width, height, delay));
            assert(gif_written(encoder) =~= head + gif_frames(frames@, (i + 1) as nat, width, height, delay));
        }
        i = i + 1;
    }
    match gif_finish(encoder) {
        Ok(bytes) => {
            proof {
                assert(bytes@ =~= gif_animation(frames@, delay_ms));
            }
            Ok(bytes)
        },
        Err(e) => err_with("Failed to finish GIF: ", io_error_text(&e)),
    }
}

} // verus!
