//! Synchronising the animation frames of several radars on one timeline.

use vstd::prelude::*;

verus! {

/// Frames of another radar further apart from a timeline instant than this
/// (milliseconds) are not matched to it.
pub const SYNC_TOLERANCE_MS: i64 = 300000;

/// The distance between two instants.
pub open spec fn gap(a: i64, b: i64) -> int {
    if a >= b {
        a - b
    } else {
        b - a
    }
}

/// Frame `i` is the first of the frames `ts` closest to `t`.
pub open spec fn first_closest(ts: Seq<i64>, t: i64, i: int) -> bool {
    &&& 0 <= i < ts.len()
    &&& forall|j: int| 0 <= j < ts.len() ==> gap(ts[i], t) <= gap(#[trigger] ts[j], t)
    &&& forall|j: int| 0 <= j < i ==> gap(#[trigger] ts[j], t) > gap(ts[i], t)
}

/// `r` is the frame matched to instant `t`: the first closest frame, if it lies
/// within the tolerance; none where no frame does.
pub open spec fn matched_frame(ts: Seq<i64>, t: i64, r: Option<usize>) -> bool {
    match r {
        Some(i) => first_closest(ts, t, i as int) && gap(ts[i as int], t) <= SYNC_TOLERANCE_MS,
        None => forall|j: int| 0 <= j < ts.len() ==> gap(#[trigger] ts[j], t) > SYNC_TOLERANCE_MS,
    }
}

/// Every difference of a frame time and `t` has a magnitude that fits in an `i64`.
pub open spec fn gaps_fit(ts: Seq<i64>, t: i64) -> bool {
    forall|j: int| 0 <= j < ts.len() ==> -i64::MAX <= #[trigger] ts[j] - t <= i64::MAX
}

/// The frame of `ts` matched to instant `t`.
pub fn closest_frame(ts: &Vec<i64>, t: i64) -> (r: Option<usize>)
    requires
        gaps_fit(ts@, t),
    ensures
        matched_frame(ts@, t, r),
{
    if ts.len() == 0 {
        return None;
    }
    let mut best: usize = 0;
    let mut best_gap: i128 = (ts[0] as i128 - t as i128);
    if best_gap < 0 {
        best_gap = -best_gap;
    }
    let mut j: usize = 1;
    while j < ts.len()
        invariant
            1 <= j <= ts.len(),
            best < j,
            best_gap == gap(ts@[best as int], t),
            forall|k: int| 0 <= k < j ==> gap(ts@[best as int], t) <= gap(#[trigger] ts@[k], t),
            forall|k: int| 0 <= k < best ==> gap(#[trigger] ts@[k], t) > gap(ts@[best as int], t),
        decreases ts.len() - j,
    {
        let mut g: i128 = ts[j] as i128 - t as i128;
        if g < 0 {
            g = -g;
        }
        if g < best_gap {
            best = j;
            best_gap = g;
        }
        j = j + 1;
    }
    if best_gap <= SYNC_TOLERANCE_MS as i128 {
        Some(best)
    } else {
        None
    }
}

/// The frame map of a synchronised animation.
///
/// Row 0 maps each instant of the primary timeline to the primary's own frame;
/// row `s + 1` maps each instant to the frame of secondary radar `s` matched to
/// it (`matched_frame`).
pub fn sync_frame_map(primary: &Vec<i64>, secondaries: &Vec<Vec<i64>>) -> (m: Vec<Vec<Option<usize>>>)
    requires
        forall|s: int, k: int|
            0 <= s < secondaries.len() && 0 <= k < primary.len() ==> gaps_fit(
                #[trigger] secondaries[s]@,
                #[trigger] primary[k],
            ),
    ensures
        m.len() == secondaries.len() + 1,
        m[0].len() == primary.len(),
        forall|k: int| 0 <= k < primary.len() ==> #[trigger] m[0][k] == Some(k as usize),
        forall|s: int|
            0 <= s < secondaries.len() ==> (#[trigger] m[s + 1]).len() == primary.len(),
        forall|s: int, k: int|
            0 <= s < secondaries.len() && 0 <= k < primary.len() ==> matched_frame(
                secondaries[s]@,
                primary[k],
                #[trigger] m[s + 1][k],
            ),
{
    let mut m: Vec<Vec<Option<usize>>> = Vec::new();
    let mut own: Vec<Option<usize>> = Vec::new();
    let mut k: usize = 0;
    while k < primary.len()
        invariant
            k <= primary.len(),
            own.len() == k,
            forall|x: int| 0 <= x < k ==> #[trigger] own[x] == Some(x as usize),
        decreases primary.len() - k,
    {
        own.push(Some(k));
        k = k + 1;
    }
    m.push(own);
    let mut s: usize = 0;
    while s < secondaries.len()
        invariant
            s <= secondaries.len(),
            m.len() == s + 1,
            m[0].len() == primary.len(),
            forall|x: int| 0 <= x < primary.len() ==> #[trigger] m[0][x] == Some(x as usize),
            forall|a: int| 0 <= a < s ==> (#[trigger] m[a + 1]).len() == primary.len(),
            forall|a: int, x: int|
                0 <= a < s && 0 <= x < primary.len() ==> matched_frame(
                    secondaries[a]@,
                    primary[x],
                    #[trigger] m[a + 1][x],
                ),
            forall|a: int, x: int|
                0 <= a < secondaries.len() && 0 <= x < primary.len() ==> gaps_fit(
                    #[trigger] secondaries[a]@,
                    #[trigger] primary[x],
                ),
        decreases secondaries.len() - s,
    {
        let mut row: Vec<Option<usize>> = Vec::new();
        let mut x: usize = 0;
        while x < primary.len()
            invariant
                s < secondaries.len(),
                x <= primary.len(),
                row.len() == x,
                forall|y: int|
                    0 <= y < x ==> matched_frame(secondaries[s as int]@, primary[y], #[trigger] row[y]),
                forall|a: int, y: int|
                    0 <= a < secondaries.len() && 0 <= y < primary.len() ==> gaps_fit(
                        #[trigger] secondaries[a]@,
                        #[trigger] primary[y],
                    ),
            decreases primary.len() - x,
        {
            assert(gaps_fit(secondaries[s as int]@, primary[x as int]));
            let f = closest_frame(&secondaries[s], primary[x]);
            row.push(f);
            x = x + 1;
        }
        let ghost before = m@;
        m.push(row);
        proof {
            assert forall|a: int| 0 <= a < s + 1 implies (#[trigger] m[a + 1]).len() == primary.len() by {
                if a < s {
                    assert(m[a + 1] == before[a + 1]);
                }
            }
            assert forall|a: int, y: int|
                0 <= a < s + 1 && 0 <= y < primary.len() implies matched_frame(
                    secondaries[a]@,
                    primary[y],
                    #[trigger] m[a + 1][y],
                ) by {
                if a < s {
                    assert(m[a + 1] == before[a + 1]);
                }
            }
            assert(m[0] == before[0]);
        }
        s = s + 1;
    }
    m
}

// ── Loading an animation ─────────────────────────────────────────────

/// The frames an animation takes from a list of `len` volumes (a data pack or the
/// bucket listing): the last `min(frame_count, len)`, as (first index, count).
pub fn anim_window(len: usize, frame_count: usize) -> (r: (usize, usize))
    ensures
        r.1 == (if frame_count < len { frame_count } else { len }),
        r.0 == len - r.1,
{
    let count = if frame_count < len { frame_count } else { len };
    (len - count, count)
}

/// Where `key` stands among the keys of the preloaded volumes: the first equal one.
pub fn preload_position(preload_keys: &Vec<String>, key: &String) -> (r: Option<usize>)
    ensures
        r matches Some(i) ==> i < preload_keys@.len() && preload_keys@[i as int]@ == key@
            && forall|j: int| 0 <= j < i ==> #[trigger] preload_keys@[j]@ != key@,
        r is None ==> forall|j: int| 0 <= j < preload_keys@.len() ==> #[trigger] preload_keys@[j]@ != key@,
{
    let mut i: usize = 0;
    while i < preload_keys.len()
        invariant
            i <= preload_keys@.len(),
            forall|j: int| 0 <= j < i ==> #[trigger] preload_keys@[j]@ != key@,
        decreases preload_keys@.len() - i,
    {
        if preload_keys[i] == *key {
            return Some(i);
        }
        i = i + 1;
    }
    None
}

/// The frames still to download, where `ready[k]` says that frame `k` was taken
/// from the preloaded volumes: their indices in ascending order, and the number of
/// frames that were ready.
pub fn frames_to_download(ready: &Vec<bool>) -> (r: (Vec<usize>, usize))
    ensures
        forall|a: int, b: int| 0 <= a < b < r.0@.len() ==> r.0@[a] < r.0@[b],
        forall|j: int| 0 <= j < r.0@.len() ==> r.0@[j] < ready@.len() && !ready@[r.0@[j] as int],
        forall|k: int| 0 <= k < ready@.len() && !ready@[k] ==> exists|j: int| 0 <= j < r.0@.len() && r.0@[j] == k,
        r.1 == ready@.len() - r.0@.len(),
{
    let mut out: Vec<usize> = Vec::new();
    let mut hits: usize = 0;
    let mut k: usize = 0;
    while k < ready.len()
        invariant
            k <= ready@.len(),
            hits + out@.len() == k,
            forall|a: int, b: int| 0 <= a < b < out@.len() ==> out@[a] < out@[b],
            forall|j: int| 0 <= j < out@.len() ==> out@[j] < k && !ready@[out@[j] as int],
            forall|m: int| 0 <= m < k && !ready@[m] ==> exists|j: int| 0 <= j < out@.len() && out@[j] == m,
        decreases ready@.len() - k,
    {
        let ghost before = out@;
        if ready[k] {
            hits = hits + 1;
        } else {
            out.push(k);
        }
        proof {
            assert forall|m: int| 0 <= m < k + 1 && !ready@[m] implies exists|j: int| 0 <= j < out@.len() && out@[j] == m by {
                if m < k {
                    let j = choose|j: int| 0 <= j < before.len() && before[j] == m;
                    assert(out@[j] == before[j]);
                } else {
                    assert(out@[out@.len() - 1] == m);
                }
            }
        }
        k = k + 1;
    }
    let r = (out, hits);
    assert forall|m: int| 0 <= m < ready@.len() && !ready@[m] implies exists|j: int| 0 <= j < r.0@.len() && r.0@[j] == m by {
        let j = choose|j: int| 0 <= j < out@.len() && out@[j] == m;
        assert(r.0@[j] == m);
    }
    r
}

} // verus!
