//! Viewer state: the wall of radar panels and rendered model frames.

use vstd::prelude::*;

verus! {

// ── Wall mode ────────────────────────────────────────────────────────

/// Loading state of one panel of the radar wall.
#[derive(Debug, Clone, Copy, PartialEq, Eq, Structural)]
pub enum WallPanelStatus {
    Pending,
    Downloading,
    Loaded,
    Error,
}

/// The wall's panels load one at a time, in order: `statuses[k]` is the state of
/// panel `k` and `index` the panel being loaded.
pub struct WallLoader {
    pub statuses: Vec<WallPanelStatus>,
    pub index: usize,
}

impl WallLoader {
    /// Panels before `index` have finished (loaded or failed), the panel at
    /// `index` is downloading, the rest wait.
    pub open spec fn wf(&self) -> bool {
        &&& self.index <= self.statuses.len()
        &&& forall|k: int|
            0 <= k < self.index ==> #[trigger] self.statuses[k] == WallPanelStatus::Loaded
                || self.statuses[k] == WallPanelStatus::Error
        &&& self.index < self.statuses.len() ==> self.statuses[self.index as int]
            == WallPanelStatus::Downloading
        &&& forall|k: int|
            self.index < k < self.statuses.len() ==> #[trigger] self.statuses[k]
                == WallPanelStatus::Pending
    }

    /// A wall of `count` panels, the first downloading; returns it and the panel to
    /// fetch, if any.
    pub fn start(count: usize) -> (r: (WallLoader, Option<usize>))
        ensures
            r.0.wf(),
            r.0.statuses.len() == count,
            r.0.index == 0,
            r.1 == (if count > 0 {
                Some(0usize)
            } else {
                None
            }),
    {
        let mut statuses: Vec<WallPanelStatus> = Vec::new();
        let mut k: usize = 0;
        while k < count
            invariant
                k <= count,
                statuses.len() == k,
                forall|x: int| 0 <= x < k ==> #[trigger] statuses[x] == WallPanelStatus::Pending,
            decreases count - k,
        {
            statuses.push(WallPanelStatus::Pending);
            k = k + 1;
        }
        if count > 0 {
            statuses.set(0, WallPanelStatus::Downloading);
            (WallLoader { statuses, index: 0 }, Some(0))
        } else {
            (WallLoader { statuses, index: 0 }, None)
        }
    }

    /// The panel being loaded has finished, `loaded` or failed: the next panel
    /// starts downloading. Returns the panel to fetch next, if any.
    pub fn finish_current(&mut self, loaded: bool) -> (next: Option<usize>)
        requires
            old(self).wf(),
            old(self).index < old(self).statuses.len(),
        ensures
            final(self).wf(),
            final(self).statuses.len() == old(self).statuses.len(),
            final(self).index == old(self).index + 1,
            final(self).statuses[old(self).index as int] == (if loaded {
                WallPanelStatus::Loaded
            } else {
                WallPanelStatus::Error
            }),
            forall|k: int|
                0 <= k < old(self).statuses.len() && k != old(self).index && k != old(self).index
                    + 1 ==> #[trigger] final(self).statuses[k] == old(self).statuses[k],
            next == (if final(self).index < final(self).statuses.len() {
                Some(final(self).index)
            } else {
                None
            }),
    {
        let i = self.index;
        if loaded {
            self.statuses.set(i, WallPanelStatus::Loaded);
        } else {
            self.statuses.set(i, WallPanelStatus::Error);
        }
        self.index = i + 1;
        if self.index < self.statuses.len() {
            let j = self.index;
            self.statuses.set(j, WallPanelStatus::Downloading);
            Some(j)
        } else {
            None
        }
    }

    /// Every panel has finished loading.
    pub fn done(&self) -> (b: bool)
        ensures
            b == (self.index >= self.statuses.len()),
    {
        self.index >= self.statuses.len()
    }
}

/// Once the wall has worked through every panel, each panel is loaded or failed;
/// none is left waiting or downloading.
pub proof fn law_wall_complete(w: WallLoader)
    requires
        w.wf(),
        w.index == w.statuses.len(),
    ensures
        forall|k: int|
            0 <= k < w.statuses.len() ==> #[trigger] w.statuses[k] == WallPanelStatus::Loaded
                || w.statuses[k] == WallPanelStatus::Error,
{
}

// ── Model frames ─────────────────────────────────────────────────────

/// A rendered HRRR model frame: flat RGBA pixels.
pub struct HrrrFrame {
    pub pixels: Vec<u8>,
    pub width: u32,
    pub height: u32,
}

/// Pixels `[r, g, b, a]` laid out flat: `flat[4 * i + c] == px[i][c]`.
pub open spec fn flat_rgba(px: Seq<[u8; 4]>, flat: Seq<u8>) -> bool {
    &&& flat.len() == 4 * px.len()
    &&& forall|i: int, c: int| 0 <= i < px.len() && 0 <= c < 4 ==> flat[4 * i + c] == #[trigger] px[i][c]
}

impl HrrrFrame {
    /// A frame from rendered pixels, flattened to `[r, g, b, a, ...]`.
    pub fn from_pixels(px: &Vec<[u8; 4]>, width: u32, height: u32) -> (f: HrrrFrame)
        requires
            4 * px.len() <= usize::MAX,
        ensures
            flat_rgba(px@, f.pixels@),
            f.width == width,
            f.height == height,
    {
        let mut flat: Vec<u8> = Vec::new();
        let mut i: usize = 0;
        while i < px.len()
            invariant
                i <= px.len(),
                4 * px.len() <= usize::MAX,
                flat.len() == 4 * i,
                forall|a: int, c: int|
                    0 <= a < i && 0 <= c < 4 ==> flat@[4 * a + c] == #[trigger] px@[a][c],
            decreases px.len() - i,
        {
            let p = px[i];
            let ghost before = flat@;
            flat.push(p[0]);
            flat.push(p[1]);
            flat.push(p[2]);
            flat.push(p[3]);
            proof {
                assert forall|a: int, c: int| 0 <= a < i + 1 && 0 <= c < 4 implies flat@[4 * a + c]
                    == #[trigger] px@[a][c] by {
                    if a < i {
                        assert(4 * a + c < 4 * i) by (nonlinear_arith)
                            requires a < i, 0 <= c < 4;
                        assert(flat@[4 * a + c] == before[4 * a + c]);
                    } else {
                        assert(a == i);
                    }
                }
            }
            i = i + 1;
        }
        HrrrFrame { pixels: flat, width, height }
    }
}

// ── Animation ────────────────────────────────────────────────────────

/// The frame after `index` in a loop of `count` frames.
pub fn next_frame(index: usize, count: usize) -> (r: usize)
    requires
        count > 0,
        index < usize::MAX,
    ensures
        r == (index + 1) % (count as int),
{
    (index + 1) % count
}

// ── Sweeps and secondary radars ──────────────────────────────────────

/// The sweep shown for a product: the selected one where it has the product, else
/// the lowest that has it. `has_product[i]` says whether sweep `i` has it.
pub fn choose_sweep(has_product: &Vec<bool>, selected: usize) -> (r: Option<usize>)
    ensures
        selected < has_product@.len() && has_product@[selected as int] ==> r == Some(selected),
        !(selected < has_product@.len() && has_product@[selected as int]) ==> match r {
            Some(i) => i < has_product@.len() && has_product@[i as int]
                && forall|j: int| 0 <= j < i ==> !#[trigger] has_product@[j],
            None => forall|j: int| 0 <= j < has_product@.len() ==> !#[trigger] has_product@[j],
        },
{
    if selected < has_product.len() && has_product[selected] {
        return Some(selected);
    }
    let mut i: usize = 0;
    while i < has_product.len()
        invariant
            i <= has_product@.len(),
            !(selected < has_product@.len() && has_product@[selected as int]),
            forall|j: int| 0 <= j < i ==> !#[trigger] has_product@[j],
        decreases has_product@.len() - i,
    {
        if has_product[i] {
            return Some(i);
        }
        i = i + 1;
    }
    None
}

/// Whether `station_id` may be added as a secondary radar: it is not the primary
/// station and not one of the secondary radars already shown.
pub fn may_add_secondary(primary: &String, secondaries: &Vec<String>, station_id: &String) -> (b: bool)
    ensures
        b == (primary@ != station_id@ && forall|j: int| 0 <= j < secondaries@.len() ==> #[trigger] secondaries@[j]@ != station_id@),
{
    if *primary == *station_id {
        return false;
    }
    let mut j: usize = 0;
    while j < secondaries.len()
        invariant
            j <= secondaries@.len(),
            primary@ != station_id@,
            forall|k: int| 0 <= k < j ==> #[trigger] secondaries@[k]@ != station_id@,
        decreases secondaries@.len() - j,
    {
        if secondaries[j] == *station_id {
            return false;
        }
        j = j + 1;
    }
    true
}

} // verus!
