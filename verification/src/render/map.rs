//! Map tile providers, tile keys and decoded tile data.

use vstd::prelude::*;

use crate::text::{decimal, push_decimal, push_str};

verus! {

/// A source of slippy-map tiles.
#[derive(Debug, Clone, Copy, PartialEq, Eq, Structural)]
pub enum TileProvider {
    OpenStreetMap,
    Dark,
    Topographic,
    Satellite,
}

/// The display label of a provider.
pub open spec fn provider_label(p: TileProvider) -> Seq<char> {
    match p {
        TileProvider::OpenStreetMap => "Standard"@,
        TileProvider::Dark => "Dark"@,
        TileProvider::Topographic => "Topographic"@,
        TileProvider::Satellite => "Satellite"@,
    }
}

/// The URL of tile (`z`, `x`, `y`) at a provider. Satellite imagery is addressed
/// by row before column.
pub open spec fn tile_url(p: TileProvider, z: nat, x: nat, y: nat) -> Seq<char> {
    match p {
        TileProvider::OpenStreetMap => "https://tile.openstreetmap.org/"@ + decimal(z) + "/"@
            + decimal(x) + "/"@ + decimal(y) + ".png"@,
        TileProvider::Dark => "https://basemaps.cartocdn.com/dark_all/"@ + decimal(z) + "/"@
            + decimal(x) + "/"@ + decimal(y) + ".png"@,
        TileProvider::Topographic => "https://tile.opentopomap.org/"@ + decimal(z) + "/"@
            + decimal(x) + "/"@ + decimal(y) + ".png"@,
        TileProvider::Satellite =>
            "https://server.arcgisonline.com/ArcGIS/rest/services/World_Imagery/MapServer/tile/"@
            + decimal(z) + "/"@ + decimal(y) + "/"@ + decimal(x),
    }
}

impl TileProvider {
    /// The display label.
    pub fn label(&self) -> (r: &str)
        ensures
            r@ == provider_label(*self),
    {
        match self {
            Self::OpenStreetMap => "Standard",
            Self::Dark => "Dark",
            Self::Topographic => "Topographic",
            Self::Satellite => "Satellite",
        }
    }

    /// Every provider, in menu order.
    pub fn all() -> (r: &'static [TileProvider])
        ensures
            r@ == seq![
                TileProvider::OpenStreetMap,
                TileProvider::Dark,
                TileProvider::Topographic,
                TileProvider::Satellite,
            ],
    {
        &[Self::OpenStreetMap, Self::Dark, Self::Topographic, Self::Satellite]
    }

    /// The URL of tile (`z`, `x`, `y`).
    pub fn url(&self, z: u8, x: u32, y: u32) -> (r: String)
        ensures
            r@ == tile_url(*self, z as nat, x as nat, y as nat),
    {
        let mut s = String::new();
        match self {
            Self::OpenStreetMap => {
                push_str(&mut s, "https://tile.openstreetmap.org/");
                push_decimal(&mut s, z as u64);
                push_str(&mut s, "/");
                push_decimal(&mut s, x as u64);
                push_str(&mut s, "/");
                push_decimal(&mut s, y as u64);
                push_str(&mut s, ".png");
            },
            Self::Dark => {
                push_str(&mut s, "https://basemaps.cartocdn.com/dark_all/");
                push_decimal(&mut s, z as u64);
                push_str(&mut s, "/");
                push_decimal(&mut s, x as u64);
                push_str(&mut s, "/");
                push_decimal(&mut s, y as u64);
                push_str(&mut s, ".png");
            },
            Self::Topographic => {
                push_str(&mut s, "https://tile.opentopomap.org/");
                push_decimal(&mut s, z as u64);
                push_str(&mut s, "/");
                push_decimal(&mut s, x as u64);
                push_str(&mut s, "/");
                push_decimal(&mut s, y as u64);
                push_str(&mut s, ".png");
            },
            Self::Satellite => {
                push_str(
                    &mut s,
                    "https://server.arcgisonline.com/ArcGIS/rest/services/World_Imagery/MapServer/tile/",
                );
                push_decimal(&mut s, z as u64);
                push_str(&mut s, "/");
                push_decimal(&mut s, y as u64);
                push_str(&mut s, "/");
                push_decimal(&mut s, x as u64);
            },
        }
        assert(s@ =~= tile_url(*self, z as nat, x as nat, y as nat));
        s
    }
}

/// A tile address: column, row and zoom level.
#[derive(Debug, Clone, Copy, PartialEq, Eq, Hash, Structural)]
pub struct TileKey {
    pub x: u32,
    pub y: u32,
    pub z: u8,
}

/// A decoded tile: RGBA pixels, row by row.
pub struct TileData {
    pub pixels: Vec<u8>,
    pub width: u32,
    pub height: u32,
}

impl View for TileData {
    /// (width, height, pixels)
    type V = (u32, u32, Seq<u8>);

    open spec fn view(&self) -> Self::V {
        (self.width, self.height, self.pixels@)
    }
}

/// What `image::load_from_memory` followed by `to_rgba8` yields for `bytes`: the
/// width, height and RGBA pixels of the decoded image, or `None` where the bytes are
/// not an image of a supported format.
pub uninterp spec fn decoded_rgba(bytes: Seq<u8>) -> Option<(u32, u32, Seq<u8>)>;

/// `image::load_from_memory(bytes)` then `to_rgba8()`: the decoded image, named
/// `decoded_rgba`, a function of the bytes alone.
#[verifier::external_body]
fn load_rgba(bytes: &[u8]) -> (r: Option<TileData>)
    ensures
        match r {
            Some(t) => decoded_rgba(bytes@) == Some((t.width, t.height, t.pixels@)),
            None => decoded_rgba(bytes@) is None,
        },
{
    match image::load_from_memory(bytes) {
        Ok(img) => {
            let rgba = img.to_rgba8();
            Some(TileData { width: rgba.width(), height: rgba.height(), pixels: rgba.into_raw() })
        },
        Err(_) => None,
    }
}

// ── The tile cache ───────────────────────────────────────────────────

/// Decoded tiles of the current provider and the tiles being fetched.
pub struct TileCache {
    provider: TileProvider,
    /// (key, tile); no key occurs twice.
    tiles: Vec<(TileKey, TileData)>,
    /// Keys being fetched; none occurs twice.
    pending: Vec<TileKey>,
}

impl TileCache {
    /// No key is cached twice or pending twice.
    pub closed spec fn wf(&self) -> bool {
        &&& forall|i: int, j: int|
            0 <= i < self.tiles@.len() && 0 <= j < self.tiles@.len() && i != j
                ==> self.tiles@[i].0 != self.tiles@[j].0
        &&& self.pending@.no_duplicates()
    }

    spec fn has_tile(&self, k: TileKey) -> bool {
        exists|i: int| 0 <= i < self.tiles@.len() && self.tiles@[i].0 == k
    }

    spec fn tile_index(&self, k: TileKey) -> int {
        choose|i: int| 0 <= i < self.tiles@.len() && self.tiles@[i].0 == k
    }

    /// The provider the tiles come from.
    pub closed spec fn provider_view(&self) -> TileProvider {
        self.provider
    }

    /// The cached tiles by key.
    pub closed spec fn tiles_view(&self) -> Map<TileKey, (u32, u32, Seq<u8>)> {
        Map::new(|k: TileKey| self.has_tile(k), |k: TileKey| self.tiles@[self.tile_index(k)].1@)
    }

    /// The keys being fetched.
    pub closed spec fn pending_view(&self) -> Set<TileKey> {
        self.pending@.to_set()
    }

    proof fn lemma_tile(&self, i: int)
        requires
            self.wf(),
            0 <= i < self.tiles@.len(),
        ensures
            self.tiles_view().dom().contains(self.tiles@[i].0),
            self.tiles_view()[self.tiles@[i].0] == self.tiles@[i].1@,
    {
        let k = self.tiles@[i].0;
        assert(self.has_tile(k));
        let j = self.tile_index(k);
        assert(self.tiles@[j].0 == k);
    }

    proof fn lemma_tile_count(&self)
        requires
            self.wf(),
        ensures
            self.tiles_view().dom().finite(),
            self.tiles_view().dom().len() == self.tiles@.len(),
    {
        let ks = self.tiles@.map_values(|p: (TileKey, TileData)| p.0);
        assert(ks.no_duplicates()) by {
            assert forall|i: int, j: int| 0 <= i < ks.len() && 0 <= j < ks.len() && i != j implies ks[i]
                != ks[j] by {
                assert(self.tiles@[i].0 != self.tiles@[j].0);
            }
        }
        ks.unique_seq_to_set();
        assert(self.tiles_view().dom() =~= ks.to_set()) by {
            assert forall|k: TileKey| self.tiles_view().dom().contains(k) <==> ks.to_set().contains(k) by {
                if self.has_tile(k) {
                    let i = choose|i: int| 0 <= i < self.tiles@.len() && self.tiles@[i].0 == k;
                    assert(ks[i] == k);
                    assert(ks.contains(k));
                }
                if ks.to_set().contains(k) {
                    assert(ks.contains(k));
                    let i = choose|i: int| 0 <= i < ks.len() && ks[i] == k;
                    assert(self.tiles@[i].0 == k);
                }
            }
        }
    }

    /// An empty cache of OpenStreetMap tiles.
    pub fn new() -> (r: Self)
        ensures
            r.wf(),
            r.provider_view() == TileProvider::OpenStreetMap,
            r.tiles_view() == Map::<TileKey, (u32, u32, Seq<u8>)>::empty(),
            r.pending_view() == Set::<TileKey>::empty(),
    {
        let r = TileCache { provider: TileProvider::OpenStreetMap, tiles: Vec::new(), pending: Vec::new() };
        assert(r.tiles_view() =~= Map::<TileKey, (u32, u32, Seq<u8>)>::empty());
        assert(r.pending_view() =~= Set::<TileKey>::empty());
        r
    }

    /// The provider the tiles come from.
    pub fn provider(&self) -> (p: TileProvider)
        ensures
            p == self.provider_view(),
    {
        self.provider
    }

    /// Switches provider; a new provider means new tiles, so the cache and the
    /// pending fetches are cleared. Choosing the current provider changes nothing.
    pub fn set_provider(&mut self, provider: TileProvider)
        requires
            old(self).wf(),
        ensures
            final(self).wf(),
            final(self).provider_view() == provider,
            provider == old(self).provider_view() ==> final(self).tiles_view() == old(self).tiles_view()
                && final(self).pending_view() == old(self).pending_view(),
            provider != old(self).provider_view() ==> final(self).tiles_view() == Map::<
                TileKey,
                (u32, u32, Seq<u8>),
            >::empty() && final(self).pending_view() == Set::<TileKey>::empty(),
    {
        if self.provider != provider {
            self.provider = provider;
            self.tiles = Vec::new();
            self.pending = Vec::new();
            assert(self.tiles_view() =~= Map::<TileKey, (u32, u32, Seq<u8>)>::empty());
            assert(self.pending_view() =~= Set::<TileKey>::empty());
        }
    }

    fn find_tile(&self, key: TileKey) -> (r: Option<usize>)
        requires
            self.wf(),
        ensures
            r matches Some(i) ==> i < self.tiles@.len() && self.tiles@[i as int].0 == key,
            r is None ==> !self.tiles_view().dom().contains(key),
    {
        let mut i: usize = 0;
        while i < self.tiles.len()
            invariant
                i <= self.tiles@.len(),
                forall|j: int| 0 <= j < i ==> self.tiles@[j].0 != key,
            decreases self.tiles@.len() - i,
        {
            if self.tiles[i].0 == key {
                return Some(i);
            }
            i = i + 1;
        }
        None
    }

    fn is_pending(&self, key: TileKey) -> (b: bool)
        ensures
            b == self.pending_view().contains(key),
    {
        let mut i: usize = 0;
        while i < self.pending.len()
            invariant
                i <= self.pending@.len(),
                forall|j: int| 0 <= j < i ==> self.pending@[j] != key,
            decreases self.pending@.len() - i,
        {
            if self.pending[i] == key {
                assert(self.pending@.contains(key));
                return true;
            }
            i = i + 1;
        }
        false
    }

    /// The cached tile of `key`, if any.
    pub fn get_tile(&self, key: TileKey) -> (r: Option<&TileData>)
        requires
            self.wf(),
        ensures
            match r {
                Some(t) => self.tiles_view().dom().contains(key) && t@ == self.tiles_view()[key],
                None => !self.tiles_view().dom().contains(key),
            },
    {
        match self.find_tile(key) {
            Some(i) => {
                proof {
                    self.lemma_tile(i as int);
                }
                Some(&self.tiles[i].1)
            },
            None => None,
        }
    }

    /// The number of cached tiles.
    pub fn cache_size(&self) -> (n: usize)
        requires
            self.wf(),
        ensures
            n == self.tiles_view().len(),
    {
        proof {
            self.lemma_tile_count();
        }
        self.tiles.len()
    }

    /// Starts fetching `key` unless it is cached or already being fetched: the key
    /// becomes pending and its URL at the current provider is returned.
    pub fn begin_request(&mut self, key: TileKey) -> (url: Option<String>)
        requires
            old(self).wf(),
        ensures
            final(self).wf(),
            begins_request(*old(self), key, *final(self), url),
    {
        if self.find_tile(key).is_some() {
            proof {
                let i = choose|i: int| 0 <= i < self.tiles@.len() && self.tiles@[i].0 == key;
                self.lemma_tile(i);
            }
            return None;
        }
        if self.is_pending(key) {
            return None;
        }
        let ghost before = self.pending@;
        self.pending.push(key);
        proof {
            assert(self.pending@ == before.push(key));
            assert(self.pending@.no_duplicates()) by {
                assert forall|i: int, j: int|
                    0 <= i < self.pending@.len() && 0 <= j < self.pending@.len() && i != j implies self.pending@[i]
                    != self.pending@[j] by {
                    if i < before.len() && j < before.len() {
                    } else if i < before.len() {
                        assert(before.contains(before[i]));
                    } else if j < before.len() {
                        assert(before.contains(before[j]));
                    }
                }
            }
            assert forall|q: TileKey| self.pending@.contains(q) <==> (before.contains(q) || q == key) by {
                if self.pending@.contains(q) {
                    let a = choose|a: int| 0 <= a < self.pending@.len() && self.pending@[a] == q;
                    if a < before.len() {
                        assert(before[a] == q);
                    }
                }
                if before.contains(q) {
                    let a = choose|a: int| 0 <= a < before.len() && before[a] == q;
                    assert(self.pending@[a] == q);
                }
                if q == key {
                    assert(self.pending@[before.len() as int] == q);
                }
            }
            assert(self.pending_view() =~= before.to_set().insert(key));
        }
        let r = Some(self.provider.url(key.z, key.x, key.y));
        assert(r->Some_0@ == tile_url(old(self).provider_view(), key.z as nat, key.x as nat, key.y as nat));
        assert(self.tiles_view() =~= old(self).tiles_view());
        assert(self.provider_view() == old(self).provider_view());
        assert(!old(self).tiles_view().dom().contains(key));
        assert(!old(self).pending_view().contains(key));
        assert(self.pending_view() == old(self).pending_view().insert(key));
        r
    }

    /// A fetch of `key` has ended with `tile` decoded, or none: the tile is cached
    /// (replacing any earlier one) and the key is no longer pending.
    pub fn finish_with_tile(&mut self, key: TileKey, tile: Option<TileData>)
        requires
            old(self).wf(),
        ensures
            final(self).wf(),
            final(self).provider_view() == old(self).provider_view(),
            final(self).tiles_view() == match tile {
                Some(t) => old(self).tiles_view().insert(key, t@),
                None => old(self).tiles_view(),
            },
            final(self).pending_view() == old(self).pending_view().remove(key),
    {
        let ghost before_tiles = self.tiles_view();
        match tile {
            Some(t) => {
                let ghost tv = t@;
                match self.find_tile(key) {
                    Some(i) => {
                        self.tiles.set(i, (key, t));
                        proof {
                            assert forall|a: int, b: int|
                                0 <= a < self.tiles@.len() && 0 <= b < self.tiles@.len() && a != b implies self.tiles@[a].0
                                != self.tiles@[b].0 by {
                                assert(old(self).tiles@[i as int].0 == key);
                            }
                            assert forall|q: TileKey| #[trigger] self.tiles_view().dom().contains(q)
                                == before_tiles.insert(key, tv).dom().contains(q) by {
                                if self.has_tile(q) {
                                    let j = choose|j: int| 0 <= j < self.tiles@.len() && self.tiles@[j].0 == q;
                                    if j != i as int {
                                        assert(old(self).tiles@[j].0 == q);
                                    }
                                }
                                if before_tiles.dom().contains(q) && q != key {
                                    let j = choose|j: int| 0 <= j < old(self).tiles@.len() && old(self).tiles@[j].0 == q;
                                    assert(self.tiles@[j].0 == q);
                                }
                                if q == key {
                                    assert(self.tiles@[i as int].0 == q);
                                }
                            }
                            assert forall|q: TileKey| #[trigger] self.tiles_view().dom().contains(q)
                                implies self.tiles_view()[q] == before_tiles.insert(key, tv)[q] by {
                                let j = choose|j: int| 0 <= j < self.tiles@.len() && self.tiles@[j].0 == q;
                                self.lemma_tile(j);
                                if j != i as int {
                                    old(self).lemma_tile(j);
                                }
                            }
                            assert(self.tiles_view() =~= before_tiles.insert(key, tv));
                        }
                    },
                    None => {
                        self.tiles.push((key, t));
                        proof {
                            let n = old(self).tiles@.len() as int;
                            assert forall|a: int, b: int|
                                0 <= a < self.tiles@.len() && 0 <= b < self.tiles@.len() && a != b implies self.tiles@[a].0
                                != self.tiles@[b].0 by {
                                if a == n && b < n {
                                    old(self).lemma_tile(b);
                                }
                                if b == n && a < n {
                                    old(self).lemma_tile(a);
                                }
                            }
                            assert forall|q: TileKey| #[trigger] self.tiles_view().dom().contains(q)
                                == before_tiles.insert(key, tv).dom().contains(q) by {
                                if self.has_tile(q) {
                                    let j = choose|j: int| 0 <= j < self.tiles@.len() && self.tiles@[j].0 == q;
                                    if j != n {
                                        assert(old(self).tiles@[j].0 == q);
                                    }
                                }
                                if before_tiles.dom().contains(q) && q != key {
                                    let j = choose|j: int| 0 <= j < old(self).tiles@.len() && old(self).tiles@[j].0 == q;
                                    assert(self.tiles@[j].0 == q);
                                }
                                if q == key {
                                    assert(self.tiles@[n].0 == q);
                                }
                            }
                            assert forall|q: TileKey| #[trigger] self.tiles_view().dom().contains(q)
                                implies self.tiles_view()[q] == before_tiles.insert(key, tv)[q] by {
                                let j = choose|j: int| 0 <= j < self.tiles@.len() && self.tiles@[j].0 == q;
                                self.lemma_tile(j);
                                if j != n {
                                    old(self).lemma_tile(j);
                                }
                            }
                            assert(self.tiles_view() =~= before_tiles.insert(key, tv));
                        }
                    },
                }
            },
            None => {},
        }
        // Drop the key from the pending fetches.
        let ghost pend = self.pending@;
        let mut kept: Vec<TileKey> = Vec::new();
        let mut i: usize = 0;
        while i < self.pending.len()
            invariant
                self.pending@ == pend,
                pend.no_duplicates(),
                i <= pend.len(),
                kept@.no_duplicates(),
                forall|k: TileKey| kept@.contains(k) <==> (pend.subrange(0, i as int).contains(k) && k != key),
            decreases pend.len() - i,
        {
            let k = self.pending[i];
            proof {
                let s0 = pend.subrange(0, i as int);
                let s1 = pend.subrange(0, i + 1);
                assert forall|q: TileKey| s1.contains(q) <==> (s0.contains(q) || q == k) by {
                    if s1.contains(q) {
                        let a = choose|a: int| 0 <= a < s1.len() && s1[a] == q;
                        if a < i {
                            assert(s0[a] == q);
                        }
                    }
                    if s0.contains(q) {
                        let a = choose|a: int| 0 <= a < s0.len() && s0[a] == q;
                        assert(s1[a] == q);
                    }
                    if q == k {
                        assert(s1[i as int] == q);
                    }
                }
            }
            if k != key {
                let ghost kb = kept@;
                proof {
                    let s0 = pend.subrange(0, i as int);
                    assert(!s0.contains(k)) by {
                        if s0.contains(k) {
                            let a = choose|a: int| 0 <= a < s0.len() && s0[a] == k;
                            assert(pend[a] == pend[i as int]);
                        }
                    }
                }
                kept.push(k);
                proof {
                    assert(kept@ == kb.push(k));
                    assert forall|a: int, b: int| 0 <= a < kept@.len() && 0 <= b < kept@.len() && a != b implies kept@[a]
                        != kept@[b] by {
                        if a < kb.len() && b < kb.len() {
                        } else if a < kb.len() {
                            assert(kb.contains(kb[a]));
                        } else if b < kb.len() {
                            assert(kb.contains(kb[b]));
                        }
                    }
                    let s1 = pend.subrange(0, i + 1);
                    assert forall|q: TileKey| kept@.contains(q) <==> (s1.contains(q) && q != key) by {
                        if kept@.contains(q) && q != k {
                            let a = choose|a: int| 0 <= a < kept@.len() && kept@[a] == q;
                            assert(kb[a] == q);
                            assert(kb.contains(q));
                        }
                        if kb.contains(q) {
                            let a = choose|a: int| 0 <= a < kb.len() && kb[a] == q;
                            assert(kept@[a] == q);
                        }
                        if q == k {
                            assert(kept@[kb.len() as int] == q);
                        }
                    }
                }
            }
            i = i + 1;
        }
        self.pending = kept;
        proof {
            assert(pend.subrange(0, pend.len() as int) =~= pend);
            assert(self.pending_view() =~= pend.to_set().remove(key));
        }
    }

    /// A fetch of `key` has ended with the response `body`, or none: the body is
    /// decoded as an image (`image::load_from_memory`), a decoded tile is cached, and
    /// the key is no longer pending.
    pub fn finish_request(&mut self, key: TileKey, body: Option<&[u8]>)
        requires
            old(self).wf(),
        ensures
            final(self).wf(),
            finishes_request(*old(self), key, match body {
                Some(b) => decoded_rgba(b@),
                None => None,
            }, *final(self)),
    {
        let tile = match body {
            Some(b) => load_rgba(b),
            None => None,
        };
        self.finish_with_tile(key, tile);
    }
}

/// `after` is `before` once a request for `key` has begun, with `url` to fetch: a
/// tile that is cached or being fetched starts nothing; any other tile is fetched
/// from its provider's URL and becomes pending.
pub open spec fn begins_request(before: TileCache, key: TileKey, after: TileCache, url: Option<String>) -> bool {
    let busy = before.tiles_view().dom().contains(key) || before.pending_view().contains(key);
    &&& after.provider_view() == before.provider_view()
    &&& after.tiles_view() == before.tiles_view()
    &&& busy ==> url is None && after.pending_view() == before.pending_view()
    &&& !busy ==> (url matches Some(u) && u@ == tile_url(before.provider_view(), key.z as nat, key.x as nat, key.y as nat))
        && after.pending_view() == before.pending_view().insert(key)
}

/// `after` is `before` once the fetch of `key` has ended with the tile `decoded`, if
/// one was decoded: it is cached, and the key is no longer pending.
pub open spec fn finishes_request(
    before: TileCache,
    key: TileKey,
    decoded: Option<(u32, u32, Seq<u8>)>,
    after: TileCache,
) -> bool {
    &&& after.provider_view() == before.provider_view()
    &&& after.tiles_view() == match decoded {
        Some(d) => before.tiles_view().insert(key, d),
        None => before.tiles_view(),
    }
    &&& after.pending_view() == before.pending_view().remove(key)
}

/// A tile is fetched at most once at a time: after a request has begun, a second
/// request for the same key starts nothing and changes nothing.
pub proof fn law_request_once(c0: TileCache, c1: TileCache, c2: TileCache, key: TileKey, u1: Option<String>, u2: Option<String>)
    requires
        begins_request(c0, key, c1, u1),
        begins_request(c1, key, c2, u2),
    ensures
        u2 is None,
        c2.tiles_view() == c1.tiles_view(),
        c2.pending_view() == c1.pending_view(),
{
}

/// After a fetch has finished, a decoded tile is cached, so a new request for it
/// starts nothing; a tile that failed to decode (and was not cached before) is
/// fetched again.
pub proof fn law_finish_then_request(
    c0: TileCache,
    c1: TileCache,
    c2: TileCache,
    key: TileKey,
    decoded: Option<(u32, u32, Seq<u8>)>,
    url: Option<String>,
)
    requires
        finishes_request(c0, key, decoded, c1),
        begins_request(c1, key, c2, url),
    ensures
        decoded is Some ==> url is None && c2.tiles_view()[key] == decoded->Some_0,
        decoded is None && !c0.tiles_view().dom().contains(key) ==> url is Some,
{
}

// ── Tile ranges ──────────────────────────────────────────────────────

/// The tiles of row `y` at zoom `z` with columns `xs <= x < xe`, left to right.
pub open spec fn row_keys(xs: u32, xe: u32, y: u32, z: u8) -> Seq<TileKey> {
    Seq::new(if xs < xe { (xe - xs) as nat } else { 0 }, |i: int| TileKey { x: (xs + i) as u32, y, z })
}

/// The tiles with columns `xs <= x < xe` and rows `ys <= y < ye` at zoom `z`, row by
/// row from the top, each row left to right.
pub open spec fn grid_keys(xs: u32, xe: u32, ys: u32, ye: u32, z: u8) -> Seq<TileKey>
    decreases ye,
{
    if ye <= ys {
        Seq::empty()
    } else {
        grid_keys(xs, xe, ys, (ye - 1) as u32, z) + row_keys(xs, xe, (ye - 1) as u32, z)
    }
}

/// The tiles of a rectangle of columns `xs..xe` and rows `ys..ye` at zoom `z`.
pub fn tile_grid(xs: u32, xe: u32, ys: u32, ye: u32, z: u8) -> (r: Vec<TileKey>)
    ensures
        r@ == grid_keys(xs, xe, ys, ye, z),
{
    let mut r: Vec<TileKey> = Vec::new();
    let mut y = ys;
    while y < ye
        invariant
            ys <= y <= ye || (ye <= ys && y == ys),
            r@ == grid_keys(xs, xe, ys, y, z),
        decreases ye - y,
    {
        let ghost before = r@;
        let mut x = xs;
        while x < xe
            invariant
                xs <= x <= xe || (xe <= xs && x == xs),
                r@ == before + row_keys(xs, x, y, z),
            decreases xe - x,
        {
            r.push(TileKey { x, y, z });
            x = x + 1;
            assert(row_keys(xs, x, y, z) =~= row_keys(xs, (x - 1) as u32, y, z).push(TileKey { x: (x - 1) as u32, y, z }));
        }
        proof {
            if xe <= xs {
                assert(row_keys(xs, x, y, z) =~= row_keys(xs, xe, y, z));
            }
        }
        y = y + 1;
        assert(grid_keys(xs, xe, ys, y, z) == grid_keys(xs, xe, ys, (y - 1) as u32, z) + row_keys(xs, xe, (y - 1) as u32, z));
    }
    proof {
        if ye <= ys {
            assert(grid_keys(xs, xe, ys, ye, z) =~= Seq::<TileKey>::empty());
            assert(grid_keys(xs, xe, ys, ys, z) =~= Seq::<TileKey>::empty());
        }
    }
    r
}

/// The tiles of `keys` that are not among `exclude`, in order.
pub fn tiles_except(keys: &Vec<TileKey>, exclude: &Vec<TileKey>) -> (r: Vec<TileKey>)
    ensures
        r@ == keys@.filter(|k: TileKey| !exclude@.contains(k)),
{
    let mut r: Vec<TileKey> = Vec::new();
    let mut i: usize = 0;
    proof {
        reveal(Seq::filter);
        assert(keys@.subrange(0, 0).filter(|k: TileKey| !exclude@.contains(k)) =~= Seq::<TileKey>::empty());
    }
    while i < keys.len()
        invariant
            i <= keys.len(),
            r@ == keys@.subrange(0, i as int).filter(|k: TileKey| !exclude@.contains(k)),
        decreases keys.len() - i,
    {
        let k = keys[i];
        let mut found = false;
        let mut j: usize = 0;
        while j < exclude.len()
            invariant
                j <= exclude.len(),
                found == exists|a: int| 0 <= a < j && exclude@[a] == k,
            decreases exclude.len() - j,
        {
            if exclude[j] == k {
                found = true;
            }
            j = j + 1;
        }
        proof {
            assert(found == exclude@.contains(k));
            reveal(Seq::filter);
            let s1 = keys@.subrange(0, i + 1);
            assert(s1.drop_last() =~= keys@.subrange(0, i as int));
            assert(s1.last() == k);
        }
        if !found {
            r.push(k);
        }
        i = i + 1;
    }
    assert(keys@.subrange(0, i as int) =~= keys@);
    r
}

} // verus!
