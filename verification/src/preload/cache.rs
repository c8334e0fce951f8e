//! Cache of parsed radar files keyed by upper-cased station ID.

use std::time::Duration;
use std::time::Instant;
use vstd::prelude::*;

use crate::text::{ascii_upper, lemma_ascii_case, lower, to_upper, upper};
use vstd::utf8::is_ascii_chars;

verus! {

#[verifier::external_type_specification]
#[verifier::external_body]
pub struct ExInstant(Instant);

/// `Instant::now()`: the current monotonic time; nothing is known of its value.
#[verifier::external_body]
fn instant_now() -> Instant {
    Instant::now()
}

/// What `now.duration_since(then)` returns: the time from `then` to `now`, zero
/// where `then` is later. It depends on the two instants alone.
pub uninterp spec fn elapsed(now: Instant, then: Instant) -> Duration;

/// What `d.as_nanos()` returns: the whole length of `d` in nanoseconds.
pub uninterp spec fn nanos(d: Duration) -> u128;

/// `Instant::duration_since`, which saturates at zero: the result is named `elapsed`.
#[verifier::external_body]
fn elapsed_since(now: &Instant, then: &Instant) -> (r: Duration)
    ensures
        r == elapsed(*now, *then),
{
    now.duration_since(*then)
}

/// `Duration::as_nanos`: the result is named `nanos`. Durations compare as their
/// lengths in nanoseconds do.
#[verifier::external_body]
fn duration_nanos(d: &Duration) -> (r: u128)
    ensures
        r == nanos(*d),
{
    d.as_nanos()
}

/// Every entry of `after` is stale exactly where its entry in `before` was stale or
/// is older than `max_age` at the instant `now`.
pub open spec fn marked_stale_at<F>(
    before: Map<Seq<char>, CachedSite<F>>,
    after: Map<Seq<char>, CachedSite<F>>,
    now: Instant,
    max_age: Duration,
) -> bool {
    forall|k: Seq<char>| #[trigger] after.dom().contains(k)
        ==> after[k].stale == (before[k].stale || nanos(elapsed(now, before[k].fetched_at)) > nanos(max_age))
}

/// A single cached radar site with parsed data and optional thumbnail.
/// `F` is the parsed radar file type.
pub struct CachedSite<F> {
    pub station_id: String,
    pub file: F,
    pub fetched_at: Instant,
    /// 256x256 RGBA pre-rendered reflectivity thumbnail
    pub thumbnail_pixels: Option<Vec<u8>>,
    pub stale: bool,
}

/// Cache of parsed radar data keyed by upper-cased station ID.
pub struct SiteCache<F> {
    /// (upper-cased station ID, entry); no key occurs twice.
    entries: Vec<(String, CachedSite<F>)>,
}

impl<F> SiteCache<F> {
    /// No key occurs twice, and each entry is filed under its upper-cased station ID.
    pub closed spec fn wf(&self) -> bool {
        &&& forall|i: int, j: int|
            0 <= i < self.entries@.len() && 0 <= j < self.entries@.len() && i != j
                ==> self.entries@[i].0@ != self.entries@[j].0@
        &&& forall|i: int| 0 <= i < self.entries@.len() ==> upper(#[trigger] self.entries@[i].1.station_id@) == self.entries@[i].0@
    }

    spec fn has_key(&self, k: Seq<char>) -> bool {
        exists|i: int| 0 <= i < self.entries@.len() && self.entries@[i].0@ == k
    }

    spec fn index_of(&self, k: Seq<char>) -> int {
        choose|i: int| 0 <= i < self.entries@.len() && self.entries@[i].0@ == k
    }

    /// The cache as a map from upper-cased station ID to entry.
    pub closed spec fn view(&self) -> Map<Seq<char>, CachedSite<F>> {
        Map::new(|k: Seq<char>| self.has_key(k), |k: Seq<char>| self.entries@[self.index_of(k)].1)
    }

    proof fn lemma_entry(&self, i: int)
        requires
            self.wf(),
            0 <= i < self.entries@.len(),
        ensures
            self@.dom().contains(self.entries@[i].0@),
            self@[self.entries@[i].0@] == self.entries@[i].1,
    {
        let k = self.entries@[i].0@;
        assert(self.has_key(k));
        let j = self.index_of(k);
        assert(self.entries@[j].0@ == k);
    }

    proof fn lemma_key(&self, k: Seq<char>)
        requires
            self.wf(),
            self@.dom().contains(k),
        ensures
            upper(self@[k].station_id@) == k,
    {
        let j = self.index_of(k);
        assert(upper(self.entries@[j].1.station_id@) == self.entries@[j].0@);
    }

    /// An empty cache.
    pub fn new() -> (r: Self)
        ensures
            r.wf(),
            r@ == Map::<Seq<char>, CachedSite<F>>::empty(),
    {
        let r = SiteCache { entries: Vec::new() };
        assert(r@ =~= Map::<Seq<char>, CachedSite<F>>::empty());
        r
    }

    /// Position of key `k` in the entries, if present.
    fn find(&self, k: &String) -> (r: Option<usize>)
        requires
            self.wf(),
        ensures
            r matches Some(i) ==> i < self.entries@.len() && self.entries@[i as int].0@ == k@,
            r is None ==> !self@.dom().contains(k@),
    {
        let mut i: usize = 0;
        while i < self.entries.len()
            invariant
                i <= self.entries@.len(),
                forall|j: int| 0 <= j < i ==> self.entries@[j].0@ != k@,
            decreases self.entries@.len() - i,
        {
            if self.entries[i].0 == *k {
                return Some(i);
            }
            i = i + 1;
        }
        None
    }

    /// Retrieve a cached site by station ID (e.g. "KTLX"), case-insensitively.
    pub fn get(&self, station_id: &str) -> (r: Option<&CachedSite<F>>)
        requires
            self.wf(),
        ensures
            r matches Some(c) ==> self@.dom().contains(upper(station_id@)) && *c == self@[upper(station_id@)]
                && upper(c.station_id@) == upper(station_id@),
            r is None ==> !self@.dom().contains(upper(station_id@)),
    {
        let key = to_upper(station_id);
        match self.find(&key) {
            Some(i) => {
                proof {
                    self.lemma_entry(i as int);
                    assert(upper(self.entries@[i as int].1.station_id@) == self.entries@[i as int].0@);
                }
                Some(&self.entries[i].1)
            },
            None => None,
        }
    }

    /// Insert or replace a cached site, keyed by its upper-cased station ID.
    pub fn insert(&mut self, entry: CachedSite<F>)
        requires
            old(self).wf(),
        ensures
            final(self).wf(),
            final(self)@ == old(self)@.insert(upper(entry.station_id@), entry),
    {
        let key = to_upper(entry.station_id.as_str());
        let ghost k = key@;
        let ghost e = entry;
        let ghost before = self@;
        assert(k == upper(e.station_id@));
        match self.find(&key) {
            Some(i) => {
                self.entries.set(i, (key, entry));
                proof {
                    assert forall|a: int| 0 <= a < self.entries@.len()
                        implies upper(#[trigger] self.entries@[a].1.station_id@) == self.entries@[a].0@ by {
                        if a != i as int {
                            assert(self.entries@[a] == old(self).entries@[a]);
                            assert(upper(old(self).entries@[a].1.station_id@) == old(self).entries@[a].0@);
                        } else {
                            assert(self.entries@[a].0@ == k && self.entries@[a].1 == e);
                        }
                    }
                    assert forall|a: int, b: int|
                        0 <= a < self.entries@.len() && 0 <= b < self.entries@.len() && a != b
                            implies self.entries@[a].0@ != self.entries@[b].0@ by {
                        assert(old(self).entries@[i as int].0@ == k);
                    }
                    assert forall|q: Seq<char>| #[trigger] self@.dom().contains(q) == before.insert(k, e).dom().contains(q) by {
                        if self.has_key(q) {
                            let j = choose|j: int| 0 <= j < self.entries@.len() && self.entries@[j].0@ == q;
                            if j != i as int {
                                assert(old(self).entries@[j].0@ == q);
                            }
                        }
                        if before.dom().contains(q) && q != k {
                            let j = choose|j: int| 0 <= j < old(self).entries@.len() && old(self).entries@[j].0@ == q;
                            assert(self.entries@[j].0@ == q);
                        }
                        if q == k {
                            assert(self.entries@[i as int].0@ == q);
                        }
                    }
                    assert forall|q: Seq<char>| #[trigger] self@.dom().contains(q) implies self@[q] == before.insert(k, e)[q] by {
                        let j = choose|j: int| 0 <= j < self.entries@.len() && self.entries@[j].0@ == q;
                        self.lemma_entry(j);
                        if j != i as int {
                            old(self).lemma_entry(j);
                        }
                    }
                    assert(self@ =~= before.insert(k, e));
                }
            },
            None => {
                self.entries.push((key, entry));
                proof {
                    let n = old(self).entries@.len() as int;
                    assert forall|a: int| 0 <= a < self.entries@.len()
                        implies upper(#[trigger] self.entries@[a].1.station_id@) == self.entries@[a].0@ by {
                        if a != n {
                            assert(self.entries@[a] == old(self).entries@[a]);
                            assert(upper(old(self).entries@[a].1.station_id@) == old(self).entries@[a].0@);
                        } else {
                            assert(self.entries@[a].0@ == k && self.entries@[a].1 == e);
                        }
                    }
                    assert forall|a: int, b: int|
                        0 <= a < self.entries@.len() && 0 <= b < self.entries@.len() && a != b
                            implies self.entries@[a].0@ != self.entries@[b].0@ by {
                        if a == n {
                            if old(self).has_key(k) {
                                old(self).lemma_entry(b);
                            }
                        }
                        if b == n {
                            if old(self).has_key(k) {
                                old(self).lemma_entry(a);
                            }
                        }
                    }
                    assert forall|q: Seq<char>| #[trigger] self@.dom().contains(q) == before.insert(k, e).dom().contains(q) by {
                        if self.has_key(q) {
                            let j = choose|j: int| 0 <= j < self.entries@.len() && self.entries@[j].0@ == q;
                            if j != n {
                                assert(old(self).entries@[j].0@ == q);
                            }
                        }
                        if before.dom().contains(q) && q != k {
                            let j = choose|j: int| 0 <= j < old(self).entries@.len() && old(self).entries@[j].0@ == q;
                            assert(self.entries@[j].0@ == q);
                        }
                        if q == k {
                            assert(self.entries@[n].0@ == q);
                        }
                    }
                    assert forall|q: Seq<char>| #[trigger] self@.dom().contains(q) implies self@[q] == before.insert(k, e)[q] by {
                        let j = choose|j: int| 0 <= j < self.entries@.len() && self.entries@[j].0@ == q;
                        self.lemma_entry(j);
                        if j != n {
                            old(self).lemma_entry(j);
                        }
                    }
                    assert(self@ =~= before.insert(k, e));
                }
            },
        }
    }

    /// Check whether a station is already cached (case-insensitively).
    pub fn has(&self, station_id: &str) -> (b: bool)
        requires
            self.wf(),
        ensures
            b == self@.dom().contains(upper(station_id@)),
    {
        let key = to_upper(station_id);
        let r = self.find(&key);
        if let Some(i) = r {
            proof {
                self.lemma_entry(i as int);
            }
        }
        r.is_some()
    }

    /// The upper-cased station IDs that are currently loaded, each once.
    pub fn stations_loaded(&self) -> (r: Vec<String>)
        requires
            self.wf(),
        ensures
            forall|i: int| 0 <= i < r@.len() ==> self@.dom().contains(#[trigger] r@[i]@),
            forall|k: Seq<char>| self@.dom().contains(k) ==> exists|i: int| 0 <= i < r@.len() && #[trigger] r@[i]@ == k,
            forall|i: int, j: int| 0 <= i < r@.len() && 0 <= j < r@.len() && i != j ==> r@[i]@ != r@[j]@,
    {
        let mut r: Vec<String> = Vec::new();
        let mut i: usize = 0;
        while i < self.entries.len()
            invariant
                self.wf(),
                i <= self.entries@.len(),
                r@.len() == i,
                forall|j: int| 0 <= j < i ==> r@[j]@ == #[trigger] self.entries@[j].0@,
            decreases self.entries@.len() - i,
        {
            r.push(self.entries[i].0.clone());
            i = i + 1;
        }
        proof {
            assert forall|j: int| 0 <= j < r@.len() implies self@.dom().contains(#[trigger] r@[j]@) by {
                self.lemma_entry(j);
            }
            assert forall|k: Seq<char>| self@.dom().contains(k) implies exists|j: int| 0 <= j < r@.len() && #[trigger] r@[j]@ == k by {
                let j = choose|j: int| 0 <= j < self.entries@.len() && self.entries@[j].0@ == k;
                assert(r@[j]@ == k);
            }
            assert forall|a: int, b: int| 0 <= a < r@.len() && 0 <= b < r@.len() && a != b implies r@[a]@ != r@[b]@ by {
                assert(r@[a]@ == self.entries@[a].0@);
                assert(r@[b]@ == self.entries@[b].0@);
            }
        }
        r
    }

    /// Mark entries older than `max_age` as stale, their age taken at one reading
    /// `now` of the clock; stale entries stay stale and nothing else changes.
    pub fn mark_stale(&mut self, max_age: Duration)
        requires
            old(self).wf(),
        ensures
            final(self).wf(),
            final(self)@.dom() == old(self)@.dom(),
            forall|k: Seq<char>| #[trigger] final(self)@.dom().contains(k) ==> {
                let (a, b) = (old(self)@[k], final(self)@[k]);
                &&& b.station_id == a.station_id
                &&& b.file == a.file
                &&& b.fetched_at == a.fetched_at
                &&& b.thumbnail_pixels == a.thumbnail_pixels
            },
            exists|now: Instant| #[trigger] marked_stale_at(old(self)@, final(self)@, now, max_age),
    {
        let now = instant_now();
        let limit = duration_nanos(&max_age);
        let mut i: usize = 0;
        while i < self.entries.len()
            invariant
                old(self).wf(),
                limit == nanos(max_age),
                i <= self.entries@.len(),
                self.entries@.len() == old(self).entries@.len(),
                forall|j: int| 0 <= j < self.entries@.len() ==> {
                    let (a, b) = (#[trigger] old(self).entries@[j], self.entries@[j]);
                    &&& b.0 == a.0
                    &&& b.1.station_id == a.1.station_id
                    &&& b.1.file == a.1.file
                    &&& b.1.fetched_at == a.1.fetched_at
                    &&& b.1.thumbnail_pixels == a.1.thumbnail_pixels
                    &&& j < i ==> b.1.stale == (a.1.stale || nanos(elapsed(now, a.1.fetched_at)) > limit)
                    &&& j >= i ==> b.1.stale == a.1.stale
                },
            decreases self.entries@.len() - i,
        {
            let age = elapsed_since(&now, &self.entries[i].1.fetched_at);
            if duration_nanos(&age) > limit {
                let (key, mut site) = self.entries.remove(i);
                site.stale = true;
                self.entries.insert(i, (key, site));
            }
            i = i + 1;
        }
        proof {
            assert(final(self).wf()) by {
                assert forall|a: int, b: int|
                    0 <= a < self.entries@.len() && 0 <= b < self.entries@.len() && a != b
                        implies self.entries@[a].0@ != self.entries@[b].0@ by {
                    assert(old(self).entries@[a].0 == self.entries@[a].0);
                    assert(old(self).entries@[b].0 == self.entries@[b].0);
                }
                assert forall|a: int| 0 <= a < self.entries@.len()
                    implies upper(#[trigger] self.entries@[a].1.station_id@) == self.entries@[a].0@ by {
                    assert(old(self).entries@[a].0 == self.entries@[a].0);
                    assert(upper(old(self).entries@[a].1.station_id@) == old(self).entries@[a].0@);
                }
            }
            assert forall|k: Seq<char>| self@.dom().contains(k) == old(self)@.dom().contains(k) by {
                if self.has_key(k) {
                    let m = choose|m: int| 0 <= m < self.entries@.len() && self.entries@[m].0@ == k;
                    assert(old(self).entries@[m].0 == self.entries@[m].0);
                }
                if old(self).has_key(k) {
                    let m = choose|m: int| 0 <= m < old(self).entries@.len() && old(self).entries@[m].0@ == k;
                    assert(old(self).entries@[m].0 == self.entries@[m].0);
                }
            }
            assert(self@.dom() =~= old(self)@.dom());
            assert forall|k: Seq<char>| #[trigger] self@.dom().contains(k) implies {
                let (a, b) = (old(self)@[k], self@[k]);
                &&& b.station_id == a.station_id
                &&& b.file == a.file
                &&& b.fetched_at == a.fetched_at
                &&& b.thumbnail_pixels == a.thumbnail_pixels
                &&& b.stale == (a.stale || nanos(elapsed(now, a.fetched_at)) > nanos(max_age))
            } by {
                let m = choose|m: int| 0 <= m < self.entries@.len() && self.entries@[m].0@ == k;
                self.lemma_entry(m);
                assert(old(self).entries@[m].0 == self.entries@[m].0);
                old(self).lemma_entry(m);
            }
            assert(marked_stale_at(old(self)@, self@, now, max_age));
        }
    }

    /// Remove all entries that have been marked stale.
    pub fn remove_stale(&mut self)
        requires
            old(self).wf(),
        ensures
            final(self).wf(),
            forall|k: Seq<char>| #[trigger] final(self)@.dom().contains(k) <==> (old(self)@.dom().contains(k) && !old(self)@[k].stale),
            forall|k: Seq<char>| #[trigger] final(self)@.dom().contains(k) ==> final(self)@[k] == old(self)@[k],
    {
        let ghost before = self.entries@;
        let mut old_entries: Vec<(String, CachedSite<F>)> = Vec::new();
        std::mem::swap(&mut old_entries, &mut self.entries);
        let mut kept: Vec<(String, CachedSite<F>)> = Vec::new();
        let mut rest = old_entries;
        // Walk the entries in order, keeping the fresh ones.
        let ghost mut taken: int = 0;
        let mut rev: Vec<(String, CachedSite<F>)> = Vec::new();
        while rest.len() > 0
            invariant
                rest@.len() + rev@.len() == before.len(),
                forall|j: int| 0 <= j < rest@.len() ==> rest@[j] == before[j],
                forall|j: int| 0 <= j < rev@.len() ==> rev@[j] == before[before.len() - 1 - j],
            decreases rest@.len(),
        {
            let e = rest.pop().unwrap();
            rev.push(e);
        }
        // `rev` holds the entries last-first; popping walks them first to last.
        let ghost mut pos: int = 0;
        let ghost mut idx: Seq<int> = Seq::empty();
        while rev.len() > 0
            invariant
                rev@.len() + pos == before.len(),
                0 <= pos <= before.len(),
                forall|j: int| 0 <= j < rev@.len() ==> rev@[j] == before[before.len() - 1 - j],
                idx.len() == kept@.len(),
                forall|j: int| 0 <= j < idx.len() ==> 0 <= #[trigger] idx[j] < pos,
                forall|j: int| 0 <= j < idx.len() ==> kept@[j] == before[#[trigger] idx[j]] && !before[idx[j]].1.stale,
                forall|a: int, b: int| 0 <= a < b < idx.len() ==> #[trigger] idx[a] < #[trigger] idx[b],
                forall|m: int| 0 <= m < pos && !before[m].1.stale ==> exists|j: int| 0 <= j < idx.len() && #[trigger] idx[j] == m,
            decreases rev@.len(),
        {
            let e = rev.pop().unwrap();
            assert(e == before[pos]);
            if !e.1.stale {
                kept.push(e);
                proof {
                    let ghost old_idx = idx;
                    idx = idx.push(pos);
                    assert forall|m: int| 0 <= m < pos + 1 && !before[m].1.stale implies exists|j: int| 0 <= j < idx.len() && #[trigger] idx[j] == m by {
                        if m == pos {
                            assert(idx[idx.len() - 1] == m);
                        } else {
                            let j = choose|j: int| 0 <= j < old_idx.len() && #[trigger] old_idx[j] == m;
                            assert(idx[j] == m);
                        }
                    }
                }
            }
            proof {
                pos = pos + 1;
            }
        }
        self.entries = kept;
        proof {
            let e = self.entries@;
            assert(self.wf()) by {
                assert forall|a: int, b: int| 0 <= a < e.len() && 0 <= b < e.len() && a != b
                    implies e[a].0@ != e[b].0@ by {
                    if a < b {
                        assert(idx[a] < idx[b]);
                    } else {
                        assert(idx[b] < idx[a]);
                    }
                }
                assert forall|a: int| 0 <= a < e.len() implies upper(#[trigger] e[a].1.station_id@) == e[a].0@ by {
                    assert(e[a] == before[idx[a]]);
                }
            }
            assert forall|k: Seq<char>| #[trigger] self@.dom().contains(k) <==> (old(self)@.dom().contains(k) && !old(self)@[k].stale) by {
                if self.has_key(k) {
                    let j = choose|j: int| 0 <= j < e.len() && e[j].0@ == k;
                    old(self).lemma_entry(idx[j]);
                }
                if old(self)@.dom().contains(k) && !old(self)@[k].stale {
                    let m = choose|m: int| 0 <= m < before.len() && before[m].0@ == k;
                    old(self).lemma_entry(m);
                    let j = choose|j: int| 0 <= j < idx.len() && #[trigger] idx[j] == m;
                    assert(e[j].0@ == k);
                }
            }
            assert forall|k: Seq<char>| #[trigger] self@.dom().contains(k) implies self@[k] == old(self)@[k] by {
                let j = choose|j: int| 0 <= j < e.len() && e[j].0@ == k;
                self.lemma_entry(j);
                old(self).lemma_entry(idx[j]);
            }
        }
    }
}

impl<F> Default for SiteCache<F> {
    fn default() -> (r: Self)
        ensures
            r.wf(),
            r@ == Map::<Seq<char>, CachedSite<F>>::empty(),
    {
        Self::new()
    }
}

/// Every entry of a cache is filed under its station ID upper-cased, so `get` finds
/// it by that ID in any letter case.
pub proof fn law_entry_key<F>(c: SiteCache<F>, k: Seq<char>)
    requires
        c.wf(),
        c@.dom().contains(k),
    ensures
        upper(c@[k].station_id@) == k,
{
    c.lemma_key(k);
}

/// Lookup ignores letter case: for an ASCII station ID, the ID, its lower-case and
/// its upper-case forms all reach the same key.
pub proof fn law_lookup_ignores_case(s: Seq<char>)
    requires
        is_ascii_chars(s),
    ensures
        upper(lower(s)) == upper(s),
        upper(upper(s)) == upper(s),
{
    lemma_ascii_case(s);
}

/// A listed key of an entry whose station ID is ASCII is its own upper-case form,
/// so `has` and `get` find the entry by the listed ID.
pub proof fn law_listed_id_is_upper<F>(c: SiteCache<F>, k: Seq<char>)
    requires
        c.wf(),
        c@.dom().contains(k),
        is_ascii_chars(c@[k].station_id@),
    ensures
        upper(k) == k,
{
    c.lemma_key(k);
    lemma_ascii_case(c@[k].station_id@);
}

/// Reading a station back after inserting its entry gives that entry, whatever
/// the case of either station ID; entries of other stations are untouched.
pub proof fn law_read_after_insert<F>(
    before: Map<Seq<char>, CachedSite<F>>,
    entry: CachedSite<F>,
    station_id: Seq<char>,
)
    ensures
        ({
            let after = before.insert(upper(entry.station_id@), entry);
            &&& upper(station_id) == upper(entry.station_id@) ==> after.dom().contains(
                upper(station_id),
            ) && after[upper(station_id)] == entry
            &&& upper(station_id) != upper(entry.station_id@) ==> (after.dom().contains(
                upper(station_id),
            ) == before.dom().contains(upper(station_id)) && after[upper(station_id)]
                == before[upper(station_id)])
        }),
{
}

} // verus!
