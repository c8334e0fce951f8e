//! Rotation detection: grouping of flagged velocity gates into clusters.
//!
//! A flagged gate sits at a grid cell `(azimuth index, gate index)`. Two flagged
//! gates are linked when their cells differ and lie within two azimuth bins and
//! two range gates of each other; clusters are the connected components of that
//! relation.

use vstd::prelude::*;
use vstd::set_lib::*;

verus! {

/// Minimum cluster size (gates) to form a mesocyclone candidate.
pub const MIN_CLUSTER_SIZE: usize = 5;

// ── The neighbour relation and its components ───────────────────────

/// A cell coordinate as the neighbour search's `i32` grid key holds it (`as i32`,
/// keeping the low 32 bits as a two's-complement value).
pub open spec fn key32(a: usize) -> int {
    let m = (a as int) % 0x1_0000_0000;
    if m > i32::MAX { m - 0x1_0000_0000 } else { m }
}

/// `|key32(a) - key32(b)|`.
pub open spec fn cell_gap(a: usize, b: usize) -> int {
    let (x, y) = (key32(a), key32(b));
    if x >= y {
        x - y
    } else {
        y - x
    }
}

/// Two cells with different grid keys within two azimuth bins and two range gates
/// of each other.
pub open spec fn near_cells(a: (usize, usize), b: (usize, usize)) -> bool {
    &&& (key32(a.0), key32(a.1)) != (key32(b.0), key32(b.1))
    &&& cell_gap(a.0, b.0) <= 2
    &&& cell_gap(a.1, b.1) <= 2
}

/// Flagged gates `i` and `j` are neighbours.
pub open spec fn linked(cells: Seq<(usize, usize)>, i: int, j: int) -> bool {
    &&& 0 <= i < cells.len()
    &&& 0 <= j < cells.len()
    &&& near_cells(cells[i], cells[j])
}

/// `p` is a non-empty walk through the flagged gates, each step between neighbours.
pub open spec fn is_walk(cells: Seq<(usize, usize)>, p: Seq<int>) -> bool {
    &&& p.len() > 0
    &&& forall|k: int| 0 <= k < p.len() ==> 0 <= #[trigger] p[k] < cells.len()
    &&& forall|k: int| 0 <= k < p.len() - 1 ==> #[trigger] linked(cells, p[k], p[k + 1])
}

/// Some walk leads from gate `i` to gate `j`.
pub open spec fn connected(cells: Seq<(usize, usize)>, i: int, j: int) -> bool {
    exists|p: Seq<int>| #[trigger] is_walk(cells, p) && p[0] == i && p.last() == j
}

/// The gates connected to gate `i` (its cluster).
pub open spec fn component(cells: Seq<(usize, usize)>, i: int) -> Set<int> {
    Set::new(|j: int| connected(cells, i, j))
}

/// Every grid key, and every key up to two cells beyond it, is a value of `i32`.
pub open spec fn cells_in_range(cells: Seq<(usize, usize)>) -> bool {
    forall|k: int|
        0 <= k < cells.len() ==> key_fits((#[trigger] cells[k]).0) && key_fits(cells[k].1)
}

/// A grid key `k` with `k - 2` and `k + 2` values of `i32`.
pub open spec fn key_fits(a: usize) -> bool {
    i32::MIN + 2 <= key32(a) <= i32::MAX - 2
}

/// The grid key of a coordinate.
fn key_of(a: usize) -> (r: i64)
    ensures
        r == key32(a),
{
    let m = (a as u64 % 0x1_0000_0000u64) as i64;
    if m > 0x7fff_ffff {
        m - 0x1_0000_0000
    } else {
        m
    }
}

/// A walk stays inside the gates, so `connected` implies both ends are gates.
pub proof fn lemma_connected_in_range(cells: Seq<(usize, usize)>, i: int, j: int)
    requires
        connected(cells, i, j),
    ensures
        0 <= i < cells.len(),
        0 <= j < cells.len(),
{
    let p = choose|p: Seq<int>| #[trigger] is_walk(cells, p) && p[0] == i && p.last() == j;
    assert(0 <= p[0] < cells.len());
    assert(0 <= p[p.len() - 1] < cells.len());
}

/// Every gate is connected to itself.
pub proof fn lemma_connected_refl(cells: Seq<(usize, usize)>, i: int)
    requires
        0 <= i < cells.len(),
    ensures
        connected(cells, i, i),
{
    let p = seq![i];
    assert(is_walk(cells, p));
}

/// A walk to `j` extends by one step to a neighbour of `j`.
pub proof fn lemma_connected_step(cells: Seq<(usize, usize)>, i: int, j: int, k: int)
    requires
        connected(cells, i, j),
        linked(cells, j, k),
    ensures
        connected(cells, i, k),
{
    let p = choose|p: Seq<int>| #[trigger] is_walk(cells, p) && p[0] == i && p.last() == j;
    let q = p.push(k);
    assert forall|m: int| 0 <= m < q.len() implies 0 <= #[trigger] q[m] < cells.len() by {
        if m < p.len() {
            assert(q[m] == p[m]);
        }
    }
    assert forall|m: int| 0 <= m < q.len() - 1 implies #[trigger] linked(cells, q[m], q[m + 1]) by {
        if m < p.len() - 1 {
            assert(q[m] == p[m]);
            assert(q[m + 1] == p[m + 1]);
            assert(linked(cells, p[m], p[m + 1]));
        } else {
            assert(q[m] == p.last());
        }
    }
    assert(is_walk(cells, q));
    assert(q[0] == i && q.last() == k);
}

/// Being neighbours is symmetric.
pub proof fn lemma_linked_symmetric(cells: Seq<(usize, usize)>, i: int, j: int)
    requires
        linked(cells, i, j),
    ensures
        linked(cells, j, i),
{
}

/// Connectedness is symmetric: a walk read backwards is a walk.
pub proof fn lemma_connected_symmetric(cells: Seq<(usize, usize)>, i: int, j: int)
    requires
        connected(cells, i, j),
    ensures
        connected(cells, j, i),
{
    let p = choose|p: Seq<int>| #[trigger] is_walk(cells, p) && p[0] == i && p.last() == j;
    let q = p.reverse();
    assert forall|m: int| 0 <= m < q.len() implies 0 <= #[trigger] q[m] < cells.len() by {
        assert(q[m] == p[p.len() - 1 - m]);
    }
    assert forall|m: int| 0 <= m < q.len() - 1 implies #[trigger] linked(cells, q[m], q[m + 1]) by {
        let a = p.len() - 2 - m;
        assert(q[m] == p[a + 1]);
        assert(q[m + 1] == p[a]);
        assert(linked(cells, p[a], p[a + 1]));
    }
    assert(is_walk(cells, q));
    assert(q[0] == p.last());
    assert(q.last() == p[0]);
}

/// Connectedness is transitive: two walks joined end to start form a walk.
pub proof fn lemma_connected_trans(cells: Seq<(usize, usize)>, i: int, j: int, k: int)
    requires
        connected(cells, i, j),
        connected(cells, j, k),
    ensures
        connected(cells, i, k),
    decreases
            (choose|q: Seq<int>| #[trigger] is_walk(cells, q) && q[0] == j && q.last() == k).len(),
{
    let q = choose|q: Seq<int>| #[trigger] is_walk(cells, q) && q[0] == j && q.last() == k;
    if q.len() == 1 {
        assert(j == k);
    } else {
        // Step to q[1], then follow the rest of q.
        assert(is_walk(cells, q) && q[0] == j);
        assert(linked(cells, q[0], q[0int + 1]));
        lemma_connected_step(cells, i, j, q[1]);
        let r = q.subrange(1, q.len() as int);
        assert forall|m: int| 0 <= m < r.len() implies 0 <= #[trigger] r[m] < cells.len() by {
            assert(r[m] == q[m + 1]);
        }
        assert forall|m: int| 0 <= m < r.len() - 1 implies #[trigger] linked(
            cells,
            r[m],
            r[m + 1],
        ) by {
            assert(r[m] == q[m + 1]);
            assert(r[m + 1] == q[m + 2]);
            assert(linked(cells, q[m + 1], q[m + 2]));
        }
        assert(is_walk(cells, r));
        assert(r[0] == q[1] && r.last() == k);
        lemma_connected_trans_walk(cells, i, r);
    }
}

/// Following a walk `r` from a gate connected to `i` stays connected to `i`.
proof fn lemma_connected_trans_walk(cells: Seq<(usize, usize)>, i: int, r: Seq<int>)
    requires
        is_walk(cells, r),
        connected(cells, i, r[0]),
    ensures
        connected(cells, i, r.last()),
    decreases r.len(),
{
    if r.len() > 1 {
        let s = r.drop_last();
        assert forall|m: int| 0 <= m < s.len() implies 0 <= #[trigger] s[m] < cells.len() by {
            assert(s[m] == r[m]);
        }
        assert forall|m: int| 0 <= m < s.len() - 1 implies #[trigger] linked(
            cells,
            s[m],
            s[m + 1],
        ) by {
            assert(s[m] == r[m]);
            assert(s[m + 1] == r[m + 1]);
            assert(linked(cells, r[m], r[m + 1]));
        }
        assert(is_walk(cells, s));
        lemma_connected_trans_walk(cells, i, s);
        let m = r.len() - 2;
        assert(linked(cells, r[m], r[m + 1]));
        lemma_connected_step(cells, i, s.last(), r.last());
    }
}

/// Where labels agree across every link, they agree along every walk.
proof fn lemma_walk_same_label(cells: Seq<(usize, usize)>, labels: Seq<usize>, p: Seq<int>)
    requires
        labels.len() == cells.len(),
        is_walk(cells, p),
        forall|a: int, b: int| #[trigger] linked(cells, a, b) ==> labels[a] == labels[b],
    ensures
        labels[p[0]] == labels[p.last()],
    decreases p.len(),
{
    if p.len() > 1 {
        let s = p.drop_last();
        assert forall|m: int| 0 <= m < s.len() implies 0 <= #[trigger] s[m] < cells.len() by {
            assert(s[m] == p[m]);
        }
        assert forall|m: int| 0 <= m < s.len() - 1 implies #[trigger] linked(
            cells,
            s[m],
            s[m + 1],
        ) by {
            assert(s[m] == p[m]);
            assert(s[m + 1] == p[m + 1]);
            assert(linked(cells, p[m], p[m + 1]));
        }
        lemma_walk_same_label(cells, labels, s);
        let m = p.len() - 2;
        assert(linked(cells, p[m], p[m + 1]));
    }
}

// ── Labelling the clusters ──────────────────────────────────────────

/// Each label is either `n` (not yet labelled) or the first gate of the labelled
/// gate's cluster, which carries its own index as label.
spec fn labels_sound(cells: Seq<(usize, usize)>, labels: Seq<usize>) -> bool {
    &&& labels.len() == cells.len()
    &&& forall|k: int| 0 <= k < labels.len() ==> #[trigger] labels[k] <= labels.len()
    &&& forall|k: int|
        0 <= k < labels.len() && #[trigger] labels[k] < labels.len() ==> {
            &&& labels[k] <= k
            &&& labels[labels[k] as int] == labels[k]
            &&& connected(cells, labels[k] as int, k)
        }
}

/// Neighbours of a gate labelled other than `r` carry the same label.
spec fn closed_except(cells: Seq<(usize, usize)>, labels: Seq<usize>, r: int) -> bool {
    forall|i: int, j: int|
        #[trigger] linked(cells, i, j) && labels[i] < cells.len() && labels[i] != r
            ==> labels[j] == labels[i]
}

/// The work queue of the cluster rooted at `r`: distinct gates labelled `r`, holding
/// every gate labelled `r`.
spec fn queue_ok(cells: Seq<(usize, usize)>, labels: Seq<usize>, queue: Seq<usize>, r: int) -> bool {
    &&& forall|a: int|
        0 <= a < queue.len() ==> #[trigger] queue[a] < cells.len() && labels[queue[a] as int]
            == r
    &&& queue.no_duplicates()
    &&& forall|x: int| 0 <= x < cells.len() && labels[x] == r ==> queue.contains(x as usize)
}

/// Distinct indices below `n` number at most `n`.
proof fn lemma_distinct_below(s: Seq<usize>, n: usize)
    requires
        s.no_duplicates(),
        forall|a: int| 0 <= a < s.len() ==> #[trigger] s[a] < n,
    ensures
        s.len() <= n,
{
    let t = s.map_values(|x: usize| x as int);
    assert(t.no_duplicates()) by {
        assert forall|a: int, b: int| 0 <= a < t.len() && 0 <= b < t.len() && a != b implies t[a]
            != t[b] by {
            assert(s[a] != s[b]);
        }
    }
    t.unique_seq_to_set();
    lemma_int_range(0, n as int);
    assert(t.to_set().subset_of(set_int_range(0, n as int))) by {
        assert forall|x: int| t.to_set().contains(x) implies set_int_range(0, n as int).contains(
            x,
        ) by {
            assert(t.contains(x));
            let a = choose|a: int| 0 <= a < t.len() && t[a] == x;
            assert(s[a] < n);
        }
    }
    lemma_len_subset(t.to_set(), set_int_range(0, n as int));
}

/// `near_cells` on two cells.
fn cells_near(a: (usize, usize), b: (usize, usize)) -> (r: bool)
    ensures
        r == near_cells(a, b),
{
    let (a0, a1, b0, b1) = (key_of(a.0), key_of(a.1), key_of(b.0), key_of(b.1));
    let da = if a0 >= b0 { a0 - b0 } else { b0 - a0 };
    let dg = if a1 >= b1 { a1 - b1 } else { b1 - a1 };
    let same = a0 == b0 && a1 == b1;
    !same && da <= 2 && dg <= 2
}

/// Labels the unlabelled neighbours of gate `k` (of the cluster rooted at `r`) with
/// `r` and queues them.
fn visit_neighbours(
    cells: &Vec<(usize, usize)>,
    labels: &mut Vec<usize>,
    queue: &mut Vec<usize>,
    k: usize,
    r: usize,
)
    requires
        labels_sound(cells@, old(labels)@),
        closed_except(cells@, old(labels)@, r as int),
        queue_ok(cells@, old(labels)@, old(queue)@, r as int),
        r < cells.len(),
        k < cells.len(),
        old(labels)[k as int] == r,
        forall|x: int| 0 <= x < r ==> #[trigger] old(labels)[x] < cells.len(),
    ensures
        labels_sound(cells@, final(labels)@),
        closed_except(cells@, final(labels)@, r as int),
        queue_ok(cells@, final(labels)@, final(queue)@, r as int),
        forall|x: int|
            0 <= x < cells.len() ==> #[trigger] final(labels)[x] == old(labels)[x] || (
            old(labels)[x] == cells.len() && final(labels)[x] == r),
        forall|j: int| #[trigger] linked(cells@, k as int, j) ==> final(labels)[j] == r,
        final(queue)@.len() >= old(queue)@.len(),
        final(queue)@.subrange(0, old(queue)@.len() as int) == old(queue)@,
{
    let n = cells.len();
    let ghost labels0 = labels@;
    let ghost queue0 = queue@;
    let mut j: usize = 0;
    while j < n
        invariant
            n == cells.len(),
            r < n,
            k < n,
            labels[k as int] == r,
            labels_sound(cells@, labels@),
            closed_except(cells@, labels@, r as int),
            queue_ok(cells@, labels@, queue@, r as int),
            forall|x: int| 0 <= x < r ==> #[trigger] labels[x] < n,
            forall|x: int|
                0 <= x < n ==> #[trigger] labels[x] == labels0[x] || (labels0[x] == n && labels[x]
                    == r),
            forall|jj: int| 0 <= jj < j && #[trigger] linked(cells@, k as int, jj) ==> labels[jj] == r,
            j <= n,
            queue@.len() >= queue0.len(),
            queue@.subrange(0, queue0.len() as int) == queue0,
        decreases n - j,
    {
        if cells_near(cells[k], cells[j]) {
            assert(linked(cells@, k as int, j as int));
            if labels[j] == n {
                proof {
                    // j is unlabelled, so it lies at or after the root.
                    assert(j >= r) by {
                        if j < r {
                            assert(labels[j as int] < n);
                        }
                    }
                    assert(labels@[k as int] == r);
                    assert(connected(cells@, r as int, k as int));
                    lemma_connected_step(cells@, r as int, k as int, j as int);
                    assert(!queue@.contains(j)) by {
                        if queue@.contains(j) {
                            let a = choose|a: int| 0 <= a < queue@.len() && queue@[a] == j;
                            assert(labels@[queue@[a] as int] == r);
                        }
                    }
                }
                let ghost before = labels@;
                let ghost qbefore = queue@;
                labels.set(j, r);
                queue.push(j);
                proof {
                    assert forall|x: int| 0 <= x < n && #[trigger] labels@[x] < n implies {
                        &&& labels@[x] <= x
                        &&& labels@[labels@[x] as int] == labels@[x]
                        &&& connected(cells@, labels@[x] as int, x)
                    } by {
                        if x != j {
                            assert(before[x] < n);
                            if before[x] as int == j as int {
                                assert(before[j as int] == j);
                            }
                        }
                    }
                    assert forall|a: int, b: int|
                        #[trigger] linked(cells@, a, b) && labels@[a] < n && labels@[a] != r
                            implies labels@[b] == labels@[a] by {
                        assert(a != j);
                        assert(before[a] == labels@[a]);
                        assert(before[b] == before[a]);
                        assert(b != j);
                    }
                    assert forall|a: int| 0 <= a < queue@.len() implies #[trigger] queue@[a] < n
                        && labels@[queue@[a] as int] == r by {
                        if a < qbefore.len() {
                            assert(queue@[a] == qbefore[a]);
                            assert(before[qbefore[a] as int] == r);
                        }
                    }
                    assert forall|x: int| 0 <= x < n && labels@[x] == r implies queue@.contains(
                        x as usize,
                    ) by {
                        if x == j {
                            assert(queue@[queue@.len() - 1] == j);
                        } else {
                            assert(qbefore.contains(x as usize));
                            let a = choose|a: int| 0 <= a < qbefore.len() && qbefore[a] == x as usize;
                            assert(queue@[a] == qbefore[a]);
                        }
                    }
                    assert(queue@.no_duplicates()) by {
                        assert forall|a: int, b: int|
                            0 <= a < queue@.len() && 0 <= b < queue@.len() && a != b implies queue@[a]
                            != queue@[b] by {
                            if a < qbefore.len() && b < qbefore.len() {
                                assert(queue@[a] == qbefore[a]);
                                assert(queue@[b] == qbefore[b]);
                            } else if a < qbefore.len() {
                                assert(queue@[a] == qbefore[a]);
                                assert(qbefore.contains(qbefore[a]));
                            } else if b < qbefore.len() {
                                assert(queue@[b] == qbefore[b]);
                                assert(qbefore.contains(qbefore[b]));
                            }
                        }
                    }
                    assert(queue@.subrange(0, queue0.len() as int) =~= queue0) by {
                        assert(qbefore.subrange(0, queue0.len() as int) == queue0);
                        assert forall|a: int| 0 <= a < queue0.len() implies queue@[a] == queue0[a] by {
                            assert(qbefore.subrange(0, queue0.len() as int)[a] == qbefore[a]);
                        }
                    }
                }
            } else {
                proof {
                    // A labelled neighbour of a gate labelled r carries r as well.
                    if labels@[j as int] != r {
                        lemma_linked_symmetric(cells@, k as int, j as int);
                        assert(linked(cells@, j as int, k as int));
                    }
                }
            }
        }
        j = j + 1;
    }
}

/// Every gate is labelled with a gate of its own cluster that labels itself, and
/// neighbours share their label.
spec fn labels_final(cells: Seq<(usize, usize)>, labels: Seq<usize>) -> bool {
    &&& labels.len() == cells.len()
    &&& forall|k: int|
        0 <= k < cells.len() ==> {
            &&& #[trigger] labels[k] <= k
            &&& labels[labels[k] as int] == labels[k]
            &&& connected(cells, labels[k] as int, k)
        }
    &&& forall|i: int, j: int| #[trigger] linked(cells, i, j) ==> labels[i] == labels[j]
}

/// With final labels, two gates share a label exactly when they are connected.
proof fn lemma_label_iff_connected(cells: Seq<(usize, usize)>, labels: Seq<usize>, i: int, j: int)
    requires
        labels_final(cells, labels),
        0 <= i < cells.len(),
        0 <= j < cells.len(),
    ensures
        labels[i] == labels[j] <==> connected(cells, i, j),
{
    if labels[i] == labels[j] {
        assert(connected(cells, labels[i] as int, i));
        assert(connected(cells, labels[j] as int, j));
        lemma_connected_symmetric(cells, labels[i] as int, i);
        lemma_connected_trans(cells, i, labels[i] as int, j);
    }
    if connected(cells, i, j) {
        let p = choose|p: Seq<int>| #[trigger] is_walk(cells, p) && p[0] == i && p.last() == j;
        lemma_walk_same_label(cells, labels, p);
    }
}

/// Labels every gate with the first gate of its cluster.
fn label_components(cells: &Vec<(usize, usize)>) -> (labels: Vec<usize>)
    ensures
        labels_final(cells@, labels@),
{
    let n = cells.len();
    let mut labels: Vec<usize> = Vec::new();
    let mut i: usize = 0;
    while i < n
        invariant
            n == cells.len(),
            i <= n,
            labels.len() == i,
            forall|k: int| 0 <= k < i ==> #[trigger] labels[k] == n,
        decreases n - i,
    {
        labels.push(n);
        i = i + 1;
    }
    let mut r: usize = 0;
    while r < n
        invariant
            n == cells.len(),
            r <= n,
            labels_sound(cells@, labels@),
            forall|x: int| 0 <= x < r ==> #[trigger] labels[x] < n,
            forall|a: int, b: int|
                #[trigger] linked(cells@, a, b) && labels[a] < n ==> labels[b] == labels[a],
        decreases n - r,
    {
        if labels[r] == n {
            let ghost before = labels@;
            labels.set(r, r);
            proof {
                lemma_connected_refl(cells@, r as int);
                assert forall|x: int| 0 <= x < n && #[trigger] labels@[x] < n implies {
                    &&& labels@[x] <= x
                    &&& labels@[labels@[x] as int] == labels@[x]
                    &&& connected(cells@, labels@[x] as int, x)
                } by {
                    if x != r {
                        assert(before[x] < n);
                        if before[x] == r {
                            assert(before[r as int] == r);
                        }
                    }
                }
                assert forall|a: int, b: int|
                    #[trigger] linked(cells@, a, b) && labels@[a] < n && labels@[a] != r implies labels@[b]
                        == labels@[a] by {
                    assert(a != r);
                    assert(before[b] == before[a]);
                }
            }
            let mut queue: Vec<usize> = Vec::new();
            queue.push(r);
            proof {
                assert forall|x: int| 0 <= x < n && labels@[x] == r implies queue@.contains(
                    x as usize,
                ) by {
                    if x != r {
                        assert(before[x] == r);
                        assert(before[r as int] == r);
                    }
                    assert(queue@[0] == r);
                }
            }
            let mut head: usize = 0;
            while head < queue.len()
                invariant
                    n == cells.len(),
                    r < n,
                    labels[r as int] == r,
                    labels_sound(cells@, labels@),
                    closed_except(cells@, labels@, r as int),
                    queue_ok(cells@, labels@, queue@, r as int),
                    forall|x: int| 0 <= x < r ==> #[trigger] labels[x] < n,
                    forall|a: int, b: int|
                        0 <= a < head && #[trigger] linked(cells@, queue@[a] as int, b) ==> labels[b]
                            == r,
                    head <= queue.len(),
                decreases n - head,
            {
                proof {
                    lemma_distinct_below(queue@, n);
                }
                let k = queue[head];
                let ghost qbefore = queue@;
                let ghost lbefore = labels@;
                visit_neighbours(cells, &mut labels, &mut queue, k, r);
                proof {
                    assert forall|a: int, b: int|
                        0 <= a < head + 1 && #[trigger] linked(cells@, queue@[a] as int, b)
                            implies labels@[b] == r by {
                        assert(queue@[a] == qbefore[a]) by {
                            assert(queue@.subrange(0, qbefore.len() as int)[a] == queue@[a]);
                        }
                        if a < head {
                            assert(lbefore[b] == r);
                        }
                    }
                }
                head = head + 1;
            }
            proof {
                assert forall|a: int, b: int|
                    #[trigger] linked(cells@, a, b) && labels@[a] < n implies labels@[b] == labels@[a] by {
                    if labels@[a] == r {
                        assert(queue@.contains(a as usize));
                        let q = choose|q: int| 0 <= q < queue@.len() && queue@[q] == a as usize;
                        assert(linked(cells@, queue@[q] as int, b));
                    }
                }
            }
        }
        r = r + 1;
    }
    proof {
        assert forall|i: int, j: int| #[trigger] linked(cells@, i, j) implies labels@[i] == labels@[j] by {
            assert(labels@[i] < n);
        }
    }
    labels
}

// ── Clusters ─────────────────────────────────────────────────────────

/// `m` is a cluster worth reporting: the gates connected to its first gate, in
/// increasing order, at least `MIN_CLUSTER_SIZE` of them.
pub open spec fn cluster_ok(cells: Seq<(usize, usize)>, m: Seq<usize>) -> bool {
    &&& m.len() >= MIN_CLUSTER_SIZE
    &&& forall|a: int, b: int| 0 <= a < b < m.len() ==> m[a] < m[b]
    &&& forall|a: int| 0 <= a < m.len() ==> #[trigger] m[a] < cells.len()
    &&& forall|j: int|
        0 <= j < cells.len() ==> (m.contains(j as usize) <==> connected(cells, m[0] as int, j))
}

/// The indices held in `s`, as integers.
pub open spec fn index_set(s: Seq<usize>) -> Set<int> {
    Set::new(|x: int| exists|a: int| 0 <= a < s.len() && #[trigger] s[a] as int == x)
}

/// An increasing sequence of indices has as many distinct members as elements.
proof fn lemma_increasing_count(s: Seq<usize>)
    requires
        forall|a: int, b: int| 0 <= a < b < s.len() ==> s[a] < s[b],
    ensures
        index_set(s).finite(),
        index_set(s).len() == s.len(),
{
    let t = s.map_values(|x: usize| x as int);
    assert(t.no_duplicates()) by {
        assert forall|a: int, b: int| 0 <= a < t.len() && 0 <= b < t.len() && a != b implies t[a]
            != t[b] by {
            if a < b {
                assert(s[a] < s[b]);
            } else {
                assert(s[b] < s[a]);
            }
        }
    }
    t.unique_seq_to_set();
    assert(t.to_set() =~= index_set(s)) by {
        assert forall|x: int| t.to_set().contains(x) <==> index_set(s).contains(x) by {
            if t.to_set().contains(x) {
                assert(t.contains(x));
                let a = choose|a: int| 0 <= a < t.len() && t[a] == x;
                assert(s[a] == x as usize);
            }
            if index_set(s).contains(x) {
                let a = choose|a: int| 0 <= a < s.len() && #[trigger] s[a] as int == x;
                assert(t[a] == x);
                assert(t.contains(x));
            }
        }
    }
}

/// The gates labelled `r`, in increasing order.
fn members_of(labels: &Vec<usize>, r: usize) -> (m: Vec<usize>)
    requires
        r < labels.len(),
        labels[r as int] == r,
        forall|k: int| 0 <= k < labels.len() ==> #[trigger] labels[k] <= k,
    ensures
        m.len() > 0,
        m[0] == r,
        forall|a: int, b: int| 0 <= a < b < m.len() ==> m[a] < m[b],
        forall|a: int| 0 <= a < m.len() ==> #[trigger] m[a] < labels.len(),
        forall|x: int| 0 <= x < labels.len() ==> (m@.contains(x as usize) <==> labels[x] == r),
{
    let n = labels.len();
    let mut m: Vec<usize> = Vec::new();
    let mut k: usize = r;
    while k < n
        invariant
            n == labels.len(),
            r <= k <= n,
            labels[r as int] == r,
            forall|a: int, b: int| 0 <= a < b < m.len() ==> m[a] < m[b],
            forall|a: int| 0 <= a < m.len() ==> r <= #[trigger] m[a] < k,
            forall|x: int| 0 <= x < n ==> (m@.contains(x as usize) <==> (r <= x < k && labels[x] == r)),
        decreases n - k,
    {
        if labels[k] == r {
            let ghost before = m@;
            m.push(k);
            proof {
                assert forall|x: int| 0 <= x < n implies (m@.contains(x as usize) <==> (r <= x < k + 1
                    && labels[x] == r)) by {
                    if m@.contains(x as usize) && x != k {
                        let a = choose|a: int| 0 <= a < m@.len() && m@[a] == x as usize;
                        assert(a < before.len());
                        assert(before.contains(x as usize));
                    }
                    if r <= x < k && labels[x] == r {
                        assert(before.contains(x as usize));
                        let a = choose|a: int| 0 <= a < before.len() && before[a] == x as usize;
                        assert(m@[a] == x as usize);
                    }
                    if x == k {
                        assert(m@[m@.len() - 1] == k);
                    }
                }
            }
        }
        k = k + 1;
    }
    proof {
        assert(m@.contains(r));
        let a = choose|a: int| 0 <= a < m@.len() && m@[a] == r;
        if a > 0 {
            assert(m[0] < m[a]);
        }
    }
    m
}

/// Reported clusters, each the cluster of its first gate and ordered by first
/// gate, share no gate.
proof fn lemma_clusters_disjoint(cells: Seq<(usize, usize)>, groups: Seq<Seq<usize>>)
    requires
        forall|g: int| 0 <= g < groups.len() ==> #[trigger] cluster_ok(cells, groups[g]),
        forall|g: int, h: int| 0 <= g < h < groups.len() ==> groups[g][0] < groups[h][0],
    ensures
        forall|g: int, h: int, a: int, b: int|
            0 <= g < h < groups.len() && 0 <= a < groups[g].len() && 0 <= b < groups[h].len()
                ==> #[trigger] groups[g][a] != #[trigger] groups[h][b],
{
    assert forall|g: int, h: int, a: int, b: int|
        0 <= g < h < groups.len() && 0 <= a < groups[g].len() && 0 <= b < groups[h].len()
            implies #[trigger] groups[g][a] != #[trigger] groups[h][b] by {
        if groups[g][a] == groups[h][b] {
            let x = groups[g][a] as int;
            let (mg, mh) = (groups[g], groups[h]);
            assert(cluster_ok(cells, mg));
            assert(cluster_ok(cells, mh));
            let (g0, h0) = (mg[0] as int, mh[0] as int);
            assert(mg[a] < cells.len());
            assert(mg.contains(x as usize));
            assert(mh.contains(x as usize));
            assert(connected(cells, g0, x));
            assert(connected(cells, h0, x));
            lemma_connected_symmetric(cells, h0, x);
            lemma_connected_trans(cells, g0, x, h0);
            assert(mh[0] < cells.len());
            // h0 lies in g's cluster, whose first gate g0 is its least.
            assert(mg.contains(h0 as usize));
            let k = choose|k: int| 0 <= k < mg.len() && mg[k] == h0 as usize;
            if k > 0 {
                assert(mg[0] < mg[k]);
            }
            assert(g0 <= h0);
            assert(groups[g][0] < groups[h][0]);
            // and g0 lies in h's cluster, whose least is h0.
            lemma_connected_symmetric(cells, g0, h0);
            assert(mh.contains(g0 as usize));
            let k2 = choose|k: int| 0 <= k < mh.len() && mh[k] == g0 as usize;
            if k2 > 0 {
                assert(mh[0] < mh[k2]);
            }
            assert(false);
        }
    }
}

/// Automated rotation detection from NEXRAD Level 2 velocity data.
pub struct RotationDetector;

impl RotationDetector {
    /// Groups flagged gates into clusters of neighbouring gates.
    ///
    /// `cells[i]` is the grid cell `(azimuth index, gate index)` of flagged gate `i`.
    /// Each returned group lists, in increasing order, the gates of one cluster that
    /// has at least `MIN_CLUSTER_SIZE` gates; every such cluster is returned once, the
    /// groups ordered by their first gate.
    pub fn group_candidates(cells: &Vec<(usize, usize)>) -> (groups: Vec<Vec<usize>>)
        requires
            cells_in_range(cells@),
        ensures
            forall|g: int| 0 <= g < groups.len() ==> #[trigger] cluster_ok(cells@, groups[g]@),
            forall|g: int|
                0 <= g < groups.len() ==> #[trigger] component(cells@, groups[g]@[0] as int).len()
                    == groups[g]@.len(),
            forall|g: int, h: int| 0 <= g < h < groups.len() ==> groups[g]@[0] < groups[h]@[0],
            forall|i: int|
                0 <= i < cells.len() && #[trigger] component(cells@, i).len() >= MIN_CLUSTER_SIZE
                    ==> exists|g: int| 0 <= g < groups.len() && #[trigger] groups[g]@.contains(i as usize),
    {
        let n = cells.len();
        let labels = label_components(cells);
        let mut groups: Vec<Vec<usize>> = Vec::new();
        let mut r: usize = 0;
        while r < n
            invariant
                n == cells.len(),
                r <= n,
                labels_final(cells@, labels@),
                forall|g: int| 0 <= g < groups.len() ==> #[trigger] cluster_ok(cells@, groups[g]@),
                forall|g: int|
                    0 <= g < groups.len() ==> #[trigger] component(cells@, groups[g]@[0] as int).len()
                        == groups[g]@.len(),
                forall|g: int| 0 <= g < groups.len() ==> #[trigger] groups[g]@[0] < r,
                forall|g: int, h: int| 0 <= g < h < groups.len() ==> groups[g]@[0] < groups[h]@[0],
                forall|i: int|
                    0 <= i < n && labels[i] < r && #[trigger] component(cells@, i).len()
                        >= MIN_CLUSTER_SIZE ==> exists|g: int|
                        0 <= g < groups.len() && #[trigger] groups[g]@.contains(i as usize),
            decreases n - r,
        {
            if labels[r] == r {
                let m = members_of(&labels, r);
                proof {
                    lemma_increasing_count(m@);
                    // The members are exactly the cluster of r.
                    assert forall|j: int| 0 <= j < n implies (m@.contains(j as usize) <==> connected(
                        cells@,
                        r as int,
                        j,
                    )) by {
                        lemma_label_iff_connected(cells@, labels@, r as int, j);
                    }
                    assert(index_set(m@) =~= component(cells@, r as int)) by {
                        assert forall|x: int| index_set(m@).contains(x) <==> component(
                            cells@,
                            r as int,
                        ).contains(x) by {
                            if connected(cells@, r as int, x) {
                                lemma_connected_in_range(cells@, r as int, x);
                                assert(m@.contains(x as usize));
                                let a = choose|a: int| 0 <= a < m@.len() && m@[a] == x as usize;
                                assert(m@[a] as int == x);
                            }
                            if index_set(m@).contains(x) {
                                let a = choose|a: int| 0 <= a < m@.len() && #[trigger] m@[a] as int == x;
                                assert(m[a] < n);
                                assert(m@.contains(x as usize));
                            }
                        }
                    }
                }
                let ghost groups0 = groups@;
                if m.len() >= MIN_CLUSTER_SIZE {
                    let ghost before = groups@;
                    groups.push(m);
                    proof {
                        assert(groups@[groups@.len() - 1]@ == m@);
                        assert forall|g: int| 0 <= g < groups.len() implies #[trigger] cluster_ok(
                            cells@,
                            groups[g]@,
                        ) by {
                            if g < before.len() {
                                assert(groups[g] == before[g]);
                            }
                        }
                        assert forall|g: int| 0 <= g < groups.len() implies #[trigger] component(
                            cells@,
                            groups[g]@[0] as int,
                        ).len() == groups[g]@.len() by {
                            if g < before.len() {
                                assert(groups[g] == before[g]);
                            }
                        }
                        assert forall|g: int, h: int| 0 <= g < h < groups.len() implies groups[g]@[0]
                            < groups[h]@[0] by {
                            assert(groups[g] == before[g]);
                            assert(before[g]@[0] < r);
                            if h < before.len() {
                                assert(groups[h] == before[h]);
                            }
                        }
                        assert forall|g: int| 0 <= g < groups.len() implies #[trigger] groups[g]@[0]
                            < r + 1 by {
                            if g < before.len() {
                                assert(groups[g] == before[g]);
                            }
                        }
                    }
                }
                proof {
                    assert forall|i: int|
                        0 <= i < n && labels[i] < r + 1 && #[trigger] component(cells@, i).len()
                            >= MIN_CLUSTER_SIZE implies exists|g: int|
                            0 <= g < groups.len() && #[trigger] groups[g]@.contains(i as usize) by {
                        if labels[i] == r {
                            lemma_label_iff_connected(cells@, labels@, r as int, i);
                            assert(component(cells@, i) =~= component(cells@, r as int)) by {
                                assert forall|x: int| component(cells@, i).contains(x) <==> component(
                                    cells@,
                                    r as int,
                                ).contains(x) by {
                                    if connected(cells@, i, x) {
                                        lemma_connected_trans(cells@, r as int, i, x);
                                    }
                                    if connected(cells@, r as int, x) {
                                        lemma_connected_symmetric(cells@, r as int, i);
                                        lemma_connected_trans(cells@, i, r as int, x);
                                    }
                                }
                            }
                            let g = groups.len() - 1;
                            assert(groups[g]@ == m@);
                            assert(m@.contains(i as usize));
                        } else {
                            let g = choose|g: int|
                                0 <= g < groups0.len() && #[trigger] groups0[g]@.contains(i as usize);
                            assert(groups[g] == groups0[g]);
                            assert(groups[g]@.contains(i as usize));
                        }
                    }
                }
            } else {
                proof {
                    assert(labels[labels[r as int] as int] == labels[r as int]);
                }
            }
            r = r + 1;
        }
        proof {
            assert forall|i: int|
                0 <= i < n && #[trigger] component(cells@, i).len() >= MIN_CLUSTER_SIZE implies exists|
                g: int,
            | 0 <= g < groups.len() && #[trigger] groups[g]@.contains(i as usize) by {
                assert(labels[i] <= i);
            }
            let gv = groups@.map_values(|v: Vec<usize>| v@);
            assert forall|g: int| 0 <= g < gv.len() implies #[trigger] cluster_ok(cells@, gv[g]) by {
                assert(gv[g] == groups[g]@);
            }
            assert forall|g: int, h: int| 0 <= g < h < gv.len() implies gv[g][0] < gv[h][0] by {
                assert(gv[g] == groups[g]@);
                assert(gv[h] == groups[h]@);
            }
            lemma_clusters_disjoint(cells@, gv);
            assert forall|g: int, h: int, a: int, b: int|
                0 <= g < h < groups.len() && 0 <= a < groups[g].len() && 0 <= b < groups[h].len()
                    implies #[trigger] groups[g][a] != #[trigger] groups[h][b] by {
                assert(gv[g] == groups[g]@);
                assert(gv[h] == groups[h]@);
                assert(gv[g][a] != gv[h][b]);
            }
        }
        groups
    }
}

// ── Vertical continuity ──────────────────────────────────────────────

/// Number of lowest tilts considered for the vertical continuity check.
pub const VERTICAL_CONTINUITY_TILTS: usize = 4;

/// Minimum number of tilts a mesocyclone must appear on to be reported.
pub const MIN_TILT_COUNT: usize = 2;

/// Some detection in `acc` lies on tilt `t`.
pub open spec fn tilt_taken(tilts: Seq<usize>, acc: Seq<usize>, t: usize) -> bool {
    exists|a: int| 0 <= a < acc.len() && tilts[#[trigger] acc[a] as int] == t
}

/// Detection `j` joins the group of detection `i`: it lies on one of the lowest
/// tilts, is not `i`, is not yet used, adds a tilt the group lacks, and lies near `i`.
pub open spec fn joins(
    tilts: Seq<usize>,
    near: Seq<Seq<bool>>,
    used: Seq<bool>,
    i: int,
    j: int,
    acc: Seq<usize>,
) -> bool {
    &&& tilts[j] < VERTICAL_CONTINUITY_TILTS
    &&& j != i
    &&& !used[j]
    &&& !tilt_taken(tilts, acc, tilts[j])
    &&& near[i][j]
}

/// The group gathered around detection `i`, scanning detections from `j` on with
/// `acc` gathered so far.
pub open spec fn gather(
    tilts: Seq<usize>,
    near: Seq<Seq<bool>>,
    used: Seq<bool>,
    i: int,
    j: int,
    acc: Seq<usize>,
) -> Seq<usize>
    decreases tilts.len() - j,
{
    if j < 0 || j >= tilts.len() {
        acc
    } else if joins(tilts, near, used, i, j, acc) {
        gather(tilts, near, used, i, j + 1, acc.push(j as usize))
    } else {
        gather(tilts, near, used, i, j + 1, acc)
    }
}

/// `used` with the members of `g` marked.
pub open spec fn mark_used(used: Seq<bool>, g: Seq<usize>) -> Seq<bool> {
    Seq::new(used.len(), |k: int| used[k] || g.contains(k as usize))
}

/// The groups found scanning detections from `i` on, given the detections already
/// `used` and the groups `out` found so far: each unused detection on one of the
/// lowest tilts gathers a group, kept when it spans at least `MIN_TILT_COUNT` tilts.
pub open spec fn continuity(
    tilts: Seq<usize>,
    near: Seq<Seq<bool>>,
    i: int,
    used: Seq<bool>,
    out: Seq<Seq<usize>>,
) -> Seq<Seq<usize>>
    decreases tilts.len() - i,
{
    if i < 0 || i >= tilts.len() {
        out
    } else if tilts[i] >= VERTICAL_CONTINUITY_TILTS || used[i] {
        continuity(tilts, near, i + 1, used, out)
    } else {
        let g = gather(tilts, near, used, i, 0, seq![i as usize]);
        if g.len() < MIN_TILT_COUNT {
            continuity(tilts, near, i + 1, used, out)
        } else {
            continuity(tilts, near, i + 1, mark_used(used, g), out.push(g))
        }
    }
}

/// The groups of single-tilt detections that pass the vertical continuity check.
pub open spec fn vertical_groups(tilts: Seq<usize>, near: Seq<Seq<bool>>) -> Seq<Seq<usize>> {
    continuity(tilts, near, 0, Seq::new(tilts.len(), |k: int| false), seq![])
}

/// The rows of a boolean matrix.
pub open spec fn rows_view(m: Seq<Vec<bool>>) -> Seq<Seq<bool>> {
    m.map_values(|r: Vec<bool>| r@)
}

/// The groups as sequences.
pub open spec fn groups_view(g: Seq<Vec<usize>>) -> Seq<Seq<usize>> {
    g.map_values(|v: Vec<usize>| v@)
}

/// `tilt_taken` on a vector of detections.
fn has_tilt(tilts: &Vec<usize>, acc: &Vec<usize>, t: usize) -> (b: bool)
    requires
        forall|a: int| 0 <= a < acc.len() ==> #[trigger] acc[a] < tilts.len(),
    ensures
        b == tilt_taken(tilts@, acc@, t),
{
    let mut a: usize = 0;
    while a < acc.len()
        invariant
            a <= acc.len(),
            forall|x: int| 0 <= x < acc.len() ==> #[trigger] acc[x] < tilts.len(),
            forall|x: int| 0 <= x < a ==> tilts[#[trigger] acc@[x] as int] != t,
        decreases acc.len() - a,
    {
        if tilts[acc[a]] == t {
            assert(tilts@[acc@[a as int] as int] == t);
            return true;
        }
        a = a + 1;
    }
    false
}

/// Gathers the group of detection `i`.
fn gather_group(tilts: &Vec<usize>, near: &Vec<Vec<bool>>, used: &Vec<bool>, i: usize) -> (g: Vec<usize>)
    requires
        i < tilts.len(),
        near.len() == tilts.len(),
        used.len() == tilts.len(),
        forall|k: int| 0 <= k < near.len() ==> #[trigger] near[k].len() == tilts.len(),
    ensures
        g@ == gather(tilts@, rows_view(near@), used@, i as int, 0, seq![i]),
        forall|a: int| 0 <= a < g.len() ==> #[trigger] g[a] < tilts.len(),
{
    let n = tilts.len();
    let mut acc: Vec<usize> = Vec::new();
    acc.push(i);
    let mut j: usize = 0;
    while j < n
        invariant
            n == tilts.len(),
            i < n,
            near.len() == n,
            used.len() == n,
            forall|k: int| 0 <= k < near.len() ==> #[trigger] near[k].len() == n,
            j <= n,
            forall|a: int| 0 <= a < acc.len() ==> #[trigger] acc[a] < n,
            gather(tilts@, rows_view(near@), used@, i as int, j as int, acc@) == gather(
                tilts@,
                rows_view(near@),
                used@,
                i as int,
                0,
                seq![i],
            ),
        decreases n - j,
    {
        assert(near[i as int].len() == n);
        let take = tilts[j] < VERTICAL_CONTINUITY_TILTS && j != i && !used[j] && !has_tilt(
            tilts,
            &acc,
            tilts[j],
        ) && near[i][j];
        proof {
            assert(rows_view(near@)[i as int] == near[i as int]@);
            assert(take == joins(tilts@, rows_view(near@), used@, i as int, j as int, acc@));
        }
        if take {
            acc.push(j);
        }
        j = j + 1;
    }
    acc
}

impl RotationDetector {
    /// The detections to keep after the vertical continuity check.
    ///
    /// `tilts[k]` is the tilt index of single-tilt detection `k` and `near[i][j]`
    /// says whether detection `j` lies within the matching distance of detection
    /// `i`. Scanning the detections on the lowest `VERTICAL_CONTINUITY_TILTS` tilts in
    /// order, each one not yet used gathers the later or earlier unused detections
    /// near it on tilts not yet in its group; a group spanning at least
    /// `MIN_TILT_COUNT` tilts is reported (first the gathering detection, then the
    /// others in index order) and its members are used up.
    pub fn apply_vertical_continuity(tilts: &Vec<usize>, near: &Vec<Vec<bool>>) -> (groups: Vec<
        Vec<usize>,
    >)
        requires
            near.len() == tilts.len(),
            forall|k: int| 0 <= k < near.len() ==> #[trigger] near[k].len() == tilts.len(),
        ensures
            groups_view(groups@) == vertical_groups(tilts@, rows_view(near@)),
    {
        let n = tilts.len();
        let mut used: Vec<bool> = Vec::new();
        let mut k: usize = 0;
        while k < n
            invariant
                k <= n,
                used.len() == k,
                forall|x: int| 0 <= x < k ==> !#[trigger] used[x],
            decreases n - k,
        {
            used.push(false);
            k = k + 1;
        }
        assert(used@ =~= Seq::new(tilts@.len(), |x: int| false));
        let mut groups: Vec<Vec<usize>> = Vec::new();
        assert(groups_view(groups@) =~= Seq::<Seq<usize>>::empty());
        let mut i: usize = 0;
        while i < n
            invariant
                n == tilts.len(),
                near.len() == n,
                used.len() == n,
                forall|k: int| 0 <= k < near.len() ==> #[trigger] near[k].len() == n,
                i <= n,
                continuity(tilts@, rows_view(near@), i as int, used@, groups_view(groups@))
                    == vertical_groups(tilts@, rows_view(near@)),
            decreases n - i,
        {
            if tilts[i] < VERTICAL_CONTINUITY_TILTS && !used[i] {
                let g = gather_group(tilts, near, &used, i);
                if g.len() >= MIN_TILT_COUNT {
                    let ghost used0 = used@;
                    let mut a: usize = 0;
                    while a < g.len()
                        invariant
                            used.len() == n,
                            a <= g.len(),
                            forall|x: int|
                                0 <= x < n ==> #[trigger] used@[x] == (used0[x] || g@.subrange(
                                    0,
                                    a as int,
                                ).contains(x as usize)),
                            forall|x: int| 0 <= x < g.len() ==> #[trigger] g[x] < n,
                        decreases g.len() - a,
                    {
                        proof {
                            assert forall|x: int|
                                0 <= x < n implies (#[trigger] g@.subrange(0, a + 1).contains(x as usize) <==> (
                                g@.subrange(0, a as int).contains(x as usize) || g@[a as int] == x
                                    as usize)) by {
                                let s0 = g@.subrange(0, a as int);
                                let s1 = g@.subrange(0, a + 1);
                                if s1.contains(x as usize) {
                                    let b = choose|b: int| 0 <= b < s1.len() && s1[b] == x as usize;
                                    if b < a {
                                        assert(s0[b] == x as usize);
                                    }
                                }
                                if s0.contains(x as usize) {
                                    let b = choose|b: int| 0 <= b < s0.len() && s0[b] == x as usize;
                                    assert(s1[b] == x as usize);
                                }
                                if g@[a as int] == x as usize {
                                    assert(s1[a as int] == x as usize);
                                }
                            }
                        }
                        let m = g[a];
                        used.set(m, true);
                        a = a + 1;
                    }
                    proof {
                        assert(g@.subrange(0, g.len() as int) == g@);
                        assert(used@ =~= mark_used(used0, g@));
                    }
                    let ghost before = groups@;
                    let ghost gv = g@;
                    groups.push(g);
                    proof {
                        assert(groups@ == before.push(g));
                        assert(groups_view(groups@) =~= groups_view(before).push(gv));
                    }
                }
            }
            i = i + 1;
        }
        groups
    }
}

/// A reported group: at least `MIN_TILT_COUNT` detections, all on the lowest
/// `VERTICAL_CONTINUITY_TILTS` tilts and on distinct tilts, each one after the
/// first near the first.
pub open spec fn group_ok(tilts: Seq<usize>, near: Seq<Seq<bool>>, g: Seq<usize>) -> bool {
    &&& g.len() >= MIN_TILT_COUNT
    &&& forall|a: int|
        0 <= a < g.len() ==> #[trigger] g[a] < tilts.len() && tilts[g[a] as int]
            < VERTICAL_CONTINUITY_TILTS
    &&& forall|a: int, b: int|
        0 <= a < g.len() && 0 <= b < g.len() && a != b ==> tilts[#[trigger] g[a] as int]
            != tilts[#[trigger] g[b] as int]
    &&& forall|a: int| 1 <= a < g.len() ==> near[g[0] as int][#[trigger] g[a] as int]
}

/// No detection belongs to two groups.
pub open spec fn groups_disjoint(out: Seq<Seq<usize>>) -> bool {
    forall|p: int, q: int, a: int, b: int|
        0 <= p < q < out.len() && 0 <= a < out[p].len() && 0 <= b < out[q].len()
            ==> #[trigger] out[p][a] != #[trigger] out[q][b]
}

/// A group under construction around `i`: `i` first, members on distinct lowest
/// tilts, the others unused and near `i`.
spec fn partial_group(
    tilts: Seq<usize>,
    near: Seq<Seq<bool>>,
    used: Seq<bool>,
    i: int,
    acc: Seq<usize>,
) -> bool {
    &&& acc.len() >= 1
    &&& acc[0] == i
    &&& !used[i]
    &&& forall|a: int|
        0 <= a < acc.len() ==> #[trigger] acc[a] < tilts.len() && tilts[acc[a] as int]
            < VERTICAL_CONTINUITY_TILTS
    &&& forall|a: int, b: int|
        0 <= a < acc.len() && 0 <= b < acc.len() && a != b ==> tilts[#[trigger] acc[a] as int]
            != tilts[#[trigger] acc[b] as int]
    &&& forall|a: int|
        1 <= a < acc.len() ==> near[i][#[trigger] acc[a] as int] && !used[acc[a] as int]
}

proof fn lemma_gather(
    tilts: Seq<usize>,
    near: Seq<Seq<bool>>,
    used: Seq<bool>,
    i: int,
    j: int,
    acc: Seq<usize>,
)
    requires
        0 <= i < tilts.len() <= usize::MAX,
        used.len() == tilts.len(),
        0 <= j,
        partial_group(tilts, near, used, i, acc),
    ensures
        partial_group(tilts, near, used, i, gather(tilts, near, used, i, j, acc)),
    decreases tilts.len() - j,
{
    if j < tilts.len() {
        if joins(tilts, near, used, i, j, acc) {
            let acc2 = acc.push(j as usize);
            assert forall|a: int| 0 <= a < acc2.len() implies #[trigger] acc2[a] < tilts.len()
                && tilts[acc2[a] as int] < VERTICAL_CONTINUITY_TILTS by {
                if a < acc.len() {
                    assert(acc2[a] == acc[a]);
                }
            }
            assert forall|a: int, b: int|
                0 <= a < acc2.len() && 0 <= b < acc2.len() && a != b implies tilts[#[trigger] acc2[a] as int]
                != tilts[#[trigger] acc2[b] as int] by {
                if a < acc.len() && b < acc.len() {
                    assert(acc2[a] == acc[a]);
                    assert(acc2[b] == acc[b]);
                } else if a < acc.len() {
                    assert(acc2[a] == acc[a]);
                    if tilts[acc[a] as int] == tilts[j] {
                        assert(tilt_taken(tilts, acc, tilts[j]));
                    }
                } else if b < acc.len() {
                    assert(acc2[b] == acc[b]);
                    if tilts[acc[b] as int] == tilts[j] {
                        assert(tilt_taken(tilts, acc, tilts[j]));
                    }
                }
            }
            assert forall|a: int| 1 <= a < acc2.len() implies near[i][#[trigger] acc2[a] as int]
                && !used[acc2[a] as int] by {
                if a < acc.len() {
                    assert(acc2[a] == acc[a]);
                }
            }
            lemma_gather(tilts, near, used, i, j + 1, acc2);
        } else {
            lemma_gather(tilts, near, used, i, j + 1, acc);
        }
    }
}

proof fn lemma_continuity(
    tilts: Seq<usize>,
    near: Seq<Seq<bool>>,
    i: int,
    used: Seq<bool>,
    out: Seq<Seq<usize>>,
)
    requires
        0 <= i,
        tilts.len() <= usize::MAX,
        used.len() == tilts.len(),
        forall|p: int| 0 <= p < out.len() ==> #[trigger] group_ok(tilts, near, out[p]),
        groups_disjoint(out),
        forall|p: int, a: int| 0 <= p < out.len() && 0 <= a < out[p].len() ==> used[#[trigger] out[p][a] as int],
    ensures
        forall|p: int|
            0 <= p < continuity(tilts, near, i, used, out).len() ==> #[trigger] group_ok(
                tilts,
                near,
                continuity(tilts, near, i, used, out)[p],
            ),
        groups_disjoint(continuity(tilts, near, i, used, out)),
    decreases tilts.len() - i,
{
    if i < tilts.len() {
        if tilts[i] >= VERTICAL_CONTINUITY_TILTS || used[i] {
            lemma_continuity(tilts, near, i + 1, used, out);
        } else {
            let g0 = seq![i as usize];
            assert(partial_group(tilts, near, used, i, g0));
            let g = gather(tilts, near, used, i, 0, g0);
            lemma_gather(tilts, near, used, i, 0, g0);
            if g.len() < MIN_TILT_COUNT {
                lemma_continuity(tilts, near, i + 1, used, out);
            } else {
                let out2 = out.push(g);
                let used2 = mark_used(used, g);
                assert forall|p: int| 0 <= p < out2.len() implies #[trigger] group_ok(
                    tilts,
                    near,
                    out2[p],
                ) by {
                    if p < out.len() {
                        assert(out2[p] == out[p]);
                    }
                }
                assert forall|p: int, q: int, a: int, b: int|
                    0 <= p < q < out2.len() && 0 <= a < out2[p].len() && 0 <= b < out2[q].len()
                        implies #[trigger] out2[p][a] != #[trigger] out2[q][b] by {
                    assert(out2[p] == out[p]);
                    if q < out.len() {
                        assert(out2[q] == out[q]);
                    } else {
                        assert(used[out[p][a] as int]);
                        assert(out2[q] == g);
                        if b == 0 {
                            assert(g[0] == i);
                        } else {
                            assert(!used[g[b] as int]);
                        }
                    }
                }
                assert forall|p: int, a: int|
                    0 <= p < out2.len() && 0 <= a < out2[p].len() implies used2[#[trigger] out2[p][a] as int] by {
                    if p < out.len() {
                        assert(out2[p] == out[p]);
                        assert(group_ok(tilts, near, out[p]));
                        assert(out[p][a] < tilts.len());
                        assert(used[out[p][a] as int]);
                    } else {
                        assert(out2[p] == g);
                        assert(g[a] < tilts.len());
                        assert(g.contains(g[a]));
                        assert(used2[g[a] as int]);
                    }
                }
                lemma_continuity(tilts, near, i + 1, used2, out2);
            }
        }
    }
}

/// Every reported group of the vertical continuity check spans at least
/// `MIN_TILT_COUNT` distinct tilts among the lowest `VERTICAL_CONTINUITY_TILTS`,
/// each member lies near the first, and no detection is reported in two groups.
pub proof fn law_vertical_groups(tilts: Seq<usize>, near: Seq<Seq<bool>>)
    requires
        tilts.len() <= usize::MAX,
    ensures
        forall|p: int|
            0 <= p < vertical_groups(tilts, near).len() ==> #[trigger] group_ok(
                tilts,
                near,
                vertical_groups(tilts, near)[p],
            ),
        groups_disjoint(vertical_groups(tilts, near)),
{
    lemma_continuity(tilts, near, 0, Seq::new(tilts.len(), |k: int| false), seq![]);
}

/// No detection used yet.
pub open spec fn none_used(n: nat) -> Seq<bool> {
    Seq::new(n, |k: int| false)
}

/// The group gathered around detection `w` when no detection is used yet.
pub open spec fn first_gather(tilts: Seq<usize>, near: Seq<Seq<bool>>, w: int) -> Seq<usize> {
    gather(tilts, near, none_used(tilts.len()), w, 0, seq![w as usize])
}

proof fn lemma_continuity_keeps(
    tilts: Seq<usize>,
    near: Seq<Seq<bool>>,
    i: int,
    used: Seq<bool>,
    out: Seq<Seq<usize>>,
)
    ensures
        continuity(tilts, near, i, used, out).len() >= out.len(),
        forall|p: int| 0 <= p < out.len() ==> #[trigger] continuity(tilts, near, i, used, out)[p] == out[p],
    decreases tilts.len() - i,
{
    if 0 <= i < tilts.len() {
        if tilts[i] >= VERTICAL_CONTINUITY_TILTS || used[i] {
            lemma_continuity_keeps(tilts, near, i + 1, used, out);
        } else {
            let g = gather(tilts, near, used, i, 0, seq![i as usize]);
            if g.len() < MIN_TILT_COUNT {
                lemma_continuity_keeps(tilts, near, i + 1, used, out);
            } else {
                lemma_continuity_keeps(tilts, near, i + 1, mark_used(used, g), out.push(g));
                assert forall|p: int| 0 <= p < out.len() implies #[trigger] continuity(tilts, near, i, used, out)[p] == out[p] by {
                    assert(out.push(g)[p] == out[p]);
                }
            }
        }
    }
}

proof fn lemma_continuity_reports(tilts: Seq<usize>, near: Seq<Seq<bool>>, j: int, w: int)
    requires
        0 <= j <= w < tilts.len(),
        tilts[w] < VERTICAL_CONTINUITY_TILTS,
        first_gather(tilts, near, w).len() >= MIN_TILT_COUNT,
    ensures
        continuity(tilts, near, j, none_used(tilts.len()), seq![]).len() > 0,
        (forall|k: int| j <= k < w && tilts[k] < VERTICAL_CONTINUITY_TILTS
            ==> (#[trigger] first_gather(tilts, near, k)).len() < MIN_TILT_COUNT)
            ==> continuity(tilts, near, j, none_used(tilts.len()), seq![])[0] == first_gather(tilts, near, w),
    decreases w - j,
{
    let f = none_used(tilts.len());
    let g = gather(tilts, near, f, j, 0, seq![j as usize]);
    assert(!f[j]);
    assert(g == first_gather(tilts, near, j));
    if tilts[j] < VERTICAL_CONTINUITY_TILTS && g.len() >= MIN_TILT_COUNT {
        lemma_continuity_keeps(tilts, near, j + 1, mark_used(f, g), seq![].push(g));
        assert(seq![].push(g)[0] == g);
    } else {
        lemma_continuity_reports(tilts, near, j + 1, w);
    }
}

/// Completeness of the vertical continuity check: as soon as one detection on the
/// lowest tilts gathers near detections on at least `MIN_TILT_COUNT` tilts (all
/// detections still unused), some mesocyclone is reported; the first reported is
/// the group of the first such detection.
pub proof fn law_vertical_groups_complete(tilts: Seq<usize>, near: Seq<Seq<bool>>, w: int)
    requires
        0 <= w < tilts.len(),
        tilts[w] < VERTICAL_CONTINUITY_TILTS,
        first_gather(tilts, near, w).len() >= MIN_TILT_COUNT,
    ensures
        vertical_groups(tilts, near).len() > 0,
        (forall|k: int| 0 <= k < w && tilts[k] < VERTICAL_CONTINUITY_TILTS
            ==> (#[trigger] first_gather(tilts, near, k)).len() < MIN_TILT_COUNT)
            ==> vertical_groups(tilts, near)[0] == first_gather(tilts, near, w),
{
    lemma_continuity_reports(tilts, near, 0, w);
    assert(vertical_groups(tilts, near) == continuity(tilts, near, 0, none_used(tilts.len()), seq![]));
}

/// The detections used up before detection `i` is reached: the members of the
/// groups in `out` gathered by a detection before `i`.
pub open spec fn used_by(out: Seq<Seq<usize>>, n: nat, i: int) -> Seq<bool> {
    Seq::new(n, |k: int| exists|p: int| 0 <= p < out.len() && out[p].len() > 0 && out[p][0] < i && #[trigger] out[p].contains(k as usize))
}

/// The group that detection `i` gathers when it is reached, given the groups `out`.
pub open spec fn gathered_at(tilts: Seq<usize>, near: Seq<Seq<bool>>, out: Seq<Seq<usize>>, i: int) -> Seq<usize> {
    gather(tilts, near, used_by(out, tilts.len(), i), i, 0, seq![i as usize])
}

/// The groups `r` extend `out` by groups gathered from `i` on.
spec fn extends_from(r: Seq<Seq<usize>>, out: Seq<Seq<usize>>, i: int) -> bool {
    &&& r.len() >= out.len()
    &&& forall|p: int| 0 <= p < out.len() ==> #[trigger] r[p] == out[p]
    &&& forall|p: int| out.len() <= p < r.len() ==> #[trigger] r[p].len() > 0 && r[p][0] >= i
}

proof fn lemma_used_by_ext(r: Seq<Seq<usize>>, out: Seq<Seq<usize>>, n: nat, i: int, x: int)
    requires
        extends_from(r, out, i),
        x <= i,
    ensures
        used_by(r, n, x) == used_by(out, n, x),
{
    assert forall|k: int| 0 <= k < n implies used_by(r, n, x)[k] == used_by(out, n, x)[k] by {
        if used_by(r, n, x)[k] {
            let p = choose|p: int| 0 <= p < r.len() && r[p].len() > 0 && r[p][0] < x && #[trigger] r[p].contains(k as usize);
            assert(p < out.len());
            assert(r[p] == out[p]);
        }
        if used_by(out, n, x)[k] {
            let p = choose|p: int| 0 <= p < out.len() && out[p].len() > 0 && out[p][0] < x && #[trigger] out[p].contains(k as usize);
            assert(r[p] == out[p]);
        }
    }
    assert(used_by(r, n, x) =~= used_by(out, n, x));
}

/// The state of the scan at detection `i`: `used` are the members of the groups in
/// `out`, which were gathered, in order, by detections before `i`, each from the
/// detections then unused; and every detection before `i` that was unused when
/// reached and gathered enough tilts gathered a group.
spec fn scan_state(tilts: Seq<usize>, near: Seq<Seq<bool>>, i: int, used: Seq<bool>, out: Seq<Seq<usize>>) -> bool {
    let n = tilts.len();
    &&& used == used_by(out, n, i)
    &&& forall|p: int| 0 <= p < out.len() ==> #[trigger] out[p].len() > 0 && out[p][0] < i
    &&& forall|p: int, q: int| 0 <= p < q < out.len() ==> #[trigger] out[p][0] < #[trigger] out[q][0]
    &&& forall|p: int| 0 <= p < out.len() ==> #[trigger] out[p] == gathered_at(tilts, near, out, out[p][0] as int)
    &&& forall|x: int| 0 <= x < i && tilts[x] < VERTICAL_CONTINUITY_TILTS && !used_by(out, n, x)[x]
        && (#[trigger] gathered_at(tilts, near, out, x)).len() >= MIN_TILT_COUNT
        ==> exists|p: int| 0 <= p < out.len() && out[p][0] == x
}

proof fn lemma_continuity_exact(tilts: Seq<usize>, near: Seq<Seq<bool>>, i: int, used: Seq<bool>, out: Seq<Seq<usize>>)
    requires
        0 <= i <= tilts.len() <= usize::MAX,
        scan_state(tilts, near, i, used, out),
    ensures
        extends_from(continuity(tilts, near, i, used, out), out, i),
        scan_state(tilts, near, tilts.len() as int, used_by(continuity(tilts, near, i, used, out), tilts.len(), tilts.len() as int),
            continuity(tilts, near, i, used, out)),
    decreases tilts.len() - i,
{
    let n = tilts.len();
    let r = continuity(tilts, near, i, used, out);
    if i == n {
        assert(r == out);
        assert(extends_from(r, out, i));
        return;
    }
    assert(used.len() == n);
    if tilts[i] >= VERTICAL_CONTINUITY_TILTS || used[i] {
        assert(used_by(out, n, i + 1) =~= used_by(out, n, i)) by {
            assert forall|k: int| 0 <= k < n implies used_by(out, n, i + 1)[k] == used_by(out, n, i)[k] by {
                if used_by(out, n, i + 1)[k] {
                    let p = choose|p: int| 0 <= p < out.len() && out[p].len() > 0 && out[p][0] < i + 1 && #[trigger] out[p].contains(k as usize);
                    assert(out[p][0] < i);
                }
            }
        }
        lemma_continuity_exact(tilts, near, i + 1, used, out);
    } else {
        let g0 = seq![i as usize];
        assert(partial_group(tilts, near, used, i, g0));
        let g = gather(tilts, near, used, i, 0, g0);
        lemma_gather(tilts, near, used, i, 0, g0);
        assert(g == gathered_at(tilts, near, out, i));
        if g.len() < MIN_TILT_COUNT {
            assert(used_by(out, n, i + 1) =~= used_by(out, n, i)) by {
                assert forall|k: int| 0 <= k < n implies used_by(out, n, i + 1)[k] == used_by(out, n, i)[k] by {
                    if used_by(out, n, i + 1)[k] {
                        let p = choose|p: int| 0 <= p < out.len() && out[p].len() > 0 && out[p][0] < i + 1 && #[trigger] out[p].contains(k as usize);
                        assert(out[p][0] < i);
                    }
                }
            }
            lemma_continuity_exact(tilts, near, i + 1, used, out);
        } else {
            let out2 = out.push(g);
            let used2 = mark_used(used, g);
            assert(g[0] == i);
            assert(extends_from(out2, out, i));
            assert(used2 =~= used_by(out2, n, i + 1)) by {
                assert forall|k: int| 0 <= k < n implies used2[k] == used_by(out2, n, i + 1)[k] by {
                    if used_by(out2, n, i + 1)[k] {
                        let p = choose|p: int| 0 <= p < out2.len() && out2[p].len() > 0 && out2[p][0] < i + 1 && #[trigger] out2[p].contains(k as usize);
                        if p < out.len() {
                            assert(out2[p] == out[p]);
                            assert(used_by(out, n, i)[k]);
                        }
                    }
                    if used[k] {
                        let p = choose|p: int| 0 <= p < out.len() && out[p].len() > 0 && out[p][0] < i && #[trigger] out[p].contains(k as usize);
                        assert(out2[p] == out[p]);
                    }
                    if g.contains(k as usize) {
                        assert(out2[out.len() as int] == g);
                    }
                }
            }
            assert forall|x: int| x <= i implies used_by(out2, n, x) == used_by(out, n, x) by {
                lemma_used_by_ext(out2, out, n, i, x);
            }
            assert forall|p: int| 0 <= p < out2.len() implies #[trigger] out2[p] == gathered_at(tilts, near, out2, out2[p][0] as int) by {
                if p < out.len() {
                    assert(out2[p] == out[p]);
                } else {
                    assert(out2[p] == g);
                }
            }
            assert forall|p: int, q: int| 0 <= p < q < out2.len() implies #[trigger] out2[p][0] < #[trigger] out2[q][0] by {
                assert(out2[p] == out[p]);
                if q < out.len() {
                    assert(out2[q] == out[q]);
                }
            }
            assert forall|x: int| 0 <= x < i + 1 && tilts[x] < VERTICAL_CONTINUITY_TILTS && !used_by(out2, n, x)[x]
                && (#[trigger] gathered_at(tilts, near, out2, x)).len() >= MIN_TILT_COUNT
                implies exists|p: int| 0 <= p < out2.len() && out2[p][0] == x by {
                if x < i {
                    assert(gathered_at(tilts, near, out2, x) == gathered_at(tilts, near, out, x));
                    let p = choose|p: int| 0 <= p < out.len() && out[p][0] == x;
                    assert(out2[p] == out[p]);
                } else {
                    assert(out2[out.len() as int][0] == x);
                }
            }
            lemma_continuity_exact(tilts, near, i + 1, used2, out2);
            let r2 = continuity(tilts, near, i + 1, used2, out2);
            assert(r == r2);
            assert forall|p: int| 0 <= p < out.len() implies #[trigger] r[p] == out[p] by {
                assert(r2[p] == out2[p]);
                assert(out2[p] == out[p]);
            }
            assert forall|p: int| out.len() <= p < r.len() implies #[trigger] r[p].len() > 0 && r[p][0] >= i by {
                if p == out.len() {
                    assert(r2[p] == out2[p]);
                }
            }
        }
    }
}

/// What the vertical continuity check reports, in terms of `gather`: the groups come
/// in the order of their gathering detections; each is exactly the group its first
/// detection gathers from the detections not used up by earlier groups; and no
/// detection on the lowest tilts that is still unused when reached and gathers at
/// least `MIN_TILT_COUNT` tilts is left without its group.
pub proof fn law_vertical_groups_exact(tilts: Seq<usize>, near: Seq<Seq<bool>>)
    requires
        tilts.len() <= usize::MAX,
    ensures
        ({
            let r = vertical_groups(tilts, near);
            let n = tilts.len();
            &&& forall|p: int| 0 <= p < r.len() ==> #[trigger] r[p].len() > 0
                && r[p] == gathered_at(tilts, near, r, r[p][0] as int)
            &&& forall|p: int, q: int| 0 <= p < q < r.len() ==> #[trigger] r[p][0] < #[trigger] r[q][0]
            &&& forall|x: int| 0 <= x < n && tilts[x] < VERTICAL_CONTINUITY_TILTS && !used_by(r, n, x)[x]
                && (#[trigger] gathered_at(tilts, near, r, x)).len() >= MIN_TILT_COUNT
                ==> exists|p: int| 0 <= p < r.len() && r[p][0] == x
        }),
{
    let n = tilts.len();
    let e = Seq::<Seq<usize>>::empty();
    assert(none_used(n) =~= used_by(e, n, 0));
    lemma_continuity_exact(tilts, near, 0, none_used(n), e);
    assert(vertical_groups(tilts, near) =~= continuity(tilts, near, 0, none_used(n), e));
}

/// The member of `g` on the lowest tilt (the first such member).
pub fn lowest_member(tilts: &Vec<usize>, g: &Vec<usize>) -> (m: usize)
    requires
        g.len() > 0,
        forall|a: int| 0 <= a < g.len() ==> #[trigger] g[a] < tilts.len(),
    ensures
        exists|a: int|
            0 <= a < g.len() && #[trigger] g[a] == m && (forall|b: int|
                0 <= b < g.len() ==> tilts[g[b] as int] >= tilts[m as int]) && (forall|b: int|
                0 <= b < a ==> tilts[g[b] as int] > tilts[m as int]),
{
    let mut best: usize = 0;
    let mut a: usize = 1;
    while a < g.len()
        invariant
            1 <= a <= g.len(),
            best < a,
            forall|x: int| 0 <= x < g.len() ==> #[trigger] g[x] < tilts.len(),
            forall|b: int| 0 <= b < a ==> tilts[g[b] as int] >= tilts[g[best as int] as int],
            forall|b: int| 0 <= b < best ==> tilts[g[b] as int] > tilts[g[best as int] as int],
        decreases g.len() - a,
    {
        if tilts[g[a]] < tilts[g[best]] {
            best = a;
        }
        a = a + 1;
    }
    g[best]
}

/// Whether every grid key leaves room for the neighbour search (`cells_in_range`).
pub fn cells_fit(cells: &Vec<(usize, usize)>) -> (b: bool)
    ensures
        b == cells_in_range(cells@),
{
    let mut k: usize = 0;
    while k < cells.len()
        invariant
            k <= cells.len(),
            forall|x: int| 0 <= x < k ==> key_fits((#[trigger] cells@[x]).0) && key_fits(cells@[x].1),
        decreases cells.len() - k,
    {
        let k0 = key_of(cells[k].0);
        let k1 = key_of(cells[k].1);
        if k0 < -0x7fff_fffe || k0 > 0x7fff_fffd || k1 < -0x7fff_fffe || k1 > 0x7fff_fffd {
            assert(!(key_fits((cells@[k as int]).0) && key_fits(cells@[k as int].1)));
            return false;
        }
        k = k + 1;
    }
    true
}

// ── Strength ─────────────────────────────────────────────────────────

/// Strength category of a mesocyclone.
#[derive(Debug, Clone, Copy, PartialEq, Eq, Structural)]
pub enum RotationStrength {
    Weak,
    Moderate,
    Strong,
}

/// The display text of a strength.
pub open spec fn strength_text(s: RotationStrength) -> Seq<char> {
    match s {
        RotationStrength::Weak => "Weak"@,
        RotationStrength::Moderate => "Moderate"@,
        RotationStrength::Strong => "Strong"@,
    }
}

impl RotationStrength {
    /// The display text: "Weak", "Moderate" or "Strong".
    pub fn name(&self) -> (s: &'static str)
        ensures
            s@ == strength_text(*self),
    {
        match self {
            RotationStrength::Weak => "Weak",
            RotationStrength::Moderate => "Moderate",
            RotationStrength::Strong => "Strong",
        }
    }
}

} // verus!
