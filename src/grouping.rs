use vstd::prelude::*;
use vstd::set_lib::{lemma_int_range, lemma_len_subset, set_int_range};

use crate::distance::{hamming, lemma_hamming_symmetric, within_distance};

verus! {

/// One scanned image with its hash variants.
#[derive(Clone, Debug)]
pub struct ImageRecord {
    pub path: String,
    pub size: u64,
    pub modified_date: u64,
    pub width: u32,
    pub height: u32,
    pub hashes: Vec<Vec<u8>>,
}

impl ImageRecord {
    /// Number of pixels of the image.
    pub fn pixel_count(&self) -> (r: u64)
        ensures
            r == self.width as int * self.height as int,
    {
        assert((self.width as int) * (self.height as int) <= 4294967295 * 4294967295) by (nonlinear_arith)
            requires
                0 <= self.width as int <= 4294967295,
                0 <= self.height as int <= 4294967295,
        ;
        (self.width as u64) * (self.height as u64)
    }
}

/// Some variant of `x` and some variant of `y` are within `threshold` bits.
pub open spec fn hashes_close(x: ImageRecord, y: ImageRecord, threshold: u32) -> bool {
    exists|i: int, j: int|
        0 <= i < x.hashes@.len() && 0 <= j < y.hashes@.len() && #[trigger] hamming(
            x.hashes@[i]@,
            y.hashes@[j]@,
        ) <= threshold
}

/// The edge rule of the similarity graph.
pub open spec fn linked(x: ImageRecord, y: ImageRecord, threshold: u32, exclude_same_size: bool) -> bool {
    (!exclude_same_size || x.size != y.size) && hashes_close(x, y, threshold)
}

pub open spec fn edge(recs: Seq<ImageRecord>, threshold: u32, exclude_same_size: bool, i: int, j: int) -> bool {
    0 <= i < recs.len() && 0 <= j < recs.len() && linked(recs[i], recs[j], threshold, exclude_same_size)
}

/// `w` is a walk in the similarity graph of `recs`.
pub open spec fn is_walk(recs: Seq<ImageRecord>, threshold: u32, exclude_same_size: bool, w: Seq<int>) -> bool {
    &&& w.len() >= 1
    &&& forall|k: int| 0 <= k < w.len() ==> 0 <= #[trigger] w[k] < recs.len()
    &&& forall|k: int|
        0 <= k < w.len() - 1 ==> #[trigger] edge(recs, threshold, exclude_same_size, w[k], w[k + 1])
}

/// `a` and `b` lie in one connected component of the similarity graph.
pub open spec fn connected(recs: Seq<ImageRecord>, threshold: u32, exclude_same_size: bool, a: int, b: int) -> bool {
    exists|w: Seq<int>|
        #[trigger] is_walk(recs, threshold, exclude_same_size, w) && w[0] == a && w.last() == b
}

pub proof fn lemma_linked_symmetric(x: ImageRecord, y: ImageRecord, threshold: u32, exclude_same_size: bool)
    ensures
        linked(x, y, threshold, exclude_same_size) == linked(y, x, threshold, exclude_same_size),
{
    if hashes_close(x, y, threshold) {
        let (i, j) = choose|i: int, j: int|
            0 <= i < x.hashes@.len() && 0 <= j < y.hashes@.len() && #[trigger] hamming(
                x.hashes@[i]@,
                y.hashes@[j]@,
            ) <= threshold;
        lemma_hamming_symmetric(x.hashes@[i]@, y.hashes@[j]@);
        assert(hamming(y.hashes@[j]@, x.hashes@[i]@) <= threshold);
    }
    if hashes_close(y, x, threshold) {
        let (j, i) = choose|j: int, i: int|
            0 <= j < y.hashes@.len() && 0 <= i < x.hashes@.len() && #[trigger] hamming(
                y.hashes@[j]@,
                x.hashes@[i]@,
            ) <= threshold;
        lemma_hamming_symmetric(y.hashes@[j]@, x.hashes@[i]@);
        assert(hamming(x.hashes@[i]@, y.hashes@[j]@) <= threshold);
    }
}

proof fn lemma_connected_refl(recs: Seq<ImageRecord>, t: u32, ex: bool, a: int)
    requires
        0 <= a < recs.len(),
    ensures
        connected(recs, t, ex, a, a),
{
    let w = seq![a];
    assert(is_walk(recs, t, ex, w));
}

pub proof fn lemma_connected_edge(recs: Seq<ImageRecord>, t: u32, ex: bool, a: int, b: int)
    requires
        edge(recs, t, ex, a, b),
    ensures
        connected(recs, t, ex, a, b),
{
    let w = seq![a, b];
    assert(w[0] == a && w[1] == b);
    assert(is_walk(recs, t, ex, w));
}

/// Walks can be taken backwards.
pub proof fn lemma_connected_symmetric(recs: Seq<ImageRecord>, t: u32, ex: bool, a: int, b: int)
    requires
        connected(recs, t, ex, a, b),
    ensures
        connected(recs, t, ex, b, a),
{
    let w = choose|w: Seq<int>| #[trigger] is_walk(recs, t, ex, w) && w[0] == a && w.last() == b;
    let r = w.reverse();
    assert forall|k: int| 0 <= k < r.len() - 1 implies #[trigger] edge(recs, t, ex, r[k], r[k + 1]) by {
        let m = w.len() - 2 - k;
        assert(edge(recs, t, ex, w[m], w[m + 1]));
        assert(r[k] == w[m + 1] && r[k + 1] == w[m]);
        lemma_linked_symmetric(recs[w[m]], recs[w[m + 1]], t, ex);
    }
    assert forall|k: int| 0 <= k < r.len() implies 0 <= #[trigger] r[k] < recs.len() by {
        assert(r[k] == w[w.len() - 1 - k]);
    }
    assert(is_walk(recs, t, ex, r));
}

/// Walks can be chained.
pub proof fn lemma_connected_trans(recs: Seq<ImageRecord>, t: u32, ex: bool, a: int, b: int, c: int)
    requires
        connected(recs, t, ex, a, b),
        connected(recs, t, ex, b, c),
    ensures
        connected(recs, t, ex, a, c),
{
    let w1 = choose|w: Seq<int>| #[trigger] is_walk(recs, t, ex, w) && w[0] == a && w.last() == b;
    let w2 = choose|w: Seq<int>| #[trigger] is_walk(recs, t, ex, w) && w[0] == b && w.last() == c;
    let w = w1 + w2.drop_first();
    assert forall|k: int| 0 <= k < w.len() implies 0 <= #[trigger] w[k] < recs.len() by {
        if k < w1.len() {
            assert(w[k] == w1[k]);
        } else {
            assert(w[k] == w2[k - w1.len() + 1]);
        }
    }
    assert forall|k: int| 0 <= k < w.len() - 1 implies #[trigger] edge(recs, t, ex, w[k], w[k + 1]) by {
        if k < w1.len() - 1 {
            assert(edge(recs, t, ex, w1[k], w1[k + 1]));
        } else {
            let m = k - w1.len() + 1;
            assert(edge(recs, t, ex, w2[m], w2[m + 1]));
            if k == w1.len() - 1 {
                assert(w[k] == w1.last());
            } else {
                assert(w[k] == w2[m]);
            }
            assert(w[k + 1] == w2[m + 1]);
        }
    }
    if w2.len() == 1 {
        assert(w.last() == w1.last());
    } else {
        assert(w.last() == w2.last());
    }
    assert(is_walk(recs, t, ex, w));
}

/// Labels that agree across every edge agree along every walk.
proof fn lemma_walk_keeps_label(recs: Seq<ImageRecord>, t: u32, ex: bool, label: Seq<usize>, w: Seq<int>)
    requires
        is_walk(recs, t, ex, w),
        label.len() == recs.len(),
        forall|p: int, q: int| #[trigger] edge(recs, t, ex, p, q) ==> label[p] == label[q],
    ensures
        label[w.last()] == label[w[0]],
    decreases w.len(),
{
    if w.len() > 1 {
        let v = w.drop_last();
        assert(is_walk(recs, t, ex, v)) by {
            assert forall|k: int| 0 <= k < v.len() - 1 implies #[trigger] edge(recs, t, ex, v[k], v[k + 1]) by {
                assert(edge(recs, t, ex, w[k], w[k + 1]));
            }
            assert forall|k: int| 0 <= k < v.len() implies 0 <= #[trigger] v[k] < recs.len() by {
                assert(v[k] == w[k]);
            }
        }
        lemma_walk_keeps_label(recs, t, ex, label, v);
        let k = w.len() - 2;
        assert(edge(recs, t, ex, w[k], w[k + 1]));
        assert(v.last() == w[k]);
    }
}

/// Whether the similarity graph has an edge between `x` and `y`.
pub fn records_linked(x: &ImageRecord, y: &ImageRecord, threshold: u32, exclude_same_size: bool) -> (r: bool)
    ensures
        r == linked(*x, *y, threshold, exclude_same_size),
{
    if exclude_same_size && x.size == y.size {
        return false;
    }
    let mut i: usize = 0;
    while i < x.hashes.len()
        invariant
            !exclude_same_size || x.size != y.size,
            forall|a: int, b: int|
                0 <= a < i && 0 <= b < y.hashes@.len() ==> !(#[trigger] hamming(
                    x.hashes@[a]@,
                    y.hashes@[b]@,
                ) <= threshold),
        decreases x.hashes.len() - i,
    {
        let mut j: usize = 0;
        while j < y.hashes.len()
            invariant
                !exclude_same_size || x.size != y.size,
                i < x.hashes@.len(),
                forall|a: int, b: int|
                    0 <= a < i && 0 <= b < y.hashes@.len() ==> !(#[trigger] hamming(
                        x.hashes@[a]@,
                        y.hashes@[b]@,
                    ) <= threshold),
                forall|b: int|
                    0 <= b < j ==> !(#[trigger] hamming(x.hashes@[i as int]@, y.hashes@[b]@)
                        <= threshold),
            decreases y.hashes.len() - j,
        {
            if within_distance(&x.hashes[i], &y.hashes[j], threshold) {
                assert(hamming(x.hashes@[i as int]@, y.hashes@[j as int]@) <= threshold);
                assert(hashes_close(*x, *y, threshold));
                return true;
            }
            j = j + 1;
        }
        i = i + 1;
    }
    false
}


/// Every node carries the least node of its class as label, and is reachable
/// from it.
pub open spec fn labels_ok(recs: Seq<ImageRecord>, t: u32, ex: bool, label: Seq<usize>) -> bool {
    &&& label.len() == recs.len()
    &&& forall|i: int|
        0 <= i < label.len() ==> #[trigger] label[i] <= i && label[label[i] as int] == label[i]
            && connected(recs, t, ex, label[i] as int, i)
}

/// Labels agree across every edge.
pub open spec fn labels_closed(recs: Seq<ImageRecord>, t: u32, ex: bool, label: Seq<usize>) -> bool {
    forall|p: int, q: int| #[trigger] edge(recs, t, ex, p, q) ==> label[p] == label[q]
}

pub open spec fn relabeled(l: usize, from: usize, to: usize) -> usize {
    if l == from {
        to
    } else {
        l
    }
}

fn relabel(label: &mut Vec<usize>, from: usize, to: usize)
    ensures
        final(label)@.len() == old(label)@.len(),
        forall|z: int|
            0 <= z < old(label)@.len() ==> #[trigger] final(label)@[z] == relabeled(
                old(label)@[z],
                from,
                to,
            ),
{
    let mut z: usize = 0;
    while z < label.len()
        invariant
            label@.len() == old(label)@.len(),
            forall|k: int| 0 <= k < z ==> #[trigger] label@[k] == relabeled(old(label)@[k], from, to),
            forall|k: int| z <= k < label@.len() ==> #[trigger] label@[k] == old(label)@[k],
        decreases label.len() - z,
    {
        if label[z] == from {
            label.set(z, to);
        }
        z = z + 1;
    }
}

proof fn lemma_merge_keeps_labels_ok(
    recs: Seq<ImageRecord>,
    t: u32,
    ex: bool,
    before: Seq<usize>,
    after: Seq<usize>,
    x: int,
    y: int,
)
    requires
        labels_ok(recs, t, ex, before),
        edge(recs, t, ex, x, y),
        before[x] < before[y],
        after.len() == before.len(),
        forall|z: int|
            0 <= z < before.len() ==> #[trigger] after[z] == relabeled(before[z], before[y], before[x]),
    ensures
        labels_ok(recs, t, ex, after),
{
    let lo = before[x];
    let hi = before[y];
    assert(0 <= x < before.len() && 0 <= y < before.len());
    assert(before[x] <= x && before[y] <= y);
    assert(connected(recs, t, ex, lo as int, x));
    assert(connected(recs, t, ex, hi as int, y));
    lemma_connected_edge(recs, t, ex, x, y);
    lemma_connected_symmetric(recs, t, ex, hi as int, y);
    lemma_connected_trans(recs, t, ex, lo as int, x, y);
    lemma_connected_trans(recs, t, ex, lo as int, y, hi as int);
    assert forall|z: int| 0 <= z < after.len() implies #[trigger] after[z] <= z && after[after[z] as int]
        == after[z] && connected(recs, t, ex, after[z] as int, z) by {
        assert(before[z] <= z);
        assert(connected(recs, t, ex, before[z] as int, z));
        let l = before[z] as int;
        assert(before[l] == before[z]);
        if before[z] == hi {
            assert(before[lo as int] == lo);
            assert(after[lo as int] == lo);
            lemma_connected_trans(recs, t, ex, lo as int, hi as int, z);
        } else {
            assert(after[l] == relabeled(before[l], hi, lo));
        }
    }
}

/// The label of each image: the least index of its connected component.
pub fn component_labels(recs: &Vec<ImageRecord>, threshold: u32, exclude_same_size: bool) -> (label: Vec<usize>)
    ensures
        labels_ok(recs@, threshold, exclude_same_size, label@),
        labels_closed(recs@, threshold, exclude_same_size, label@),
{
    let n = recs.len();
    let ghost t = threshold;
    let ghost ex = exclude_same_size;
    let mut label: Vec<usize> = Vec::new();
    let mut k: usize = 0;
    while k < n
        invariant
            n == recs@.len(),
            k <= n,
            label@.len() == k,
            forall|m: int| 0 <= m < k ==> #[trigger] label@[m] == m,
        decreases n - k,
    {
        label.push(k);
        k = k + 1;
    }
    assert forall|m: int| 0 <= m < label@.len() implies #[trigger] label@[m] <= m && label@[label@[m] as int]
        == label@[m] && connected(recs@, t, ex, label@[m] as int, m) by {
        lemma_connected_refl(recs@, t, ex, m);
    }
    let mut i: usize = 0;
    while i < n
        invariant
            n == recs@.len(),
            t == threshold,
            ex == exclude_same_size,
            i <= n,
            labels_ok(recs@, t, ex, label@),
            forall|p: int, q: int|
                0 <= p < i && p < q && #[trigger] edge(recs@, t, ex, p, q) ==> label@[p] == label@[q],
        decreases n - i,
    {
        let mut j: usize = i + 1;
        while j < n
            invariant
                n == recs@.len(),
                t == threshold,
                ex == exclude_same_size,
                i < n,
                i < j <= n,
                labels_ok(recs@, t, ex, label@),
                forall|p: int, q: int|
                    0 <= p < i && p < q && #[trigger] edge(recs@, t, ex, p, q) ==> label@[p] == label@[q],
                forall|q: int| i < q < j && #[trigger] edge(recs@, t, ex, i as int, q) ==> label@[i as int] == label@[q],
            decreases n - j,
        {
            let a = label[i];
            let b = label[j];
            let close = records_linked(&recs[i], &recs[j], threshold, exclude_same_size);
            assert(close == edge(recs@, t, ex, i as int, j as int));
            if a != b && close {
                let ghost before = label@;
                assert(edge(recs@, t, ex, i as int, j as int));
                if a < b {
                    relabel(&mut label, b, a);
                    proof {
                        lemma_merge_keeps_labels_ok(recs@, t, ex, before, label@, i as int, j as int);
                    }
                } else {
                    relabel(&mut label, a, b);
                    proof {
                        lemma_linked_symmetric(recs@[i as int], recs@[j as int], t, ex);
                        lemma_merge_keeps_labels_ok(recs@, t, ex, before, label@, j as int, i as int);
                    }
                }
                proof {
                    let hi = if a < b { b } else { a };
                    let lo = if a < b { a } else { b };
                    assert forall|p: int, q: int|
                        0 <= p < i && p < q && #[trigger] edge(recs@, t, ex, p, q) implies label@[p] == label@[q] by {
                        assert(label@[p] == relabeled(before[p], hi, lo));
                        assert(label@[q] == relabeled(before[q], hi, lo));
                    }
                    assert forall|q: int| i < q <= j && #[trigger] edge(recs@, t, ex, i as int, q) implies label@[i as int]
                        == label@[q] by {
                        assert(label@[i as int] == relabeled(before[i as int], hi, lo));
                        assert(label@[q] == relabeled(before[q], hi, lo));
                    }
                }
            }
            j = j + 1;
        }
        i = i + 1;
    }
    proof {
        assert forall|p: int, q: int| #[trigger] edge(recs@, t, ex, p, q) implies label@[p] == label@[q] by {
            if q < p {
                lemma_linked_symmetric(recs@[p], recs@[q], t, ex);
                assert(edge(recs@, t, ex, q, p));
            }
        }
    }
    label
}


pub open spec fn strictly_increasing(g: Seq<usize>) -> bool {
    forall|a: int, b: int| 0 <= a < b < g.len() ==> g[a] < g[b]
}

/// `gs` lists each connected component of two or more images exactly once,
/// as its members in increasing order, the components ordered by their least
/// member.
pub open spec fn groups_exact(recs: Seq<ImageRecord>, t: u32, ex: bool, gs: Seq<Seq<usize>>) -> bool {
    &&& forall|g: int| 0 <= g < gs.len() ==> (#[trigger] gs[g]).len() >= 2
    &&& forall|g: int| 0 <= g < gs.len() ==> strictly_increasing(#[trigger] gs[g])
    &&& forall|g: int, k: int| 0 <= g < gs.len() && 0 <= k < gs[g].len() ==> #[trigger] gs[g][k] < recs.len()
    &&& forall|g: int, m: int|
        0 <= g < gs.len() && 0 <= m < recs.len() ==> (#[trigger] gs[g].contains(m as usize) <==> connected(
            recs,
            t,
            ex,
            gs[g][0] as int,
            m,
        ))
    &&& forall|a: int, b: int| 0 <= a < b < gs.len() ==> gs[a][0] < gs[b][0]
    &&& forall|p: int, q: int|
        p != q && #[trigger] edge(recs, t, ex, p, q) ==> exists|g: int|
            0 <= g < gs.len() && #[trigger] gs[g].contains(p as usize)
}

pub open spec fn index_groups(groups: Seq<Vec<usize>>) -> Seq<Seq<usize>> {
    groups.map_values(|g: Vec<usize>| g@)
}

proof fn lemma_two_members(g: Seq<usize>, p: usize, q: usize)
    requires
        g.contains(p),
        g.contains(q),
        p != q,
    ensures
        g.len() >= 2,
{
    let kp = choose|k: int| 0 <= k < g.len() && g[k] == p;
    let kq = choose|k: int| 0 <= k < g.len() && g[k] == q;
    assert(kp != kq);
}

/// The members of class `r`: the images labelled `r`, in increasing order.
fn class_members(label: &Vec<usize>, r: usize) -> (members: Vec<usize>)
    requires
        forall|m: int| 0 <= m < label@.len() ==> #[trigger] label@[m] <= m,
        r < label@.len(),
        label@[r as int] == r,
    ensures
        strictly_increasing(members@),
        members@.len() >= 1,
        members@[0] == r,
        forall|k: int| 0 <= k < members@.len() ==> #[trigger] members@[k] < label@.len(),
        forall|m: int| 0 <= m < label@.len() ==> (#[trigger] members@.contains(m as usize) <==> label@[m] == r),
{
    let mut members: Vec<usize> = Vec::new();
    let mut j: usize = r;
    while j < label.len()
        invariant
            r <= j <= label@.len(),
            forall|m: int| 0 <= m < label@.len() ==> #[trigger] label@[m] <= m,
            label@[r as int] == r,
            strictly_increasing(members@),
            j > r ==> members@.len() >= 1 && members@[0] == r,
            j == r ==> members@.len() == 0,
            forall|k: int| 0 <= k < members@.len() ==> #[trigger] members@[k] < j,
            forall|m: int|
                0 <= m < label@.len() ==> (#[trigger] members@.contains(m as usize) <==> (m < j
                    && label@[m] == r)),
        decreases label.len() - j,
    {
        let ghost prev = members@;
        if label[j] == r {
            members.push(j);
            proof {
                assert forall|m: int| 0 <= m < label@.len() implies (#[trigger] members@.contains(m as usize)
                    <==> (m < j + 1 && label@[m] == r)) by {
                    if m == j {
                        assert(members@[members@.len() - 1] == j);
                    }
                    if members@.contains(m as usize) && m != j {
                        let k = choose|k: int| 0 <= k < members@.len() && members@[k] == m as usize;
                        assert(k < prev.len());
                        assert(prev.contains(m as usize));
                    }
                    if prev.contains(m as usize) {
                        let k = choose|k: int| 0 <= k < prev.len() && prev[k] == m as usize;
                        assert(members@[k] == m as usize);
                    }
                }
            }
        } else {
            proof {
                assert forall|m: int| 0 <= m < label@.len() implies (#[trigger] members@.contains(m as usize)
                    <==> (m < j + 1 && label@[m] == r)) by {
                    if m == j as int {
                        if members@.contains(m as usize) {
                            let k = choose|k: int| 0 <= k < members@.len() && members@[k] == m as usize;
                        }
                    }
                }
            }
        }
        j = j + 1;
    }
    assert(members@.contains(r));
    members
}

/// The similarity groups as index lists: each connected component of two or
/// more images, members in increasing order, components by least member.
pub fn similarity_groups(recs: &Vec<ImageRecord>, threshold: u32, exclude_same_size: bool) -> (groups: Vec<Vec<usize>>)
    ensures
        groups_exact(recs@, threshold, exclude_same_size, index_groups(groups@)),
{
    let ghost t = threshold;
    let ghost ex = exclude_same_size;
    let label = component_labels(recs, threshold, exclude_same_size);
    let n = recs.len();
    let mut groups: Vec<Vec<usize>> = Vec::new();
    let mut r: usize = 0;
    while r < n
        invariant
            n == recs@.len(),
            t == threshold,
            ex == exclude_same_size,
            r <= n,
            labels_ok(recs@, t, ex, label@),
            labels_closed(recs@, t, ex, label@),
            forall|g: int| 0 <= g < groups@.len() ==> (#[trigger] groups@[g])@.len() >= 2,
            forall|g: int| 0 <= g < groups@.len() ==> strictly_increasing(#[trigger] groups@[g]@),
            forall|g: int, k: int|
                0 <= g < groups@.len() && 0 <= k < groups@[g]@.len() ==> #[trigger] groups@[g]@[k] < n,
            forall|g: int| 0 <= g < groups@.len() ==> #[trigger] groups@[g]@[0] < r,
            forall|g: int| 0 <= g < groups@.len() ==> label@[#[trigger] groups@[g]@[0] as int] == groups@[g]@[0],
            forall|g: int, m: int|
                0 <= g < groups@.len() && 0 <= m < n ==> (#[trigger] groups@[g]@.contains(m as usize)
                    <==> label@[m] == groups@[g]@[0]),
            forall|a: int, b: int| 0 <= a < b < groups@.len() ==> groups@[a]@[0] < groups@[b]@[0],
            forall|p: int, q: int|
                p != q && #[trigger] edge(recs@, t, ex, p, q) && label@[p] < r ==> exists|g: int|
                    0 <= g < groups@.len() && groups@[g]@[0] == label@[p],
        decreases n - r,
    {
        if label[r] == r {
            let members = class_members(&label, r);
            if members.len() >= 2 {
                let ghost prev = groups@;
                groups.push(members);
                proof {
                    assert(groups@[groups@.len() - 1]@ == members@);
                    assert forall|g: int| 0 <= g < prev.len() implies #[trigger] groups@[g] == prev[g] by {}
                    assert forall|p: int, q: int|
                        p != q && #[trigger] edge(recs@, t, ex, p, q) && label@[p] < r + 1 implies exists|g: int|
                            0 <= g < groups@.len() && groups@[g]@[0] == label@[p] by {
                        if label@[p] == r {
                            assert(groups@[groups@.len() - 1]@[0] == r);
                        } else {
                            let g = choose|g: int| 0 <= g < prev.len() && prev[g]@[0] == label@[p];
                            assert(groups@[g] == prev[g]);
                        }
                    }
                }
            } else {
                proof {
                    assert forall|p: int, q: int|
                        p != q && #[trigger] edge(recs@, t, ex, p, q) implies label@[p] != r by {
                        if label@[p] == r {
                            assert(label@[q] == label@[p]);
                            assert(0 <= p < n && 0 <= q < n);
                            assert(members@.contains(p as usize));
                            assert(members@.contains(q as usize));
                            lemma_two_members(members@, p as usize, q as usize);
                        }
                    }
                }
            }
        } else {
            proof {
                assert forall|p: int, q: int|
                    p != q && #[trigger] edge(recs@, t, ex, p, q) implies label@[p] != r by {
                    if label@[p] == r {
                        assert(label@[label@[p] as int] == label@[p]);
                    }
                }
            }
        }
        r = r + 1;
    }
    proof {
        let gs = index_groups(groups@);
        assert forall|g: int, m: int| 0 <= g < gs.len() && 0 <= m < recs@.len() implies (
        #[trigger] gs[g].contains(m as usize) <==> connected(recs@, t, ex, gs[g][0] as int, m)) by {
            let r0 = gs[g][0] as int;
            assert(groups@[g]@ == gs[g]);
            assert(label@[r0] == r0);
            if gs[g].contains(m as usize) {
                assert(label@[m] == r0);
                assert(connected(recs@, t, ex, label@[m] as int, m));
            }
            if connected(recs@, t, ex, r0, m) {
                let w = choose|w: Seq<int>| #[trigger] is_walk(recs@, t, ex, w) && w[0] == r0 && w.last() == m;
                lemma_walk_keeps_label(recs@, t, ex, label@, w);
            }
        }
        assert forall|p: int, q: int| p != q && #[trigger] edge(recs@, t, ex, p, q) implies exists|g: int|
            0 <= g < gs.len() && #[trigger] gs[g].contains(p as usize) by {
            let g = choose|g: int| 0 <= g < groups@.len() && groups@[g]@[0] == label@[p];
            assert(groups@[g]@ == gs[g]);
            assert(gs[g].contains(p as usize));
        }
        assert forall|g: int| 0 <= g < gs.len() implies strictly_increasing(#[trigger] gs[g]) by {
            assert(groups@[g]@ == gs[g]);
        }
        assert forall|g: int, k: int| 0 <= g < gs.len() && 0 <= k < gs[g].len() implies #[trigger] gs[g][k] < recs@.len() by {
            assert(groups@[g]@ == gs[g]);
        }
    }
    groups
}


/// Number of members over all groups.
pub open spec fn total_len(gs: Seq<Seq<usize>>) -> nat
    decreases gs.len(),
{
    if gs.len() == 0 {
        0
    } else {
        total_len(gs.drop_last()) + gs.last().len()
    }
}

pub open spec fn member_set(g: Seq<usize>) -> Set<int> {
    g.map_values(|m: usize| m as int).to_set()
}

pub open spec fn union_upto(gs: Seq<Seq<usize>>, k: int) -> Set<int>
    decreases k,
{
    if k <= 0 {
        Set::empty()
    } else {
        union_upto(gs, k - 1) + member_set(gs[k - 1])
    }
}

proof fn lemma_member_set_len(g: Seq<usize>)
    requires
        strictly_increasing(g),
    ensures
        member_set(g).len() == g.len(),
        member_set(g).finite(),
        forall|x: int|
            #[trigger] member_set(g).contains(x) <==> 0 <= x <= usize::MAX && g.contains(x as usize),
{
    let s = g.map_values(|m: usize| m as int);
    assert(s.no_duplicates()) by {
        assert forall|a: int, b: int| 0 <= a < s.len() && 0 <= b < s.len() && a != b implies s[a] != s[b] by {
            if a < b {
                assert(g[a] < g[b]);
            } else {
                assert(g[b] < g[a]);
            }
        }
    }
    s.unique_seq_to_set();
    assert forall|x: int| #[trigger] member_set(g).contains(x) <==> 0 <= x <= usize::MAX && g.contains(x as usize) by {
        if member_set(g).contains(x) {
            let k = choose|k: int| 0 <= k < s.len() && s[k] == x;
            assert(g[k] == x as usize);
        }
        if 0 <= x <= usize::MAX && g.contains(x as usize) {
            let k = choose|k: int| 0 <= k < g.len() && g[k] == x as usize;
            assert(s[k] == x);
        }
    }
}

/// Distinct groups share no member.
proof fn lemma_groups_disjoint(recs: Seq<ImageRecord>, t: u32, ex: bool, gs: Seq<Seq<usize>>, a: int, b: int, m: int)
    requires
        groups_exact(recs, t, ex, gs),
        0 <= a < gs.len(),
        0 <= b < gs.len(),
        0 <= m < recs.len(),
        gs[a].contains(m as usize),
        gs[b].contains(m as usize),
    ensures
        a == b,
{
    let ra = gs[a][0] as int;
    let rb = gs[b][0] as int;
    assert(connected(recs, t, ex, ra, m));
    assert(connected(recs, t, ex, rb, m));
    lemma_connected_symmetric(recs, t, ex, rb, m);
    lemma_connected_trans(recs, t, ex, ra, m, rb);
    lemma_connected_symmetric(recs, t, ex, ra, rb);
    assert(gs[a][0] < recs.len() && gs[b][0] < recs.len());
    assert(gs[a].contains(rb as usize));
    assert(gs[b].contains(ra as usize));
    let ka = choose|k: int| 0 <= k < gs[a].len() && gs[a][k] == rb as usize;
    let kb = choose|k: int| 0 <= k < gs[b].len() && gs[b][k] == ra as usize;
    assert(strictly_increasing(gs[a]));
    assert(strictly_increasing(gs[b]));
    assert(ra <= rb);
    assert(rb <= ra);
    if a < b {
        assert(gs[a][0] < gs[b][0]);
    } else if b < a {
        assert(gs[b][0] < gs[a][0]);
    }
}

proof fn lemma_union_upto(recs: Seq<ImageRecord>, t: u32, ex: bool, gs: Seq<Seq<usize>>, k: int)
    requires
        groups_exact(recs, t, ex, gs),
        0 <= k <= gs.len(),
    ensures
        union_upto(gs, k).finite(),
        union_upto(gs, k).len() == total_len(gs.take(k)),
        union_upto(gs, k).subset_of(set_int_range(0, recs.len() as int)),
        forall|x: int| #[trigger] union_upto(gs, k).contains(x) ==> exists|g: int|
            0 <= g < k && #[trigger] gs[g].contains(x as usize) && 0 <= x < recs.len(),
    decreases k,
{
    let n = recs.len() as int;
    if k == 0 {
        assert(gs.take(0).len() == 0);
    } else {
        let j = k - 1;
        lemma_union_upto(recs, t, ex, gs, j);
        let u = union_upto(gs, j);
        let s = member_set(gs[j]);
        assert(strictly_increasing(gs[j]));
        lemma_member_set_len(gs[j]);
        assert(u.disjoint(s)) by {
            assert forall|x: int| u.contains(x) implies !s.contains(x) by {
                let g = choose|g: int| 0 <= g < j && #[trigger] gs[g].contains(x as usize) && 0 <= x < n;
                if s.contains(x) {
                    lemma_groups_disjoint(recs, t, ex, gs, g, j, x);
                }
            }
        }
        vstd::set_lib::lemma_set_disjoint_lens(u, s);
        assert(gs.take(k).drop_last() =~= gs.take(j));
        assert(union_upto(gs, k) == u + s);
        assert forall|x: int| #[trigger] union_upto(gs, k).contains(x) implies exists|g: int|
            0 <= g < k && #[trigger] gs[g].contains(x as usize) && 0 <= x < n by {
            if s.contains(x) {
                let i = choose|i: int| 0 <= i < gs[j].len() && gs[j][i] == x as usize;
                assert(gs[j][i] < recs.len());
            } else {
                let g = choose|g: int| 0 <= g < j && #[trigger] gs[g].contains(x as usize) && 0 <= x < n;
                assert(0 <= g < k);
            }
        }
        assert forall|x: int| #[trigger] union_upto(gs, k).contains(x) implies set_int_range(0, n).contains(x) by {
            if s.contains(x) {
                let i = choose|i: int| 0 <= i < gs[j].len() && gs[j][i] == x as usize;
                assert(gs[j][i] < recs.len());
            }
        }
    }
}

/// The groups are disjoint sets of images, so they hold at most as many
/// members as there are images.
pub proof fn lemma_total_len_bound(recs: Seq<ImageRecord>, t: u32, ex: bool, gs: Seq<Seq<usize>>)
    requires
        groups_exact(recs, t, ex, gs),
    ensures
        total_len(gs) <= recs.len(),
{
    let n = recs.len() as int;
    lemma_union_upto(recs, t, ex, gs, gs.len() as int);
    lemma_int_range(0, n);
    lemma_len_subset(union_upto(gs, gs.len() as int), set_int_range(0, n));
    assert(gs.take(gs.len() as int) =~= gs);
}

} // verus!
