use vstd::prelude::*;

use crate::cache::CacheEntry;
use crate::engine::{search_ok, Candidate, SearchOutcome};
use crate::grouping::{
    connected, edge, groups_exact, hashes_close, index_groups, is_walk, lemma_connected_edge, lemma_connected_symmetric,
    lemma_connected_trans,
    strictly_increasing, total_len, ImageRecord,
};
use crate::params::SimilarImagesParameters;

verus! {

proof fn lemma_total_at_least_count(gs: Seq<Seq<usize>>)
    requires
        forall|g: int| 0 <= g < gs.len() ==> (#[trigger] gs[g]).len() >= 2,
    ensures
        total_len(gs) >= 2 * gs.len(),
    decreases gs.len(),
{
    if gs.len() > 0 {
        let d = gs.drop_last();
        assert forall|g: int| 0 <= g < d.len() implies (#[trigger] d[g]).len() >= 2 by {
            assert(d[g] == gs[g]);
        }
        lemma_total_at_least_count(d);
        assert(gs[gs.len() - 1].len() >= 2);
    }
}

/// Every group contributes all its members but one to the duplicates: the
/// duplicates and the groups together make up all grouped members.
pub proof fn lemma_duplicates_count(
    params: SimilarImagesParameters,
    cands: Seq<Candidate>,
    o: SearchOutcome,
    entries: Seq<CacheEntry>,
)
    requires
        search_ok(params, cands, o, entries),
    ensures
        o.info.number_of_duplicates + o.info.number_of_groups == total_len(index_groups(o.groups@)),
{
    let gs = index_groups(o.groups@);
    assert forall|g: int| 0 <= g < gs.len() implies (#[trigger] gs[g]).len() >= 2 by {
        assert(gs[g] == o.groups@[g]@);
    }
    lemma_total_at_least_count(gs);
}

/// No reported group is a single image.
pub proof fn lemma_groups_have_two_members(
    params: SimilarImagesParameters,
    cands: Seq<Candidate>,
    o: SearchOutcome,
    entries: Seq<CacheEntry>,
)
    requires
        search_ok(params, cands, o, entries),
    ensures
        forall|g: int| 0 <= g < o.groups@.len() ==> (#[trigger] o.groups@[g])@.len() >= 2,
{
}

/// With same-size exclusion on, every reported group holds two members of
/// different byte sizes: no group is held together by equal-size links.
pub proof fn lemma_excluded_sizes_differ(
    params: SimilarImagesParameters,
    cands: Seq<Candidate>,
    o: SearchOutcome,
    entries: Seq<CacheEntry>,
    g: int,
)
    requires
        search_ok(params, cands, o, entries),
        params.exclude_images_with_same_size,
        !o.stopped,
        0 <= g < o.groups@.len(),
    ensures
        exists|i: int, j: int|
            0 <= i < o.groups@[g]@.len() && 0 <= j < o.groups@[g]@.len() && #[trigger] o.records@[o.groups@[g]@[i] as int].size
                != #[trigger] o.records@[o.groups@[g]@[j] as int].size,
{
    let recs = o.records@;
    let t = params.similarity;
    let ex = params.exclude_images_with_same_size;
    let gs = index_groups(o.groups@);
    let grp = o.groups@[g]@;
    assert(gs[g] == grp);
    assert(grp.len() >= 2);
    let a = grp[0] as int;
    let m = grp[1] as int;
    assert(a < m);
    assert(m < recs.len());
    assert(grp.contains(m as usize));
    assert(connected(recs, t, ex, a, m));
    let w = choose|w: Seq<int>| #[trigger] is_walk(recs, t, ex, w) && w[0] == a && w.last() == m;
    assert(w.len() >= 2);
    let k0 = 0int;
    assert(edge(recs, t, ex, w[k0], w[k0 + 1]));
    let b = w[1];
    lemma_connected_edge(recs, t, ex, a, b);
    assert(0 <= b < recs.len());
    assert(grp.contains(b as usize));
    let j = choose|j: int| 0 <= j < grp.len() && grp[j] == b as usize;
    assert(recs[grp[0] as int].size != recs[grp[j] as int].size);
}

/// An empty candidate list gives no images, no groups and no duplicates.
pub proof fn lemma_empty_input(
    params: SimilarImagesParameters,
    cands: Seq<Candidate>,
    o: SearchOutcome,
    entries: Seq<CacheEntry>,
)
    requires
        search_ok(params, cands, o, entries),
        cands.len() == 0,
    ensures
        o.info.initial_found_files == 0,
        o.info.number_of_groups == 0,
        o.info.number_of_duplicates == 0,
        o.groups@.len() == 0,
{
    if o.source@.len() > 0 {
        let k0 = 0int;
        assert(o.source@[k0] < cands.len());
    }
    if o.groups@.len() > 0 {
        let gs = index_groups(o.groups@);
        assert(gs[0] == o.groups@[0]@);
        assert(gs[0][0] < o.records@.len());
    }
    assert(index_groups(o.groups@).len() == 0);
}


/// Two increasing sequences with the same elements are equal.
proof fn lemma_increasing_unique(a: Seq<usize>, b: Seq<usize>)
    requires
        strictly_increasing(a),
        strictly_increasing(b),
        forall|x: usize| a.contains(x) <==> b.contains(x),
    ensures
        a == b,
    decreases a.len(),
{
    if a.len() == 0 {
        if b.len() > 0 {
            assert(b.contains(b[0]));
        }
    } else {
        assert(a.contains(a[0]));
        assert(b.len() > 0);
        assert(b.contains(b[0]));
        let i = choose|i: int| 0 <= i < a.len() && a[i] == b[0];
        let j = choose|j: int| 0 <= j < b.len() && b[j] == a[0];
        if i > 0 {
            assert(a[0] < a[i]);
            if j > 0 {
                assert(b[0] < b[j]);
            }
        }
        if j > 0 {
            assert(b[0] < b[j]);
        }
        assert(a[0] == b[0]);
        let ta = a.drop_first();
        let tb = b.drop_first();
        assert forall|x: usize| ta.contains(x) <==> tb.contains(x) by {
            if ta.contains(x) {
                let k = choose|k: int| 0 <= k < ta.len() && ta[k] == x;
                assert(a[k + 1] == x);
                assert(a[0] < a[k + 1]);
                assert(a.contains(x));
                let m = choose|m: int| 0 <= m < b.len() && b[m] == x;
                assert(m > 0);
                assert(tb[m - 1] == x);
            }
            if tb.contains(x) {
                let k = choose|k: int| 0 <= k < tb.len() && tb[k] == x;
                assert(b[k + 1] == x);
                assert(b[0] < b[k + 1]);
                assert(b.contains(x));
                let m = choose|m: int| 0 <= m < a.len() && a[m] == x;
                assert(m > 0);
                assert(ta[m - 1] == x);
            }
        }
        assert(strictly_increasing(ta));
        assert(strictly_increasing(tb));
        lemma_increasing_unique(ta, tb);
        assert(a =~= seq![a[0]] + ta);
        assert(b =~= seq![b[0]] + tb);
    }
}

/// `x` is the least image of a component with two or more images.
pub open spec fn is_root(recs: Seq<ImageRecord>, t: u32, ex: bool, x: int) -> bool {
    &&& 0 <= x < recs.len()
    &&& exists|y: int| 0 <= y < recs.len() && y != x && #[trigger] connected(recs, t, ex, x, y)
    &&& forall|m: int| 0 <= m < recs.len() && #[trigger] connected(recs, t, ex, x, m) ==> x <= m
}

/// A walk that leaves its start takes, at some point, an edge from the start
/// to another image.
proof fn lemma_walk_leaves(recs: Seq<ImageRecord>, t: u32, ex: bool, w: Seq<int>) -> (z: int)
    requires
        is_walk(recs, t, ex, w),
        w.last() != w[0],
    ensures
        z != w[0],
        edge(recs, t, ex, w[0], z),
    decreases w.len(),
{
    let k0 = 0int;
    assert(w.len() >= 2);
    assert(edge(recs, t, ex, w[k0], w[k0 + 1]));
    if w[1] != w[0] {
        w[1]
    } else {
        let v = w.drop_first();
        assert(is_walk(recs, t, ex, v)) by {
            assert forall|k: int| 0 <= k < v.len() - 1 implies #[trigger] edge(recs, t, ex, v[k], v[k + 1]) by {
                let kk = k + 1;
                assert(edge(recs, t, ex, w[kk], w[kk + 1]));
            }
            assert forall|k: int| 0 <= k < v.len() implies 0 <= #[trigger] v[k] < recs.len() by {
                assert(v[k] == w[k + 1]);
            }
        }
        lemma_walk_leaves(recs, t, ex, v)
    }
}

/// The first members of the groups are exactly the roots.
proof fn lemma_firsts_are_roots(recs: Seq<ImageRecord>, t: u32, ex: bool, gs: Seq<Seq<usize>>, x: usize)
    requires
        groups_exact(recs, t, ex, gs),
    ensures
        (exists|g: int| 0 <= g < gs.len() && #[trigger] gs[g][0] == x) <==> is_root(recs, t, ex, x as int),
{
    if exists|g: int| 0 <= g < gs.len() && #[trigger] gs[g][0] == x {
        let g = choose|g: int| 0 <= g < gs.len() && #[trigger] gs[g][0] == x;
        assert(gs[g].len() >= 2);
        assert(strictly_increasing(gs[g]));
        assert(gs[g][0] < gs[g][1]);
        assert(gs[g][1] < recs.len());
        let second = gs[g][1] as int;
        assert(gs[g].contains(second as usize));
        assert(connected(recs, t, ex, x as int, second));
        assert forall|m: int| 0 <= m < recs.len() && #[trigger] connected(recs, t, ex, x as int, m) implies x <= m by {
            assert(gs[g].contains(m as usize));
            let k = choose|k: int| 0 <= k < gs[g].len() && gs[g][k] == m as usize;
            if k > 0 {
                assert(gs[g][0] < gs[g][k]);
            }
        }
        assert(gs[g][0] < recs.len());
    }
    if is_root(recs, t, ex, x as int) {
        let y = choose|y: int| 0 <= y < recs.len() && y != x && #[trigger] connected(recs, t, ex, x as int, y);
        let w = choose|w: Seq<int>| #[trigger] is_walk(recs, t, ex, w) && w[0] == x as int && w.last() == y;
        let z = lemma_walk_leaves(recs, t, ex, w);
        assert(edge(recs, t, ex, x as int, z));
        let g = choose|g: int| 0 <= g < gs.len() && #[trigger] gs[g].contains(x as usize);
        let r = gs[g][0] as int;
        assert(gs[g][0] < recs.len());
        assert(connected(recs, t, ex, r, x as int));
        lemma_connected_symmetric(recs, t, ex, r, x as int);
        assert(x as int <= r);
        let k = choose|k: int| 0 <= k < gs[g].len() && gs[g][k] == x as usize;
        assert(strictly_increasing(gs[g]));
        if k > 0 {
            assert(gs[g][0] < gs[g][k]);
        }
        assert(gs[g][0] == x);
    }
}

/// The grouping contract leaves no freedom: for given records and settings
/// there is exactly one group list that meets it.
pub proof fn lemma_groups_determined(recs: Seq<ImageRecord>, t: u32, ex: bool, g1: Seq<Seq<usize>>, g2: Seq<Seq<usize>>)
    requires
        groups_exact(recs, t, ex, g1),
        groups_exact(recs, t, ex, g2),
    ensures
        g1 == g2,
{
    let f1 = g1.map_values(|g: Seq<usize>| g[0]);
    let f2 = g2.map_values(|g: Seq<usize>| g[0]);
    assert(strictly_increasing(f1));
    assert(strictly_increasing(f2));
    assert forall|x: usize| f1.contains(x) <==> f2.contains(x) by {
        lemma_firsts_are_roots(recs, t, ex, g1, x);
        lemma_firsts_are_roots(recs, t, ex, g2, x);
        if f1.contains(x) {
            let k = choose|k: int| 0 <= k < f1.len() && f1[k] == x;
            assert(g1[k][0] == x);
            let j = choose|j: int| 0 <= j < g2.len() && #[trigger] g2[j][0] == x;
            assert(f2[j] == x);
        }
        if f2.contains(x) {
            let k = choose|k: int| 0 <= k < f2.len() && f2[k] == x;
            assert(g2[k][0] == x);
            let j = choose|j: int| 0 <= j < g1.len() && #[trigger] g1[j][0] == x;
            assert(f1[j] == x);
        }
    }
    lemma_increasing_unique(f1, f2);
    assert forall|k: int| 0 <= k < g1.len() implies #[trigger] g1[k] == g2[k] by {
        assert(f1[k] == f2[k]);
        assert(strictly_increasing(g1[k]));
        assert(strictly_increasing(g2[k]));
        assert(f1[k] == g1[k][0] && f2[k] == g2[k][0]);
        assert forall|m: usize| g1[k].contains(m) <==> g2[k].contains(m) by {
            let mi = m as int;
            if mi < recs.len() {
                assert(g1[k].contains(mi as usize) == connected(recs, t, ex, g1[k][0] as int, mi));
                assert(g2[k].contains(mi as usize) == connected(recs, t, ex, g2[k][0] as int, mi));
            }
            if g1[k].contains(m) {
                let i = choose|i: int| 0 <= i < g1[k].len() && g1[k][i] == m;
                assert(g1[k][i] < recs.len());
            }
            if g2[k].contains(m) {
                let i = choose|i: int| 0 <= i < g2[k].len() && g2[k][i] == m;
                assert(g2[k][i] < recs.len());
            }
        }
        lemma_increasing_unique(g1[k], g2[k]);
    }
    assert(g1 =~= g2);
}

/// Two completed runs that hashed the same records report the same groups
/// and the same counts.
pub proof fn lemma_runs_agree(
    params: SimilarImagesParameters,
    c1: Seq<Candidate>,
    c2: Seq<Candidate>,
    o1: SearchOutcome,
    o2: SearchOutcome,
    e1: Seq<CacheEntry>,
    e2: Seq<CacheEntry>,
)
    requires
        search_ok(params, c1, o1, e1),
        search_ok(params, c2, o2, e2),
        !o1.stopped,
        !o2.stopped,
        o1.records@ == o2.records@,
    ensures
        index_groups(o1.groups@) == index_groups(o2.groups@),
        o1.info == o2.info,
{
    lemma_groups_determined(
        o1.records@,
        params.similarity,
        params.exclude_images_with_same_size,
        index_groups(o1.groups@),
        index_groups(o2.groups@),
    );
    assert(index_groups(o1.groups@).len() == o1.groups@.len());
}


/// Every edge under (`t1`, `ex1`) is an edge under (`t2`, `ex2`).
proof fn lemma_edge_weaker(recs: Seq<ImageRecord>, t1: u32, ex1: bool, t2: u32, ex2: bool, a: int, b: int)
    requires
        t1 <= t2,
        ex2 ==> ex1,
        edge(recs, t1, ex1, a, b),
    ensures
        edge(recs, t2, ex2, a, b),
{
    let x = recs[a];
    let y = recs[b];
    let (i, j) = choose|i: int, j: int|
        0 <= i < x.hashes@.len() && 0 <= j < y.hashes@.len() && #[trigger] crate::distance::hamming(
            x.hashes@[i]@,
            y.hashes@[j]@,
        ) <= t1;
    assert(crate::distance::hamming(x.hashes@[i]@, y.hashes@[j]@) <= t2);
    assert(hashes_close(x, y, t2));
}

proof fn lemma_connected_weaker(recs: Seq<ImageRecord>, t1: u32, ex1: bool, t2: u32, ex2: bool, a: int, b: int)
    requires
        t1 <= t2,
        ex2 ==> ex1,
        connected(recs, t1, ex1, a, b),
    ensures
        connected(recs, t2, ex2, a, b),
{
    let w = choose|w: Seq<int>| #[trigger] is_walk(recs, t1, ex1, w) && w[0] == a && w.last() == b;
    assert forall|k: int| 0 <= k < w.len() - 1 implies #[trigger] edge(recs, t2, ex2, w[k], w[k + 1]) by {
        assert(edge(recs, t1, ex1, w[k], w[k + 1]));
        lemma_edge_weaker(recs, t1, ex1, t2, ex2, w[k], w[k + 1]);
    }
    assert(is_walk(recs, t2, ex2, w));
}

/// Loosening the settings (a larger threshold, or same-size exclusion
/// switched off) only merges groups: each group found under the stricter
/// settings lies within one group found under the looser ones.
pub proof fn lemma_looser_settings_merge_groups(
    recs: Seq<ImageRecord>,
    t1: u32,
    ex1: bool,
    g1: Seq<Seq<usize>>,
    t2: u32,
    ex2: bool,
    g2: Seq<Seq<usize>>,
    g: int,
) -> (h: int)
    requires
        groups_exact(recs, t1, ex1, g1),
        groups_exact(recs, t2, ex2, g2),
        t1 <= t2,
        ex2 ==> ex1,
        0 <= g < g1.len(),
    ensures
        0 <= h < g2.len(),
        forall|m: usize| #[trigger] g1[g].contains(m) ==> g2[h].contains(m),
{
    let grp = g1[g];
    assert(grp.len() >= 2);
    assert(strictly_increasing(grp));
    let r = grp[0] as int;
    let second = grp[1] as int;
    assert(grp[0] < grp[1]);
    assert(grp[1] < recs.len() && grp[0] < recs.len());
    assert(grp.contains(second as usize));
    assert(connected(recs, t1, ex1, r, second));
    let w = choose|w: Seq<int>| #[trigger] is_walk(recs, t1, ex1, w) && w[0] == r && w.last() == second;
    let z = lemma_walk_leaves(recs, t1, ex1, w);
    lemma_edge_weaker(recs, t1, ex1, t2, ex2, r, z);
    let h = choose|h: int| 0 <= h < g2.len() && #[trigger] g2[h].contains(r as usize);
    let r2 = g2[h][0] as int;
    assert(g2[h][0] < recs.len());
    assert(connected(recs, t2, ex2, r2, r));
    assert forall|m: usize| #[trigger] grp.contains(m) implies g2[h].contains(m) by {
        let k = choose|k: int| 0 <= k < grp.len() && grp[k] == m;
        assert(grp[k] < recs.len());
        let mi = m as int;
        assert(grp.contains(mi as usize));
        assert(connected(recs, t1, ex1, r, mi));
        lemma_connected_weaker(recs, t1, ex1, t2, ex2, r, mi);
        lemma_connected_trans(recs, t2, ex2, r2, r, mi);
        assert(g2[h].contains(mi as usize));
    }
    h
}

} // verus!
