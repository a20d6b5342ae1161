use vstd::prelude::*;

use std::sync::atomic::{AtomicBool, Ordering};

use image_hasher::{FilterType, HashAlg};

use crate::cache::{copy_hashes, hash_views, holds, same_key, CacheEntry, CacheKey, HashCache};
use crate::grouping::{
    groups_exact, index_groups, lemma_total_len_bound, similarity_groups, total_len, ImageRecord,
};
use crate::params::{
    transforms_of, variant_transforms, HashAlgorithm, ResizeFilter, SimilarImagesParameters, Transform,
};
use crate::pixels::{apply_transform, is_transformed, Pixels};

verus! {

/// The perceptual hash that image_hasher computes for an image.
pub uninterp spec fn perceptual_hash(
    alg: HashAlgorithm,
    filter: ResizeFilter,
    hash_size: u8,
    width: u32,
    height: u32,
    rgba: Seq<u8>,
) -> Seq<u8>;

/// Relies on image_hasher's `HasherConfig` and `Hasher::hash_image`: a hash of
/// `hash_size` by `hash_size` cells under the given algorithm and filter,
/// which depends on these and on the pixels alone.
#[verifier::external_body]
fn hash_pixels(p: &Pixels, alg: HashAlgorithm, filter: ResizeFilter, hash_size: u8) -> (r: Vec<u8>)
    requires
        p.wf(),
        p.width >= 1,
        p.height >= 1,
        hash_size >= 1,
    ensures
        r@ == perceptual_hash(alg, filter, hash_size, p.width, p.height, p.rgba@),
{
    let img = image::RgbaImage::from_raw(p.width, p.height, p.rgba.clone()).unwrap();
    let a = match alg {
        HashAlgorithm::Gradient => HashAlg::Gradient,
        HashAlgorithm::DoubleGradient => HashAlg::DoubleGradient,
        HashAlgorithm::VertGradient => HashAlg::VertGradient,
        HashAlgorithm::Blockhash => HashAlg::Blockhash,
        HashAlgorithm::Mean => HashAlg::Mean,
    };
    let f = match filter {
        ResizeFilter::Lanczos3 => FilterType::Lanczos3,
        ResizeFilter::Gaussian => FilterType::Gaussian,
        ResizeFilter::Nearest => FilterType::Nearest,
    };
    let hasher = image_hasher::HasherConfig::new().hash_size(hash_size as u32, hash_size as u32).hash_alg(a).resize_filter(f).to_hasher();
    hasher.hash_image(&image::DynamicImage::ImageRgba8(img)).as_bytes().to_vec()
}

/// `h` is the hash, under `params`, of `p` transformed by `t`.
pub open spec fn is_variant_hash(h: Seq<u8>, p: Pixels, t: Transform, params: SimilarImagesParameters) -> bool {
    exists|q: Pixels|
        is_transformed(q, p, t) && h == #[trigger] perceptual_hash(
            params.hash_alg,
            params.image_filter,
            params.hash_size,
            q.width,
            q.height,
            q.rgba@,
        )
}

/// `hs` holds one hash of `p` for each transform that the run asks for, in order.
pub open spec fn variant_hashes_of(hs: Seq<Vec<u8>>, p: Pixels, params: SimilarImagesParameters) -> bool {
    &&& hs.len() == transforms_of(params.geometric_invariance).len()
    &&& forall|i: int|
        0 <= i < hs.len() ==> is_variant_hash(
            #[trigger] hs[i]@,
            p,
            transforms_of(params.geometric_invariance)[i],
            params,
        )
}

/// The hashes of every geometric variant of `p` that `params` asks for.
pub fn hash_variants(p: &Pixels, params: &SimilarImagesParameters) -> (r: Vec<Vec<u8>>)
    requires
        p.wf(),
        p.width >= 1,
        p.height >= 1,
        params.hash_size >= 1,
    ensures
        variant_hashes_of(r@, *p, *params),
{
    let transforms = variant_transforms(params.geometric_invariance);
    let mut r: Vec<Vec<u8>> = Vec::new();
    let mut i: usize = 0;
    while i < transforms.len()
        invariant
            p.wf(),
            p.width >= 1,
            p.height >= 1,
            params.hash_size >= 1,
            transforms@ == transforms_of(params.geometric_invariance),
            forall|k: int| 0 <= k < transforms@.len() ==> (#[trigger] transforms@[k]).wf(),
            i <= transforms@.len(),
            r@.len() == i,
            forall|k: int| 0 <= k < i ==> is_variant_hash(#[trigger] r@[k]@, *p, transforms@[k], *params),
        decreases transforms.len() - i,
    {
        let t = transforms[i];
        assert(t.wf());
        let q = apply_transform(p, t);
        assert(q.width >= 1 && q.height >= 1);
        let h = hash_pixels(&q, params.hash_alg, params.image_filter, params.hash_size);
        r.push(h);
        assert(is_variant_hash(r@[i as int]@, *p, transforms@[i as int], *params));
        i = i + 1;
    }
    r
}


/// Summary counters of one run.
#[derive(Clone, Copy, Debug, PartialEq, Eq, Structural)]
pub struct RunInfo {
    pub initial_found_files: usize,
    pub number_of_groups: usize,
    pub number_of_duplicates: usize,
}

/// Why a run did not start.
#[derive(Clone, Copy, Debug, PartialEq, Eq, Structural)]
pub enum SearchError {
    /// A hash needs at least one cell per side.
    ZeroHashSize,
}

/// A file handed to the engine: its identity and its decoded pixels.
#[derive(Debug)]
pub struct Candidate {
    pub path: String,
    pub size: u64,
    pub modified_date: u64,
    pub image: Pixels,
}

pub open spec fn usable(c: Candidate) -> bool {
    c.image.wf() && c.image.width >= 1 && c.image.height >= 1
}

/// The groups that are reported: those with two or more members.
pub open spec fn reportable(gs: Seq<Seq<usize>>) -> Seq<Seq<usize>> {
    gs.filter(two_or_more())
}

pub open spec fn two_or_more() -> spec_fn(Seq<usize>) -> bool {
    |g: Seq<usize>| g.len() >= 2
}

/// `v` in the opposite order.
pub fn reversed<T>(v: Vec<T>) -> (r: Vec<T>)
    ensures
        r@ == v@.reverse(),
{
    let mut v = v;
    let ghost orig = v@;
    let mut r: Vec<T> = Vec::new();
    while v.len() > 0
        invariant
            v@ == orig.take(v@.len() as int),
            v@.len() + r@.len() == orig.len(),
            forall|k: int| 0 <= k < r@.len() ==> #[trigger] r@[k] == orig[orig.len() - 1 - k],
        decreases v.len(),
    {
        let ghost before = v@;
        let x = v.pop().unwrap();
        assert(x == orig[before.len() - 1]);
        r.push(x);
        assert(v@ =~= orig.take(v@.len() as int));
    }
    assert(r@ =~= orig.reverse());
    r
}

proof fn lemma_total_len_push(gs: Seq<Seq<usize>>, g: Seq<usize>)
    ensures
        total_len(gs.push(g)) == total_len(gs) + g.len(),
{
    assert(gs.push(g).drop_last() =~= gs);
}

proof fn lemma_index_groups_push(gs: Seq<Vec<usize>>, g: Vec<usize>)
    ensures
        index_groups(gs.push(g)) == index_groups(gs).push(g@),
{
    assert(index_groups(gs.push(g)) =~= index_groups(gs).push(g@));
}

/// Discards groups of fewer than two members and counts the rest: every
/// group contributes all members but one to the duplicates.
pub fn summarize(found: usize, groups: Vec<Vec<usize>>) -> (r: (RunInfo, Vec<Vec<usize>>))
    requires
        total_len(index_groups(groups@)) <= usize::MAX,
    ensures
        index_groups(r.1@) == reportable(index_groups(groups@)),
        r.0.initial_found_files == found,
        r.0.number_of_groups == r.1@.len(),
        r.0.number_of_duplicates == total_len(index_groups(r.1@)) - r.1@.len(),
{
    let ghost ig = index_groups(groups@);
    let ghost pred = two_or_more();
    let n = groups.len();
    let mut rest = reversed(groups);
    let mut out: Vec<Vec<usize>> = Vec::new();
    let mut total: usize = 0;
    let mut i: usize = 0;
    proof {
        lemma_total_len_prefix(ig, 0);
        assert(ig.take(0).filter(pred) =~= Seq::<Seq<usize>>::empty()) by {
            reveal(Seq::filter);
        }
        assert(index_groups(out@) =~= Seq::<Seq<usize>>::empty());
    }
    while i < n
        invariant
            n == ig.len(),
            ig == index_groups(groups@),
            total_len(ig) <= usize::MAX,
            i <= n,
            rest@.len() + i == n,
            forall|k: int| 0 <= k < rest@.len() ==> #[trigger] rest@[k] == groups@[n - 1 - k],
            pred == two_or_more(),
            index_groups(out@) == ig.take(i as int).filter(pred),
            total == total_len(index_groups(out@)),
            total <= total_len(ig.take(i as int)),
            2 * out@.len() <= total,
        decreases n - i,
    {
        let ghost before = out@;
        let g = rest.pop().unwrap();
        assert(g == groups@[i as int]);
        assert(ig[i as int] == g@);
        assert(ig.take(i + 1) == ig.take(i as int).push(g@)) by {
            assert(ig.take(i + 1) =~= ig.take(i as int).push(g@));
        }
        proof {
            ig.take(i as int).lemma_filter_push(g@, pred);
            lemma_total_len_push(ig.take(i as int), g@);
            lemma_total_len_prefix(ig, i as int + 1);
        }
        if g.len() >= 2 {
            total = total + g.len();
            out.push(g);
            proof {
                assert(pred(g@));
                lemma_index_groups_push(before, g);
                lemma_total_len_push(index_groups(before), g@);
            }
        } else {
            assert(!pred(g@));
        }
        i = i + 1;
    }
    assert(ig.take(n as int) =~= ig);
    let info = RunInfo {
        initial_found_files: found,
        number_of_groups: out.len(),
        number_of_duplicates: total - out.len(),
    };
    (info, out)
}

proof fn lemma_total_len_prefix(gs: Seq<Seq<usize>>, i: int)
    requires
        0 <= i <= gs.len(),
    ensures
        total_len(gs.take(i)) <= total_len(gs),
    decreases gs.len() - i,
{
    if i < gs.len() {
        lemma_total_len_prefix(gs, i + 1);
        assert(gs.take(i + 1).drop_last() =~= gs.take(i));
    } else {
        assert(gs.take(i) =~= gs);
    }
}

/// A list whose groups all have two or more members is reported whole.
proof fn lemma_reportable_all(gs: Seq<Seq<usize>>)
    requires
        forall|g: int| 0 <= g < gs.len() ==> (#[trigger] gs[g]).len() >= 2,
    ensures
        reportable(gs) == gs,
    decreases gs.len(),
{
    let pred = two_or_more();
    if gs.len() == 0 {
        assert(gs.filter(pred) =~= gs) by {
            reveal(Seq::filter);
        }
    } else {
        let d = gs.drop_last();
        assert forall|g: int| 0 <= g < d.len() implies (#[trigger] d[g]).len() >= 2 by {
            assert(d[g] == gs[g]);
        }
        lemma_reportable_all(d);
        assert(gs.last().len() >= 2);
        d.lemma_filter_push(gs.last(), pred);
        assert(d.push(gs.last()) =~= gs);
    }
}


/// What one run found. `groups` lists indices into `records`; `source[k]`
/// is the position among the candidates of the file behind `records[k]`.
pub struct SearchOutcome {
    pub info: RunInfo,
    pub records: Vec<ImageRecord>,
    pub groups: Vec<Vec<usize>>,
    pub skipped_files: usize,
    pub stopped: bool,
    pub source: Vec<usize>,
}

/// The cache key of candidate `c` under `params`.
pub open spec fn key_for(c: Candidate, params: SimilarImagesParameters) -> CacheKey {
    CacheKey {
        path: c.path,
        size: c.size,
        modified_date: c.modified_date,
        hash_alg: params.hash_alg,
        hash_size: params.hash_size,
        image_filter: params.image_filter,
        geometric_invariance: params.geometric_invariance,
    }
}

/// `r` is the record made from candidate `c`: its hashes are computed from
/// the pixels, or are those that `entries` hold for the candidate's key.
pub open spec fn is_record_of(
    r: ImageRecord,
    c: Candidate,
    params: SimilarImagesParameters,
    entries: Seq<CacheEntry>,
) -> bool {
    &&& usable(c)
    &&& r.path@ == c.path@
    &&& r.size == c.size
    &&& r.modified_date == c.modified_date
    &&& r.width == c.image.width
    &&& r.height == c.image.height
    &&& variant_hashes_of(r.hashes@, c.image, params) || holds(entries, key_for(c, params), hash_views(r.hashes@))
}

fn key_of(c: &Candidate, params: &SimilarImagesParameters) -> (r: CacheKey)
    ensures
        r.path@ == c.path@,
        same_key(r, key_for(*c, *params)),
{
    CacheKey {
        path: c.path.clone(),
        size: c.size,
        modified_date: c.modified_date,
        hash_alg: params.hash_alg,
        hash_size: params.hash_size,
        image_filter: params.image_filter,
        geometric_invariance: params.geometric_invariance,
    }
}

/// What a run over `cands` under `params`, with the cache entries `entries`,
/// returns: a record for each usable candidate of the first
/// `records.len() + skipped_files` candidates, in input order (all of them
/// unless the run stopped), and, unless stopped, the exact similarity groups.
pub open spec fn search_ok(
    params: SimilarImagesParameters,
    cands: Seq<Candidate>,
    o: SearchOutcome,
    entries: Seq<CacheEntry>,
) -> bool {
    let src = o.source@;
    let reached = o.records@.len() + o.skipped_files;
    &&& src.len() == o.records@.len()
    &&& reached <= cands.len()
    &&& forall|k: int| 0 <= k < src.len() ==> #[trigger] src[k] < reached
    &&& forall|k: int|
        0 <= k < src.len() ==> is_record_of(#[trigger] o.records@[k], cands[src[k] as int], params, entries)
    &&& forall|a: int, b: int| 0 <= a < b < src.len() ==> src[a] < src[b]
    &&& forall|c: int| 0 <= c < reached && usable(#[trigger] cands[c]) ==> src.contains(c as usize)
    &&& !o.stopped ==> reached == cands.len()
    &&& o.info.initial_found_files == o.records@.len()
    &&& o.info.number_of_groups == o.groups@.len()
    &&& o.info.number_of_duplicates == total_len(index_groups(o.groups@)) - o.groups@.len()
    &&& forall|g: int| 0 <= g < o.groups@.len() ==> (#[trigger] o.groups@[g])@.len() >= 2
    &&& o.stopped ==> o.groups@.len() == 0
    &&& !o.stopped ==> groups_exact(
        o.records@,
        params.similarity,
        params.exclude_images_with_same_size,
        index_groups(o.groups@),
    )
}

/// A run in progress: the records made from the `seen` candidates handed in
/// so far, and whether a stop was read.
pub struct SearchState {
    pub records: Vec<ImageRecord>,
    pub source: Vec<usize>,
    pub skipped_files: usize,
    pub seen: usize,
    pub stopped: bool,
}

impl SearchState {
    pub open spec fn wf(&self) -> bool {
        &&& self.source@.len() == self.records@.len()
        &&& self.records@.len() + self.skipped_files == self.seen
    }

    pub fn new() -> (r: SearchState)
        ensures
            r.wf(),
            r.records@.len() == 0,
            r.seen == 0,
            !r.stopped,
    {
        SearchState { records: Vec::new(), source: Vec::new(), skipped_files: 0, seen: 0, stopped: false }
    }
}

/// `s` is what the candidates `prefix` produced.
pub open spec fn state_ok(
    params: SimilarImagesParameters,
    prefix: Seq<Candidate>,
    s: SearchState,
    entries: Seq<CacheEntry>,
) -> bool {
    let src = s.source@;
    &&& s.wf()
    &&& s.seen == prefix.len()
    &&& forall|k: int| 0 <= k < src.len() ==> #[trigger] src[k] < s.seen
    &&& forall|k: int|
        0 <= k < src.len() ==> is_record_of(#[trigger] s.records@[k], prefix[src[k] as int], params, entries)
    &&& forall|a: int, b: int| 0 <= a < b < src.len() ==> src[a] < src[b]
    &&& forall|c: int| 0 <= c < s.seen && usable(#[trigger] prefix[c]) ==> src.contains(c as usize)
}

pub open spec fn entries_used(cache: HashCache, use_cache: bool) -> Seq<CacheEntry> {
    if use_cache {
        cache.entries@
    } else {
        Seq::empty()
    }
}

/// More cache entries take nothing away from a record.
proof fn lemma_record_entries_grow(
    r: ImageRecord,
    c: Candidate,
    params: SimilarImagesParameters,
    e1: Seq<CacheEntry>,
    e2: Seq<CacheEntry>,
)
    requires
        is_record_of(r, c, params, e1),
        e1.len() <= e2.len(),
        forall|i: int| 0 <= i < e1.len() ==> #[trigger] e2[i] == e1[i],
    ensures
        is_record_of(r, c, params, e2),
{
    let key = key_for(c, params);
    let hv = hash_views(r.hashes@);
    if holds(e1, key, hv) {
        let e = choose|e: int| 0 <= e < e1.len() && same_key(#[trigger] e1[e].key, key) && hash_views(e1[e].hashes@) == hv;
        assert(e2[e] == e1[e]);
    }
}

/// Handles one candidate, given what the stop flag read before it. A stop
/// read (now or earlier) hashes nothing and changes nothing but `stopped`;
/// otherwise a usable candidate gets its record, taking its hashes from the
/// cache when `use_cache` and the cache holds them, and an unusable one is
/// counted as skipped.
pub fn search_step(
    params: &SimilarImagesParameters,
    state: &mut SearchState,
    stop_read: bool,
    candidate: Candidate,
    cache: &mut HashCache,
    use_cache: bool,
)
    requires
        params.hash_size >= 1,
        old(state).wf(),
        old(state).seen < usize::MAX,
    ensures
        final(state).wf(),
        final(state).stopped == (old(state).stopped || stop_read),
        !use_cache ==> final(cache).entries@ == old(cache).entries@,
        old(cache).entries@.len() <= final(cache).entries@.len(),
        forall|i: int| 0 <= i < old(cache).entries@.len() ==> #[trigger] final(cache).entries@[i] == old(cache).entries@[i],
        old(state).stopped || stop_read ==> {
            &&& final(state).records@ == old(state).records@
            &&& final(state).source@ == old(state).source@
            &&& final(state).skipped_files == old(state).skipped_files
            &&& final(state).seen == old(state).seen
            &&& final(cache).entries@ == old(cache).entries@
        },
        !old(state).stopped && !stop_read ==> {
            &&& final(state).seen == old(state).seen + 1
            &&& usable(candidate) ==> {
                &&& final(state).records@.len() == old(state).records@.len() + 1
                &&& final(state).records@.drop_last() == old(state).records@
                &&& is_record_of(final(state).records@.last(), candidate, *params, entries_used(*final(cache), use_cache))
                &&& final(state).source@ == old(state).source@.push(old(state).seen)
                &&& final(state).skipped_files == old(state).skipped_files
            }
            &&& !usable(candidate) ==> {
                &&& final(state).records@ == old(state).records@
                &&& final(state).source@ == old(state).source@
                &&& final(state).skipped_files == old(state).skipped_files + 1
            }
        },
{
    if state.stopped || stop_read {
        state.stopped = true;
        return;
    }
    let seen = state.seen;
    let c = candidate;
    if c.image.is_usable() {
        let ghost entries_before = cache.entries@;
        let hashes = if use_cache {
            let key = key_of(&c, params);
            match cache.lookup(&key) {
                Some(h) => h,
                None => {
                    let h = hash_variants(&c.image, params);
                    cache.store(key, copy_hashes(&h));
                    h
                },
            }
        } else {
            hash_variants(&c.image, params)
        };
        proof {
            if use_cache && !variant_hashes_of(hashes@, c.image, *params) {
                let last = cache.entries@.len() - 1;
                if cache.entries@.len() > entries_before.len() {
                    assert(same_key(cache.entries@[last].key, key_for(c, *params)));
                }
            }
        }
        let rec = ImageRecord {
            path: c.path,
            size: c.size,
            modified_date: c.modified_date,
            width: c.image.width,
            height: c.image.height,
            hashes,
        };
        let ghost before = state.records@;
        state.records.push(rec);
        state.source.push(seen);
        assert(state.records@.drop_last() =~= before);
    } else {
        state.skipped_files = state.skipped_files + 1;
    }
    state.seen = seen + 1;
}

/// Ends a run, given what the stop flag read after the last candidate: the
/// run counts as stopped when a stop was read, and reports groups only when
/// it was not.
pub fn finish(params: &SimilarImagesParameters, state: SearchState, stop_read: bool) -> (o: SearchOutcome)
    requires
        state.wf(),
    ensures
        o.stopped == (state.stopped || stop_read),
        o.records@ == state.records@,
        o.source@ == state.source@,
        o.skipped_files == state.skipped_files,
        o.info.initial_found_files == o.records@.len(),
        o.info.number_of_groups == o.groups@.len(),
        o.info.number_of_duplicates == total_len(index_groups(o.groups@)) - o.groups@.len(),
        forall|g: int| 0 <= g < o.groups@.len() ==> (#[trigger] o.groups@[g])@.len() >= 2,
        o.stopped ==> o.groups@.len() == 0,
        !o.stopped ==> groups_exact(
            o.records@,
            params.similarity,
            params.exclude_images_with_same_size,
            index_groups(o.groups@),
        ),
{
    let stopped = state.stopped || stop_read;
    let records = state.records;
    let groups = if stopped {
        Vec::new()
    } else {
        similarity_groups(&records, params.similarity, params.exclude_images_with_same_size)
    };
    proof {
        if stopped {
            assert(index_groups(groups@) =~= Seq::<Seq<usize>>::empty());
        } else {
            lemma_total_len_bound(
                records@,
                params.similarity,
                params.exclude_images_with_same_size,
                index_groups(groups@),
            );
        }
        let ig = index_groups(groups@);
        assert forall|g: int| 0 <= g < ig.len() implies (#[trigger] ig[g]).len() >= 2 by {
            assert(ig[g] == groups@[g]@);
        }
        lemma_reportable_all(ig);
    }
    let found = records.len();
    let (info, kept) = summarize(found, groups);
    proof {
        let ik = index_groups(kept@);
        assert forall|g: int| 0 <= g < kept@.len() implies (#[trigger] kept@[g])@.len() >= 2 by {
            assert(ik[g] == kept@[g]@);
        }
    }
    SearchOutcome {
        info,
        records,
        groups: kept,
        skipped_files: state.skipped_files,
        stopped,
        source: state.source,
    }
}

/// Hashes every usable candidate, links the similar ones and reports the
/// groups. `stop` is read before each file and once before grouping, and
/// each reading goes to `search_step` or `finish`.
pub fn search(params: &SimilarImagesParameters, candidates: Vec<Candidate>, stop: &AtomicBool) -> (r: Result<
    SearchOutcome,
    SearchError,
>)
    ensures
        params.hash_size == 0 <==> r is Err,
        r matches Err(e) ==> e == SearchError::ZeroHashSize,
        r matches Ok(o) ==> search_ok(*params, candidates@, o, Seq::empty()),
{
    let mut unused = HashCache::new();
    search_with_cache(params, candidates, stop, &mut unused, false)
}

/// `search`, taking each file's hashes from `cache` where it holds them
/// under the file's key, and storing those it computes, when `use_cache`.
/// Without `use_cache` the cache is left as it was.
pub fn search_with_cache(
    params: &SimilarImagesParameters,
    candidates: Vec<Candidate>,
    stop: &AtomicBool,
    cache: &mut HashCache,
    use_cache: bool,
) -> (r: Result<SearchOutcome, SearchError>)
    ensures
        params.hash_size == 0 <==> r is Err,
        r matches Err(e) ==> e == SearchError::ZeroHashSize,
        !use_cache ==> final(cache).entries@ == old(cache).entries@,
        old(cache).entries@.len() <= final(cache).entries@.len(),
        forall|i: int| 0 <= i < old(cache).entries@.len() ==> #[trigger] final(cache).entries@[i] == old(cache).entries@[i],
        r matches Ok(o) ==> search_ok(*params, candidates@, o, entries_used(*final(cache), use_cache)),
{
    if params.hash_size == 0 {
        return Err(SearchError::ZeroHashSize);
    }
    let n = candidates.len();
    let ghost cands = candidates@;
    let mut pending = reversed(candidates);
    let mut state = SearchState::new();
    let mut i: usize = 0;
    assert(cands.take(0) =~= Seq::<Candidate>::empty());
    while i < n && !state.stopped
        invariant
            params.hash_size >= 1,
            n == cands.len(),
            i <= n,
            pending@.len() + i == n,
            forall|k: int| 0 <= k < pending@.len() ==> #[trigger] pending@[k] == cands[n - 1 - k],
            state.seen <= i,
            !state.stopped ==> state.seen == i,
            state_ok(*params, cands.take(state.seen as int), state, entries_used(*cache, use_cache)),
            !use_cache ==> cache.entries@ == old(cache).entries@,
            old(cache).entries@.len() <= cache.entries@.len(),
            forall|e: int| 0 <= e < old(cache).entries@.len() ==> #[trigger] cache.entries@[e] == old(cache).entries@[e],
        decreases n - i,
    {
        let c = pending.pop().unwrap();
        assert(c == cands[i as int]);
        let stop_read = stop.load(Ordering::Relaxed);
        let ghost before = state;
        let ghost entries_before = cache.entries@;
        let ghost used_before = entries_used(*cache, use_cache);
        search_step(params, &mut state, stop_read, c, cache, use_cache);
        proof {
            let used = entries_used(*cache, use_cache);
            let p0 = cands.take(before.seen as int);
            let p1 = cands.take(state.seen as int);
            assert forall|e: int| 0 <= e < used_before.len() implies #[trigger] used[e] == used_before[e] by {
                if use_cache {
                    assert(entries_before.len() <= cache.entries@.len());
                }
            }
            if !stop_read {
                assert(state.seen == before.seen + 1);
                assert(p1.drop_last() =~= p0);
                assert(p1.last() == c);
                assert forall|k: int| 0 <= k < before.source@.len() implies is_record_of(
                    #[trigger] state.records@[k],
                    p1[state.source@[k] as int],
                    *params,
                    used,
                ) by {
                    assert(state.records@[k] == before.records@[k]);
                    assert(state.source@[k] == before.source@[k]);
                    assert(is_record_of(before.records@[k], p0[before.source@[k] as int], *params, used_before));
                    lemma_record_entries_grow(before.records@[k], p0[before.source@[k] as int], *params, used_before, used);
                }
                assert forall|c2: int| 0 <= c2 < state.seen && usable(#[trigger] p1[c2]) implies state.source@.contains(
                    c2 as usize,
                ) by {
                    if c2 < before.seen {
                        assert(p1[c2] == p0[c2]);
                        let q = choose|q: int| 0 <= q < before.source@.len() && before.source@[q] == c2 as usize;
                        assert(state.source@[q] == c2 as usize);
                    } else {
                        assert(state.source@[state.source@.len() - 1] == c2 as usize);
                    }
                }
                assert(state_ok(*params, p1, state, used));
            } else {
                assert forall|k: int| 0 <= k < state.source@.len() implies is_record_of(
                    #[trigger] state.records@[k],
                    p1[state.source@[k] as int],
                    *params,
                    used,
                ) by {
                    assert(is_record_of(before.records@[k], p0[before.source@[k] as int], *params, used_before));
                    lemma_record_entries_grow(before.records@[k], p0[before.source@[k] as int], *params, used_before, used);
                }
            }
        }
        i = i + 1;
    }
    let stop_read = stop.load(Ordering::Relaxed);
    let ghost last = state;
    let o = finish(params, state, stop_read);
    proof {
        let used = entries_used(*cache, use_cache);
        let p = cands.take(last.seen as int);
        assert forall|k: int| 0 <= k < o.source@.len() implies is_record_of(
            #[trigger] o.records@[k],
            cands[o.source@[k] as int],
            *params,
            used,
        ) by {
            assert(is_record_of(last.records@[k], p[last.source@[k] as int], *params, used));
        }
        assert forall|c2: int| 0 <= c2 < o.records@.len() + o.skipped_files && usable(#[trigger] cands[c2]) implies o.source@.contains(
            c2 as usize,
        ) by {
            assert(p[c2] == cands[c2]);
        }
    }
    Ok(o)
}

} // verus!
