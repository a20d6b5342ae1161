use vstd::prelude::*;

use crate::params::{GeometricInvariance, HashAlgorithm, ResizeFilter};

verus! {

/// Identity of a file and of the hashing settings; a change in any of them
/// makes a stored hash stale.
#[derive(Debug)]
pub struct CacheKey {
    pub path: String,
    pub size: u64,
    pub modified_date: u64,
    pub hash_alg: HashAlgorithm,
    pub hash_size: u8,
    pub image_filter: ResizeFilter,
    pub geometric_invariance: GeometricInvariance,
}

pub open spec fn same_key(a: CacheKey, b: CacheKey) -> bool {
    &&& a.path@ == b.path@
    &&& a.size == b.size
    &&& a.modified_date == b.modified_date
    &&& a.hash_alg == b.hash_alg
    &&& a.hash_size == b.hash_size
    &&& a.image_filter == b.image_filter
    &&& a.geometric_invariance == b.geometric_invariance
}

/// The hash variants stored for one key.
#[derive(Debug)]
pub struct CacheEntry {
    pub key: CacheKey,
    pub hashes: Vec<Vec<u8>>,
}

/// Hashes computed in earlier runs, by file identity and settings.
#[derive(Debug)]
pub struct HashCache {
    pub entries: Vec<CacheEntry>,
}

pub open spec fn hash_views(hs: Seq<Vec<u8>>) -> Seq<Seq<u8>> {
    hs.map_values(|h: Vec<u8>| h@)
}

/// The cache holds `hs` under a key equal to `key`.
pub open spec fn holds(entries: Seq<CacheEntry>, key: CacheKey, hs: Seq<Seq<u8>>) -> bool {
    exists|i: int| 0 <= i < entries.len() && same_key(#[trigger] entries[i].key, key) && hash_views(entries[i].hashes@) == hs
}

fn keys_equal(a: &CacheKey, b: &CacheKey) -> (r: bool)
    ensures
        r == same_key(*a, *b),
{
    a.path == b.path && a.size == b.size && a.modified_date == b.modified_date && a.hash_alg == b.hash_alg
        && a.hash_size == b.hash_size && a.image_filter == b.image_filter && a.geometric_invariance
        == b.geometric_invariance
}

/// A copy of `hs`, hash by hash.
pub fn copy_hashes(hs: &Vec<Vec<u8>>) -> (r: Vec<Vec<u8>>)
    ensures
        hash_views(r@) == hash_views(hs@),
{
    let mut r: Vec<Vec<u8>> = Vec::new();
    let mut i: usize = 0;
    while i < hs.len()
        invariant
            i <= hs@.len(),
            r@.len() == i,
            forall|k: int| 0 <= k < i ==> (#[trigger] r@[k])@ == hs@[k]@,
        decreases hs.len() - i,
    {
        let mut h: Vec<u8> = Vec::new();
        let mut j: usize = 0;
        while j < hs[i].len()
            invariant
                i < hs@.len(),
                j <= hs@[i as int]@.len(),
                h@ == hs@[i as int]@.take(j as int),
            decreases hs[i as int]@.len() - j,
        {
            h.push(hs[i][j]);
            j = j + 1;
            assert(h@ =~= hs@[i as int]@.take(j as int));
        }
        assert(hs@[i as int]@.take(j as int) =~= hs@[i as int]@);
        r.push(h);
        i = i + 1;
    }
    assert(hash_views(r@) =~= hash_views(hs@));
    r
}

impl HashCache {
    pub fn new() -> (r: HashCache)
        ensures
            r.entries@.len() == 0,
    {
        HashCache { entries: Vec::new() }
    }

    /// A copy of the hashes stored under `key`, if any.
    pub fn lookup(&self, key: &CacheKey) -> (r: Option<Vec<Vec<u8>>>)
        ensures
            r matches Some(h) ==> holds(self.entries@, *key, hash_views(h@)),
            r is None ==> forall|i: int| 0 <= i < self.entries@.len() ==> !same_key(#[trigger] self.entries@[i].key, *key),
    {
        let mut i: usize = 0;
        while i < self.entries.len()
            invariant
                i <= self.entries@.len(),
                forall|k: int| 0 <= k < i ==> !same_key(#[trigger] self.entries@[k].key, *key),
            decreases self.entries.len() - i,
        {
            if keys_equal(&self.entries[i].key, key) {
                let h = copy_hashes(&self.entries[i].hashes);
                assert(same_key(self.entries@[i as int].key, *key));
                return Some(h);
            }
            i = i + 1;
        }
        None
    }

    /// Stores `hashes` under `key`.
    pub fn store(&mut self, key: CacheKey, hashes: Vec<Vec<u8>>)
        ensures
            final(self).entries@ == old(self).entries@.push(CacheEntry { key, hashes }),
    {
        self.entries.push(CacheEntry { key, hashes });
    }
}

} // verus!
