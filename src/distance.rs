use vstd::prelude::*;

verus! {

/// Number of set bits of `x`.
pub open spec fn popcount(x: nat) -> nat
    decreases x,
{
    if x == 0 {
        0
    } else {
        x % 2 + popcount(x / 2)
    }
}

/// Hamming distance over the first `n` bytes of `a` and `b`.
pub open spec fn hamming_prefix(a: Seq<u8>, b: Seq<u8>, n: int) -> nat
    decreases n,
{
    if n <= 0 {
        0
    } else {
        hamming_prefix(a, b, n - 1) + popcount((a[n - 1] ^ b[n - 1]) as nat)
    }
}

pub open spec fn min_len(a: Seq<u8>, b: Seq<u8>) -> int {
    if a.len() <= b.len() {
        a.len() as int
    } else {
        b.len() as int
    }
}

/// Number of differing bits between two hashes, compared byte by byte over
/// their common length.
pub open spec fn hamming(a: Seq<u8>, b: Seq<u8>) -> nat {
    hamming_prefix(a, b, min_len(a, b))
}

proof fn lemma_popcount_le(x: nat)
    ensures
        popcount(x) <= x,
    decreases x,
{
    if x != 0 {
        lemma_popcount_le(x / 2);
    }
}

proof fn lemma_xor_commutes(a: u8, b: u8)
    ensures
        a ^ b == b ^ a,
{
    assert(a ^ b == b ^ a) by (bit_vector);
}

proof fn lemma_hamming_prefix_symmetric(a: Seq<u8>, b: Seq<u8>, n: int)
    ensures
        hamming_prefix(a, b, n) == hamming_prefix(b, a, n),
    decreases n,
{
    if n > 0 {
        lemma_hamming_prefix_symmetric(a, b, n - 1);
        lemma_xor_commutes(a[n - 1], b[n - 1]);
    }
}

/// The distance does not depend on the order of its arguments.
pub proof fn lemma_hamming_symmetric(a: Seq<u8>, b: Seq<u8>)
    ensures
        hamming(a, b) == hamming(b, a),
{
    lemma_hamming_prefix_symmetric(a, b, min_len(a, b));
}

fn popcount_u8(x: u8) -> (r: u64)
    ensures
        r == popcount(x as nat),
        r <= 255,
{
    let mut v: u8 = x;
    let mut c: u64 = 0;
    proof {
        lemma_popcount_le(x as nat);
    }
    while v != 0
        invariant
            c + popcount(v as nat) == popcount(x as nat),
            popcount(x as nat) <= 255,
        decreases v,
    {
        c = c + (v % 2) as u64;
        v = v / 2;
    }
    c
}

/// Whether two hashes differ in at most `threshold` bits.
pub fn within_distance(a: &Vec<u8>, b: &Vec<u8>, threshold: u32) -> (r: bool)
    ensures
        r == (hamming(a@, b@) <= threshold),
{
    let n: usize = if a.len() <= b.len() { a.len() } else { b.len() };
    let mut d: u64 = 0;
    let mut i: usize = 0;
    while i < n
        invariant
            n == min_len(a@, b@),
            i <= n,
            d == hamming_prefix(a@, b@, i as int),
            d <= threshold,
        decreases n - i,
    {
        d = d + popcount_u8(a[i] ^ b[i]);
        i = i + 1;
        if d > threshold as u64 {
            proof {
                lemma_hamming_prefix_monotone(a@, b@, i as int, n as int);
            }
            return false;
        }
    }
    true
}

proof fn lemma_hamming_prefix_monotone(a: Seq<u8>, b: Seq<u8>, i: int, n: int)
    requires
        0 <= i <= n,
    ensures
        hamming_prefix(a, b, i) <= hamming_prefix(a, b, n),
    decreases n - i,
{
    if i < n {
        lemma_hamming_prefix_monotone(a, b, i, n - 1);
    }
}

} // verus!
