use vstd::prelude::*;

verus! {

/// The byte of `*`.
pub const STAR: u8 = 42;

/// `s` matches `p`, in which each `*` stands for any run of bytes and every
/// other byte for itself.
pub open spec fn glob(p: Seq<u8>, s: Seq<u8>) -> bool
    decreases p.len() + s.len(),
{
    if p.len() == 0 {
        s.len() == 0
    } else if p[0] == STAR {
        glob(p.drop_first(), s) || (s.len() > 0 && glob(p, s.drop_first()))
    } else {
        s.len() > 0 && p[0] == s[0] && glob(p.drop_first(), s.drop_first())
    }
}

proof fn lemma_skip_step(q: Seq<u8>, i: int)
    requires
        0 <= i < q.len(),
    ensures
        q.skip(i).drop_first() == q.skip(i + 1),
        q.skip(i)[0] == q[i],
        q.skip(i).len() == q.len() - i,
{
    assert(q.skip(i).drop_first() =~= q.skip(i + 1));
}

/// Whether `text` matches the wildcard pattern `pattern`.
pub fn wildcard_match(pattern: &[u8], text: &[u8]) -> (r: bool)
    ensures
        r == glob(pattern@, text@),
{
    let n = pattern.len();
    let m = text.len();
    let ghost p = pattern@;
    let ghost s = text@;
    // `next[k]` and `next_end` hold the results for the pattern tail from
    // `i` on, against the text tail from `k` and against the empty tail.
    let mut next: Vec<bool> = Vec::new();
    let mut next_end = true;
    let mut j: usize = 0;
    assert(p.skip(n as int).len() == 0);
    assert(s.skip(m as int).len() == 0);
    while j < m
        invariant
            m == s.len(),
            n == p.len(),
            j <= m,
            next@.len() == j,
            forall|k: int| 0 <= k < j ==> #[trigger] next@[k] == glob(p.skip(n as int), s.skip(k)),
        decreases m - j,
    {
        assert(p.skip(n as int).len() == 0);
        assert(s.skip(j as int).len() == m - j);
        next.push(false);
        j = j + 1;
    }
    let mut i: usize = n;
    while i > 0
        invariant
            m == s.len(),
            n == p.len(),
            i <= n,
            p == pattern@,
            s == text@,
            next@.len() == m,
            forall|k: int| 0 <= k < m ==> #[trigger] next@[k] == glob(p.skip(i as int), s.skip(k)),
            next_end == glob(p.skip(i as int), s.skip(m as int)),
        decreases i,
    {
        let pi = i - 1;
        proof {
            lemma_skip_step(p, pi as int);
            assert(s.skip(m as int).len() == 0);
        }
        let star = pattern[pi] == STAR;
        let cur_end = star && next_end;
        let mut cur: Vec<bool> = Vec::new();
        let mut k: usize = 0;
        while k < m
            invariant
                cur@.len() == k,
                k <= m,
            decreases m - k,
        {
            cur.push(false);
            k = k + 1;
        }
        let mut jj: usize = m;
        while jj > 0
            invariant
                m == s.len(),
                n == p.len(),
                pi < n,
                p == pattern@,
                s == text@,
                jj <= m,
                star == (p[pi as int] == STAR),
                next@.len() == m,
                cur@.len() == m,
                forall|k: int| 0 <= k < m ==> #[trigger] next@[k] == glob(p.skip(pi + 1), s.skip(k)),
                next_end == glob(p.skip(pi + 1), s.skip(m as int)),
                cur_end == glob(p.skip(pi as int), s.skip(m as int)),
                forall|k: int| jj <= k < m ==> #[trigger] cur@[k] == glob(p.skip(pi as int), s.skip(k)),
            decreases jj,
        {
            let jx = jj - 1;
            proof {
                lemma_skip_step(p, pi as int);
                lemma_skip_step(s, jx as int);
            }
            let after_cur = if jx + 1 < m { cur[jx + 1] } else { cur_end };
            let after_next = if jx + 1 < m { next[jx + 1] } else { next_end };
            let v = if star {
                next[jx] || after_cur
            } else {
                pattern[pi] == text[jx] && after_next
            };
            cur.set(jx, v);
            jj = jx;
        }
        next = cur;
        next_end = cur_end;
        i = pi;
    }
    assert(p.skip(0) =~= p);
    assert(s.skip(0) =~= s);
    if m == 0 {
        next_end
    } else {
        next[0]
    }
}

} // verus!
