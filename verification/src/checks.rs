//! The hint calculator: scoring one guess against one reference sequence.
//!
//! A score is a [`Hint`]: `exact` counts the positions where guess and
//! reference agree; `exist` counts the remaining symbols present in both but
//! misplaced, with multiset semantics (per symbol value, the minimum of the
//! two per-value counts of unmatched positions); `null` is what is left, so
//! the three buckets always partition the sequence length.

use vstd::prelude::*;

verus! {

/// The feedback for one guess: three counts that partition the sequence
/// length. `exact` positions agree; `exist` symbols occur in both sequences
/// but misplaced; `null` positions are unaccounted for.
#[derive(Clone, Copy, PartialEq, Eq, Structural, Debug)]
pub struct Hint {
    pub exact: usize,
    pub exist: usize,
    pub null: usize,
}

/// A symbol is drawn from the contiguous pool `1..=pool_size`.
pub open spec fn symbol_ok(v: u32, pool_size: u32) -> bool {
    1 <= v <= pool_size
}

/// A well-formed sequence: exactly `set_length` symbols, each inside the pool.
pub open spec fn seq_ok(s: Seq<u32>, set_length: nat, pool_size: u32) -> bool {
    &&& s.len() == set_length
    &&& forall|i: int| 0 <= i < s.len() ==> symbol_ok(#[trigger] s[i], pool_size)
}

/// Number of positions `i < n` where `a` and `b` hold the same symbol.
pub open spec fn exact_upto(a: Seq<u32>, b: Seq<u32>, n: int) -> nat
    decreases n,
{
    if n <= 0 {
        0
    } else {
        exact_upto(a, b, n - 1) + if a[n - 1] == b[n - 1] {
            1nat
        } else {
            0nat
        }
    }
}

/// The `exact` bucket: positions where guess and reference agree.
pub open spec fn exact_cnt(a: Seq<u32>, b: Seq<u32>) -> nat {
    exact_upto(a, b, a.len() as int)
}

/// Among the first `n` positions, how often symbol `v` stands in `a` at a
/// position where `a` and `b` disagree.
pub open spec fn val_cnt_upto(a: Seq<u32>, b: Seq<u32>, v: u32, n: int) -> nat
    decreases n,
{
    if n <= 0 {
        0
    } else {
        val_cnt_upto(a, b, v, n - 1) + if a[n - 1] == v && a[n - 1] != b[n - 1] {
            1nat
        } else {
            0nat
        }
    }
}

pub open spec fn min_nat(x: nat, y: nat) -> nat {
    if x <= y {
        x
    } else {
        y
    }
}

/// Sum, over the symbol values `1..=p`, of the minimum of the two per-value
/// counts of unmatched positions.
pub open spec fn min_sum_upto(a: Seq<u32>, b: Seq<u32>, p: int) -> nat
    decreases p,
{
    if p <= 0 {
        0
    } else {
        min_sum_upto(a, b, p - 1) + min_nat(
            val_cnt_upto(a, b, p as u32, a.len() as int),
            val_cnt_upto(b, a, p as u32, b.len() as int),
        )
    }
}

/// The `exist` bucket: symbols present in both sequences but misplaced,
/// counted with multiset semantics over the pool `1..=pool_size`.
pub open spec fn exist_cnt(a: Seq<u32>, b: Seq<u32>, pool_size: u32) -> nat {
    min_sum_upto(a, b, pool_size as int)
}

/// The recorded hint `h` is exactly what scoring `g` against `c` yields.
pub open spec fn hint_matches(g: Seq<u32>, c: Seq<u32>, pool_size: u32, h: Hint) -> bool {
    &&& h.exact == exact_cnt(g, c)
    &&& h.exist == exist_cnt(g, c, pool_size)
    &&& h.exact + h.exist + h.null == g.len()
}

/// Sum, over the symbol values `1..=p`, of the per-value counts of unmatched
/// positions among the first `n`, on the side of `a`.
pub open spec fn val_sum_upto(a: Seq<u32>, b: Seq<u32>, p: int, n: int) -> nat
    decreases p,
{
    if p <= 0 {
        0
    } else {
        val_sum_upto(a, b, p - 1, n) + val_cnt_upto(a, b, p as u32, n)
    }
}

pub proof fn lemma_exact_upto_le(a: Seq<u32>, b: Seq<u32>, n: int)
    requires
        n >= 0,
    ensures
        exact_upto(a, b, n) <= n,
    decreases n,
{
    if n > 0 {
        lemma_exact_upto_le(a, b, n - 1);
    }
}

/// Peeling position `n - 1` off the whole per-value sum adds one exactly when
/// that position is a mismatch whose symbol lies in `1..=p`.
proof fn lemma_val_sum_step(a: Seq<u32>, b: Seq<u32>, p: int, n: int)
    requires
        n >= 1,
        p <= u32::MAX as int,
    ensures
        val_sum_upto(a, b, p, n) == val_sum_upto(a, b, p, n - 1) + if 1 <= a[n - 1] as int <= p
            && a[n - 1] != b[n - 1] {
            1nat
        } else {
            0nat
        },
    decreases p,
{
    if p > 0 {
        lemma_val_sum_step(a, b, p - 1, n);
    }
}

proof fn lemma_val_sum_empty(a: Seq<u32>, b: Seq<u32>, p: int)
    ensures
        val_sum_upto(a, b, p, 0) == 0,
    decreases p,
{
    if p > 0 {
        lemma_val_sum_empty(a, b, p - 1);
    }
}

/// Every one of the first `n` positions is either an exact match or counted
/// under exactly one symbol value of `1..=p`: the per-value sums and the
/// exact matches together account for all `n` positions.
proof fn lemma_val_sum_total(a: Seq<u32>, b: Seq<u32>, p: int, n: int)
    requires
        0 <= n <= a.len(),
        0 <= p <= u32::MAX as int,
        forall|i: int| 0 <= i < n ==> 1 <= #[trigger] a[i] as int <= p,
    ensures
        val_sum_upto(a, b, p, n) + exact_upto(a, b, n) == n,
    decreases n,
{
    if n > 0 {
        lemma_val_sum_total(a, b, p, n - 1);
        lemma_val_sum_step(a, b, p, n);
        assert(1 <= a[n - 1] as int <= p);
    } else {
        lemma_val_sum_empty(a, b, p);
    }
}

pub proof fn lemma_min_sum_le_val_sum(a: Seq<u32>, b: Seq<u32>, p: int)
    ensures
        min_sum_upto(a, b, p) <= val_sum_upto(a, b, p, a.len() as int),
    decreases p,
{
    if p > 0 {
        lemma_min_sum_le_val_sum(a, b, p - 1);
    }
}

pub proof fn lemma_val_sum_mono(a: Seq<u32>, b: Seq<u32>, p1: int, p2: int, n: int)
    requires
        p1 <= p2,
    ensures
        val_sum_upto(a, b, p1, n) <= val_sum_upto(a, b, p2, n),
    decreases p2 - p1,
{
    if p1 < p2 {
        lemma_val_sum_mono(a, b, p1, p2 - 1, n);
    }
}

/// The three buckets of a score always fit inside the sequence length: the
/// `exact` and `exist` counts sum to at most `a.len()`, so every component of
/// a hint is non-negative and the triple sums to the length.
pub proof fn lemma_score_bounds(a: Seq<u32>, b: Seq<u32>, pool_size: u32)
    requires
        a.len() == b.len(),
        seq_ok(a, a.len(), pool_size),
    ensures
        exact_cnt(a, b) <= a.len(),
        exact_cnt(a, b) + exist_cnt(a, b, pool_size) <= a.len(),
{
    lemma_exact_upto_le(a, b, a.len() as int);
    lemma_min_sum_le_val_sum(a, b, pool_size as int);
    lemma_val_sum_total(a, b, pool_size as int, a.len() as int);
}

proof fn lemma_exact_upto_self(a: Seq<u32>, n: int)
    requires
        0 <= n <= a.len(),
    ensures
        exact_upto(a, a, n) == n,
    decreases n,
{
    if n > 0 {
        lemma_exact_upto_self(a, n - 1);
    }
}

proof fn lemma_val_cnt_upto_self(a: Seq<u32>, v: u32, n: int)
    requires
        n >= 0,
    ensures
        val_cnt_upto(a, a, v, n) == 0,
    decreases n,
{
    if n > 0 {
        lemma_val_cnt_upto_self(a, v, n - 1);
    }
}

proof fn lemma_min_sum_self(a: Seq<u32>, p: int)
    ensures
        min_sum_upto(a, a, p) == 0,
    decreases p,
{
    if p > 0 {
        lemma_min_sum_self(a, p - 1);
        lemma_val_cnt_upto_self(a, (p as u32), a.len() as int);
    }
}

/// Scoring any sequence against itself yields the all-exact hint: every
/// position agrees and nothing is misplaced, so the score is
/// `(exact = length, exist = 0, null = 0)`.
pub proof fn lemma_score_self(a: Seq<u32>, pool_size: u32)
    ensures
        exact_cnt(a, a) == a.len(),
        exist_cnt(a, a, pool_size) == 0,
{
    lemma_exact_upto_self(a, a.len() as int);
    lemma_min_sum_self(a, pool_size as int);
}

proof fn lemma_exact_upto_full(a: Seq<u32>, b: Seq<u32>, n: int)
    requires
        0 <= n <= a.len(),
        exact_upto(a, b, n) == n,
    ensures
        forall|i: int| 0 <= i < n ==> a[i] == b[i],
    decreases n,
{
    if n > 0 {
        lemma_exact_upto_le(a, b, n - 1);
        lemma_exact_upto_full(a, b, n - 1);
    }
}

/// A fully exact score identifies the reference: if every position agrees,
/// the two sequences are equal.
pub proof fn lemma_exact_full_eq(a: Seq<u32>, b: Seq<u32>)
    requires
        a.len() == b.len(),
        exact_cnt(a, b) == a.len(),
    ensures
        a == b,
{
    lemma_exact_upto_full(a, b, a.len() as int);
    assert(a =~= b);
}

/// Copy a sequence of symbols into a fresh vector with the same contents.
pub fn clone_set(s: &Vec<u32>) -> (r: Vec<u32>)
    ensures
        r@ == s@,
{
    let mut r: Vec<u32> = Vec::new();
    let mut i: usize = 0;
    while i < s.len()
        invariant
            i <= s@.len(),
            r@ == s@.subrange(0, i as int),
        decreases s@.len() - i,
    {
        r.push(s[i]);
        proof {
            assert(r@ =~= s@.subrange(0, i + 1));
        }
        i = i + 1;
    }
    proof {
        assert(s@.subrange(0, s@.len() as int) =~= s@);
    }
    r
}

/// Score one guess against one reference sequence of the same length.
///
/// `exact` is found by direct positional comparison. For `exist`, the
/// unmatched positions of each side are counted per symbol value, and the
/// minima of the two counts are summed over the pool, so a symbol appearing
/// twice in the guess and once in the reference contributes at most once.
/// `null` is the remainder; the three buckets partition the length, with no
/// double counting.
pub fn score(guess: &Vec<u32>, reference: &Vec<u32>, pool_size: u32) -> (r: Hint)
    requires
        guess@.len() == reference@.len(),
        seq_ok(guess@, guess@.len(), pool_size),
        seq_ok(reference@, reference@.len(), pool_size),
        pool_size as int + 1 <= usize::MAX as int,
    ensures
        hint_matches(guess@, reference@, pool_size, r),
        r.exact + r.exist + r.null == guess@.len(),
{
    let n = guess.len();
    let mut exact: usize = 0;
    let mut i: usize = 0;
    while i < n
        invariant
            i <= n,
            n == guess@.len(),
            n == reference@.len(),
            exact == exact_upto(guess@, reference@, i as int),
            exact <= i,
        decreases n - i,
    {
        if guess[i] == reference[i] {
            exact = exact + 1;
        }
        i = i + 1;
    }
    let psz = pool_size as usize;
    let mut cnt_g: Vec<usize> = Vec::new();
    let mut cnt_r: Vec<usize> = Vec::new();
    let mut v: usize = 0;
    while v <= psz
        invariant
            v <= psz + 1,
            psz == pool_size as usize,
            psz + 1 <= usize::MAX,
            cnt_g@.len() == v,
            cnt_r@.len() == v,
            forall|w: int| 0 <= w < v ==> cnt_g@[w] == 0 && cnt_r@[w] == 0,
        decreases psz + 1 - v,
    {
        cnt_g.push(0);
        cnt_r.push(0);
        v = v + 1;
    }
    let mut i: usize = 0;
    while i < n
        invariant
            i <= n,
            n == guess@.len(),
            n == reference@.len(),
            seq_ok(guess@, n as nat, pool_size),
            seq_ok(reference@, n as nat, pool_size),
            psz == pool_size as usize,
            cnt_g@.len() == psz + 1,
            cnt_r@.len() == psz + 1,
            forall|w: int|
                1 <= w <= psz ==> #[trigger] cnt_g@[w] == val_cnt_upto(
                    guess@,
                    reference@,
                    w as u32,
                    i as int,
                ),
            forall|w: int|
                1 <= w <= psz ==> #[trigger] cnt_r@[w] == val_cnt_upto(
                    reference@,
                    guess@,
                    w as u32,
                    i as int,
                ),
            forall|w: int| 1 <= w <= psz ==> cnt_g@[w] <= i && cnt_r@[w] <= i,
        decreases n - i,
    {
        if guess[i] != reference[i] {
            let gv = guess[i] as usize;
            let prev_g = cnt_g[gv];
            cnt_g.set(gv, prev_g + 1);
            let rv = reference[i] as usize;
            let prev_r = cnt_r[rv];
            cnt_r.set(rv, prev_r + 1);
        }
        i = i + 1;
    }
    let mut exist: usize = 0;
    let mut v: usize = 1;
    while v <= psz
        invariant
            1 <= v <= psz + 1,
            psz + 1 <= usize::MAX,
            n == guess@.len(),
            n == reference@.len(),
            seq_ok(guess@, n as nat, pool_size),
            seq_ok(reference@, n as nat, pool_size),
            psz == pool_size as usize,
            cnt_g@.len() == psz + 1,
            cnt_r@.len() == psz + 1,
            exact == exact_cnt(guess@, reference@),
            forall|w: int|
                1 <= w <= psz ==> #[trigger] cnt_g@[w] == val_cnt_upto(
                    guess@,
                    reference@,
                    w as u32,
                    n as int,
                ),
            forall|w: int|
                1 <= w <= psz ==> #[trigger] cnt_r@[w] == val_cnt_upto(
                    reference@,
                    guess@,
                    w as u32,
                    n as int,
                ),
            exist == min_sum_upto(guess@, reference@, v as int - 1),
            exact + exist <= n,
        decreases psz + 1 - v,
    {
        let m = if cnt_g[v] <= cnt_r[v] {
            cnt_g[v]
        } else {
            cnt_r[v]
        };
        proof {
            lemma_min_sum_le_val_sum(guess@, reference@, v as int);
            lemma_val_sum_mono(guess@, reference@, v as int, psz as int, n as int);
            lemma_val_sum_total(guess@, reference@, psz as int, n as int);
            lemma_exact_upto_le(guess@, reference@, n as int);
        }
        exist = exist + m;
        v = v + 1;
    }
    proof {
        lemma_score_bounds(guess@, reference@, pool_size);
    }
    let null = n - exact - exist;
    Hint { exact, exist, null }
}

} // verus!
