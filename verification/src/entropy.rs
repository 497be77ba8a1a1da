//! The entropy selector: score each candidate guess by the information the
//! observed hint would yield about the hidden sequence, and select the best.
//!
//! For a guess `g`, the current candidates are partitioned by the hint each
//! of them would produce when scored against `g`. Writing `k` for a
//! partition's size and `n` for the candidate count, the expected information
//! of `g` is `-sum (k/n) * log2(k/n)` bits. To stay within exact integer
//! arithmetic the library works with the equivalent scaled weight
//! `sum k * (log2s(n) - log2s(k))`, where `log2s(m) = floor(log2(m^8))` is a
//! base-2 logarithm in units of one eighth of a bit: the weight is `8 * n`
//! times the entropy, up to the fixed-point rounding, is exactly comparable
//! between guesses over the same candidate set, and is deterministic. The
//! weight is non-negative and at most `n * log2s(n)`, the scaled form of the
//! bound `entropy <= log2(n)`.

use vstd::prelude::*;

use crate::checks::exact_cnt;
use crate::checks::exist_cnt;
use crate::checks::seq_ok;
use crate::checks::score;
use crate::checks::clone_set;
use vstd::arithmetic::power::pow;
use vstd::arithmetic::power::lemma_pow_adds;
use vstd::arithmetic::power::lemma_pow1;
use vstd::arithmetic::power2::pow2;
use vstd::arithmetic::power2::lemma_pow2;
use vstd::arithmetic::power2::lemma_pow2_adds;
use vstd::arithmetic::power2::lemma2_to64;
use vstd::arithmetic::power2::lemma2_to64_rest;
use vstd::arithmetic::logarithm::log;
use vstd::arithmetic::logarithm::lemma_log0;
use vstd::arithmetic::logarithm::lemma_log_s;
use vstd::arithmetic::logarithm::lemma_log_nonnegative;
use vstd::arithmetic::logarithm::lemma_log_is_ordered;

verus! {

/// The fixed-point base-2 logarithm of `n`, in units of one eighth of a bit:
/// `floor(log2(n^8))`.
pub open spec fn log2_scaled_spec(n: nat) -> int {
    log(2, pow(n as int, 8))
}

/// Raising to a fixed power preserves order of non-negative bases.
proof fn lemma_pow_base_mono(a: int, b: int, e: nat)
    requires
        0 <= a <= b,
    ensures
        0 <= pow(a, e) <= pow(b, e),
    decreases e,
{
    reveal(pow);
    if e > 0 {
        lemma_pow_base_mono(a, b, (e - 1) as nat);
        assert(a * pow(a, (e - 1) as nat) <= b * pow(b, (e - 1) as nat)) by (nonlinear_arith)
            requires
                0 <= a <= b,
                0 <= pow(a, (e - 1) as nat) <= pow(b, (e - 1) as nat),
        {
        }
        assert(0 <= a * pow(a, (e - 1) as nat)) by (nonlinear_arith)
            requires
                0 <= a,
                0 <= pow(a, (e - 1) as nat),
        {
        }
    }
}

/// The scaled logarithm is non-negative and monotone.
pub proof fn lemma_log2_scaled_mono(a: nat, b: nat)
    requires
        1 <= a <= b,
    ensures
        0 <= log2_scaled_spec(a) <= log2_scaled_spec(b),
{
    lemma_pow_base_mono(1, a as int, 8);
    lemma_pow_base_mono(a as int, b as int, 8);
    assert(pow(1, 8) == 1) by {
        vstd::arithmetic::power::lemma1_pow(8);
    }
    lemma_log_nonnegative(2, pow(a as int, 8));
    lemma_log_is_ordered(2, pow(a as int, 8), pow(b as int, 8));
}

/// `log2(x) <= k - 1` whenever `x < 2^k`.
proof fn lemma_log2_bound(x: int, k: nat)
    requires
        1 <= x,
        k >= 1,
        x < pow(2, k),
    ensures
        log(2, x) <= k - 1,
    decreases k,
{
    reveal(pow);
    if x < 2 {
        lemma_log0(2, x);
    } else {
        assert(pow(2, k) == 2 * pow(2, (k - 1) as nat));
        assert(k >= 2) by {
            if k == 1 {
                assert(pow(2, 1nat) == 2 * pow(2, 0nat));
                assert(pow(2, 0nat) == 1);
            }
        }
        lemma_log_s(2, x);
        assert(x / 2 < pow(2, (k - 1) as nat)) by {
            vstd::arithmetic::div_mod::lemma_multiply_divide_lt(x, 2, pow(2, (k - 1) as nat));
        }
        lemma_log2_bound(x / 2, (k - 1) as nat);
    }
}

/// Compute the fixed-point logarithm `floor(log2(n^8))` of a candidate-set
/// size: raise to the eighth power in 128-bit arithmetic, then count halvings.
pub fn log2_scaled(n: u64) -> (r: u64)
    requires
        1 <= n <= 0xFFFF,
    ensures
        r as int == log2_scaled_spec(n as nat),
        r <= 127,
{
    let n1: u128 = n as u128;
    proof {
        assert((n1 as int) * (n1 as int) < 0x100000000) by (nonlinear_arith)
            requires
                0 <= (n1 as int) && (n1 as int) <= 0xFFFF,
        {
        }
    }
    let n2: u128 = n1 * n1;
    proof {
        assert((n2 as int) * (n2 as int) < 0x10000000000000000) by (nonlinear_arith)
            requires
                0 <= (n2 as int) && (n2 as int) < 0x100000000,
        {
        }
    }
    let n4: u128 = n2 * n2;
    proof {
        assert((n4 as int) * (n4 as int) < 0x100000000000000000000000000000000) by (nonlinear_arith)
            requires
                0 <= (n4 as int) && (n4 as int) < 0x10000000000000000,
        {
        }
    }
    let n8: u128 = n4 * n4;
    proof {
        let ni = n as int;
        assert(pow(ni, 1) == ni) by {
            lemma_pow1(ni);
        }
        lemma_pow_adds(ni, 1, 1);
        lemma_pow_adds(ni, 2, 2);
        lemma_pow_adds(ni, 4, 4);
        assert(n8 as int == pow(ni, 8));
        assert(pow(ni, 8) >= 1) by {
            lemma_pow_base_mono(1, ni, 8);
            vstd::arithmetic::power::lemma1_pow(8);
        }
        lemma_pow2_adds(64, 64);
        lemma_pow2(128);
        lemma_pow2(64);
        lemma2_to64();
        lemma2_to64_rest();
        assert(pow2(64) == 0x10000000000000000);
        assert(n8 < pow(2, 128));
        lemma_log2_bound(n8 as int, 128);
        lemma_log_nonnegative(2, n8 as int);
    }
    let mut x: u128 = n8;
    let mut c: u64 = 0;
    while x >= 2
        invariant
            x >= 1,
            log(2, pow(n as int, 8)) == c + log(2, x as int),
            c + log(2, x as int) <= 127,
            log(2, x as int) >= 0,
        decreases x,
    {
        proof {
            lemma_log_s(2, x as int);
            lemma_log_nonnegative(2, x as int / 2);
        }
        x = x / 2;
        c = c + 1;
    }
    proof {
        lemma_log0(2, x as int);
    }
    c
}

/// Among the first `n` candidates, how many would answer guess `g` with the
/// hint `(exact = e, exist = x)`.
pub open spec fn cell_cnt_upto(
    g: Seq<u32>,
    cands: Seq<Seq<u32>>,
    pool_size: u32,
    e: int,
    x: int,
    n: int,
) -> nat
    decreases n,
{
    if n <= 0 {
        0
    } else {
        cell_cnt_upto(g, cands, pool_size, e, x, n - 1) + if exact_cnt(g, cands[n - 1]) == e
            && exist_cnt(g, cands[n - 1], pool_size) == x {
            1nat
        } else {
            0nat
        }
    }
}

pub proof fn lemma_cell_cnt_le(
    g: Seq<u32>,
    cands: Seq<Seq<u32>>,
    pool_size: u32,
    e: int,
    x: int,
    n: int,
)
    requires
        n >= 0,
    ensures
        cell_cnt_upto(g, cands, pool_size, e, x, n) <= n,
    decreases n,
{
    if n > 0 {
        lemma_cell_cnt_le(g, cands, pool_size, e, x, n - 1);
    }
}

/// Sum of the cell counts of row `e` over the columns `0 .. x`.
pub open spec fn cells_x(
    g: Seq<u32>,
    cands: Seq<Seq<u32>>,
    pool_size: u32,
    e: int,
    x: int,
    n: int,
) -> nat
    decreases x,
{
    if x <= 0 {
        0
    } else {
        cells_x(g, cands, pool_size, e, x - 1, n) + cell_cnt_upto(g, cands, pool_size, e, x - 1, n)
    }
}

/// Sum of the cell counts of the rows `0 .. e`, each over the columns
/// `0 .. w`.
pub open spec fn cells_all(
    g: Seq<u32>,
    cands: Seq<Seq<u32>>,
    pool_size: u32,
    e: int,
    w: int,
    n: int,
) -> nat
    decreases e,
{
    if e <= 0 {
        0
    } else {
        cells_all(g, cands, pool_size, e - 1, w, n) + cells_x(g, cands, pool_size, e - 1, w, n)
    }
}

proof fn lemma_cells_x_step(
    g: Seq<u32>,
    cands: Seq<Seq<u32>>,
    pool_size: u32,
    e: int,
    x: int,
    n: int,
)
    requires
        n >= 1,
    ensures
        cells_x(g, cands, pool_size, e, x, n) == cells_x(g, cands, pool_size, e, x, n - 1) + if
            exact_cnt(g, cands[n - 1]) == e && 0 <= exist_cnt(g, cands[n - 1], pool_size) < x {
            1nat
        } else {
            0nat
        },
    decreases x,
{
    if x > 0 {
        lemma_cells_x_step(g, cands, pool_size, e, x - 1, n);
    }
}

proof fn lemma_cells_all_step(
    g: Seq<u32>,
    cands: Seq<Seq<u32>>,
    pool_size: u32,
    e: int,
    w: int,
    n: int,
)
    requires
        n >= 1,
    ensures
        cells_all(g, cands, pool_size, e, w, n) == cells_all(g, cands, pool_size, e, w, n - 1)
            + if 0 <= exact_cnt(g, cands[n - 1]) < e && 0 <= exist_cnt(g, cands[n - 1], pool_size)
            < w {
            1nat
        } else {
            0nat
        },
    decreases e,
{
    if e > 0 {
        lemma_cells_all_step(g, cands, pool_size, e - 1, w, n);
        lemma_cells_x_step(g, cands, pool_size, e - 1, w, n);
    }
}

proof fn lemma_cells_x_empty(g: Seq<u32>, cands: Seq<Seq<u32>>, pool_size: u32, e: int, x: int)
    ensures
        cells_x(g, cands, pool_size, e, x, 0) == 0,
    decreases x,
{
    if x > 0 {
        lemma_cells_x_empty(g, cands, pool_size, e, x - 1);
    }
}

proof fn lemma_cells_all_empty(g: Seq<u32>, cands: Seq<Seq<u32>>, pool_size: u32, e: int, w: int)
    ensures
        cells_all(g, cands, pool_size, e, w, 0) == 0,
    decreases e,
{
    if e > 0 {
        lemma_cells_all_empty(g, cands, pool_size, e - 1, w);
        lemma_cells_x_empty(g, cands, pool_size, e - 1, w);
    }
}

/// The hint cells partition the candidates: when every candidate's score
/// lands inside the `e` by `w` grid, the grid's counts sum to the number of
/// candidates.
pub proof fn lemma_cells_total(
    g: Seq<u32>,
    cands: Seq<Seq<u32>>,
    pool_size: u32,
    e: int,
    w: int,
    n: int,
)
    requires
        0 <= n <= cands.len(),
        forall|m: int|
            0 <= m < n ==> 0 <= exact_cnt(g, #[trigger] cands[m]) < e && 0 <= exist_cnt(
                g,
                cands[m],
                pool_size,
            ) < w,
    ensures
        cells_all(g, cands, pool_size, e, w, n) == n,
    decreases n,
{
    if n == 0 {
        lemma_cells_all_empty(g, cands, pool_size, e, w);
    } else {
        lemma_cells_total(g, cands, pool_size, e, w, n - 1);
        lemma_cells_all_step(g, cands, pool_size, e, w, n);
    }
}

proof fn lemma_cells_x_mono(
    g: Seq<u32>,
    cands: Seq<Seq<u32>>,
    pool_size: u32,
    e: int,
    x1: int,
    x2: int,
    n: int,
)
    requires
        x1 <= x2,
    ensures
        cells_x(g, cands, pool_size, e, x1, n) <= cells_x(g, cands, pool_size, e, x2, n),
    decreases x2 - x1,
{
    if x1 < x2 {
        lemma_cells_x_mono(g, cands, pool_size, e, x1, x2 - 1, n);
    }
}

proof fn lemma_cells_all_mono(
    g: Seq<u32>,
    cands: Seq<Seq<u32>>,
    pool_size: u32,
    e1: int,
    e2: int,
    w: int,
    n: int,
)
    requires
        e1 <= e2,
    ensures
        cells_all(g, cands, pool_size, e1, w, n) <= cells_all(g, cands, pool_size, e2, w, n),
    decreases e2 - e1,
{
    if e1 < e2 {
        lemma_cells_all_mono(g, cands, pool_size, e1, e2 - 1, w, n);
    }
}

/// The scaled information carried by one partition of size `k` out of
/// `total` candidates: `k * (log2s(total) - log2s(k))`, and nothing for an
/// empty partition.
pub open spec fn cell_term(k: nat, total: nat) -> int {
    if k == 0 {
        0
    } else {
        k * (log2_scaled_spec(total) - log2_scaled_spec(k))
    }
}

/// The scaled entropy weight of row `e`, over the columns `0 .. x`.
pub open spec fn esum_x(
    g: Seq<u32>,
    cands: Seq<Seq<u32>>,
    pool_size: u32,
    e: int,
    x: int,
) -> int
    decreases x,
{
    if x <= 0 {
        0
    } else {
        esum_x(g, cands, pool_size, e, x - 1) + cell_term(
            cell_cnt_upto(g, cands, pool_size, e, x - 1, cands.len() as int),
            cands.len(),
        )
    }
}

/// The scaled entropy weight of the rows `0 .. e`, each over the columns
/// `0 .. w`.
pub open spec fn esum_all(
    g: Seq<u32>,
    cands: Seq<Seq<u32>>,
    pool_size: u32,
    e: int,
    w: int,
) -> int
    decreases e,
{
    if e <= 0 {
        0
    } else {
        esum_all(g, cands, pool_size, e - 1, w) + esum_x(g, cands, pool_size, e - 1, w)
    }
}

/// The scaled entropy weight of a guess over a candidate set: partition the
/// candidates by the hint they would answer with, and sum
/// `k * (log2s(n) - log2s(k))` over the partitions. This is `8 * n` times the
/// expected information of the guess in bits, up to fixed-point rounding.
pub open spec fn entropy_weight(
    g: Seq<u32>,
    cands: Seq<Seq<u32>>,
    pool_size: u32,
    set_length: int,
) -> int {
    esum_all(g, cands, pool_size, set_length + 1, set_length + 1)
}

/// A single partition's term is non-negative and at most `k * log2s(total)`.
proof fn lemma_cell_term_bounds(k: nat, total: nat)
    requires
        k <= total,
        total >= 1,
    ensures
        0 <= cell_term(k, total),
        cell_term(k, total) <= k * log2_scaled_spec(total),
{
    if k >= 1 {
        lemma_log2_scaled_mono(k, total);
        let lt = log2_scaled_spec(total);
        let lk = log2_scaled_spec(k);
        assert(0 <= k * (lt - lk)) by (nonlinear_arith)
            requires
                0 <= lk <= lt,
                k >= 0,
        {
        }
        assert(k * (lt - lk) <= k * lt) by (nonlinear_arith)
            requires
                0 <= lk <= lt,
                k >= 0,
        {
        }
    } else {
        lemma_log2_scaled_mono(total, total);
        assert(0 <= 0nat * log2_scaled_spec(total));
    }
}

proof fn lemma_esum_x_bounds(g: Seq<u32>, cands: Seq<Seq<u32>>, pool_size: u32, e: int, x: int)
    requires
        cands.len() >= 1,
    ensures
        0 <= esum_x(g, cands, pool_size, e, x),
        esum_x(g, cands, pool_size, e, x) <= log2_scaled_spec(cands.len()) * cells_x(
            g,
            cands,
            pool_size,
            e,
            x,
            cands.len() as int,
        ),
    decreases x,
{
    let n = cands.len() as int;
    let lt = log2_scaled_spec(cands.len());
    if x > 0 {
        lemma_esum_x_bounds(g, cands, pool_size, e, x - 1);
        let k = cell_cnt_upto(g, cands, pool_size, e, x - 1, n);
        lemma_cell_cnt_le(g, cands, pool_size, e, x - 1, n);
        lemma_cell_term_bounds(k, cands.len());
        assert(lt * cells_x(g, cands, pool_size, e, x, n) == lt * cells_x(
            g,
            cands,
            pool_size,
            e,
            x - 1,
            n,
        ) + lt * k) by (nonlinear_arith)
            requires
                cells_x(g, cands, pool_size, e, x, n) == cells_x(g, cands, pool_size, e, x - 1, n)
                    + k,
        {
        }
        assert(k * lt == lt * k) by (nonlinear_arith) {
        }
        assert(cells_x(g, cands, pool_size, e, x, n) == cells_x(g, cands, pool_size, e, x - 1, n)
            + k);
        assert(esum_x(g, cands, pool_size, e, x) == esum_x(g, cands, pool_size, e, x - 1)
            + cell_term(k, cands.len()));
        assert(esum_x(g, cands, pool_size, e, x) <= lt * cells_x(
            g,
            cands,
            pool_size,
            e,
            x,
            n,
        ));
    } else {
        assert(esum_x(g, cands, pool_size, e, x) == 0);
        assert(cells_x(g, cands, pool_size, e, x, n) == 0);
    }
}

proof fn lemma_esum_all_bounds(g: Seq<u32>, cands: Seq<Seq<u32>>, pool_size: u32, e: int, w: int)
    requires
        cands.len() >= 1,
    ensures
        0 <= esum_all(g, cands, pool_size, e, w),
        esum_all(g, cands, pool_size, e, w) <= log2_scaled_spec(cands.len()) * cells_all(
            g,
            cands,
            pool_size,
            e,
            w,
            cands.len() as int,
        ),
    decreases e,
{
    let n = cands.len() as int;
    let lt = log2_scaled_spec(cands.len());
    if e > 0 {
        lemma_esum_all_bounds(g, cands, pool_size, e - 1, w);
        lemma_esum_x_bounds(g, cands, pool_size, e - 1, w);
        assert(lt * cells_all(g, cands, pool_size, e, w, n) == lt * cells_all(
            g,
            cands,
            pool_size,
            e - 1,
            w,
            n,
        ) + lt * cells_x(g, cands, pool_size, e - 1, w, n)) by (nonlinear_arith)
            requires
                cells_all(g, cands, pool_size, e, w, n) == cells_all(
                    g,
                    cands,
                    pool_size,
                    e - 1,
                    w,
                    n,
                ) + cells_x(g, cands, pool_size, e - 1, w, n),
        {
        }
        assert(esum_all(g, cands, pool_size, e, w) <= lt * cells_all(
            g,
            cands,
            pool_size,
            e,
            w,
            n,
        ));
    } else {
        assert(esum_all(g, cands, pool_size, e, w) == 0);
        assert(cells_all(g, cands, pool_size, e, w, n) == 0);
    }
}

/// The entropy selector's reported weight is non-negative and at most
/// `n * log2s(n)` — the scaled form of `entropy <= log2(n)` — for any guess
/// over any non-empty, well-formed candidate set.
pub proof fn lemma_entropy_weight_bounds(
    g: Seq<u32>,
    cands: Seq<Seq<u32>>,
    pool_size: u32,
    set_length: int,
)
    requires
        cands.len() >= 1,
        set_length >= 0,
        g.len() == set_length,
        seq_ok(g, set_length as nat, pool_size),
        forall|m: int|
            0 <= m < cands.len() ==> (#[trigger] cands[m]).len() == set_length && seq_ok(
                cands[m],
                set_length as nat,
                pool_size,
            ),
    ensures
        0 <= entropy_weight(g, cands, pool_size, set_length),
        entropy_weight(g, cands, pool_size, set_length) <= cands.len() * log2_scaled_spec(
            cands.len(),
        ),
{
    let n = cands.len() as int;
    let lt = log2_scaled_spec(cands.len());
    lemma_esum_all_bounds(g, cands, pool_size, set_length + 1, set_length + 1);
    assert forall|m: int|
        0 <= m < n implies 0 <= exact_cnt(g, #[trigger] cands[m]) < set_length + 1 && 0
        <= exist_cnt(g, cands[m], pool_size) < set_length + 1 by {
        crate::checks::lemma_score_bounds(g, cands[m], pool_size);
    }
    lemma_cells_total(g, cands, pool_size, set_length + 1, set_length + 1, n);
    assert(lt * cells_all(g, cands, pool_size, set_length + 1, set_length + 1, n) == n * lt)
        by (nonlinear_arith)
        requires
            cells_all(g, cands, pool_size, set_length + 1, set_length + 1, n) == n,
    {
    }
}

/// Copy a row of partition counts into a fresh vector.
fn clone_row(v: &Vec<u64>) -> (r: Vec<u64>)
    ensures
        r@ == v@,
{
    let mut r: Vec<u64> = Vec::new();
    let mut i: usize = 0;
    while i < v.len()
        invariant
            i <= v@.len(),
            r@ == v@.subrange(0, i as int),
        decreases v@.len() - i,
    {
        r.push(v[i]);
        proof {
            assert(r@ =~= v@.subrange(0, i + 1));
        }
        i = i + 1;
    }
    proof {
        assert(v@.subrange(0, v@.len() as int) =~= v@);
    }
    r
}

/// The scaled entropy weight of one guess over the current candidate set:
/// partition the candidates by the hint they would answer with, then sum
/// `k * (log2s(n) - log2s(k))` over the non-empty partitions. The result is
/// `8 * n` times the guess's expected information in bits, up to fixed-point
/// rounding; it is non-negative and at most `n * log2s(n)`.
pub fn set_entropy(
    guess: &Vec<u32>,
    candidates: &Vec<Vec<u32>>,
    set_length: usize,
    pool_size: u32,
) -> (r: u64)
    requires
        pool_size >= 1,
        pool_size as int + 1 <= usize::MAX as int,
        set_length as int + 1 <= usize::MAX as int,
        seq_ok(guess@, set_length as nat, pool_size),
        forall|m: int|
            0 <= m < candidates@.len() ==> seq_ok(
                (#[trigger] candidates@[m])@,
                set_length as nat,
                pool_size,
            ),
        1 <= candidates@.len() <= 0xFFFF,
    ensures
        r as int == entropy_weight(
            guess@,
            candidates.deep_view(),
            pool_size,
            set_length as int,
        ),
        r as int <= candidates@.len() * log2_scaled_spec(candidates@.len() as nat),
{
    let ghost deep = candidates.deep_view();
    proof {
        assert(deep.len() == candidates@.len());
        assert(forall|m: int| 0 <= m < deep.len() ==> #[trigger] deep[m] == candidates@[m]@);
    }
    let l1 = set_length + 1;
    let mut counts: Vec<Vec<u64>> = Vec::new();
    let mut e: usize = 0;
    while e < l1
        invariant
            e <= l1,
            counts@.len() == e,
            forall|a: int| 0 <= a < e ==> (#[trigger] counts@[a])@.len() == l1,
            forall|a: int, b: int|
                0 <= a < e && 0 <= b < l1 ==> #[trigger] counts@[a]@[b] == 0,
        decreases l1 - e,
    {
        let mut row: Vec<u64> = Vec::new();
        let mut x: usize = 0;
        while x < l1
            invariant
                x <= l1,
                row@.len() == x,
                forall|b: int| 0 <= b < x ==> row@[b] == 0,
            decreases l1 - x,
        {
            row.push(0);
            x = x + 1;
        }
        counts.push(row);
        e = e + 1;
    }
    let n = candidates.len();
    let mut i: usize = 0;
    while i < n
        invariant
            i <= n,
            n == candidates@.len(),
            1 <= n <= 0xFFFF,
            l1 == set_length + 1,
            set_length as int + 1 <= usize::MAX as int,
            pool_size >= 1,
            pool_size as int + 1 <= usize::MAX as int,
            deep == candidates.deep_view(),
            deep.len() == n as int,
            forall|m: int| 0 <= m < deep.len() ==> #[trigger] deep[m] == candidates@[m]@,
            seq_ok(guess@, set_length as nat, pool_size),
            forall|m: int|
                0 <= m < candidates@.len() ==> seq_ok(
                    (#[trigger] candidates@[m])@,
                    set_length as nat,
                    pool_size,
                ),
            counts@.len() == l1,
            forall|a: int| 0 <= a < l1 ==> (#[trigger] counts@[a])@.len() == l1,
            forall|a: int, b: int|
                0 <= a < l1 && 0 <= b < l1 ==> #[trigger] counts@[a]@[b] == cell_cnt_upto(
                    guess@,
                    deep,
                    pool_size,
                    a,
                    b,
                    i as int,
                ),
        decreases n - i,
    {
        let h = score(guess, &candidates[i], pool_size);
        let he = h.exact;
        let hx = h.exist;
        let ghost old_counts = counts@;
        let mut new_row = clone_row(&counts[he]);
        let prev_v = new_row[hx];
        proof {
            lemma_cell_cnt_le(guess@, deep, pool_size, he as int, hx as int, i as int);
        }
        new_row.set(hx, prev_v + 1);
        counts.set(he, new_row);
        proof {
            assert(deep[i as int] == candidates@[i as int]@);
            assert(exact_cnt(guess@, deep[i as int]) == he as int);
            assert(exist_cnt(guess@, deep[i as int], pool_size) == hx as int);
            assert forall|a: int, b: int|
                0 <= a < l1 && 0 <= b < l1 implies #[trigger] counts@[a]@[b] == cell_cnt_upto(
                guess@,
                deep,
                pool_size,
                a,
                b,
                i as int + 1,
            ) by {
                if a == he as int {
                    if b == hx as int {
                        assert(counts@[a]@[b] == old_counts[a]@[b] + 1);
                    } else {
                        assert(counts@[a]@[b] == old_counts[a]@[b]);
                    }
                } else {
                    assert(counts@[a] == old_counts[a]);
                }
            }
        }
        i = i + 1;
    }
    let total: u64 = n as u64;
    let ln = log2_scaled(total);
    let ghost lt = log2_scaled_spec(candidates@.len() as nat);
    proof {
        assert(ln as int == lt);
        assert forall|m: int|
            0 <= m < deep.len() implies 0 <= exact_cnt(guess@, #[trigger] deep[m]) < l1 as int && 0
            <= exist_cnt(guess@, deep[m], pool_size) < l1 as int by {
            crate::checks::lemma_score_bounds(guess@, deep[m], pool_size);
        }
        lemma_cells_total(guess@, deep, pool_size, l1 as int, l1 as int, n as int);
    }
    let mut sum: u64 = 0;
    let mut e: usize = 0;
    while e < l1
        invariant
            e <= l1,
            n == candidates@.len(),
            1 <= n <= 0xFFFF,
            total == n as u64,
            l1 == set_length + 1,
            deep.len() == n as int,
            lt == log2_scaled_spec(candidates@.len() as nat),
            ln as int == lt,
            ln <= 127,
            counts@.len() == l1,
            forall|a: int| 0 <= a < l1 ==> (#[trigger] counts@[a])@.len() == l1,
            forall|a: int, b: int|
                0 <= a < l1 && 0 <= b < l1 ==> #[trigger] counts@[a]@[b] == cell_cnt_upto(
                    guess@,
                    deep,
                    pool_size,
                    a,
                    b,
                    n as int,
                ),
            cells_all(guess@, deep, pool_size, l1 as int, l1 as int, n as int) == n as int,
            sum as int == esum_all(guess@, deep, pool_size, e as int, l1 as int),
        decreases l1 - e,
    {
        let mut x: usize = 0;
        while x < l1
            invariant
                x <= l1,
                e < l1,
                n == candidates@.len(),
                1 <= n <= 0xFFFF,
                total == n as u64,
                l1 == set_length + 1,
                deep.len() == n as int,
                lt == log2_scaled_spec(candidates@.len() as nat),
                ln as int == lt,
                ln <= 127,
                counts@.len() == l1,
                forall|a: int| 0 <= a < l1 ==> (#[trigger] counts@[a])@.len() == l1,
                forall|a: int, b: int|
                    0 <= a < l1 && 0 <= b < l1 ==> #[trigger] counts@[a]@[b] == cell_cnt_upto(
                        guess@,
                        deep,
                        pool_size,
                        a,
                        b,
                        n as int,
                    ),
                cells_all(guess@, deep, pool_size, l1 as int, l1 as int, n as int) == n as int,
                sum as int == esum_all(guess@, deep, pool_size, e as int, l1 as int) + esum_x(
                    guess@,
                    deep,
                    pool_size,
                    e as int,
                    x as int,
                ),
            decreases l1 - x,
        {
            let row = &counts[e];
            let k = row[x];
            proof {
                assert(k as int == cell_cnt_upto(guess@, deep, pool_size, e as int, x as int, n as int));
                lemma_cell_cnt_le(guess@, deep, pool_size, e as int, x as int, n as int);
            }
            if k > 0 {
                let lk = log2_scaled(k);
                proof {
                    lemma_log2_scaled_mono(k as nat, candidates@.len());
                    assert(lk as int <= ln as int);
                    assert((k as int) * (ln as int - lk as int) <= 0xFFFF * 127)
                        by (nonlinear_arith)
                        requires
                            0 <= (k as int) <= 0xFFFF,
                            0 <= (ln as int - lk as int) <= 127,
                    {
                    }
                    lemma_esum_all_bounds(guess@, deep, pool_size, e as int, l1 as int);
                    lemma_esum_x_bounds(guess@, deep, pool_size, e as int, x as int + 1);
                    lemma_cells_x_mono(
                        guess@,
                        deep,
                        pool_size,
                        e as int,
                        x as int + 1,
                        l1 as int,
                        n as int,
                    );
                    lemma_cells_all_mono(
                        guess@,
                        deep,
                        pool_size,
                        e as int + 1,
                        l1 as int,
                        l1 as int,
                        n as int,
                    );
                    let ca = cells_all(guess@, deep, pool_size, e as int, l1 as int, n as int);
                    let cx = cells_x(guess@, deep, pool_size, e as int, x as int + 1, n as int);
                    let cw = cells_x(guess@, deep, pool_size, e as int, l1 as int, n as int);
                    assert(cells_all(guess@, deep, pool_size, e as int + 1, l1 as int, n as int)
                        == ca + cw);
                    assert(lt * ca + lt * cx <= lt * (n as int)) by (nonlinear_arith)
                        requires
                            0 <= lt,
                            0 <= ca,
                            0 <= cx <= cw,
                            ca + cw <= n as int,
                    {
                    }
                    assert(lt * (n as int) <= 127 * 0xFFFF) by (nonlinear_arith)
                        requires
                            0 <= lt <= 127,
                            0 <= (n as int) <= 0xFFFF,
                    {
                    }
                    assert(cell_term(k as nat, candidates@.len()) == (k as int) * (ln as int
                        - lk as int));
                }
                sum = sum + k * (ln - lk);
            } else {
                proof {
                    assert(cell_term(k as nat, candidates@.len()) == 0);
                }
            }
            x = x + 1;
        }
        e = e + 1;
    }
    proof {
        assert(sum as int == entropy_weight(guess@, deep, pool_size, set_length as int));
        lemma_entropy_weight_bounds(guess@, deep, pool_size, set_length as int);
    }
    sum
}

/// Pair every guess of the pool with its scaled entropy weight over the
/// current candidate set, in the pool's order.
pub fn all_set_entropy(
    guess_pool: &Vec<Vec<u32>>,
    candidates: &Vec<Vec<u32>>,
    set_length: usize,
    pool_size: u32,
) -> (r: Vec<(Vec<u32>, u64)>)
    requires
        pool_size >= 1,
        pool_size as int + 1 <= usize::MAX as int,
        set_length as int + 1 <= usize::MAX as int,
        forall|m: int|
            0 <= m < guess_pool@.len() ==> seq_ok(
                (#[trigger] guess_pool@[m])@,
                set_length as nat,
                pool_size,
            ),
        forall|m: int|
            0 <= m < candidates@.len() ==> seq_ok(
                (#[trigger] candidates@[m])@,
                set_length as nat,
                pool_size,
            ),
        1 <= candidates@.len() <= 0xFFFF,
    ensures
        r@.len() == guess_pool@.len(),
        forall|m: int|
            0 <= m < r@.len() ==> (#[trigger] r@[m]).0@ == guess_pool@[m]@ && r@[m].1 as int
                == entropy_weight(
                guess_pool@[m]@,
                candidates.deep_view(),
                pool_size,
                set_length as int,
            ),
{
    let mut r: Vec<(Vec<u32>, u64)> = Vec::new();
    let mut m: usize = 0;
    while m < guess_pool.len()
        invariant
            m <= guess_pool@.len(),
            pool_size >= 1,
            pool_size as int + 1 <= usize::MAX as int,
            set_length as int + 1 <= usize::MAX as int,
            forall|j: int|
                0 <= j < guess_pool@.len() ==> seq_ok(
                    (#[trigger] guess_pool@[j])@,
                    set_length as nat,
                    pool_size,
                ),
            forall|j: int|
                0 <= j < candidates@.len() ==> seq_ok(
                    (#[trigger] candidates@[j])@,
                    set_length as nat,
                    pool_size,
                ),
            1 <= candidates@.len() <= 0xFFFF,
            r@.len() == m,
            forall|j: int|
                0 <= j < m ==> (#[trigger] r@[j]).0@ == guess_pool@[j]@ && r@[j].1 as int
                    == entropy_weight(
                    guess_pool@[j]@,
                    candidates.deep_view(),
                    pool_size,
                    set_length as int,
                ),
        decreases guess_pool@.len() - m,
    {
        let ent = set_entropy(&guess_pool[m], candidates, set_length, pool_size);
        let g = clone_set(&guess_pool[m]);
        r.push((g, ent));
        m = m + 1;
    }
    r
}

/// The guesses of `s` whose recorded weight equals `best`, in order.
pub open spec fn winners_upto(s: Seq<(Vec<u32>, u64)>, best: u64, n: int) -> Seq<Seq<u32>>
    decreases n,
{
    if n <= 0 {
        Seq::empty()
    } else {
        let rest = winners_upto(s, best, n - 1);
        if s[n - 1].1 == best {
            rest.push(s[n - 1].0@)
        } else {
            rest
        }
    }
}

proof fn lemma_winners_member(s: Seq<(Vec<u32>, u64)>, best: u64, n: int, m: int)
    requires
        0 <= m < n <= s.len(),
        s[m].1 == best,
    ensures
        winners_upto(s, best, n).len() >= 1,
    decreases n,
{
    if m < n - 1 {
        lemma_winners_member(s, best, n - 1, m);
    }
}

/// Guess `g` stands somewhere among the first `n` entries, recorded with the
/// weight `best`.
pub open spec fn is_winner_upto(s: Seq<(Vec<u32>, u64)>, best: u64, g: Seq<u32>, n: int) -> bool {
    exists|m: int| 0 <= m < n && (#[trigger] s[m]).1 == best && s[m].0@ == g
}

proof fn lemma_winners_elements(s: Seq<(Vec<u32>, u64)>, best: u64, n: int)
    requires
        n <= s.len(),
    ensures
        forall|w: int|
            0 <= w < winners_upto(s, best, n).len() ==> is_winner_upto(
                s,
                best,
                #[trigger] winners_upto(s, best, n)[w],
                n,
            ),
    decreases n,
{
    if n > 0 {
        lemma_winners_elements(s, best, n - 1);
        let rest = winners_upto(s, best, n - 1);
        let whole = winners_upto(s, best, n);
        assert forall|w: int|
            0 <= w < whole.len() implies is_winner_upto(s, best, #[trigger] whole[w], n) by {
            if w < rest.len() {
                assert(whole[w] == rest[w]);
                assert(is_winner_upto(s, best, rest[w], n - 1));
                let m = choose|m: int|
                    0 <= m < n - 1 && (#[trigger] s[m]).1 == best && s[m].0@ == rest[w];
                assert(0 <= m < n && s[m].1 == best && s[m].0@ == whole[w]);
            } else {
                assert(whole[w] == s[n - 1].0@);
                assert(s[n - 1].1 == best);
            }
        }
    }
}

/// Select every guess tied for the highest recorded weight, in order,
/// together with that weight. Ties are strategically interchangeable; the
/// first entry is the deterministic choice.
pub fn max_entropy(entropies: &Vec<(Vec<u32>, u64)>) -> (r: (Vec<Vec<u32>>, u64))
    requires
        entropies@.len() >= 1,
    ensures
        forall|m: int| 0 <= m < entropies@.len() ==> (#[trigger] entropies@[m]).1 <= r.1,
        exists|m: int| 0 <= m < entropies@.len() && (#[trigger] entropies@[m]).1 == r.1,
        r.0.deep_view() == winners_upto(entropies@, r.1, entropies@.len() as int),
        forall|w: int|
            0 <= w < r.0@.len() ==> is_winner_upto(
                entropies@,
                r.1,
                (#[trigger] r.0@[w])@,
                entropies@.len() as int,
            ),
        r.0@.len() >= 1,
{
    let mut best: u64 = entropies[0].1;
    let mut i: usize = 1;
    while i < entropies.len()
        invariant
            1 <= i <= entropies@.len(),
            forall|m: int| 0 <= m < i ==> (#[trigger] entropies@[m]).1 <= best,
            exists|m: int| 0 <= m < i && (#[trigger] entropies@[m]).1 == best,
        decreases entropies@.len() - i,
    {
        if entropies[i].1 > best {
            best = entropies[i].1;
        }
        i = i + 1;
    }
    let mut winners: Vec<Vec<u32>> = Vec::new();
    let mut i: usize = 0;
    while i < entropies.len()
        invariant
            i <= entropies@.len(),
            winners.deep_view() == winners_upto(entropies@, best, i as int),
            winners@.len() == winners.deep_view().len(),
        decreases entropies@.len() - i,
    {
        let ghost prev = winners.deep_view();
        if entropies[i].1 == best {
            winners.push(clone_set(&entropies[i].0));
            proof {
                assert(winners.deep_view() =~~= prev.push(entropies@[i as int].0@));
            }
        }
        i = i + 1;
    }
    proof {
        let m = choose|m: int|
            0 <= m < entropies@.len() && (#[trigger] entropies@[m]).1 == best;
        lemma_winners_member(entropies@, best, entropies@.len() as int, m);
        lemma_winners_elements(entropies@, best, entropies@.len() as int);
        assert forall|w: int|
            0 <= w < winners@.len() implies is_winner_upto(
            entropies@,
            best,
            (#[trigger] winners@[w])@,
            entropies@.len() as int,
        ) by {
            assert(winners.deep_view()[w] == winners@[w]@);
            assert(winners.deep_view()[w] == winners_upto(
                entropies@,
                best,
                entropies@.len() as int,
            )[w]);
        }
    }
    (winners, best)
}

/// The entropy selector's contract: over a guess pool and the current
/// candidate set, return every guess tied for the highest scaled entropy
/// weight, in the pool's order, together with that weight. The weight is
/// non-negative and at most `n * log2s(n)` for `n` candidates.
pub fn best_guess(
    guess_pool: &Vec<Vec<u32>>,
    candidates: &Vec<Vec<u32>>,
    set_length: usize,
    pool_size: u32,
) -> (r: (Vec<Vec<u32>>, u64))
    requires
        pool_size >= 1,
        pool_size as int + 1 <= usize::MAX as int,
        set_length as int + 1 <= usize::MAX as int,
        guess_pool@.len() >= 1,
        forall|m: int|
            0 <= m < guess_pool@.len() ==> seq_ok(
                (#[trigger] guess_pool@[m])@,
                set_length as nat,
                pool_size,
            ),
        forall|m: int|
            0 <= m < candidates@.len() ==> seq_ok(
                (#[trigger] candidates@[m])@,
                set_length as nat,
                pool_size,
            ),
        1 <= candidates@.len() <= 0xFFFF,
    ensures
        r.0@.len() >= 1,
        forall|m: int|
            0 <= m < guess_pool@.len() ==> entropy_weight(
                (#[trigger] guess_pool@[m])@,
                candidates.deep_view(),
                pool_size,
                set_length as int,
            ) <= r.1 as int,
        exists|m: int|
            0 <= m < guess_pool@.len() && entropy_weight(
                (#[trigger] guess_pool@[m])@,
                candidates.deep_view(),
                pool_size,
                set_length as int,
            ) == r.1 as int,
        forall|w: int|
            0 <= w < r.0@.len() ==> exists|m: int|
                0 <= m < guess_pool@.len() && (#[trigger] guess_pool@[m])@ == (
                #[trigger] r.0@[w])@ && entropy_weight(
                    guess_pool@[m]@,
                    candidates.deep_view(),
                    pool_size,
                    set_length as int,
                ) == r.1 as int,
        r.1 as int <= candidates@.len() * log2_scaled_spec(candidates@.len() as nat),
{
    let ents = all_set_entropy(guess_pool, candidates, set_length, pool_size);
    let r = max_entropy(&ents);
    proof {
        let deep = candidates.deep_view();
        assert forall|m: int|
            0 <= m < guess_pool@.len() implies entropy_weight(
            (#[trigger] guess_pool@[m])@,
            deep,
            pool_size,
            set_length as int,
        ) <= r.1 as int by {
            assert(ents@[m].1 <= r.1);
            assert(ents@[m].1 as int == entropy_weight(
                guess_pool@[m]@,
                deep,
                pool_size,
                set_length as int,
            ));
        }
        let m0 = choose|m: int| 0 <= m < ents@.len() && (#[trigger] ents@[m]).1 == r.1;
        assert(entropy_weight(guess_pool@[m0]@, deep, pool_size, set_length as int) == r.1 as int);
        lemma_entropy_weight_bounds(guess_pool@[m0]@, deep, pool_size, set_length as int);
        assert forall|w: int| 0 <= w < r.0@.len() implies exists|m: int|
            0 <= m < guess_pool@.len() && (#[trigger] guess_pool@[m])@ == (#[trigger] r.0@[w])@
                && entropy_weight(
                guess_pool@[m]@,
                deep,
                pool_size,
                set_length as int,
            ) == r.1 as int by {
            assert(is_winner_upto(ents@, r.1, r.0@[w]@, ents@.len() as int));
            let mm = choose|mm: int|
                0 <= mm < ents@.len() && (#[trigger] ents@[mm]).1 == r.1 && ents@[mm].0@ == (
                r.0@[w])@;
            assert(guess_pool@[mm]@ == r.0@[w]@);
            assert(entropy_weight(guess_pool@[mm]@, deep, pool_size, set_length as int)
                == r.1 as int);
        }
    }
    r
}

} // verus!
