//! The space generator: the full enumeration of sequences over a pool, and
//! the enumeration of all semantically valid hints.
//!
//! Sequences are produced in lexicographic order; position `i` of the result
//! is the base-`pool_size` digit expansion of `i` shifted into the pool
//! `1..=pool_size`, which makes the enumeration stable, duplicate-free and
//! complete. Valid hints are every triple summing to the sequence length,
//! except the single impossible one: if only one position is wrong, the game
//! cannot claim that its value exists elsewhere misplaced.

use vstd::prelude::*;

use crate::GameError;
use crate::checks::Hint;
use crate::checks::seq_ok;
use crate::checks::symbol_ok;
use vstd::arithmetic::power::pow;
use vstd::arithmetic::power::lemma_pow_increases;
use vstd::arithmetic::div_mod::lemma_fundamental_div_mod;
use vstd::arithmetic::div_mod::lemma_fundamental_div_mod_converse;

verus! {

/// The sequence standing at index `i` of the lexicographic enumeration of
/// all `set_length`-symbol sequences over the pool `1..=pool_size`: the
/// base-`pool_size` digits of `i`, most significant first, each shifted by 1.
pub open spec fn combo_at(i: int, set_length: int, pool_size: u32) -> Seq<u32>
    decreases set_length,
{
    if set_length <= 0 {
        Seq::empty()
    } else {
        combo_at(i / (pool_size as int), set_length - 1, pool_size).push(
            (i % (pool_size as int) + 1) as u32,
        )
    }
}

/// The inverse of [`combo_at`]: the index a sequence holds in the
/// lexicographic enumeration.
pub open spec fn combo_index(s: Seq<u32>, pool_size: u32) -> int
    decreases s.len(),
{
    if s.len() == 0 {
        0
    } else {
        combo_index(s.drop_last(), pool_size) * (pool_size as int) + s.last() - 1
    }
}

pub proof fn lemma_combo_at_len(i: int, set_length: int, pool_size: u32)
    requires
        set_length >= 0,
    ensures
        combo_at(i, set_length, pool_size).len() == set_length,
    decreases set_length,
{
    if set_length > 0 {
        lemma_combo_at_len(i / (pool_size as int), set_length - 1, pool_size);
    }
}

/// Every enumerated sequence is well formed: each digit shifted by one lies
/// inside the pool.
pub proof fn lemma_combo_at_ok(i: int, set_length: int, pool_size: u32)
    requires
        set_length >= 0,
        i >= 0,
        pool_size >= 1,
    ensures
        seq_ok(combo_at(i, set_length, pool_size), set_length as nat, pool_size),
    decreases set_length,
{
    lemma_combo_at_len(i, set_length, pool_size);
    if set_length > 0 {
        let p = pool_size as int;
        lemma_combo_at_ok(i / p, set_length - 1, pool_size);
        assert(0 <= i % p < p);
        let s = combo_at(i, set_length, pool_size);
        let pre = combo_at(i / p, set_length - 1, pool_size);
        assert forall|k: int| 0 <= k < s.len() implies symbol_ok(#[trigger] s[k], pool_size) by {
            if k < set_length - 1 {
                assert(s[k] == pre[k]);
            }
        }
    }
}

/// `combo_index` inverts `combo_at` on every in-range index.
pub proof fn lemma_combo_at_index(i: int, set_length: int, pool_size: u32)
    requires
        set_length >= 0,
        pool_size >= 1,
        0 <= i < pow(pool_size as int, set_length as nat),
    ensures
        combo_index(combo_at(i, set_length, pool_size), pool_size) == i,
    decreases set_length,
{
    reveal(pow);
    let p = pool_size as int;
    let s = combo_at(i, set_length, pool_size);
    lemma_combo_at_len(i, set_length, pool_size);
    if set_length == 0 {
        assert(i == 0);
    } else {
        let pre = combo_at(i / p, set_length - 1, pool_size);
        lemma_combo_at_len(i / p, set_length - 1, pool_size);
        assert(s.drop_last() =~= pre);
        lemma_fundamental_div_mod(i, p);
        assert(0 <= i % p < p);
        assert(pow(p, set_length as nat) == p * pow(p, (set_length - 1) as nat));
        assert(i / p < pow(p, (set_length - 1) as nat)) by {
            vstd::arithmetic::div_mod::lemma_multiply_divide_lt(
                i,
                p,
                pow(p, (set_length - 1) as nat),
            );
        }
        lemma_combo_at_index(i / p, set_length - 1, pool_size);
        assert(s == pre.push((i % p + 1) as u32));
        assert(s.last() == (i % p + 1) as u32);
        assert(combo_index(s, pool_size) == combo_index(pre, pool_size) * p + (i % p + 1) - 1);
        assert((i / p) * p + i % p == i) by {
            vstd::arithmetic::mul::lemma_mul_is_commutative(i / p, p);
        }
    }
}

/// Every well-formed sequence stands in the enumeration, at index
/// `combo_index`.
pub proof fn lemma_combo_index_of_valid(s: Seq<u32>, pool_size: u32)
    requires
        pool_size >= 1,
        forall|k: int| 0 <= k < s.len() ==> symbol_ok(#[trigger] s[k], pool_size),
    ensures
        0 <= combo_index(s, pool_size) < pow(pool_size as int, s.len()),
        combo_at(combo_index(s, pool_size), s.len() as int, pool_size) == s,
    decreases s.len(),
{
    reveal(pow);
    let p = pool_size as int;
    if s.len() == 0 {
        assert(combo_at(0, 0, pool_size) =~= s);
    } else {
        let pre = s.drop_last();
        assert(forall|k: int|
            0 <= k < pre.len() ==> symbol_ok(#[trigger] pre[k], pool_size));
        lemma_combo_index_of_valid(pre, pool_size);
        let q = combo_index(pre, pool_size);
        let d = s.last() - 1;
        let pp = pow(p, pre.len());
        assert(0 <= d < p);
        assert(combo_index(s, pool_size) == q * p + d);
        assert(q * p + d < pp * p) by (nonlinear_arith)
            requires
                0 <= q < pp,
                0 <= d < p,
        {
        }
        assert(q * p + d >= 0) by (nonlinear_arith)
            requires
                q >= 0,
                d >= 0,
                p >= 1,
        {
        }
        assert(pow(p, s.len()) == p * pow(p, pre.len()));
        assert(pp * p == p * pp) by (nonlinear_arith) {
        }
        lemma_fundamental_div_mod_converse(q * p + d, p, q, d);
        assert(combo_at(q * p + d, s.len() as int, pool_size) == combo_at(
            q,
            pre.len() as int,
            pool_size,
        ).push((d + 1) as u32));
        assert(pre.push(s.last()) =~= s);
    }
}

/// Distinct indices enumerate distinct sequences.
pub proof fn lemma_combo_at_injective(i: int, j: int, set_length: int, pool_size: u32)
    requires
        set_length >= 0,
        pool_size >= 1,
        0 <= i < pow(pool_size as int, set_length as nat),
        0 <= j < pow(pool_size as int, set_length as nat),
        i != j,
    ensures
        combo_at(i, set_length, pool_size) != combo_at(j, set_length, pool_size),
{
    if combo_at(i, set_length, pool_size) == combo_at(j, set_length, pool_size) {
        lemma_combo_at_index(i, set_length, pool_size);
        lemma_combo_at_index(j, set_length, pool_size);
    }
}

/// Enumerate every `set_length`-symbol sequence over the pool
/// `1..=pool_size`, in lexicographic order: `pool_size^set_length` sequences,
/// pairwise distinct, and containing every well-formed sequence.
///
/// A degenerate configuration (`set_length == 0` or `pool_size == 0`) is a
/// configuration error.
pub fn combinations_sets(set_length: usize, pool_size: u32) -> (r: Result<Vec<Vec<u32>>, GameError>)
    requires
        set_length >= 1 && pool_size >= 1 ==> pow(pool_size as int, set_length as nat)
            <= usize::MAX,
        pool_size as int + 1 <= usize::MAX as int,
    ensures
        r is Err <==> (set_length == 0 || pool_size == 0),
        r is Err ==> r->Err_0 == GameError::Config,
        r is Ok ==> {
            let cs = r->Ok_0@;
            &&& cs.len() == pow(pool_size as int, set_length as nat)
            &&& forall|m: int|
                0 <= m < cs.len() ==> #[trigger] cs[m]@ == combo_at(
                    m,
                    set_length as int,
                    pool_size,
                )
            &&& forall|m: int|
                0 <= m < cs.len() ==> seq_ok(#[trigger] cs[m]@, set_length as nat, pool_size)
            &&& forall|m1: int, m2: int|
                0 <= m1 < m2 < cs.len() ==> #[trigger] cs[m1]@ != #[trigger] cs[m2]@
            &&& forall|s: Seq<u32>|
                #[trigger] seq_ok(s, set_length as nat, pool_size) ==> exists|m: int|
                    0 <= m < cs.len() && #[trigger] cs[m]@ == s
        },
{
    if set_length == 0 || pool_size == 0 {
        return Err(GameError::Config);
    }
    let psz = pool_size as usize;
    let ghost p = pool_size as int;
    let mut result: Vec<Vec<u32>> = Vec::new();
    let empty: Vec<u32> = Vec::new();
    result.push(empty);
    proof {
        vstd::arithmetic::power::lemma_pow0(p);
        assert(result@[0]@ =~= combo_at(0, 0, pool_size));
    }
    let mut k: usize = 0;
    while k < set_length
        invariant
            k <= set_length,
            1 <= pool_size,
            psz == pool_size as usize,
            p == pool_size as int,
            pool_size as int + 1 <= usize::MAX as int,
            pow(p, set_length as nat) <= usize::MAX,
            result@.len() == pow(p, k as nat),
            forall|m: int|
                0 <= m < result@.len() ==> #[trigger] result@[m]@ == combo_at(
                    m,
                    k as int,
                    pool_size,
                ),
        decreases set_length - k,
    {
        proof {
            lemma_pow_increases(pool_size as nat, (k + 1) as nat, set_length as nat);
            reveal(pow);
            assert(pow(p, (k + 1) as nat) == p * pow(p, k as nat));
        }
        let mut next: Vec<Vec<u32>> = Vec::new();
        let mut i: usize = 0;
        while i < result.len()
            invariant
                i <= result@.len(),
                1 <= pool_size,
                psz == pool_size as usize,
                p == pool_size as int,
                pool_size as int + 1 <= usize::MAX as int,
                result@.len() == pow(p, k as nat),
                pow(p, (k + 1) as nat) == p * pow(p, k as nat),
                pow(p, (k + 1) as nat) <= usize::MAX,
                forall|m: int|
                    0 <= m < result@.len() ==> #[trigger] result@[m]@ == combo_at(
                        m,
                        k as int,
                        pool_size,
                    ),
                next@.len() == i as int * p,
                forall|m: int|
                    0 <= m < next@.len() ==> #[trigger] next@[m]@ == combo_at(
                        m,
                        k as int + 1,
                        pool_size,
                    ),
            decreases result@.len() - i,
        {
            proof {
                assert((i as int + 1) * p <= pow(p, (k + 1) as nat)) by (nonlinear_arith)
                    requires
                        i as int + 1 <= pow(p, k as nat),
                        p >= 1,
                        pow(p, (k + 1) as nat) == p * pow(p, k as nat),
                {
                }
            }
            let mut w: usize = 0;
            while w < psz
                invariant
                    w <= psz,
                    1 <= pool_size,
                    psz == pool_size as usize,
                    p == pool_size as int,
                    i < result@.len(),
                    result@.len() == pow(p, k as nat),
                    (i as int + 1) * p <= pow(p, (k + 1) as nat),
                    pow(p, (k + 1) as nat) <= usize::MAX,
                    forall|m: int|
                        0 <= m < result@.len() ==> #[trigger] result@[m]@ == combo_at(
                            m,
                            k as int,
                            pool_size,
                        ),
                    next@.len() == i as int * p + w as int,
                    forall|m: int|
                        0 <= m < next@.len() ==> #[trigger] next@[m]@ == combo_at(
                            m,
                            k as int + 1,
                            pool_size,
                        ),
                decreases psz - w,
            {
                proof {
                    assert(i as int * p + w < (i as int + 1) * p) by (nonlinear_arith)
                        requires
                            0 <= w < p,
                    {
                    }
                    assert(i as int * p >= 0) by (nonlinear_arith)
                        requires
                            i >= 0,
                            p >= 1,
                    {
                    }
                }
                let sym: u32 = (w as u32) + 1;
                let mut grown = crate::checks::clone_set(&result[i]);
                grown.push(sym);
                proof {
                    lemma_fundamental_div_mod_converse(
                        i as int * p + w as int,
                        p,
                        i as int,
                        w as int,
                    );
                    assert(combo_at(i as int * p + w as int, k as int + 1, pool_size)
                        == combo_at(i as int, k as int, pool_size).push(sym));
                    assert(grown@ == combo_at(i as int * p + w as int, k as int + 1, pool_size));
                }
                next.push(grown);
                w = w + 1;
            }
            i = i + 1;
            proof {
                assert(i as int * p == (i as int - 1) * p + p) by (nonlinear_arith) {}
            }
        }
        proof {
            assert(i as int * p == pow(p, (k + 1) as nat)) by (nonlinear_arith)
                requires
                    i as int == pow(p, k as nat),
                    pow(p, (k + 1) as nat) == p * pow(p, k as nat),
            {
            }
        }
        result = next;
        k = k + 1;
    }
    proof {
        let cs = result@;
        assert forall|m: int|
            0 <= m < cs.len() implies seq_ok(#[trigger] cs[m]@, set_length as nat, pool_size) by {
            lemma_combo_at_ok(m, set_length as int, pool_size);
        }
        assert forall|m1: int, m2: int|
            0 <= m1 < m2 < cs.len() implies #[trigger] cs[m1]@ != #[trigger] cs[m2]@ by {
            lemma_combo_at_injective(m1, m2, set_length as int, pool_size);
        }
        assert forall|s: Seq<u32>|
            #[trigger] seq_ok(s, set_length as nat, pool_size) implies exists|m: int|
            0 <= m < cs.len() && #[trigger] cs[m]@ == s by {
            lemma_combo_index_of_valid(s, pool_size);
            let idx = combo_index(s, pool_size);
            assert(cs[idx]@ == s);
        }
    }
    Ok(result)
}

/// A semantically valid hint for sequences of length `set_length`: the three
/// buckets sum to the length, and the triple is not the impossible
/// `(set_length - 1, 1, 0)` — with a single misplaced position there is
/// nowhere else for the symbol to go.
pub open spec fn hint_ok(h: Hint, set_length: nat) -> bool {
    &&& h.exact + h.exist + h.null == set_length
    &&& !(h.exact + 1 == set_length && h.exist == 1)
}

/// Hints ordered lexicographically by `(exact, exist)`; `null` is then
/// forced by the sum constraint.
pub open spec fn hint_lex_lt(h1: Hint, h2: Hint) -> bool {
    h1.exact < h2.exact || (h1.exact == h2.exact && h1.exist < h2.exist)
}

/// Enumerate every semantically valid hint for sequences of length
/// `set_length`, in lexicographic `(exact, exist)` order: each valid triple
/// appears exactly once, and the impossible triple not at all.
///
/// `set_length == 0` is a configuration error.
pub fn combinations_hints(set_length: usize) -> (r: Result<Vec<Hint>, GameError>)
    requires
        set_length as int + 1 <= usize::MAX as int,
    ensures
        r is Err <==> set_length == 0,
        r is Err ==> r->Err_0 == GameError::Config,
        r is Ok ==> {
            let hs = r->Ok_0@;
            &&& forall|m: int| 0 <= m < hs.len() ==> hint_ok(#[trigger] hs[m], set_length as nat)
            &&& forall|m1: int, m2: int|
                0 <= m1 < m2 < hs.len() ==> #[trigger] hs[m1] != #[trigger] hs[m2]
            &&& forall|h: Hint| hint_ok(h, set_length as nat) ==> hs.contains(h)
        },
{
    if set_length == 0 {
        return Err(GameError::Config);
    }
    let mut hints: Vec<Hint> = Vec::new();
    let mut e: usize = 0;
    while e <= set_length
        invariant
            e <= set_length + 1,
            set_length as int + 1 <= usize::MAX as int,
            set_length >= 1,
            forall|m: int|
                0 <= m < hints@.len() ==> hint_ok(#[trigger] hints@[m], set_length as nat),
            forall|m1: int, m2: int|
                0 <= m1 < m2 < hints@.len() ==> hint_lex_lt(
                    #[trigger] hints@[m1],
                    #[trigger] hints@[m2],
                ),
            forall|m: int| 0 <= m < hints@.len() ==> (#[trigger] hints@[m]).exact < e,
            forall|h: Hint|
                hint_ok(h, set_length as nat) && h.exact < e ==> hints@.contains(h),
        decreases set_length + 1 - e,
    {
        let mut x: usize = 0;
        while x <= set_length - e
            invariant
                x <= set_length - e + 1,
                e <= set_length,
                set_length as int + 1 <= usize::MAX as int,
                set_length >= 1,
                forall|m: int|
                    0 <= m < hints@.len() ==> hint_ok(#[trigger] hints@[m], set_length as nat),
                forall|m1: int, m2: int|
                    0 <= m1 < m2 < hints@.len() ==> hint_lex_lt(
                        #[trigger] hints@[m1],
                        #[trigger] hints@[m2],
                    ),
                forall|m: int|
                    0 <= m < hints@.len() ==> hint_lex_lt(
                        #[trigger] hints@[m],
                        Hint { exact: e, exist: x, null: 0 },
                    ),
                forall|h: Hint|
                    hint_ok(h, set_length as nat) && hint_lex_lt(
                        h,
                        Hint { exact: e, exist: x, null: 0 },
                    ) ==> hints@.contains(h),
            decreases set_length - e + 1 - x,
        {
            if !(e + 1 == set_length && x == 1) {
                let h = Hint { exact: e, exist: x, null: set_length - e - x };
                let ghost prev = hints@;
                hints.push(h);
                proof {
                    assert(hints@ =~= prev.push(h));
                    assert(hints@[hints@.len() - 1] == h);
                    assert forall|hh: Hint|
                        hint_ok(hh, set_length as nat) && (hh.exact < e || (hh.exact == e
                            && hh.exist <= x)) implies hints@.contains(hh) by {
                        if hint_lex_lt(hh, Hint { exact: e, exist: x, null: 0 }) {
                            assert(prev.contains(hh));
                            let m = choose|m: int| 0 <= m < prev.len() && prev[m] == hh;
                            assert(hints@[m] == hh);
                        } else {
                            assert(hh.exact == e && hh.exist == x);
                            assert(hh == h);
                            assert(hints@[hints@.len() - 1] == hh);
                        }
                    }
                }
            } else {
                proof {
                    assert forall|hh: Hint|
                        hint_ok(hh, set_length as nat) && (hh.exact < e || (hh.exact == e
                            && hh.exist <= x)) implies hints@.contains(hh) by {
                        assert(!(hh.exact == e && hh.exist == x));
                        assert(hint_lex_lt(hh, Hint { exact: e, exist: x, null: 0 }));
                    }
                }
            }
            x = x + 1;
        }
        e = e + 1;
        proof {
            assert forall|h: Hint|
                hint_ok(h, set_length as nat) && h.exact < e implies hints@.contains(h) by {
                assert(h.exist + h.null == set_length - h.exact);
            }
        }
    }
    proof {
        assert forall|h: Hint| hint_ok(h, set_length as nat) implies hints@.contains(h) by {
            assert(h.exact <= set_length);
        }
        assert forall|m1: int, m2: int|
            0 <= m1 < m2 < hints@.len() implies #[trigger] hints@[m1] != #[trigger] hints@[m2] by {
            assert(hint_lex_lt(hints@[m1], hints@[m2]));
        }
    }
    Ok(hints)
}

} // verus!
