//! The consistency filter: reduce a candidate set to the sequences that are
//! consistent with the whole guess/hint history.
//!
//! A candidate survives only if, for every recorded `(guess, hint)` pair,
//! scoring the guess against the candidate reproduces the recorded hint. The
//! filter preserves order, never grows the set, is idempotent, and never
//! removes the true hidden sequence as long as every recorded hint came from
//! scoring against it.

use vstd::prelude::*;

use crate::checks::Hint;
use crate::checks::clone_set;
use crate::checks::hint_matches;
use crate::checks::score;
use crate::checks::seq_ok;

verus! {

/// The candidate `c` reproduces every recorded hint of the history.
pub open spec fn consistent_all(
    history: Seq<(Vec<u32>, Hint)>,
    c: Seq<u32>,
    pool_size: u32,
) -> bool {
    forall|j: int|
        0 <= j < history.len() ==> hint_matches(
            (#[trigger] history[j]).0@,
            c,
            pool_size,
            history[j].1,
        )
}

/// The first `n` candidates, narrowed to those consistent with the history,
/// in their original order.
pub open spec fn filtered_upto(
    history: Seq<(Vec<u32>, Hint)>,
    cands: Seq<Seq<u32>>,
    pool_size: u32,
    n: int,
) -> Seq<Seq<u32>>
    decreases n,
{
    if n <= 0 {
        Seq::empty()
    } else {
        let rest = filtered_upto(history, cands, pool_size, n - 1);
        if consistent_all(history, cands[n - 1], pool_size) {
            rest.push(cands[n - 1])
        } else {
            rest
        }
    }
}

/// The whole candidate list, narrowed to those consistent with the history.
pub open spec fn filtered_spec(
    history: Seq<(Vec<u32>, Hint)>,
    cands: Seq<Seq<u32>>,
    pool_size: u32,
) -> Seq<Seq<u32>> {
    filtered_upto(history, cands, pool_size, cands.len() as int)
}

/// Filtering never grows the candidate set.
pub proof fn lemma_filtered_len_le(
    history: Seq<(Vec<u32>, Hint)>,
    cands: Seq<Seq<u32>>,
    pool_size: u32,
    n: int,
)
    ensures
        filtered_upto(history, cands, pool_size, n).len() <= if n <= 0 {
            0
        } else {
            n
        },
    decreases n,
{
    if n > 0 {
        lemma_filtered_len_le(history, cands, pool_size, n - 1);
    }
}

/// Everything that survives the filter is consistent with the history.
pub proof fn lemma_filtered_all_consistent(
    history: Seq<(Vec<u32>, Hint)>,
    cands: Seq<Seq<u32>>,
    pool_size: u32,
    n: int,
)
    ensures
        forall|m: int|
            0 <= m < filtered_upto(history, cands, pool_size, n).len() ==> consistent_all(
                history,
                #[trigger] filtered_upto(history, cands, pool_size, n)[m],
                pool_size,
            ),
    decreases n,
{
    if n > 0 {
        lemma_filtered_all_consistent(history, cands, pool_size, n - 1);
        let rest = filtered_upto(history, cands, pool_size, n - 1);
        let whole = filtered_upto(history, cands, pool_size, n);
        assert forall|m: int| 0 <= m < whole.len() implies consistent_all(
            history,
            whole[m],
            pool_size,
        ) by {
            if m < rest.len() {
                assert(whole[m] == rest[m]);
            } else {
                assert(whole[m] == cands[n - 1]);
            }
        }
    }
}

/// Filtering a list whose members are all consistent returns it unchanged.
proof fn lemma_filter_of_consistent(
    history: Seq<(Vec<u32>, Hint)>,
    cands: Seq<Seq<u32>>,
    pool_size: u32,
    n: int,
)
    requires
        0 <= n <= cands.len(),
        forall|m: int| 0 <= m < cands.len() ==> consistent_all(history, #[trigger] cands[m], pool_size),
    ensures
        filtered_upto(history, cands, pool_size, n) == cands.subrange(0, n),
    decreases n,
{
    if n > 0 {
        lemma_filter_of_consistent(history, cands, pool_size, n - 1);
        assert(filtered_upto(history, cands, pool_size, n) =~= cands.subrange(0, n));
    } else {
        assert(filtered_upto(history, cands, pool_size, n) =~= cands.subrange(0, n));
    }
}

/// An empty history filters nothing out.
pub proof fn lemma_filter_empty_history(cands: Seq<Seq<u32>>, pool_size: u32)
    ensures
        filtered_spec(Seq::<(Vec<u32>, Hint)>::empty(), cands, pool_size) == cands,
{
    let empty_h = Seq::<(Vec<u32>, Hint)>::empty();
    lemma_filter_of_consistent(empty_h, cands, pool_size, cands.len() as int);
    assert(cands.subrange(0, cands.len() as int) =~= cands);
}

/// The consistency filter is idempotent: filtering an already-filtered set by
/// the same history again returns the identical set.
pub proof fn lemma_filter_idempotent(
    history: Seq<(Vec<u32>, Hint)>,
    cands: Seq<Seq<u32>>,
    pool_size: u32,
)
    ensures
        filtered_spec(history, filtered_spec(history, cands, pool_size), pool_size)
            == filtered_spec(history, cands, pool_size),
{
    let once = filtered_spec(history, cands, pool_size);
    lemma_filtered_all_consistent(history, cands, pool_size, cands.len() as int);
    lemma_filter_of_consistent(history, once, pool_size, once.len() as int);
    assert(once.subrange(0, once.len() as int) =~= once);
}

proof fn lemma_filter_keeps_member(
    history: Seq<(Vec<u32>, Hint)>,
    cands: Seq<Seq<u32>>,
    hidden: Seq<u32>,
    pool_size: u32,
    n: int,
    m: int,
)
    requires
        0 <= m < n <= cands.len(),
        cands[m] == hidden,
        consistent_all(history, hidden, pool_size),
    ensures
        filtered_upto(history, cands, pool_size, n).contains(hidden),
    decreases n,
{
    let rest = filtered_upto(history, cands, pool_size, n - 1);
    if m == n - 1 {
        assert(filtered_upto(history, cands, pool_size, n) == rest.push(hidden));
        assert(rest.push(hidden)[rest.len() as int] == hidden);
    } else {
        lemma_filter_keeps_member(history, cands, hidden, pool_size, n - 1, m);
        let k = choose|k: int| 0 <= k < rest.len() && rest[k] == hidden;
        assert(filtered_upto(history, cands, pool_size, n)[k] == hidden);
    }
}

/// The filter never removes the true hidden sequence: if every recorded hint
/// came from scoring its guess against `hidden`, and `hidden` stands among
/// the candidates, it also stands among the survivors.
pub proof fn lemma_filter_keeps_hidden(
    history: Seq<(Vec<u32>, Hint)>,
    cands: Seq<Seq<u32>>,
    hidden: Seq<u32>,
    pool_size: u32,
)
    requires
        cands.contains(hidden),
        consistent_all(history, hidden, pool_size),
    ensures
        filtered_spec(history, cands, pool_size).contains(hidden),
{
    let m = choose|m: int| 0 <= m < cands.len() && cands[m] == hidden;
    lemma_filter_keeps_member(history, cands, hidden, pool_size, cands.len() as int, m);
}

/// Narrow a candidate list to the sequences consistent with the whole
/// history: a candidate survives exactly when every recorded `(guess, hint)`
/// pair is reproduced by scoring the guess against it. Order is preserved.
pub fn combinations_sets_matching(
    history: &Vec<(Vec<u32>, Hint)>,
    candidates: &Vec<Vec<u32>>,
    set_length: usize,
    pool_size: u32,
) -> (r: Vec<Vec<u32>>)
    requires
        pool_size >= 1,
        pool_size as int + 1 <= usize::MAX as int,
        forall|j: int|
            0 <= j < history@.len() ==> seq_ok(
                (#[trigger] history@[j]).0@,
                set_length as nat,
                pool_size,
            ),
        forall|m: int|
            0 <= m < candidates@.len() ==> seq_ok(
                (#[trigger] candidates@[m])@,
                set_length as nat,
                pool_size,
            ),
    ensures
        r.deep_view() == filtered_spec(history@, candidates.deep_view(), pool_size),
        forall|m: int|
            0 <= m < r@.len() ==> seq_ok((#[trigger] r@[m])@, set_length as nat, pool_size),
{
    let ghost deep = candidates.deep_view();
    proof {
        assert(deep.len() == candidates@.len());
        assert(forall|m: int| 0 <= m < deep.len() ==> #[trigger] deep[m] == candidates@[m]@);
    }
    let mut r: Vec<Vec<u32>> = Vec::new();
    let mut i: usize = 0;
    while i < candidates.len()
        invariant
            i <= candidates@.len(),
            pool_size >= 1,
            pool_size as int + 1 <= usize::MAX as int,
            deep == candidates.deep_view(),
            deep.len() == candidates@.len(),
            forall|m: int| 0 <= m < deep.len() ==> #[trigger] deep[m] == candidates@[m]@,
            forall|j: int|
                0 <= j < history@.len() ==> seq_ok(
                    (#[trigger] history@[j]).0@,
                    set_length as nat,
                    pool_size,
                ),
            forall|m: int|
                0 <= m < candidates@.len() ==> seq_ok(
                    (#[trigger] candidates@[m])@,
                    set_length as nat,
                    pool_size,
                ),
            r.deep_view() == filtered_upto(history@, deep, pool_size, i as int),
            forall|m: int|
                0 <= m < r@.len() ==> seq_ok((#[trigger] r@[m])@, set_length as nat, pool_size),
        decreases candidates@.len() - i,
    {
        let c = &candidates[i];
        let mut ok = true;
        let mut j: usize = 0;
        while j < history.len()
            invariant
                j <= history@.len(),
                pool_size >= 1,
                pool_size as int + 1 <= usize::MAX as int,
                i < candidates@.len(),
                c == candidates@[i as int],
                seq_ok(c@, set_length as nat, pool_size),
                forall|jj: int|
                    0 <= jj < history@.len() ==> seq_ok(
                        (#[trigger] history@[jj]).0@,
                        set_length as nat,
                        pool_size,
                    ),
                ok ==> forall|jj: int|
                    0 <= jj < j ==> hint_matches(
                        (#[trigger] history@[jj]).0@,
                        c@,
                        pool_size,
                        history@[jj].1,
                    ),
                !ok ==> !consistent_all(history@, c@, pool_size),
            decreases history@.len() - j,
        {
            let computed = score(&history[j].0, c, pool_size);
            let recorded = history[j].1;
            if !(computed.exact == recorded.exact && computed.exist == recorded.exist
                && computed.null == recorded.null) {
                proof {
                    assert(!hint_matches(history@[j as int].0@, c@, pool_size, recorded));
                }
                ok = false;
            }
            j = j + 1;
        }
        let ghost prev_deep = r.deep_view();
        if ok {
            r.push(clone_set(c));
        }
        proof {
            assert(deep[i as int] == c@);
            if ok {
                assert(consistent_all(history@, c@, pool_size));
                assert(r.deep_view() =~= prev_deep.push(c@));
            }
            assert(r.deep_view() == filtered_upto(history@, deep, pool_size, i as int + 1));
        }
        i = i + 1;
    }
    r
}

} // verus!
