//! The autoplay loop: drive a whole game end to end.
//!
//! Each turn selects the highest-entropy guess over the full enumeration,
//! scores it against the hidden sequence, appends the pair to the history,
//! and narrows the candidate set to what is consistent with the whole
//! history. The loop
//! stops in `Solved` when a guess scores fully exact, or in `Exhausted` once
//! `max_tries` guesses have been scored; both are normal outcomes. Because
//! every recorded hint comes from scoring against the hidden sequence, the
//! hidden sequence provably survives every filtering step, so the
//! internal-consistency failure can never be reached.

use vstd::prelude::*;

use rand::Rng;

use crate::GameError;
use crate::checks::Hint;
use crate::checks::clone_set;
use crate::checks::hint_matches;
use crate::checks::lemma_exact_full_eq;
use crate::checks::score;
use crate::checks::seq_ok;
use crate::checks::symbol_ok;
use crate::entropy::best_guess;
use crate::entropy::entropy_weight;
use crate::filtering::combinations_sets_matching;
use crate::filtering::consistent_all;
use crate::filtering::filtered_spec;
use crate::filtering::lemma_filter_empty_history;
use crate::filtering::lemma_filter_keeps_hidden;
use crate::filtering::lemma_filtered_len_le;
use crate::space::combinations_sets;
use crate::space::combo_at;
use vstd::arithmetic::power::pow;
use vstd::arithmetic::power::lemma_pow_positive;

verus! {

/// A finished game's terminal state. Exhaustion is a normal outcome, never
/// an error.
#[derive(Clone, Copy, PartialEq, Eq, Structural, Debug)]
pub enum Outcome {
    Solved,
    Exhausted,
}

/// What an autoplay run reports: the terminal outcome, how many guesses were
/// scored, and the full `(guess, hint)` history in order, for display.
pub struct GameResult {
    pub outcome: Outcome,
    pub turns: u32,
    pub history: Vec<(Vec<u32>, Hint)>,
}

/// Every history entry holds a well-formed guess together with the true hint
/// it earned against the hidden sequence.
pub open spec fn history_ok(
    history: Seq<(Vec<u32>, Hint)>,
    hidden: Seq<u32>,
    set_length: nat,
    pool_size: u32,
) -> bool {
    forall|j: int|
        0 <= j < history.len() ==> seq_ok((#[trigger] history[j]).0@, set_length, pool_size)
            && hint_matches(history[j].0@, hidden, pool_size, history[j].1)
}

/// Relies on rand's `Rng::random_range` over the non-empty range
/// `1..=pool_size`: the sampled value lies inside that range. Nothing more
/// is assumed of a random draw.
#[verifier::external_body]
fn random_symbol(pool_size: u32) -> (r: u32)
    requires
        pool_size >= 1,
    ensures
        1 <= r <= pool_size,
{
    rand::rng().random_range(1u32..=pool_size)
}

/// Generate a hidden sequence: `set_length` independent uniform draws from
/// the pool `1..=pool_size`, repetition allowed.
pub fn generate_random_set(set_length: usize, pool_size: u32) -> (r: Vec<u32>)
    requires
        pool_size >= 1,
    ensures
        seq_ok(r@, set_length as nat, pool_size),
{
    let mut set_hidden: Vec<u32> = Vec::new();
    while set_hidden.len() < set_length
        invariant
            pool_size >= 1,
            set_hidden@.len() <= set_length,
            forall|i: int|
                0 <= i < set_hidden@.len() ==> symbol_ok(#[trigger] set_hidden@[i], pool_size),
        decreases set_length - set_hidden@.len(),
    {
        set_hidden.push(random_symbol(pool_size));
    }
    set_hidden
}

/// The full enumeration of well-formed sequences, in lexicographic order:
/// the initial candidate set and the fixed guess pool of every turn.
pub open spec fn full_space(set_length: int, pool_size: u32) -> Seq<Seq<u32>> {
    Seq::new(
        pow(pool_size as int, set_length as nat) as nat,
        |i: int| combo_at(i, set_length, pool_size),
    )
}

/// The candidate set standing at the start of turn `j`: the full enumeration
/// narrowed by the first `j` history entries.
pub open spec fn turn_candidates(
    history: Seq<(Vec<u32>, Hint)>,
    j: int,
    set_length: int,
    pool_size: u32,
) -> Seq<Seq<u32>> {
    filtered_spec(history.subrange(0, j), full_space(set_length, pool_size), pool_size)
}

/// The guess ties for the highest scaled entropy weight over `cands` among
/// all well-formed sequences.
pub open spec fn is_top_guess(
    g: Seq<u32>,
    cands: Seq<Seq<u32>>,
    set_length: int,
    pool_size: u32,
) -> bool {
    forall|s: Seq<u32>|
        seq_ok(s, set_length as nat, pool_size) ==> entropy_weight(
            s,
            cands,
            pool_size,
            set_length,
        ) <= entropy_weight(g, cands, pool_size, set_length)
}

/// Play one whole game automatically against `set_hidden`.
///
/// A degenerate configuration is rejected before any turn. Otherwise the
/// result always lands within `max_tries` scored guesses: `Solved` with the
/// winning guess as the last history entry, or `Exhausted` after exactly
/// `max_tries` turns. Every reported history entry is the true score of its
/// guess against the hidden sequence.
pub fn game_robot(
    set_hidden: &Vec<u32>,
    set_length: usize,
    pool_size: u32,
    max_tries: u32,
) -> (r: Result<GameResult, GameError>)
    requires
        set_length >= 1 && pool_size >= 1 ==> {
            &&& seq_ok(set_hidden@, set_length as nat, pool_size)
            &&& pow(pool_size as int, set_length as nat) <= 0xFFFF
            &&& pool_size as int + 1 <= usize::MAX as int
            &&& set_length as int + 1 <= usize::MAX as int
        },
    ensures
        r is Err <==> (set_length == 0 || pool_size == 0),
        r is Err ==> r->Err_0 == GameError::Config,
        r is Ok ==> {
            let g = r->Ok_0;
            &&& g.history@.len() == g.turns
            &&& g.turns <= max_tries
            &&& history_ok(g.history@, set_hidden@, set_length as nat, pool_size)
            &&& (g.outcome is Solved ==> g.turns >= 1 && g.history@.last().0@ == set_hidden@
                && g.history@.last().1.exact == set_length)
            &&& (g.outcome is Exhausted ==> g.turns == max_tries)
            &&& forall|j: int|
                0 <= j < g.history@.len() - 1 ==> (#[trigger] g.history@[j]).1.exact
                    != set_length
            &&& (g.outcome is Exhausted && g.history@.len() > 0 ==> g.history@.last().1.exact
                != set_length)
            &&& forall|j: int|
                0 <= j < g.history@.len() ==> is_top_guess(
                    (#[trigger] g.history@[j]).0@,
                    turn_candidates(g.history@, j, set_length as int, pool_size),
                    set_length as int,
                    pool_size,
                )
        },
{
    if set_length == 0 || pool_size == 0 {
        return Err(GameError::Config);
    }
    let guess_pool = match combinations_sets(set_length, pool_size) {
        Ok(v) => v,
        Err(e) => {
            return Err(e);
        },
    };
    let mut candidates = match combinations_sets(set_length, pool_size) {
        Ok(v) => v,
        Err(e) => {
            return Err(e);
        },
    };
    let ghost full = guess_pool.deep_view();
    let mut history: Vec<(Vec<u32>, Hint)> = Vec::new();
    proof {
        lemma_pow_positive(pool_size as int, set_length as nat);
        assert(forall|i: int| 0 <= i < full.len() ==> #[trigger] full[i] == guess_pool@[i]@);
        assert(full =~= full_space(set_length as int, pool_size));
        let m = choose|m: int|
            0 <= m < guess_pool@.len() && #[trigger] guess_pool@[m]@ == set_hidden@;
        assert(full[m] == set_hidden@);
        assert(full.contains(set_hidden@));
        assert(candidates.deep_view() =~= full);
        assert(history@ =~= Seq::<(Vec<u32>, Hint)>::empty());
        lemma_filter_empty_history(full, pool_size);
    }
    let mut turn: u32 = 0;
    while turn < max_tries
        invariant
            1 <= set_length,
            1 <= pool_size,
            seq_ok(set_hidden@, set_length as nat, pool_size),
            pool_size as int + 1 <= usize::MAX as int,
            set_length as int + 1 <= usize::MAX as int,
            1 <= guess_pool@.len() <= 0xFFFF,
            forall|m: int|
                0 <= m < guess_pool@.len() ==> seq_ok(
                    (#[trigger] guess_pool@[m])@,
                    set_length as nat,
                    pool_size,
                ),
            full == guess_pool.deep_view(),
            full == full_space(set_length as int, pool_size),
            full.contains(set_hidden@),
            forall|s: Seq<u32>|
                #[trigger] seq_ok(s, set_length as nat, pool_size) ==> exists|i: int|
                    0 <= i < guess_pool@.len() && #[trigger] guess_pool@[i]@ == s,
            1 <= candidates@.len() <= 0xFFFF,
            forall|m: int|
                0 <= m < candidates@.len() ==> seq_ok(
                    (#[trigger] candidates@[m])@,
                    set_length as nat,
                    pool_size,
                ),
            candidates.deep_view().contains(set_hidden@),
            candidates.deep_view() == filtered_spec(history@, full, pool_size),
            history@.len() == turn,
            turn <= max_tries,
            history_ok(history@, set_hidden@, set_length as nat, pool_size),
            forall|j: int|
                0 <= j < history@.len() ==> (#[trigger] history@[j]).1.exact != set_length,
            forall|j: int|
                0 <= j < history@.len() ==> is_top_guess(
                    (#[trigger] history@[j]).0@,
                    turn_candidates(history@, j, set_length as int, pool_size),
                    set_length as int,
                    pool_size,
                ),
        decreases max_tries - turn,
    {
        let (best, _weight) = best_guess(&guess_pool, &candidates, set_length, pool_size);
        let guess = clone_set(&best[0]);
        let ghost gv = guess@;
        let ghost cdeep = candidates.deep_view();
        proof {
            let m = choose|m: int|
                0 <= m < guess_pool@.len() && (#[trigger] guess_pool@[m])@ == best@[0]@
                    && entropy_weight(
                    guess_pool@[m]@,
                    cdeep,
                    pool_size,
                    set_length as int,
                ) == _weight as int;
            assert(seq_ok(gv, set_length as nat, pool_size));
            assert(entropy_weight(gv, cdeep, pool_size, set_length as int) == _weight as int);
            assert forall|s: Seq<u32>|
                seq_ok(s, set_length as nat, pool_size) implies entropy_weight(
                s,
                cdeep,
                pool_size,
                set_length as int,
            ) <= entropy_weight(gv, cdeep, pool_size, set_length as int) by {
                let i = choose|i: int|
                    0 <= i < guess_pool@.len() && #[trigger] guess_pool@[i]@ == s;
                assert(entropy_weight(guess_pool@[i]@, cdeep, pool_size, set_length as int)
                    <= _weight as int);
            }
            assert(is_top_guess(gv, cdeep, set_length as int, pool_size));
        }
        let hint = score(&guess, set_hidden, pool_size);
        turn = turn + 1;
        let ghost old_hist = history@;
        history.push((guess, hint));
        proof {
            assert(history@.last().0@ == gv && history@.last().1 == hint);
            assert forall|j: int|
                0 <= j <= old_hist.len() implies history@.subrange(0, j) == old_hist.subrange(
                0,
                j,
            ) by {
                assert(history@.subrange(0, j) =~= old_hist.subrange(0, j));
            }
            assert(old_hist.subrange(0, old_hist.len() as int) =~= old_hist);
            assert(turn_candidates(history@, old_hist.len() as int, set_length as int, pool_size)
                == cdeep);
            assert forall|j: int|
                0 <= j < history@.len() implies is_top_guess(
                (#[trigger] history@[j]).0@,
                turn_candidates(history@, j, set_length as int, pool_size),
                set_length as int,
                pool_size,
            ) by {
                if j < old_hist.len() {
                    assert(history@[j] == old_hist[j]);
                    assert(turn_candidates(history@, j, set_length as int, pool_size)
                        == turn_candidates(old_hist, j, set_length as int, pool_size));
                } else {
                    assert(history@[j].0@ == gv);
                }
            }
        }
        if hint.exact == set_length {
            proof {
                lemma_exact_full_eq(gv, set_hidden@);
            }
            return Ok(GameResult { outcome: Outcome::Solved, turns: turn, history });
        }
        let filtered = combinations_sets_matching(&history, &guess_pool, set_length, pool_size);
        proof {
            assert(consistent_all(history@, set_hidden@, pool_size));
            lemma_filter_keeps_hidden(history@, full, set_hidden@, pool_size);
            lemma_filtered_len_le(history@, full, pool_size, full.len() as int);
            assert(filtered.deep_view() == filtered_spec(history@, full, pool_size));
            assert(filtered.deep_view().contains(set_hidden@));
            assert(filtered@.len() == filtered.deep_view().len());
        }
        if filtered.len() == 0 {
            return Err(GameError::Inconsistency);
        }
        candidates = filtered;
    }
    Ok(GameResult { outcome: Outcome::Exhausted, turns: max_tries, history })
}

} // verus!
