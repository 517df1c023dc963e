use crate::board::{lemma_candidates_bounded, Board};
use crate::histogram::{codes_of, count_outcomes, outcome_count, N_SCORE};
use crate::pegs::Pegs;
use crate::universe::{build_all_configs, universe_code, N_CODES};
use vstd::prelude::*;

verus! {

/// The largest of the first `m` slots of the histogram of `g` over `cands`.
pub open spec fn max_bucket(g: Seq<u8>, cands: Seq<Seq<u8>>, m: int) -> nat
    decreases m,
{
    if m <= 0 {
        0
    } else {
        let a = max_bucket(g, cands, m - 1);
        let b = outcome_count(g, cands, m - 1);
        if a >= b {
            a
        } else {
            b
        }
    }
}

/// How many candidates are left, at worst, after guessing `g`.
pub open spec fn worst_case(g: Seq<u8>, cands: Seq<Seq<u8>>) -> nat {
    max_bucket(g, cands, N_SCORE as int)
}

/// Position `k` of the universe holds the first code whose worst case over
/// `cands` is least.
pub open spec fn first_minimizer(k: int, cands: Seq<Seq<u8>>) -> bool {
    &&& 0 <= k < N_CODES
    &&& forall|j: int|
        0 <= j < N_CODES ==> worst_case(#[trigger] universe_code(j), cands) >= worst_case(
            universe_code(k),
            cands,
        )
    &&& forall|j: int|
        0 <= j < k ==> worst_case(#[trigger] universe_code(j), cands) > worst_case(
            universe_code(k),
            cands,
        )
}

/// The largest slot of the histogram of `guess` over `possible`.
fn worst_bucket(guess: &Pegs, possible: &[Pegs]) -> (r: u16)
    requires
        possible@.len() <= u16::MAX,
    ensures
        r as nat == worst_case(guess@, codes_of(possible@)),
{
    let h = count_outcomes(guess, possible);
    let mut m: u16 = 0;
    let mut k: usize = 0;
    while k < N_SCORE
        invariant
            k <= N_SCORE,
            forall|j: int|
                0 <= j < N_SCORE ==> h[j] as nat == outcome_count(guess@, codes_of(possible@), j),
            m as nat == max_bucket(guess@, codes_of(possible@), k as int),
        decreases N_SCORE - k,
    {
        if h[k] > m {
            m = h[k];
        }
        k = k + 1;
    }
    m
}

/// The next guess: the only remaining candidate when exactly one is left;
/// otherwise the first code of the universe whose largest outcome bucket
/// over the candidates is least.
pub fn strategy_greedy(board: &Board) -> (r: Pegs)
    requires
        board.wf(),
    ensures
        board.candidates().len() == 1 ==> r@ == board.candidates()[0],
        board.candidates().len() != 1 ==> exists|k: int|
            first_minimizer(k, board.candidates()) && r@ == universe_code(k),
{
    let possible = board.possible();
    if possible.len() == 1 {
        return possible[0];
    }
    proof {
        lemma_candidates_bounded(board.history());
    }
    let ghost cands = board.candidates();
    let all = build_all_configs();
    let mut best: usize = 0;
    let mut best_worst = worst_bucket(&all[0], possible.as_slice());
    let mut i: usize = 1;
    while i < all.len()
        invariant
            all@.len() == N_CODES,
            forall|k: int| 0 <= k < N_CODES ==> (#[trigger] all@[k])@ == universe_code(k),
            cands == codes_of(possible@),
            possible@.len() <= u16::MAX,
            1 <= i <= N_CODES,
            best < i,
            best_worst as nat == worst_case(universe_code(best as int), cands),
            forall|j: int|
                0 <= j < i ==> worst_case(#[trigger] universe_code(j), cands) >= best_worst,
            forall|j: int| 0 <= j < best ==> worst_case(#[trigger] universe_code(j), cands) > best_worst,
        decreases N_CODES - i,
    {
        let w = worst_bucket(&all[i], possible.as_slice());
        if w < best_worst {
            best = i;
            best_worst = w;
        }
        i = i + 1;
    }
    assert(first_minimizer(best as int, cands));
    all[best]
}

} // verus!
