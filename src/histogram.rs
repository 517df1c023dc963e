use crate::pegs::{is_code, lemma_score_bounds, score_of, Pegs, Score, N_PEG};
use vstd::prelude::*;

verus! {

/// Number of scores with `b + w <= N_PEG`, the slots of a histogram:
/// `(N_PEG + 1) * (N_PEG + 2) / 2`.
pub const N_SCORE: usize = 15;

/// For each score slot, the number of candidates that give that score.
pub type ScoreHistogram = [u16; N_SCORE];

pub open spec fn triangle(n: int) -> int {
    n * (n + 1) / 2
}

/// A score that some pair of codes could have: no more pegs than positions.
pub open spec fn is_score(s: Score) -> bool {
    s.b as int + s.w as int <= N_PEG
}

/// The slot of a score in a histogram.
pub open spec fn index_of(s: Score) -> int {
    s.b as int + triangle(N_PEG - s.w as int)
}

/// The position of a score in the canonical listing: by number of pegs, then
/// by number of white pegs.
pub open spec fn listing_pos(s: Score) -> int {
    triangle(s.b as int + s.w as int) + s.w as int
}

/// The codes that a sequence of pegs holds.
pub open spec fn codes_of(ps: Seq<Pegs>) -> Seq<Seq<u8>> {
    ps.map_values(|p: Pegs| p@)
}

/// Among the first `n` candidates, how many score against `g` in slot `k`.
pub open spec fn bucket_below(g: Seq<u8>, cands: Seq<Seq<u8>>, n: int, k: int) -> nat
    decreases n,
{
    if n <= 0 {
        0
    } else {
        bucket_below(g, cands, n - 1, k) + if index_of(score_of(g, cands[n - 1])) == k {
            1nat
        } else {
            0nat
        }
    }
}

/// How many candidates score against `g` in slot `k`.
pub open spec fn outcome_count(g: Seq<u8>, cands: Seq<Seq<u8>>, k: int) -> nat {
    bucket_below(g, cands, cands.len() as int, k)
}

/// The sum of the first `m` slots of the histogram of the first `n` candidates.
pub open spec fn histogram_total(g: Seq<u8>, cands: Seq<Seq<u8>>, n: int, m: int) -> nat
    decreases m,
{
    if m <= 0 {
        0
    } else {
        histogram_total(g, cands, n, m - 1) + bucket_below(g, cands, n, m - 1)
    }
}

proof fn lemma_triangle_small(n: int)
    requires
        0 <= n <= N_PEG + 1,
    ensures
        triangle(n) == if n == 0 {
            0int
        } else if n == 1 {
            1int
        } else if n == 2 {
            3int
        } else if n == 3 {
            6int
        } else if n == 4 {
            10int
        } else {
            15int
        },
{
    if n == 0 {
        assert(triangle(0) == 0);
    } else if n == 1 {
        assert(triangle(1) == 1);
    } else if n == 2 {
        assert(triangle(2) == 3);
    } else if n == 3 {
        assert(triangle(3) == 6);
    } else if n == 4 {
        assert(triangle(4) == 10);
    } else {
        assert(triangle(5) == 15);
    }
}

/// Distinct scores take distinct slots, and every slot lies below `N_SCORE`.
pub proof fn lemma_index_injective(s1: Score, s2: Score)
    requires
        is_score(s1),
        is_score(s2),
    ensures
        0 <= index_of(s1) < N_SCORE,
        index_of(s1) == index_of(s2) ==> s1 == s2,
{
    lemma_triangle_small(N_PEG - s1.w as int);
    lemma_triangle_small(N_PEG - s2.w as int);
}

/// Distinct scores take distinct positions in the canonical listing.
pub proof fn lemma_listing_injective(s1: Score, s2: Score)
    requires
        is_score(s1),
        is_score(s2),
    ensures
        0 <= listing_pos(s1) < N_SCORE,
        listing_pos(s1) == listing_pos(s2) ==> s1 == s2,
{
    lemma_triangle_small(s1.b as int + s1.w as int);
    lemma_triangle_small(s2.b as int + s2.w as int);
}

/// The slot of a score in a histogram: with `n = N_PEG - w`, `b + n(n+1)/2`.
pub fn score_index(s: &Score) -> (r: usize)
    requires
        is_score(*s),
    ensures
        r as int == index_of(*s),
        r < N_SCORE,
{
    proof {
        lemma_index_injective(*s, *s);
    }
    let n = N_PEG - s.w as usize;
    proof {
        lemma_triangle_small(n as int);
    }
    let t = n * (n + 1) / 2;
    (s.b as usize) + t
}

/// Every score that fits the pegs, each once, ordered by the number of pegs
/// and then by the number of white pegs.
pub fn list_scores() -> (r: Vec<Score>)
    ensures
        r@.len() == N_SCORE,
        forall|k: int| 0 <= k < r@.len() ==> is_score(#[trigger] r@[k]) && listing_pos(r@[k]) == k,
        forall|s: Score| is_score(s) ==> r@[#[trigger] listing_pos(s)] == s,
{
    let mut r: Vec<Score> = Vec::new();
    let mut total: u8 = 0;
    while total as usize <= N_PEG
        invariant
            total as int <= N_PEG + 1,
            r@.len() == triangle(total as int),
            forall|k: int|
                0 <= k < r@.len() ==> is_score(#[trigger] r@[k]) && listing_pos(r@[k]) == k,
        decreases N_PEG + 1 - total as int,
    {
        proof {
            lemma_triangle_small(total as int);
            lemma_triangle_small(total as int + 1);
        }
        let mut n_w: u8 = 0;
        while n_w <= total
            invariant
                total as int <= N_PEG,
                n_w <= total + 1,
                r@.len() == triangle(total as int) + n_w,
                forall|k: int|
                    0 <= k < r@.len() ==> is_score(#[trigger] r@[k]) && listing_pos(r@[k]) == k,
            decreases total + 1 - n_w,
        {
            r.push(Score { b: total - n_w, w: n_w });
            n_w = n_w + 1;
        }
        total = total + 1;
    }
    proof {
        lemma_triangle_small(total as int);
    }
    assert forall|s: Score| is_score(s) implies r@[#[trigger] listing_pos(s)] == s by {
        lemma_listing_injective(s, s);
        lemma_listing_injective(s, r@[listing_pos(s)]);
    }
    r
}

/// The histogram of the scores that the candidates give against `guess`.
pub fn count_outcomes(guess: &Pegs, possible: &[Pegs]) -> (r: ScoreHistogram)
    requires
        possible@.len() <= u16::MAX,
    ensures
        forall|k: int|
            0 <= k < N_SCORE ==> r[k] as nat == outcome_count(guess@, codes_of(possible@), k),
{
    let ghost cands = codes_of(possible@);
    let mut s: ScoreHistogram = [0u16; N_SCORE];
    let mut i: usize = 0;
    while i < possible.len()
        invariant
            i <= possible@.len() <= u16::MAX,
            cands == codes_of(possible@),
            forall|k: int|
                0 <= k < N_SCORE ==> s[k] as nat == bucket_below(guess@, cands, i as int, k) && s[k]
                    <= i,
        decreases possible@.len() - i,
    {
        let score = guess.score_against(&possible[i]);
        proof {
            lemma_score_bounds(guess@, possible@[i as int]@);
        }
        let idx = score_index(&score);
        s[idx] = s[idx] + 1;
        i = i + 1;
        assert forall|k: int| 0 <= k < N_SCORE implies s[k] as nat == bucket_below(
            guess@,
            cands,
            i as int,
            k,
        ) && s[k] <= i by {
            assert(cands[i - 1] == possible@[i - 1]@);
        }
    }
    s
}

proof fn lemma_total_zero(g: Seq<u8>, cands: Seq<Seq<u8>>, m: int)
    ensures
        histogram_total(g, cands, 0, m) == 0,
    decreases m,
{
    if m > 0 {
        lemma_total_zero(g, cands, m - 1);
    }
}

proof fn lemma_total_step(g: Seq<u8>, cands: Seq<Seq<u8>>, n: int, m: int)
    requires
        0 <= n,
    ensures
        histogram_total(g, cands, n + 1, m) == histogram_total(g, cands, n, m) + if 0 <= index_of(
            score_of(g, cands[n]),
        ) < m {
            1nat
        } else {
            0nat
        },
    decreases m,
{
    if m > 0 {
        lemma_total_step(g, cands, n, m - 1);
    }
}

proof fn lemma_total_prefix(g: Seq<u8>, cands: Seq<Seq<u8>>, n: int)
    requires
        is_code(g),
        0 <= n <= cands.len(),
        forall|i: int| 0 <= i < cands.len() ==> is_code(#[trigger] cands[i]),
    ensures
        histogram_total(g, cands, n, N_SCORE as int) == n,
    decreases n,
{
    if n == 0 {
        lemma_total_zero(g, cands, N_SCORE as int);
    } else {
        lemma_total_prefix(g, cands, n - 1);
        lemma_total_step(g, cands, n - 1, N_SCORE as int);
        lemma_score_bounds(g, cands[n - 1]);
        lemma_index_injective(score_of(g, cands[n - 1]), score_of(g, cands[n - 1]));
    }
}

/// The slots of the histogram of a guess add up to the number of candidates.
pub proof fn lemma_outcomes_sum(g: Seq<u8>, cands: Seq<Seq<u8>>)
    requires
        is_code(g),
        forall|i: int| 0 <= i < cands.len() ==> is_code(#[trigger] cands[i]),
    ensures
        histogram_total(g, cands, cands.len() as int, N_SCORE as int) == cands.len(),
{
    lemma_total_prefix(g, cands, cands.len() as int);
}

} // verus!
