use crate::error::GameError;
use crate::histogram::codes_of;
use crate::pegs::{is_code, score_of, Pegs, Score, N_PEG};
use crate::universe::{
    build_all_configs, lemma_universe_complete, lemma_universe_rank, universe_code, N_CODES,
};
use vstd::prelude::*;

verus! {

/// Every code, in the order of the universe.
pub open spec fn universe() -> Seq<Seq<u8>> {
    Seq::new(N_CODES as nat, |k: int| universe_code(k))
}

/// The codes of `cands`, in their order, that give `score` against `guess`.
pub open spec fn keep_scoring(cands: Seq<Seq<u8>>, guess: Seq<u8>, score: Score) -> Seq<Seq<u8>>
    decreases cands.len(),
{
    if cands.len() == 0 {
        Seq::empty()
    } else {
        let rest = keep_scoring(cands.drop_last(), guess, score);
        if score_of(cands.last(), guess) == score {
            rest.push(cands.last())
        } else {
            rest
        }
    }
}

/// The candidates left once each row, in turn, has filtered the universe.
pub open spec fn candidates_after(rows: Seq<(Seq<u8>, Score)>) -> Seq<Seq<u8>>
    decreases rows.len(),
{
    if rows.len() == 0 {
        universe()
    } else {
        keep_scoring(candidates_after(rows.drop_last()), rows.last().0, rows.last().1)
    }
}

/// A code that gives, against the guess of every row, the score of that row.
pub open spec fn consistent(c: Seq<u8>, rows: Seq<(Seq<u8>, Score)>) -> bool {
    forall|i: int| 0 <= i < rows.len() ==> score_of(c, #[trigger] rows[i].0) == rows[i].1
}

/// A guess with the score that it got.
#[derive(Clone, Copy, Debug)]
pub struct BoardRow {
    pub guess: Pegs,
    pub score: Score,
}

/// The rows played so far, and the codes still consistent with all of them.
pub struct Board {
    guesses: Vec<BoardRow>,
    possible: Vec<Pegs>,
}

impl Board {
    /// The rows, as guessed codes with their scores.
    pub closed spec fn history(&self) -> Seq<(Seq<u8>, Score)> {
        self.guesses@.map_values(|r: BoardRow| (r.guess@, r.score))
    }

    /// The codes still consistent with every row.
    pub closed spec fn candidates(&self) -> Seq<Seq<u8>> {
        codes_of(self.possible@)
    }

    /// The candidates are the universe filtered by each row in turn.
    pub open spec fn wf(&self) -> bool {
        self.candidates() == candidates_after(self.history())
    }

    /// Some row was played, at most one candidate is left, and the last
    /// score was all black.
    pub open spec fn complete(&self) -> bool {
        &&& self.history().len() > 0
        &&& self.candidates().len() <= 1
        &&& self.history().last().1.b == N_PEG
    }

    /// A board with no rows, on which every code is a candidate.
    pub fn new() -> (r: Board)
        ensures
            r.wf(),
            r.history().len() == 0,
            r.candidates() == universe(),
    {
        let possible = build_all_configs();
        let b = Board { guesses: Vec::new(), possible };
        assert(b.candidates() =~= universe());
        assert(b.history() =~= Seq::<(Seq<u8>, Score)>::empty());
        b
    }

    /// The rows played so far.
    pub fn guesses(&self) -> (r: &Vec<BoardRow>)
        ensures
            r@.map_values(|row: BoardRow| (row.guess@, row.score)) == self.history(),
    {
        &self.guesses
    }

    /// The codes still consistent with every row.
    pub fn possible(&self) -> (r: &Vec<Pegs>)
        ensures
            codes_of(r@) == self.candidates(),
    {
        &self.possible
    }

    /// Records a guess with its score and keeps the candidates that give
    /// that score against the guess; refused once the board is complete.
    pub fn add_guess(&mut self, r: BoardRow) -> (res: Result<(), GameError>)
        requires
            old(self).wf(),
        ensures
            final(self).wf(),
            final(self).candidates().len() <= old(self).candidates().len(),
            old(self).complete() ==> res == Err::<(), GameError>(GameError::InvalidState)
                && final(self).history() == old(self).history() && final(self).candidates()
                == old(self).candidates(),
            !old(self).complete() ==> res == Ok::<(), GameError>(()) && final(self).history()
                == old(self).history().push((r.guess@, r.score)) && final(self).candidates()
                == keep_scoring(old(self).candidates(), r.guess@, r.score),
    {
        if self.is_complete() {
            return Err(GameError::InvalidState);
        }
        let ghost cands = self.candidates();
        let mut kept: Vec<Pegs> = Vec::new();
        let mut i: usize = 0;
        while i < self.possible.len()
            invariant
                i <= self.possible@.len(),
                cands == codes_of(self.possible@),
                codes_of(kept@) == keep_scoring(cands.take(i as int), r.guess@, r.score),
            decreases self.possible@.len() - i,
        {
            let p = self.possible[i];
            proof {
                assert(cands.take(i as int + 1).drop_last() =~= cands.take(i as int));
                assert(cands.take(i as int + 1).last() == p@);
            }
            if p.score_against(&r.guess) == r.score {
                let ghost before = kept@;
                kept.push(p);
                assert(kept@.drop_last() =~= before);
                assert(codes_of(kept@) =~= codes_of(before).push(p@));
            }
            i = i + 1;
        }
        proof {
            assert(cands.take(i as int) =~= cands);
            lemma_keep_len(cands, r.guess@, r.score);
        }
        let ghost old_history = self.history();
        self.possible = kept;
        self.guesses.push(r);
        assert(self.history() =~= old_history.push((r.guess@, r.score)));
        assert(self.history().drop_last() =~= old_history);
        Ok(())
    }

    /// True once a row was played, at most one candidate is left and the last
    /// score was all black. Before any row it is false.
    pub fn is_complete(&self) -> (r: bool)
        ensures
            r == self.complete(),
    {
        if self.guesses.len() == 0 {
            return false;
        }
        self.possible.len() <= 1 && self.guesses[self.guesses.len() - 1].score.b as usize == N_PEG
    }
}

proof fn lemma_keep_len(cands: Seq<Seq<u8>>, guess: Seq<u8>, score: Score)
    ensures
        keep_scoring(cands, guess, score).len() <= cands.len(),
    decreases cands.len(),
{
    if cands.len() > 0 {
        lemma_keep_len(cands.drop_last(), guess, score);
    }
}

proof fn lemma_keep_member(cands: Seq<Seq<u8>>, guess: Seq<u8>, score: Score, c: Seq<u8>)
    ensures
        keep_scoring(cands, guess, score).contains(c) <==> cands.contains(c) && score_of(c, guess)
            == score,
    decreases cands.len(),
{
    if cands.len() > 0 {
        let rest = cands.drop_last();
        lemma_keep_member(rest, guess, score, c);
        assert(cands =~= rest.push(cands.last()));
        if cands.contains(c) && c != cands.last() {
            let i = choose|i: int| 0 <= i < cands.len() && cands[i] == c;
            assert(rest[i] == c);
        }
        if rest.contains(c) {
            let i = choose|i: int| 0 <= i < rest.len() && rest[i] == c;
            assert(cands[i] == c);
        }
        let kept = keep_scoring(rest, guess, score);
        if score_of(cands.last(), guess) == score {
            assert(kept.push(cands.last())[kept.len() as int] == cands.last());
            if kept.contains(c) {
                let i = choose|i: int| 0 <= i < kept.len() && kept[i] == c;
                assert(kept.push(cands.last())[i] == c);
            }
            if kept.push(cands.last()).contains(c) && c != cands.last() {
                let i = choose|i: int| 0 <= i < kept.len() + 1 && kept.push(cands.last())[i] == c;
                assert(kept[i] == c);
            }
        }
    }
}

/// A code is a candidate after some rows exactly when it is a code that
/// gives, against the guess of every row, the score of that row.
pub proof fn lemma_candidates_exact(rows: Seq<(Seq<u8>, Score)>, c: Seq<u8>)
    ensures
        candidates_after(rows).contains(c) <==> is_code(c) && consistent(c, rows),
    decreases rows.len(),
{
    if rows.len() == 0 {
        if is_code(c) {
            lemma_universe_complete(c);
            assert(universe()[crate::universe::code_rank(c)] == c);
        }
        if universe().contains(c) {
            let k = choose|k: int| 0 <= k < universe().len() && universe()[k] == c;
            lemma_universe_rank(k);
        }
    } else {
        let prev = rows.drop_last();
        lemma_candidates_exact(prev, c);
        lemma_keep_member(candidates_after(prev), rows.last().0, rows.last().1, c);
        if consistent(c, rows) {
            assert forall|i: int| 0 <= i < prev.len() implies score_of(c, #[trigger] prev[i].0)
                == prev[i].1 by {
                assert(prev[i] == rows[i]);
            }
            assert(rows[rows.len() - 1] == rows.last());
        }
        if consistent(c, prev) && score_of(c, rows.last().0) == rows.last().1 {
            assert forall|i: int| 0 <= i < rows.len() implies score_of(c, #[trigger] rows[i].0)
                == rows[i].1 by {
                if i < prev.len() {
                    assert(prev[i] == rows[i]);
                }
            }
        }
    }
}

/// A secret that is a candidate stays one when a guess is recorded with the
/// score that the secret gives against it.
pub proof fn lemma_secret_kept(rows: Seq<(Seq<u8>, Score)>, secret: Seq<u8>, guess: Seq<u8>)
    requires
        candidates_after(rows).contains(secret),
    ensures
        candidates_after(rows.push((guess, score_of(secret, guess)))).contains(secret),
{
    let next = rows.push((guess, score_of(secret, guess)));
    assert(next.drop_last() =~= rows);
    lemma_keep_member(candidates_after(rows), guess, score_of(secret, guess), secret);
}

/// Recording a row never adds a candidate: the candidates after a row are
/// no more than those before.
pub proof fn lemma_candidates_shrink(rows: Seq<(Seq<u8>, Score)>, guess: Seq<u8>, score: Score)
    ensures
        candidates_after(rows.push((guess, score))).len() <= candidates_after(rows).len(),
{
    let next = rows.push((guess, score));
    assert(next.drop_last() =~= rows);
    lemma_keep_len(candidates_after(rows), guess, score);
}

/// There are never more candidates than codes.
pub proof fn lemma_candidates_bounded(rows: Seq<(Seq<u8>, Score)>)
    ensures
        candidates_after(rows).len() <= N_CODES,
    decreases rows.len(),
{
    if rows.len() > 0 {
        lemma_candidates_bounded(rows.drop_last());
        lemma_keep_len(candidates_after(rows.drop_last()), rows.last().0, rows.last().1);
    }
}

} // verus!
