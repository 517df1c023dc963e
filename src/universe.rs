use crate::pegs::{is_code, Pegs, N_COLOR, N_PEG};
use vstd::prelude::*;

verus! {

/// Number of codes: `N_COLOR` to the power `N_PEG`.
pub const N_CODES: usize = 4096;

/// The code at position `k` of the universe: the base-`N_COLOR` digits of `k`,
/// most significant first, so that the last position varies fastest.
pub open spec fn universe_code(k: int) -> Seq<u8> {
    seq![
        (k / 8 / 8 / 8 % 8) as u8,
        (k / 8 / 8 % 8) as u8,
        (k / 8 % 8) as u8,
        (k % 8) as u8,
    ]
}

/// The position of a code in the universe.
pub open spec fn code_rank(c: Seq<u8>) -> int {
    ((c[0] as int * 8 + c[1] as int) * 8 + c[2] as int) * 8 + c[3] as int
}

/// After expanding the first `m` positions, the code at position `k`.
pub open spec fn stage_code(m: int, k: int) -> Seq<u8>
    decreases m,
{
    if m <= 0 {
        seq![0u8, 0u8, 0u8, 0u8]
    } else {
        stage_code(m - 1, k / 8).update(m - 1, (k % 8) as u8)
    }
}

pub open spec fn pow8(m: int) -> nat
    decreases m,
{
    if m <= 0 {
        1
    } else {
        8 * pow8(m - 1)
    }
}

proof fn lemma_digits(k: int)
    requires
        0 <= k,
    ensures
        k == (k / 8) * 8 + k % 8,
        0 <= k % 8 < 8,
        0 <= k / 8,
        k < 8 * 8 * 8 * 8 ==> k / 8 < 8 * 8 * 8,
{
}

/// Every position of the universe holds a code, and the rank of that code
/// is the position.
pub proof fn lemma_universe_rank(k: int)
    requires
        0 <= k < N_CODES,
    ensures
        is_code(universe_code(k)),
        code_rank(universe_code(k)) == k,
{
    lemma_digits(k);
    lemma_digits(k / 8);
    lemma_digits(k / 8 / 8);
    lemma_digits(k / 8 / 8 / 8);
}

/// Every code stands in the universe, at the position given by its rank.
pub proof fn lemma_universe_complete(c: Seq<u8>)
    requires
        is_code(c),
    ensures
        0 <= code_rank(c) < N_CODES,
        universe_code(code_rank(c)) == c,
{
    let k = code_rank(c);
    assert(k / 8 == (c[0] as int * 8 + c[1] as int) * 8 + c[2] as int);
    assert(k % 8 == c[3] as int);
    assert(k / 8 / 8 == c[0] as int * 8 + c[1] as int);
    assert(k / 8 % 8 == c[2] as int);
    assert(k / 8 / 8 / 8 == c[0] as int);
    assert(universe_code(k) =~= c);
}

/// The universe holds no code twice.
pub proof fn lemma_universe_distinct(j: int, k: int)
    requires
        0 <= j < N_CODES,
        0 <= k < N_CODES,
        j != k,
    ensures
        universe_code(j) != universe_code(k),
{
    lemma_universe_rank(j);
    lemma_universe_rank(k);
}

proof fn lemma_stage_final(k: int)
    requires
        0 <= k < N_CODES,
    ensures
        stage_code(N_PEG as int, k) == universe_code(k),
{
    assert(stage_code(0, k / 8 / 8 / 8 / 8) == seq![0u8, 0u8, 0u8, 0u8]);
    let s1 = stage_code(1, k / 8 / 8 / 8);
    let s2 = stage_code(2, k / 8 / 8);
    let s3 = stage_code(3, k / 8);
    assert(s1 =~= seq![0u8, 0u8, 0u8, 0u8].update(0, (k / 8 / 8 / 8 % 8) as u8));
    assert(s2 =~= s1.update(1, (k / 8 / 8 % 8) as u8));
    assert(s3 =~= s2.update(2, (k / 8 % 8) as u8));
    assert(stage_code(N_PEG as int, k) =~= universe_code(k));
}

/// Each code of `pegs` replaced by `N_COLOR` codes, which set position
/// `index` to each color in turn.
fn expand_peg_list(pegs: &[[u8; N_PEG]], index: usize) -> (r: Vec<[u8; N_PEG]>)
    requires
        index < N_PEG || pegs@.len() == 0,
        pegs@.len() * N_COLOR <= usize::MAX,
    ensures
        r@.len() == pegs@.len() * N_COLOR,
        forall|k: int|
            0 <= k < r@.len() ==> (#[trigger] r@[k])@ == pegs@[k / 8]@.update(
                index as int,
                (k % 8) as u8,
            ),
{
    let mut r: Vec<[u8; N_PEG]> = Vec::new();
    let mut j: usize = 0;
    while j < pegs.len()
        invariant
            index < N_PEG || pegs@.len() == 0,
            j <= pegs@.len(),
            pegs@.len() * N_COLOR <= usize::MAX,
            r@.len() == j * N_COLOR,
            forall|k: int|
                0 <= k < r@.len() ==> (#[trigger] r@[k])@ == pegs@[k / 8]@.update(
                    index as int,
                    (k % 8) as u8,
                ),
        decreases pegs@.len() - j,
    {
        let mut v: u8 = 0;
        while (v as usize) < N_COLOR
            invariant
                index < N_PEG,
                j < pegs@.len(),
                pegs@.len() * N_COLOR <= usize::MAX,
                v as usize <= N_COLOR,
                r@.len() == j * N_COLOR + v,
                forall|k: int|
                    0 <= k < r@.len() ==> (#[trigger] r@[k])@ == pegs@[k / 8]@.update(
                        index as int,
                        (k % 8) as u8,
                    ),
            decreases N_COLOR - v as usize,
        {
            let mut pp = pegs[j];
            pp[index] = v;
            let ghost k = r@.len() as int;
            assert(k / 8 == j as int && k % 8 == v as int);
            assert(pp@ =~= pegs@[k / 8]@.update(index as int, (k % 8) as u8));
            r.push(pp);
            v = v + 1;
        }
        j = j + 1;
    }
    r
}

/// Every code, in the order that expands one position at a time, left to
/// right, with the newest position varying fastest.
pub fn build_all_configs() -> (r: Vec<Pegs>)
    ensures
        r@.len() == N_CODES,
        forall|k: int| 0 <= k < N_CODES ==> (#[trigger] r@[k])@ == universe_code(k),
{
    let mut list: Vec<[u8; N_PEG]> = vec![[0u8; N_PEG]];
    assert(list@[0]@ =~= stage_code(0, 0));
    let mut m: usize = 0;
    while m < N_PEG
        invariant
            m <= N_PEG,
            list@.len() == pow8(m as int),
            forall|k: int| 0 <= k < list@.len() ==> (#[trigger] list@[k])@ == stage_code(m as int, k),
        decreases N_PEG - m,
    {
        assert(pow8(m as int) <= 512) by {
            reveal_with_fuel(pow8, 4);
        }
        let next = expand_peg_list(&list, m);
        assert forall|k: int| 0 <= k < next@.len() implies (#[trigger] next@[k])@ == stage_code(
            m as int + 1,
            k,
        ) by {
            assert(0 <= k / 8 < list@.len());
        }
        list = next;
        m = m + 1;
    }
    assert(pow8(4) == 4096) by {
        reveal_with_fuel(pow8, 5);
    }
    let mut r: Vec<Pegs> = Vec::new();
    let mut i: usize = 0;
    while i < list.len()
        invariant
            i <= list@.len() == N_CODES,
            r@.len() == i,
            forall|k: int| 0 <= k < list@.len() ==> (#[trigger] list@[k])@ == stage_code(4, k),
            forall|k: int| 0 <= k < i ==> (#[trigger] r@[k])@ == universe_code(k),
        decreases list@.len() - i,
    {
        proof {
            lemma_stage_final(i as int);
            lemma_universe_rank(i as int);
        }
        r.push(Pegs::from_code(&list[i]));
        i = i + 1;
    }
    r
}

} // verus!
