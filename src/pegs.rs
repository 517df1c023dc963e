use crate::error::GameError;
use rand::Rng;
use vstd::prelude::*;

verus! {

/// Number of pegs in a code.
pub const N_PEG: usize = 4;

/// Number of colors in the palette; a peg holds a color in `0..N_COLOR`.
pub const N_COLOR: usize = 8;

/// A code: one color of the palette for each of the `N_PEG` positions.
pub open spec fn is_code(s: Seq<u8>) -> bool {
    &&& s.len() == N_PEG
    &&& forall|i: int| 0 <= i < s.len() ==> (s[i] as int) < N_COLOR
}

/// How many of the first `n` pegs of `s` have color `c`.
pub open spec fn count_in(s: Seq<u8>, n: int, c: int) -> nat
    decreases n,
{
    if n <= 0 {
        0
    } else {
        count_in(s, n - 1, c) + if s[n - 1] as int == c {
            1nat
        } else {
            0nat
        }
    }
}

/// How many of the first `n` positions hold the same color in `a` and in `b`.
pub open spec fn matches_below(a: Seq<u8>, b: Seq<u8>, n: int) -> nat
    decreases n,
{
    if n <= 0 {
        0
    } else {
        matches_below(a, b, n - 1) + if a[n - 1] == b[n - 1] {
            1nat
        } else {
            0nat
        }
    }
}

pub open spec fn min_nat(x: nat, y: nat) -> nat {
    if x <= y {
        x
    } else {
        y
    }
}

/// Size of the multiset intersection of the first `n` pegs of `a` and of `b`,
/// counted over the colors below `k`.
pub open spec fn common_below(a: Seq<u8>, b: Seq<u8>, n: int, k: int) -> nat
    decreases k,
{
    if k <= 0 {
        0
    } else {
        common_below(a, b, n, k - 1) + min_nat(count_in(a, n, k - 1), count_in(b, n, k - 1))
    }
}

/// How many of the first `n` pegs of `s` have a color below `k`.
pub open spec fn total_below(s: Seq<u8>, n: int, k: int) -> nat
    decreases k,
{
    if k <= 0 {
        0
    } else {
        total_below(s, n, k - 1) + count_in(s, n, k - 1)
    }
}

/// Number of positions where `a` and `b` agree in color (black pegs).
pub open spec fn exact_matches(a: Seq<u8>, b: Seq<u8>) -> nat {
    matches_below(a, b, N_PEG as int)
}

/// Number of pegs that `a` and `b` share by color, wherever they stand.
pub open spec fn color_matches(a: Seq<u8>, b: Seq<u8>) -> nat {
    common_below(a, b, N_PEG as int, N_COLOR as int)
}

/// The score of `b` against `a`: exact matches, and color matches beyond those.
pub open spec fn score_of(a: Seq<u8>, b: Seq<u8>) -> Score {
    Score { b: exact_matches(a, b) as u8, w: (color_matches(a, b) - exact_matches(a, b)) as u8 }
}

proof fn lemma_count_le(s: Seq<u8>, n: int, c: int)
    ensures
        n >= 0 ==> count_in(s, n, c) <= n,
    decreases n,
{
    if n > 0 {
        lemma_count_le(s, n - 1, c);
    }
}

proof fn lemma_total_step(s: Seq<u8>, n: int, k: int)
    requires
        0 <= n,
    ensures
        total_below(s, n + 1, k) == total_below(s, n, k) + if (s[n] as int) < k {
            1nat
        } else {
            0nat
        },
    decreases k,
{
    if k > 0 {
        lemma_total_step(s, n, k - 1);
    }
}

proof fn lemma_total_all(s: Seq<u8>, n: int)
    requires
        0 <= n <= s.len(),
        forall|i: int| 0 <= i < n ==> (s[i] as int) < N_COLOR,
    ensures
        total_below(s, n, N_COLOR as int) == n,
    decreases n,
{
    if n == 0 {
        lemma_total_zero(s, N_COLOR as int);
    } else {
        lemma_total_all(s, n - 1);
        lemma_total_step(s, n - 1, N_COLOR as int);
    }
}

proof fn lemma_total_zero(s: Seq<u8>, k: int)
    ensures
        total_below(s, 0, k) == 0,
    decreases k,
{
    if k > 0 {
        lemma_total_zero(s, k - 1);
    }
}

proof fn lemma_common_step(a: Seq<u8>, b: Seq<u8>, n: int, k: int)
    requires
        0 <= n,
    ensures
        common_below(a, b, n + 1, k) >= common_below(a, b, n, k) + if a[n] == b[n] && (a[n]
            as int) < k {
            1nat
        } else {
            0nat
        },
    decreases k,
{
    if k > 0 {
        lemma_common_step(a, b, n, k - 1);
    }
}

proof fn lemma_common_le_total(a: Seq<u8>, b: Seq<u8>, n: int, k: int)
    ensures
        common_below(a, b, n, k) <= total_below(a, n, k),
    decreases k,
{
    if k > 0 {
        lemma_common_le_total(a, b, n, k - 1);
    }
}

proof fn lemma_common_self(a: Seq<u8>, n: int, k: int)
    ensures
        common_below(a, a, n, k) == total_below(a, n, k),
    decreases k,
{
    if k > 0 {
        lemma_common_self(a, n, k - 1);
    }
}

proof fn lemma_common_symmetric(a: Seq<u8>, b: Seq<u8>, n: int, k: int)
    ensures
        common_below(a, b, n, k) == common_below(b, a, n, k),
    decreases k,
{
    if k > 0 {
        lemma_common_symmetric(a, b, n, k - 1);
    }
}

proof fn lemma_matches_symmetric(a: Seq<u8>, b: Seq<u8>, n: int)
    ensures
        matches_below(a, b, n) == matches_below(b, a, n),
    decreases n,
{
    if n > 0 {
        lemma_matches_symmetric(a, b, n - 1);
    }
}

proof fn lemma_matches_self(a: Seq<u8>, n: int)
    requires
        0 <= n,
    ensures
        matches_below(a, a, n) == n,
    decreases n,
{
    if n > 0 {
        lemma_matches_self(a, n - 1);
    }
}

proof fn lemma_exact_le_common(a: Seq<u8>, b: Seq<u8>, n: int)
    requires
        0 <= n <= a.len(),
        forall|i: int| 0 <= i < n ==> (a[i] as int) < N_COLOR,
    ensures
        matches_below(a, b, n) <= common_below(a, b, n, N_COLOR as int),
    decreases n,
{
    if n > 0 {
        lemma_exact_le_common(a, b, n - 1);
        lemma_common_step(a, b, n - 1, N_COLOR as int);
    }
}

/// Scoring a code against itself gives all black pegs and no white one.
pub proof fn lemma_score_self(a: Seq<u8>)
    requires
        is_code(a),
    ensures
        score_of(a, a) == (Score { b: N_PEG as u8, w: 0 }),
{
    lemma_matches_self(a, N_PEG as int);
    lemma_common_self(a, N_PEG as int, N_COLOR as int);
    lemma_total_all(a, N_PEG as int);
}

/// The score does not depend on which of the two codes is the guess.
pub proof fn lemma_score_symmetric(a: Seq<u8>, b: Seq<u8>)
    ensures
        score_of(a, b) == score_of(b, a),
{
    lemma_matches_symmetric(a, b, N_PEG as int);
    lemma_common_symmetric(a, b, N_PEG as int, N_COLOR as int);
}

/// Every exact match is also a color match, and black and white pegs
/// together never exceed the number of pegs.
pub proof fn lemma_score_bounds(a: Seq<u8>, b: Seq<u8>)
    requires
        is_code(a),
        is_code(b),
    ensures
        exact_matches(a, b) <= color_matches(a, b) <= N_PEG,
        score_of(a, b).b as int == exact_matches(a, b),
        score_of(a, b).w as int == color_matches(a, b) - exact_matches(a, b),
        score_of(a, b).b as int + score_of(a, b).w as int <= N_PEG,
{
    lemma_exact_le_common(a, b, N_PEG as int);
    lemma_common_le_total(a, b, N_PEG as int, N_COLOR as int);
    lemma_total_all(a, N_PEG as int);
}

/// A score: black pegs for exact matches, white pegs for colors that match
/// in another position.
#[derive(Clone, Copy, Debug, PartialEq, Eq, Structural)]
pub struct Score {
    /// Black: correct position and color.
    pub b: u8,
    /// White: correct color, wrong position.
    pub w: u8,
}

/// A code of pegs, with the number of pegs of each color kept beside it.
#[derive(Clone, Copy, Debug)]
pub struct Pegs {
    ordered: [u8; N_PEG],
    counts: [u8; N_COLOR],
}

impl View for Pegs {
    type V = Seq<u8>;

    closed spec fn view(&self) -> Seq<u8> {
        self.ordered@
    }
}

/// Relies on rand::thread_rng and rand::Rng::gen_range: a value in `[0, high)`.
#[verifier::external_body]
fn random_below(high: u8) -> (r: u8)
    requires
        0 < high,
    ensures
        r < high,
{
    rand::thread_rng().gen_range(0u8, high)
}

impl Pegs {
    #[verifier::type_invariant]
    spec fn well_formed(self) -> bool {
        &&& is_code(self.ordered@)
        &&& forall|c: int|
            0 <= c < N_COLOR ==> self.counts[c] as nat == count_in(
                self.ordered@,
                N_PEG as int,
                c,
            )
    }

    pub(crate) fn from_code(vals: &[u8; N_PEG]) -> (p: Pegs)
        requires
            is_code(vals@),
        ensures
            p@ == vals@,
    {
        let mut counts = [0u8; N_COLOR];
        let mut i: usize = 0;
        while i < N_PEG
            invariant
                i <= N_PEG,
                is_code(vals@),
                forall|c: int| 0 <= c < N_COLOR ==> counts[c] as nat == count_in(vals@, i as int, c),
            decreases N_PEG - i,
        {
            let v = vals[i] as usize;
            proof {
                lemma_count_le(vals@, i as int, v as int);
            }
            counts[v] = counts[v] + 1;
            i = i + 1;
            assert forall|c: int| 0 <= c < N_COLOR implies counts[c] as nat == count_in(
                vals@,
                i as int,
                c,
            ) by {}
        }
        Pegs { ordered: *vals, counts }
    }

    /// The code with these colors; a color outside the palette is refused.
    pub fn new(vals: &[u8; N_PEG]) -> (r: Result<Pegs, GameError>)
        ensures
            is_code(vals@) ==> (r matches Ok(p) && p@ == vals@),
            !is_code(vals@) ==> r == Err::<Pegs, GameError>(GameError::InvalidColorValue),
    {
        let mut i: usize = 0;
        while i < N_PEG
            invariant
                i <= N_PEG,
                forall|j: int| 0 <= j < i ==> (vals[j] as int) < N_COLOR,
            decreases N_PEG - i,
        {
            if vals[i] as usize >= N_COLOR {
                return Err(GameError::InvalidColorValue);
            }
            i = i + 1;
        }
        Ok(Pegs::from_code(vals))
    }

    /// A code whose colors are drawn at random.
    pub fn random() -> (r: Pegs)
        ensures
            is_code(r@),
    {
        let mut pegs = [0u8; N_PEG];
        let mut i: usize = 0;
        while i < N_PEG
            invariant
                i <= N_PEG,
                forall|j: int| 0 <= j < N_PEG ==> (pegs[j] as int) < N_COLOR,
            decreases N_PEG - i,
        {
            pegs[i] = random_below(N_COLOR as u8);
            i = i + 1;
        }
        Pegs::from_code(&pegs)
    }

    /// The colors, position by position.
    pub fn values(&self) -> (r: &[u8; N_PEG])
        ensures
            r@ == self@,
            is_code(self@),
    {
        proof {
            use_type_invariant(self);
        }
        &self.ordered
    }

    fn count_matches_exact(&self, b: &Pegs) -> (r: u8)
        ensures
            r as nat == exact_matches(self@, b@),
    {
        let mut n: u8 = 0;
        let mut i: usize = 0;
        while i < N_PEG
            invariant
                i <= N_PEG,
                n as nat == matches_below(self@, b@, i as int),
                n <= i,
            decreases N_PEG - i,
        {
            if self.ordered[i] == b.ordered[i] {
                n = n + 1;
            }
            i = i + 1;
        }
        n
    }

    fn count_matches_color(&self, other: &Pegs) -> (r: u8)
        ensures
            r as nat == color_matches(self@, other@),
    {
        proof {
            use_type_invariant(self);
            use_type_invariant(other);
            lemma_common_le_total(self@, other@, N_PEG as int, N_COLOR as int);
            lemma_total_all(self@, N_PEG as int);
        }
        let mut n: u8 = 0;
        let mut c: usize = 0;
        while c < N_COLOR
            invariant
                c <= N_COLOR,
                forall|d: int|
                    0 <= d < N_COLOR ==> self.counts[d] as nat == count_in(self@, N_PEG as int, d),
                forall|d: int|
                    0 <= d < N_COLOR ==> other.counts[d] as nat == count_in(
                        other@,
                        N_PEG as int,
                        d,
                    ),
                n as nat == common_below(self@, other@, N_PEG as int, c as int),
                common_below(self@, other@, N_PEG as int, N_COLOR as int) <= N_PEG,
            decreases N_COLOR - c,
        {
            proof {
                lemma_common_mono(self@, other@, N_PEG as int, c as int + 1, N_COLOR as int);
            }
            let x = self.counts[c];
            let y = other.counts[c];
            if x <= y {
                n = n + x;
            } else {
                n = n + y;
            }
            c = c + 1;
        }
        n
    }

    /// The score of `b` against this code.
    pub fn score_against(self: &Pegs, b: &Pegs) -> (r: Score)
        ensures
            r == score_of(self@, b@),
            is_code(self@),
            is_code(b@),
    {
        proof {
            use_type_invariant(self);
            use_type_invariant(b);
            lemma_score_bounds(self@, b@);
        }
        let exact = self.count_matches_exact(b);
        let color = self.count_matches_color(b);
        Score { b: exact, w: color - exact }
    }
}

proof fn lemma_common_mono(a: Seq<u8>, b: Seq<u8>, n: int, j: int, k: int)
    requires
        j <= k,
    ensures
        common_below(a, b, n, j) <= common_below(a, b, n, k),
    decreases k - j,
{
    if j < k {
        lemma_common_mono(a, b, n, j, k - 1);
    }
}

} // verus!
