//! Many independent games, played in parallel, and the count of wins.
use crate::game::{all_find, evaluate};
use crate::grid::{covers, create_game, is_permutation_grid, Grid, Lookup};
use rayon::iter::{IntoParallelIterator, ParallelIterator};
use vstd::prelude::*;

verus! {

/// The outcome of one game: 1 when every prisoner finds their number, else 0.
pub open spec fn outcome(g: Grid, m: Map<u32, (usize, usize)>) -> u32 {
    if all_find(g, m) {
        1
    } else {
        0
    }
}

/// `r` is the outcome of some game whose boxes hold the numbers 1 to 100.
pub open spec fn is_possible_outcome(m: Map<u32, (usize, usize)>, r: u32) -> bool {
    exists|g: Grid| is_permutation_grid(g) && r == outcome(g, m)
}

/// The sum of a sequence of outcomes.
pub open spec fn successes(s: Seq<u32>) -> nat
    decreases s.len(),
{
    if s.len() == 0 {
        0
    } else {
        successes(s.drop_last()) + s.last() as nat
    }
}

/// The sums of each part, added together.
pub open spec fn successes_by_part(parts: Seq<Seq<u32>>) -> nat
    decreases parts.len(),
{
    if parts.len() == 0 {
        0
    } else {
        successes(parts.first()) + successes_by_part(parts.drop_first())
    }
}

/// The count of won games out of the count of games played.
#[derive(Clone, Copy, Debug, PartialEq, Eq, Structural)]
pub struct Aggregate {
    pub successes: usize,
    pub trials: usize,
}

impl Aggregate {
    /// Never more wins than games.
    pub open spec fn wf(&self) -> bool {
        self.successes <= self.trials
    }
}

/// Plays one game on a fresh random grid. Returns 1 when every prisoner
/// finds their number, else 0.
pub fn play(lookup: &Lookup) -> (r: u32)
    requires
        covers(lookup@),
    ensures
        is_possible_outcome(lookup@, r),
        r <= 1,
{
    let game = create_game();
    let r: u32 = if evaluate(&game, lookup) {
        1
    } else {
        0
    };
    assert(is_permutation_grid(game) && r == outcome(game, lookup@));
    r
}

/// Relies on rayon's `into_par_iter` over `0..n`, `map` and `collect` into a
/// `Vec`: the vector holds one result of `play` for each index.
#[verifier::external_body]
fn play_in_parallel(n: usize, lookup: &Lookup) -> (r: Vec<u32>)
    requires
        covers(lookup@),
    ensures
        r@.len() == n,
        forall|i: int| 0 <= i < n ==> #[trigger] is_possible_outcome(lookup@, r@[i]),
{
    (0..n).into_par_iter().map(|_| play(lookup)).collect()
}

/// Adds up the outcomes of a sequence of games.
pub fn tally(outcomes: &Vec<u32>) -> (a: Aggregate)
    requires
        forall|i: int| 0 <= i < outcomes@.len() ==> #[trigger] outcomes@[i] <= 1,
    ensures
        a.trials == outcomes@.len(),
        a.successes == successes(outcomes@),
        a.wf(),
{
    let mut total: usize = 0;
    let mut i: usize = 0;
    while i < outcomes.len()
        invariant
            0 <= i <= outcomes@.len(),
            forall|k: int| 0 <= k < outcomes@.len() ==> #[trigger] outcomes@[k] <= 1,
            total == successes(outcomes@.take(i as int)),
            total <= i,
        decreases outcomes@.len() - i,
    {
        assert(outcomes@.take(i + 1).drop_last() =~= outcomes@.take(i as int));
        total += outcomes[i] as usize;
        i += 1;
    }
    assert(outcomes@.take(i as int) =~= outcomes@);
    Aggregate { successes: total, trials: i }
}

/// Plays `n` independent games in parallel and counts the wins.
pub fn run(n: usize, lookup: &Lookup) -> (a: Aggregate)
    requires
        covers(lookup@),
    ensures
        a.trials == n,
        a.wf(),
        exists|s: Seq<u32>|
            s.len() == n && (forall|i: int| 0 <= i < n ==> #[trigger] is_possible_outcome(lookup@, s[i]))
                && a.successes == successes(s),
{
    let outcomes = play_in_parallel(n, lookup);
    proof {
        assert forall|i: int| 0 <= i < outcomes@.len() implies #[trigger] outcomes@[i] <= 1 by {
            assert(is_possible_outcome(lookup@, outcomes@[i]));
        }
    }
    tally(&outcomes)
}

/// Sums add up over a concatenation.
pub proof fn lemma_successes_concat(a: Seq<u32>, b: Seq<u32>)
    ensures
        successes(a + b) == successes(a) + successes(b),
    decreases b.len(),
{
    if b.len() == 0 {
        assert(a + b =~= a);
    } else {
        assert((a + b).drop_last() =~= a + b.drop_last());
        lemma_successes_concat(a, b.drop_last());
    }
}

/// However the games are split among workers, the sums of the parts add up
/// to the sum of all outcomes: none is lost and none is counted twice.
pub proof fn lemma_split_successes(parts: Seq<Seq<u32>>)
    ensures
        successes(parts.flatten()) == successes_by_part(parts),
    decreases parts.len(),
{
    if parts.len() > 0 {
        lemma_successes_concat(parts.first(), parts.drop_first().flatten());
        lemma_split_successes(parts.drop_first());
    }
}

/// When every game has the outcome of one fixed grid, the count of wins is
/// all of them or none.
pub proof fn lemma_uniform_outcomes(s: Seq<u32>, g: Grid, m: Map<u32, (usize, usize)>)
    requires
        forall|i: int| 0 <= i < s.len() ==> #[trigger] s[i] == outcome(g, m),
    ensures
        successes(s) == if all_find(g, m) {
            s.len()
        } else {
            0
        },
    decreases s.len(),
{
    if s.len() > 0 {
        lemma_uniform_outcomes(s.drop_last(), g, m);
    }
}

} // verus!
