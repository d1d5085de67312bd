//! One game: each prisoner follows the chain of numbers from their own box.
use crate::grid::{
    cell, covers, distinct_boxes, get_index, is_permutation_grid, lemma_permutation_distinct,
    lemma_permutation_in_range, values_in_range, Grid, Lookup,
};
use vstd::set_lib::{lemma_int_range, lemma_len_subset, set_int_range};
use vstd::prelude::*;

verus! {

/// How many boxes a prisoner may open.
pub const BUDGET: u32 = 50;

/// The number found in the box that the lookup gives for `v`.
pub open spec fn next_number(g: Grid, m: Map<u32, (usize, usize)>, v: u32) -> u32 {
    cell(g, m[v])
}

/// The number read at the `k`-th box opened on the chain that starts at `v`
/// (`v` itself for `k == 0`).
pub open spec fn chain(g: Grid, m: Map<u32, (usize, usize)>, v: u32, k: nat) -> u32
    decreases k,
{
    if k == 0 {
        v
    } else {
        next_number(g, m, chain(g, m, v, (k - 1) as nat))
    }
}

/// Prisoner `p` reads their own number at the `k`-th box and at no earlier
/// one: `k` is the length of the cycle through `p`.
pub open spec fn is_cycle_length(g: Grid, m: Map<u32, (usize, usize)>, p: u32, k: nat) -> bool {
    &&& k >= 1
    &&& chain(g, m, p, k) == p
    &&& forall|j: nat| 1 <= j < k ==> #[trigger] chain(g, m, p, j) != p
}

/// Prisoner `p` reads their own number within the first `budget` boxes.
pub open spec fn finds_within(g: Grid, m: Map<u32, (usize, usize)>, p: u32, budget: nat) -> bool {
    exists|k: nat| 1 <= k <= budget && #[trigger] chain(g, m, p, k) == p
}

/// The cycle through `p` has a length, and it is at most `budget`.
pub open spec fn cycle_at_most(g: Grid, m: Map<u32, (usize, usize)>, p: u32, budget: nat) -> bool {
    exists|k: nat| k <= budget && #[trigger] is_cycle_length(g, m, p, k)
}

/// Every prisoner from 1 to 100 finds their number within the budget.
pub open spec fn all_find(g: Grid, m: Map<u32, (usize, usize)>) -> bool {
    forall|p: u32| 1 <= p <= 100 ==> #[trigger] finds_within(g, m, p, BUDGET as nat)
}

/// Prisoner `prisoner` searches for their number. Returns the count of boxes
/// opened up to and including the one that holds it, or `None` when the
/// budget runs out first.
pub fn search(game: &Grid, lookup: &Lookup, prisoner: u32) -> (r: Option<u32>)
    requires
        values_in_range(*game),
        covers(lookup@),
        1 <= prisoner <= 100,
    ensures
        match r {
            Some(k) => k <= BUDGET && is_cycle_length(*game, lookup@, prisoner, k as nat),
            None => !finds_within(*game, lookup@, prisoner, BUDGET as nat),
        },
        next_number(*game, lookup@, prisoner) == prisoner ==> r == Some(1u32),
{
    let mut current_number: u32 = prisoner;
    let mut loop_size: u32 = 1;
    assert(chain(*game, lookup@, prisoner, 0) == prisoner);
    assert(chain(*game, lookup@, prisoner, 1) == next_number(*game, lookup@, prisoner));
    loop
        invariant
            chain(*game, lookup@, prisoner, 1) == next_number(*game, lookup@, prisoner),
            values_in_range(*game),
            covers(lookup@),
            1 <= prisoner <= 100,
            1 <= loop_size <= BUDGET,
            1 <= current_number <= 100,
            current_number == chain(*game, lookup@, prisoner, (loop_size - 1) as nat),
            forall|j: nat| 1 <= j < loop_size ==> #[trigger] chain(*game, lookup@, prisoner, j) != prisoner,
        decreases BUDGET - loop_size,
    {
        assert(lookup@.contains_key(current_number));
        let (x, y) = get_index(lookup, current_number);
        let number_in_box = game[x][y];
        assert(number_in_box == chain(*game, lookup@, prisoner, loop_size as nat));
        if number_in_box == prisoner {
            return Some(loop_size);
        }
        loop_size += 1;
        if loop_size > BUDGET {
            assert forall|k: nat| 1 <= k <= BUDGET implies #[trigger] chain(*game, lookup@, prisoner, k)
                != prisoner by {}
            return None;
        }
        current_number = number_in_box;
    }
}

/// Plays one game on the numbers hidden in `game`, with `lookup` giving the
/// box for each number. True when every prisoner finds their number.
pub fn evaluate(game: &Grid, lookup: &Lookup) -> (r: bool)
    requires
        values_in_range(*game),
        covers(lookup@),
    ensures
        r == all_find(*game, lookup@),
{
    let mut prisoner: u32 = 1;
    while prisoner <= 100
        invariant
            values_in_range(*game),
            covers(lookup@),
            1 <= prisoner <= 101,
            forall|p: u32| 1 <= p < prisoner ==> #[trigger] finds_within(*game, lookup@, p, BUDGET as nat),
        decreases 101 - prisoner,
    {
        if search(game, lookup, prisoner).is_none() {
            return false;
        }
        prisoner += 1;
    }
    true
}

/// A chain that comes back to `p` after `k` boxes comes back first after at
/// most `k` boxes.
pub proof fn lemma_first_return(g: Grid, m: Map<u32, (usize, usize)>, p: u32, k: nat)
    requires
        k >= 1,
        chain(g, m, p, k) == p,
    ensures
        exists|j: nat| j <= k && is_cycle_length(g, m, p, j),
    decreases k,
{
    if is_cycle_length(g, m, p, k) {
    } else {
        let j = choose|j: nat| 1 <= j < k && #[trigger] chain(g, m, p, j) == p;
        lemma_first_return(g, m, p, j);
    }
}

/// A game is won exactly when the cycle through each prisoner's number is at
/// most as long as the budget.
pub proof fn lemma_won_iff_short_cycles(g: Grid, m: Map<u32, (usize, usize)>)
    ensures
        all_find(g, m) <==> forall|p: u32|
            1 <= p <= 100 ==> #[trigger] cycle_at_most(g, m, p, BUDGET as nat),
{
    if all_find(g, m) {
        assert forall|p: u32| 1 <= p <= 100 implies #[trigger] cycle_at_most(g, m, p, BUDGET as nat) by {
            assert(finds_within(g, m, p, BUDGET as nat));
            let k = choose|k: nat| 1 <= k <= BUDGET && #[trigger] chain(g, m, p, k) == p;
            lemma_first_return(g, m, p, k);
        }
    }
    if forall|p: u32| 1 <= p <= 100 ==> #[trigger] cycle_at_most(g, m, p, BUDGET as nat) {
        assert forall|p: u32| 1 <= p <= 100 implies #[trigger] finds_within(g, m, p, BUDGET as nat) by {
            assert(cycle_at_most(g, m, p, BUDGET as nat));
            let k = choose|k: nat| k <= BUDGET && #[trigger] is_cycle_length(g, m, p, k);
            assert(chain(g, m, p, k) == p);
        }
    }
}

/// Every number on a chain from 1 to 100 lies between 1 and 100.
pub proof fn lemma_chain_in_range(g: Grid, m: Map<u32, (usize, usize)>, p: u32, k: nat)
    requires
        values_in_range(g),
        covers(m),
        1 <= p <= 100,
    ensures
        1 <= chain(g, m, p, k) <= 100,
    decreases k,
{
    if k > 0 {
        lemma_chain_in_range(g, m, p, (k - 1) as nat);
        let v = chain(g, m, p, (k - 1) as nat);
        assert(m.contains_key(v));
        assert(g@[m[v].0 as int]@[m[v].1 as int] == cell(g, m[v]));
    }
}

/// In a permutation game, different numbers lead to different numbers.
proof fn lemma_next_injective(g: Grid, m: Map<u32, (usize, usize)>, v: u32, w: u32)
    requires
        is_permutation_grid(g),
        covers(m),
        distinct_boxes(m),
        1 <= v <= 100,
        1 <= w <= 100,
        next_number(g, m, v) == next_number(g, m, w),
    ensures
        v == w,
{
    lemma_permutation_distinct(g);
    if v != w {
        assert(m.contains_key(v) && m.contains_key(w));
        assert(cell(g, m[v]) != cell(g, m[w]));
    }
}

/// In a permutation game, a chain that reaches the same number at steps `i`
/// and `j` comes back to its start after `j - i` steps.
proof fn lemma_chain_cancel(g: Grid, m: Map<u32, (usize, usize)>, p: u32, i: nat, j: nat)
    requires
        is_permutation_grid(g),
        covers(m),
        distinct_boxes(m),
        1 <= p <= 100,
        i <= j,
        chain(g, m, p, i) == chain(g, m, p, j),
    ensures
        chain(g, m, p, (j - i) as nat) == p,
    decreases i,
{
    if i > 0 {
        lemma_permutation_in_range(g);
        lemma_chain_in_range(g, m, p, (i - 1) as nat);
        lemma_chain_in_range(g, m, p, (j - 1) as nat);
        lemma_next_injective(g, m, chain(g, m, p, (i - 1) as nat), chain(g, m, p, (j - 1) as nat));
        lemma_chain_cancel(g, m, p, (i - 1) as nat, (j - 1) as nat);
    }
}

/// In a permutation game, the chain from each number comes back to it after
/// at most 100 steps: each prisoner's number lies on a cycle.
pub proof fn lemma_cycle_exists(g: Grid, m: Map<u32, (usize, usize)>, p: u32)
    requires
        is_permutation_grid(g),
        covers(m),
        distinct_boxes(m),
        1 <= p <= 100,
    ensures
        cycle_at_most(g, m, p, 100),
{
    lemma_permutation_in_range(g);
    if forall|k: nat| 1 <= k <= 100 ==> #[trigger] chain(g, m, p, k) != p {
        let s = Seq::new(101, |i: int| chain(g, m, p, i as nat) as int);
        assert forall|a: int, b: int| 0 <= a < s.len() && 0 <= b < s.len() && a != b implies s[a]
            != s[b] by {
            if s[a] == s[b] {
                if a < b {
                    lemma_chain_cancel(g, m, p, a as nat, b as nat);
                    assert(chain(g, m, p, (b - a) as nat) == p);
                } else {
                    lemma_chain_cancel(g, m, p, b as nat, a as nat);
                    assert(chain(g, m, p, (a - b) as nat) == p);
                }
            }
        }
        assert(s.no_duplicates());
        s.unique_seq_to_set();
        assert forall|x: int| s.to_set().contains(x) implies set_int_range(1, 101).contains(x) by {
            let i = choose|i: int| 0 <= i < s.len() && s[i] == x;
            lemma_chain_in_range(g, m, p, i as nat);
        }
        lemma_int_range(1, 101);
        lemma_len_subset(s.to_set(), set_int_range(1, 101));
        assert(false);
    }
    let k = choose|k: nat| 1 <= k <= 100 && #[trigger] chain(g, m, p, k) == p;
    lemma_first_return(g, m, p, k);
}

/// The length of a cycle is unique.
pub proof fn lemma_cycle_length_unique(g: Grid, m: Map<u32, (usize, usize)>, p: u32, a: nat, b: nat)
    requires
        is_cycle_length(g, m, p, a),
        is_cycle_length(g, m, p, b),
    ensures
        a == b,
{
    if a < b {
        assert(chain(g, m, p, a) == p);
    } else if b < a {
        assert(chain(g, m, p, b) == p);
    }
}

/// In a permutation game, the prisoners win exactly when every cycle of the
/// permutation, followed from number to box to number, is at most as long as
/// the budget.
pub proof fn lemma_permutation_won_iff_short_cycles(g: Grid, m: Map<u32, (usize, usize)>)
    requires
        is_permutation_grid(g),
        covers(m),
        distinct_boxes(m),
    ensures
        forall|p: u32| 1 <= p <= 100 ==> #[trigger] cycle_at_most(g, m, p, 100),
        all_find(g, m) <==> forall|p: u32, k: nat|
            1 <= p <= 100 && #[trigger] is_cycle_length(g, m, p, k) ==> k <= BUDGET,
{
    assert forall|p: u32| 1 <= p <= 100 implies #[trigger] cycle_at_most(g, m, p, 100) by {
        lemma_cycle_exists(g, m, p);
    }
    lemma_won_iff_short_cycles(g, m);
    if all_find(g, m) {
        assert forall|p: u32, k: nat| 1 <= p <= 100 && #[trigger] is_cycle_length(g, m, p, k) implies k
            <= BUDGET by {
            assert(cycle_at_most(g, m, p, BUDGET as nat));
            let j = choose|j: nat| j <= BUDGET && #[trigger] is_cycle_length(g, m, p, j);
            lemma_cycle_length_unique(g, m, p, j, k);
        }
    } else {
        let p = choose|p: u32| 1 <= p <= 100 && !#[trigger] cycle_at_most(g, m, p, BUDGET as nat);
        assert(cycle_at_most(g, m, p, 100));
        let k = choose|k: nat| k <= 100 && #[trigger] is_cycle_length(g, m, p, k);
        assert(k > BUDGET);
    }
}

} // verus!
