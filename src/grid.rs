//! The grid of boxes and the lookup from a number to the box that holds it.
use rand::seq::SliceRandom;
use std::collections::HashMap;
use vstd::prelude::*;

verus! {

broadcast use vstd::std_specs::hash::group_hash_axioms;

/// Ten rows of ten boxes, each holding one number.
pub type Grid = [[u32; 10]; 10];

/// Maps a number to the (row, column) of a box.
pub type Lookup = HashMap<u32, (usize, usize)>;

/// The number in the box at `pos`.
pub open spec fn cell(g: Grid, pos: (usize, usize)) -> u32 {
    g@[pos.0 as int]@[pos.1 as int]
}

/// Whether `pos` names one of the hundred boxes.
pub open spec fn in_grid(pos: (usize, usize)) -> bool {
    pos.0 < 10 && pos.1 < 10
}

/// The grid read row by row, as one sequence of 100 numbers.
pub open spec fn flat(g: Grid) -> Seq<u32> {
    Seq::new(100, |k: int| g@[k / 10]@[k % 10])
}

/// The numbers 1 to 100 in increasing order.
pub open spec fn one_to_hundred() -> Seq<u32> {
    Seq::new(100, |k: int| (k + 1) as u32)
}

/// Every number from 1 to 100 stands in the grid exactly once.
pub open spec fn is_permutation_grid(g: Grid) -> bool {
    flat(g).to_multiset() =~= one_to_hundred().to_multiset()
}

/// Every box holds a number from 1 to 100.
pub open spec fn values_in_range(g: Grid) -> bool {
    forall|i: int, j: int| 0 <= i < 10 && 0 <= j < 10 ==> 1 <= #[trigger] g@[i]@[j] <= 100
}

/// `m` sends each number of the grid to a box of the grid that holds it,
/// and knows no other number.
pub open spec fn is_lookup_of(g: Grid, m: Map<u32, (usize, usize)>) -> bool {
    &&& forall|v: u32| #[trigger] m.contains_key(v) ==> in_grid(m[v]) && cell(g, m[v]) == v
    &&& forall|i: int, j: int|
        0 <= i < 10 && 0 <= j < 10 ==> m.contains_key(#[trigger] g@[i]@[j])
}

/// `m` knows a box of the grid for each number from 1 to 100.
pub open spec fn covers(m: Map<u32, (usize, usize)>) -> bool {
    forall|v: u32| 1 <= v <= 100 ==> #[trigger] m.contains_key(v) && in_grid(m[v])
}

/// `m` sends different numbers to different boxes.
pub open spec fn distinct_boxes(m: Map<u32, (usize, usize)>) -> bool {
    forall|v: u32, w: u32|
        #[trigger] m.contains_key(v) && #[trigger] m.contains_key(w) && v != w ==> m[v] != m[w]
}

/// The boxes labelled 1 to 100, row by row: the box at (i, j) is labelled
/// `10 * i + j + 1`.
pub fn labelled_boxes() -> (g: Grid)
    ensures
        forall|i: int, j: int| 0 <= i < 10 && 0 <= j < 10 ==> #[trigger] g@[i]@[j] == 10 * i + j + 1,
        flat(g) =~= one_to_hundred(),
        is_permutation_grid(g),
{
    let mut g: Grid = [[0u32; 10]; 10];
    let mut i: usize = 0;
    while i < 10
        invariant
            0 <= i <= 10,
            forall|a: int, b: int| 0 <= a < i && 0 <= b < 10 ==> #[trigger] g@[a]@[b] == 10 * a + b + 1,
        decreases 10 - i,
    {
        let mut row: [u32; 10] = [0u32; 10];
        let mut j: usize = 0;
        while j < 10
            invariant
                0 <= i < 10,
                0 <= j <= 10,
                forall|b: int| 0 <= b < j ==> #[trigger] row@[b] == 10 * i + b + 1,
            decreases 10 - j,
        {
            row[j] = (10 * i + j + 1) as u32;
            j += 1;
        }
        g[i] = row;
        i += 1;
    }
    assert(flat(g) =~= one_to_hundred());
    g
}

/// Builds the lookup of a grid by recording, for each box, its number and
/// its position.
pub fn build_lookup(g: &Grid) -> (m: Lookup)
    ensures
        is_lookup_of(*g, m@),
        distinct_boxes(m@),
        is_permutation_grid(*g) ==> covers(m@),
        is_permutation_grid(*g) ==> forall|v: u32|
            1 <= v <= 100 ==> #[trigger] m@.contains_key(v) && cell(*g, m@[v]) == v,
{
    let mut m: Lookup = HashMap::new();
    let mut i: usize = 0;
    while i < 10
        invariant
            0 <= i <= 10,
            forall|v: u32| #[trigger] m@.contains_key(v) ==> in_grid(m@[v]) && cell(*g, m@[v]) == v,
            forall|a: int, b: int| 0 <= a < i && 0 <= b < 10 ==> m@.contains_key(#[trigger] g@[a]@[b]),
        decreases 10 - i,
    {
        let mut j: usize = 0;
        while j < 10
            invariant
                0 <= i < 10,
                0 <= j <= 10,
                forall|v: u32| #[trigger] m@.contains_key(v) ==> in_grid(m@[v]) && cell(*g, m@[v]) == v,
                forall|a: int, b: int| 0 <= a < i && 0 <= b < 10 ==> m@.contains_key(#[trigger] g@[a]@[b]),
                forall|b: int| 0 <= b < j ==> m@.contains_key(#[trigger] g@[i as int]@[b]),
            decreases 10 - j,
        {
            m.insert(g[i][j], (i, j));
            j += 1;
        }
        i += 1;
    }
    proof {
        if is_permutation_grid(*g) {
            lemma_permutation_covers(*g, m@);
        }
    }
    m
}

/// In a permutation grid every number from 1 to 100 has a box, so a lookup
/// of it covers them all.
proof fn lemma_permutation_covers(g: Grid, m: Map<u32, (usize, usize)>)
    requires
        is_permutation_grid(g),
        is_lookup_of(g, m),
    ensures
        covers(m),
{
    broadcast use vstd::seq_lib::group_to_multiset_ensures;

    assert forall|v: u32| 1 <= v <= 100 implies #[trigger] m.contains_key(v) && in_grid(m[v]) by {
        assert(one_to_hundred()[v - 1] == v);
        assert(one_to_hundred().contains(v));
        assert(one_to_hundred().to_multiset().count(v) > 0);
        assert(flat(g).to_multiset().count(v) > 0);
        assert(flat(g).contains(v));
        let k = choose|k: int| 0 <= k < 100 && flat(g)[k] == v;
        assert(m.contains_key(g@[k / 10]@[k % 10]));
    }
}

/// Relies on rand's `SliceRandom::shuffle` with the thread-local generator:
/// it only swaps elements, so the result holds the same numbers in some order.
#[verifier::external_body]
fn shuffle(v: &mut Vec<u32>)
    ensures
        final(v)@.len() == old(v)@.len(),
        final(v)@.to_multiset() == old(v)@.to_multiset(),
{
    v.shuffle(&mut rand::thread_rng());
}

/// Lays out 100 numbers row by row, ten to a row: row `i` holds the
/// numbers at places `10 * i` to `10 * i + 9`, in order.
pub fn lay_out(numbers: &Vec<u32>) -> (g: Grid)
    requires
        numbers@.len() == 100,
    ensures
        forall|i: int, j: int|
            0 <= i < 10 && 0 <= j < 10 ==> #[trigger] g@[i]@[j] == numbers@[10 * i + j],
        flat(g) =~= numbers@,
{
    let mut game: Grid = [[0u32; 10]; 10];
    let mut i: usize = 0;
    while i < 10
        invariant
            0 <= i <= 10,
            numbers@.len() == 100,
            forall|a: int, b: int|
                0 <= a < i && 0 <= b < 10 ==> #[trigger] game@[a]@[b] == numbers@[10 * a + b],
        decreases 10 - i,
    {
        let mut row: [u32; 10] = [0u32; 10];
        let mut j: usize = 0;
        while j < 10
            invariant
                0 <= i < 10,
                0 <= j <= 10,
                numbers@.len() == 100,
                forall|b: int| 0 <= b < j ==> #[trigger] row@[b] == numbers@[10 * i + b],
            decreases 10 - j,
        {
            row[j] = numbers[10 * i + j];
            j += 1;
        }
        game[i] = row;
        i += 1;
    }
    assert(flat(game) =~= numbers@);
    game
}

/// A fresh game: the numbers 1 to 100 in a random order, laid out row by
/// row, ten to a row.
pub fn create_game() -> (g: Grid)
    ensures
        is_permutation_grid(g),
        values_in_range(g),
{
    let mut numbers: Vec<u32> = Vec::new();
    let mut n: u32 = 1;
    while n <= 100
        invariant
            1 <= n <= 101,
            numbers@ =~= one_to_hundred().take(n - 1),
        decreases 101 - n,
    {
        numbers.push(n);
        n += 1;
    }
    assert(numbers@ =~= one_to_hundred());
    shuffle(&mut numbers);

    let game = lay_out(&numbers);
    assert(flat(game) =~= numbers@);
    proof {
        lemma_permutation_in_range(game);
    }
    game
}

/// A permutation grid holds only numbers from 1 to 100.
pub proof fn lemma_permutation_in_range(g: Grid)
    requires
        is_permutation_grid(g),
    ensures
        values_in_range(g),
{
    broadcast use vstd::seq_lib::group_to_multiset_ensures;

    assert forall|i: int, j: int| 0 <= i < 10 && 0 <= j < 10 implies 1 <= #[trigger] g@[i]@[j] <= 100 by {
        let v = g@[i]@[j];
        assert(flat(g)[10 * i + j] == v);
        assert(flat(g).contains(v));
        assert(flat(g).to_multiset().count(v) > 0);
        assert(one_to_hundred().to_multiset().count(v) > 0);
        assert(one_to_hundred().contains(v));
    }
}

/// In a permutation grid, different boxes hold different numbers.
pub proof fn lemma_permutation_distinct(g: Grid)
    requires
        is_permutation_grid(g),
    ensures
        forall|a: (usize, usize), b: (usize, usize)|
            in_grid(a) && in_grid(b) && a != b ==> #[trigger] cell(g, a) != #[trigger] cell(g, b),
{
    broadcast use vstd::seq_lib::group_to_multiset_ensures;

    let ordered = one_to_hundred();
    assert(ordered.no_duplicates());
    ordered.lemma_multiset_has_no_duplicates();
    flat(g).lemma_multiset_has_no_duplicates_conv();
    assert forall|a: (usize, usize), b: (usize, usize)|
        in_grid(a) && in_grid(b) && a != b implies #[trigger] cell(g, a) != #[trigger] cell(g, b) by {
        let ka = 10 * a.0 + a.1;
        let kb = 10 * b.0 + b.1;
        assert(flat(g)[ka] == cell(g, a));
        assert(flat(g)[kb] == cell(g, b));
    }
}

/// The box that the lookup gives for number `n`.
pub fn get_index(lookup: &Lookup, n: u32) -> (pos: (usize, usize))
    requires
        lookup@.contains_key(n),
    ensures
        pos == lookup@[n],
{
    *lookup.get(&n).unwrap()
}

} // verus!
