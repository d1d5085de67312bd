use prisoners::game::{evaluate, search};
use prisoners::grid::{build_lookup, create_game, get_index, labelled_boxes, lay_out, Grid, Lookup};
use prisoners::trials::{play, run, tally, Aggregate};

/// The lookup of the boxes labelled 1 to 100.
fn labels() -> Lookup {
    build_lookup(&labelled_boxes())
}

/// A game in which the box labelled `v` holds `next(v)`.
fn grid_from(next: impl Fn(u32) -> u32) -> Grid {
    let mut g: Grid = [[0; 10]; 10];
    for v in 1..=100u32 {
        let k = (v - 1) as usize;
        g[k / 10][k % 10] = next(v);
    }
    g
}

/// Cycles of the given lengths, one after another over 1 to 100.
fn cycles(lengths: &[u32]) -> Grid {
    assert_eq!(lengths.iter().sum::<u32>(), 100);
    let mut next = vec![0u32; 101];
    let mut start = 1;
    for &len in lengths {
        for v in start..start + len {
            next[v as usize] = if v + 1 == start + len { start } else { v + 1 };
        }
        start += len;
    }
    grid_from(|v| next[v as usize])
}

fn sorted_values(g: &Grid) -> Vec<u32> {
    let mut all: Vec<u32> = g.iter().flat_map(|row| row.iter().copied()).collect();
    all.sort();
    all
}

#[test]
fn created_games_are_permutations() {
    let expected: Vec<u32> = (1..=100).collect();
    for _ in 0..50 {
        assert_eq!(sorted_values(&create_game()), expected);
    }
}

#[test]
fn created_games_differ() {
    let first = create_game();
    assert!((0..20).any(|_| create_game() != first));
}

#[test]
fn labelled_boxes_count_up_row_by_row() {
    let g = labelled_boxes();
    assert_eq!(g[0][0], 1);
    assert_eq!(g[0][9], 10);
    assert_eq!(g[1][0], 11);
    assert_eq!(g[4][7], 48);
    assert_eq!(g[9][9], 100);
}

#[test]
fn lookup_inverts_generated_grid() {
    for _ in 0..20 {
        let g = create_game();
        let lookup = build_lookup(&g);
        assert_eq!(lookup.len(), 100);
        for v in 1..=100u32 {
            let (x, y) = get_index(&lookup, v);
            assert_eq!(g[x][y], v);
        }
    }
}

#[test]
fn lookup_of_labels() {
    let lookup = labels();
    assert_eq!(get_index(&lookup, 1), (0, 0));
    assert_eq!(get_index(&lookup, 10), (0, 9));
    assert_eq!(get_index(&lookup, 57), (5, 6));
    assert_eq!(get_index(&lookup, 100), (9, 9));
}

#[test]
fn identity_game_is_won() {
    let lookup = labels();
    let g = labelled_boxes();
    assert!(evaluate(&g, &lookup));
}

#[test]
fn placed_prisoner_opens_one_box() {
    let lookup = labels();
    let g = cycles(&[1, 99]);
    assert_eq!(search(&g, &lookup, 1), Some(1));
    assert_eq!(search(&g, &lookup, 2), None);
    let id = labelled_boxes();
    for p in 1..=100 {
        assert_eq!(search(&id, &lookup, p), Some(1));
    }
}

#[test]
fn search_counts_cycle_length() {
    let lookup = labels();
    let g = cycles(&[3, 47, 50]);
    assert_eq!(search(&g, &lookup, 1), Some(3));
    assert_eq!(search(&g, &lookup, 2), Some(3));
    assert_eq!(search(&g, &lookup, 4), Some(47));
    assert_eq!(search(&g, &lookup, 51), Some(50));
    assert_eq!(search(&g, &lookup, 100), Some(50));
}

#[test]
fn cycle_of_fifty_one_loses() {
    let lookup = labels();
    let g = cycles(&[51, 49]);
    assert!(!evaluate(&g, &lookup));
    assert_eq!(search(&g, &lookup, 1), None);
    assert_eq!(search(&g, &lookup, 52), Some(49));
}

#[test]
fn cycles_of_fifty_win() {
    let lookup = labels();
    let g = cycles(&[50, 50]);
    assert!(evaluate(&g, &lookup));
    assert_eq!(search(&g, &lookup, 1), Some(50));
}

#[test]
fn short_cycles_win() {
    let lookup = labels();
    assert!(evaluate(&cycles(&[10, 20, 30, 40]), &lookup));
    assert!(evaluate(&cycles(&[2; 50]), &lookup));
}

#[test]
fn single_long_cycle_loses() {
    let lookup = labels();
    let g = grid_from(|v| v % 100 + 1);
    assert!(!evaluate(&g, &lookup));
    assert!(!evaluate(&cycles(&[1, 1, 98]), &lookup));
}

#[test]
fn play_gives_zero_or_one() {
    let lookup = labels();
    for _ in 0..100 {
        assert!(play(&lookup) <= 1);
    }
}

#[test]
fn tally_counts_wins() {
    assert_eq!(tally(&vec![]), Aggregate { successes: 0, trials: 0 });
    assert_eq!(tally(&vec![1, 0, 1, 1, 0]), Aggregate { successes: 3, trials: 5 });
}

#[test]
fn fixed_winning_game_gives_all_wins() {
    let lookup = labels();
    let g = cycles(&[50, 50]);
    let outcomes: Vec<u32> = (0..1000).map(|_| if evaluate(&g, &lookup) { 1 } else { 0 }).collect();
    let a = tally(&outcomes);
    assert_eq!(a.trials, 1000);
    assert_eq!(a.successes, 1000);
    assert_eq!(a.successes as f64 / a.trials as f64 * 100.0, 100.0);
}

#[test]
fn fixed_losing_game_gives_no_wins() {
    let lookup = labels();
    let g = cycles(&[51, 49]);
    let outcomes: Vec<u32> = (0..1000).map(|_| if evaluate(&g, &lookup) { 1 } else { 0 }).collect();
    let a = tally(&outcomes);
    assert_eq!(a.trials, 1000);
    assert_eq!(a.successes, 0);
    assert_eq!(a.successes as f64 / a.trials as f64 * 100.0, 0.0);
}

#[test]
fn run_reports_every_trial() {
    let lookup = labels();
    for n in [0usize, 1, 7, 1000] {
        let a = run(n, &lookup);
        assert_eq!(a.trials, n);
        assert!(a.successes <= n);
    }
}

#[test]
fn run_on_varying_worker_counts() {
    let lookup = labels();
    for threads in [1usize, 2, 3, 8] {
        let pool = rayon::ThreadPoolBuilder::new().num_threads(threads).build().unwrap();
        let a = pool.install(|| run(2000, &lookup));
        assert_eq!(a.trials, 2000);
        assert!(a.successes <= 2000);
    }
}

#[test]
fn win_rate_is_near_theory() {
    let lookup = labels();
    let n = 20_000;
    let a = run(n, &lookup);
    let percentage = a.successes as f64 / a.trials as f64 * 100.0;
    assert!(percentage > 28.0 && percentage < 34.5, "{}", percentage);
}

#[test]
fn lay_out_fills_rows_in_order() {
    let numbers: Vec<u32> = (1..=100).rev().collect();
    let g = lay_out(&numbers);
    assert_eq!(g[0], [100, 99, 98, 97, 96, 95, 94, 93, 92, 91]);
    assert_eq!(g[3][4], 100 - 34);
    assert_eq!(g[9], [10, 9, 8, 7, 6, 5, 4, 3, 2, 1]);
    for i in 0..10 {
        for j in 0..10 {
            assert_eq!(g[i][j], numbers[10 * i + j]);
        }
    }
}

#[test]
fn lay_out_keeps_a_shuffled_order() {
    let numbers: Vec<u32> = (0..100u32).map(|k| (k * 37) % 100 + 1).collect();
    let g = lay_out(&numbers);
    assert_eq!(g[0][0], 1);
    assert_eq!(g[0][1], 38);
    assert_eq!(g[1][0], 71);
    let flat: Vec<u32> = g.iter().flat_map(|row| row.iter().copied()).collect();
    assert_eq!(flat, numbers);
}
