use knight_tours::frontier::expand_frontier;
use knight_tours::jumps::{JumpTable, SENTINEL};
use rayon::prelude::ParallelIterator;
use rayon::prelude::IntoParallelRefIterator;
use knight_tours::orchestrator::{run_mode_a, run_mode_b, Totals};
use knight_tours::Error;

fn valid_moves(table: &JumpTable, pos: u8) -> usize {
    let mut n = 0;
    for j in 0..8u8 {
        if table.jump_at(pos, j) != SENTINEL {
            n += 1;
        }
    }
    n
}

#[test]
fn jump_table_width5_corner_and_center() {
    let table = JumpTable::new(5).unwrap();
    // A corner square has exactly 2 valid candidate moves.
    assert_eq!(valid_moves(&table, 0), 2);
    assert_eq!(valid_moves(&table, 4), 2);
    assert_eq!(valid_moves(&table, 20), 2);
    assert_eq!(valid_moves(&table, 24), 2);
    // The center square has exactly 8.
    assert_eq!(valid_moves(&table, 12), 8);
}

#[test]
fn jump_table_width3_is_sparse() {
    let table = JumpTable::new(3).unwrap();
    for pos in 0..9u8 {
        assert!(valid_moves(&table, pos) <= 2);
    }
    // The center of the 3x3 board has no moves at all.
    assert_eq!(valid_moves(&table, 4), 0);
}

#[test]
fn jump_table_targets_are_on_board() {
    for width in 3..=15u8 {
        let table = JumpTable::new(width).unwrap();
        let size = width * width;
        for pos in 0..size {
            for j in 0..8u8 {
                let t = table.jump_at(pos, j);
                assert!(t == SENTINEL || t < size);
            }
        }
    }
}

#[test]
fn rejects_width_below_three() {
    assert_eq!(run_mode_a(0), Err(Error::WidthTooSmall));
    assert_eq!(run_mode_a(1), Err(Error::WidthTooSmall));
    assert_eq!(run_mode_a(2), Err(Error::WidthTooSmall));
    assert_eq!(run_mode_b(2, 0, 1), Err(Error::WidthTooSmall));
    assert_eq!(JumpTable::new(2).err(), Some(Error::WidthTooSmall));
}

#[test]
fn rejects_width_above_encoding() {
    assert_eq!(run_mode_a(16), Err(Error::WidthTooLarge));
    assert_eq!(run_mode_b(100, 0, 1), Err(Error::WidthTooLarge));
    assert_eq!(JumpTable::new(16).err(), Some(Error::WidthTooLarge));
    assert!(JumpTable::new(15).is_ok());
}

#[test]
fn mode_b_rejects_bad_start_and_depth() {
    assert_eq!(run_mode_b(3, 9, 1), Err(Error::StartOutOfRange));
    assert_eq!(run_mode_b(3, 0, 9), Err(Error::DepthTooLarge));
    assert!(run_mode_b(3, 8, 8).is_ok());
}

#[test]
fn no_tours_on_tiny_boards() {
    // The 3x3 board strands its center square and the 4x4 board has no
    // knight's tour at all.
    let t3 = run_mode_a(3).unwrap();
    assert_eq!(t3.open, 0);
    assert_eq!(t3.directed_closed, 0);
    assert_eq!(t3.undirected_closed, 0);
    let t4 = run_mode_a(4).unwrap();
    assert_eq!(t4.open, 0);
    assert_eq!(t4.directed_closed, 0);
}

#[test]
fn width5_regression_baseline() {
    // The board-wide open-tour total of the 5x5 board is a fixed,
    // reproducible number, and the odd board admits no closed tour.
    let first = run_mode_a(5).unwrap();
    let second = run_mode_a(5).unwrap();
    assert_eq!(first, second);
    assert_eq!(first.open, 1728);
    assert_eq!(first.directed_closed, 0);
    assert_eq!(first.undirected_closed, 0);
}

#[test]
fn undirected_is_half_of_directed() {
    for width in 3..=5u8 {
        let t = run_mode_a(width).unwrap();
        assert_eq!(t.undirected_closed, t.directed_closed / 2);
        assert_eq!(t.directed_closed % 2, 0);
    }
}

#[test]
fn closed_at_most_open_for_fixed_start() {
    for start in 0..25u8 {
        let t = run_mode_b(5, start, 2).unwrap();
        assert!(t.directed_closed <= t.open);
    }
}

#[test]
fn frontier_depth_does_not_change_totals() {
    // Splitting the search deeper redistributes the work but never changes
    // the totals.
    let base = run_mode_b(5, 0, 0).unwrap();
    for depth in 1..=6usize {
        assert_eq!(run_mode_b(5, 0, depth).unwrap(), base);
    }
    assert_eq!(base.open, 304);
}

fn count_truncated_paths(
    table: &JumpTable,
    path: &mut Vec<u8>,
    visited: &mut Vec<bool>,
    depth: usize,
) -> usize {
    if path.len() == depth + 1 {
        return 1;
    }
    let mut n = 0;
    let pos = *path.last().unwrap();
    for j in 0..8u8 {
        let t = table.jump_at(pos, j);
        if t != SENTINEL && !visited[t as usize] {
            visited[t as usize] = true;
            path.push(t);
            n += count_truncated_paths(table, path, visited, depth);
            path.pop();
            visited[t as usize] = false;
        }
    }
    n
}

#[test]
fn frontier_states_are_exactly_the_truncated_paths() {
    let table = JumpTable::new(5).unwrap();
    let depth = 3usize;
    let states = expand_frontier(&table, 0, depth);
    let mut seen: Vec<Vec<u8>> = Vec::new();
    for sd in &states {
        assert_eq!(sd.sp, depth);
        assert_eq!(sd.start, 0);
        let path: Vec<u8> = sd.stack_sq[0..depth + 1].to_vec();
        assert_eq!(path[0], 0);
        // The squares of a state's stack are pairwise distinct ...
        for a in 0..path.len() {
            for b in (a + 1)..path.len() {
                assert_ne!(path[a], path[b]);
            }
        }
        // ... joined by knight moves ...
        for k in 0..depth {
            let mut connected = false;
            for j in 0..8u8 {
                if table.jump_at(path[k], j) == path[k + 1] {
                    connected = true;
                }
            }
            assert!(connected);
        }
        // ... and mirrored exactly by the visited-set.
        for sq in 0..25u8 {
            assert_eq!(sd.visited[sq as usize], path.contains(&sq));
        }
        // No path appears twice.
        assert!(!seen.contains(&path));
        seen.push(path);
    }
    // No path is missing: the frontier is as large as an independent
    // enumeration of depth-limited simple paths from the root.
    let mut path = vec![0u8];
    let mut visited = vec![false; 25];
    visited[0] = true;
    let expected = count_truncated_paths(&table, &mut path, &mut visited, depth);
    assert_eq!(states.len(), expected);
}

#[test]
fn mode_a_equals_sum_of_per_start_runs() {
    // Mode A's board-wide open total is the sum of the start-scoped open
    // counts of mode B over every start.
    let total = run_mode_a(5).unwrap();
    let mut open_sum: u128 = 0;
    let mut closed_sum: u128 = 0;
    for start in 0..25u8 {
        let t = run_mode_b(5, start, 0).unwrap();
        open_sum += t.open;
        closed_sum += t.directed_closed;
    }
    assert_eq!(open_sum, total.open);
    assert_eq!(closed_sum, total.directed_closed);
}

#[test]
fn parallel_and_sequential_runs_agree() {
    // One worker or many: the reduction is a sum of disjoint contributions,
    // so the totals are identical.
    let sequential = run_mode_a(5).unwrap();
    let per_start: Vec<Totals> = (0..25u8)
        .collect::<Vec<u8>>()
        .par_iter()
        .map(|s| run_mode_b(5, *s, 2).unwrap())
        .collect();
    let open: u128 = per_start.iter().map(|t| t.open).sum();
    let closed: u128 = per_start.iter().map(|t| t.directed_closed).sum();
    assert_eq!(open, sequential.open);
    assert_eq!(closed, sequential.directed_closed);
}
