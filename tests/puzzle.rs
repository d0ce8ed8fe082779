use tents::board::{has_adjacent_tent, has_adjacent_tree, is_grid_valid, Cell, GameState};
use tents::generator::{generate_random_level, generate_solved, LevelError};
use tents::grid::{Grid, Point};

fn board_with(n: usize, trees: &[(usize, usize)], tents: &[(usize, usize)]) -> Vec<Vec<Cell>> {
    let mut g = vec![vec![Cell::Empty; n]; n];
    for &(r, c) in trees {
        g[r][c] = Cell::Tree;
    }
    for &(r, c) in tents {
        g[r][c] = Cell::Tent;
    }
    g
}

fn ring_of(n: usize, center: Point, r: usize, wrapping: bool) -> Vec<Point> {
    let mut grid = Grid { n, grid: vec![vec![0u8; n]; n] };
    let mut buf = Vec::new();
    grid.square(center, &mut buf, r, wrapping);
    buf
}

fn sorted(mut v: Vec<Point>) -> Vec<Point> {
    v.sort();
    v
}

#[test]
fn scenario_four_by_four_solution_is_valid() {
    let g = board_with(4, &[(0, 0), (3, 3)], &[(0, 1), (3, 2)]);
    let s = GameState::from_parts(g, vec![1, 0, 0, 1], vec![0, 1, 1, 0]).unwrap();
    assert!(is_grid_valid(&s));
}

#[test]
fn scenario_moved_tent_is_invalid() {
    let g = board_with(4, &[(0, 0), (3, 3)], &[(0, 1), (2, 2)]);
    let s = GameState::from_parts(g, vec![1, 0, 0, 1], vec![0, 1, 1, 0]).unwrap();
    assert!(!is_grid_valid(&s));
}

#[test]
fn moved_tent_by_toggles_is_invalid() {
    let g = board_with(4, &[(0, 0), (3, 3)], &[(0, 1), (3, 2)]);
    let mut s = GameState::from_parts(g, vec![1, 0, 0, 1], vec![0, 1, 1, 0]).unwrap();
    s.toggle(2, 3);
    s.toggle(2, 2);
    assert_eq!(s.cell(2, 3), Cell::Empty);
    assert_eq!(s.cell(2, 2), Cell::Tent);
    assert!(!is_grid_valid(&s));
}

#[test]
fn touching_tents_are_invalid() {
    let g = board_with(4, &[(0, 0), (1, 3)], &[(0, 1), (1, 2)]);
    let s = GameState::from_parts(g, vec![1, 1, 0, 0], vec![0, 1, 1, 0]).unwrap();
    assert!(!is_grid_valid(&s));
    let g = board_with(4, &[(0, 0), (0, 3)], &[(0, 1), (0, 2)]);
    let s = GameState::from_parts(g, vec![2, 0, 0, 0], vec![0, 1, 1, 0]).unwrap();
    assert!(!is_grid_valid(&s));
}

#[test]
fn tent_without_tree_is_invalid() {
    let g = board_with(4, &[(0, 0)], &[(2, 2)]);
    let s = GameState::from_parts(g, vec![0, 0, 1, 0], vec![0, 0, 1, 0]).unwrap();
    assert!(!is_grid_valid(&s));
}

#[test]
fn clue_mismatch_is_invalid() {
    let g = board_with(4, &[(0, 0), (3, 3)], &[(0, 1), (3, 2)]);
    let s = GameState::from_parts(g, vec![1, 0, 0, 1], vec![0, 2, 0, 0]).unwrap();
    assert!(!is_grid_valid(&s));
}

#[test]
fn empty_board_with_zero_clues_is_valid() {
    let s = GameState::from_parts(board_with(3, &[], &[]), vec![0; 3], vec![0; 3]).unwrap();
    assert!(is_grid_valid(&s));
}

#[test]
fn adjacency_queries() {
    let g = board_with(4, &[(0, 0)], &[(1, 1)]);
    assert!(has_adjacent_tree(&g, 1, 0));
    assert!(has_adjacent_tree(&g, 0, 1));
    assert!(!has_adjacent_tree(&g, 1, 1));
    assert!(has_adjacent_tent(&g, 0, 0));
    assert!(has_adjacent_tent(&g, 2, 2));
    assert!(!has_adjacent_tent(&g, 3, 3));
    assert!(!has_adjacent_tent(&g, 1, 1));
}

#[test]
fn toggle_twice_restores_board() {
    let g = board_with(4, &[(0, 0)], &[]);
    let mut s = GameState::from_parts(g.clone(), vec![0; 4], vec![0; 4]).unwrap();
    s.toggle(1, 0);
    assert_eq!(s.cell(1, 0), Cell::Tent);
    s.toggle(1, 0);
    assert_eq!(s.grid(), &g);
}

#[test]
fn toggle_on_tree_never_changes_board() {
    let g = board_with(4, &[(2, 1)], &[]);
    let mut s = GameState::from_parts(g.clone(), vec![0; 4], vec![0; 4]).unwrap();
    for _ in 0..5 {
        s.toggle(1, 2);
        assert_eq!(s.grid(), &g);
    }
}

#[test]
fn toggle_off_board_is_a_no_op() {
    let g = board_with(4, &[(2, 1)], &[]);
    let mut s = GameState::from_parts(g.clone(), vec![0; 4], vec![0; 4]).unwrap();
    s.toggle(4, 0);
    s.toggle(0, 7);
    assert_eq!(s.grid(), &g);
}

#[test]
fn from_parts_rejects_bad_shapes() {
    assert!(GameState::from_parts(vec![], vec![], vec![]).is_none());
    assert!(GameState::from_parts(board_with(3, &[], &[]), vec![0; 2], vec![0; 3]).is_none());
    assert!(GameState::from_parts(board_with(3, &[], &[]), vec![0; 3], vec![0, 4, 0]).is_none());
    let mut ragged = board_with(3, &[], &[]);
    ragged[1].pop();
    assert!(GameState::from_parts(ragged, vec![0; 3], vec![0; 3]).is_none());
    let s = GameState::from_parts(board_with(3, &[], &[]), vec![0, 3, 0], vec![1; 3]).unwrap();
    assert_eq!(s.size(), 3);
    assert_eq!(s.row_constraints(), &vec![0, 3, 0]);
    assert_eq!(s.col_constraints(), &vec![1, 1, 1]);
}

#[test]
fn ring_around_center_has_eight_points() {
    let got = sorted(ring_of(5, (2, 2), 1, false));
    let want = vec![(1, 1), (1, 2), (1, 3), (2, 1), (2, 3), (3, 1), (3, 2), (3, 3)];
    assert_eq!(got, want);
}

#[test]
fn ring_at_corner_keeps_three_points() {
    let got = sorted(ring_of(5, (0, 0), 1, false));
    assert_eq!(got, vec![(0, 1), (1, 0), (1, 1)]);
}

#[test]
fn ring_at_corner_wraps_to_eight_points() {
    let got = sorted(ring_of(5, (0, 0), 1, true));
    let want = vec![(0, 1), (0, 4), (1, 0), (1, 1), (1, 4), (4, 0), (4, 1), (4, 4)];
    assert_eq!(got, want);
}

#[test]
fn ring_of_radius_zero_is_the_center() {
    assert_eq!(ring_of(5, (3, 1), 0, false), vec![(3, 1)]);
    assert_eq!(ring_of(5, (3, 1), 0, true), vec![(3, 1)]);
}

#[test]
fn ring_of_radius_two_in_band_order() {
    let got = ring_of(5, (2, 2), 2, false);
    assert_eq!(got.len(), 16);
    assert_eq!(&got[..5], &[(0, 0), (0, 1), (0, 2), (0, 3), (0, 4)]);
    assert_eq!(&got[5..7], &[(1, 0), (1, 4)]);
    let mut d = got.clone();
    d.sort();
    d.dedup();
    assert_eq!(d.len(), 16);
}

#[test]
fn ring_appends_after_existing_points() {
    let mut grid = Grid { n: 3, grid: vec![vec![0u8; 3]; 3] };
    let mut buf = vec![(9, 9)];
    grid.square((1, 1), &mut buf, 1, false);
    assert_eq!(buf.len(), 9);
    assert_eq!(buf[0], (9, 9));
}

#[test]
fn too_small_sizes_are_rejected() {
    assert_eq!(generate_random_level(0, 1).err(), Some(LevelError::SizeTooSmall));
    assert_eq!(generate_random_level(1, 1).err(), Some(LevelError::SizeTooSmall));
    assert_eq!(generate_solved(1, 1).err(), Some(LevelError::SizeTooSmall));
    assert!(generate_random_level(2, 1).is_ok());
    assert!(generate_random_level(3, 1).is_ok());
}

fn count(g: &Vec<Vec<Cell>>, c: Cell) -> usize {
    g.iter().map(|row| row.iter().filter(|&&x| x == c).count()).sum()
}

fn orth_has(g: &Vec<Vec<Cell>>, x: usize, y: usize, c: Cell) -> bool {
    let n = g.len();
    (y + 1 < n && g[y + 1][x] == c) || (x + 1 < n && g[y][x + 1] == c) || (y > 0 && g[y - 1][x] == c) || (x > 0 && g[y][x - 1] == c)
}

#[test]
fn generated_levels_hold_no_tents_and_give_trees_room() {
    for n in 4..10 {
        for seed in 0..20u64 {
            let s = generate_random_level(n, seed).unwrap();
            let g = s.grid();
            assert_eq!(s.size(), n);
            assert_eq!(g.len(), n);
            assert_eq!(count(g, Cell::Tent), 0);
            let trees = count(g, Cell::Tree);
            assert!(trees >= 1 && trees < n * n / 3);
            for y in 0..n {
                for x in 0..n {
                    if g[y][x] == Cell::Tree {
                        assert!(orth_has(g, x, y, Cell::Empty));
                    }
                }
            }
            for i in 0..n {
                assert!(s.row_constraints()[i] <= n);
                assert!(s.col_constraints()[i] <= n);
            }
        }
    }
}

#[test]
fn hidden_solution_meets_clues_and_validates_when_isolated() {
    let mut validated = 0;
    for n in 4..9 {
        for seed in 0..20u64 {
            let s = generate_solved(n, seed).unwrap();
            let g = s.grid();
            for i in 0..n {
                assert_eq!(g[i].iter().filter(|&&c| c == Cell::Tent).count(), s.row_constraints()[i]);
                assert_eq!(g.iter().filter(|row| row[i] == Cell::Tent).count(), s.col_constraints()[i]);
            }
            let mut isolated = true;
            for y in 0..n {
                for x in 0..n {
                    if g[y][x] == Cell::Tent {
                        assert!(orth_has(g, x, y, Cell::Tree));
                        if has_adjacent_tent(g, x, y) {
                            isolated = false;
                        }
                    }
                }
            }
            assert_eq!(is_grid_valid(&s), isolated);
            if isolated {
                validated += 1;
            }
        }
    }
    assert!(validated > 0);
}

#[test]
fn same_seed_gives_same_level() {
    let a = generate_random_level(7, 42).unwrap();
    let b = generate_random_level(7, 42).unwrap();
    assert_eq!(a.grid(), b.grid());
    assert_eq!(a.row_constraints(), b.row_constraints());
    let solved = generate_solved(7, 42).unwrap();
    let erased: Vec<Vec<Cell>> = solved
        .grid()
        .iter()
        .map(|row| row.iter().map(|&c| if c == Cell::Tent { Cell::Empty } else { c }).collect())
        .collect();
    assert_eq!(&erased, a.grid());
    assert_eq!(solved.col_constraints(), a.col_constraints());
}

#[test]
fn different_seeds_give_different_levels() {
    let levels: Vec<_> = (0..10u64).map(|s| generate_random_level(8, s).unwrap().grid().clone()).collect();
    assert!(levels.iter().any(|g| g != &levels[0]));
}

#[test]
fn solving_a_generated_level_by_toggles() {
    let solved = generate_solved(6, 3).unwrap();
    let mut s = generate_random_level(6, 3).unwrap();
    for y in 0..6 {
        for x in 0..6 {
            if solved.cell(x, y) == Cell::Tent {
                s.toggle(x, y);
            }
        }
    }
    assert_eq!(s.grid(), solved.grid());
    assert_eq!(is_grid_valid(&s), is_grid_valid(&solved));
}

#[test]
fn wrapped_ring_keeps_full_count_everywhere() {
    for &(x, y) in &[(0usize, 0usize), (2, 2), (4, 0), (3, 4)] {
        for r in 0..3usize {
            let got = ring_of(5, (x, y), r, true);
            let want = if r == 0 { 1 } else { 8 * r };
            assert_eq!(got.len(), want);
            let mut d = got.clone();
            d.sort();
            d.dedup();
            assert_eq!(d.len(), want);
        }
    }
}

#[test]
fn wrapped_ring_wider_than_grid_repeats_points() {
    let got = ring_of(3, (0, 0), 2, true);
    assert_eq!(got.len(), 16);
    assert!(got.iter().all(|&(x, y)| x < 3 && y < 3));
}

#[test]
fn unwrapped_ring_beyond_grid_is_empty() {
    assert!(ring_of(4, (1, 1), 5, false).is_empty());
    let got = sorted(ring_of(4, (3, 3), 2, false));
    assert_eq!(got, vec![(1, 1), (1, 2), (1, 3), (2, 1), (3, 1)]);
}

#[test]
fn hidden_solution_gives_each_tree_at_most_one_tent() {
    for n in 3..10 {
        for seed in 0..20u64 {
            let s = generate_solved(n, seed).unwrap();
            let g = s.grid();
            let trees = count(g, Cell::Tree);
            let tents = count(g, Cell::Tent);
            assert!(tents <= trees);
            assert!(trees >= 1 && trees < n * n / 3);
            let clue_total: usize = s.row_constraints().iter().sum();
            assert_eq!(clue_total, tents);
            for y in 0..n {
                for x in 0..n {
                    if g[y][x] == Cell::Tree {
                        assert!(orth_has(g, x, y, Cell::Tent) || !orth_has(g, x, y, Cell::Empty));
                    }
                }
            }
        }
    }
}

#[test]
fn generated_clue_total_is_at_most_tree_count() {
    for n in 4..10 {
        for seed in 0..10u64 {
            let s = generate_random_level(n, seed).unwrap();
            let clue_total: usize = s.row_constraints().iter().sum();
            let col_total: usize = s.col_constraints().iter().sum();
            assert_eq!(clue_total, col_total);
            assert!(clue_total <= count(s.grid(), Cell::Tree));
        }
    }
}
