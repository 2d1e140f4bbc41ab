use gol::generators::{board_from_draws, gen_random, gen_small};
use gol::gol_instance::{from_flat, GolInstance};
use gol::solver::{can_step, iterate, step};

fn board(rows: &[&[i32]]) -> GolInstance {
    let cells: Vec<Vec<i32>> = rows.iter().map(|r| r.to_vec()).collect();
    GolInstance { h: cells.len(), w: if cells.is_empty() { 0 } else { cells[0].len() }, cells }
}

#[test]
fn gen_small_is_the_middle_row() {
    let gol = gen_small();
    assert_eq!(gol.h, 3);
    assert_eq!(gol.w, 3);
    assert_eq!(gol.cells, vec![vec![0, 0, 0], vec![1, 1, 1], vec![0, 0, 0]]);
    assert_eq!(gol.show(), "O---O\n|   |\n|###|\n|   |\nO---O\n");
}

#[test]
fn gen_small_fills_then_empties_on_its_torus() {
    // On a 3 by 3 torus every cell neighbours the eight others.
    let mut gol = gen_small();
    step(&mut gol);
    assert_eq!(gol.cells, vec![vec![1; 3]; 3]);
    step(&mut gol);
    assert_eq!(gol.cells, vec![vec![0; 3]; 3]);
    assert_eq!(gol.h, 3);
    assert_eq!(gol.w, 3);
}

#[test]
fn blinker_oscillates() {
    let vertical = board(&[
        &[0, 0, 0, 0, 0],
        &[0, 0, 1, 0, 0],
        &[0, 0, 1, 0, 0],
        &[0, 0, 1, 0, 0],
        &[0, 0, 0, 0, 0],
    ]);
    let horizontal = board(&[
        &[0, 0, 0, 0, 0],
        &[0, 0, 0, 0, 0],
        &[0, 1, 1, 1, 0],
        &[0, 0, 0, 0, 0],
        &[0, 0, 0, 0, 0],
    ]);
    let mut gol = vertical.clone();
    step(&mut gol);
    assert_eq!(gol, horizontal);
    step(&mut gol);
    assert_eq!(gol, vertical);
}

#[test]
fn block_is_still() {
    let block = board(&[&[0, 0, 0, 0], &[0, 1, 1, 0], &[0, 1, 1, 0], &[0, 0, 0, 0]]);
    let mut gol = block.clone();
    step(&mut gol);
    assert_eq!(gol, block);
}

#[test]
fn empty_board_stays_empty() {
    let row: &[i32] = &[0, 0, 0, 0, 0];
    let empty = board(&[row, row, row, row]);
    let mut gol = empty.clone();
    step(&mut gol);
    assert_eq!(gol, empty);
}

#[test]
fn neighbours_wrap_around_the_edges() {
    // Three live cells in the corners around (0, 0) bring it alive.
    let mut gol = board(&[&[0, 0, 0, 1], &[0, 0, 0, 0], &[0, 0, 0, 0], &[1, 0, 0, 1]]);
    step(&mut gol);
    assert_eq!(gol.cells[0][0], 1);
}

#[test]
fn positive_values_count_as_alive_and_add_up() {
    // A cell above zero is alive; its neighbours add their values.
    let mut gol = board(&[
        &[0, 0, 0, 0, 0],
        &[0, 2, 0, 0, 0],
        &[0, 0, 5, 0, 0],
        &[0, 0, 0, 1, 0],
        &[0, 0, 0, 0, 0],
    ]);
    step(&mut gol);
    // (2, 2) sees 2 + 1 = 3: stays alive as 1.
    assert_eq!(gol.cells[2][2], 1);
    // (1, 1) sees 5 only: dies.
    assert_eq!(gol.cells[1][1], 0);
    // (2, 1) sees 2 + 5 = 7: stays dead.
    assert_eq!(gol.cells[2][1], 0);
}

#[test]
fn glider_comes_back_around_the_torus() {
    let glider = board(&[
        &[0, 1, 0, 0, 0, 0],
        &[0, 0, 1, 0, 0, 0],
        &[1, 1, 1, 0, 0, 0],
        &[0, 0, 0, 0, 0, 0],
        &[0, 0, 0, 0, 0, 0],
        &[0, 0, 0, 0, 0, 0],
    ]);
    let mut gol = glider.clone();
    let frames = iterate(&mut gol, 4, false);
    assert!(frames.is_empty());
    assert_eq!(gol.cells[1][2], 1);
    assert_eq!(gol.cells[2][3], 1);
    assert_eq!(gol.cells[3][1], 1);
    assert_eq!(gol.cells[3][2], 1);
    assert_eq!(gol.cells[3][3], 1);
    assert_eq!(gol.flatten().iter().sum::<i32>(), 5);
    iterate(&mut gol, 20, false);
    assert_eq!(gol, glider);
}

#[test]
fn iterate_hands_back_each_drawing() {
    let mut gol = gen_small();
    let frames = iterate(&mut gol, 2, true);
    assert_eq!(frames, vec!["O---O\n|###|\n|###|\n|###|\nO---O\n".to_string(), "O---O\n|   |\n|   |\n|   |\nO---O\n".to_string()]);
}

#[test]
fn iterate_zero_times_changes_nothing() {
    let mut gol = board(&[&[5, -3], &[7, 0]]);
    let frames = iterate(&mut gol, 0, true);
    assert!(frames.is_empty());
    assert_eq!(gol.cells, vec![vec![5, -3], vec![7, 0]]);
}

#[test]
fn iterate_composes() {
    let mut a = gen_random(7, 6);
    let mut b = a.clone();
    iterate(&mut a, 3, false);
    iterate(&mut a, 4, false);
    iterate(&mut b, 7, false);
    assert_eq!(a, b);
}

#[test]
fn step_leaves_zeros_and_ones() {
    let mut gol = board(&[&[3, 9, -4], &[1, 1, 1], &[0, 2, 0]]);
    step(&mut gol);
    assert!(gol.cells.iter().flatten().all(|&c| c == 0 || c == 1));
    assert_eq!(gol.h, 3);
    assert_eq!(gol.w, 3);
    assert!(gol.cells.iter().all(|r| r.len() == 3));
}

#[test]
fn gen_random_has_the_shape_and_both_values() {
    let gol = gen_random(64, 48);
    assert_eq!(gol.w, 64);
    assert_eq!(gol.h, 48);
    assert_eq!(gol.cells.len(), 48);
    assert!(gol.cells.iter().all(|r| r.len() == 64));
    assert!(gol.cells.iter().flatten().all(|&c| c == 0 || c == 1));
    assert!(gol.cells.iter().flatten().any(|&c| c == 0));
    assert!(gol.cells.iter().flatten().any(|&c| c == 1));
}

#[test]
fn gen_random_of_zero_size() {
    let gol = gen_random(0, 0);
    assert_eq!(gol.h, 0);
    assert_eq!(gol.w, 0);
    assert!(gol.cells.is_empty());
}

#[test]
fn can_step_accepts_well_formed_boards() {
    assert!(can_step(&gen_small()));
    assert!(can_step(&GolInstance { h: 0, w: 0, cells: vec![] }));
    assert!(can_step(&board(&[&[i32::MAX, 0, 0], &[0, 0, 0], &[0, 0, 0]])));
    // On a 2 by 2 torus a cell sees its diagonal neighbour four times.
    assert!(!can_step(&board(&[&[i32::MAX, 0], &[0, 0]])));
}

#[test]
fn can_step_refuses_malformed_boards() {
    assert!(!can_step(&GolInstance { h: 2, w: 2, cells: vec![vec![0, 0]] }));
    assert!(!can_step(&GolInstance { h: 2, w: 2, cells: vec![vec![0, 0], vec![0]] }));
    assert!(!can_step(&GolInstance { h: 1, w: 3, cells: vec![vec![0, 0]] }));
}

#[test]
fn can_step_refuses_overflowing_sums() {
    // On a 3 by 3 torus, cell (1, 1) adds (0, 0) then (0, 1): MAX + 1 overflows.
    let gol = board(&[&[i32::MAX, 1, 0], &[0, 0, 0], &[0, 0, 0]]);
    assert!(!can_step(&gol));
    let gol = board(&[&[i32::MIN, -1, 0], &[0, 0, 0], &[0, 0, 0]]);
    assert!(!can_step(&gol));
}

#[test]
fn can_step_accepts_surplus_rows_and_cells() {
    assert!(can_step(&from_flat(2, vec![1, 2, 3])));
    assert!(can_step(&GolInstance { h: 2, w: 0, cells: vec![vec![5]] }));
    assert!(can_step(&GolInstance { h: 0, w: 4, cells: vec![] }));
}

#[test]
fn step_reads_only_the_stated_board() {
    // Height 1, width 2, with a short second row beyond the height.
    let mut gol = from_flat(2, vec![1, 2, 3]);
    assert_eq!(gol.h, 1);
    step(&mut gol);
    assert_eq!(gol.h, 1);
    assert_eq!(gol.w, 2);
    assert_eq!(gol.cells, vec![vec![0, 0]]);
}

#[test]
fn step_drops_surplus_rows_and_columns() {
    let mut wide = GolInstance {
        h: 5,
        w: 5,
        cells: vec![
            vec![0, 0, 0, 0, 0, 9],
            vec![0, 0, 1, 0, 0, 9],
            vec![0, 0, 1, 0, 0, 9],
            vec![0, 0, 1, 0, 0, 9],
            vec![0, 0, 0, 0, 0, 9, 9],
            vec![7, 7],
        ],
    };
    step(&mut wide);
    let horizontal = board(&[
        &[0, 0, 0, 0, 0],
        &[0, 0, 0, 0, 0],
        &[0, 1, 1, 1, 0],
        &[0, 0, 0, 0, 0],
        &[0, 0, 0, 0, 0],
    ]);
    assert_eq!(wide, horizontal);
}

#[test]
fn step_with_no_columns_leaves_empty_rows() {
    let mut gol = GolInstance { h: 2, w: 0, cells: vec![vec![5]] };
    step(&mut gol);
    assert_eq!(gol.cells, vec![Vec::<i32>::new(), Vec::new()]);
    assert_eq!(gol.h, 2);
    assert_eq!(gol.w, 0);
}

#[test]
fn iterate_zero_times_leaves_any_board() {
    let mut gol = GolInstance { h: 5, w: 7, cells: vec![vec![1]] };
    let frames = iterate(&mut gol, 0, true);
    assert!(frames.is_empty());
    assert_eq!(gol, GolInstance { h: 5, w: 7, cells: vec![vec![1]] });
}

fn shift(g: &GolInstance, a: usize, b: usize) -> GolInstance {
    let cells = (0..g.h)
        .map(|i| (0..g.w).map(|j| g.cells[(i + a) % g.h][(j + b) % g.w]).collect())
        .collect();
    GolInstance { h: g.h, w: g.w, cells }
}

fn transpose(g: &GolInstance) -> GolInstance {
    let cells = (0..g.w).map(|j| (0..g.h).map(|i| g.cells[i][j]).collect()).collect();
    GolInstance { h: g.w, w: g.h, cells }
}

#[test]
fn step_commutes_with_shifting_the_torus() {
    let g = gen_random(9, 7);
    let mut shifted = shift(&g, 3, 5);
    step(&mut shifted);
    let mut stepped = g.clone();
    step(&mut stepped);
    assert_eq!(shifted, shift(&stepped, 3, 5));
}

#[test]
fn step_commutes_with_transposing() {
    let g = gen_random(9, 7);
    let mut mirrored = transpose(&g);
    step(&mut mirrored);
    let mut stepped = g.clone();
    step(&mut stepped);
    assert_eq!(mirrored, transpose(&stepped));
}

#[test]
fn board_from_draws_fills_row_after_row() {
    let gol = board_from_draws(3, 2, &vec![1, 0, 0, 1, 1, 0]);
    assert_eq!(gol.h, 2);
    assert_eq!(gol.w, 3);
    assert_eq!(gol.cells, vec![vec![1, 0, 0], vec![1, 1, 0]]);
    let empty_rows = board_from_draws(0, 3, &vec![]);
    assert_eq!(empty_rows.cells, vec![Vec::<i32>::new(), Vec::new(), Vec::new()]);
}
