use ironnest::pair_matrix::{calc_idx, PairMatrix};

#[test]
fn calc_idx_is_symmetric_and_covers_every_cell_once() {
    // The 4×4 upper-triangle layout: 10 cells, indices 0..10, and
    // (row, col) maps to the same cell as (col, row).
    let size = 4;
    let mut upper = Vec::new();
    for r in 0..size {
        for c in 0..size {
            assert_eq!(
                calc_idx(r, c, size),
                calc_idx(c, r, size),
                "({r},{c}) must equal ({c},{r})"
            );
            if r <= c {
                upper.push(calc_idx(r, c, size));
            }
        }
    }
    upper.sort_unstable();
    assert_eq!(
        upper,
        (0..10).collect::<Vec<_>>(),
        "upper triangle is dense 0..10"
    );
}

#[test]
fn calc_idx_row_major_offsets() {
    // row 0: 0 1 2 3 ; row 1: 4 5 6 ; row 2: 7 8 ; row 3: 9
    assert_eq!(calc_idx(0, 0, 4), 0);
    assert_eq!(calc_idx(0, 3, 4), 3);
    assert_eq!(calc_idx(1, 1, 4), 4);
    assert_eq!(calc_idx(2, 3, 4), 8);
    assert_eq!(calc_idx(3, 3, 4), 9);
    assert_eq!(calc_idx(3, 1, 4), 6);
}

#[test]
fn pair_matrix_new_sets_every_cell() {
    let m = PairMatrix::new(5, 1u32);
    assert_eq!(m.size, 5);
    assert_eq!(m.data.len(), 15);
    assert!(m.data.iter().all(|&v| v == 1));
}

#[test]
fn pair_matrix_cells_are_symmetric() {
    let mut m = PairMatrix::new(3, 0u32);
    m.set_cell(2, 0, 7);
    assert_eq!(m.cell(0, 2), 7);
    assert_eq!(m.cell(2, 0), 7);
    assert_eq!(m.cell(1, 1), 0);
    m.set_cell(1, 1, 4);
    assert_eq!(m.cell(1, 1), 4);
    assert_eq!(m.data.iter().filter(|&&v| v != 0).count(), 2);
}

#[test]
fn pair_matrix_of_size_zero_is_empty() {
    let m = PairMatrix::new(0, 0u8);
    assert!(m.data.is_empty());
}

#[test]
fn pair_matrix_write_leaves_other_cells_alone() {
    let mut m = PairMatrix::new(4, 0u32);
    m.set_cell(1, 3, 9);
    for r in 0..4 {
        for c in 0..4 {
            let expected = if (r, c) == (1, 3) || (r, c) == (3, 1) { 9 } else { 0 };
            assert_eq!(m.cell(r, c), expected, "cell ({r},{c})");
        }
    }
}
