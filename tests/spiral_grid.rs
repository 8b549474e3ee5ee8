use spiral::{decimal_len, render_field, ColoredCell, ColoredMatrix, GridError, DEFAULT_COLOR};

fn filled(rows: usize, cols: usize) -> ColoredMatrix {
    let mut g = ColoredMatrix::new(rows, cols).unwrap();
    g.draw_spiral();
    g
}

fn value_at(g: &ColoredMatrix, i: usize, j: usize) -> usize {
    g.get(i, j).value
}

fn color_at(g: &ColoredMatrix, i: usize, j: usize) -> u8 {
    g.get(i, j).color
}

fn assert_permutation(rows: usize, cols: usize) {
    let g = filled(rows, cols);
    let mut seen = vec![false; rows * cols];
    for i in 0..rows {
        for j in 0..cols {
            let v = value_at(&g, i, j);
            assert!(v < rows * cols, "{}x{}: value {} out of range", rows, cols, v);
            assert!(!seen[v], "{}x{}: value {} twice", rows, cols, v);
            seen[v] = true;
        }
    }
    assert!(seen.iter().all(|&b| b));
}

#[test]
fn new_grid_is_blank() {
    let g = ColoredMatrix::new(3, 4).unwrap();
    assert_eq!(g.rows(), 3);
    assert_eq!(g.cols(), 4);
    for i in 0..3 {
        for j in 0..4 {
            assert_eq!(g.get(i, j), ColoredCell { value: 0, color: DEFAULT_COLOR });
        }
    }
}

#[test]
fn zero_dimension_is_rejected() {
    assert_eq!(ColoredMatrix::new(0, 5).err(), Some(GridError::InvalidDimension));
    assert_eq!(ColoredMatrix::new(5, 0).err(), Some(GridError::InvalidDimension));
    assert_eq!(ColoredMatrix::new(0, 0).err(), Some(GridError::InvalidDimension));
}

#[test]
fn values_are_a_permutation() {
    for &(r, c) in &[(1, 1), (1, 5), (5, 1), (2, 2), (2, 3), (3, 3), (3, 4), (4, 3), (5, 5), (7, 7), (8, 10), (10, 8), (6, 9)] {
        assert_permutation(r, c);
    }
}

#[test]
fn eight_by_ten_edges_and_corners() {
    let g = filled(8, 10);
    assert_eq!(value_at(&g, 0, 0), 0);
    assert_eq!(value_at(&g, 0, 9), 9);
    assert_eq!(value_at(&g, 7, 9), 16);
    assert_eq!(value_at(&g, 7, 0), 25);
    assert_eq!(value_at(&g, 1, 0), 31);
    assert_eq!(value_at(&g, 1, 1), 32);
    let corners = [color_at(&g, 0, 0), color_at(&g, 0, 9), color_at(&g, 7, 9), color_at(&g, 7, 0)];
    assert_eq!(corners, [0, 1, 2, 3]);
}

#[test]
fn eight_by_ten_full_layout() {
    let g = filled(8, 10);
    let expected: [[usize; 10]; 8] = [
        [0, 1, 2, 3, 4, 5, 6, 7, 8, 9],
        [31, 32, 33, 34, 35, 36, 37, 38, 39, 10],
        [30, 55, 56, 57, 58, 59, 60, 61, 40, 11],
        [29, 54, 71, 72, 73, 74, 75, 62, 41, 12],
        [28, 53, 70, 79, 78, 77, 76, 63, 42, 13],
        [27, 52, 69, 68, 67, 66, 65, 64, 43, 14],
        [26, 51, 50, 49, 48, 47, 46, 45, 44, 15],
        [25, 24, 23, 22, 21, 20, 19, 18, 17, 16],
    ];
    for i in 0..8 {
        for j in 0..10 {
            assert_eq!(value_at(&g, i, j), expected[i][j], "cell ({}, {})", i, j);
        }
    }
    // the innermost ring is 2 by 4, starting at (3, 3); its last cell is (4, 3)
    assert_eq!(value_at(&g, 3, 3), 72);
    assert_eq!(value_at(&g, 3, 6), 75);
    assert_eq!(value_at(&g, 4, 6), 76);
    assert_eq!(value_at(&g, 4, 3), 79);
}

#[test]
fn last_value_is_on_innermost_ring() {
    let g = filled(3, 3);
    assert_eq!(value_at(&g, 1, 1), 8);
    let g = filled(4, 4);
    assert_eq!(value_at(&g, 1, 1), 12);
    assert_eq!(value_at(&g, 2, 1), 15);
    let g = filled(5, 3);
    assert_eq!(value_at(&g, 1, 1), 12);
    assert_eq!(value_at(&g, 3, 1), 14);
}

#[test]
fn ring_colors_continue() {
    let g = filled(8, 10);
    assert_eq!(color_at(&g, 0, 0), 0);
    assert_eq!(color_at(&g, 1, 1), 4);
    assert_eq!(color_at(&g, 2, 2), 8);
    assert_eq!(color_at(&g, 3, 3), 12);
    // the sides of the innermost ring
    assert_eq!(color_at(&g, 3, 6), 13);
    assert_eq!(color_at(&g, 4, 6), 14);
    assert_eq!(color_at(&g, 4, 3), 15);
    // a fifth ring wraps round the palette
    let g = filled(10, 10);
    assert_eq!(color_at(&g, 4, 4), 0);
    assert_eq!(color_at(&g, 4, 5), 1);
}

#[test]
fn single_row_is_one_line_in_one_color() {
    let g = filled(1, 6);
    for j in 0..6 {
        assert_eq!(value_at(&g, 0, j), j);
        assert_eq!(color_at(&g, 0, j), 0);
    }
}

#[test]
fn single_column_is_one_line_in_one_color() {
    let g = filled(6, 1);
    for i in 0..6 {
        assert_eq!(value_at(&g, i, 0), i);
        assert_eq!(color_at(&g, i, 0), 0);
    }
}

#[test]
fn single_cell() {
    let g = filled(1, 1);
    assert_eq!(g.get(0, 0), ColoredCell { value: 0, color: 0 });
}

#[test]
fn odd_square_centre_is_set() {
    let g = filled(3, 3);
    assert_eq!(g.get(1, 1), ColoredCell { value: 8, color: 4 });
    assert_eq!(value_at(&g, 0, 0), 0);
}

#[test]
fn boundary_of_full_rectangle() {
    let mut g = ColoredMatrix::new(3, 4).unwrap();
    assert_eq!(g.draw_boundary(0, 0, 3, 4, 14, 5), (10, 4));
    assert_eq!(g.get(0, 0), ColoredCell { value: 5, color: 14 });
    assert_eq!(g.get(0, 3), ColoredCell { value: 8, color: 15 });
    assert_eq!(g.get(2, 3), ColoredCell { value: 10, color: 0 });
    assert_eq!(g.get(2, 0), ColoredCell { value: 13, color: 1 });
    assert_eq!(g.get(1, 0), ColoredCell { value: 14, color: 1 });
    // the inside is untouched
    assert_eq!(g.get(1, 1), ColoredCell { value: 0, color: DEFAULT_COLOR });
    assert_eq!(g.get(1, 2), ColoredCell { value: 0, color: DEFAULT_COLOR });
}

#[test]
fn boundary_of_line_uses_one_class() {
    let mut g = ColoredMatrix::new(3, 5).unwrap();
    assert_eq!(g.draw_boundary(1, 1, 1, 3, 2, 20), (3, 1));
    assert_eq!(g.get(1, 1), ColoredCell { value: 20, color: 2 });
    assert_eq!(g.get(1, 3), ColoredCell { value: 22, color: 2 });
    let mut g = ColoredMatrix::new(4, 2).unwrap();
    assert_eq!(g.draw_boundary(0, 1, 4, 1, 0, 0), (4, 1));
    assert_eq!(g.get(3, 1), ColoredCell { value: 3, color: 0 });
    assert_eq!(g.get(3, 0), ColoredCell { value: 0, color: DEFAULT_COLOR });
}

#[test]
fn field_widths() {
    assert_eq!(ColoredMatrix::new(8, 10).unwrap().field_width(), 3);
    assert_eq!(ColoredMatrix::new(1, 1).unwrap().field_width(), 2);
    assert_eq!(ColoredMatrix::new(10, 11).unwrap().field_width(), 4);
    assert_eq!(ColoredMatrix::new(2, 5).unwrap().field_width(), 2);
}

#[test]
fn decimal_lengths() {
    assert_eq!(decimal_len(0), 1);
    assert_eq!(decimal_len(9), 1);
    assert_eq!(decimal_len(10), 2);
    assert_eq!(decimal_len(12345), 5);
}

#[test]
fn fields_are_right_justified() {
    assert_eq!(render_field(7, 3), "  7");
    assert_eq!(render_field(79, 3), " 79");
    assert_eq!(render_field(0, 2), " 0");
    assert_eq!(render_field(1234, 2), "1234");
    assert_eq!(render_field(405, 0), "405");
}

#[test]
fn render_round_trip() {
    for &(r, c) in &[(8, 10), (1, 1), (3, 7), (12, 1)] {
        let g = filled(r, c);
        let text = g.render();
        assert_eq!(text.len(), r);
        for i in 0..r {
            assert_eq!(text[i].len(), c);
            for j in 0..c {
                assert_eq!(text[i][j].len(), g.field_width());
                let back: usize = text[i][j].trim().parse().unwrap();
                assert_eq!(back, value_at(&g, i, j));
            }
        }
    }
}

#[test]
fn render_eight_by_ten_first_row() {
    let g = filled(8, 10);
    let row: String = g.render()[0].concat();
    assert_eq!(row, "  0  1  2  3  4  5  6  7  8  9");
    let row: String = g.render()[7].concat();
    assert_eq!(row, " 25 24 23 22 21 20 19 18 17 16");
}
