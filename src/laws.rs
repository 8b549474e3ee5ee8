//! What holds of every grid after the spiral fill.

use vstd::prelude::*;
use crate::matrix::ColoredMatrix;
use crate::model::{
    boundary_class, boundary_class_count, boundary_index, lemma_boundary_index,
    lemma_inner_count_monotone, lemma_ring_dims, lemma_value_in_ring, lemma_value_reached,
    ring_color_base, ring_of, ring_offset, spiral_color, spiral_value, PALETTE_SIZE,
};

verus! {

/// Some cell of `g` holds the value `v`.
pub open spec fn holds_value(g: &ColoredMatrix, v: int) -> bool {
    exists|i: int, j: int|
        0 <= i < g.spec_rows() && 0 <= j < g.spec_cols() && #[trigger] g.cell(i, j).value == v
}

/// After the fill, the cell values are exactly `0 .. rows * cols`, each held
/// by one cell.
pub proof fn lemma_values_are_a_permutation(g: &ColoredMatrix)
    requires
        g.wf(),
        g.is_spiral(),
    ensures
        forall|i: int, j: int|
            0 <= i < g.spec_rows() && 0 <= j < g.spec_cols() ==> #[trigger] g.cell(i, j).value
                < g.spec_rows() * g.spec_cols(),
        forall|i1: int, j1: int, i2: int, j2: int|
            0 <= i1 < g.spec_rows() && 0 <= j1 < g.spec_cols() && 0 <= i2 < g.spec_rows() && 0
                <= j2 < g.spec_cols() && #[trigger] g.cell(i1, j1).value == #[trigger] g.cell(
                i2,
                j2,
            ).value ==> i1 == i2 && j1 == j2,
        forall|v: int| 0 <= v < g.spec_rows() * g.spec_cols() ==> #[trigger] holds_value(g, v),
{
    let r = g.spec_rows();
    let c = g.spec_cols();
    assert forall|i: int, j: int| 0 <= i < r && 0 <= j < c implies #[trigger] g.cell(i, j).value
        == spiral_value(r, c, i, j) && spiral_value(r, c, i, j) < r * c by {
        lemma_value_in_ring(r, c, i, j);
    }
    assert forall|i1: int, j1: int, i2: int, j2: int|
        0 <= i1 < r && 0 <= j1 < c && 0 <= i2 < r && 0 <= j2 < c && #[trigger] g.cell(i1, j1).value
            == #[trigger] g.cell(i2, j2).value implies i1 == i2 && j1 == j2 by {
        let k1 = ring_of(r, c, i1, j1);
        let k2 = ring_of(r, c, i2, j2);
        lemma_value_in_ring(r, c, i1, j1);
        lemma_value_in_ring(r, c, i2, j2);
        if k1 < k2 {
            lemma_inner_count_monotone(r, c, k1 + 1, k2);
        } else if k2 < k1 {
            lemma_inner_count_monotone(r, c, k2 + 1, k1);
        } else {
            lemma_ring_dims(r, c, i1, j1);
            lemma_ring_dims(r, c, i2, j2);
            lemma_boundary_index(r - 2 * k1, c - 2 * k1, i1 - k1, j1 - k1);
            lemma_boundary_index(r - 2 * k1, c - 2 * k1, i2 - k1, j2 - k1);
        }
    }
    assert forall|v: int| 0 <= v < r * c implies #[trigger] holds_value(g, v) by {
        assert(ring_offset(r, c, 0) == 0);
        lemma_value_reached(r, c, 0, v);
        let (i, j) = choose|i: int, j: int|
            0 <= i < r && 0 <= j < c && #[trigger] spiral_value(r, c, i, j) == v;
        assert(g.cell(i, j).value == v);
    }
}

/// After the fill, value 0 is at the top-left corner, and the last value,
/// `rows * cols - 1`, lies on the innermost ring, whose index is
/// `(min(rows, cols) - 1) / 2`.
pub proof fn lemma_first_and_last(g: &ColoredMatrix)
    requires
        g.wf(),
        g.is_spiral(),
    ensures
        g.cell(0, 0).value == 0,
        forall|i: int, j: int|
            0 <= i < g.spec_rows() && 0 <= j < g.spec_cols() && #[trigger] g.cell(i, j).value
                == g.spec_rows() * g.spec_cols() - 1 ==> ring_of(g.spec_rows(), g.spec_cols(), i, j)
                == (if g.spec_rows() < g.spec_cols() {
                g.spec_rows()
            } else {
                g.spec_cols()
            } - 1) / 2,
{
    let r = g.spec_rows();
    let c = g.spec_cols();
    assert(g.cell(0, 0).value == spiral_value(r, c, 0, 0));
    assert(ring_offset(r, c, 0) == 0);
    assert forall|i: int, j: int|
        0 <= i < r && 0 <= j < c && #[trigger] g.cell(i, j).value == r * c - 1 implies ring_of(
            r,
            c,
            i,
            j,
        ) == (if r < c {
            r
        } else {
            c
        } - 1) / 2 by {
        let k = ring_of(r, c, i, j);
        lemma_value_in_ring(r, c, i, j);
        lemma_ring_dims(r, c, i, j);
        assert(g.cell(i, j).value == spiral_value(r, c, i, j));
        if r - 2 * (k + 1) > 0 && c - 2 * (k + 1) > 0 {
            assert((r - 2 * (k + 1)) * (c - 2 * (k + 1)) > 0) by (nonlinear_arith)
                requires
                    r - 2 * (k + 1) > 0,
                    c - 2 * (k + 1) > 0,
            ;
        }
    }
}

/// The palette indices that the fill gave to the cells of ring `k`.
pub open spec fn ring_colors(g: &ColoredMatrix, k: int) -> Set<int> {
    Set::new(
        |col: int|
            exists|i: int, j: int|
                0 <= i < g.spec_rows() && 0 <= j < g.spec_cols() && ring_of(
                    g.spec_rows(),
                    g.spec_cols(),
                    i,
                    j,
                ) == k && #[trigger] g.cell(i, j).color == col,
    )
}

/// After the fill, ring `k + 1` starts at the colour where ring `k` started,
/// moved on by the number of distinct colours that ring `k` used, modulo the
/// palette size.
pub proof fn lemma_color_continuity(g: &ColoredMatrix, k: int)
    requires
        g.wf(),
        g.is_spiral(),
        0 <= k,
        g.spec_rows() - 2 * (k + 1) >= 1,
        g.spec_cols() - 2 * (k + 1) >= 1,
    ensures
        g.cell(k + 1, k + 1).color == (g.cell(k, k).color + ring_colors(g, k).len()) % (
        PALETTE_SIZE as int),
{
    let r = g.spec_rows();
    let c = g.spec_cols();
    let h = r - 2 * k;
    let w = c - 2 * k;
    let base = ring_color_base(r, c, k as nat);
    assert(0 <= base < 16) by {
        if k > 0 {
            assert(base == (ring_color_base(r, c, (k - 1) as nat) + boundary_class_count(
                r - 2 * (k - 1),
                c - 2 * (k - 1),
            )) % 16);
        }
    }
    assert(ring_of(r, c, k, k) == k);
    assert(ring_of(r, c, k + 1, k + 1) == k + 1);
    assert(g.cell(k, k).color == spiral_color(r, c, k, k));
    assert(g.cell(k + 1, k + 1).color == spiral_color(r, c, k + 1, k + 1));
    assert(spiral_color(r, c, k, k) == base);
    assert(ring_color_base(r, c, (k + 1) as nat) == (base + 4) % 16);
    let s = set![base, (base + 1) % 16, (base + 2) % 16, (base + 3) % 16];
    // the four corners of the ring, one on each side
    let ci = seq![k, k, k + h - 1, k + h - 1];
    let cj = seq![k, k + w - 1, k + w - 1, k];
    assert forall|d: int| 0 <= d < 4 implies #[trigger] g.cell(ci[d], cj[d]).color == (base + d)
        % 16 && ring_of(r, c, ci[d], cj[d]) == k by {
        assert(g.cell(ci[d], cj[d]).color == spiral_color(r, c, ci[d], cj[d]));
    }
    assert(ring_colors(g, k) =~= s) by {
        assert forall|col: int| ring_colors(g, k).contains(col) implies s.contains(col) by {
            let (i, j) = choose|i: int, j: int|
                0 <= i < r && 0 <= j < c && ring_of(r, c, i, j) == k && #[trigger] g.cell(i, j).color
                    == col;
            assert(g.cell(i, j).color == spiral_color(r, c, i, j));
            let v = boundary_index(h, w, i - k, j - k);
            assert(0 <= boundary_class(h, w, v) < 4);
        }
        assert forall|col: int| s.contains(col) implies ring_colors(g, k).contains(col) by {
            let d = if col == base {
                0
            } else if col == (base + 1) % 16 {
                1
            } else if col == (base + 2) % 16 {
                2
            } else {
                3
            };
            assert(g.cell(ci[d], cj[d]).color == col);
        }
    }
    assert(s.len() == 4);
}

/// After the fill of a grid one cell thick, the values run `0 .. n` along
/// the line and every cell has the same colour, the first of the palette.
pub proof fn lemma_straight_line(g: &ColoredMatrix)
    requires
        g.wf(),
        g.is_spiral(),
        g.spec_rows() == 1 || g.spec_cols() == 1,
    ensures
        forall|i: int, j: int|
            0 <= i < g.spec_rows() && 0 <= j < g.spec_cols() ==> #[trigger] g.cell(i, j).value == i
                + j && g.cell(i, j).color == 0,
{
    let r = g.spec_rows();
    let c = g.spec_cols();
    assert(ring_offset(r, c, 0) == 0);
    assert forall|i: int, j: int| 0 <= i < r && 0 <= j < c implies #[trigger] g.cell(i, j).value
        == i + j && g.cell(i, j).color == 0 by {
        assert(ring_of(r, c, i, j) == 0);
        lemma_value_in_ring(r, c, i, j);
        assert(g.cell(i, j).value == spiral_value(r, c, i, j));
        assert(g.cell(i, j).color == spiral_color(r, c, i, j));
    }
}

} // verus!
