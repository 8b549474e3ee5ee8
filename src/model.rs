//! Mathematical description of the spiral: where each value lands and which
//! colour it takes.

use vstd::prelude::*;

verus! {

/// Number of colours in the palette; colour indices run over `0..PALETTE_SIZE`.
pub const PALETTE_SIZE: usize = 16;

/// Number of cells on the boundary of an `h` by `w` rectangle (both at least 1).
pub open spec fn boundary_len(h: int, w: int) -> int {
    if h == 1 {
        w
    } else if w == 1 {
        h
    } else {
        2 * (h - 1) + 2 * (w - 1)
    }
}

/// Colour class of the `v`-th boundary cell: 0 top, 1 right, 2 bottom,
/// 3 left. A boundary one cell thick is a single straight line of class 0.
pub open spec fn boundary_class(h: int, w: int, v: int) -> int {
    if h == 1 || w == 1 {
        0
    } else if v < w - 1 {
        0
    } else if v < w + h - 2 {
        1
    } else if v < 2 * w + h - 3 {
        2
    } else {
        3
    }
}

/// Number of distinct colour classes on the boundary of an `h` by `w`
/// rectangle: one for a straight line, all four otherwise.
pub open spec fn boundary_class_count(h: int, w: int) -> int {
    if h == 1 || w == 1 {
        1
    } else {
        4
    }
}

/// Row, relative to the rectangle, of the `v`-th boundary cell in clockwise
/// order from the top-left corner.
pub open spec fn boundary_row(h: int, w: int, v: int) -> int {
    if h == 1 {
        0
    } else if w == 1 {
        v
    } else if v < w - 1 {
        0
    } else if v < w + h - 2 {
        v - (w - 1)
    } else if v < 2 * w + h - 3 {
        h - 1
    } else {
        h - 1 - (v - (2 * w + h - 3))
    }
}

/// Column, relative to the rectangle, of the `v`-th boundary cell.
pub open spec fn boundary_col(h: int, w: int, v: int) -> int {
    if h == 1 {
        v
    } else if w == 1 {
        0
    } else if v < w - 1 {
        v
    } else if v < w + h - 2 {
        w - 1
    } else if v < 2 * w + h - 3 {
        w - 1 - (v - (w + h - 2))
    } else {
        0
    }
}

/// Whether the relative cell `(i, j)` lies on the boundary of an `h` by `w` rectangle.
pub open spec fn on_boundary(h: int, w: int, i: int, j: int) -> bool {
    &&& 0 <= i < h
    &&& 0 <= j < w
    &&& (i == 0 || i == h - 1 || j == 0 || j == w - 1)
}

/// Position in clockwise order from the top-left corner of the boundary cell `(i, j)`.
pub open spec fn boundary_index(h: int, w: int, i: int, j: int) -> int {
    if h == 1 {
        j
    } else if w == 1 {
        i
    } else if i == 0 {
        j
    } else if j == w - 1 {
        (w - 1) + i
    } else if i == h - 1 {
        (w - 1) + (h - 1) + (w - 1 - j)
    } else {
        2 * (w - 1) + (h - 1) + (h - 1 - i)
    }
}

/// The boundary walk visits each boundary cell once: the `v`-th step lands on
/// the boundary, and its position along the walk is `v`.
pub proof fn lemma_boundary_walk(h: int, w: int, v: int)
    requires
        h >= 1,
        w >= 1,
        0 <= v < boundary_len(h, w),
    ensures
        on_boundary(h, w, boundary_row(h, w, v), boundary_col(h, w, v)),
        boundary_index(h, w, boundary_row(h, w, v), boundary_col(h, w, v)) == v,
        0 <= boundary_class(h, w, v) < 4,
{
}

/// Every boundary cell is reached by the walk, at the step that its index names.
pub proof fn lemma_boundary_index(h: int, w: int, i: int, j: int)
    requires
        h >= 1,
        w >= 1,
        on_boundary(h, w, i, j),
    ensures
        0 <= boundary_index(h, w, i, j) < boundary_len(h, w),
        boundary_row(h, w, boundary_index(h, w, i, j)) == i,
        boundary_col(h, w, boundary_index(h, w, i, j)) == j,
{
}

/// `x`, or 0 where `x` is negative.
pub open spec fn clamp0(x: int) -> int {
    if x > 0 {
        x
    } else {
        0
    }
}

/// Index of the ring of the grid that cell `(i, j)` belongs to: its distance
/// to the nearest edge of the grid.
pub open spec fn ring_of(rows: int, cols: int, i: int, j: int) -> int {
    let a = if i < j {
        i
    } else {
        j
    };
    let b = if rows - 1 - i < cols - 1 - j {
        rows - 1 - i
    } else {
        cols - 1 - j
    };
    if a < b {
        a
    } else {
        b
    }
}

/// Number of cells left inside once rings `0..k` are traced.
pub open spec fn inner_count(rows: int, cols: int, k: int) -> int {
    clamp0(rows - 2 * k) * clamp0(cols - 2 * k)
}

/// Number of cells on rings `0..k`: the first value of ring `k`.
pub open spec fn ring_offset(rows: int, cols: int, k: int) -> int {
    rows * cols - inner_count(rows, cols, k)
}

/// Palette index of the first colour of ring `k`: each ring moves it on by
/// the number of distinct colour classes the ring before it used.
pub open spec fn ring_color_base(rows: int, cols: int, k: nat) -> int
    decreases k,
{
    if k == 0 {
        0
    } else {
        (ring_color_base(rows, cols, (k - 1) as nat) + boundary_class_count(
            rows - 2 * (k - 1),
            cols - 2 * (k - 1),
        )) % (PALETTE_SIZE as int)
    }
}

/// Value of cell `(i, j)` after the spiral fill of a `rows` by `cols` grid.
pub open spec fn spiral_value(rows: int, cols: int, i: int, j: int) -> int {
    let k = ring_of(rows, cols, i, j);
    ring_offset(rows, cols, k) + boundary_index(rows - 2 * k, cols - 2 * k, i - k, j - k)
}

/// Palette index of cell `(i, j)` after the spiral fill of a `rows` by `cols` grid.
pub open spec fn spiral_color(rows: int, cols: int, i: int, j: int) -> int {
    let k = ring_of(rows, cols, i, j);
    let h = rows - 2 * k;
    let w = cols - 2 * k;
    (ring_color_base(rows, cols, k as nat) + boundary_class(h, w, boundary_index(h, w, i - k, j - k)))
        % (PALETTE_SIZE as int)
}

/// A cell of the grid lies on the boundary of ring `k` exactly when its
/// ring index is `k`.
pub proof fn lemma_ring_boundary(rows: int, cols: int, k: int, i: int, j: int)
    requires
        0 <= k,
        rows - 2 * k >= 1,
        cols - 2 * k >= 1,
        0 <= i < rows,
        0 <= j < cols,
    ensures
        on_boundary(rows - 2 * k, cols - 2 * k, i - k, j - k) <==> ring_of(rows, cols, i, j) == k,
{
}

/// Tracing ring `k` leaves exactly the cells inside it.
pub proof fn lemma_inner_count_step(rows: int, cols: int, k: int)
    requires
        0 <= k,
        rows - 2 * k >= 1,
        cols - 2 * k >= 1,
    ensures
        inner_count(rows, cols, k) - boundary_len(rows - 2 * k, cols - 2 * k) == inner_count(
            rows,
            cols,
            k + 1,
        ),
        boundary_len(rows - 2 * k, cols - 2 * k) >= 1,
{
    let h = rows - 2 * k;
    let w = cols - 2 * k;
    assert(clamp0(rows - 2 * k) == h);
    assert(clamp0(cols - 2 * k) == w);
    assert(clamp0(rows - 2 * (k + 1)) == clamp0(h - 2));
    assert(clamp0(cols - 2 * (k + 1)) == clamp0(w - 2));
    if h == 1 {
        assert(clamp0(h - 2) == 0);
    } else if w == 1 {
        assert(clamp0(w - 2) == 0);
    } else {
        assert(h * w - (2 * (h - 1) + 2 * (w - 1)) == clamp0(h - 2) * clamp0(w - 2)) by (nonlinear_arith)
            requires
                h >= 2,
                w >= 2,
                clamp0(h - 2) == h - 2,
                clamp0(w - 2) == w - 2,
        ;
    }
}

/// Fewer cells are left inside as more rings are traced, and never more than
/// the whole grid.
pub proof fn lemma_inner_count_monotone(rows: int, cols: int, k1: int, k2: int)
    requires
        rows >= 1,
        cols >= 1,
        0 <= k1 <= k2,
    ensures
        0 <= inner_count(rows, cols, k2) <= inner_count(rows, cols, k1) <= rows * cols,
{
    let a1 = clamp0(rows - 2 * k1);
    let b1 = clamp0(cols - 2 * k1);
    let a2 = clamp0(rows - 2 * k2);
    let b2 = clamp0(cols - 2 * k2);
    assert(0 <= a2 * b2 <= a1 * b1 <= rows * cols) by (nonlinear_arith)
        requires
            0 <= a2 <= a1 <= rows,
            0 <= b2 <= b1 <= cols,
    ;
}

/// A cell on ring `k` lies inside the rectangle of that ring, whose
/// dimensions are then both at least 1.
pub proof fn lemma_ring_dims(rows: int, cols: int, i: int, j: int)
    requires
        0 <= i < rows,
        0 <= j < cols,
    ensures
        ({
            let k = ring_of(rows, cols, i, j);
            &&& 0 <= k
            &&& rows - 2 * k >= 1
            &&& cols - 2 * k >= 1
            &&& on_boundary(rows - 2 * k, cols - 2 * k, i - k, j - k)
        }),
{
}

/// The values of ring `k` are `ring_offset(k) .. ring_offset(k + 1)`.
pub proof fn lemma_value_in_ring(rows: int, cols: int, i: int, j: int)
    requires
        0 <= i < rows,
        0 <= j < cols,
    ensures
        ({
            let k = ring_of(rows, cols, i, j);
            &&& ring_offset(rows, cols, k) <= spiral_value(rows, cols, i, j)
            &&& spiral_value(rows, cols, i, j) < ring_offset(rows, cols, k + 1)
            &&& ring_offset(rows, cols, k + 1) <= rows * cols
            &&& 0 <= ring_offset(rows, cols, k)
        }),
{
    let k = ring_of(rows, cols, i, j);
    lemma_ring_dims(rows, cols, i, j);
    lemma_boundary_index(rows - 2 * k, cols - 2 * k, i - k, j - k);
    lemma_inner_count_step(rows, cols, k);
    lemma_inner_count_monotone(rows, cols, 0, k);
    lemma_inner_count_monotone(rows, cols, k, k + 1);
}

/// Every value from `ring_offset(k)` up to the cell count is held by some
/// cell of ring `k` or of a ring inside it.
pub proof fn lemma_value_reached(rows: int, cols: int, k: int, v: int)
    requires
        rows >= 1,
        cols >= 1,
        0 <= k,
        ring_offset(rows, cols, k) <= v < rows * cols,
    ensures
        exists|i: int, j: int|
            0 <= i < rows && 0 <= j < cols && #[trigger] spiral_value(rows, cols, i, j) == v,
    decreases inner_count(rows, cols, k),
{
    let h = rows - 2 * k;
    let w = cols - 2 * k;
    if h <= 0 || w <= 0 {
        assert(inner_count(rows, cols, k) == 0);
        assert(false);
    } else {
        lemma_inner_count_step(rows, cols, k);
        lemma_inner_count_monotone(rows, cols, k, k + 1);
        let t = v - ring_offset(rows, cols, k);
        if t < boundary_len(h, w) {
            lemma_boundary_walk(h, w, t);
            let i = k + boundary_row(h, w, t);
            let j = k + boundary_col(h, w, t);
            lemma_ring_boundary(rows, cols, k, i, j);
            assert(spiral_value(rows, cols, i, j) == v);
        } else {
            lemma_value_reached(rows, cols, k + 1, v);
        }
    }
}

} // verus!
