//! The grid of coloured cells and the spiral fill.

use vstd::prelude::*;
use crate::model::{
    boundary_class, boundary_class_count, boundary_col, boundary_index, boundary_len,
    boundary_row, clamp0, inner_count, lemma_boundary_index, lemma_boundary_walk, lemma_inner_count_step,
    lemma_ring_boundary, on_boundary, ring_color_base, ring_of, ring_offset, spiral_color,
    spiral_value, PALETTE_SIZE,
};
use crate::render::{decimal, decimal_len, lemma_decimal_len_bound, render_field, rendered_field};

verus! {

/// One cell of the grid: its number along the spiral and its colour, an
/// index into the palette.
#[derive(Clone, Copy, Debug, PartialEq, Eq, Structural)]
pub struct ColoredCell {
    pub value: usize,
    pub color: u8,
}

/// Why a grid cannot be made.
#[derive(Clone, Copy, Debug, PartialEq, Eq, Structural)]
pub enum GridError {
    /// A grid needs at least one row and one column.
    InvalidDimension,
}

/// Palette index given to every cell of a fresh grid (bright white).
pub const DEFAULT_COLOR: u8 = 15;

/// The cell that tracing the boundary of an `h` by `w` rectangle, starting
/// at colour `color_base` and number `base`, gives to the relative boundary
/// cell `(i, j)`.
pub open spec fn boundary_cell(h: int, w: int, color_base: int, base: int, i: int, j: int) -> ColoredCell {
    let v = boundary_index(h, w, i, j);
    ColoredCell {
        value: (base + v) as usize,
        color: ((color_base + boundary_class(h, w, v)) % (PALETTE_SIZE as int)) as u8,
    }
}

/// The cell `(i, j)` of a `rows` by `cols` grid after the spiral fill.
pub open spec fn spiral_cell(rows: int, cols: int, i: int, j: int) -> ColoredCell {
    ColoredCell {
        value: spiral_value(rows, cols, i, j) as usize,
        color: spiral_color(rows, cols, i, j) as u8,
    }
}

/// Rendered text of a grid: for each row, the text of each field.
pub type GridText = Seq<Seq<Seq<char>>>;

/// The characters of each rendered field, row by row.
pub open spec fn text_of(fields: &Vec<Vec<String>>) -> GridText {
    fields@.map_values(|row: Vec<String>| row@.map_values(|f: String| f@))
}

/// A `rows` by `cols` grid of cells, stored row by row.
pub struct ColoredMatrix {
    rows: usize,
    cols: usize,
    m: Vec<Vec<ColoredCell>>,
}

impl ColoredMatrix {
    /// Number of rows.
    pub closed spec fn spec_rows(&self) -> int {
        self.rows as int
    }

    /// Number of columns.
    pub closed spec fn spec_cols(&self) -> int {
        self.cols as int
    }

    /// The cell in row `i`, column `j`.
    pub closed spec fn cell(&self, i: int, j: int) -> ColoredCell {
        self.m@[i]@[j]
    }

    /// The rows are stored as `spec_rows()` rows of `spec_cols()` cells each.
    pub closed spec fn shape_ok(&self) -> bool {
        &&& self.m@.len() == self.rows
        &&& forall|i: int| 0 <= i < self.rows ==> #[trigger] self.m@[i]@.len() == self.cols
    }

    /// Both dimensions are positive, the cell count fits a `usize`, every row
    /// has `cols` cells and every colour is a palette index.
    pub open spec fn wf(&self) -> bool {
        &&& self.shape_ok()
        &&& self.spec_rows() >= 1
        &&& self.spec_cols() >= 1
        &&& self.spec_rows() * self.spec_cols() <= usize::MAX
        &&& forall|i: int, j: int|
            0 <= i < self.spec_rows() && 0 <= j < self.spec_cols() ==> #[trigger] self.cell(
                i,
                j,
            ).color < PALETTE_SIZE
    }

    /// Every cell holds what the spiral fill gives it.
    pub open spec fn is_spiral(&self) -> bool {
        forall|i: int, j: int|
            0 <= i < self.spec_rows() && 0 <= j < self.spec_cols() ==> #[trigger] self.cell(i, j)
                == spiral_cell(self.spec_rows(), self.spec_cols(), i, j)
    }

    /// Number of rows.
    pub fn rows(&self) -> (r: usize)
        ensures
            r == self.spec_rows(),
    {
        self.rows
    }

    /// Number of columns.
    pub fn cols(&self) -> (r: usize)
        ensures
            r == self.spec_cols(),
    {
        self.cols
    }

    /// A `rows` by `cols` grid whose cells all hold value 0 in the default
    /// colour; `InvalidDimension` when either dimension is 0.
    pub fn new(rows: usize, cols: usize) -> (r: Result<ColoredMatrix, GridError>)
        requires
            rows * cols <= usize::MAX,
        ensures
            r is Err <==> rows == 0 || cols == 0,
            r is Err ==> r == Err::<ColoredMatrix, GridError>(GridError::InvalidDimension),
            r matches Ok(g) ==> {
                &&& g.wf()
                &&& g.spec_rows() == rows
                &&& g.spec_cols() == cols
                &&& forall|i: int, j: int|
                    0 <= i < rows && 0 <= j < cols ==> #[trigger] g.cell(i, j) == (ColoredCell {
                        value: 0,
                        color: DEFAULT_COLOR,
                    })
            },
    {
        if rows == 0 || cols == 0 {
            return Err(GridError::InvalidDimension);
        }
        let blank = ColoredCell { value: 0, color: DEFAULT_COLOR };
        let mut m: Vec<Vec<ColoredCell>> = Vec::new();
        let mut i: usize = 0;
        while i < rows
            invariant
                i <= rows,
                m@.len() == i,
                forall|a: int| 0 <= a < i ==> #[trigger] m@[a]@.len() == cols,
                forall|a: int, b: int|
                    0 <= a < i && 0 <= b < cols ==> #[trigger] m@[a]@[b] == blank,
            decreases rows - i,
        {
            let mut row: Vec<ColoredCell> = Vec::new();
            let mut j: usize = 0;
            while j < cols
                invariant
                    j <= cols,
                    row@.len() == j,
                    forall|b: int| 0 <= b < j ==> #[trigger] row@[b] == blank,
                decreases cols - j,
            {
                row.push(blank);
                j = j + 1;
            }
            m.push(row);
            i = i + 1;
        }
        Ok(ColoredMatrix { rows, cols, m })
    }

    /// The cell in row `i`, column `j`.
    pub fn get(&self, i: usize, j: usize) -> (r: ColoredCell)
        requires
            self.wf(),
            i < self.spec_rows(),
            j < self.spec_cols(),
        ensures
            r == self.cell(i as int, j as int),
    {
        self.m[i][j]
    }

    /// Traces the boundary of the `h` by `w` rectangle whose top-left cell is
    /// `(row_origin, col_origin)`, clockwise from that corner. The `v`-th cell
    /// traced gets the number `base_number + v` and the colour
    /// `color_base_index + class` (modulo the palette size), where the class
    /// is the side it lies on. Cells off that boundary keep what they held.
    /// Returns the number of cells traced and of distinct classes used.
    pub fn draw_boundary(
        &mut self,
        row_origin: usize,
        col_origin: usize,
        h: usize,
        w: usize,
        color_base_index: usize,
        base_number: usize,
    ) -> (r: (usize, u8))
        requires
            old(self).wf(),
            h >= 1,
            w >= 1,
            row_origin + h <= old(self).spec_rows(),
            col_origin + w <= old(self).spec_cols(),
            color_base_index < PALETTE_SIZE,
            base_number + boundary_len(h as int, w as int) <= usize::MAX,
        ensures
            final(self).wf(),
            final(self).spec_rows() == old(self).spec_rows(),
            final(self).spec_cols() == old(self).spec_cols(),
            r.0 == boundary_len(h as int, w as int),
            r.1 == boundary_class_count(h as int, w as int),
            forall|i: int, j: int|
                0 <= i < old(self).spec_rows() && 0 <= j < old(self).spec_cols()
                    ==> #[trigger] final(self).cell(i, j) == if on_boundary(
                    h as int,
                    w as int,
                    i - row_origin,
                    j - col_origin,
                ) {
                    boundary_cell(
                        h as int,
                        w as int,
                        color_base_index as int,
                        base_number as int,
                        i - row_origin,
                        j - col_origin,
                    )
                } else {
                    old(self).cell(i, j)
                },
    {
        let elements: usize = if h == 1 {
            w
        } else if w == 1 {
            h
        } else {
            2 * (h - 1) + 2 * (w - 1)
        };
        let mut used: Vec<bool> = vec![false, false, false, false];
        let mut v: usize = 0;
        while v < elements
            invariant
                self.wf(),
                self.rows == old(self).rows,
                self.cols == old(self).cols,
                h >= 1,
                w >= 1,
                row_origin + h <= self.rows,
                col_origin + w <= self.cols,
                color_base_index < PALETTE_SIZE,
                base_number + elements <= usize::MAX,
                elements == boundary_len(h as int, w as int),
                v <= elements,
                used@.len() == 4,
                forall|c: int|
                    0 <= c < 4 ==> (used@[c] <==> exists|t: int|
                        0 <= t < v && #[trigger] boundary_class(h as int, w as int, t) == c),
                forall|i: int, j: int|
                    0 <= i < self.rows && 0 <= j < self.cols ==> #[trigger] self.cell(i, j) == if on_boundary(
                        h as int,
                        w as int,
                        i - row_origin,
                        j - col_origin,
                    ) && boundary_index(h as int, w as int, i - row_origin, j - col_origin) < v {
                        boundary_cell(
                            h as int,
                            w as int,
                            color_base_index as int,
                            base_number as int,
                            i - row_origin,
                            j - col_origin,
                        )
                    } else {
                        old(self).cell(i, j)
                    },
            decreases elements - v,
        {
            let ghost gh = h as int;
            let ghost gw = w as int;
            proof {
                lemma_boundary_walk(gh, gw, v as int);
            }
            let (i, j, c): (usize, usize, usize) = if h == 1 {
                (0, v, 0)
            } else if w == 1 {
                (v, 0, 0)
            } else if v < w - 1 {
                (0, v, 0)
            } else {
                let v1 = v - (w - 1);
                if v1 < h - 1 {
                    (v1, w - 1, 1)
                } else {
                    let v2 = v1 - (h - 1);
                    if v2 < w - 1 {
                        (h - 1, w - 1 - v2, 2)
                    } else {
                        (h - 1 - (v2 - (w - 1)), 0, 3)
                    }
                }
            };
            assert(i == boundary_row(gh, gw, v as int));
            assert(j == boundary_col(gh, gw, v as int));
            assert(c == boundary_class(gh, gw, v as int));
            let ghost before = *self;
            let ghost used_before = used@;
            self.m[i + row_origin][j + col_origin] = ColoredCell {
                value: base_number + v,
                color: ((color_base_index + c) % PALETTE_SIZE) as u8,
            };
            used.set(c, true);
            proof {
                assert forall|a: int| 0 <= a < self.rows implies #[trigger] self.m@[a]@.len()
                    == self.cols by {
                    if a != i + row_origin {
                        assert(self.m@[a] == before.m@[a]);
                    }
                }
                assert forall|a: int, b: int|
                    0 <= a < self.rows && 0 <= b < self.cols implies #[trigger] self.cell(a, b).color
                        < PALETTE_SIZE by {
                    if a != i + row_origin || b != j + col_origin {
                        assert(self.cell(a, b) == before.cell(a, b));
                    }
                }
                assert forall|a: int, b: int|
                    0 <= a < self.rows && 0 <= b < self.cols implies #[trigger] self.cell(a, b) == if on_boundary(
                        gh,
                        gw,
                        a - row_origin,
                        b - col_origin,
                    ) && boundary_index(gh, gw, a - row_origin, b - col_origin) < v + 1 {
                        boundary_cell(
                            gh,
                            gw,
                            color_base_index as int,
                            base_number as int,
                            a - row_origin,
                            b - col_origin,
                        )
                    } else {
                        old(self).cell(a, b)
                    } by {
                    if on_boundary(gh, gw, a - row_origin, b - col_origin) {
                        lemma_boundary_index(gh, gw, a - row_origin, b - col_origin);
                    }
                    if a != i + row_origin || b != j + col_origin {
                        assert(self.cell(a, b) == before.cell(a, b));
                    }
                }
                assert forall|d: int|
                    0 <= d < 4 implies (used@[d] <==> exists|t: int|
                        0 <= t < v + 1 && #[trigger] boundary_class(gh, gw, t) == d) by {
                    if d == c {
                        assert(boundary_class(gh, gw, v as int) == d);
                    } else {
                        assert(used@[d] == used_before[d]);
                    }
                }
            }
            v = v + 1;
        }
        let ghost gh = h as int;
        let ghost gw = w as int;
        proof {
            assert(boundary_class(gh, gw, 0) == 0);
            if h != 1 && w != 1 {
                assert(boundary_class(gh, gw, gw - 1) == 1);
                assert(boundary_class(gh, gw, gw + gh - 2) == 2);
                assert(boundary_class(gh, gw, 2 * gw + gh - 3) == 3);
            }
        }
        let mut count: u8 = 0;
        if used[0] {
            count = count + 1;
        }
        if used[1] {
            count = count + 1;
        }
        if used[2] {
            count = count + 1;
        }
        if used[3] {
            count = count + 1;
        }
        (elements, count)
    }

    /// Numbers every cell along a clockwise spiral that starts at the
    /// top-left corner and winds inward, ring by ring, and colours each side
    /// of each ring; each ring starts its colours where the ring before it
    /// left off.
    pub fn draw_spiral(&mut self)
        requires
            old(self).wf(),
        ensures
            final(self).wf(),
            final(self).spec_rows() == old(self).spec_rows(),
            final(self).spec_cols() == old(self).spec_cols(),
            final(self).is_spiral(),
    {
        let ghost big_r = self.rows as int;
        let ghost big_c = self.cols as int;
        let mut elements: usize = self.rows * self.cols;
        let mut rows: usize = self.rows;
        let mut cols: usize = self.cols;
        let mut row_origin: usize = 0;
        let mut col_origin: usize = 0;
        let mut color_base_index: usize = 0;
        let mut next_num: usize = 0;
        let ghost mut k: nat = 0;
        proof {
            assert(inner_count(big_r, big_c, 0) == big_r * big_c);
        }
        while elements != 0
            invariant
                self.wf(),
                self.rows == big_r,
                self.cols == big_c,
                big_r * big_c <= usize::MAX,
                row_origin == k,
                col_origin == k,
                rows == clamp_usize(big_r - 2 * k),
                cols == clamp_usize(big_c - 2 * k),
                elements == inner_count(big_r, big_c, k as int),
                next_num == ring_offset(big_r, big_c, k as int),
                color_base_index == ring_color_base(big_r, big_c, k),
                color_base_index < PALETTE_SIZE,
                forall|i: int, j: int|
                    0 <= i < big_r && 0 <= j < big_c && ring_of(big_r, big_c, i, j) < k
                        ==> #[trigger] self.cell(i, j) == spiral_cell(big_r, big_c, i, j),
            decreases elements,
        {
            let ghost ki = k as int;
            proof {
                if big_r - 2 * ki <= 0 || big_c - 2 * ki <= 0 {
                    assert(inner_count(big_r, big_c, ki) == 0);
                }
                lemma_inner_count_step(big_r, big_c, ki);
                assert(inner_count(big_r, big_c, ki + 1) >= 0) by (nonlinear_arith)
                    requires
                        inner_count(big_r, big_c, ki + 1) == clamp0(big_r - 2 * (ki + 1)) * clamp0(
                            big_c - 2 * (ki + 1),
                        ),
                        clamp0(big_r - 2 * (ki + 1)) >= 0,
                        clamp0(big_c - 2 * (ki + 1)) >= 0,
                ;
            }
            let ghost before = *self;
            let (drawn, used) = self.draw_boundary(
                row_origin,
                col_origin,
                rows,
                cols,
                color_base_index,
                next_num,
            );
            elements = elements - drawn;
            next_num = next_num + drawn;
            color_base_index = (color_base_index + used as usize) % PALETTE_SIZE;
            row_origin = row_origin + 1;
            col_origin = col_origin + 1;
            rows = rows.saturating_sub(2);
            cols = cols.saturating_sub(2);
            proof {
                assert forall|i: int, j: int|
                    0 <= i < big_r && 0 <= j < big_c && ring_of(big_r, big_c, i, j) < ki + 1
                        implies #[trigger] self.cell(i, j) == spiral_cell(big_r, big_c, i, j) by {
                    lemma_ring_boundary(big_r, big_c, ki, i, j);
                    if ring_of(big_r, big_c, i, j) < ki {
                        assert(before.cell(i, j) == spiral_cell(big_r, big_c, i, j));
                    }
                }
                k = k + 1;
            }
        }
        proof {
            assert forall|i: int, j: int|
                0 <= i < big_r && 0 <= j < big_c implies ring_of(big_r, big_c, i, j) < k by {
                if big_r - 2 * k > 0 && big_c - 2 * k > 0 {
                    assert(inner_count(big_r, big_c, k as int) > 0) by (nonlinear_arith)
                        requires
                            inner_count(big_r, big_c, k as int) == (big_r - 2 * k) * (big_c - 2
                                * k),
                            big_r - 2 * k > 0,
                            big_c - 2 * k > 0,
                    ;
                }
            }
        }
    }
}

/// `x` as a `usize`, or 0 where `x` is negative.
pub open spec fn clamp_usize(x: int) -> usize {
    if x > 0 {
        x as usize
    } else {
        0
    }
}

impl ColoredMatrix {
    /// Width of every rendered field: one more than the number of decimal
    /// digits of the largest value, `rows * cols - 1`.
    pub open spec fn field_width_spec(&self) -> int {
        decimal((self.spec_rows() * self.spec_cols() - 1) as nat).len() + 1int
    }

    /// `text` holds, row by row, each cell's value rendered in a field of
    /// `field_width_spec()` characters.
    pub open spec fn is_rendered_as(&self, text: GridText) -> bool {
        &&& text.len() == self.spec_rows()
        &&& forall|i: int| 0 <= i < self.spec_rows() ==> #[trigger] text[i].len() == self.spec_cols()
        &&& forall|i: int, j: int|
            0 <= i < self.spec_rows() && 0 <= j < self.spec_cols() ==> #[trigger] text[i][j]
                == rendered_field(self.cell(i, j).value as nat, self.field_width_spec())
    }

    /// Width of every rendered field.
    pub fn field_width(&self) -> (r: usize)
        requires
            self.wf(),
        ensures
            r == self.field_width_spec(),
    {
        proof {
            assert(self.rows * self.cols >= 1) by (nonlinear_arith)
                requires
                    self.rows >= 1,
                    self.cols >= 1,
            ;
        }
        let n = decimal_len(self.rows * self.cols - 1);
        proof {
            lemma_decimal_len_bound((self.rows * self.cols - 1) as nat);
        }
        n + 1
    }

    /// The text of the grid: for each row, each cell's value right-justified
    /// in a field of `field_width()` characters. Each field is printed in its
    /// cell's colour.
    pub fn render(&self) -> (r: Vec<Vec<String>>)
        requires
            self.wf(),
        ensures
            self.is_rendered_as(text_of(&r)),
    {
        let width = self.field_width();
        let mut out: Vec<Vec<String>> = Vec::new();
        let mut i: usize = 0;
        while i < self.rows
            invariant
                self.wf(),
                width == self.field_width_spec(),
                i <= self.rows,
                out@.len() == i,
                forall|a: int| 0 <= a < i ==> #[trigger] out@[a]@.len() == self.cols,
                forall|a: int, b: int|
                    0 <= a < i && 0 <= b < self.cols ==> #[trigger] out@[a]@[b]@ == rendered_field(
                        self.cell(a, b).value as nat,
                        width as int,
                    ),
            decreases self.rows - i,
        {
            let mut line: Vec<String> = Vec::new();
            let mut j: usize = 0;
            while j < self.cols
                invariant
                    self.wf(),
                    i < self.rows,
                    j <= self.cols,
                    line@.len() == j,
                    forall|b: int|
                        0 <= b < j ==> #[trigger] line@[b]@ == rendered_field(
                            self.cell(i as int, b).value as nat,
                            width as int,
                        ),
                decreases self.cols - j,
            {
                let f = render_field(self.m[i][j].value, width);
                line.push(f);
                j = j + 1;
            }
            out.push(line);
            i = i + 1;
        }
        let ghost text = text_of(&out);
        assert forall|a: int| 0 <= a < self.rows implies #[trigger] text[a].len() == self.cols by {}
        assert forall|a: int, b: int| 0 <= a < self.rows && 0 <= b < self.cols implies #[trigger] text[a][b]
            == rendered_field(self.cell(a, b).value as nat, self.field_width_spec()) by {
            assert(text[a][b] == out@[a]@[b]@);
        }
        out
    }
}

} // verus!
