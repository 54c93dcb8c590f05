use vstd::prelude::*;

verus! {

/// The number of values that a rendered pixel takes: red, green, blue, alpha.
pub const CHANNELS: usize = 4;

/// The size of a raster. Its cells are numbered row by row, the top row
/// first and each row from left to right.
#[derive(Debug, Clone, Copy, PartialEq, Eq, Structural)]
pub struct Grid {
    pub width: usize,
    pub height: usize,
}

/// The cells of one scanline row that a segment adds coverage to.
#[derive(Debug, Clone, Copy, PartialEq, Eq, Structural)]
pub enum Span {
    /// The first cell would lie before the start of the buffer: the row is
    /// skipped.
    Clipped,
    /// Some cell would lie past the end of the buffer.
    Outside,
    /// The segment stays within two neighbouring columns: the cells `first`
    /// and `first + 1` share its coverage.
    Pair { first: usize },
    /// The segment crosses three or more columns: the cells from `first`
    /// through `last`.
    Run { first: usize, last: usize },
}

/// The part that a cell of a `Run` takes of the coverage of its row. Each
/// part has a closed form of its own.
#[derive(Debug, Clone, Copy, PartialEq, Eq, Structural)]
pub enum Share {
    /// The first cell, which the segment enters part of the way across.
    Leading,
    /// The middle cell of a run of three.
    Between,
    /// The second cell of a run of four or more.
    Second,
    /// A cell that the segment crosses from side to side.
    Interior,
    /// The cell before the last of a run of four or more.
    Closing,
    /// The last cell.
    Trailing,
}

/// The part of the cell at `cell` in a run from `first` through `last`.
pub open spec fn share_of(first: int, last: int, cell: int) -> Share {
    if cell == first {
        Share::Leading
    } else if cell == last {
        Share::Trailing
    } else if last == first + 2 {
        Share::Between
    } else if cell == first + 1 {
        Share::Second
    } else if cell == last - 1 {
        Share::Closing
    } else {
        Share::Interior
    }
}

/// The part of the cell at `cell` in a run from `first` through `last`.
pub fn share(first: usize, last: usize, cell: usize) -> (r: Share)
    requires
        first + 2 <= last,
        first <= cell <= last,
    ensures
        r == share_of(first as int, last as int, cell as int),
{
    if cell == first {
        Share::Leading
    } else if cell == last {
        Share::Trailing
    } else if last - first == 2 {
        Share::Between
    } else if cell - first == 1 {
        Share::Second
    } else if last - cell == 1 {
        Share::Closing
    } else {
        Share::Interior
    }
}

/// The number of cells that a run from `first` through `last` has between
/// its second cell and its closing cell: those crossed from side to side.
pub fn interior_cells(first: usize, last: usize) -> (r: usize)
    requires
        first + 2 <= last,
    ensures
        r == if last - first >= 3 { last - first - 3 } else { 0 },
{
    if last - first >= 3 {
        last - first - 3
    } else {
        0
    }
}

/// A run of four or more cells has one cell of each outer part, and the
/// cells counted by `interior_cells` are exactly its interior ones.
pub proof fn lemma_run_parts(first: int, last: int)
    requires
        first + 3 <= last,
    ensures
        share_of(first, last, first) == Share::Leading,
        share_of(first, last, first + 1) == Share::Second,
        share_of(first, last, last - 1) == Share::Closing,
        share_of(first, last, last) == Share::Trailing,
        forall|cell: int|
            first <= cell <= last ==> (#[trigger] share_of(first, last, cell) == Share::Interior <==> first
                + 2 <= cell <= last - 2),
{
}

impl Grid {
    /// The number of cells.
    pub open spec fn cells(&self) -> int {
        self.width * self.height
    }

    /// The number of channel values of a rendered image fits the machine.
    pub open spec fn wf(&self) -> bool {
        self.cells() * CHANNELS <= usize::MAX
    }

    /// The span of row `y` for a piece of a segment whose leftmost coordinate,
    /// rounded down, is `x0` and whose rightmost coordinate, rounded up, is
    /// `x1`. Cells are counted through the buffer as a whole: a column
    /// outside the row is not cut off, it falls into a neighbouring row.
    pub open spec fn span_of(&self, y: int, x0: int, x1: int) -> Span {
        let first = y * self.width + x0;
        let last = y * self.width + x1;
        if first < 0 {
            Span::Clipped
        } else if x1 <= x0 + 1 {
            if first + 1 < self.cells() {
                Span::Pair { first: first as usize }
            } else {
                Span::Outside
            }
        } else {
            if last < self.cells() {
                Span::Run { first: first as usize, last: last as usize }
            } else {
                Span::Outside
            }
        }
    }

    /// A grid of the given size, or `None` where its rendered image would
    /// hold more values than the machine can count.
    pub fn new(width: usize, height: usize) -> (r: Option<Grid>)
        ensures
            r.is_some() <==> width * height * CHANNELS <= usize::MAX,
            r matches Some(g) ==> g.width == width && g.height == height && g.wf(),
    {
        let limit: u128 = (usize::MAX / CHANNELS) as u128;
        assert(width * height <= 0xffff_ffff_ffff_ffff * 0xffff_ffff_ffff_ffff) by (nonlinear_arith)
            requires
                width <= 0xffff_ffff_ffff_ffff,
                height <= 0xffff_ffff_ffff_ffff,
        ;
        let cells: u128 = (width as u128) * (height as u128);
        if cells <= limit {
            Some(Grid { width, height })
        } else {
            None
        }
    }

    /// The smallest grid that covers a bounding box `across` units wide and
    /// `down` units high, with one more column and row for the far edges;
    /// `None` where such a grid does not fit the machine.
    pub fn covering(across: usize, down: usize) -> (r: Option<Grid>)
        ensures
            r.is_some() <==> (across + 1) * (down + 1) * CHANNELS <= usize::MAX,
            r matches Some(g) ==> g.width == across + 1 && g.height == down + 1 && g.wf(),
    {
        if across == usize::MAX || down == usize::MAX {
            assert((across + 1) * (down + 1) * CHANNELS > usize::MAX) by (nonlinear_arith)
                requires
                    across == usize::MAX || down == usize::MAX,
                    0 <= across,
                    0 <= down,
                    CHANNELS == 4,
            ;
            None
        } else {
            Grid::new(across + 1, down + 1)
        }
    }

    /// The number of cells of the coverage buffer.
    pub fn cell_count(&self) -> (r: usize)
        requires
            self.wf(),
        ensures
            r == self.cells(),
    {
        assert(self.width * self.height >= 0) by (nonlinear_arith);
        self.width * self.height
    }

    /// The number of values of the rendered image.
    pub fn value_count(&self) -> (r: usize)
        requires
            self.wf(),
        ensures
            r == self.cells() * CHANNELS,
    {
        self.cell_count() * CHANNELS
    }

    /// The place of the cell in column `x` of row `y` in the coverage buffer.
    pub fn cell_index(&self, x: usize, y: usize) -> (r: usize)
        requires
            self.wf(),
            x < self.width,
            y < self.height,
        ensures
            r == y * self.width + x,
            r < self.cells(),
    {
        proof {
            lemma_row_inside(self.width as int, self.height as int, y as int);
        }
        y * self.width + x
    }

    /// The place of the first channel of the pixel in column `x` of row `y`
    /// in the rendered image; the other three follow it.
    pub fn channel_index(&self, x: usize, y: usize) -> (r: usize)
        requires
            self.wf(),
            x < self.width,
            y < self.height,
        ensures
            r == (y * self.width + x) * CHANNELS,
            r + CHANNELS <= self.cells() * CHANNELS,
    {
        self.cell_index(x, y) * CHANNELS
    }

    /// The first row past those that a segment reaching down to `bottom` can
    /// touch: rows at or beyond the height of the grid are left out.
    pub fn row_limit(&self, bottom: usize) -> (r: usize)
        ensures
            r == if bottom < self.height { bottom } else { self.height },
    {
        if bottom < self.height {
            bottom
        } else {
            self.height
        }
    }

    /// The cells to which the piece of a segment inside row `y` adds
    /// coverage, where `x0` is its leftmost coordinate rounded down and `x1`
    /// its rightmost coordinate rounded up. Every cell of a `Pair` or a `Run`
    /// lies inside the coverage buffer.
    pub fn span(&self, y: usize, x0: i32, x1: i32) -> (r: Span)
        requires
            self.wf(),
            y < self.height,
        ensures
            r == self.span_of(y as int, x0 as int, x1 as int),
            r matches Span::Pair { first } ==> first + 1 < self.cells(),
            r matches Span::Run { first, last } ==> first + 2 <= last < self.cells(),
    {
        proof {
            lemma_row_inside(self.width as int, self.height as int, y as int);
        }
        let cells: i128 = self.cell_count() as i128;
        let line_start: i128 = (y * self.width) as i128;
        let first: i128 = line_start + x0 as i128;
        let last: i128 = line_start + x1 as i128;
        if first < 0 {
            Span::Clipped
        } else if x1 as i128 <= x0 as i128 + 1 {
            if first + 1 < cells {
                Span::Pair { first: first as usize }
            } else {
                Span::Outside
            }
        } else {
            if last < cells {
                Span::Run { first: first as usize, last: last as usize }
            } else {
                Span::Outside
            }
        }
    }
}

impl Default for Grid {
    /// The size of the demonstration canvas: 700 columns by 500 rows.
    fn default() -> (r: Grid)
        ensures
            r == (Grid { width: 700, height: 500 }),
            r.wf(),
    {
        Grid { width: 700, height: 500 }
    }
}

/// Row `y` of a grid starts and ends inside the grid: its first cell is at
/// `y * width`, and the next row starts no later than the end.
pub proof fn lemma_row_inside(width: int, height: int, y: int)
    requires
        0 <= width,
        0 <= y < height,
    ensures
        0 <= y * width,
        y * width + width <= width * height,
{
    assert(0 <= y * width) by (nonlinear_arith)
        requires
            0 <= width,
            0 <= y,
    ;
    assert(y * width + width <= width * height) by (nonlinear_arith)
        requires
            0 <= width,
            0 <= y < height,
    ;
}

/// A span whose columns all exist stays in its row: with `x0` not negative
/// and both `x0 + 1` and `x1` below the width, the span is a `Pair` or a
/// `Run`, and all its cells belong to row `y`.
pub proof fn lemma_span_in_row(grid: Grid, y: int, x0: int, x1: int)
    requires
        grid.wf(),
        0 <= y < grid.height,
        0 <= x0,
        x0 + 1 < grid.width,
        x1 < grid.width,
    ensures
        match grid.span_of(y, x0, x1) {
            Span::Pair { first } => y * grid.width <= first && first + 1 < (y + 1) * grid.width,
            Span::Run { first, last } => y * grid.width <= first && first + 2 <= last && last < (y
                + 1) * grid.width,
            _ => false,
        },
{
    lemma_row_inside(grid.width as int, grid.height as int, y);
    assert((y + 1) * grid.width == y * grid.width + grid.width) by (nonlinear_arith);
}

/// The numbering of cells is one to one: two places in the grid with the
/// same cell index are the same place.
pub proof fn lemma_cell_index_unique(width: int, x: int, y: int, u: int, v: int)
    requires
        0 <= x < width,
        0 <= u < width,
        0 <= y,
        0 <= v,
        y * width + x == v * width + u,
    ensures
        x == u,
        y == v,
{
    assert(y == v) by (nonlinear_arith)
        requires
            0 <= x < width,
            0 <= u < width,
            0 <= y,
            0 <= v,
            y * width + x == v * width + u,
    ;
}

} // verus!
