//! The grid data model: cells of traced outline segments, and the
//! grid partitioner that builds a `Shdw` from an image.

use crate::geom::Line;
use crate::outline::{extract_outline, occupancy, trace_ok, RgbaBuffer, Tracer};
use vstd::prelude::*;

verus! {

/// One grid cell: the traced outline segments of one rectangle of the
/// source image, in trace order, in cell-local coordinates.  A cell
/// with no segments is valid.
#[derive(PartialEq, Eq, Debug)]
pub struct Cell {
    pub lines: Vec<Line>,
}

impl View for Cell {
    type V = Seq<Line>;

    open spec fn view(&self) -> Seq<Line> {
        self.lines@
    }
}

impl Default for Cell {
    /// An empty cell.
    fn default() -> (r: Self)
        ensures
            r@ == Seq::<Line>::empty(),
    {
        Cell { lines: Vec::new() }
    }
}

/// A full grid: the cell dimensions in pixels and the cells in
/// row-major order.  A grid built by the partitioner has exactly
/// `floor(W / cell_width) * floor(H / cell_height)` cells; one read
/// from a stream carries whatever cell count the stream held.
#[derive(PartialEq, Eq, Debug)]
pub struct Shdw {
    pub cell_width: u32,
    pub cell_height: u32,
    pub cells: Vec<Cell>,
}

/// The mathematical value of a `Shdw`: its dimensions and the line
/// sequences of its cells.
#[verifier::ext_equal]
pub ghost struct ShdwView {
    pub cell_width: u32,
    pub cell_height: u32,
    pub cells: Seq<Seq<Line>>,
}

impl View for Shdw {
    type V = ShdwView;

    open spec fn view(&self) -> ShdwView {
        ShdwView {
            cell_width: self.cell_width,
            cell_height: self.cell_height,
            cells: self.cells@.map_values(|c: Cell| c@),
        }
    }
}

impl Shdw {
    /// Partitions `img` into a row-major grid of `cell_width` by
    /// `cell_height` cells and extracts each cell's outline through the
    /// boundary-tracing collaborator `tracer`.  Trailing pixels that do
    /// not fill a whole cell are dropped; a cell size beyond the image
    /// extent yields a grid of zero cells.  Returns `None` exactly when
    /// the collaborator emitted a path leaving some cell's region.
    pub fn shdw_for_image<T: Tracer>(
        img: &RgbaBuffer,
        cell_width: u32,
        cell_height: u32,
        tracer: &mut T,
    ) -> (r: Option<Shdw>)
        requires
            img.wf(),
            1 <= cell_width,
            1 <= cell_height,
        ensures
            (img.width as int / cell_width as int) * (img.height as int / cell_height as int)
                == 0 ==> r is Some,
            r matches Some(s) ==> {
                &&& s.cell_width == cell_width
                &&& s.cell_height == cell_height
                &&& s@.cells.len() == (img.width as int / cell_width as int) * (
                img.height as int / cell_height as int)
                &&& forall|i: int|
                    0 <= i < s@.cells.len() ==> trace_ok(
                        #[trigger] s@.cells[i],
                        cell_width,
                        cell_height,
                    )
            },
    {
        let cols: u32 = img.width / cell_width;
        let rows: u32 = img.height / cell_height;
        let mut cells: Vec<Cell> = Vec::new();
        let mut row: u32 = 0;
        while row < rows
            invariant
                row <= rows,
                img.wf(),
                1 <= cell_width,
                1 <= cell_height,
                cols == img.width as int / cell_width as int,
                rows == img.height as int / cell_height as int,
                cells@.len() == row * cols,
                forall|i: int|
                    0 <= i < cells@.len() ==> trace_ok(
                        (#[trigger] cells@[i])@,
                        cell_width,
                        cell_height,
                    ),
            decreases rows - row,
        {
            let mut col: u32 = 0;
            while col < cols
                invariant
                    col <= cols,
                    row < rows,
                    img.wf(),
                    1 <= cell_width,
                    1 <= cell_height,
                    cols == img.width as int / cell_width as int,
                    rows == img.height as int / cell_height as int,
                    cells@.len() == row * cols + col,
                    forall|i: int|
                        0 <= i < cells@.len() ==> trace_ok(
                            (#[trigger] cells@[i])@,
                            cell_width,
                            cell_height,
                        ),
                decreases cols - col,
            {
                proof {
                    assert(col * cell_width + cell_width <= img.width && row * cell_height
                        + cell_height <= img.height) by (nonlinear_arith)
                        requires
                            col < cols,
                            row < rows,
                            cols == img.width as int / cell_width as int,
                            rows == img.height as int / cell_height as int,
                            1 <= cell_width,
                            1 <= cell_height,
                    ;
                }
                let x0: u32 = col * cell_width;
                let y0: u32 = row * cell_height;
                let mask = occupancy(img, x0, y0, cell_width, cell_height);
                let ghost prev = cells@;
                match extract_outline(&mask, tracer) {
                    Some(c) => {
                        cells.push(c);
                    },
                    None => {
                        proof {
                            assert((img.width as int / cell_width as int) * (
                            img.height as int / cell_height as int) > 0) by (nonlinear_arith)
                                requires
                                    cols == img.width as int / cell_width as int,
                                    rows == img.height as int / cell_height as int,
                                    0 <= col < cols,
                                    0 <= row < rows,
                            ;
                        }
                        return None;
                    },
                }
                col = col + 1;
            }
            row = row + 1;
            proof {
                assert(cells@.len() == row * cols) by (nonlinear_arith)
                    requires
                        cells@.len() == (row - 1) * cols + cols,
                ;
            }
        }
        let r = Shdw { cell_width, cell_height, cells };
        proof {
            assert(r@.cells.len() == rows * cols);
            assert forall|i: int| 0 <= i < r@.cells.len() implies trace_ok(
                #[trigger] r@.cells[i],
                cell_width,
                cell_height,
            ) by {
                assert(r@.cells[i] == cells@[i]@);
            };
            assert(rows * cols == (img.width as int / cell_width as int) * (
            img.height as int / cell_height as int)) by (nonlinear_arith)
                requires
                    cols == img.width as int / cell_width as int,
                    rows == img.height as int / cell_height as int,
            ;
        }
        Some(r)
    }

    /// The fallback grid for an image of the given extent: cell size
    /// equal to the whole image, holding a single empty cell.
    pub fn shdw_for(width: u32, height: u32) -> (r: Shdw)
        ensures
            r.cell_width == width,
            r.cell_height == height,
            r@.cells == seq![Seq::<Line>::empty()],
    {
        let mut cells: Vec<Cell> = Vec::new();
        cells.push(Cell::default());
        let r = Shdw { cell_width: width, cell_height: height, cells };
        proof {
            assert(r@.cells =~~= seq![Seq::<Line>::empty()]);
        }
        r
    }
}

} // verus!
