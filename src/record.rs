//! The capture record: one decoded row, one cell per declared column.
use vstd::prelude::*;
use crate::codec::{Cell, CellModel, ColumnKind, cell_wf, opt_text_view};
use crate::numeric::is_float_literal;
use crate::schema::{MS_BETWEEN_PRESENTS, schema_spec};

verus! {

/// Cells that a record can hold: one per declared column, each of the
/// column's kind.
pub open spec fn record_wf(cells: Seq<CellModel>) -> bool {
    cells.len() == schema_spec().len() && forall|j: int|
        0 <= j < cells.len() ==> cell_wf(schema_spec()[j].1, #[trigger] cells[j])
}

pub open spec fn cells_view(cells: Seq<Cell>) -> Seq<CellModel> {
    cells.map_values(|c: Cell| c@)
}

/// The milliseconds between presents of a record, if captured.
pub open spec fn ms_of(cells: Seq<CellModel>) -> Option<Seq<char>> {
    match cells[MS_BETWEEN_PRESENTS as int] {
        CellModel::Float(x) => x,
        _ => None,
    }
}

/// One decoded row of a capture log. It is made by the decoder only and
/// does not change afterwards.
#[derive(Debug, PartialEq)]
pub struct CaptureRecord {
    cells: Vec<Cell>,
}

impl View for CaptureRecord {
    type V = Seq<CellModel>;

    closed spec fn view(&self) -> Seq<CellModel> {
        cells_view(self.cells@)
    }
}

impl CaptureRecord {
    #[verifier::type_invariant]
    spec fn inv(&self) -> bool {
        record_wf(cells_view(self.cells@))
    }

    pub(crate) fn from_cells(cells: Vec<Cell>) -> (r: CaptureRecord)
        requires
            record_wf(cells_view(cells@)),
        ensures
            r@ == cells_view(cells@),
    {
        CaptureRecord { cells }
    }

    /// The number of cells, one per declared column.
    pub fn len(&self) -> (r: usize)
        ensures
            r == self@.len(),
            r == schema_spec().len(),
    {
        proof {
            use_type_invariant(self);
        }
        self.cells.len()
    }

    /// The cell of the `i`-th declared column.
    pub fn cell(&self, i: usize) -> (r: &Cell)
        requires
            i < self@.len(),
        ensures
            r@ == self@[i as int],
    {
        &self.cells[i]
    }

    /// The milliseconds between this frame's present and the previous one,
    /// as literal text, if captured.
    pub fn ms_between_presents(&self) -> (r: Option<String>)
        ensures
            opt_text_view(r) == ms_of(self@),
            r matches Some(t) ==> is_float_literal(t@),
    {
        proof {
            use_type_invariant(self);
            assert(schema_spec()[MS_BETWEEN_PRESENTS as int].1 == ColumnKind::Float);
            assert(cell_wf(ColumnKind::Float, self@[MS_BETWEEN_PRESENTS as int]));
        }
        match &self.cells[MS_BETWEEN_PRESENTS] {
            Cell::Float(x) => x.clone(),
            _ => None,
        }
    }
}

} // verus!
