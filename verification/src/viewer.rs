//! The drawable description of the grid: cell sizes, row and column labels,
//! and the positioned texts to render. Drawing itself belongs to the
//! terminal layer; this type only carries what it needs.

use vstd::prelude::*;

verus! {

/// The left margin reserved for row labels, in character cells.
pub const HEIGHT_LABEL_MARGIN: u16 = 3;

/// One positioned text: a grid coordinate relative to the visible window,
/// and the text to show there.
pub struct Item {
    pub position: (u16, u16),
    pub data: String,
}

/// Everything the renderer needs to draw one frame of the grid.
pub struct SpreadsheetWidget {
    cell_widths: Vec<u16>,
    cell_heights: Vec<u16>,
    width_labels: Vec<String>,
    height_labels: Vec<String>,
    data: Vec<Item>,
    top_left: (bool, bool),
}

impl SpreadsheetWidget {
    /// The column widths.
    pub closed spec fn widths(self) -> Seq<u16> {
        self.cell_widths@
    }

    /// The row heights.
    pub closed spec fn heights(self) -> Seq<u16> {
        self.cell_heights@
    }

    /// The column labels.
    pub closed spec fn col_labels(self) -> Seq<String> {
        self.width_labels@
    }

    /// The row labels.
    pub closed spec fn row_labels(self) -> Seq<String> {
        self.height_labels@
    }

    /// The positioned texts.
    pub closed spec fn items(self) -> Seq<Item> {
        self.data@
    }

    /// Whether the window starts at the leftmost column / topmost row.
    pub closed spec fn at_origin(self) -> (bool, bool) {
        self.top_left
    }

    /// A widget holding the given positioned texts and nothing else yet.
    pub fn new(data: Vec<Item>) -> (r: SpreadsheetWidget)
        ensures
            r.items() == data@,
            r.widths() == Seq::<u16>::empty(),
            r.heights() == Seq::<u16>::empty(),
            r.col_labels() == Seq::<String>::empty(),
            r.row_labels() == Seq::<String>::empty(),
            r.at_origin() == (true, true),
    {
        SpreadsheetWidget {
            cell_widths: Vec::new(),
            cell_heights: Vec::new(),
            width_labels: Vec::new(),
            height_labels: Vec::new(),
            data,
            top_left: (true, true),
        }
    }

    /// Sets the column widths and their labels.
    pub fn set_cell_widths(self, cell_widths: Vec<u16>, labels: Vec<String>) -> (r:
        SpreadsheetWidget)
        ensures
            r.widths() == cell_widths@,
            r.col_labels() == labels@,
            r.heights() == self.heights(),
            r.row_labels() == self.row_labels(),
            r.items() == self.items(),
            r.at_origin() == self.at_origin(),
    {
        SpreadsheetWidget { cell_widths, width_labels: labels, ..self }
    }

    /// Sets the row heights and their labels.
    pub fn set_cell_heights(self, cell_heights: Vec<u16>, labels: Vec<String>) -> (r:
        SpreadsheetWidget)
        ensures
            r.heights() == cell_heights@,
            r.row_labels() == labels@,
            r.widths() == self.widths(),
            r.col_labels() == self.col_labels(),
            r.items() == self.items(),
            r.at_origin() == self.at_origin(),
    {
        SpreadsheetWidget { cell_heights, height_labels: labels, ..self }
    }

    /// Marks whether the window touches the left and top edges of the grid,
    /// which decides the border glyphs there.
    pub fn set_top_left(self, top_left: (bool, bool)) -> (r: SpreadsheetWidget)
        ensures
            r.at_origin() == top_left,
            r.widths() == self.widths(),
            r.heights() == self.heights(),
            r.col_labels() == self.col_labels(),
            r.row_labels() == self.row_labels(),
            r.items() == self.items(),
    {
        SpreadsheetWidget { top_left, ..self }
    }

    /// Hands out the parts a renderer draws from: widths, heights, column
    /// labels, row labels, items, and the origin flags.
    pub fn into_parts(self) -> (r: (Vec<u16>, Vec<u16>, Vec<String>, Vec<String>, Vec<Item>, (
        bool,
        bool,
    )))
        ensures
            r.0@ == self.widths(),
            r.1@ == self.heights(),
            r.2@ == self.col_labels(),
            r.3@ == self.row_labels(),
            r.4@ == self.items(),
            r.5 == self.at_origin(),
    {
        (
            self.cell_widths,
            self.cell_heights,
            self.width_labels,
            self.height_labels,
            self.data,
            self.top_left,
        )
    }
}

} // verus!
