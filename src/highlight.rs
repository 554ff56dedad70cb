//! Cells of a matrix that can be marked with a pair of surrounding
//! characters for display.
use vstd::prelude::*;

verus! {

/// A matrix cell, plain or marked with characters on its left and right.
#[derive(Clone, Copy, Debug, PartialEq, Eq)]
pub enum HighlightableCell<T> {
    Normal(T),
    Highlighted(T, char, char),
}

impl<T: Copy> HighlightableCell<T> {
    /// The value in the cell.
    pub open spec fn value(self) -> T {
        match self {
            HighlightableCell::Normal(v) => v,
            HighlightableCell::Highlighted(v, _, _) => v,
        }
    }

    /// Marks the cell with `left` and `right`, replacing any earlier mark.
    pub fn highlight(&mut self, left: char, right: char)
        ensures
            *final(self) == HighlightableCell::Highlighted(old(self).value(), left, right),
    {
        let value = match *self {
            HighlightableCell::Normal(v) => v,
            HighlightableCell::Highlighted(v, _, _) => v,
        };
        *self = HighlightableCell::Highlighted(value, left, right);
    }
}

/// Turns a matrix into one of cells that can be highlighted.
pub trait WithHighlighting {
    type Highlighted;

    fn with_highlighting(self) -> Self::Highlighted;
}

impl<T: Copy> WithHighlighting for Vec<Vec<T>> {
    type Highlighted = Vec<Vec<HighlightableCell<T>>>;

    fn with_highlighting(self) -> (r: Vec<Vec<HighlightableCell<T>>>) {
        let mut out: Vec<Vec<HighlightableCell<T>>> = Vec::new();
        let mut i: usize = 0;
        while i < self.len()
            invariant
                i <= self@.len(),
                out@.len() == i,
                forall|t: int| 0 <= t < i ==> #[trigger] out@[t]@.len() == self@[t]@.len(),
                forall|t: int, u: int|
                    0 <= t < i && 0 <= u < self@[t]@.len() ==> #[trigger] out@[t]@[u]
                        == HighlightableCell::Normal(self@[t]@[u]),
            decreases self@.len() - i,
        {
            let mut row: Vec<HighlightableCell<T>> = Vec::new();
            let mut j: usize = 0;
            while j < self[i].len()
                invariant
                    i < self@.len(),
                    j <= self@[i as int]@.len(),
                    row@.len() == j,
                    forall|u: int| 0 <= u < j ==> #[trigger] row@[u] == HighlightableCell::Normal(
                        self@[i as int]@[u],
                    ),
                decreases self@[i as int]@.len() - j,
            {
                row.push(HighlightableCell::Normal(self[i][j]));
                j += 1;
            }
            out.push(row);
            i += 1;
        }
        out
    }
}

/// Marks one cell of a matrix of highlightable cells; a position outside
/// the matrix marks nothing.
pub trait Highlight {
    fn highlight(&mut self, row: usize, column: usize, left: char, right: char);
}

impl<T: Copy> Highlight for Vec<Vec<HighlightableCell<T>>> {
    fn highlight(&mut self, row: usize, column: usize, left: char, right: char) {
        if row < self.len() && column < self[row].len() {
            let mut cells: Vec<HighlightableCell<T>> = Vec::new();
            let mut k: usize = 0;
            while k < self[row].len()
                invariant
                    row < self@.len(),
                    k <= self@[row as int]@.len(),
                decreases self@[row as int]@.len() - k,
            {
                let mut cell = self[row][k];
                if k == column {
                    cell.highlight(left, right);
                }
                cells.push(cell);
                k += 1;
            }
            self.set(row, cells);
        }
    }
}

} // verus!
