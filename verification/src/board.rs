//! The board and the list of moves, with their mathematical models.

use crate::text::{decimal, digits};
use vstd::prelude::*;
use vstd::string::StringExecFns;

verus! {

/// A move: turn the `n`-by-`n` block whose top-left cell is `(row, col)`.
pub type Op = (usize, usize, usize);

/// A square board of tile values.
#[derive(Clone, Debug, PartialEq, Eq)]
pub struct Input {
    pub size: usize,
    pub board: Vec<Vec<usize>>,
}

/// An ordered list of moves; the move at index `t` is the one made at turn `t`.
#[derive(Clone, Debug, PartialEq, Eq)]
pub struct Output {
    pub out: Vec<Op>,
}

/// The rows of a board as sequences of values.
pub open spec fn grid_of(rows: Vec<Vec<usize>>) -> Seq<Seq<usize>> {
    Seq::new(rows@.len(), |r: int| rows@[r]@)
}

/// A grid is square with side `size`.
pub open spec fn is_square(g: Seq<Seq<usize>>, size: int) -> bool {
    &&& g.len() == size
    &&& forall|r: int| 0 <= r < size ==> (#[trigger] g[r]).len() == size
}

impl Input {
    /// The board as a grid of values, row by row.
    pub open spec fn grid(&self) -> Seq<Seq<usize>> {
        grid_of(self.board)
    }

    /// The board has `size` rows of `size` cells each.
    pub open spec fn wf(&self) -> bool {
        is_square(self.grid(), self.size as int)
    }
}

impl Input {
    /// Whether the board has `size` rows of `size` cells each.
    pub fn is_well_formed(&self) -> (b: bool)
        ensures
            b == self.wf(),
    {
        if self.board.len() != self.size {
            return false;
        }
        let mut r: usize = 0;
        while r < self.size
            invariant
                r <= self.size,
                self.board@.len() == self.size,
                forall|k: int| 0 <= k < r ==> (#[trigger] self.grid()[k]).len() == self.size,
            decreases self.size - r,
        {
            if self.board[r].len() != self.size {
                assert(self.grid()[r as int].len() != self.size);
                return false;
            }
            r += 1;
        }
        true
    }
}

impl View for Output {
    type V = Seq<Op>;

    open spec fn view(&self) -> Seq<Op> {
        self.out@
    }
}

/// Copies the rows of a board.
pub fn copy_rows(rows: &Vec<Vec<usize>>) -> (r: Vec<Vec<usize>>)
    ensures
        grid_of(r) == grid_of(*rows),
{
    let mut out: Vec<Vec<usize>> = Vec::new();
    let mut i: usize = 0;
    while i < rows.len()
        invariant
            i <= rows.len(),
            out@.len() == i,
            forall|k: int| 0 <= k < i ==> (#[trigger] out@[k])@ == rows@[k]@,
        decreases rows.len() - i,
    {
        let mut row: Vec<usize> = Vec::new();
        let mut j: usize = 0;
        while j < rows[i].len()
            invariant
                i < rows.len(),
                j <= rows@[i as int]@.len(),
                row@ == rows@[i as int]@.take(j as int),
            decreases rows@[i as int]@.len() - j,
        {
            row.push(rows[i][j]);
            j += 1;
        }
        assert(rows@[i as int]@.take(j as int) == rows@[i as int]@);
        out.push(row);
        i += 1;
    }
    assert(grid_of(out) =~= grid_of(*rows));
    out
}

/// A row as text: each value in base ten with a blank after it.
pub open spec fn row_text(row: Seq<usize>) -> Seq<char>
    decreases row.len(),
{
    if row.len() == 0 {
        Seq::empty()
    } else {
        row_text(row.drop_last()) + digits(row.last() as nat) + " "@
    }
}

/// The rows as text: each row with a line feed after it.
pub open spec fn rows_text(g: Seq<Seq<usize>>) -> Seq<char>
    decreases g.len(),
{
    if g.len() == 0 {
        Seq::empty()
    } else {
        rows_text(g.drop_last()) + row_text(g.last()) + "\n"@
    }
}

/// A board as text: the side on a line of its own, then the rows.
pub open spec fn board_text(size: usize, g: Seq<Seq<usize>>) -> Seq<char> {
    digits(size as nat) + "\n"@ + rows_text(g)
}

impl Input {
    /// Writes the board as text: the side on the first line, then one line
    /// for each row, every value followed by a blank.
    pub fn to_text(&self) -> (r: String)
        requires
            self.wf(),
        ensures
            r@ == board_text(self.size, self.grid()),
    {
        let ghost g = self.grid();
        let mut r = decimal(self.size);
        r.append("\n");
        let ghost head = r@;
        let mut i: usize = 0;
        assert(g.take(0) =~= Seq::<Seq<usize>>::empty());
        while i < self.size
            invariant
                i <= self.size,
                g == self.grid(),
                self.wf(),
                r@ == head + rows_text(g.take(i as int)),
            decreases self.size - i,
        {
            let ghost before = r@;
            let ghost row = g[i as int];
            let mut j: usize = 0;
            assert(row.take(0) =~= Seq::<usize>::empty());
            while j < self.size
                invariant
                    i < self.size,
                    j <= self.size,
                    g == self.grid(),
                    self.wf(),
                    row == g[i as int],
                    row.len() == self.size,
                    r@ == before + row_text(row.take(j as int)),
                decreases self.size - j,
            {
                let d = decimal(self.board[i][j]);
                r.append(d.as_str());
                r.append(" ");
                proof {
                    assert(row.take(j + 1).drop_last() =~= row.take(j as int));
                    assert(row.take(j + 1).last() == row[j as int]);
                    assert(r@ =~= before + row_text(row.take(j + 1)));
                }
                j += 1;
            }
            r.append("\n");
            proof {
                assert(row.take(self.size as int) =~= row);
                assert(g.take(i + 1).drop_last() =~= g.take(i as int));
                assert(g.take(i + 1).last() == row);
                assert(r@ =~= head + rows_text(g.take(i + 1)));
            }
            i += 1;
        }
        assert(g.take(self.size as int) =~= g);
        r
    }
}

} // verus!
