//! A dense grid of samples with a fixed number of rows and columns.

use vstd::prelude::*;
use vstd::slice::slice_to_vec;
use crate::fixed::ints;

verus! {

/// `g` has `h` rows of `w` cells each.
pub open spec fn shaped(g: Seq<Seq<int>>, h: int, w: int) -> bool {
    &&& g.len() == h
    &&& forall|i: int| 0 <= i < h ==> (#[trigger] g[i]).len() == w
}

/// The grid of `h` rows and `w` columns that holds zero everywhere.
pub open spec fn zeros(h: int, w: int) -> Seq<Seq<int>> {
    Seq::new(h as nat, |i: int| Seq::new(w as nat, |j: int| 0int))
}

/// The cells of `g` at position `row` of every row, from the first row
/// down.
pub open spec fn column(g: Seq<Seq<int>>, row: int) -> Seq<int> {
    Seq::new(g.len(), |i: int| g[i][row])
}

/// `g` with `val` in the cell at position `row` of row `col`.
pub open spec fn with_cell(g: Seq<Seq<int>>, col: int, row: int, val: int) -> Seq<Seq<int>> {
    g.update(col, g[col].update(row, val))
}

/// `g` with `vals` as its row `col`.
pub open spec fn with_row(g: Seq<Seq<int>>, col: int, vals: Seq<int>) -> Seq<Seq<int>> {
    g.update(col, vals)
}

/// `g` with `vals`, from the first row down, at position `row` of every
/// row.
pub open spec fn with_column(g: Seq<Seq<int>>, row: int, vals: Seq<int>) -> Seq<Seq<int>> {
    Seq::new(g.len(), |i: int| g[i].update(row, vals[i]))
}

/// The row that was put in is the row that is read back.
pub proof fn lemma_row_round_trip(g: Seq<Seq<int>>, col: int, vals: Seq<int>)
    requires
        0 <= col < g.len(),
    ensures
        with_row(g, col, vals)[col] == vals,
        with_row(g, col, vals).len() == g.len(),
        forall|i: int| 0 <= i < g.len() && i != col ==> with_row(g, col, vals)[i] == g[i],
{
}

/// The column that was put in is the column that is read back, and the
/// other columns are as they were.
pub proof fn lemma_column_round_trip(g: Seq<Seq<int>>, h: int, w: int, row: int, vals: Seq<int>)
    requires
        shaped(g, h, w),
        0 <= row < w,
        vals.len() == h,
    ensures
        column(with_column(g, row, vals), row) == vals,
        shaped(with_column(g, row, vals), h, w),
        forall|other: int|
            0 <= other < w && other != row ==> column(with_column(g, row, vals), other)
                == #[trigger] column(g, other),
{
    let g2 = with_column(g, row, vals);
    assert(column(g2, row) =~= vals);
    assert forall|other: int| 0 <= other < w && other != row implies column(g2, other)
        == #[trigger] column(g, other) by {
        assert(column(g2, other) =~= column(g, other));
    }
}

/// A dense grid of samples. Its shape is fixed when it is made.
#[derive(Debug, Clone)]
pub struct Matrix {
    col_hight: usize,
    row_width: usize,
    table: Vec<Vec<i64>>,
}

impl View for Matrix {
    type V = Seq<Seq<int>>;

    /// The rows of the grid, from the first down.
    closed spec fn view(&self) -> Seq<Seq<int>> {
        Seq::new(self.table@.len(), |i: int| ints(self.table@[i]@))
    }
}

impl Matrix {
    /// The number of rows.
    pub closed spec fn height(&self) -> int {
        self.col_hight as int
    }

    /// The number of cells in a row.
    pub closed spec fn width(&self) -> int {
        self.row_width as int
    }

    /// The rows are as many, and as long, as the shape says.
    pub closed spec fn wf(&self) -> bool {
        &&& self.table@.len() == self.col_hight
        &&& forall|i: int| 0 <= i < self.col_hight ==> (#[trigger] self.table@[i])@.len() == self.row_width
    }

    /// A well-formed grid has the shape that it was made with, and its
    /// cells are samples.
    pub proof fn lemma_shape(&self)
        requires
            self.wf(),
        ensures
            shaped(self@, self.height(), self.width()),
            0 <= self.height() <= usize::MAX,
            0 <= self.width() <= usize::MAX,
            forall|i: int, j: int|
                0 <= i < self.height() && 0 <= j < self.width() ==> i64::MIN <= #[trigger] self@[i][j] <= i64::MAX,
    {
    }

    /// A grid of `col_hight` rows and `row_width` columns that holds
    /// zero everywhere.
    pub fn new(col_hight: usize, row_width: usize) -> (m: Self)
        ensures
            m.wf(),
            m.height() == col_hight,
            m.width() == row_width,
            m@ == zeros(col_hight as int, row_width as int),
    {
        let mut table: Vec<Vec<i64>> = Vec::new();
        let mut i: usize = 0;
        while i < col_hight
            invariant
                i <= col_hight,
                table@.len() == i,
                forall|t: int| 0 <= t < i ==> (#[trigger] table@[t])@ =~= Seq::new(row_width as nat, |j: int| 0i64),
            decreases col_hight - i,
        {
            let mut row: Vec<i64> = Vec::new();
            let mut j: usize = 0;
            while j < row_width
                invariant
                    j <= row_width,
                    row@ =~= Seq::new(j as nat, |t: int| 0i64),
                decreases row_width - j,
            {
                row.push(0);
                j = j + 1;
            }
            table.push(row);
            i = i + 1;
        }
        let m = Matrix { col_hight, row_width, table };
        proof {
            assert(m@ =~~= zeros(col_hight as int, row_width as int));
        }
        m
    }

    /// The cell at position `row` of row `col`.
    pub fn at(&self, col: usize, row: usize) -> (val: i64)
        requires
            self.wf(),
            col < self.height(),
            row < self.width(),
        ensures
            val == self@[col as int][row as int],
    {
        self.table[col][row]
    }

    /// Puts `val` into the cell at position `row` of row `col`.
    pub fn update(&mut self, col: usize, row: usize, val: i64)
        requires
            old(self).wf(),
            col < old(self).height(),
            row < old(self).width(),
        ensures
            final(self).wf(),
            final(self).height() == old(self).height(),
            final(self).width() == old(self).width(),
            final(self)@ == with_cell(old(self)@, col as int, row as int, val as int),
    {
        let line: &mut Vec<i64> = &mut self.table[col];
        line.set(row, val);
        proof {
            assert(self@ =~~= with_cell(old(self)@, col as int, row as int, val as int));
        }
    }

    /// A copy of row `col`, or `None` where there is no such row.
    pub fn get_row(&self, col: usize) -> (r: Option<Vec<i64>>)
        requires
            self.wf(),
        ensures
            match r {
                Some(v) => col < self.height() && v.len() == self.width() && ints(v@)
                    == self@[col as int],
                None => col >= self.height(),
            },
    {
        if col < self.col_hight {
            Some(slice_to_vec(self.table[col].as_slice()))
        } else {
            None
        }
    }

    /// Replaces row `col` with `vals` and returns `true`, or leaves the
    /// grid as it is and returns `false` where there is no such row or
    /// `vals` has not the length of a row.
    pub fn set_row(&mut self, col: usize, vals: &[i64]) -> (ok: bool)
        requires
            old(self).wf(),
        ensures
            final(self).wf(),
            final(self).height() == old(self).height(),
            final(self).width() == old(self).width(),
            ok == (col < old(self).height() && vals.len() == old(self).width()),
            ok ==> final(self)@ == with_row(old(self)@, col as int, ints(vals@)),
            !ok ==> *final(self) == *old(self),
    {
        if col < self.col_hight && vals.len() == self.row_width {
            self.table.set(col, slice_to_vec(vals));
            proof {
                assert(self@ =~~= with_row(old(self)@, col as int, ints(vals@)));
            }
            true
        } else {
            false
        }
    }

    /// The cells at position `row` of every row, from the first row
    /// down, or `None` where the rows have no such position.
    pub fn get_col(&self, row: usize) -> (r: Option<Vec<i64>>)
        requires
            self.wf(),
        ensures
            match r {
                Some(v) => row < self.width() && v.len() == self.height() && ints(v@) == column(
                    self@,
                    row as int,
                ),
                None => row >= self.width(),
            },
    {
        if row < self.row_width {
            let mut rslt: Vec<i64> = Vec::new();
            let mut i: usize = 0;
            while i < self.col_hight
                invariant
                    self.wf(),
                    row < self.row_width,
                    i <= self.col_hight,
                    rslt@.len() == i,
                    forall|t: int| 0 <= t < i ==> #[trigger] rslt@[t] == self.table@[t]@[row as int],
                decreases self.col_hight - i,
            {
                rslt.push(self.table[i][row]);
                i = i + 1;
            }
            proof {
                assert(ints(rslt@) =~= column(self@, row as int));
            }
            Some(rslt)
        } else {
            None
        }
    }

    /// Puts `vals`, from the first row down, at position `row` of every
    /// row and returns `true`, or leaves the grid as it is and returns
    /// `false` where the rows have no such position or `vals` has not
    /// one value for every row.
    pub fn set_col(&mut self, row: usize, vals: &[i64]) -> (ok: bool)
        requires
            old(self).wf(),
        ensures
            final(self).wf(),
            final(self).height() == old(self).height(),
            final(self).width() == old(self).width(),
            ok == (row < old(self).width() && vals.len() == old(self).height()),
            ok ==> final(self)@ == with_column(old(self)@, row as int, ints(vals@)),
            !ok ==> *final(self) == *old(self),
    {
        if row < self.row_width && vals.len() == self.col_hight {
            let mut i: usize = 0;
            while i < self.col_hight
                invariant
                    self.wf(),
                    self.col_hight == old(self).col_hight,
                    self.row_width == old(self).row_width,
                    row < self.row_width,
                    vals.len() == self.col_hight,
                    i <= self.col_hight,
                    forall|t: int| 0 <= t < i ==> (#[trigger] self.table@[t])@ == old(self).table@[t]@.update(row as int, vals@[t]),
                    forall|t: int| i <= t < self.col_hight ==> (#[trigger] self.table@[t])@ == old(self).table@[t]@,
                decreases self.col_hight - i,
            {
                let line: &mut Vec<i64> = &mut self.table[i];
                line.set(row, vals[i]);
                i = i + 1;
            }
            proof {
                assert(self@ =~~= with_column(old(self)@, row as int, ints(vals@)));
            }
            true
        } else {
            false
        }
    }
}

} // verus!
