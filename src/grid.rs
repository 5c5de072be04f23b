use vstd::prelude::*;

verus! {

/// A rectangular table of `usize`, stored row after row.
pub struct Grid {
    num_rows: usize,
    num_cols: usize,
    elems: Vec<usize>,
}

proof fn lemma_index_in_range(rows: int, cols: int, r: int, c: int)
    requires
        0 <= r < rows,
        0 <= c < cols,
    ensures
        0 <= r * cols + c < rows * cols,
{
    assert(0 <= r * cols) by (nonlinear_arith)
        requires
            0 <= r,
            0 <= cols,
    ;
    assert(r * cols + c < rows * cols) by (nonlinear_arith)
        requires
            0 <= r < rows,
            0 <= c < cols,
    ;
}

proof fn lemma_index_unique(cols: int, r1: int, c1: int, r2: int, c2: int)
    requires
        0 <= r1,
        0 <= r2,
        0 <= c1 < cols,
        0 <= c2 < cols,
        r1 * cols + c1 == r2 * cols + c2,
    ensures
        r1 == r2,
        c1 == c2,
{
    if r1 < r2 {
        assert(r1 * cols + cols <= r2 * cols) by (nonlinear_arith)
            requires
                r1 < r2,
                0 <= cols,
        ;
    } else if r2 < r1 {
        assert(r2 * cols + cols <= r1 * cols) by (nonlinear_arith)
            requires
                r2 < r1,
                0 <= cols,
        ;
    }
}

impl View for Grid {
    type V = Seq<Seq<usize>>;

    closed spec fn view(&self) -> Seq<Seq<usize>> {
        Seq::new(
            self.num_rows as nat,
            |r: int| Seq::new(self.num_cols as nat, |c: int| self.elems@[r * self.num_cols + c]),
        )
    }
}

impl Grid {
    pub closed spec fn wf(&self) -> bool {
        &&& self.elems@.len() == self.num_rows * self.num_cols
        &&& self.num_rows * self.num_cols <= usize::MAX
    }

    pub closed spec fn rows(&self) -> nat {
        self.num_rows as nat
    }

    pub closed spec fn cols(&self) -> nat {
        self.num_cols as nat
    }

    /// The view has `rows()` rows of `cols()` elements each.
    pub proof fn lemma_shape(&self)
        ensures
            self@.len() == self.rows(),
            forall|r: int| 0 <= r < self.rows() ==> (#[trigger] self@[r]).len() == self.cols(),
    {
    }

    /// A grid of zeros.
    pub fn new(num_rows: usize, num_cols: usize) -> (g: Grid)
        requires
            num_rows * num_cols <= usize::MAX,
        ensures
            g.wf(),
            g.rows() == num_rows,
            g.cols() == num_cols,
            g@ == Seq::new(num_rows as nat, |r: int| Seq::new(num_cols as nat, |c: int| 0usize)),
    {
        let n = num_rows * num_cols;
        let mut elems: Vec<usize> = Vec::new();
        let mut k: usize = 0;
        while k < n
            invariant
                k <= n,
                elems@ == Seq::new(k as nat, |i: int| 0usize),
            decreases n - k,
        {
            elems.push(0);
            k = k + 1;
            assert(elems@ =~= Seq::new(k as nat, |i: int| 0usize));
        }
        let g = Grid { num_rows, num_cols, elems };
        assert forall|r: int, c: int| 0 <= r < num_rows && 0 <= c < num_cols implies g@[r][c]
            == 0usize by {
            lemma_index_in_range(num_rows as int, num_cols as int, r, c);
        }
        assert(g@ =~~= Seq::new(num_rows as nat, |r: int| Seq::new(num_cols as nat, |c: int| 0usize)));
        g
    }

    /// `(rows, columns)`.
    pub fn size(&self) -> (r: (usize, usize))
        ensures
            r == (self.rows() as usize, self.cols() as usize),
    {
        (self.num_rows, self.num_cols)
    }

    /// The element at `(row, col)`, or `None` outside the grid.
    pub fn get(&self, row: usize, col: usize) -> (r: Option<usize>)
        requires
            self.wf(),
        ensures
            r == if row < self.rows() && col < self.cols() {
                Some(self@[row as int][col as int])
            } else {
                None
            },
    {
        if row < self.num_rows && col < self.num_cols {
            proof {
                lemma_index_in_range(self.num_rows as int, self.num_cols as int, row as int, col as int);
            }
            Some(self.elems[row * self.num_cols + col])
        } else {
            None
        }
    }

    /// Stores `val` at `(row, col)`; outside the grid nothing changes and an error comes back.
    pub fn set(&mut self, row: usize, col: usize, val: usize) -> (r: Result<(), &'static str>)
        requires
            old(self).wf(),
        ensures
            final(self).wf(),
            final(self).rows() == old(self).rows(),
            final(self).cols() == old(self).cols(),
            r is Ok <==> row < old(self).rows() && col < old(self).cols(),
            final(self)@ == if r is Ok {
                old(self)@.update(row as int, old(self)@[row as int].update(col as int, val))
            } else {
                old(self)@
            },
    {
        if row < self.num_rows && col < self.num_cols {
            let ghost before = self@;
            proof {
                lemma_index_in_range(self.num_rows as int, self.num_cols as int, row as int, col as int);
            }
            self.elems.set(row * self.num_cols + col, val);
            let ghost after = before.update(row as int, before[row as int].update(col as int, val));
            assert forall|r: int, c: int|
                0 <= r < self.num_rows && 0 <= c < self.num_cols implies self@[r][c] == after[r][c] by {
                lemma_index_in_range(self.num_rows as int, self.num_cols as int, r, c);
                if r != row || c != col {
                    if r * self.num_cols + c == row * self.num_cols + col {
                        lemma_index_unique(self.num_cols as int, r, c, row as int, col as int);
                    }
                }
            }
            assert(self@ =~~= after);
            Ok(())
        } else {
            Err("index out of bounds")
        }
    }
}

} // verus!
