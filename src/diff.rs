use vstd::prelude::*;

use crate::grid::Grid;

verus! {

/// The text of each line.
pub open spec fn texts(lines: Seq<String>) -> Seq<Seq<char>> {
    lines.map_values(|s: String| s@)
}

/// Length of a longest common subsequence of the first `i` lines of `a` and the first `j`
/// lines of `b`.
pub open spec fn lcs_len(a: Seq<Seq<char>>, b: Seq<Seq<char>>, i: nat, j: nat) -> nat
    decreases i + j,
{
    if i == 0 || j == 0 {
        0
    } else if a[i - 1] == b[j - 1] {
        lcs_len(a, b, (i - 1) as nat, (j - 1) as nat) + 1
    } else {
        let up = lcs_len(a, b, (i - 1) as nat, j);
        let left = lcs_len(a, b, i, (j - 1) as nat);
        if up >= left {
            up
        } else {
            left
        }
    }
}

proof fn lemma_lcs_bounded(a: Seq<Seq<char>>, b: Seq<Seq<char>>, i: nat, j: nat)
    ensures
        lcs_len(a, b, i, j) <= i,
    decreases i + j,
{
    if i > 0 && j > 0 {
        lemma_lcs_bounded(a, b, (i - 1) as nat, (j - 1) as nat);
        lemma_lcs_bounded(a, b, (i - 1) as nat, j);
        lemma_lcs_bounded(a, b, i, (j - 1) as nat);
    }
}

/// The table of longest-common-subsequence lengths of every pair of prefixes.
pub fn lcs(seq1: &Vec<String>, seq2: &Vec<String>) -> (g: Grid)
    requires
        (seq1@.len() + 1) * (seq2@.len() + 1) <= usize::MAX,
    ensures
        g.wf(),
        g.rows() == seq1@.len() + 1,
        g.cols() == seq2@.len() + 1,
        forall|i: int, j: int|
            0 <= i <= seq1@.len() && 0 <= j <= seq2@.len() ==> #[trigger] g@[i][j] == lcs_len(
                texts(seq1@),
                texts(seq2@),
                i as nat,
                j as nat,
            ),
{
    let ghost a = texts(seq1@);
    let ghost b = texts(seq2@);
    let len1 = seq1.len();
    let len2 = seq2.len();
    assert(len1 + 1 <= (len1 + 1) * (len2 + 1) && len2 + 1 <= (len1 + 1) * (len2 + 1))
        by (nonlinear_arith)
        requires
            len1 >= 0,
            len2 >= 0,
    ;
    let mut dp = Grid::new(len1 + 1, len2 + 1);
    let mut i: usize = 1;
    while i <= len1
        invariant
            1 <= i <= len1 + 1,
            len1 == seq1@.len(),
            len2 == seq2@.len(),
            len1 + 1 <= usize::MAX,
            len2 + 1 <= usize::MAX,
            a == texts(seq1@),
            b == texts(seq2@),
            dp.wf(),
            dp.rows() == len1 + 1,
            dp.cols() == len2 + 1,
            forall|r: int, c: int|
                0 <= r <= len1 && 0 <= c <= len2 && (r < i || c == 0) ==> #[trigger] dp@[r][c]
                    == lcs_len(a, b, r as nat, c as nat),
        decreases len1 + 1 - i,
    {
        let mut j: usize = 1;
        while j <= len2
            invariant
                1 <= i <= len1,
                1 <= j <= len2 + 1,
                len1 == seq1@.len(),
                len2 == seq2@.len(),
                len1 + 1 <= usize::MAX,
                len2 + 1 <= usize::MAX,
                a == texts(seq1@),
                b == texts(seq2@),
                dp.wf(),
                dp.rows() == len1 + 1,
                dp.cols() == len2 + 1,
                forall|r: int, c: int|
                    0 <= r <= len1 && 0 <= c <= len2 && (r < i || c == 0 || (r == i && c < j))
                        ==> #[trigger] dp@[r][c] == lcs_len(a, b, r as nat, c as nat),
            decreases len2 + 1 - j,
        {
            let ghost before = dp@;
            proof {
                dp.lemma_shape();
            }
            assert(a[i - 1] == seq1@[i - 1]@);
            assert(b[j - 1] == seq2@[j - 1]@);
            let v: usize = if seq1[i - 1] == seq2[j - 1] {
                let d = dp.get(i - 1, j - 1).unwrap();
                assert(d == lcs_len(a, b, (i - 1) as nat, (j - 1) as nat));
                proof {
                    lemma_lcs_bounded(a, b, (i - 1) as nat, (j - 1) as nat);
                }
                d + 1
            } else {
                let up = dp.get(i - 1, j).unwrap();
                let left = dp.get(i, j - 1).unwrap();
                assert(up == lcs_len(a, b, (i - 1) as nat, j as nat));
                assert(left == lcs_len(a, b, i as nat, (j - 1) as nat));
                if up >= left {
                    up
                } else {
                    left
                }
            };
            assert(v == lcs_len(a, b, i as nat, j as nat));
            let _ = dp.set(i, j, v);
            proof {
                dp.lemma_shape();
            }
            assert forall|r: int, c: int|
                0 <= r <= len1 && 0 <= c <= len2 && (r < i || c == 0 || (r == i && c < j + 1))
                    implies #[trigger] dp@[r][c] == lcs_len(a, b, r as nat, c as nat) by {
                if r != i || c != j {
                    assert(dp@[r][c] == before[r][c]);
                }
            }
            j = j + 1;
        }
        i = i + 1;
    }
    proof {
        dp.lemma_shape();
    }
    dp
}


/// One line of a diff, by index into the first or second file.
#[derive(Clone, Copy, Debug, PartialEq, Eq, Structural)]
pub enum DiffLine {
    /// Line `i` of the first file, which the second also has.
    Both(usize),
    /// Line `i` of the first file only.
    OnlyFirst(usize),
    /// Line `j` of the second file only.
    OnlySecond(usize),
}

/// The diff of the first `i` lines of `a` against the first `j` lines of `b`, walking the
/// longest-common-subsequence table back from `(i, j)`: a shared last line is kept, else the
/// side whose removal keeps the longer common subsequence loses its last line (the second
/// side on a tie).
pub open spec fn diff_of(a: Seq<Seq<char>>, b: Seq<Seq<char>>, i: nat, j: nat) -> Seq<DiffLine>
    decreases i + j,
{
    if i > 0 && j > 0 && a[i - 1] == b[j - 1] {
        diff_of(a, b, (i - 1) as nat, (j - 1) as nat).push(DiffLine::Both((i - 1) as usize))
    } else if i > 0 && (j == 0 || lcs_len(a, b, (i - 1) as nat, j) > lcs_len(
        a,
        b,
        i,
        (j - 1) as nat,
    )) {
        diff_of(a, b, (i - 1) as nat, j).push(DiffLine::OnlyFirst((i - 1) as usize))
    } else if j > 0 {
        diff_of(a, b, i, (j - 1) as nat).push(DiffLine::OnlySecond((j - 1) as usize))
    } else {
        Seq::empty()
    }
}

/// The diff of two files, given the table that `lcs` computed for them.
pub fn diff_lines(lcs_table: &Grid, lines1: &Vec<String>, lines2: &Vec<String>) -> (r: Vec<
    DiffLine,
>)
    requires
        lcs_table.wf(),
        lcs_table.rows() == lines1@.len() + 1,
        lcs_table.cols() == lines2@.len() + 1,
        forall|i: int, j: int|
            0 <= i <= lines1@.len() && 0 <= j <= lines2@.len() ==> #[trigger] lcs_table@[i][j]
                == lcs_len(texts(lines1@), texts(lines2@), i as nat, j as nat),
    ensures
        r@ == diff_of(texts(lines1@), texts(lines2@), lines1@.len(), lines2@.len()),
{
    let ghost a = texts(lines1@);
    let ghost b = texts(lines2@);
    let len1 = lines1.len();
    let len2 = lines2.len();
    let ghost whole = diff_of(a, b, len1 as nat, len2 as nat);
    let ghost mut tail: Seq<DiffLine> = Seq::empty();
    let mut rev: Vec<DiffLine> = Vec::new();
    let mut i: usize = len1;
    let mut j: usize = len2;
    while i > 0 || j > 0
        invariant
            i <= len1 == lines1@.len(),
            j <= len2 == lines2@.len(),
            a == texts(lines1@),
            b == texts(lines2@),
            lcs_table.wf(),
            lcs_table.rows() == len1 + 1,
            lcs_table.cols() == len2 + 1,
            forall|r: int, c: int|
                0 <= r <= len1 && 0 <= c <= len2 ==> #[trigger] lcs_table@[r][c] == lcs_len(
                    a,
                    b,
                    r as nat,
                    c as nat,
                ),
            whole == diff_of(a, b, i as nat, j as nat) + tail,
            rev@.len() == tail.len(),
            forall|k: int| 0 <= k < tail.len() ==> #[trigger] rev@[k] == tail[tail.len() - 1 - k],
        decreases i + j,
    {
        proof {
            lcs_table.lemma_shape();
        }
        let ghost d = diff_of(a, b, i as nat, j as nat);
        let x;
        if i > 0 && j > 0 && lines1[i - 1] == lines2[j - 1] {
            assert(a[i - 1] == lines1@[i - 1]@);
            assert(b[j - 1] == lines2@[j - 1]@);
            x = DiffLine::Both(i - 1);
            i = i - 1;
            j = j - 1;
        } else if i > 0 && (j == 0 || lcs_table.get(i - 1, j).unwrap() > lcs_table.get(
            i,
            j - 1,
        ).unwrap()) {
            assert(i > 0 && j > 0 ==> a[i - 1] != b[j - 1]);
            x = DiffLine::OnlyFirst(i - 1);
            i = i - 1;
        } else {
            assert(i > 0 && j > 0 ==> a[i - 1] != b[j - 1]);
            x = DiffLine::OnlySecond(j - 1);
            j = j - 1;
        }
        assert(d == diff_of(a, b, i as nat, j as nat).push(x));
        rev.push(x);
        proof {
            let old_tail = tail;
            tail = seq![x] + old_tail;
            assert(whole =~= diff_of(a, b, i as nat, j as nat) + tail);
            assert forall|k: int| 0 <= k < tail.len() implies #[trigger] rev@[k] == tail[tail.len()
                - 1 - k] by {
                if k < old_tail.len() {
                    assert(rev@[k] == old_tail[old_tail.len() - 1 - k]);
                }
            }
        }
    }
    assert(whole =~= tail);
    let ghost backwards = rev@;
    let mut out: Vec<DiffLine> = Vec::new();
    while rev.len() > 0
        invariant
            out@.len() + rev@.len() == tail.len(),
            backwards.len() == tail.len(),
            rev@ == backwards.subrange(0, rev@.len() as int),
            forall|k: int| 0 <= k < tail.len() ==> #[trigger] backwards[k] == tail[tail.len() - 1 - k],
            out@ == tail.subrange(0, out@.len() as int),
        decreases rev@.len(),
    {
        let x = rev.pop().unwrap();
        assert(x == backwards[rev@.len() as int]);
        out.push(x);
        assert(out@ =~= tail.subrange(0, out@.len() as int));
    }
    assert(out@ =~= tail);
    out
}

} // verus!
