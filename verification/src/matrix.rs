//! The sparse transition matrix. The storage is `sprs`'s compressed sparse
//! row matrix; this module gives its contents a name (`mat_rows`), wraps
//! the handful of operations the model needs, and proves the facts about
//! sorted sparse rows that the rest of the library builds on.
//!
//! A matrix value is modelled as a sequence of rows, each row the sequence
//! of its stored `(column, count)` pairs in strictly increasing column
//! order. Entries that are never stored do not appear at all.

use vstd::prelude::*;

verus! {

/// A square sparse matrix of unsigned 16-bit counts, backed by `sprs`'s
/// compressed sparse row matrix. The backing value is opaque to the
/// verifier; everything stated about it goes through `mat_rows`.
#[verifier::external_body]
pub struct TransitionMatrix {
    inner: sprs::CsMat<u16>,
}

/// The stored contents of a count matrix: one sequence per row (so the
/// length of the outer sequence is the row dimension), each row holding
/// its `(column, count)` pairs in strictly increasing column order.
pub uninterp spec fn mat_rows(m: TransitionMatrix) -> Seq<Seq<(usize, u16)>>;

/// The count stored in a row under a column, if any.
pub open spec fn row_lookup(row: Seq<(usize, u16)>, col: usize) -> Option<u16>
    decreases row.len(),
{
    if row.len() == 0 {
        None
    } else if row[0].0 == col {
        Some(row[0].1)
    } else {
        row_lookup(row.skip(1), col)
    }
}

/// A row with `(col, val)` stored: an existing entry under `col` is
/// replaced, otherwise the pair is placed at its sorted position.
pub open spec fn row_insert(row: Seq<(usize, u16)>, col: usize, val: u16) -> Seq<(usize, u16)>
    decreases row.len(),
{
    if row.len() == 0 {
        seq![(col, val)]
    } else if col < row[0].0 {
        seq![(col, val)] + row
    } else if col == row[0].0 {
        seq![(col, val)] + row.skip(1)
    } else {
        seq![row[0]] + row_insert(row.skip(1), col, val)
    }
}

/// Columns of a row are strictly increasing (so in particular distinct).
pub open spec fn row_sorted(row: Seq<(usize, u16)>) -> bool {
    forall|i: int, j: int| 0 <= i < j < row.len() ==> row[i].0 < row[j].0
}

/// Relies on `sprs::CsMat::zero`: an `n` by `n` compressed sparse row
/// matrix with no stored entries.
#[verifier::external_body]
pub fn mat_zero(n: usize) -> (m: TransitionMatrix)
    ensures
        mat_rows(m) == Seq::new(n as nat, |i: int| Seq::<(usize, u16)>::empty()),
{
    TransitionMatrix { inner: sprs::CsMat::zero((n, n)) }
}

/// Relies on `sprs::CsMat::rows`: the number of matrix rows.
#[verifier::external_body]
pub fn mat_dim(m: &TransitionMatrix) -> (n: usize)
    ensures
        n == mat_rows(*m).len(),
{
    m.inner.rows()
}

/// Relies on `sprs::CsMat::get`: the value stored at a position, or
/// nothing when no entry is stored there.
#[verifier::external_body]
pub fn mat_get(m: &TransitionMatrix, row: usize, col: usize) -> (r: Option<u16>)
    requires
        row < mat_rows(*m).len(),
        col < mat_rows(*m).len(),
    ensures
        r == row_lookup(mat_rows(*m)[row as int], col),
{
    m.inner.get(row, col).copied()
}

/// Relies on `sprs::CsMat::insert`: stores a value at a position,
/// overwriting any entry already there and keeping the row's column
/// indices sorted.
#[verifier::external_body]
pub fn mat_set(m: &mut TransitionMatrix, row: usize, col: usize, val: u16)
    requires
        row < mat_rows(*old(m)).len(),
        col < mat_rows(*old(m)).len(),
    ensures
        mat_rows(*final(m)) == mat_rows(*old(m)).update(
            row as int,
            row_insert(mat_rows(*old(m))[row as int], col, val),
        ),
{
    m.inner.insert(row, col, val)
}

/// Relies on `sprs::CsMat::outer_view` and the row iterator of
/// `sprs::CsVecBase`: the stored `(column, count)` pairs of one row, in
/// increasing column order.
#[verifier::external_body]
pub fn mat_row_entries(m: &TransitionMatrix, row: usize) -> (r: Vec<(usize, u16)>)
    requires
        row < mat_rows(*m).len(),
    ensures
        r@ == mat_rows(*m)[row as int],
{
    let view = m.inner.outer_view(row).unwrap();
    view.iter().map(|(c, v)| (c, *v)).collect()
}

/// After `row_insert`, the inserted column holds the inserted value and
/// every other column holds what it held before.
pub proof fn lemma_row_insert_lookup(row: Seq<(usize, u16)>, col: usize, val: u16, probe: usize)
    requires
        row_sorted(row),
    ensures
        row_lookup(row_insert(row, col, val), probe) == if probe == col {
            Some(val)
        } else {
            row_lookup(row, probe)
        },
    decreases row.len(),
{
    let out = row_insert(row, col, val);
    if row.len() == 0 {
        assert(out == seq![(col, val)]);
        assert(out[0] == (col, val));
        assert(out.skip(1) =~= Seq::<(usize, u16)>::empty());
        if probe != col {
            assert(row_lookup(out, probe) == row_lookup(out.skip(1), probe));
        }
    } else if col < row[0].0 {
        assert(out == seq![(col, val)] + row);
        assert(out[0] == (col, val));
        assert(out.skip(1) =~= row);
        if probe != col {
            assert(row_lookup(out, probe) == row_lookup(out.skip(1), probe));
        }
    } else if col == row[0].0 {
        assert(out == seq![(col, val)] + row.skip(1));
        assert(out[0] == (col, val));
        assert(out.skip(1) =~= row.skip(1));
        if probe != col {
            assert(row_lookup(out, probe) == row_lookup(out.skip(1), probe));
            assert(row_lookup(row, probe) == row_lookup(row.skip(1), probe));
        }
    } else {
        assert(out == seq![row[0]] + row_insert(row.skip(1), col, val));
        assert(out[0] == row[0]);
        assert(out.skip(1) =~= row_insert(row.skip(1), col, val));
        assert(row_sorted(row.skip(1)));
        lemma_row_insert_lookup(row.skip(1), col, val, probe);
        if probe != row[0].0 {
            assert(row_lookup(out, probe) == row_lookup(out.skip(1), probe));
            assert(row_lookup(row, probe) == row_lookup(row.skip(1), probe));
        } else {
            assert(row_lookup(out, probe) == Some(row[0].1));
            assert(row_lookup(row, probe) == Some(row[0].1));
        }
    }
}

/// A successful lookup means the probed column sits among the row's
/// columns.
pub proof fn lemma_row_lookup_in_range(row: Seq<(usize, u16)>, probe: usize)
    requires
        row_lookup(row, probe) is Some,
    ensures
        exists|i: int| 0 <= i < row.len() && row[i].0 == probe,
    decreases row.len(),
{
    if row.len() > 0 && row[0].0 != probe {
        lemma_row_lookup_in_range(row.skip(1), probe);
        let i = choose|i: int| 0 <= i < row.skip(1).len() && row.skip(1)[i].0 == probe;
        assert(row[i + 1].0 == probe);
    }
}

/// `row_insert` keeps a sorted row sorted.
pub proof fn lemma_row_insert_sorted(row: Seq<(usize, u16)>, col: usize, val: u16)
    requires
        row_sorted(row),
    ensures
        row_sorted(row_insert(row, col, val)),
    decreases row.len(),
{
    let out = row_insert(row, col, val);
    if row.len() == 0 {
    } else if col < row[0].0 {
    } else if col == row[0].0 {
    } else {
        assert(row_sorted(row.skip(1)));
        lemma_row_insert_sorted(row.skip(1), col, val);
        let tail = row_insert(row.skip(1), col, val);
        lemma_row_insert_columns(row.skip(1), col, val);
        assert forall|i: int, j: int| 0 <= i < j < out.len() implies out[i].0 < out[j].0 by {
            if i == 0 {
                assert(out[j] == tail[j - 1]);
                assert(exists|x: int|
                    0 <= x < row.skip(1).len() && tail[j - 1].0 == row.skip(1)[x].0 || tail[j
                        - 1].0 == col);
            } else {
                assert(out[i] == tail[i - 1] && out[j] == tail[j - 1]);
            }
        }
    }
}

/// Every column of `row_insert(row, col, val)` is either `col` or a column
/// of `row`.
pub proof fn lemma_row_insert_columns(row: Seq<(usize, u16)>, col: usize, val: u16)
    requires
        row_sorted(row),
    ensures
        forall|i: int|
            0 <= i < row_insert(row, col, val).len() ==> (row_insert(row, col, val)[i].0 == col
                || exists|x: int| 0 <= x < row.len() && row_insert(row, col, val)[i].0 == #[trigger] row[x].0),
    decreases row.len(),
{
    let out = row_insert(row, col, val);
    if row.len() == 0 {
    } else if col < row[0].0 {
        assert forall|i: int| 0 <= i < out.len() implies (out[i].0 == col || exists|x: int|
            0 <= x < row.len() && out[i].0 == #[trigger] row[x].0) by {
            if i > 0 {
                assert(out[i] == row[i - 1]);
            }
        }
    } else if col == row[0].0 {
        assert forall|i: int| 0 <= i < out.len() implies (out[i].0 == col || exists|x: int|
            0 <= x < row.len() && out[i].0 == #[trigger] row[x].0) by {
            if i > 0 {
                assert(out[i] == row[i]);
            }
        }
    } else {
        assert(row_sorted(row.skip(1)));
        lemma_row_insert_columns(row.skip(1), col, val);
        let tail = row_insert(row.skip(1), col, val);
        assert forall|i: int| 0 <= i < out.len() implies (out[i].0 == col || exists|x: int|
            0 <= x < row.len() && out[i].0 == #[trigger] row[x].0) by {
            if i == 0 {
                assert(out[0] == row[0]);
            } else {
                assert(out[i] == tail[i - 1]);
                if tail[i - 1].0 != col {
                    let x = choose|x: int|
                        0 <= x < row.skip(1).len() && tail[i - 1].0 == row.skip(1)[x].0;
                    assert(row[x + 1].0 == tail[i - 1].0);
                }
            }
        }
    }
}

/// Appending past the last column is what `row_insert` does there: the
/// shape a decoder sees when it replays entries in increasing column
/// order.
pub proof fn lemma_row_insert_append(row: Seq<(usize, u16)>, col: usize, val: u16)
    requires
        row_sorted(row),
        forall|i: int| 0 <= i < row.len() ==> (#[trigger] row[i].0) < col,
    ensures
        row_insert(row, col, val) == row.push((col, val)),
    decreases row.len(),
{
    if row.len() == 0 {
        assert(row_insert(row, col, val) =~= row.push((col, val)));
    } else {
        assert(row_sorted(row.skip(1)));
        lemma_row_insert_append(row.skip(1), col, val);
        assert(row_insert(row, col, val) =~= row.push((col, val)));
    }
}

} // verus!
