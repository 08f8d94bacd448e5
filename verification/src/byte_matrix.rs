//! Dealing a byte sequence out into columns, one per key position, and
//! putting the columns back together.

use crate::cipher::Error;
use vstd::arithmetic::div_mod::{lemma_fundamental_div_mod, lemma_fundamental_div_mod_converse};
use vstd::prelude::*;

verus! {

/// The length of column `index` when `len` bytes are dealt out over `count`
/// columns: the first `len mod count` columns are one byte longer.
pub open spec fn column_len(len: nat, count: nat, index: nat) -> nat {
    len / count + if index < len % count {
        1nat
    } else {
        0nat
    }
}

/// Column `index` of `bytes` dealt out over `count` columns: the bytes at
/// positions `index`, `index + count`, `index + 2 * count`, and so on.
pub open spec fn column(bytes: Seq<u8>, count: nat, index: nat) -> Seq<u8> {
    Seq::new(column_len(bytes.len(), count, index), |row: int| bytes[row * count + index])
}

/// `bytes` dealt out over `count` columns.
pub open spec fn columns_of(bytes: Seq<u8>, count: nat) -> Seq<Seq<u8>> {
    Seq::new(count, |index: int| column(bytes, count, index as nat))
}

/// Whether `columns` have the lengths that dealing out `len` bytes gives.
pub open spec fn is_dealt(columns: Seq<Seq<u8>>, len: nat) -> bool {
    &&& columns.len() > 0
    &&& forall|index: int|
        0 <= index < columns.len() ==> (#[trigger] columns[index]).len() == column_len(
            len,
            columns.len(),
            index as nat,
        )
}

/// The bytes that row `row` holds in the first `upto` columns, in column
/// order; a column too short to reach the row gives nothing.
pub open spec fn row_prefix(columns: Seq<Seq<u8>>, row: int, upto: int) -> Seq<u8>
    decreases upto,
{
    if upto <= 0 {
        Seq::empty()
    } else if row < columns[upto - 1].len() {
        row_prefix(columns, row, upto - 1).push(columns[upto - 1][row])
    } else {
        row_prefix(columns, row, upto - 1)
    }
}

/// The first `rows` rows, one after the other.
pub open spec fn rows_prefix(columns: Seq<Seq<u8>>, rows: int) -> Seq<u8>
    decreases rows,
{
    if rows <= 0 {
        Seq::empty()
    } else {
        rows_prefix(columns, rows - 1) + row_prefix(columns, rows - 1, columns.len() as int)
    }
}

/// The columns read row by row, for as many rows as the first column has.
pub open spec fn interleaved(columns: Seq<Seq<u8>>) -> Seq<u8> {
    if columns.len() == 0 {
        Seq::empty()
    } else {
        rows_prefix(columns, columns[0].len() as int)
    }
}

/// Row `row` reaches into column `index` exactly when position
/// `row * count + index` lies inside the data.
pub proof fn lemma_column_reach(len: nat, count: nat, index: nat, row: nat)
    requires
        index < count,
    ensures
        row < column_len(len, count, index) <==> row * count + index < len,
{
    let q = len / count;
    let m = len % count;
    lemma_fundamental_div_mod(len as int, count as int);
    assert(len == count * q + m);
    assert(count * q == q * count) by (nonlinear_arith);
    if row <= q {
        assert(row * count <= q * count) by (nonlinear_arith)
            requires
                row <= q,
        ;
    }
    if row < q {
        assert(row * count + count <= q * count) by (nonlinear_arith)
            requires
                row < q,
        ;
    }
    if row >= q {
        assert(row * count >= q * count) by (nonlinear_arith)
            requires
                row >= q,
        ;
    }
    if row > q {
        assert(row * count >= q * count + count) by (nonlinear_arith)
            requires
                row > q,
        ;
    }
}

/// Dealing out one more byte lengthens the column at `len mod count` by one
/// and leaves the others as they are; the new byte lands at the end of its
/// column.
pub proof fn lemma_column_len_step(len: nat, count: nat, index: nat)
    requires
        index < count,
    ensures
        column_len(len + 1, count, index) == column_len(len, count, index) + if index == len
            % count {
            1nat
        } else {
            0nat
        },
        column_len(len, count, len % count) * count + len % count == len,
{
    let q = len / count;
    let m = len % count;
    lemma_fundamental_div_mod(len as int, count as int);
    assert(count * q == q * count) by (nonlinear_arith);
    if m + 1 < count {
        lemma_fundamental_div_mod_converse(len as int + 1, count as int, q as int, m as int + 1);
    } else {
        assert((q + 1) * count == q * count + count) by (nonlinear_arith);
        lemma_fundamental_div_mod_converse(len as int + 1, count as int, q as int + 1, 0);
    }
}

/// Columns of bytes, one for each position of a repeating key.
pub struct ByteMatrix {
    matrix: Vec<Vec<u8>>,
    row_size: usize,
}

impl View for ByteMatrix {
    type V = Seq<Seq<u8>>;

    closed spec fn view(&self) -> Seq<Seq<u8>> {
        Seq::new(self.matrix@.len(), |index: int| self.matrix@[index]@)
    }
}

impl ByteMatrix {
    /// A matrix has at least one column, and `row_size` is their number.
    #[verifier::type_invariant]
    spec fn well_formed(&self) -> bool {
        self.matrix@.len() == self.row_size && self.row_size >= 1
    }

    /// The columns as the vectors that hold them.
    pub closed spec fn columns(&self) -> Seq<Vec<u8>> {
        self.matrix@
    }

    /// The view of a matrix is the views of its columns.
    pub proof fn lemma_view_of_columns(&self)
        ensures
            self@.len() == self.columns().len(),
            forall|index: int|
                0 <= index < self.columns().len() ==> self@[index] == (
                #[trigger] self.columns()[index])@,
    {
    }

    /// Deals `vector` out over `size` columns: column `i` gets the bytes at
    /// positions `i`, `i + size`, `i + 2 * size`, and so on.
    pub fn transpose(vector: &[u8], size: usize) -> (dealt: ByteMatrix)
        requires
            size >= 1,
        ensures
            dealt@ == columns_of(vector@, size as nat),
    {
        let mut vectors: Vec<Vec<u8>> = Vec::new();
        let mut made: usize = 0;
        while made < size
            invariant
                made <= size,
                vectors@.len() == made,
                forall|index: int| 0 <= index < made ==> (#[trigger] vectors@[index])@.len() == 0,
            decreases size - made,
        {
            vectors.push(Vec::new());
            made += 1;
        }
        let mut i: usize = 0;
        proof {
            lemma_fundamental_div_mod_converse(0, size as int, 0, 0);
            assert forall|index: int| 0 <= index < size implies (#[trigger] vectors@[index])@
                == column(vector@.take(0), size as nat, index as nat) by {
                assert(vectors@[index]@ =~= column(vector@.take(0), size as nat, index as nat));
            }
        }
        while i < vector.len()
            invariant
                i <= vector@.len(),
                size >= 1,
                vectors@.len() == size,
                forall|index: int|
                    0 <= index < size ==> (#[trigger] vectors@[index])@ == column(
                        vector@.take(i as int),
                        size as nat,
                        index as nat,
                    ),
            decreases vector@.len() - i,
        {
            let target: usize = i % size;
            let ghost before = vectors@;
            vectors[target].push(vector[i]);
            proof {
                let seen = vector@.take(i as int);
                let next = vector@.take(i + 1);
                assert forall|index: int| 0 <= index < size implies (#[trigger] vectors@[index])@
                    == column(next, size as nat, index as nat) by {
                    lemma_column_len_step(i as nat, size as nat, index as nat);
                    assert(before[index]@ == column(seen, size as nat, index as nat));
                    let wanted = column(next, size as nat, index as nat);
                    assert(vectors@[index]@.len() == wanted.len());
                    assert forall|row: int| 0 <= row < wanted.len() implies vectors@[index]@[row]
                        == #[trigger] wanted[row] by {
                        lemma_column_reach(i as nat, size as nat, index as nat, row as nat);
                    }
                    assert(vectors@[index]@ =~= wanted);
                }
            }
            i += 1;
        }
        proof {
            assert(vector@.take(i as int) =~= vector@);
        }
        let dealt = ByteMatrix { matrix: vectors, row_size: size };
        assert(dealt@ =~= columns_of(vector@, size as nat));
        dealt
    }

    /// Deals `vector` out over `size` columns where the column count is
    /// positive and no larger than the number of bytes, and refuses every
    /// other column count.
    pub fn try_transpose(vector: &[u8], size: usize) -> (dealt: Result<ByteMatrix, Error>)
        ensures
            match dealt {
                Ok(matrix) => 1 <= size <= vector@.len() && matrix@ == columns_of(
                    vector@,
                    size as nat,
                ),
                Err(error) => (size == 0 || size > vector@.len()) && error is InvalidInput,
            },
    {
        if size == 0 || size > vector.len() {
            Err(Error::InvalidInput)
        } else {
            Ok(ByteMatrix::transpose(vector, size))
        }
    }

    /// Replaces every column by what `fun` makes of it.
    pub fn transform<F>(&self, fun: F) -> (changed: ByteMatrix) where F: Fn(&Vec<u8>) -> Vec<u8>
        requires
            forall|index: int|
                0 <= index < self.columns().len() ==> call_requires(
                    fun,
                    (&#[trigger] self.columns()[index],),
                ),
        ensures
            changed.columns().len() == self.columns().len(),
            forall|index: int|
                0 <= index < self.columns().len() ==> call_ensures(
                    fun,
                    (&self.columns()[index],),
                    #[trigger] changed.columns()[index],
                ),
    {
        proof {
            use_type_invariant(self);
        }
        let mut vecs: Vec<Vec<u8>> = Vec::new();
        let mut j: usize = 0;
        proof {
            assert forall|index: int| 0 <= index < self.matrix@.len() implies call_requires(
                fun,
                (&#[trigger] self.matrix@[index],),
            ) by {
                assert(self.matrix@[index] == self.columns()[index]);
            }
        }
        while j < self.matrix.len()
            invariant
                j <= self.matrix@.len(),
                vecs@.len() == j,
                forall|index: int|
                    0 <= index < self.matrix@.len() ==> call_requires(
                        fun,
                        (&#[trigger] self.matrix@[index],),
                    ),
                forall|index: int|
                    0 <= index < j ==> call_ensures(
                        fun,
                        (&self.matrix@[index],),
                        #[trigger] vecs@[index],
                    ),
            decreases self.matrix@.len() - j,
        {
            let made = fun(&self.matrix[j]);
            vecs.push(made);
            j += 1;
        }
        ByteMatrix { matrix: vecs, row_size: self.row_size }
    }

    /// Reads the columns row by row, for as many rows as the first column
    /// has: in each row, one byte from every column that reaches it.
    pub fn reassemble(&self) -> (bytes: Vec<u8>)
        ensures
            bytes@ == interleaved(self@),
    {
        proof {
            use_type_invariant(self);
        }
        let mut bytes: Vec<u8> = Vec::new();
        let max_size: usize = self.matrix[0].len();
        let mut i: usize = 0;
        while i < max_size
            invariant
                i <= max_size,
                max_size == self@[0].len(),
                self.matrix@.len() == self.row_size,
                self@.len() == self.row_size,
                forall|index: int|
                    0 <= index < self.row_size ==> self@[index] == (#[trigger] self.matrix@[index])@,
                bytes@ == rows_prefix(self@, i as int),
            decreases max_size - i,
        {
            let ghost done = bytes@;
            let mut j: usize = 0;
            while j < self.row_size
                invariant
                    j <= self.row_size,
                    self.matrix@.len() == self.row_size,
                    self@.len() == self.row_size,
                    forall|index: int|
                        0 <= index < self.row_size ==> self@[index] == (
                        #[trigger] self.matrix@[index])@,
                    bytes@ == done + row_prefix(self@, i as int, j as int),
                decreases self.row_size - j,
            {
                let this_size: usize = self.matrix[j].len();
                if this_size > i {
                    bytes.push(self.matrix[j][i]);
                }
                j += 1;
                assert(bytes@ =~= done + row_prefix(self@, i as int, j as int));
            }
            i += 1;
        }
        bytes
    }
}

/// The sequence of `len` bytes in which position `p` holds byte `p / count`
/// of column `p mod count`, for `count` columns.
pub open spec fn dealt_back(columns: Seq<Seq<u8>>, len: nat) -> Seq<u8> {
    Seq::new(len, |p: int| columns[p % columns.len() as int][p / columns.len() as int])
}

/// How many of the first `upto` columns row `row` reaches into, when `len`
/// bytes were dealt out over `count` columns.
pub open spec fn row_reach(len: nat, count: nat, row: nat, upto: nat) -> nat {
    if row * count >= len {
        0
    } else if row * count + upto <= len {
        upto
    } else {
        (len - row * count) as nat
    }
}

/// In dealt columns a row reaches into a leading run of columns and holds
/// one byte of each.
pub proof fn lemma_row_prefix_dealt(columns: Seq<Seq<u8>>, len: nat, row: nat, upto: nat)
    requires
        is_dealt(columns, len),
        upto <= columns.len(),
    ensures
        row_prefix(columns, row as int, upto as int).len() == row_reach(
            len,
            columns.len(),
            row,
            upto,
        ),
        forall|index: int|
            0 <= index < row_reach(len, columns.len(), row, upto) ==> row_prefix(
                columns,
                row as int,
                upto as int,
            )[index] == columns[index][row as int],
    decreases upto,
{
    if upto > 0 {
        let last = (upto - 1) as nat;
        lemma_row_prefix_dealt(columns, len, row, last);
        lemma_column_reach(len, columns.len(), last, row);
        assert(columns[last as int].len() == column_len(len, columns.len(), last));
    }
}

/// The first `rows` rows of dealt columns are the first `rows * count` bytes
/// of the data, or all of it where it is shorter.
pub proof fn lemma_rows_prefix_dealt(columns: Seq<Seq<u8>>, len: nat, rows: nat)
    requires
        is_dealt(columns, len),
        rows <= columns[0].len(),
    ensures
        rows_prefix(columns, rows as int) == dealt_back(columns, len).take(
            if rows * columns.len() <= len {
                (rows * columns.len()) as int
            } else {
                len as int
            },
        ),
    decreases rows,
{
    let count = columns.len();
    let whole = dealt_back(columns, len);
    if rows == 0 {
        assert(0 * count == 0) by (nonlinear_arith);
        assert(rows_prefix(columns, 0) =~= whole.take(0));
    } else {
        let row = (rows - 1) as nat;
        lemma_rows_prefix_dealt(columns, len, row);
        lemma_row_prefix_dealt(columns, len, row, count);
        assert(columns[0].len() == column_len(len, count, 0));
        lemma_column_reach(len, count, 0, row);
        assert(rows * count == row * count + count) by (nonlinear_arith)
            requires
                rows == row + 1,
        ;
        let start = row * count;
        let reach = row_reach(len, count, row, count);
        let end = if rows * count <= len {
            (rows * count) as int
        } else {
            len as int
        };
        assert(start + reach == end);
        let this_row = row_prefix(columns, row as int, count as int);
        assert forall|p: int| start <= p < end implies whole[p] == this_row[p - start] by {
            lemma_fundamental_div_mod_converse(p, count as int, row as int, p - start);
        }
        assert(rows_prefix(columns, rows as int) =~= whole.take(end));
    }
}

/// Dealt columns read row by row give the bytes back in their first order.
pub proof fn lemma_interleaved_dealt(columns: Seq<Seq<u8>>, len: nat)
    requires
        is_dealt(columns, len),
    ensures
        interleaved(columns) == dealt_back(columns, len),
{
    let count = columns.len();
    let rows = columns[0].len();
    assert(rows == column_len(len, count, 0));
    lemma_rows_prefix_dealt(columns, len, rows);
    lemma_fundamental_div_mod(len as int, count as int);
    assert(count * (len / count) == (len / count) * count) by (nonlinear_arith);
    if len % count != 0 {
        assert((len / count + 1) * count == (len / count) * count + count) by (nonlinear_arith);
    }
    assert(dealt_back(columns, len).take(len as int) =~= dealt_back(columns, len));
}

/// The length of a column is the number of bytes left from its index on,
/// divided by the column count and rounded up.
pub proof fn lemma_column_len_is_ceiling(len: nat, count: nat, index: nat)
    requires
        index < count,
    ensures
        column_len(len, count, index) == (len - index + count - 1) / (count as int),
{
    let q = len / count;
    let m = len % count;
    lemma_fundamental_div_mod(len as int, count as int);
    assert(count * q == q * count) by (nonlinear_arith);
    if index < m {
        assert((q + 1) * count == q * count + count) by (nonlinear_arith);
        lemma_fundamental_div_mod_converse(
            len - index + count - 1,
            count as int,
            q as int + 1,
            m - index - 1,
        );
    } else {
        lemma_fundamental_div_mod_converse(
            len - index + count - 1,
            count as int,
            q as int,
            m - index + count - 1,
        );
    }
}

/// Reading dealt columns row by row and dealing the bytes out again over as
/// many columns gives the same columns.
pub proof fn lemma_reassemble_then_transpose(columns: Seq<Seq<u8>>, len: nat)
    requires
        is_dealt(columns, len),
    ensures
        interleaved(columns).len() == len,
        columns_of(interleaved(columns), columns.len()) == columns,
{
    let count = columns.len();
    let bytes = interleaved(columns);
    lemma_interleaved_dealt(columns, len);
    assert forall|index: int| 0 <= index < count implies #[trigger] columns_of(bytes, count)[index]
        == columns[index] by {
        let dealt = column(bytes, count, index as nat);
        assert(dealt.len() == columns[index].len());
        assert forall|row: int| 0 <= row < dealt.len() implies #[trigger] dealt[row]
            == columns[index][row] by {
            lemma_column_reach(len, count, index as nat, row as nat);
            lemma_fundamental_div_mod_converse(row * count + index, count as int, row, index);
        }
        assert(dealt =~= columns[index]);
    }
    assert(columns_of(bytes, count) =~= columns);
}

/// Dealing bytes out over any positive number of columns and reading the
/// columns back row by row gives the same bytes, whether or not the length
/// is a multiple of the column count.
pub proof fn lemma_transpose_round_trip(bytes: Seq<u8>, count: nat)
    requires
        count >= 1,
    ensures
        is_dealt(columns_of(bytes, count), bytes.len()),
        interleaved(columns_of(bytes, count)) == bytes,
{
    let columns = columns_of(bytes, count);
    let len = bytes.len();
    assert(is_dealt(columns, len));
    lemma_interleaved_dealt(columns, len);
    assert forall|p: int| 0 <= p < len implies dealt_back(columns, len)[p] == bytes[p] by {
        lemma_fundamental_div_mod(p, count as int);
        assert(count * (p / count as int) == (p / count as int) * count) by (nonlinear_arith);
        assert(0 <= p / count as int) by (nonlinear_arith)
            requires
                0 <= p,
                count > 0,
        ;
        lemma_column_reach(len, count, (p % count as int) as nat, (p / count as int) as nat);
    }
    assert(dealt_back(columns, len) =~= bytes);
}

} // verus!
