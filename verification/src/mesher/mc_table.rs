//! The table of marching cubes: for each of the 256 ways in which the eight
//! corners of a cell can be empty or not, the triangles that close the
//! surface inside the cell.
use vstd::prelude::*;
use crate::direction::Edge;

verus! {

/// The entry that ends a row.
pub const END_OF_ROW: u16 = 0xFFFF;

/// The greatest number of triangles in a row.
pub const MAX_TRIANGLES: usize = 5;

/// Whether `entry` packs three edges: four bits each, the top four bits
/// zero.
pub open spec fn is_triangle(entry: u16) -> bool {
    &&& entry < 0x1000
    &&& entry % 16 < 12
    &&& (entry / 16) % 16 < 12
    &&& entry / 256 < 12
}

/// The three edges that `entry` packs, the lowest four bits first.
pub open spec fn triangle_edges(entry: u16) -> (Edge, Edge, Edge) {
    (
        Edge::of((entry % 16) as nat),
        Edge::of(((entry / 16) % 16) as nat),
        Edge::of((entry / 256) as nat),
    )
}

/// The number of entries of `row` before the one that ends it.
pub open spec fn row_len(row: Seq<u16>) -> nat
    decreases row.len(),
{
    if row.len() == 0 || row[0] == END_OF_ROW {
        0
    } else {
        1 + row_len(row.drop_first())
    }
}

/// Whether `row` holds at most five triangles and nothing else before its
/// end.
pub open spec fn valid_row(row: Seq<u16>) -> bool {
    &&& row_len(row) <= MAX_TRIANGLES
    &&& forall|i: int| 0 <= i < row_len(row) ==> is_triangle(#[trigger] row[i])
}

/// The length of a row is the place of its first end mark, or the row's
/// length where it has none.
pub proof fn lemma_row_len(row: Seq<u16>)
    ensures
        row_len(row) <= row.len(),
        forall|i: int| 0 <= i < row_len(row) ==> #[trigger] row[i] != END_OF_ROW,
        row_len(row) < row.len() ==> row[row_len(row) as int] == END_OF_ROW,
    decreases row.len(),
{
    if row.len() > 0 && row[0] != END_OF_ROW {
        let rest = row.drop_first();
        lemma_row_len(rest);
        assert forall|i: int| 0 <= i < row_len(row) implies #[trigger] row[i] != END_OF_ROW by {
            if i > 0 {
                assert(rest[i - 1] == row[i]);
            }
        }
        if row_len(row) < row.len() {
            assert(rest[row_len(rest) as int] == row[row_len(row) as int]);
        }
    }
}

/// A row whose first `n` entries are no end marks and whose next entry, if
/// there is one, is an end mark, has the length `n`.
pub proof fn lemma_row_len_is(row: Seq<u16>, n: nat)
    requires
        n <= row.len(),
        forall|i: int| 0 <= i < n ==> #[trigger] row[i] != END_OF_ROW,
        n < row.len() ==> row[n as int] == END_OF_ROW,
    ensures
        row_len(row) == n,
    decreases row.len(),
{
    if n > 0 {
        let rest = row.drop_first();
        assert(row[0] != END_OF_ROW);
        assert forall|i: int| 0 <= i < n - 1 implies #[trigger] rest[i] != END_OF_ROW by {
            assert(rest[i] == row[i + 1]);
        }
        if n < row.len() {
            assert(rest[n - 1] == row[n as int]);
        }
        lemma_row_len_is(rest, (n - 1) as nat);
    }
}

/// A table of 256 rows of triangles; a row ends at its first `END_OF_ROW`.
pub struct TriangleTable {
    rows: Vec<Vec<u16>>,
}

impl View for TriangleTable {
    type V = Seq<Seq<u16>>;

    /// The rows, each cut at its end.
    closed spec fn view(&self) -> Seq<Seq<u16>> {
        Seq::new(self.rows@.len(), |i: int| self.rows@[i]@.take(row_len(self.rows@[i]@) as int))
    }
}

impl TriangleTable {
    /// The table has 256 rows, each with at most five triangles.
    #[verifier::type_invariant]
    closed spec fn wf(self) -> bool {
        &&& self.rows@.len() == 256
        &&& forall|i: int| 0 <= i < 256 ==> valid_row((#[trigger] self.rows@[i])@)
    }

    /// Whether `rows` can make a table: there are 256 of them, and each
    /// holds at most five triangles before its end.
    pub open spec fn accepts(rows: Seq<Seq<u16>>) -> bool {
        &&& rows.len() == 256
        &&& forall|i: int| 0 <= i < 256 ==> valid_row(#[trigger] rows[i])
    }

    /// The table with the rows `rows`, or `None` where they cannot make
    /// one.
    pub fn new(rows: Vec<Vec<u16>>) -> (table: Option<TriangleTable>)
        ensures
            table is Some <==> TriangleTable::accepts(rows.deep_view()),
            table matches Some(t) ==> t@.len() == 256 && forall|i: int|
                0 <= i < 256 ==> #[trigger] t@[i] == rows@[i]@.take(row_len(rows@[i]@) as int),
    {
        let ghost all = rows.deep_view();
        assert(all.len() == rows@.len());
        assert forall|i: int| 0 <= i < rows@.len() implies #[trigger] all[i] =~= rows@[i]@ by {}
        if rows.len() != 256 {
            return None;
        }
        let mut i: usize = 0;
        while i < 256
            invariant
                i <= 256,
                rows@.len() == 256,
                all == rows.deep_view(),
                forall|k: int| 0 <= k < 256 ==> #[trigger] all[k] == rows@[k]@,
                forall|k: int| 0 <= k < i ==> valid_row((#[trigger] rows@[k])@),
            decreases 256 - i,
        {
            if !row_is_valid(&rows[i]) {
                proof {
                    assert(!valid_row(all[i as int]));
                }
                return None;
            }
            i += 1;
        }
        proof {
            assert forall|k: int| 0 <= k < 256 implies valid_row(#[trigger] all[k]) by {
                assert(valid_row(rows@[k]@));
            }
        }
        Some(TriangleTable { rows })
    }

    /// The row for the case `case`, up to its end.
    pub fn row(&self, case: u8) -> (row: &[u16])
        ensures
            row@ == self@[case as int],
            row@.len() <= MAX_TRIANGLES,
            forall|i: int| 0 <= i < row@.len() ==> is_triangle(#[trigger] row@[i]),
    {
        proof {
            use_type_invariant(self);
        }
        let whole = &self.rows[case as usize];
        let n = measure_row(whole);
        proof {
            lemma_row_len(whole@);
        }
        vstd::slice::slice_subrange(whole.as_slice(), 0, n)
    }
}

/// The number of entries of `row` before the one that ends it.
fn measure_row(row: &Vec<u16>) -> (n: usize)
    ensures
        n == row_len(row@),
        n <= row@.len(),
{
    let mut n: usize = 0;
    while n < row.len() && row[n] != END_OF_ROW
        invariant
            n <= row@.len(),
            forall|i: int| 0 <= i < n ==> #[trigger] row@[i] != END_OF_ROW,
        decreases row@.len() - n,
    {
        n += 1;
    }
    proof {
        lemma_row_len_is(row@, n as nat);
    }
    n
}

/// Whether `row` holds at most five triangles and nothing else before its
/// end.
fn row_is_valid(row: &Vec<u16>) -> (ok: bool)
    ensures
        ok == valid_row(row@),
{
    let n = measure_row(row);
    if n > MAX_TRIANGLES {
        return false;
    }
    let mut i: usize = 0;
    while i < n
        invariant
            i <= n,
            n == row_len(row@),
            n <= row@.len(),
            forall|k: int| 0 <= k < i ==> is_triangle(#[trigger] row@[k]),
        decreases n - i,
    {
        let entry = row[i];
        if entry >= 0x1000 || entry % 16 >= 12 || (entry / 16) % 16 >= 12 || entry / 256 >= 12 {
            return false;
        }
        i += 1;
    }
    true
}

} // verus!
