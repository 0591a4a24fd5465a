//! A table of optional entries with a fixed number of columns, to which rows
//! are added at the end.

use vstd::prelude::*;

verus! {

/// How many places of a row hold an entry.
pub open spec fn row_count<V>(row: Seq<Option<V>>) -> nat
    decreases row.len(),
{
    if row.len() == 0 {
        0
    } else {
        row_count(row.drop_last()) + if row.last() is Some {
            1nat
        } else {
            0nat
        }
    }
}

/// How many places of the rows hold an entry.
pub open spec fn grid_count<V>(rows: Seq<Seq<Option<V>>>) -> nat
    decreases rows.len(),
{
    if rows.len() == 0 {
        0
    } else {
        grid_count(rows.drop_last()) + row_count(rows.last())
    }
}

/// The entries of a row, in the order of the columns.
pub open spec fn row_values<V>(row: Seq<Option<V>>) -> Seq<V>
    decreases row.len(),
{
    if row.len() == 0 {
        Seq::empty()
    } else if row.last() is Some {
        row_values(row.drop_last()).push(row.last()->Some_0)
    } else {
        row_values(row.drop_last())
    }
}

/// The entries of the rows, row by row.
pub open spec fn grid_values<V>(rows: Seq<Seq<Option<V>>>) -> Seq<V>
    decreases rows.len(),
{
    if rows.len() == 0 {
        Seq::empty()
    } else {
        grid_values(rows.drop_last()) + row_values(rows.last())
    }
}

/// A row has as many entries as `row_count` says.
pub proof fn lemma_row_values_len<V>(row: Seq<Option<V>>)
    ensures
        row_values(row).len() == row_count(row),
    decreases row.len(),
{
    if row.len() > 0 {
        lemma_row_values_len(row.drop_last());
    }
}

/// Rows have as many entries as `grid_count` says.
pub proof fn lemma_grid_values_len<V>(rows: Seq<Seq<Option<V>>>)
    ensures
        grid_values(rows).len() == grid_count(rows),
    decreases rows.len(),
{
    if rows.len() > 0 {
        lemma_grid_values_len(rows.drop_last());
        lemma_row_values_len(rows.last());
    }
}

/// Rows without entries count nothing.
pub proof fn lemma_grid_count_zero<V>(rows: Seq<Seq<Option<V>>>)
    ensures
        grid_count(rows) == 0 <==> forall|r: int, c: int|
            0 <= r < rows.len() && 0 <= c < rows[r].len() ==> #[trigger] rows[r][c] is None,
    decreases rows.len(),
{
    if rows.len() > 0 {
        lemma_grid_count_zero(rows.drop_last());
        lemma_row_count_zero(rows.last());
        let front = rows.drop_last();
        if grid_count(rows) == 0 {
            assert forall|r: int, c: int|
                0 <= r < rows.len() && 0 <= c < rows[r].len() implies
                    #[trigger] rows[r][c] is None by {
                if r < rows.len() - 1 {
                    assert(front[r][c] is None);
                }
            }
        } else {
            if grid_count(front) != 0 {
                let (r, c) = choose|r: int, c: int|
                    0 <= r < front.len() && 0 <= c < front[r].len()
                        && !(#[trigger] front[r][c] is None);
                assert(!(rows[r][c] is None));
            } else {
                let c = choose|c: int| 0 <= c < rows.last().len()
                    && !(#[trigger] rows.last()[c] is None);
                assert(!(rows[rows.len() - 1][c] is None));
            }
        }
    }
}

/// A row without entries counts nothing.
pub proof fn lemma_row_count_zero<V>(row: Seq<Option<V>>)
    ensures
        row_count(row) == 0 <==> forall|c: int| 0 <= c < row.len() ==> #[trigger] row[c] is None,
    decreases row.len(),
{
    if row.len() > 0 {
        lemma_row_count_zero(row.drop_last());
        let front = row.drop_last();
        if row_count(row) == 0 {
            assert forall|c: int| 0 <= c < row.len() implies #[trigger] row[c] is None by {
                if c < row.len() - 1 {
                    assert(front[c] is None);
                }
            }
        } else {
            if row_count(front) != 0 {
                let c = choose|c: int| 0 <= c < front.len() && !(#[trigger] front[c] is None);
                assert(!(row[c] is None));
            }
        }
    }
}

/// A table of optional entries: rows of a fixed number of columns.
#[derive(Debug, Clone, PartialEq, Eq)]
pub struct Table<V> {
    columns: usize,
    rows: Vec<Vec<Option<V>>>,
}

impl<V> View for Table<V> {
    type V = Seq<Seq<Option<V>>>;

    closed spec fn view(&self) -> Seq<Seq<Option<V>>> {
        Seq::new(self.rows.len() as nat, |r: int| self.rows[r]@)
    }
}

impl<V: Copy> Table<V> {
    /// The number of columns.
    pub closed spec fn width(&self) -> nat {
        self.columns as nat
    }

    /// The number of rows.
    pub open spec fn height(&self) -> nat {
        self@.len()
    }

    /// Every row has the table's number of columns.
    pub open spec fn wf(&self) -> bool {
        forall|r: int| 0 <= r < self@.len() ==> (#[trigger] self@[r]).len() == self.width()
    }

    /// What stands at a place; nothing outside the table.
    pub open spec fn entry(&self, r: int, c: int) -> Option<V> {
        if 0 <= r < self@.len() && 0 <= c < self@[r].len() {
            self@[r][c]
        } else {
            None
        }
    }

    /// The number of entries.
    pub open spec fn count(&self) -> nat {
        grid_count(self@)
    }

    /// An empty table without rows.
    pub fn new(columns: usize) -> (table: Table<V>)
        ensures
            table.wf(),
            table.width() == columns,
            table@ == Seq::<Seq<Option<V>>>::empty(),
    {
        let table = Table { columns, rows: Vec::new() };
        assert(table@ =~= Seq::<Seq<Option<V>>>::empty());
        table
    }

    /// Adds a row without entries.
    pub fn add_row(&mut self)
        requires
            old(self).wf(),
        ensures
            final(self).wf(),
            final(self).width() == old(self).width(),
            final(self)@ == old(self)@.push(Seq::new(old(self).width(), |c: int| None::<V>)),
    {
        let mut row: Vec<Option<V>> = Vec::new();
        let mut c: usize = 0;
        while c < self.columns
            invariant
                c <= self.columns,
                row.len() == c,
                forall|i: int| 0 <= i < c ==> (#[trigger] row[i]) is None,
            decreases self.columns - c,
        {
            row.push(None);
            c += 1;
        }
        self.rows.push(row);
        assert(self@ =~= old(self)@.push(Seq::new(old(self).width(), |c: int| None::<V>))) by {
            assert(row@ =~= Seq::new(old(self).width(), |c: int| None::<V>));
        }
    }

    /// Sets an entry; what stood there is replaced.
    pub fn insert(&mut self, r: usize, c: usize, value: V)
        requires
            old(self).wf(),
            r < old(self).height(),
            c < old(self).width(),
        ensures
            final(self).wf(),
            final(self).width() == old(self).width(),
            final(self)@ == old(self)@.update(
                r as int,
                old(self)@[r as int].update(c as int, Some(value)),
            ),
    {
        assert(self@[r as int] == self.rows[r as int]@);
        self.rows[r][c] = Some(value);
        assert(self@ =~= old(self)@.update(
            r as int,
            old(self)@[r as int].update(c as int, Some(value)),
        ));
    }

    /// The entry at a place, if there is one.
    pub fn get(&self, r: usize, c: usize) -> (found: Option<&V>)
        requires
            self.wf(),
        ensures
            match found {
                Some(v) => self.entry(r as int, c as int) == Some(*v),
                None => self.entry(r as int, c as int) is None,
            },
    {
        if r < self.rows.len() {
            assert(self@[r as int] == self.rows[r as int]@);
            if c < self.rows[r].len() {
                self.rows[r][c].as_ref()
            } else {
                None
            }
        } else {
            None
        }
    }

    fn row_len(row: &Vec<Option<V>>) -> (n: usize)
        ensures
            n == row_count(row@),
    {
        let mut n: usize = 0;
        let mut c: usize = 0;
        proof {
            assert(row@.take(0) =~= Seq::<Option<V>>::empty());
        }
        while c < row.len()
            invariant
                c <= row.len(),
                n <= c,
                n == row_count(row@.take(c as int)),
            decreases row.len() - c,
        {
            proof {
                let next = row@.take(c + 1);
                assert(next.drop_last() =~= row@.take(c as int));
                assert(next.last() == row@[c as int]);
            }
            if row[c].is_some() {
                n += 1;
            }
            c += 1;
        }
        assert(row@.take(c as int) =~= row@);
        n
    }

    /// The number of entries, as far as a machine number holds it.
    pub fn len(&self) -> (n: usize)
        ensures
            n == self.count() || (n == usize::MAX && self.count() > usize::MAX),
    {
        let mut n: usize = 0;
        let mut full = false;
        let mut r: usize = 0;
        proof {
            assert(self@.take(0) =~= Seq::<Seq<Option<V>>>::empty());
        }
        while r < self.rows.len()
            invariant
                r <= self.rows.len(),
                !full ==> n == grid_count(self@.take(r as int)),
                full ==> n == usize::MAX && grid_count(self@.take(r as int)) > usize::MAX,
            decreases self.rows.len() - r,
        {
            proof {
                let next = self@.take(r + 1);
                assert(next.drop_last() =~= self@.take(r as int));
                assert(next.last() == self.rows[r as int]@);
            }
            let k = Table::row_len(&self.rows[r]);
            if !full {
                if k <= usize::MAX - n {
                    n += k;
                } else {
                    n = usize::MAX;
                    full = true;
                }
            }
            r += 1;
        }
        assert(self@.take(r as int) =~= self@);
        n
    }

    /// Whether the table holds no entry.
    pub fn is_empty(&self) -> (empty: bool)
        ensures
            empty == (self.count() == 0),
            empty == forall|r: int, c: int| (#[trigger] self.entry(r, c)) is None,
    {
        proof {
            lemma_grid_count_zero(self@);
            if self.count() == 0 {
                assert forall|r: int, c: int| (#[trigger] self.entry(r, c)) is None by {
                    if 0 <= r < self@.len() && 0 <= c < self@[r].len() {
                        assert(self@[r][c] is None);
                    }
                }
            } else {
                let (r, c) = choose|r: int, c: int|
                    0 <= r < self@.len() && 0 <= c < self@[r].len()
                        && !(#[trigger] self@[r][c] is None);
                assert(!(self.entry(r, c) is None));
            }
        }
        self.len() == 0
    }

    /// The entries, row by row.
    pub fn values(&self) -> (values: Vec<V>)
        ensures
            values@ == grid_values(self@),
            values.len() == self.count(),
    {
        proof {
            lemma_grid_values_len(self@);
        }
        let mut values: Vec<V> = Vec::new();
        let mut r: usize = 0;
        proof {
            assert(self@.take(0) =~= Seq::<Seq<Option<V>>>::empty());
        }
        while r < self.rows.len()
            invariant
                r <= self.rows.len(),
                values@ == grid_values(self@.take(r as int)),
            decreases self.rows.len() - r,
        {
            let row = &self.rows[r];
            let ghost front = values@;
            let mut c: usize = 0;
            proof {
                assert(row@.take(0) =~= Seq::<Option<V>>::empty());
            }
            while c < row.len()
                invariant
                    c <= row.len(),
                    values@ == front + row_values(row@.take(c as int)),
                decreases row.len() - c,
            {
                proof {
                    let next = row@.take(c + 1);
                    assert(next.drop_last() =~= row@.take(c as int));
                    assert(next.last() == row@[c as int]);
                }
                if let Some(v) = row[c] {
                    values.push(v);
                }
                c += 1;
            }
            proof {
                assert(row@.take(c as int) =~= row@);
                let next = self@.take(r + 1);
                assert(next.drop_last() =~= self@.take(r as int));
                assert(next.last() == row@);
            }
            r += 1;
        }
        assert(self@.take(r as int) =~= self@);
        values
    }
}

} // verus!
