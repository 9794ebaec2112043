//! Sizes added up per path.
use crate::path::{components, contents, is_under, same_parts, FilePath};
use vstd::prelude::*;

verus! {

/// A path and the bytes credited to it.
pub struct RowView {
    pub path: Seq<u8>,
    pub size: nat,
}

/// The index of the last row of `path`, or -1 if there is none.
pub open spec fn row_index(rows: Seq<RowView>, path: Seq<u8>) -> int
    decreases rows.len(),
{
    if rows.len() == 0 {
        -1
    } else if components(rows.last().path) == components(path) {
        rows.len() - 1
    } else {
        row_index(rows.drop_last(), path)
    }
}

/// The rows after `amount` was credited to `path`: added to the row of that
/// path, or put in a new last row where there is none.
pub open spec fn credited(rows: Seq<RowView>, path: Seq<u8>, amount: nat) -> Seq<RowView> {
    let at = row_index(rows, path);
    if at >= 0 {
        rows.update(at, RowView { path: rows[at].path, size: rows[at].size + amount })
    } else {
        rows.push(RowView { path, size: amount })
    }
}

/// What is credited to `path`, if it has a row.
pub open spec fn credit_of(rows: Seq<RowView>, path: Seq<u8>) -> Option<nat> {
    let at = row_index(rows, path);
    if at >= 0 {
        Some(rows[at].size)
    } else {
        None
    }
}

/// The sum over all rows.
pub open spec fn row_total(rows: Seq<RowView>) -> nat
    decreases rows.len(),
{
    if rows.len() == 0 {
        0
    } else {
        row_total(rows.drop_last()) + rows.last().size
    }
}

/// Whether no path has two rows.
pub open spec fn one_row_each(rows: Seq<RowView>) -> bool {
    forall|i: int, j: int|
        0 <= i < j < rows.len() ==> components(#[trigger] rows[i].path) != components(
            #[trigger] rows[j].path,
        )
}

/// Where `row_index` points.
pub proof fn row_index_is_last_match(rows: Seq<RowView>, path: Seq<u8>)
    ensures
        -1 <= row_index(rows, path) < rows.len(),
        row_index(rows, path) >= 0 ==> components(rows[row_index(rows, path)].path) == components(
            path,
        ),
        forall|i: int|
            row_index(rows, path) < i < rows.len() ==> components(#[trigger] rows[i].path)
                != components(path),
    decreases rows.len(),
{
    if rows.len() > 0 && components(rows.last().path) != components(path) {
        let front = rows.drop_last();
        row_index_is_last_match(front, path);
        assert forall|i: int| row_index(rows, path) < i < rows.len() implies components(
            #[trigger] rows[i].path,
        ) != components(path) by {
            if i < rows.len() - 1 {
                assert(front[i] == rows[i]);
            }
        }
    }
}

/// The row that `row_index` must point to.
proof fn row_index_is(rows: Seq<RowView>, path: Seq<u8>, at: int)
    requires
        -1 <= at < rows.len(),
        at >= 0 ==> components(rows[at].path) == components(path),
        forall|i: int|
            at < i < rows.len() ==> components(#[trigger] rows[i].path) != components(path),
    ensures
        row_index(rows, path) == at,
{
    row_index_is_last_match(rows, path);
    let found = row_index(rows, path);
    if found > at {
        assert(components(rows[found].path) != components(path));
    } else if found < at {
        assert(components(rows[at].path) != components(path));
    }
}

/// A row holds what is credited to its path.
pub proof fn row_is_credit(rows: Seq<RowView>, at: int)
    requires
        one_row_each(rows),
        0 <= at < rows.len(),
    ensures
        credit_of(rows, rows[at].path) == Some(rows[at].size),
{
    row_index_is(rows, rows[at].path, at);
}

/// Crediting an amount changes the credit of that path, by that amount, and
/// of no other; and it gives no path a second row.
pub proof fn crediting_adds(rows: Seq<RowView>, path: Seq<u8>, amount: nat, other: Seq<u8>)
    requires
        one_row_each(rows),
    ensures
        one_row_each(credited(rows, path, amount)),
        components(other) == components(path) ==> credit_of(
            credited(rows, path, amount),
            other,
        ) == Some(
            match credit_of(rows, path) {
                Some(size) => size + amount,
                None => amount,
            },
        ),
        components(other) != components(path) ==> credit_of(
            credited(rows, path, amount),
            other,
        ) == credit_of(rows, other),
{
    row_index_is_last_match(rows, path);
    row_index_is_last_match(rows, other);
    let at = row_index(rows, path);
    let new = credited(rows, path, amount);
    assert forall|i: int| 0 <= i < rows.len() implies components(#[trigger] new[i].path)
        == components(rows[i].path) by {}
    assert forall|i: int, j: int| 0 <= i < j < new.len() implies components(
        #[trigger] new[i].path,
    ) != components(#[trigger] new[j].path) by {
        assert(components(rows[i].path) == components(new[i].path));
        if j < rows.len() {
            assert(components(rows[i].path) != components(rows[j].path));
        }
    }
    if components(other) == components(path) {
        let here = if at >= 0 {
            at
        } else {
            rows.len() as int
        };
        row_index_is(rows, other, at);
        row_index_is(new, other, here);
    } else {
        let found = row_index(rows, other);
        assert forall|i: int| found < i < new.len() implies components(#[trigger] new[i].path)
            != components(other) by {
            if i < rows.len() {
                assert(components(rows[i].path) != components(other));
            }
        }
        row_index_is(new, other, found);
    }
}

/// Crediting an amount raises the sum by that amount.
pub proof fn crediting_raises_total(rows: Seq<RowView>, path: Seq<u8>, amount: nat)
    ensures
        row_total(credited(rows, path, amount)) == row_total(rows) + amount,
{
    row_index_is_last_match(rows, path);
    let at = row_index(rows, path);
    if at >= 0 {
        updating_raises_total(rows, at, amount);
    } else {
        let row = RowView { path, size: amount };
        assert(rows.push(row).drop_last() =~= rows);
    }
}

/// Raising one row raises the sum.
proof fn updating_raises_total(rows: Seq<RowView>, at: int, amount: nat)
    requires
        0 <= at < rows.len(),
    ensures
        row_total(
            rows.update(at, RowView { path: rows[at].path, size: rows[at].size + amount }),
        ) == row_total(rows) + amount,
    decreases rows.len(),
{
    let new = rows.update(at, RowView { path: rows[at].path, size: rows[at].size + amount });
    let front = rows.drop_last();
    if at == rows.len() - 1 {
        assert(new.drop_last() =~= front);
    } else {
        updating_raises_total(front, at, amount);
        assert(new.drop_last() =~= front.update(
            at,
            RowView { path: rows[at].path, size: rows[at].size + amount },
        ));
    }
}

/// The sum over the rows of `base` and of all paths under it.
pub open spec fn total_under(rows: Seq<RowView>, base: Seq<u8>) -> nat
    decreases rows.len(),
{
    if rows.len() == 0 {
        0
    } else if is_under(rows.last().path, base) {
        total_under(rows.drop_last(), base) + rows.last().size
    } else {
        total_under(rows.drop_last(), base)
    }
}

/// Crediting an amount raises the sum under `base` exactly if the path is
/// there.
pub proof fn crediting_raises_total_under(
    rows: Seq<RowView>,
    path: Seq<u8>,
    amount: nat,
    base: Seq<u8>,
)
    ensures
        total_under(credited(rows, path, amount), base) == total_under(rows, base) + if is_under(
            path,
            base,
        ) {
            amount
        } else {
            0
        },
{
    row_index_is_last_match(rows, path);
    let at = row_index(rows, path);
    if at >= 0 {
        updating_raises_total_under(rows, at, amount, base);
    } else {
        let row = RowView { path, size: amount };
        assert(rows.push(row).drop_last() =~= rows);
    }
}

/// Raising one row raises the sum under `base` exactly if its path is there.
proof fn updating_raises_total_under(rows: Seq<RowView>, at: int, amount: nat, base: Seq<u8>)
    requires
        0 <= at < rows.len(),
    ensures
        total_under(
            rows.update(at, RowView { path: rows[at].path, size: rows[at].size + amount }),
            base,
        ) == total_under(rows, base) + if is_under(rows[at].path, base) {
            amount
        } else {
            0
        },
    decreases rows.len(),
{
    let new = rows.update(at, RowView { path: rows[at].path, size: rows[at].size + amount });
    let front = rows.drop_last();
    if at == rows.len() - 1 {
        assert(new.drop_last() =~= front);
    } else {
        updating_raises_total_under(front, at, amount, base);
        assert(new.drop_last() =~= front.update(
            at,
            RowView { path: rows[at].path, size: rows[at].size + amount },
        ));
    }
}

/// No row holds more than the sum.
pub proof fn row_within_total(rows: Seq<RowView>, at: int)
    requires
        0 <= at < rows.len(),
    ensures
        rows[at].size <= row_total(rows),
    decreases rows.len(),
{
    if at < rows.len() - 1 {
        row_within_total(rows.drop_last(), at);
    }
}

/// One row: the path, its components, and what is credited to it.
#[derive(Debug)]
struct Row {
    path: FilePath,
    parts: Vec<Vec<u8>>,
    size: u64,
}

/// Sizes added up per path, in the order in which the paths first came.
#[derive(Debug)]
pub struct SizeTable {
    rows: Vec<Row>,
}

impl View for SizeTable {
    type V = Seq<RowView>;

    closed spec fn view(&self) -> Seq<RowView> {
        Seq::new(
            self.rows@.len(),
            |i: int| RowView { path: self.rows@[i].path@, size: self.rows@[i].size as nat },
        )
    }
}

impl SizeTable {
    /// Whether every row holds the components of its own path.
    pub closed spec fn wf(&self) -> bool {
        forall|i: int|
            0 <= i < self.rows@.len() ==> contents((#[trigger] self.rows@[i]).parts@)
                == components(self.rows@[i].path@)
    }

    /// A table without rows.
    pub fn new() -> (out: SizeTable)
        ensures
            out.wf(),
            out@ == Seq::<RowView>::empty(),
    {
        let out = SizeTable { rows: Vec::new() };
        assert(out@ =~= Seq::<RowView>::empty());
        out
    }

    /// The number of rows.
    pub fn len(&self) -> (n: usize)
        ensures
            n == self@.len(),
    {
        self.rows.len()
    }

    /// The path of a row.
    pub fn path(&self, at: usize) -> (out: &FilePath)
        requires
            at < self@.len(),
        ensures
            out@ == self@[at as int].path,
    {
        &self.rows[at].path
    }

    /// The size of a row.
    pub fn size(&self, at: usize) -> (out: u64)
        requires
            at < self@.len(),
        ensures
            out == self@[at as int].size,
    {
        self.rows[at].size
    }

    /// Credits `amount` to `path`.
    pub fn credit(&mut self, path: FilePath, amount: u64)
        requires
            old(self).wf(),
            row_total(old(self)@) + amount <= u64::MAX,
        ensures
            final(self).wf(),
            final(self)@ == credited(old(self)@, path@, amount as nat),
    {
        let parts = path.parts();
        let ghost rows = self@;
        let mut i: usize = self.rows.len();
        assert(rows.take(i as int) =~= rows);
        while i > 0
            invariant
                i <= self.rows.len(),
                *self == *old(self),
                self.wf(),
                rows == self@,
                contents(parts@) == components(path@),
                row_total(rows) + amount <= u64::MAX,
                row_index(rows, path@) == row_index(rows.take(i as int), path@),
            decreases i,
        {
            proof {
                assert(rows.take(i as int).drop_last() =~= rows.take(i - 1));
                assert(rows.take(i as int).last() == rows[i - 1]);
                assert(contents(self.rows@[i - 1].parts@) == components(rows[i - 1].path));
            }
            i -= 1;
            if same_parts(&self.rows[i].parts, &parts) {
                proof {
                    row_within_total(rows, i as int);
                }
                let size = self.rows[i].size;
                self.rows[i].size = size + amount;
                assert(self@ =~= credited(rows, path@, amount as nat));
                return;
            }
        }
        self.rows.push(Row { path, parts, size: amount });
        assert(self@ =~= credited(rows, path@, amount as nat));
    }
}

/// Crediting an amount raises the one row of that path by the amount, or, where
/// the path has none, puts a row with the path and the amount at the end; every
/// other row stays as it is.
pub proof fn crediting_changes_one_row(rows: Seq<RowView>, path: Seq<u8>, amount: nat) -> (at: int)
    requires
        one_row_each(rows),
    ensures
        ({
            let new = credited(rows, path, amount);
            &&& 0 <= at < new.len()
            &&& new.len() == if at < rows.len() {
                rows.len()
            } else {
                rows.len() + 1
            }
            &&& forall|i: int|
                0 <= i < rows.len() && i != at ==> #[trigger] new[i] == rows[i] && components(
                    rows[i].path,
                ) != components(path)
            &&& at < rows.len() ==> new[at].path == rows[at].path && components(rows[at].path)
                == components(path) && new[at].size == rows[at].size + amount
            &&& at >= rows.len() ==> new[at].path == path && new[at].size == amount
        }),
{
    row_index_is_last_match(rows, path);
    let at = row_index(rows, path);
    if at >= 0 {
        assert forall|i: int| 0 <= i < rows.len() && i != at implies components(
            #[trigger] rows[i].path,
        ) != components(path) by {
            if i < at {
                assert(components(rows[i].path) != components(rows[at].path));
            }
        }
        at
    } else {
        rows.len() as int
    }
}

/// What is credited to a path is what its row holds, if it has one.
pub proof fn credit_is_in_the_row(rows: Seq<RowView>, path: Seq<u8>)
    ensures
        credit_of(rows, path) matches Some(size) ==> exists|i: int|
            0 <= i < rows.len() && components((#[trigger] rows[i]).path) == components(path)
                && rows[i].size == size,
        credit_of(rows, path) is None ==> forall|i: int|
            0 <= i < rows.len() ==> components((#[trigger] rows[i]).path) != components(path),
{
    row_index_is_last_match(rows, path);
    if credit_of(rows, path) is Some {
        let at = row_index(rows, path);
        assert(components(rows[at].path) == components(path));
    } else {
        assert forall|i: int| 0 <= i < rows.len() implies components((#[trigger] rows[i]).path)
            != components(path) by {
            assert(components(rows[i].path) != components(path));
        }
    }
}

/// A row adds its size to the sum, and to the sum under a path exactly if it is
/// there.
pub proof fn sums_take_in_every_row(rows: Seq<RowView>, row: RowView, base: Seq<u8>)
    ensures
        row_total(Seq::empty()) == 0,
        row_total(rows.push(row)) == row_total(rows) + row.size,
        total_under(Seq::empty(), base) == 0,
        total_under(rows.push(row), base) == total_under(rows, base) + if is_under(
            row.path,
            base,
        ) {
            row.size
        } else {
            0
        },
{
    assert(rows.push(row).drop_last() =~= rows);
}

} // verus!
