//! Operators that apply a row stream to a stored table.

use vstd::prelude::*;
use crate::common::Error;
use crate::sql::engine::{
    holds,
    identities_view,
    in_identity_order,
    inserts,
    plain_views,
    rewritten,
    staged_for,
    stored_views,
    without,
    Stored,
    Transaction,
};
use crate::sql::planner::{
    collected,
    lemma_collected_map,
    map_outcome,
    try_collect,
    Expression,
};
use crate::sql::execution::transform::{pair_view, pair_views};
use crate::storage::page::{lemma_rank_injective, RecordId};
use crate::storage::tuple::{item_view, item_views, Item, Row, Rows};
use crate::types::field::FieldView;
use crate::types::schema::Table;

verus! {

/// The identities of rows with their identities, one for one.
pub open spec fn identities(rows: Stored) -> Seq<RecordId> {
    Seq::new(rows.len(), |i: int| rows[i].0)
}

/// The rows of rows with their identities, one for one.
pub open spec fn contents(rows: Stored) -> Seq<Seq<FieldView>> {
    Seq::new(rows.len(), |i: int| rows[i].1)
}

fn drain(source: Rows) -> (r: Result<Vec<(RecordId, Row)>, Error>)
    ensures
        match r {
            Ok(rows) => collected(source@) == Ok::<Stored, Error>(pair_views(rows@)),
            Err(e) => collected(source@) == Err::<Stored, Error>(e),
        },
{
    let ghost items = source.items@;
    proof {
        let f = |p: (RecordId, Row)| pair_view(p);
        lemma_collected_map(items, f);
        assert(source@ =~= Seq::new(items.len(), |i: int| map_outcome(items[i], f)));
        if collected(items) is Ok {
            let rows = collected(items)->Ok_0;
            assert(Seq::new(rows.len(), |i: int| f(rows[i])) =~= pair_views(rows));
        }
    }
    try_collect(source.items)
}

/// The result of a statement that counts: the failure of the store where
/// the store answered with one, handed on as it is, and else the count.
pub open spec fn counted(answer: Result<(), Error>, count: u64) -> Result<u64, Error> {
    match answer {
        Err(e) => Err(e),
        Ok(_) => Ok(count),
    }
}

/// Makes the result of a statement that counts from the answer of the
/// store and the count.
pub fn count_outcome(answer: Result<(), Error>, count: u64) -> (r: Result<u64, Error>)
    ensures
        r == counted(answer, count),
{
    match answer {
        Err(e) => Err(e),
        Ok(_) => Ok(count),
    }
}

/// Deletes from the table the rows whose identities the stream carries,
/// in one batch, and gives the number of rows that the stream carried.
/// A failure in the stream is returned before the store is touched; a
/// failure with which the store answers is handed on as it is.
pub fn delete<T: Transaction>(txn: &mut T, table: String, source: Rows) -> (r: Result<u64, Error>)
    requires
        old(txn).valid(),
    ensures
        final(txn).valid(),
        match collected(source@) {
            Err(e) => r == Err::<u64, Error>(e) && *final(txn) == *old(txn),
            Ok(rows) => rows.len() <= u64::MAX && r == counted(
                old(txn).delete_answer(table@, identities(rows)),
                rows.len() as u64,
            ) && match r {
                Err(_) => true,
                Ok(count) => count == rows.len() && old(txn).read(table@) is Ok && final(txn).read(
                    table@,
                ) == Ok::<Stored, Error>(without(old(txn).read(table@)->Ok_0, identities(rows)))
                    && forall|other: Seq<char>|
                    other != table@ ==> final(txn).read(other) == old(txn).read(other),
            },
        },
{
    let rows = match drain(source) {
        Err(e) => {
            return Err(e);
        },
        Ok(rows) => rows,
    };
    let mut record_ids: Vec<RecordId> = Vec::new();
    let mut record_num: u64 = 0;
    let mut i: usize = 0;
    while i < rows.len()
        invariant
            i <= rows@.len(),
            record_num == i,
            record_ids@ == identities(pair_views(rows@)).take(i as int),
        decreases rows@.len() - i,
    {
        record_ids.push(rows[i].0);
        record_num = record_num + 1;
        i += 1;
        assert(record_ids@ =~= identities(pair_views(rows@)).take(i as int));
    }
    assert(identities(pair_views(rows@)).take(i as int) =~= identities(pair_views(rows@)));
    let answer = txn.delete(table.as_str(), &record_ids);
    count_outcome(answer, record_num)
}

/// Inserts the rows of the stream into the table, whatever identity they
/// carry, and gives the identities that the store assigned, in the order
/// of the rows. A failure in the stream is returned before the store is
/// touched; a failure with which the store answers is handed on as it is.
pub fn insert<T: Transaction>(txn: &mut T, table: Table, source: Rows) -> (r: Result<
    Vec<RecordId>,
    Error,
>)
    requires
        old(txn).valid(),
    ensures
        final(txn).valid(),
        match collected(source@) {
            Err(e) => r == Err::<Vec<RecordId>, Error>(e) && *final(txn) == *old(txn),
            Ok(rows) => identities_view(r) == old(txn).insert_answer(table@.name, contents(rows))
                && match r {
                Err(_) => true,
                Ok(ids) => old(txn).read(table@.name) is Ok && final(txn).read(table@.name) is Ok
                    && inserts(
                    old(txn).read(table@.name)->Ok_0,
                    contents(rows),
                    ids@,
                    final(txn).read(table@.name)->Ok_0,
                ) && forall|other: Seq<char>|
                    other != table@.name ==> final(txn).read(other) == old(txn).read(other),
            },
        },
{
    let rows = match drain(source) {
        Err(e) => {
            return Err(e);
        },
        Ok(rows) => rows,
    };
    let ghost carried = pair_views(rows@);
    let mut vec_rows: Vec<Row> = Vec::new();
    for pair in it: rows
        invariant
            it.seq() == rows@,
            carried == pair_views(rows@),
            plain_views(vec_rows@) == contents(carried).take(it.index() as int),
    {
        assert(carried[it.index() as int] == pair_view(pair));
        let (_, row) = pair;
        assert(plain_views(vec_rows@.push(row)) =~= plain_views(vec_rows@).push(row@));
        assert(contents(carried).take(it.index() as int).push(row@) =~= contents(carried).take(
            it.index() + 1,
        ));
        vec_rows.push(row);
    }
    assert(contents(carried).take(carried.len() as int) =~= contents(carried));
    txn.insert(table.name(), vec_rows)
}

/// The row after the first `n` assignments were applied one after the
/// other: each expression is evaluated on the row as the assignments
/// before it left it, and its value replaces the value at its position.
/// A position outside the row is a failure.
pub open spec fn revised(row: Seq<FieldView>, assignments: Seq<(usize, Expression)>, n: int) -> Result<
    Seq<FieldView>,
    Error,
>
    decreases n,
{
    if n <= 0 {
        Ok(row)
    } else {
        match revised(row, assignments, n - 1) {
            Err(e) => Err(e),
            Ok(current) => match assignments[n - 1].1.eval(Some(current)) {
                Err(e) => Err(e),
                Ok(value) => if assignments[n - 1].0 < current.len() {
                    Ok(current.update(assignments[n - 1].0 as int, value))
                } else {
                    Err(Error::ColumnOutOfRange)
                },
            },
        }
    }
}

/// The row after all assignments were applied one after the other.
pub open spec fn revise(row: Seq<FieldView>, assignments: Seq<(usize, Expression)>) -> Result<
    Seq<FieldView>,
    Error,
> {
    revised(row, assignments, assignments.len() as int)
}

/// The number of rows of the batch whose identity comes before the given one.
pub open spec fn below(batch: Stored, id: RecordId) -> int
    decreases batch.len(),
{
    if batch.len() == 0 {
        0
    } else {
        below(batch.drop_last(), id) + if batch.last().0.rank() < id.rank() {
            1int
        } else {
            0int
        }
    }
}

/// The batch after a row was staged under an identity: the row replaces
/// the one staged before under that identity, or else takes its place in
/// identity order.
pub open spec fn stage(batch: Stored, id: RecordId, row: Seq<FieldView>) -> Stored {
    let at = below(batch, id);
    if at < batch.len() && batch[at].0 == id {
        batch.update(at, (id, row))
    } else {
        batch.insert(at, (id, row))
    }
}

/// The batch that the stream stages, items taken in order: each row is
/// revised by the assignments and staged under its identity. The first
/// failure, of the stream or of an assignment, is the failure of the whole.
pub open spec fn staged(source: Seq<Item>, assignments: Seq<(usize, Expression)>) -> Result<
    Stored,
    Error,
>
    decreases source.len(),
{
    if source.len() == 0 {
        Ok(Seq::empty())
    } else {
        match staged(source.drop_last(), assignments) {
            Err(e) => Err(e),
            Ok(batch) => match source.last() {
                Err(e) => Err(e),
                Ok((id, row)) => match revise(row, assignments) {
                    Err(e) => Err(e),
                    Ok(revision) => Ok(stage(batch, id, revision)),
                },
            },
        }
    }
}

/// In a batch in identity order, the rows whose identity comes before a
/// given one are exactly the first ones.
pub proof fn lemma_below_splits(batch: Stored, id: RecordId)
    requires
        in_identity_order(batch),
    ensures
        0 <= below(batch, id) <= batch.len(),
        forall|k: int| 0 <= k < below(batch, id) ==> (#[trigger] batch[k]).0.rank() < id.rank(),
        forall|k: int|
            below(batch, id) <= k < batch.len() ==> (#[trigger] batch[k]).0.rank() >= id.rank(),
    decreases batch.len(),
{
    if batch.len() > 0 {
        let shorter = batch.drop_last();
        assert forall|i: int, j: int| 0 <= i < j < shorter.len() implies (#[trigger] shorter[i]).0.rank()
            < (#[trigger] shorter[j]).0.rank() by {
            assert(shorter[i] == batch[i]);
            assert(shorter[j] == batch[j]);
        }
        lemma_below_splits(shorter, id);
        assert(batch.last() == batch[batch.len() - 1]);
        assert forall|k: int| 0 <= k < shorter.len() implies #[trigger] shorter[k] == batch[k] by {}
        if batch.last().0.rank() < id.rank() {
            if below(shorter, id) < shorter.len() {
                let k = below(shorter, id);
                assert(shorter[k].0.rank() >= id.rank());
                assert(batch[k].0.rank() < batch[batch.len() - 1].0.rank());
            }
        }
        assert forall|k: int| 0 <= k < below(batch, id) implies (#[trigger] batch[k]).0.rank()
            < id.rank() by {
            if k < shorter.len() {
                assert(shorter[k] == batch[k]);
            }
        }
        assert forall|k: int| below(batch, id) <= k < batch.len() implies (#[trigger] batch[k]).0.rank()
            >= id.rank() by {
            if k < shorter.len() {
                assert(shorter[k] == batch[k]);
            }
        }
    }
}

/// Staging keeps a batch in identity order, and adds a row exactly when
/// the identity was not staged before.
pub proof fn lemma_stage_ordered(batch: Stored, id: RecordId, row: Seq<FieldView>)
    requires
        in_identity_order(batch),
    ensures
        in_identity_order(stage(batch, id, row)),
        stage(batch, id, row).len() == batch.len() + if holds(batch, id) {
            0int
        } else {
            1int
        },
{
    lemma_below_splits(batch, id);
    let at = below(batch, id);
    let next = stage(batch, id, row);
    if at < batch.len() && batch[at].0 == id {
        assert forall|i: int, j: int| 0 <= i < j < next.len() implies (#[trigger] next[i]).0.rank()
            < (#[trigger] next[j]).0.rank() by {
            assert(next[i].0 == batch[i].0);
            assert(next[j].0 == batch[j].0);
        }
    } else {
        if holds(batch, id) {
            let k = choose|k: int| 0 <= k < batch.len() && (#[trigger] batch[k]).0 == id;
            if k < at {
                assert(batch[k].0.rank() < id.rank());
            } else if k > at {
                assert(batch[at].0.rank() < batch[k].0.rank());
                assert(batch[at].0.rank() >= id.rank());
            }
        }
        assert forall|i: int, j: int| 0 <= i < j < next.len() implies (#[trigger] next[i]).0.rank()
            < (#[trigger] next[j]).0.rank() by {
            if j == at {
                assert(next[i] == batch[i]);
            } else if i == at {
                assert(next[j] == batch[j - 1]);
                if j - 1 == at {
                    if batch[at].0.rank() == id.rank() {
                        lemma_rank_injective(batch[at].0, id);
                    }
                } else {
                    assert(batch[at].0.rank() < batch[j - 1].0.rank());
                }
            } else {
                let a = if i < at {
                    i
                } else {
                    i - 1
                };
                let b = if j < at {
                    j
                } else {
                    j - 1
                };
                assert(next[i] == batch[a]);
                assert(next[j] == batch[b]);
            }
        }
    }
}

/// In a batch in identity order, the row staged for an identity is the
/// row of the one entry under it.
pub proof fn lemma_staged_for_entry(batch: Stored, k: int)
    requires
        in_identity_order(batch),
        0 <= k < batch.len(),
    ensures
        staged_for(batch, batch[k].0) == Some(batch[k].1),
    decreases batch.len(),
{
    if k < batch.len() - 1 {
        let shorter = batch.drop_last();
        assert forall|i: int, j: int| 0 <= i < j < shorter.len() implies (#[trigger] shorter[i]).0.rank()
            < (#[trigger] shorter[j]).0.rank() by {
            assert(shorter[i] == batch[i]);
            assert(shorter[j] == batch[j]);
        }
        assert(shorter[k] == batch[k]);
        assert(batch[k].0.rank() < batch[batch.len() - 1].0.rank());
        lemma_staged_for_entry(shorter, k);
    }
}

/// Nothing is staged for an identity that the batch does not hold.
pub proof fn lemma_staged_for_absent(batch: Stored, id: RecordId)
    requires
        !holds(batch, id),
    ensures
        staged_for(batch, id) is None,
    decreases batch.len(),
{
    if batch.len() > 0 {
        let shorter = batch.drop_last();
        assert(batch.last() == batch[batch.len() - 1]);
        if holds(shorter, id) {
            let k = choose|k: int| 0 <= k < shorter.len() && (#[trigger] shorter[k]).0 == id;
            assert(shorter[k] == batch[k]);
        }
        lemma_staged_for_absent(shorter, id);
    }
}

/// The last write wins. After a row is staged under an identity, the
/// batch holds that row for the identity, whatever it held before, and
/// holds for every other identity what it held before.
pub proof fn lemma_last_write_wins(
    batch: Stored,
    id: RecordId,
    row: Seq<FieldView>,
    other: RecordId,
)
    requires
        in_identity_order(batch),
    ensures
        staged_for(stage(batch, id, row), id) == Some(row),
        other != id ==> staged_for(stage(batch, id, row), other) == staged_for(batch, other),
{
    lemma_below_splits(batch, id);
    lemma_stage_ordered(batch, id, row);
    let at = below(batch, id);
    let next = stage(batch, id, row);
    assert(next[at] == (id, row));
    lemma_staged_for_entry(next, at);
    if other != id {
        if holds(batch, other) {
            let k = choose|k: int| 0 <= k < batch.len() && (#[trigger] batch[k]).0 == other;
            lemma_staged_for_entry(batch, k);
            let replaced = at < batch.len() && batch[at].0 == id;
            let j = if replaced || k < at {
                k
            } else {
                k + 1
            };
            assert(next[j] == batch[k]);
            lemma_staged_for_entry(next, j);
        } else {
            lemma_staged_for_absent(batch, other);
            if holds(next, other) {
                let j = choose|j: int| 0 <= j < next.len() && (#[trigger] next[j]).0 == other;
                let replaced = at < batch.len() && batch[at].0 == id;
                if replaced {
                    assert(next[j].0 == batch[j].0);
                } else if j < at {
                    assert(next[j] == batch[j]);
                } else {
                    assert(next[j] == batch[j - 1]);
                }
            }
            lemma_staged_for_absent(next, other);
        }
    }
}

/// What the stream stages is in identity order.
pub proof fn lemma_staged_ordered(source: Seq<Item>, assignments: Seq<(usize, Expression)>)
    requires
        staged(source, assignments) is Ok,
    ensures
        in_identity_order(staged(source, assignments)->Ok_0),
    decreases source.len(),
{
    if source.len() > 0 {
        lemma_staged_ordered(source.drop_last(), assignments);
        let batch = staged(source.drop_last(), assignments)->Ok_0;
        let (id, row) = source.last()->Ok_0;
        lemma_stage_ordered(batch, id, revise(row, assignments)->Ok_0);
    }
}

/// Once a prefix of the stream fails to stage, the whole stream fails so.
pub proof fn lemma_staged_failure(
    source: Seq<Item>,
    assignments: Seq<(usize, Expression)>,
    n: int,
    m: int,
)
    requires
        0 <= n <= m <= source.len(),
        staged(source.take(n), assignments) is Err,
    ensures
        staged(source.take(m), assignments) == staged(source.take(n), assignments),
    decreases m - n,
{
    if n < m {
        lemma_staged_failure(source, assignments, n, m - 1);
        assert(source.take(m).drop_last() =~= source.take(m - 1));
    }
}

/// A failure among the first assignments is the failure of all of them.
pub proof fn lemma_revised_failure(
    row: Seq<FieldView>,
    assignments: Seq<(usize, Expression)>,
    n: int,
    m: int,
)
    requires
        0 <= n <= m,
        revised(row, assignments, n) is Err,
    ensures
        revised(row, assignments, m) == revised(row, assignments, n),
    decreases m - n,
{
    if n < m {
        lemma_revised_failure(row, assignments, n, m - 1);
    }
}

fn revise_row(row: Row, assignments: &Vec<(usize, Expression)>) -> (r: Result<Row, Error>)
    ensures
        match r {
            Ok(revision) => revise(row@, assignments@) == Ok::<Seq<FieldView>, Error>(revision@),
            Err(e) => revise(row@, assignments@) == Err::<Seq<FieldView>, Error>(e),
        },
{
    let mut current = row;
    let mut i: usize = 0;
    while i < assignments.len()
        invariant
            i <= assignments@.len(),
            revised(row@, assignments@, i as int) == Ok::<Seq<FieldView>, Error>(current@),
        decreases assignments@.len() - i,
    {
        let new_value = match assignments[i].1.evaluate(Some(&current)) {
            Err(e) => {
                proof {
                    lemma_revised_failure(row@, assignments@, i + 1, assignments@.len() as int);
                }
                return Err(e);
            },
            Ok(value) => value,
        };
        match current.update_field(assignments[i].0, new_value) {
            Err(e) => {
                proof {
                    lemma_revised_failure(row@, assignments@, i + 1, assignments@.len() as int);
                }
                return Err(e);
            },
            Ok(_) => {},
        }
        i += 1;
    }
    Ok(current)
}

fn stage_row(batch: &mut Vec<(RecordId, Row)>, id: RecordId, row: Row)
    requires
        in_identity_order(stored_views(old(batch)@)),
    ensures
        stored_views(final(batch)@) == stage(stored_views(old(batch)@), id, row@),
        in_identity_order(stored_views(final(batch)@)),
{
    let ghost before = stored_views(batch@);
    let mut at: usize = 0;
    while at < batch.len() && batch[at].0.precedes(&id)
        invariant
            at <= batch@.len(),
            before == stored_views(batch@),
            forall|k: int| 0 <= k < at ==> (#[trigger] before[k]).0.rank() < id.rank(),
        decreases batch@.len() - at,
    {
        assert(before[at as int].0 == batch@[at as int].0);
        at += 1;
    }
    proof {
        lemma_below_splits(before, id);
        if at < batch@.len() {
            assert(before[at as int].0 == batch@[at as int].0);
            assert(before[at as int].0.rank() >= id.rank());
        }
        if below(before, id) < at {
            assert(before[below(before, id)].0.rank() < id.rank());
        }
        if below(before, id) > at {
            assert(before[at as int].0.rank() < id.rank());
        }
        assert(below(before, id) == at);
        lemma_stage_ordered(before, id, row@);
    }
    if at < batch.len() && batch[at].0 == id {
        batch[at] = (id, row);
        assert(stored_views(batch@) =~= before.update(at as int, (id, row@)));
    } else {
        batch.insert(at, (id, row));
        assert(stored_views(batch@) =~= before.insert(at as int, (id, row@)));
    }
}

/// Updates the rows that the stream carries. Each row is revised by the
/// assignments, one after the other, and staged under its identity, a
/// later row replacing an earlier one under the same identity; the batch
/// is then handed to the store in one update. Gives the number of
/// identities updated. A failure of the stream or of an assignment is
/// returned before the store is touched; a failure with which the store
/// answers is handed on as it is.
pub fn update<T: Transaction>(
    txn: &mut T,
    table: String,
    source: Rows,
    expressions: Vec<(usize, Expression)>,
) -> (r: Result<u64, Error>)
    requires
        old(txn).valid(),
    ensures
        final(txn).valid(),
        match staged(source@, expressions@) {
            Err(e) => r == Err::<u64, Error>(e) && *final(txn) == *old(txn),
            Ok(batch) => batch.len() <= u64::MAX && r == counted(
                old(txn).update_answer(table@, batch),
                batch.len() as u64,
            ) && match r {
                Err(_) => true,
                Ok(count) => count == batch.len() && old(txn).read(table@) is Ok && final(txn).read(
                    table@,
                ) == Ok::<Stored, Error>(rewritten(old(txn).read(table@)->Ok_0, batch))
                    && (forall|i: int|
                    0 <= i < batch.len() ==> holds(
                        old(txn).read(table@)->Ok_0,
                        (#[trigger] batch[i]).0,
                    )) && forall|other: Seq<char>|
                    other != table@ ==> final(txn).read(other) == old(txn).read(other),
            },
        },
{
    let ghost all = source@;
    let mut updates: Vec<(RecordId, Row)> = Vec::new();
    assert(all.take(0) =~= Seq::<Item>::empty());
    assert(stored_views(updates@) =~= Seq::<(RecordId, Seq<FieldView>)>::empty());
    for item in it: source.items
        invariant
            it.seq() == source.items@,
            all == item_views(source.items@),
            *txn == *old(txn),
            txn.valid(),
            in_identity_order(stored_views(updates@)),
            staged(all.take(it.index() as int), expressions@) == Ok::<Stored, Error>(
                stored_views(updates@),
            ),
    {
        let ghost at = it.index() as int;
        proof {
            assert(all.take(at + 1).drop_last() =~= all.take(at));
            assert(all.take(at + 1).last() == item_view(item));
        }
        let revision = match item {
            Err(e) => Err(e),
            Ok((record_id, row)) => match revise_row(row, &expressions) {
                Err(e) => Err(e),
                Ok(row) => Ok((record_id, row)),
            },
        };
        match revision {
            Err(e) => {
                proof {
                    assert(staged(all.take(at + 1), expressions@) == Err::<Stored, Error>(e));
                    lemma_staged_failure(all, expressions@, at + 1, all.len() as int);
                    assert(all.take(all.len() as int) =~= all);
                }
                return Err(e);
            },
            Ok((record_id, row)) => {
                stage_row(&mut updates, record_id, row);
            },
        }
    }
    assert(all.take(all.len() as int) =~= all);
    let count = updates.len() as u64;
    let answer = txn.update(table.as_str(), updates);
    proof {
        if answer is Ok {
            assert forall|i: int| 0 <= i < updates@.len() implies holds(
                old(txn).read(table@)->Ok_0,
                (#[trigger] stored_views(updates@)[i]).0,
            ) by {
                assert(holds(old(txn).read(table@)->Ok_0, updates@[i].0));
            }
        }
    }
    count_outcome(answer, count)
}

} // verus!
