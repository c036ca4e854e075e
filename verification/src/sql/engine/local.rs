//! A store held in memory: a single-transaction engine without
//! concurrency, against which plans can be executed.

use vstd::prelude::*;
use crate::common::Error;
use crate::sql::engine::{
    holds,
    in_identity_order,
    inserts,
    plain_views,
    rewritten,
    scan_outcome,
    stored_views,
    without,
    Catalog,
    Stored,
};
use crate::sql::engine::Transaction as _;
use crate::sql::execution::execute::{execute_plan, plan_outcome, result_view, ExecutionResult};
use crate::sql::execution::transform::{filter, stream_view};
use crate::sql::execution::write::{lemma_staged_for_absent, lemma_staged_for_entry};
use crate::sql::planner::{Expression, Plan};
use crate::storage::page::RecordId;
use crate::storage::tuple::{Row, RowResult, Rows};
use crate::types::field::FieldView;
use crate::types::schema::{Table, TableView};

verus! {

/// The rank of the invalid identity; every assigned identity ranks below it.
pub open spec fn rank_limit() -> int {
    0xffff_ffff_ffff
}

/// One stored table: its schema, its rows in identity order, and the rank
/// of the next identity to assign, which is above the ranks of all rows.
pub struct StoredTable {
    schema: Table,
    rows: Vec<(RecordId, Row)>,
    next: u64,
}

/// The local non-concurrent storage engine: the stored tables.
pub struct Memory {
    tables: Vec<StoredTable>,
}

/// A SQL engine using local storage. This is a single-transaction, basic
/// execution engine without concurrency support.
pub struct Local {
    /// The local non-concurrent storage engine.
    pub simple: Memory,
}

/// A SQL transaction on the local engine.
pub struct Transaction {
    txn: Memory,
}

spec fn table_valid(t: StoredTable) -> bool {
    &&& in_identity_order(stored_views(t.rows@))
    &&& forall|k: int| 0 <= k < t.rows@.len() ==> (#[trigger] t.rows@[k]).0.rank() < t.next
    &&& t.next <= rank_limit()
}

spec fn tables_valid(tables: Seq<StoredTable>) -> bool {
    &&& forall|i: int| 0 <= i < tables.len() ==> table_valid(#[trigger] tables[i])
    &&& forall|i: int, j: int|
        0 <= i < j < tables.len() ==> (#[trigger] tables[i]).schema@.name != (
        #[trigger] tables[j]).schema@.name
}

/// The position of the first table with the name, if any.
spec fn position(tables: Seq<StoredTable>, name: Seq<char>) -> Option<int>
    decreases tables.len(),
{
    if tables.len() == 0 {
        None
    } else {
        match position(tables.drop_last(), name) {
            Some(i) => Some(i),
            None => if tables.last().schema@.name == name {
                Some(tables.len() - 1)
            } else {
                None
            },
        }
    }
}

proof fn lemma_position(tables: Seq<StoredTable>, name: Seq<char>)
    ensures
        match position(tables, name) {
            Some(i) => 0 <= i < tables.len() && tables[i].schema@.name == name && forall|k: int|
                0 <= k < i ==> (#[trigger] tables[k]).schema@.name != name,
            None => forall|k: int| 0 <= k < tables.len() ==> (#[trigger] tables[k]).schema@.name != name,
        },
    decreases tables.len(),
{
    if tables.len() > 0 {
        lemma_position(tables.drop_last(), name);
        assert forall|k: int| 0 <= k < tables.len() - 1 implies tables.drop_last()[k] == tables[k] by {}
        match position(tables.drop_last(), name) {
            Some(i) => {
                assert(tables.drop_last()[i] == tables[i]);
                assert forall|k: int| 0 <= k < i implies (#[trigger] tables[k]).schema@.name != name by {
                    assert(tables.drop_last()[k] == tables[k]);
                }
            },
            None => {
                assert forall|k: int| 0 <= k < tables.len() - 1 implies (#[trigger] tables[k]).schema@.name
                    != name by {
                    assert(tables.drop_last()[k] == tables[k]);
                }
            },
        }
    }
}

proof fn lemma_position_of(tables: Seq<StoredTable>, name: Seq<char>, i: int)
    requires
        0 <= i < tables.len(),
        tables[i].schema@.name == name,
        forall|k: int| 0 <= k < i ==> (#[trigger] tables[k]).schema@.name != name,
    ensures
        position(tables, name) == Some(i),
{
    lemma_position(tables, name);
}

proof fn lemma_position_absent(tables: Seq<StoredTable>, name: Seq<char>)
    requires
        forall|k: int| 0 <= k < tables.len() ==> (#[trigger] tables[k]).schema@.name != name,
    ensures
        position(tables, name) is None,
{
    lemma_position(tables, name);
}

/// Tables with the same names in the same places are found the same.
proof fn lemma_position_same_names(a: Seq<StoredTable>, b: Seq<StoredTable>, name: Seq<char>)
    requires
        a.len() == b.len(),
        forall|k: int| 0 <= k < a.len() ==> (#[trigger] a[k]).schema@.name == b[k].schema@.name,
    ensures
        position(a, name) == position(b, name),
{
    lemma_position(a, name);
    lemma_position(b, name);
    match position(a, name) {
        Some(i) => {
            assert(b[i].schema@.name == a[i].schema@.name);
            assert forall|k: int| 0 <= k < i implies (#[trigger] b[k]).schema@.name != name by {
                assert(a[k].schema@.name == b[k].schema@.name);
            }
            lemma_position_of(b, name, i);
        },
        None => {
            assert forall|k: int| 0 <= k < b.len() implies (#[trigger] b[k]).schema@.name != name by {
                assert(a[k].schema@.name == b[k].schema@.name);
            }
            lemma_position_absent(b, name);
        },
    }
}

/// The rows kept by a deletion are the rows whose identity is not among
/// the deleted ones.
pub proof fn lemma_without_members(rows: Stored, ids: Seq<RecordId>)
    ensures
        forall|p: (RecordId, Seq<FieldView>)|
            #![trigger without(rows, ids).contains(p)]
            #![trigger rows.contains(p)]
            without(rows, ids).contains(p) <==> rows.contains(p) && !ids.contains(p.0),
    decreases rows.len(),
{
    if rows.len() > 0 {
        let shorter = rows.drop_last();
        lemma_without_members(shorter, ids);
        assert forall|p: (RecordId, Seq<FieldView>)|
            #![trigger without(rows, ids).contains(p)]
            #![trigger rows.contains(p)]
            without(rows, ids).contains(p) <==> rows.contains(p) && !ids.contains(p.0) by {
            if without(rows, ids).contains(p) {
                let k = choose|k: int| 0 <= k < without(rows, ids).len() && without(rows, ids)[k] == p;
                if ids.contains(rows.last().0) || k < without(shorter, ids).len() {
                    assert(without(shorter, ids)[k] == p);
                    assert(without(shorter, ids).contains(p));
                    let j = choose|j: int| 0 <= j < shorter.len() && shorter[j] == p;
                    assert(rows[j] == p);
                } else {
                    assert(rows[rows.len() - 1] == p);
                }
            }
            if rows.contains(p) && !ids.contains(p.0) {
                let j = choose|j: int| 0 <= j < rows.len() && rows[j] == p;
                if j < rows.len() - 1 {
                    assert(shorter[j] == p);
                    assert(shorter.contains(p));
                    let k = choose|k: int|
                        0 <= k < without(shorter, ids).len() && without(shorter, ids)[k] == p;
                    assert(without(rows, ids)[k] == p);
                } else {
                    assert(without(rows, ids)[without(shorter, ids).len() as int] == p);
                }
            }
        }
    }
}

/// A deletion keeps the rows in identity order.
pub proof fn lemma_without_ordered(rows: Stored, ids: Seq<RecordId>)
    requires
        in_identity_order(rows),
    ensures
        in_identity_order(without(rows, ids)),
    decreases rows.len(),
{
    if rows.len() > 0 {
        let shorter = rows.drop_last();
        assert forall|i: int, j: int| 0 <= i < j < shorter.len() implies (#[trigger] shorter[i]).0.rank()
            < (#[trigger] shorter[j]).0.rank() by {
            assert(shorter[i] == rows[i]);
            assert(shorter[j] == rows[j]);
        }
        lemma_without_ordered(shorter, ids);
        lemma_without_members(shorter, ids);
        let kept = without(shorter, ids);
        let next = without(rows, ids);
        if !ids.contains(rows.last().0) {
            assert forall|i: int, j: int| 0 <= i < j < next.len() implies (#[trigger] next[i]).0.rank()
                < (#[trigger] next[j]).0.rank() by {
                assert(next[i] == kept[i]);
                if j < kept.len() {
                    assert(next[j] == kept[j]);
                } else {
                    assert(kept.contains(kept[i]));
                    let k = choose|k: int| 0 <= k < shorter.len() && shorter[k] == kept[i];
                    assert(rows[k] == kept[i]);
                    assert(rows[k].0.rank() < rows[rows.len() - 1].0.rank());
                }
            }
        }
    }
}

/// A deletion removes exactly the rows under the given identities, and
/// deleting the same identities again changes nothing.
pub proof fn lemma_delete_is_idempotent(rows: Stored, ids: Seq<RecordId>)
    ensures
        forall|id: RecordId| holds(without(rows, ids), id) <==> holds(rows, id) && !ids.contains(id),
        without(without(rows, ids), ids) == without(rows, ids),
    decreases rows.len(),
{
    lemma_without_members(rows, ids);
    assert forall|id: RecordId| holds(without(rows, ids), id) <==> holds(rows, id) && !ids.contains(
        id,
    ) by {
        if holds(without(rows, ids), id) {
            let k = choose|k: int|
                0 <= k < without(rows, ids).len() && (#[trigger] without(rows, ids)[k]).0 == id;
            let p = without(rows, ids)[k];
            assert(without(rows, ids).contains(p));
            let j = choose|j: int| 0 <= j < rows.len() && rows[j] == p;
            assert(rows[j].0 == id);
        }
        if holds(rows, id) && !ids.contains(id) {
            let j = choose|j: int| 0 <= j < rows.len() && (#[trigger] rows[j]).0 == id;
            assert(rows.contains(rows[j]));
            let k = choose|k: int|
                0 <= k < without(rows, ids).len() && without(rows, ids)[k] == rows[j];
            assert(without(rows, ids)[k].0 == id);
        }
    }
    lemma_without_kept(without(rows, ids), ids);
}

/// Deleting identities that no row has changes nothing.
pub proof fn lemma_without_kept(rows: Stored, ids: Seq<RecordId>)
    requires
        forall|k: int| 0 <= k < rows.len() ==> !ids.contains((#[trigger] rows[k]).0),
    ensures
        without(rows, ids) == rows,
    decreases rows.len(),
{
    if rows.len() > 0 {
        let shorter = rows.drop_last();
        assert forall|k: int| 0 <= k < shorter.len() implies !ids.contains((#[trigger] shorter[k]).0) by {
            assert(shorter[k] == rows[k]);
        }
        lemma_without_kept(shorter, ids);
        assert(rows.last() == rows[rows.len() - 1]);
        assert(shorter.push(rows.last()) =~= rows);
    } else {
        assert(without(rows, ids) =~= rows);
    }
}

fn clone_pair(pair: &(RecordId, Row)) -> (r: (RecordId, Row))
    ensures
        r.0 == pair.0,
        r.1@ == pair.1@,
{
    (pair.0, pair.1.clone())
}

fn contains_id(ids: &Vec<RecordId>, id: RecordId) -> (r: bool)
    ensures
        r == ids@.contains(id),
{
    let mut k: usize = 0;
    while k < ids.len()
        invariant
            k <= ids@.len(),
            forall|j: int| 0 <= j < k ==> ids@[j] != id,
        decreases ids@.len() - k,
    {
        if ids[k] == id {
            return true;
        }
        k += 1;
    }
    false
}

fn find_row(rows: &Vec<(RecordId, Row)>, id: RecordId) -> (r: Option<usize>)
    ensures
        match r {
            Some(k) => k < rows@.len() && rows@[k as int].0 == id,
            None => !holds(stored_views(rows@), id),
        },
        r is Some <==> holds(stored_views(rows@), id),
{
    let mut k: usize = 0;
    while k < rows.len()
        invariant
            k <= rows@.len(),
            forall|j: int| 0 <= j < k ==> (#[trigger] rows@[j]).0 != id,
        decreases rows@.len() - k,
    {
        if rows[k].0 == id {
            assert(stored_views(rows@)[k as int].0 == id);
            return Some(k);
        }
        k += 1;
    }
    assert forall|j: int| 0 <= j < stored_views(rows@).len() implies (
    #[trigger] stored_views(rows@)[j]).0 != id by {
        assert(rows@[j].0 != id);
    }
    None
}

/// The identity of a rank: the page is the rank divided by the number of
/// slots of a page, the slot is the remainder.
pub open spec fn identity_at(rank: int) -> RecordId {
    RecordId { page_id: (rank / 0x1_0000) as u32, slot_id: (rank % 0x1_0000) as u16 }
}

/// The identities assigned to `count` rows from the rank `next` on.
pub open spec fn assigned(next: int, count: nat) -> Seq<RecordId> {
    Seq::new(count, |k: int| identity_at(next + k))
}

/// What the store answers to an insertion of `count` rows into a table
/// that reads `read` and would assign the rank `next` next: the failure
/// that no table has the name; or, as a failure of the store, that the
/// table has no identities left for all the rows; or the identities from
/// that rank on.
pub open spec fn insertion(read: Result<Stored, Error>, next: int, count: nat) -> Result<
    Seq<RecordId>,
    Error,
> {
    match read {
        Err(_) => Err(Error::TableNotFound),
        Ok(_) => if next + count > rank_limit() {
            Err(Error::Storage)
        } else {
            Ok(assigned(next, count))
        },
    }
}

/// What the store answers to a deletion from a table that reads `read`:
/// success, or the failure that no table has the name.
pub open spec fn deletion(read: Result<Stored, Error>) -> Result<(), Error> {
    match read {
        Err(_) => Err(Error::TableNotFound),
        Ok(_) => Ok(()),
    }
}

/// What the store answers to an update of a table that reads `read` by
/// the batch: the failure that no table has the name; or, as a failure of
/// the store, that the batch holds an identity that is not stored; or
/// success.
pub open spec fn rewriting(read: Result<Stored, Error>, batch: Stored) -> Result<(), Error> {
    match read {
        Err(_) => Err(Error::TableNotFound),
        Ok(rows) => if forall|i: int| 0 <= i < batch.len() ==> holds(rows, (#[trigger] batch[i]).0) {
            Ok(())
        } else {
            Err(Error::Storage)
        },
    }
}

fn identity_of(rank: u64) -> (id: RecordId)
    requires
        rank < rank_limit(),
    ensures
        id == identity_at(rank as int),
        id.rank() == rank,
        id != RecordId::spec_invalid(),
{
    let page: u64 = rank / 0x1_0000;
    let slot: u64 = rank % 0x1_0000;
    RecordId::new(page as u32, slot as u16)
}

impl Memory {
    /// Whether the tables have different names and each has its rows in
    /// identity order below the rank of the next identity to assign.
    pub closed spec fn valid(self) -> bool {
        tables_valid(self.tables@)
    }

    /// The schema stored under the name, if any.
    pub closed spec fn schema(self, table: Seq<char>) -> Option<TableView> {
        match position(self.tables@, table) {
            Some(i) => Some(self.tables@[i].schema@),
            None => None,
        }
    }

    /// The rows stored under the name, or the failure that no table has it.
    pub closed spec fn read(self, table: Seq<char>) -> Result<Stored, Error> {
        match position(self.tables@, table) {
            Some(i) => Ok(stored_views(self.tables@[i].rows@)),
            None => Err(Error::TableNotFound),
        }
    }

    /// The rank of the identity that the table of the name assigns next.
    pub closed spec fn next_rank(self, table: Seq<char>) -> int {
        match position(self.tables@, table) {
            Some(i) => self.tables@[i].next as int,
            None => 0,
        }
    }

    /// A store without tables.
    pub fn new() -> (m: Memory)
        ensures
            m.valid(),
            forall|table: Seq<char>| m.schema(table) is None,
    {
        Memory { tables: Vec::new() }
    }

    /// In a valid store the rows of every table are in identity order, and
    /// a schema is stored exactly under the names that can be read.
    pub proof fn lemma_valid(self, table: Seq<char>)
        requires
            self.valid(),
        ensures
            self.read(table) is Ok <==> self.schema(table) is Some,
            self.read(table) is Ok ==> in_identity_order(self.read(table)->Ok_0),
            self.read(table) is Err ==> self.read(table) == Err::<Stored, Error>(
                Error::TableNotFound,
            ),
            self.schema(table) is Some ==> self.schema(table)->Some_0.name == table,
    {
        lemma_position(self.tables@, table);
    }

    fn locate(&self, name: &str) -> (r: Option<usize>)
        ensures
            match r {
                Some(i) => position(self.tables@, name@) == Some(i as int) && i < self.tables@.len(),
                None => position(self.tables@, name@) is None,
            },
    {
        let mut i: usize = 0;
        while i < self.tables.len()
            invariant
                i <= self.tables@.len(),
                forall|k: int| 0 <= k < i ==> (#[trigger] self.tables@[k]).schema@.name != name@,
            decreases self.tables@.len() - i,
        {
            if self.tables[i].schema.name().to_owned() == name.to_owned() {
                proof {
                    lemma_position_of(self.tables@, name@, i as int);
                }
                return Some(i);
            }
            i += 1;
        }
        proof {
            lemma_position_absent(self.tables@, name@);
        }
        None
    }

    /// Stores the schema under its name with no rows, unless a table of
    /// that name exists.
    pub fn create_table(&mut self, table: Table) -> (r: Result<(), Error>)
        requires
            old(self).valid(),
        ensures
            final(self).valid(),
            match r {
                Ok(_) => old(self).schema(table@.name) is None && final(self).schema(table@.name)
                    == Some(table@) && final(self).read(table@.name) == Ok::<Stored, Error>(
                    Seq::empty(),
                ),
                Err(e) => e == Error::TableExists && old(self).schema(table@.name) is Some
                    && *final(self) == *old(self),
            },
            r == (if old(self).schema(table@.name) is Some {
                Err::<(), Error>(Error::TableExists)
            } else {
                Ok::<(), Error>(())
            }),
            forall|other: Seq<char>|
                other != table@.name ==> final(self).schema(other) == old(self).schema(other)
                    && final(self).read(other) == old(self).read(other),
    {
        match self.locate(table.name()) {
            Some(_) => Err(Error::TableExists),
            None => {
                let ghost before = self.tables@;
                let stored = StoredTable { schema: table, rows: Vec::new(), next: 0 };
                self.tables.push(stored);
                proof {
                    assert(self.tables@.drop_last() =~= before);
                    lemma_position(before, table@.name);
                    assert(stored_views(stored.rows@) =~= Seq::<(RecordId, Seq<FieldView>)>::empty());
                    assert forall|i: int, j: int| 0 <= i < j < self.tables@.len() implies (
                    #[trigger] self.tables@[i]).schema@.name != (
                    #[trigger] self.tables@[j]).schema@.name by {
                        assert(self.tables@[i] == before[i]);
                        if j < before.len() {
                            assert(self.tables@[j] == before[j]);
                        }
                    }
                    assert forall|i: int| 0 <= i < self.tables@.len() implies table_valid(
                        #[trigger] self.tables@[i],
                    ) by {
                        if i < before.len() {
                            assert(self.tables@[i] == before[i]);
                        }
                    }
                    assert forall|other: Seq<char>| other != table@.name implies final(self).schema(other)
                        == old(self).schema(other) && final(self).read(other) == old(self).read(
                        other,
                    ) by {
                        lemma_position(before, other);
                        if position(before, other) is Some {
                            assert(self.tables@[position(before, other)->Some_0] == before[position(
                                before,
                                other,
                            )->Some_0]);
                        }
                    }
                }
                Ok(())
            },
        }
    }

    /// Removes the table of the name with its rows. Where none exists,
    /// that is a failure unless `if_exists` is set.
    pub fn drop_table(&mut self, table_name: &str, if_exists: bool) -> (r: Result<bool, Error>)
        requires
            old(self).valid(),
        ensures
            final(self).valid(),
            match r {
                Ok(existed) => existed == (old(self).schema(table_name@) is Some) && (existed
                    || if_exists) && final(self).schema(table_name@) is None,
                Err(e) => e == Error::TableNotFound && old(self).schema(table_name@) is None
                    && !if_exists && *final(self) == *old(self),
            },
            forall|other: Seq<char>|
                other != table_name@ ==> final(self).schema(other) == old(self).schema(other)
                    && final(self).read(other) == old(self).read(other),
    {
        match self.locate(table_name) {
            None => {
                if if_exists {
                    Ok(false)
                } else {
                    Err(Error::TableNotFound)
                }
            },
            Some(i) => {
                let ghost before = self.tables@;
                let _ = self.tables.remove(i);
                proof {
                    let after = self.tables@;
                    assert forall|k: int| 0 <= k < after.len() implies #[trigger] after[k] == (if k
                        < i {
                        before[k]
                    } else {
                        before[k + 1]
                    }) by {}
                    lemma_position(before, table_name@);
                    assert forall|k: int| 0 <= k < after.len() implies (#[trigger] after[k]).schema@.name
                        != table_name@ by {
                        if k >= i {
                            assert(before[i as int].schema@.name != before[k + 1].schema@.name);
                        }
                    }
                    lemma_position_absent(after, table_name@);
                    assert forall|a: int, b: int| 0 <= a < b < after.len() implies (
                    #[trigger] after[a]).schema@.name != (#[trigger] after[b]).schema@.name by {
                        let x = if a < i {
                            a
                        } else {
                            a + 1
                        };
                        let y = if b < i {
                            b
                        } else {
                            b + 1
                        };
                        assert(before[x].schema@.name != before[y].schema@.name);
                    }
                    assert forall|k: int| 0 <= k < after.len() implies table_valid(
                        #[trigger] after[k],
                    ) by {
                        if k < i {
                            assert(table_valid(before[k]));
                        } else {
                            assert(table_valid(before[k + 1]));
                        }
                    }
                    assert forall|other: Seq<char>| other != table_name@ implies final(self).schema(
                        other,
                    ) == old(self).schema(other) && final(self).read(other) == old(self).read(
                        other,
                    ) by {
                        lemma_position(before, other);
                        match position(before, other) {
                            Some(j) => {
                                let k = if j < i {
                                    j
                                } else {
                                    j - 1
                                };
                                assert(after[k] == before[j]);
                                assert forall|m: int| 0 <= m < k implies (
                                #[trigger] after[m]).schema@.name != other by {
                                    if m < i {
                                        assert(after[m] == before[m]);
                                    } else {
                                        assert(after[m] == before[m + 1]);
                                    }
                                }
                                lemma_position_of(after, other, k);
                            },
                            None => {
                                assert forall|m: int| 0 <= m < after.len() implies (
                                #[trigger] after[m]).schema@.name != other by {
                                    if m < i {
                                        assert(after[m] == before[m]);
                                    } else {
                                        assert(after[m] == before[m + 1]);
                                    }
                                }
                                lemma_position_absent(after, other);
                            },
                        }
                    }
                }
                Ok(true)
            },
        }
    }

    /// The schema stored under the name, if any.
    pub fn get_table(&self, table_name: &str) -> (r: Result<Option<Table>, Error>)
        ensures
            r is Ok,
            crate::sql::engine::optional_table_view(r->Ok_0) == self.schema(table_name@),
    {
        match self.locate(table_name) {
            None => Ok(None),
            Some(i) => Ok(Some(self.tables[i].schema.clone())),
        }
    }

    /// Deletes the rows under the identities from the table; an identity
    /// that is not stored is passed over. Fails only where no table has
    /// the name.
    pub fn delete(&mut self, table_name: &str, ids: &Vec<RecordId>) -> (r: Result<(), Error>)
        requires
            old(self).valid(),
        ensures
            final(self).valid(),
            match r {
                Ok(_) => old(self).read(table_name@) is Ok && final(self).read(table_name@) == Ok::<
                    Stored,
                    Error,
                >(without(old(self).read(table_name@)->Ok_0, ids@)),
                Err(e) => e == Error::TableNotFound && old(self).read(table_name@) is Err
                    && *final(self) == *old(self),
            },
            r == deletion(old(self).read(table_name@)),
            forall|other: Seq<char>|
                other != table_name@ ==> final(self).read(other) == old(self).read(other),
            forall|other: Seq<char>| final(self).schema(other) == old(self).schema(other),
            forall|other: Seq<char>| final(self).next_rank(other) == old(self).next_rank(other),
    {
        let i = match self.locate(table_name) {
            None => {
                return Err(Error::TableNotFound);
            },
            Some(i) => i,
        };
        let ghost before = self.tables@;
        let ghost rows = stored_views(before[i as int].rows@);
        let mut kept: Vec<(RecordId, Row)> = Vec::new();
        let mut k: usize = 0;
        assert(rows.take(0) =~= Seq::<(RecordId, Seq<FieldView>)>::empty());
        assert(stored_views(kept@) =~= Seq::<(RecordId, Seq<FieldView>)>::empty());
        while k < self.tables[i].rows.len()
            invariant
                i < self.tables@.len(),
                self.tables@ == before,
                rows == stored_views(before[i as int].rows@),
                k <= rows.len(),
                stored_views(kept@) == without(rows.take(k as int), ids@),
            decreases rows.len() - k,
        {
            proof {
                assert(rows.take(k + 1).drop_last() =~= rows.take(k as int));
                assert(rows.take(k + 1).last() == rows[k as int]);
            }
            if !contains_id(ids, self.tables[i].rows[k].0) {
                let pair = clone_pair(&self.tables[i].rows[k]);
                assert(stored_views(kept@.push(pair)) =~= stored_views(kept@).push(rows[k as int]));
                kept.push(pair);
            }
            k += 1;
        }
        proof {
            assert(rows.take(k as int) =~= rows);
            lemma_without_ordered(rows, ids@);
            lemma_without_members(rows, ids@);
            assert forall|m: int| 0 <= m < kept@.len() implies (#[trigger] kept@[m]).0.rank()
                < before[i as int].next by {
                let p = stored_views(kept@)[m];
                assert(without(rows, ids@).contains(p));
                let j = choose|j: int| 0 <= j < rows.len() && rows[j] == p;
                assert(before[i as int].rows@[j].0 == p.0);
            }
        }
        self.tables[i].rows = kept;
        proof {
            Memory::lemma_table_replaced(before, self.tables@, i as int);
            lemma_position(before, table_name@);
            assert forall|other: Seq<char>| other != table_name@ implies final(self).read(other)
                == old(self).read(other) by {
                lemma_position(before, other);
                if position(before, other) is Some {
                    let j = position(before, other)->Some_0;
                    assert(j != i);
                    assert(self.tables@[j] == before[j]);
                }
            }
            assert forall|other: Seq<char>| final(self).schema(other) == old(self).schema(other) by {
                lemma_position(before, other);
            }
            assert forall|other: Seq<char>| final(self).next_rank(other) == old(self).next_rank(
                other,
            ) by {
                lemma_position(before, other);
                if position(before, other) is Some {
                    let j = position(before, other)->Some_0;
                    if j != i {
                        assert(self.tables@[j] == before[j]);
                    }
                }
            }
        }
        Ok(())
    }

    /// When one table is replaced by a valid table of the same schema, the
    /// tables stay valid and are found where they were.
    proof fn lemma_table_replaced(before: Seq<StoredTable>, after: Seq<StoredTable>, i: int)
        requires
            tables_valid(before),
            0 <= i < before.len(),
            after.len() == before.len(),
            forall|k: int| 0 <= k < before.len() && k != i ==> #[trigger] after[k] == before[k],
            after[i].schema == before[i].schema,
            table_valid(after[i]),
        ensures
            tables_valid(after),
            forall|name: Seq<char>| position(after, name) == position(before, name),
    {
        assert forall|k: int| 0 <= k < after.len() implies (#[trigger] after[k]).schema@.name
            == before[k].schema@.name by {}
        assert forall|a: int, b: int| 0 <= a < b < after.len() implies (
        #[trigger] after[a]).schema@.name != (#[trigger] after[b]).schema@.name by {
            assert(before[a].schema@.name != before[b].schema@.name);
        }
        assert forall|k: int| 0 <= k < after.len() implies table_valid(#[trigger] after[k]) by {
            if k != i {
                assert(table_valid(before[k]));
            }
        }
        assert forall|name: Seq<char>| position(after, name) == position(before, name) by {
            lemma_position_same_names(after, before, name);
        }
    }

    /// Inserts the rows into the table under fresh identities, assigned in
    /// increasing order, and gives those identities in the order of the
    /// rows. Fails where no table has the name, and where the table has
    /// no identities left for all the rows.
    pub fn insert(&mut self, table_name: &str, rows: Vec<Row>) -> (r: Result<Vec<RecordId>, Error>)
        requires
            old(self).valid(),
        ensures
            final(self).valid(),
            match r {
                Ok(ids) => old(self).read(table_name@) is Ok && final(self).read(table_name@) is Ok
                    && inserts(
                    old(self).read(table_name@)->Ok_0,
                    plain_views(rows@),
                    ids@,
                    final(self).read(table_name@)->Ok_0,
                ) && final(self).read(table_name@)->Ok_0 == old(self).read(table_name@)->Ok_0
                    + Seq::new(rows@.len(), |k: int| (ids@[k], rows@[k]@)),
                Err(e) => *final(self) == *old(self) && (e == Error::TableNotFound || e
                    == Error::Storage) && (e == Error::TableNotFound <==> old(self).read(
                    table_name@,
                ) is Err),
            },
            crate::sql::engine::identities_view(r) == insertion(
                old(self).read(table_name@),
                old(self).next_rank(table_name@),
                rows@.len(),
            ),
            r is Ok ==> final(self).next_rank(table_name@) == old(self).next_rank(table_name@)
                + rows@.len(),
            forall|other: Seq<char>|
                other != table_name@ ==> final(self).read(other) == old(self).read(other)
                    && final(self).next_rank(other) == old(self).next_rank(other),
            forall|other: Seq<char>| final(self).schema(other) == old(self).schema(other),
    {
        let i = match self.locate(table_name) {
            None => {
                return Err(Error::TableNotFound);
            },
            Some(i) => i,
        };
        let ghost before = self.tables@;
        let ghost stored = stored_views(before[i as int].rows@);
        let ghost given = plain_views(rows@);
        let first = self.tables[i].next;
        let count = rows.len();
        assert(self.next_rank(table_name@) == first);
        if count as u64 > 0xffff_ffff_ffff - first {
            return Err(Error::Storage);
        }
        let mut ids: Vec<RecordId> = Vec::new();
        let mut added: Vec<(RecordId, Row)> = Vec::new();
        let mut rank: u64 = first;
        for row in it: rows
            invariant
                it.seq() == rows@,
                given == plain_views(rows@),
                rank == first + it.index(),
                first + rows@.len() <= rank_limit(),
                ids@.len() == it.index(),
                added@.len() == it.index(),
                forall|k: int| 0 <= k < it.index() ==> (#[trigger] ids@[k]).rank() == first + k,
                forall|k: int| 0 <= k < it.index() ==> #[trigger] ids@[k] == identity_at(first + k),
                forall|k: int|
                    0 <= k < it.index() ==> (#[trigger] ids@[k]) != RecordId::spec_invalid(),
                forall|k: int|
                    0 <= k < it.index() ==> (#[trigger] added@[k]).0 == ids@[k] && added@[k].1@
                        == given[k],
        {
            let id = identity_of(rank);
            ids.push(id);
            added.push((id, row));
            rank = rank + 1;
        }
        let ghost fresh = stored_views(added@);
        self.tables[i].rows.append(&mut added);
        self.tables[i].next = rank;
        proof {
            let after = stored_views(self.tables@[i as int].rows@);
            assert(after =~= stored + fresh);
            assert(fresh =~= Seq::new(rows@.len(), |k: int| (ids@[k], rows@[k]@)));
            assert forall|a: int, b: int| 0 <= a < b < after.len() implies (#[trigger] after[a]).0.rank()
                < (#[trigger] after[b]).0.rank() by {
                if b < stored.len() {
                    assert(after[a] == stored[a] && after[b] == stored[b]);
                } else if a < stored.len() {
                    assert(after[a] == stored[a]);
                    assert(before[i as int].rows@[a].0.rank() < first);
                    assert(after[b].0 == ids@[b - stored.len()]);
                } else {
                    assert(after[a].0 == ids@[a - stored.len()]);
                    assert(after[b].0 == ids@[b - stored.len()]);
                }
            }
            assert forall|m: int| 0 <= m < self.tables@[i as int].rows@.len() implies (
            #[trigger] self.tables@[i as int].rows@[m]).0.rank() < rank by {
                assert(after[m].0 == self.tables@[i as int].rows@[m].0);
                if m < stored.len() {
                    assert(after[m] == stored[m]);
                    assert(before[i as int].rows@[m].0.rank() < first);
                } else {
                    assert(after[m].0 == ids@[m - stored.len()]);
                }
            }
            assert(ids@.no_duplicates()) by {
                assert forall|a: int, b: int| 0 <= a < ids@.len() && 0 <= b < ids@.len() && a
                    != b implies ids@[a] != ids@[b] by {
                    assert(ids@[a].rank() != ids@[b].rank());
                }
            }
            assert forall|k: int| 0 <= k < ids@.len() implies !holds(stored, #[trigger] ids@[k]) by {
                if holds(stored, ids@[k]) {
                    let m = choose|m: int| 0 <= m < stored.len() && (#[trigger] stored[m]).0 == ids@[k];
                    assert(before[i as int].rows@[m].0.rank() < first);
                }
            }
            assert forall|p: (RecordId, Seq<FieldView>)|
                after.contains(p) <==> stored.contains(p) || exists|k: int|
                    0 <= k < ids@.len() && p == (#[trigger] ids@[k], given[k]) by {
                if after.contains(p) {
                    let m = choose|m: int| 0 <= m < after.len() && after[m] == p;
                    if m < stored.len() {
                        assert(stored[m] == p);
                    } else {
                        assert(p == (ids@[m - stored.len()], given[m - stored.len()]));
                    }
                }
                if stored.contains(p) {
                    let m = choose|m: int| 0 <= m < stored.len() && stored[m] == p;
                    assert(after[m] == p);
                }
                if exists|k: int| 0 <= k < ids@.len() && p == (#[trigger] ids@[k], given[k]) {
                    let k = choose|k: int| 0 <= k < ids@.len() && p == (#[trigger] ids@[k], given[k]);
                    assert(after[stored.len() + k] == p);
                }
            }
            Memory::lemma_table_replaced(before, self.tables@, i as int);
            lemma_position(before, table_name@);
            assert forall|other: Seq<char>| other != table_name@ implies final(self).read(other)
                == old(self).read(other) by {
                lemma_position(before, other);
                if position(before, other) is Some {
                    let j = position(before, other)->Some_0;
                    assert(j != i);
                    assert(self.tables@[j] == before[j]);
                }
            }
            assert forall|other: Seq<char>| final(self).schema(other) == old(self).schema(other) by {
                lemma_position(before, other);
            }
            assert forall|other: Seq<char>| other != table_name@ implies final(self).next_rank(other)
                == old(self).next_rank(other) by {
                lemma_position(before, other);
                if position(before, other) is Some {
                    let j = position(before, other)->Some_0;
                    assert(j != i);
                    assert(self.tables@[j] == before[j]);
                }
            }
            assert(ids@ =~= assigned(first as int, rows@.len()));
        }
        Ok(ids)
    }

    /// Scans the table in identity order, with the filter applied where
    /// one is given. Fails only where no table has the name.
    pub fn scan(&self, table_name: &str, filter_by: Option<Expression>) -> (r: Result<Rows, Error>)
        ensures
            stream_view(r) == scan_outcome(self.read(table_name@), filter_by),
    {
        let i = match self.locate(table_name) {
            None => {
                return Err(Error::TableNotFound);
            },
            Some(i) => i,
        };
        let ghost rows = stored_views(self.tables@[i as int].rows@);
        let mut items: Vec<RowResult> = Vec::new();
        let mut k: usize = 0;
        while k < self.tables[i].rows.len()
            invariant
                i < self.tables@.len(),
                rows == stored_views(self.tables@[i as int].rows@),
                k <= rows.len(),
                items@.len() == k,
                forall|m: int|
                    0 <= m < k ==> crate::storage::tuple::item_view(#[trigger] items@[m]) == Ok::<
                        (RecordId, Seq<FieldView>),
                        Error,
                    >(rows[m]),
            decreases rows.len() - k,
        {
            let pair = clone_pair(&self.tables[i].rows[k]);
            assert(rows[k as int] == (pair.0, pair.1@));
            items.push(Ok(pair));
            k += 1;
        }
        let all = Rows::new(items);
        assert(all@ =~= Seq::new(
            rows.len(),
            |m: int| Ok::<(RecordId, Seq<FieldView>), Error>(rows[m]),
        ));
        match filter_by {
            None => Ok(all),
            Some(predicate) => Ok(filter(all, predicate)),
        }
    }

    /// Replaces the rows under the identities of the batch by the rows of
    /// the batch. Fails where no table has the name, and, as a failure
    /// of the store, where the batch holds an identity that is not stored;
    /// the table is then as before.
    pub fn update(&mut self, table_name: &str, rows: Vec<(RecordId, Row)>) -> (r: Result<(), Error>)
        requires
            old(self).valid(),
            in_identity_order(stored_views(rows@)),
        ensures
            final(self).valid(),
            match r {
                Ok(_) => old(self).read(table_name@) is Ok && final(self).read(table_name@) == Ok::<
                    Stored,
                    Error,
                >(rewritten(old(self).read(table_name@)->Ok_0, stored_views(rows@)))
                    && forall|k: int|
                    0 <= k < rows@.len() ==> holds(
                        old(self).read(table_name@)->Ok_0,
                        (#[trigger] rows@[k]).0,
                    ),
                Err(e) => *final(self) == *old(self) && (e == Error::TableNotFound || e
                    == Error::Storage) && (e == Error::TableNotFound <==> old(self).read(
                    table_name@,
                ) is Err) && (e == Error::Storage ==> exists|k: int|
                    0 <= k < rows@.len() && !holds(
                        old(self).read(table_name@)->Ok_0,
                        (#[trigger] rows@[k]).0,
                    )),
            },
            r == rewriting(old(self).read(table_name@), stored_views(rows@)),
            forall|other: Seq<char>|
                other != table_name@ ==> final(self).read(other) == old(self).read(other),
            forall|other: Seq<char>| final(self).schema(other) == old(self).schema(other),
            forall|other: Seq<char>| final(self).next_rank(other) == old(self).next_rank(other),
    {
        let i = match self.locate(table_name) {
            None => {
                return Err(Error::TableNotFound);
            },
            Some(i) => i,
        };
        let ghost before = self.tables@;
        let ghost stored = stored_views(before[i as int].rows@);
        let ghost batch = stored_views(rows@);
        let mut k: usize = 0;
        while k < rows.len()
            invariant
                i < self.tables@.len(),
                *self == *old(self),
                self.valid(),
                position(self.tables@, table_name@) == Some(i as int),
                self.tables@ == before,
                stored == stored_views(before[i as int].rows@),
                k <= rows@.len(),
                forall|m: int| 0 <= m < k ==> holds(stored, (#[trigger] rows@[m]).0),
            decreases rows@.len() - k,
        {
            match find_row(&self.tables[i].rows, rows[k].0) {
                None => {
                    assert(!holds(old(self).read(table_name@)->Ok_0, rows@[k as int].0));
                    assert(stored_views(rows@)[k as int].0 == rows@[k as int].0);
                    return Err(Error::Storage);
                },
                Some(_) => {},
            }
            k += 1;
        }
        proof {
            assert forall|m: int| 0 <= m < batch.len() implies holds(stored, (#[trigger] batch[m]).0) by {
                assert(batch[m].0 == rows@[m].0);
            }
            assert(rewriting(old(self).read(table_name@), batch) == Ok::<(), Error>(()));
        }
        let mut revised: Vec<(RecordId, Row)> = Vec::new();
        let mut n: usize = 0;
        while n < self.tables[i].rows.len()
            invariant
                i < self.tables@.len(),
                self.tables@ == before,
                stored == stored_views(before[i as int].rows@),
                batch == stored_views(rows@),
                in_identity_order(batch),
                n <= stored.len(),
                revised@.len() == n,
                forall|m: int|
                    0 <= m < n ==> (#[trigger] revised@[m]).0 == stored[m].0 && revised@[m].1@
                        == rewritten(stored, batch)[m].1,
            decreases stored.len() - n,
        {
            let id = self.tables[i].rows[n].0;
            assert(stored[n as int].0 == id);
            let pair = match find_row(&rows, id) {
                Some(j) => {
                    proof {
                        assert(batch[j as int] == (rows@[j as int].0, rows@[j as int].1@));
                        lemma_staged_for_entry(batch, j as int);
                    }
                    (id, rows[j].1.clone())
                },
                None => {
                    proof {
                        lemma_staged_for_absent(batch, id);
                    }
                    clone_pair(&self.tables[i].rows[n])
                },
            };
            revised.push(pair);
            n += 1;
        }
        proof {
            assert(stored_views(revised@) =~= rewritten(stored, batch));
            let after = stored_views(revised@);
            assert forall|a: int, b: int| 0 <= a < b < after.len() implies (#[trigger] after[a]).0.rank()
                < (#[trigger] after[b]).0.rank() by {
                assert(after[a].0 == stored[a].0);
                assert(after[b].0 == stored[b].0);
            }
            assert forall|m: int| 0 <= m < revised@.len() implies (#[trigger] revised@[m]).0.rank()
                < before[i as int].next by {
                assert(revised@[m].0 == stored[m].0);
                assert(before[i as int].rows@[m].0 == stored[m].0);
            }
        }
        self.tables[i].rows = revised;
        proof {
            Memory::lemma_table_replaced(before, self.tables@, i as int);
            lemma_position(before, table_name@);
            assert forall|other: Seq<char>| other != table_name@ implies final(self).read(other)
                == old(self).read(other) by {
                lemma_position(before, other);
                if position(before, other) is Some {
                    let j = position(before, other)->Some_0;
                    assert(j != i);
                    assert(self.tables@[j] == before[j]);
                }
            }
            assert forall|other: Seq<char>| final(self).schema(other) == old(self).schema(other) by {
                lemma_position(before, other);
            }
            assert forall|other: Seq<char>| final(self).next_rank(other) == old(self).next_rank(
                other,
            ) by {
                lemma_position(before, other);
                if position(before, other) is Some {
                    let j = position(before, other)->Some_0;
                    if j != i {
                        assert(self.tables@[j] == before[j]);
                    }
                }
            }
        }
        Ok(())
    }
}

/// A session on the local engine: it executes plans, one after the other,
/// in the single transaction of the engine.
pub struct Session {
    txn: Transaction,
}

impl Local {
    /// A local SQL engine on the given storage engine.
    pub fn new(engine: Memory) -> (local: Local)
        ensures
            local.simple == engine,
    {
        Local { simple: engine }
    }

    /// A session that executes plans on the engine.
    pub fn session(self) -> (s: Session)
        ensures
            s.transaction().store() == self.simple,
    {
        Session { txn: Transaction::new(self.simple) }
    }

    /// Begins the read-write transaction of the engine.
    pub fn begin(self) -> (r: Result<Transaction, Error>)
        ensures
            r is Ok,
            r->Ok_0.store() == self.simple,
    {
        Ok(Transaction::new(self.simple))
    }
}

impl Session {
    /// The transaction that the session works in.
    pub closed spec fn transaction(self) -> Transaction {
        self.txn
    }

    /// Executes a plan in the transaction of the session.
    pub fn execute(&mut self, plan: Plan) -> (r: Result<ExecutionResult, Error>)
        requires
            plan.executable(),
            old(self).transaction().valid(),
        ensures
            final(self).transaction().valid(),
            plan_outcome(
                plan,
                &old(self).transaction(),
                &final(self).transaction(),
                result_view(r),
            ),
    {
        execute_plan(plan, &mut self.txn)
    }

    /// Ends the session and gives the engine back with what the session
    /// left in the store.
    pub fn end(self) -> (local: Local)
        ensures
            local.simple == self.transaction().store(),
    {
        self.txn.commit()
    }
}

impl Transaction {
    /// The store that the transaction works on.
    pub closed spec fn store(self) -> Memory {
        self.txn
    }

    /// The rank of the identity that the table of the name assigns next.
    pub closed spec fn next_rank(self, table: Seq<char>) -> int {
        self.txn.next_rank(table)
    }

    fn new(txn: Memory) -> (t: Transaction)
        ensures
            t.store() == txn,
    {
        Transaction { txn }
    }

    /// Ends the transaction and gives the engine back with what the
    /// transaction left in the store.
    pub fn commit(self) -> (local: Local)
        ensures
            local.simple == self.store(),
    {
        Local { simple: self.txn }
    }

    /// A transaction is valid when its store is, holds the schemas that
    /// its store holds, and reads what its store reads.
    pub proof fn lemma_store(self, table: Seq<char>)
        ensures
            self.valid() == self.store().valid(),
            self.schema(table) == self.store().schema(table),
            self.read(table) == self.store().read(table),
            self.next_rank(table) == self.store().next_rank(table),
    {
    }
}

impl Catalog for Transaction {
    closed spec fn valid(&self) -> bool {
        self.txn.valid()
    }

    closed spec fn schema(&self, table: Seq<char>) -> Option<TableView> {
        self.txn.schema(table)
    }

    /// A schema is stored unless a table of the name exists; that is the
    /// table-exists failure.
    open spec fn create_answer(&self, table: TableView) -> Result<(), Error> {
        if self.schema(table.name) is Some {
            Err(Error::TableExists)
        } else {
            Ok(())
        }
    }

    /// A table that exists is removed; one that does not is the
    /// table-not-found failure unless `if_exists` is set.
    open spec fn drop_answer(&self, table: Seq<char>, if_exists: bool) -> Result<bool, Error> {
        if self.schema(table) is Some {
            Ok(true)
        } else if if_exists {
            Ok(false)
        } else {
            Err(Error::TableNotFound)
        }
    }

    /// The catalog in memory always answers with what it holds.
    open spec fn get_answer(&self, table: Seq<char>) -> Result<Option<TableView>, Error> {
        Ok(self.schema(table))
    }

    /// Stores the schema with no rows. Fails exactly where a table of the
    /// name exists, and leaves the store as it is then.
    fn create_table(&mut self, table: Table) -> (r: Result<(), Error>)
        ensures
            r is Ok <==> old(self).schema(table@.name) is None,
            r is Ok ==> final(self).read(table@.name) == Ok::<Stored, Error>(Seq::empty()),
            r is Err ==> r == Err::<(), Error>(Error::TableExists) && *final(self) == *old(self),
            forall|other: Seq<char>|
                other != table@.name ==> final(self).read(other) == old(self).read(other),
    {
        self.txn.create_table(table)
    }

    /// Removes the table with its rows. Fails exactly where no table of
    /// the name exists and `if_exists` is not set.
    fn drop_table(&mut self, table_name: &str, if_exists: bool) -> (r: Result<bool, Error>)
        ensures
            r is Ok <==> old(self).schema(table_name@) is Some || if_exists,
            r is Err ==> r == Err::<bool, Error>(Error::TableNotFound) && *final(self) == *old(
                self,
            ),
            forall|other: Seq<char>|
                other != table_name@ ==> final(self).read(other) == old(self).read(other),
    {
        self.txn.drop_table(table_name, if_exists)
    }

    /// The schema stored under the name. Never fails.
    fn get_table(&self, table_name: &str) -> (r: Result<Option<Table>, Error>)
        ensures
            r is Ok,
    {
        self.txn.get_table(table_name)
    }
}

impl crate::sql::engine::Transaction for Transaction {
    closed spec fn read(&self, table: Seq<char>) -> Result<Stored, Error> {
        self.txn.read(table)
    }

    open spec fn delete_answer(&self, table: Seq<char>, ids: Seq<RecordId>) -> Result<(), Error> {
        deletion(self.read(table))
    }

    open spec fn insert_answer(&self, table: Seq<char>, rows: Seq<Seq<FieldView>>) -> Result<
        Seq<RecordId>,
        Error,
    > {
        insertion(self.read(table), self.next_rank(table), rows.len())
    }

    open spec fn update_answer(&self, table: Seq<char>, batch: Stored) -> Result<(), Error> {
        rewriting(self.read(table), batch)
    }

    /// Fails exactly where no table has the name.
    fn delete(&mut self, table_name: &str, ids: &Vec<RecordId>) -> (r: Result<(), Error>)
        ensures
            r is Ok <==> old(self).read(table_name@) is Ok,
            r is Err ==> r == Err::<(), Error>(Error::TableNotFound) && *final(self) == *old(self),
            forall|other: Seq<char>| final(self).schema(other) == old(self).schema(other),
    {
        self.txn.delete(table_name, ids)
    }

    /// The rows are stored behind the rows that are there, under
    /// identities in increasing order. Fails where no table has the name,
    /// and, as a failure of the store, where the table has no identities
    /// left for all the rows.
    fn insert(&mut self, table_name: &str, rows: Vec<Row>) -> (r: Result<Vec<RecordId>, Error>)
        ensures
            r is Ok ==> final(self).read(table_name@)->Ok_0 == old(self).read(table_name@)->Ok_0
                + Seq::new(rows@.len(), |k: int| (r->Ok_0@[k], rows@[k]@)),
            r is Err ==> *final(self) == *old(self) && (r->Err_0 == Error::TableNotFound
                || r->Err_0 == Error::Storage) && (r->Err_0 == Error::TableNotFound <==> old(
                self,
            ).read(table_name@) is Err),
            forall|other: Seq<char>| final(self).schema(other) == old(self).schema(other),
    {
        self.txn.insert(table_name, rows)
    }

    fn scan(&self, table_name: &str, filter: Option<Expression>) -> (r: Result<Rows, Error>) {
        self.txn.scan(table_name, filter)
    }

    /// Fails where no table has the name, and, as a failure of the
    /// store, where the batch holds an identity that is not stored.
    fn update(&mut self, table_name: &str, rows: Vec<(RecordId, Row)>) -> (r: Result<(), Error>)
        ensures
            r is Err ==> *final(self) == *old(self) && (r->Err_0 == Error::TableNotFound
                || r->Err_0 == Error::Storage) && (r->Err_0 == Error::TableNotFound <==> old(
                self,
            ).read(table_name@) is Err) && (r->Err_0 == Error::Storage ==> exists|k: int|
                0 <= k < rows@.len() && !holds(
                    old(self).read(table_name@)->Ok_0,
                    (#[trigger] rows@[k]).0,
                )),
            forall|other: Seq<char>| final(self).schema(other) == old(self).schema(other),
    {
        self.txn.update(table_name, rows)
    }
}

} // verus!
