//! What the executor consumes from its collaborators: a catalog of table
//! schemas and a transactional store of rows.

pub mod local;

use vstd::prelude::*;
use crate::common::Error;
use crate::sql::execution::transform::stream_view;
use crate::sql::execution::transform::filter_items;
use crate::sql::planner::Expression;
use crate::storage::page::RecordId;
use crate::storage::tuple::{Item, Row, Rows};
use crate::types::field::FieldView;
use crate::types::schema::{Table, TableView};

verus! {

/// The rows of a stored table with their identities.
pub type Stored = Seq<(RecordId, Seq<FieldView>)>;

/// Whether the rows are in strictly increasing identity order, so that no
/// identity occurs twice.
pub open spec fn in_identity_order(rows: Stored) -> bool {
    forall|i: int, j: int|
        0 <= i < j < rows.len() ==> (#[trigger] rows[i]).0.rank() < (#[trigger] rows[j]).0.rank()
}

/// Whether a row is stored under the identity.
pub open spec fn holds(rows: Stored, id: RecordId) -> bool {
    exists|i: int| 0 <= i < rows.len() && (#[trigger] rows[i]).0 == id
}

/// The rows without those under one of the identities, order kept.
pub open spec fn without(rows: Stored, ids: Seq<RecordId>) -> Stored
    decreases rows.len(),
{
    if rows.len() == 0 {
        Seq::empty()
    } else if ids.contains(rows.last().0) {
        without(rows.drop_last(), ids)
    } else {
        without(rows.drop_last(), ids).push(rows.last())
    }
}

/// The row that a batch holds for the identity, if any.
pub open spec fn staged_for(batch: Stored, id: RecordId) -> Option<Seq<FieldView>>
    decreases batch.len(),
{
    if batch.len() == 0 {
        None
    } else if batch.last().0 == id {
        Some(batch.last().1)
    } else {
        staged_for(batch.drop_last(), id)
    }
}

/// The rows after each one whose identity the batch holds is replaced by
/// the row that the batch holds for it.
pub open spec fn rewritten(rows: Stored, batch: Stored) -> Stored {
    Seq::new(
        rows.len(),
        |i: int|
            (
                rows[i].0,
                match staged_for(batch, rows[i].0) {
                    Some(row) => row,
                    None => rows[i].1,
                },
            ),
    )
}

/// Whether `after` is `before` with the rows inserted under the
/// identities: one identity per row in the order of the rows, each
/// addressable, none used before and none twice, and the table again in
/// identity order, holding what it held and the new rows.
pub open spec fn inserts(
    before: Stored,
    rows: Seq<Seq<FieldView>>,
    ids: Seq<RecordId>,
    after: Stored,
) -> bool {
    &&& ids.len() == rows.len()
    &&& ids.no_duplicates()
    &&& forall|i: int|
        0 <= i < ids.len() ==> (#[trigger] ids[i]) != RecordId::spec_invalid() && !holds(
            before,
            ids[i],
        )
    &&& in_identity_order(after)
    &&& forall|p: (RecordId, Seq<FieldView>)|
        after.contains(p) <==> before.contains(p) || exists|i: int|
            0 <= i < ids.len() && p == (#[trigger] ids[i], rows[i])
}

/// An insertion gives one identity per row. After rows are inserted under
/// identities, there are as many identities as rows, no identity occurs
/// twice or was used before, and the table holds each row under the
/// identity at its position.
pub proof fn lemma_insert_gives_identities(
    before: Stored,
    rows: Seq<Seq<FieldView>>,
    ids: Seq<RecordId>,
    after: Stored,
)
    requires
        inserts(before, rows, ids, after),
    ensures
        ids.len() == rows.len(),
        forall|i: int, j: int| 0 <= i < j < ids.len() ==> ids[i] != ids[j],
        forall|i: int| 0 <= i < ids.len() ==> !holds(before, #[trigger] ids[i]),
        forall|i: int|
            0 <= i < ids.len() ==> holds(after, #[trigger] ids[i]) && after.contains(
                (ids[i], rows[i]),
            ),
{
    assert forall|i: int| 0 <= i < ids.len() implies holds(after, #[trigger] ids[i])
        && after.contains((ids[i], rows[i])) by {
        let p = (ids[i], rows[i]);
        assert(after.contains(p));
        let k = choose|k: int| 0 <= k < after.len() && after[k] == p;
        assert(after[k].0 == ids[i]);
    }
}

/// The stream that a scan gives: every stored row with its identity, in
/// identity order, filtered where a filter is pushed down.
pub open spec fn scan_items(rows: Stored, filter: Option<Expression>) -> Seq<Item> {
    let all = Seq::new(rows.len(), |i: int| Ok::<(RecordId, Seq<FieldView>), Error>(rows[i]));
    match filter {
        None => all,
        Some(predicate) => filter_items(all, predicate),
    }
}

/// The outcome of a scan over the outcome of reading the table.
pub open spec fn scan_outcome(read: Result<Stored, Error>, filter: Option<Expression>) -> Result<
    Seq<Item>,
    Error,
> {
    match read {
        Err(e) => Err(e),
        Ok(rows) => Ok(scan_items(rows, filter)),
    }
}

/// The contents of rows with their identities, one for one.
pub open spec fn stored_views(rows: Seq<(RecordId, Row)>) -> Stored {
    Seq::new(rows.len(), |i: int| (rows[i].0, rows[i].1@))
}

/// The contents of rows, one for one.
pub open spec fn plain_views(rows: Seq<Row>) -> Seq<Seq<FieldView>> {
    Seq::new(rows.len(), |i: int| rows[i]@)
}

/// The content of a schema that may be absent.
pub open spec fn optional_table_view(table: Option<Table>) -> Option<TableView> {
    match table {
        Some(t) => Some(t@),
        None => None,
    }
}

/// The content of the outcome of asking for a schema.
pub open spec fn lookup_view(r: Result<Option<Table>, Error>) -> Result<Option<TableView>, Error> {
    match r {
        Ok(table) => Ok(optional_table_view(table)),
        Err(e) => Err(e),
    }
}

/// The content of the outcome of an insertion.
pub open spec fn identities_view(r: Result<Vec<RecordId>, Error>) -> Result<Seq<RecordId>, Error> {
    match r {
        Ok(ids) => Ok(ids@),
        Err(e) => Err(e),
    }
}

/// The catalog of table schemas, by table name. What the catalog answers
/// to a call is decided by the state that it is in and by what is asked;
/// the answer may be a failure of the store. What a call changes, it
/// promises of success, except that the store stays valid whatever the
/// outcome.
pub trait Catalog {
    /// Whether the store is in a state that its own operations can leave
    /// it in. Every operation needs a valid store and keeps it valid.
    spec fn valid(&self) -> bool;

    /// The schema stored under the name, if any.
    spec fn schema(&self, table: Seq<char>) -> Option<TableView>;

    /// What the catalog answers when it is asked to store the schema.
    spec fn create_answer(&self, table: TableView) -> Result<(), Error>;

    /// What the catalog answers when it is asked to remove the table: on
    /// success, whether there was one.
    spec fn drop_answer(&self, table: Seq<char>, if_exists: bool) -> Result<bool, Error>;

    /// What the catalog answers when it is asked for the schema under the name.
    spec fn get_answer(&self, table: Seq<char>) -> Result<Option<TableView>, Error>;

    /// Stores a schema under its name.
    fn create_table(&mut self, table: Table) -> (r: Result<(), Error>)
        requires
            old(self).valid(),
        ensures
            final(self).valid(),
            r == old(self).create_answer(table@),
            r is Ok ==> final(self).schema(table@.name) == Some(table@),
            r is Ok ==> forall|other: Seq<char>|
                other != table@.name ==> final(self).schema(other) == old(self).schema(other),
    ;

    /// Removes the schema under the name and says whether there was one.
    fn drop_table(&mut self, table_name: &str, if_exists: bool) -> (r: Result<bool, Error>)
        requires
            old(self).valid(),
        ensures
            final(self).valid(),
            r == old(self).drop_answer(table_name@, if_exists),
            r is Ok ==> r->Ok_0 == (old(self).schema(table_name@) is Some) && final(self).schema(
                table_name@,
            ) is None,
            r is Ok ==> forall|other: Seq<char>|
                other != table_name@ ==> final(self).schema(other) == old(self).schema(other),
    ;

    /// The schema stored under the name, if any.
    fn get_table(&self, table_name: &str) -> (r: Result<Option<Table>, Error>)
        requires
            self.valid(),
        ensures
            lookup_view(r) == self.get_answer(table_name@),
            r is Ok ==> optional_table_view(r->Ok_0) == self.schema(table_name@),
    ;
}

/// A transactional store of rows, by table name, with its catalog. What
/// the store answers to a call is decided by the state that it is in and
/// by what is asked; the answer may be a failure of the store. What a call
/// changes, it promises of success, except that the store stays valid
/// whatever the outcome.
pub trait Transaction: Catalog {
    /// What reading the whole table gives: its rows in identity order, or
    /// the failure of the store.
    spec fn read(&self, table: Seq<char>) -> Result<Stored, Error>;

    /// What the store answers when it is asked to delete the identities.
    spec fn delete_answer(&self, table: Seq<char>, ids: Seq<RecordId>) -> Result<(), Error>;

    /// What the store answers when it is asked to insert the rows: on
    /// success, the identities that it assigns to them.
    spec fn insert_answer(&self, table: Seq<char>, rows: Seq<Seq<FieldView>>) -> Result<
        Seq<RecordId>,
        Error,
    >;

    /// What the store answers when it is asked to rewrite the rows of the batch.
    spec fn update_answer(&self, table: Seq<char>, batch: Stored) -> Result<(), Error>;

    /// Deletes the rows under the identities; an identity that is not
    /// stored is passed over.
    fn delete(&mut self, table_name: &str, ids: &Vec<RecordId>) -> (r: Result<(), Error>)
        requires
            old(self).valid(),
        ensures
            final(self).valid(),
            r == old(self).delete_answer(table_name@, ids@),
            r is Ok ==> old(self).read(table_name@) is Ok && final(self).read(table_name@) == Ok::<
                Stored,
                Error,
            >(without(old(self).read(table_name@)->Ok_0, ids@)),
            r is Ok ==> forall|other: Seq<char>|
                other != table_name@ ==> final(self).read(other) == old(self).read(other),
    ;

    /// Inserts the rows and gives the identities that the store assigned
    /// to them, in the order of the rows.
    fn insert(&mut self, table_name: &str, rows: Vec<Row>) -> (r: Result<Vec<RecordId>, Error>)
        requires
            old(self).valid(),
        ensures
            final(self).valid(),
            identities_view(r) == old(self).insert_answer(table_name@, plain_views(rows@)),
            r is Ok ==> old(self).read(table_name@) is Ok && final(self).read(table_name@) is Ok
                && inserts(
                old(self).read(table_name@)->Ok_0,
                plain_views(rows@),
                r->Ok_0@,
                final(self).read(table_name@)->Ok_0,
            ),
            r is Ok ==> forall|other: Seq<char>|
                other != table_name@ ==> final(self).read(other) == old(self).read(other),
    ;

    /// Scans the table in identity order, with the filter applied where
    /// one is pushed down.
    fn scan(&self, table_name: &str, filter: Option<Expression>) -> (r: Result<Rows, Error>)
        requires
            self.valid(),
        ensures
            stream_view(r) == scan_outcome(self.read(table_name@), filter),
    ;

    /// Replaces the rows under the identities of the batch. The batch is
    /// in identity order; every identity in it must be stored.
    fn update(&mut self, table_name: &str, rows: Vec<(RecordId, Row)>) -> (r: Result<(), Error>)
        requires
            old(self).valid(),
            in_identity_order(stored_views(rows@)),
        ensures
            final(self).valid(),
            r == old(self).update_answer(table_name@, stored_views(rows@)),
            r is Ok ==> old(self).read(table_name@) is Ok && final(self).read(table_name@) == Ok::<
                Stored,
                Error,
            >(rewritten(old(self).read(table_name@)->Ok_0, stored_views(rows@))),
            r is Ok ==> forall|i: int|
                0 <= i < rows@.len() ==> holds(
                    old(self).read(table_name@)->Ok_0,
                    (#[trigger] rows@[i]).0,
                ),
            r is Ok ==> forall|other: Seq<char>|
                other != table_name@ ==> final(self).read(other) == old(self).read(other),
    ;
}

} // verus!
