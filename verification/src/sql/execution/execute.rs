//! The executor: lowers a plan tree into one composed row stream, and
//! carries out the statement that the plan stands for.

use vstd::prelude::*;
use crate::common::Error;
use crate::sql::engine::{
    holds,
    inserts,
    rewritten,
    scan_items,
    scan_outcome,
    without,
    Catalog,
    Stored,
    Transaction,
};
use crate::sql::execution::aggregate::{aggregate, aggregated};
use crate::sql::execution::join::{build_side, hash, hash_items, nested_loop, nested_loop_items};
use crate::sql::execution::source::{literal_items, nothing, values};
use crate::sql::execution::transform::{
    bounded,
    filter,
    filter_items,
    limit,
    offset,
    order,
    ordered,
    project,
    project_item,
    remap,
    remap_item,
    stream_view,
};
use crate::sql::execution::write::{
    contents,
    counted,
    delete,
    identities,
    insert,
    staged,
    update,
};
use crate::sql::planner::{
    collected,
    BinaryOperator,
    Expression,
    Label,
    LabelView,
    Node,
    Plan,
};
use crate::storage::page::RecordId;
use crate::storage::tuple::{item_views, lemma_item_views_add, Item, RowResult, Rows};
use crate::types::field::{Field, FieldView};
use crate::types::schema::{Table, TableView};

verus! {

/// The predicate that holds on a row whose value at the column equals the
/// given value.
pub open spec fn equality_with(column: usize, value: Field) -> Expression {
    Expression::Binary(
        BinaryOperator::Equal,
        Box::new(Expression::Column(column)),
        Box::new(Expression::Constant(value)),
    )
}

/// What the lookups of the values give, one lookup per value in the order
/// of the values: each lookup gives, in identity order, the stored rows
/// whose value at the column equals the value, and nothing where none does.
pub open spec fn looked_up(rows: Stored, column: usize, values: Seq<Field>) -> Seq<Item>
    decreases values.len(),
{
    if values.len() == 0 {
        Seq::empty()
    } else {
        looked_up(rows, column, values.drop_last()) + scan_items(
            rows,
            Some(equality_with(column, values.last())),
        )
    }
}

/// The outcome of the lookups over the outcome of reading the table.
/// Without values nothing is looked up and nothing can fail.
pub open spec fn lookup_outcome(read: Result<Stored, Error>, column: usize, values: Seq<Field>) -> Result<
    Seq<Item>,
    Error,
> {
    if values.len() == 0 {
        Ok(Seq::empty())
    } else {
        match read {
            Err(e) => Err(e),
            Ok(rows) => Ok(looked_up(rows, column, values)),
        }
    }
}

/// The row stream that a node gives on a store, or the failure that stops
/// it: the stream of its children, lowered first, wrapped by the operator
/// of the node. A limit of zero gives the empty stream without lowering
/// what is below it.
pub open spec fn run<T: Transaction>(node: Node, txn: &T) -> Result<Seq<Item>, Error>
    decreases node,
{
    match node {
        Node::Aggregate { source, group_by, aggregates } => match run(*source, txn) {
            Err(e) => Err(e),
            Ok(items) => aggregated(items, group_by@, aggregates@),
        },
        Node::Filter { source, predicate } => match run(*source, txn) {
            Err(e) => Err(e),
            Ok(items) => Ok(filter_items(items, predicate)),
        },
        Node::HashJoin { left, left_column, right, right_column, outer } => match run(*left, txn) {
            Err(e) => Err(e),
            Ok(l) => match run(*right, txn) {
                Err(e) => Err(e),
                Ok(r) => match build_side(r, right_column) {
                    Err(e) => Err(e),
                    Ok(rows) => Ok(
                        hash_items(l, left_column, rows, right_column, right.width(), outer),
                    ),
                },
            },
        },
        Node::IndexLookup { table, column, values, alias } => lookup_outcome(
            txn.read(table@.name),
            column,
            values@,
        ),
        Node::KeyLookup { table, keys, alias } => lookup_outcome(txn.read(table@.name), 0, keys@),
        Node::Limit { source, limit } => if limit == 0 {
            Ok(Seq::empty())
        } else {
            match run(*source, txn) {
                Err(e) => Err(e),
                Ok(items) => Ok(items.take(bounded(limit, items.len()))),
            }
        },
        Node::NestedLoopJoin { left, right, predicate, outer } => match run(*left, txn) {
            Err(e) => Err(e),
            Ok(l) => match run(*right, txn) {
                Err(e) => Err(e),
                Ok(r) => Ok(nested_loop_items(l, r, predicate, right.width(), outer)),
            },
        },
        Node::Nothing { columns } => Ok(Seq::empty()),
        Node::Offset { source, offset } => match run(*source, txn) {
            Err(e) => Err(e),
            Ok(items) => Ok(items.skip(bounded(offset, items.len()))),
        },
        Node::Order { source, key } => match run(*source, txn) {
            Err(e) => Err(e),
            Ok(items) => ordered(items, key@),
        },
        Node::Projection { source, expressions, aliases } => match run(*source, txn) {
            Err(e) => Err(e),
            Ok(items) => Ok(Seq::new(items.len(), |i: int| project_item(items[i], expressions@))),
        },
        Node::Remap { source, targets } => match run(*source, txn) {
            Err(e) => Err(e),
            Ok(items) => Ok(Seq::new(items.len(), |i: int| remap_item(items[i], targets@))),
        },
        Node::Scan { table, filter, alias } => scan_outcome(txn.read(table@.name), filter),
        Node::Values { rows } => Ok(literal_items(rows@)),
    }
}

/// The predicate of a lookup depends on the value looked for only by what
/// the value holds.
pub proof fn lemma_lookup_by_content(items: Seq<Item>, column: usize, a: Field, b: Field)
    requires
        a@ == b@,
    ensures
        filter_items(items, equality_with(column, a)) == filter_items(
            items,
            equality_with(column, b),
        ),
    decreases items.len(),
{
    if items.len() > 0 {
        lemma_lookup_by_content(items.drop_last(), column, a, b);
        match items.last() {
            Ok((rid, row)) => {
                assert(equality_with(column, a).eval(Some(row)) == equality_with(column, b).eval(
                    Some(row),
                )) by {
                    reveal_with_fuel(Expression::eval, 3);
                }
            },
            Err(_) => {},
        }
    }
}

fn lookup<T: Transaction>(txn: &T, table_name: &str, column: usize, values: &Vec<Field>) -> (r:
    Result<Rows, Error>)
    requires
        txn.valid(),
    ensures
        stream_view(r) == lookup_outcome(txn.read(table_name@), column, values@),
{
    let mut out: Vec<RowResult> = Vec::new();
    let mut i: usize = 0;
    assert(values@.take(0) =~= Seq::<Field>::empty());
    while i < values.len()
        invariant
            i <= values@.len(),
            txn.valid(),
            i > 0 ==> txn.read(table_name@) is Ok,
            txn.read(table_name@) is Ok ==> item_views(out@) == looked_up(
                txn.read(table_name@)->Ok_0,
                column,
                values@.take(i as int),
            ),
            i == 0 ==> out@.len() == 0,
        decreases values@.len() - i,
    {
        let value = values[i].clone();
        let predicate = Expression::Binary(
            BinaryOperator::Equal,
            Box::new(Expression::Column(column)),
            Box::new(Expression::Constant(value)),
        );
        proof {
            assert(values@.take(i + 1).drop_last() =~= values@.take(i as int));
            assert(values@.take(i + 1).last() == values@[i as int]);
            assert(predicate == equality_with(column, value));
            if txn.read(table_name@) is Ok {
                let rows = txn.read(table_name@)->Ok_0;
                let all = Seq::new(
                    rows.len(),
                    |k: int| Ok::<(RecordId, Seq<FieldView>), Error>(rows[k]),
                );
                lemma_lookup_by_content(all, column, value, values@[i as int]);
            }
        }
        let mut found = match txn.scan(table_name, Some(predicate)) {
            Err(e) => {
                return Err(e);
            },
            Ok(rows) => rows.items,
        };
        proof {
            lemma_item_views_add(out@, found@);
        }
        out.append(&mut found);
        i += 1;
    }
    proof {
        assert(values@.take(i as int) =~= values@);
        if values@.len() == 0 {
            assert(item_views(out@) =~= Seq::<Item>::empty());
        }
    }
    Ok(Rows::new(out))
}

/// Recursively executes a query plan node, returning the row stream that
/// it gives. Nodes pull the rows of their children, process them, and
/// hand the resulting rows to their parent.
#[verifier::rlimit(50)]
pub fn execute<T: Transaction>(node: Node, txn: &T) -> (r: Result<Rows, Error>)
    requires
        node.executable(),
        txn.valid(),
    ensures
        stream_view(r) == run(node, txn),
    decreases node,
{
    match node {
        Node::Aggregate { source, group_by, aggregates } => {
            let source = match execute(*source, txn) {
                Err(e) => {
                    return Err(e);
                },
                Ok(rows) => rows,
            };
            aggregate(source, group_by, aggregates)
        },
        Node::Filter { source, predicate } => {
            let result_rows = match execute(*source, txn) {
                Err(e) => {
                    return Err(e);
                },
                Ok(rows) => rows,
            };
            Ok(filter(result_rows, predicate))
        },
        Node::HashJoin { left, left_column, right, right_column, outer } => {
            let right_size = right.columns();
            let left = match execute(*left, txn) {
                Err(e) => {
                    return Err(e);
                },
                Ok(rows) => rows,
            };
            let right = match execute(*right, txn) {
                Err(e) => {
                    return Err(e);
                },
                Ok(rows) => rows,
            };
            hash(left, left_column, right, right_column, right_size, outer)
        },
        Node::IndexLookup { table, column, values, alias } => lookup(
            txn,
            table.name(),
            column,
            &values,
        ),
        Node::KeyLookup { table, keys, alias } => lookup(txn, table.name(), 0, &keys),
        Node::Limit { source, limit: count } => {
            if count == 0 {
                return Ok(nothing());
            }
            let result_rows = match execute(*source, txn) {
                Err(e) => {
                    return Err(e);
                },
                Ok(rows) => rows,
            };
            Ok(limit(result_rows, count))
        },
        Node::NestedLoopJoin { left, right, predicate, outer } => {
            let right_size = right.columns();
            let left = match execute(*left, txn) {
                Err(e) => {
                    return Err(e);
                },
                Ok(rows) => rows,
            };
            let right = match execute(*right, txn) {
                Err(e) => {
                    return Err(e);
                },
                Ok(rows) => rows,
            };
            nested_loop(left, right, right_size, predicate, outer)
        },
        Node::Nothing { columns } => Ok(nothing()),
        Node::Offset { source, offset: count } => {
            let result_rows = match execute(*source, txn) {
                Err(e) => {
                    return Err(e);
                },
                Ok(rows) => rows,
            };
            Ok(offset(result_rows, count))
        },
        Node::Order { source, key } => {
            let source = match execute(*source, txn) {
                Err(e) => {
                    return Err(e);
                },
                Ok(rows) => rows,
            };
            order(source, key)
        },
        Node::Projection { source, expressions, aliases } => {
            let source_rows = match execute(*source, txn) {
                Err(e) => {
                    return Err(e);
                },
                Ok(rows) => rows,
            };
            Ok(project(source_rows, expressions))
        },
        Node::Remap { source, targets } => {
            let source = match execute(*source, txn) {
                Err(e) => {
                    return Err(e);
                },
                Ok(rows) => rows,
            };
            Ok(remap(source, targets))
        },
        Node::Scan { table, filter, alias } => txn.scan(table.name(), filter),
        Node::Values { rows } => Ok(values(rows)),
    }
}

/// The mathematical content of an [`ExecutionResult`].
pub enum ExecutionResultView {
    CreateTable { name: Seq<char> },
    DropTable { name: Seq<char>, existed: bool },
    Delete { count: u64 },
    Insert { count: u64, record_ids: Seq<RecordId> },
    Update { count: u64 },
    Select { rows: Seq<Item>, columns: Seq<LabelView> },
}

/// A plan execution result.
#[derive(Debug, PartialEq)]
#[allow(inconsistent_fields)]
pub enum ExecutionResult {
    CreateTable { name: String },
    DropTable { name: String, existed: bool },
    Delete { count: u64 },
    Insert { count: u64, record_ids: Vec<RecordId> },
    Update { count: u64 },
    Select { rows: Rows, columns: Vec<Label> },
}

/// The contents of a vector of labels, one for one.
pub open spec fn label_views(labels: Seq<Label>) -> Seq<LabelView> {
    Seq::new(labels.len(), |i: int| labels[i]@)
}

impl View for ExecutionResult {
    type V = ExecutionResultView;

    open spec fn view(&self) -> ExecutionResultView {
        match self {
            ExecutionResult::CreateTable { name } => ExecutionResultView::CreateTable { name: name@ },
            ExecutionResult::DropTable { name, existed } => ExecutionResultView::DropTable {
                name: name@,
                existed: *existed,
            },
            ExecutionResult::Delete { count } => ExecutionResultView::Delete { count: *count },
            ExecutionResult::Insert { count, record_ids } => ExecutionResultView::Insert {
                count: *count,
                record_ids: record_ids@,
            },
            ExecutionResult::Update { count } => ExecutionResultView::Update { count: *count },
            ExecutionResult::Select { rows, columns } => ExecutionResultView::Select {
                rows: rows@,
                columns: label_views(columns@),
            },
        }
    }
}

/// The content of the outcome of a plan.
pub open spec fn result_view(r: Result<ExecutionResult, Error>) -> Result<
    ExecutionResultView,
    Error,
> {
    match r {
        Ok(result) => Ok(result@),
        Err(e) => Err(e),
    }
}

/// The labels of all columns of a node, in order.
pub open spec fn labels_of(node: Node) -> Seq<LabelView> {
    Seq::new(node.width(), |i: int| node.label(i))
}

/// Whether the other tables read as before.
pub open spec fn others_kept<T: Transaction>(before: &T, after: &T, table: Seq<char>) -> bool {
    forall|other: Seq<char>| other != table ==> after.read(other) == before.read(other)
}

/// What dropping a table gives once the catalog has said whether the
/// table was there: the table-not-found failure where it was not and
/// `if_exists` is not set, and else the name with what the catalog said.
pub open spec fn drop_decision(table: Seq<char>, if_exists: bool, existed: bool) -> Result<
    ExecutionResultView,
    Error,
> {
    if !existed && !if_exists {
        Err(Error::TableNotFound)
    } else {
        Ok(ExecutionResultView::DropTable { name: table, existed })
    }
}

/// The result of dropping a table over the answer of the catalog: a
/// failure of the catalog is handed on as it is.
pub open spec fn dropped(table: Seq<char>, if_exists: bool, answer: Result<bool, Error>) -> Result<
    ExecutionResultView,
    Error,
> {
    match answer {
        Err(e) => Err(e),
        Ok(existed) => drop_decision(table, if_exists, existed),
    }
}

/// The result of creating a table over the answers of the catalog, first
/// to the question whether a table of the name is there, then to the
/// request to store the schema. A failure of the catalog is handed on as
/// it is; a table that is there is the table-exists failure, and the
/// catalog is then not asked to store anything.
pub open spec fn created(
    name: Seq<char>,
    found: Result<Option<TableView>, Error>,
    stored: Result<(), Error>,
) -> Result<ExecutionResultView, Error> {
    match found {
        Err(e) => Err(e),
        Ok(Some(_)) => Err(Error::TableExists),
        Ok(None) => match stored {
            Err(e) => Err(e),
            Ok(_) => Ok(ExecutionResultView::CreateTable { name }),
        },
    }
}

/// The result of a deletion or an update over the answer of the store and
/// the count.
pub open spec fn counted_result(answer: Result<u64, Error>, update: bool) -> Result<
    ExecutionResultView,
    Error,
> {
    match answer {
        Err(e) => Err(e),
        Ok(count) => if update {
            Ok(ExecutionResultView::Update { count })
        } else {
            Ok(ExecutionResultView::Delete { count })
        },
    }
}

/// The result of an insertion over the answer of the store: the
/// identities that the store assigned, and their number.
pub open spec fn inserted(answer: Result<Seq<RecordId>, Error>) -> Result<
    ExecutionResultView,
    Error,
> {
    match answer {
        Err(e) => Err(e),
        Ok(ids) => Ok(ExecutionResultView::Insert { count: ids.len() as u64, record_ids: ids }),
    }
}

/// Whether `r` and the store `after` are an outcome of the plan on the
/// store `before`.
///
/// A failure of the rows that a statement works on is the failure of the
/// statement, and the store is then untouched. A failure with which the
/// store answers is handed on as it is; what the store then holds is not
/// said.
///
/// - Creating a table never replaces one: where a table of the name is
///   there, the statement fails with the table-exists failure and the
///   store is as before. On success the table was absent, and afterwards
///   its schema is stored.
/// - Dropping a table that is absent fails with the table-not-found
///   failure unless `if_exists` is set. On success the result says
///   whether the table was there, and afterwards it is not.
/// - Deleting gives the number of rows that the source gave, and removes
///   the rows under their identities.
/// - Inserting gives the identities that the store assigned, in the order
///   of the rows of the source, and their number.
/// - Updating gives the number of identities that the source staged, and
///   rewrites the rows under them.
/// - Selecting gives the stream of the root and the labels of its
///   columns, and leaves the store as it is.
pub open spec fn plan_outcome<T: Transaction>(
    plan: Plan,
    before: &T,
    after: &T,
    r: Result<ExecutionResultView, Error>,
) -> bool {
    match plan {
        Plan::CreateTable { schema } => {
            &&& r == created(
                schema@.name,
                before.get_answer(schema@.name),
                before.create_answer(schema@),
            )
            &&& !(before.get_answer(schema@.name) matches Ok(None)) ==> *after == *before
            &&& before.schema(schema@.name) is Some ==> r is Err && *after == *before
            &&& r is Ok ==> before.schema(schema@.name) is None && after.schema(schema@.name)
                == Some(schema@) && forall|other: Seq<char>|
                other != schema@.name ==> after.schema(other) == before.schema(other)
        },
        Plan::DropTable { table, if_exists } => {
            &&& r == dropped(table@, if_exists, before.drop_answer(table@, if_exists))
            &&& before.schema(table@) is None && !if_exists ==> r is Err
            &&& r is Ok ==> r == Ok::<ExecutionResultView, Error>(
                ExecutionResultView::DropTable {
                    name: table@,
                    existed: before.schema(table@) is Some,
                },
            ) && after.schema(table@) is None && forall|other: Seq<char>|
                other != table@ ==> after.schema(other) == before.schema(other)
        },
        Plan::Delete { table, source } => match run(source, before) {
            Err(e) => r == Err::<ExecutionResultView, Error>(e) && *after == *before,
            Ok(items) => match collected(items) {
                Err(e) => r == Err::<ExecutionResultView, Error>(e) && *after == *before,
                Ok(rows) => rows.len() <= u64::MAX && r == counted_result(
                    counted(before.delete_answer(table@, identities(rows)), rows.len() as u64),
                    false,
                ) && (r is Ok ==> before.read(table@) is Ok && after.read(table@) == Ok::<
                    Stored,
                    Error,
                >(without(before.read(table@)->Ok_0, identities(rows))) && others_kept(
                    before,
                    after,
                    table@,
                )),
            },
        },
        Plan::Insert { table, source } => match run(source, before) {
            Err(e) => r == Err::<ExecutionResultView, Error>(e) && *after == *before,
            Ok(items) => match collected(items) {
                Err(e) => r == Err::<ExecutionResultView, Error>(e) && *after == *before,
                Ok(rows) => r == inserted(before.insert_answer(table@.name, contents(rows))) && (
                r is Ok ==> (r->Ok_0 matches ExecutionResultView::Insert { count, record_ids }
                    && count == rows.len() && before.read(table@.name) is Ok && after.read(
                    table@.name,
                ) is Ok && inserts(
                    before.read(table@.name)->Ok_0,
                    contents(rows),
                    record_ids,
                    after.read(table@.name)->Ok_0,
                ) && others_kept(before, after, table@.name))),
            },
        },
        Plan::Select(root) => *after == *before && r == match run(root, before) {
            Err(e) => Err::<ExecutionResultView, Error>(e),
            Ok(items) => Ok(ExecutionResultView::Select { rows: items, columns: labels_of(root) }),
        },
        Plan::Update { table, source, expressions } => match run(source, before) {
            Err(e) => r == Err::<ExecutionResultView, Error>(e) && *after == *before,
            Ok(items) => match staged(items, expressions@) {
                Err(e) => r == Err::<ExecutionResultView, Error>(e) && *after == *before,
                Ok(batch) => batch.len() <= u64::MAX && r == counted_result(
                    counted(before.update_answer(table@.name, batch), batch.len() as u64),
                    true,
                ) && (r is Ok ==> before.read(table@.name) is Ok && after.read(table@.name) == Ok::<
                    Stored,
                    Error,
                >(rewritten(before.read(table@.name)->Ok_0, batch)) && (forall|i: int|
                    0 <= i < batch.len() ==> holds(
                        before.read(table@.name)->Ok_0,
                        (#[trigger] batch[i]).0,
                    )) && others_kept(before, after, table@.name)),
            },
        },
    }
}

/// Decides what dropping a table gives once the catalog has said whether
/// the table was there.
pub fn drop_outcome(table: String, if_exists: bool, existed: bool) -> (r: Result<
    ExecutionResult,
    Error,
>)
    ensures
        result_view(r) == drop_decision(table@, if_exists, existed),
        !existed && !if_exists ==> r == Err::<ExecutionResult, Error>(Error::TableNotFound),
        existed || if_exists ==> result_view(r) == Ok::<ExecutionResultView, Error>(
            ExecutionResultView::DropTable { name: table@, existed },
        ),
{
    if !existed && !if_exists {
        Err(Error::TableNotFound)
    } else {
        Ok(ExecutionResult::DropTable { name: table, existed })
    }
}

/// Decides whether a table may be created once the catalog has said what
/// it holds under the name: a table that is there is the table-exists
/// failure.
pub fn create_guard(found: &Option<Table>) -> (r: Result<(), Error>)
    ensures
        found is Some ==> r == Err::<(), Error>(Error::TableExists),
        found is None ==> r is Ok,
{
    match found {
        Some(_) => Err(Error::TableExists),
        None => Ok(()),
    }
}

/// Executes a query plan on a store that is catalog and transaction in one.
pub fn execute_plan<T: Transaction>(plan: Plan, txn: &mut T) -> (r: Result<ExecutionResult, Error>)
    requires
        plan.executable(),
        old(txn).valid(),
    ensures
        final(txn).valid(),
        plan_outcome(plan, old(txn), final(txn), result_view(r)),
{
    match plan {
        Plan::CreateTable { schema } => {
            let name = schema.name().to_owned();
            let found = match txn.get_table(schema.name()) {
                Err(e) => {
                    return Err(e);
                },
                Ok(found) => found,
            };
            match create_guard(&found) {
                Err(e) => {
                    return Err(e);
                },
                Ok(_) => {},
            }
            match txn.create_table(schema) {
                Err(e) => Err(e),
                Ok(_) => Ok(ExecutionResult::CreateTable { name }),
            }
        },
        Plan::Delete { table, source } => {
            let result_rows = match execute(source, txn) {
                Err(e) => {
                    return Err(e);
                },
                Ok(rows) => rows,
            };
            match delete(txn, table, result_rows) {
                Err(e) => Err(e),
                Ok(count) => Ok(ExecutionResult::Delete { count }),
            }
        },
        Plan::DropTable { table, if_exists } => {
            let existed = match txn.drop_table(table.as_str(), if_exists) {
                Err(e) => {
                    return Err(e);
                },
                Ok(existed) => existed,
            };
            drop_outcome(table, if_exists, existed)
        },
        Plan::Insert { table, source } => {
            let result_rows = match execute(source, txn) {
                Err(e) => {
                    return Err(e);
                },
                Ok(rows) => rows,
            };
            let record_ids = match insert(txn, table, result_rows) {
                Err(e) => {
                    return Err(e);
                },
                Ok(ids) => ids,
            };
            let count = record_ids.len() as u64;
            Ok(ExecutionResult::Insert { count, record_ids })
        },
        Plan::Select(root) => {
            let column_count = root.columns();
            let mut column_labels: Vec<Label> = Vec::new();
            let mut i: usize = 0;
            while i < column_count
                invariant
                    i <= column_count,
                    column_count == root.width(),
                    root.executable(),
                    label_views(column_labels@) == labels_of(root).take(i as int),
                decreases column_count - i,
            {
                let label = root.column_label(i);
                assert(label_views(column_labels@.push(label)) =~= label_views(column_labels@).push(
                    label@,
                ));
                assert(labels_of(root).take(i as int).push(label@) =~= labels_of(root).take(i + 1));
                column_labels.push(label);
                i += 1;
            }
            assert(labels_of(root).take(i as int) =~= labels_of(root));
            match execute(root, txn) {
                Err(e) => Err(e),
                Ok(result_rows) => Ok(
                    ExecutionResult::Select { rows: result_rows, columns: column_labels },
                ),
            }
        },
        Plan::Update { table, source, expressions } => {
            let result_rows = match execute(source, txn) {
                Err(e) => {
                    return Err(e);
                },
                Ok(rows) => rows,
            };
            match update(txn, table.name().to_owned(), result_rows, expressions) {
                Err(e) => Err(e),
                Ok(count) => Ok(ExecutionResult::Update { count }),
            }
        },
    }
}

} // verus!
