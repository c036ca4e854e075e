use rustydb::common::{Error, ErrorKind};
use rustydb::sql::engine::local::{Local, Memory, Transaction as LocalTransaction};
use rustydb::sql::engine::{Catalog, Transaction};
use rustydb::sql::execution::execute::{
    create_guard, drop_outcome, execute, execute_plan, ExecutionResult,
};
use rustydb::sql::execution::source::{nothing, values};
use rustydb::sql::execution::write::{count_outcome, delete, insert, update};
use rustydb::sql::planner::{Aggregate, BinaryOperator, Expression, Label, Node, Plan};
use rustydb::storage::page::RecordId;
use rustydb::storage::tuple::{Row, RowResult, Rows};
use rustydb::types::field::Field;
use rustydb::types::schema::{DataType, Table};
use rustydb::types::total_order::Direction;

fn num(i: i64) -> Field {
    Field::Integer(i)
}

fn text(s: &str) -> Field {
    Field::Text(s.to_string())
}

fn column(i: usize) -> Expression {
    Expression::Column(i)
}

fn constant(i: i64) -> Expression {
    Expression::Constant(num(i))
}

fn op(operator: BinaryOperator, l: Expression, r: Expression) -> Expression {
    Expression::Binary(operator, Box::new(l), Box::new(r))
}

fn people() -> Table {
    let mut builder = Table::builder();
    builder
        .name("people")
        .column("id", DataType::Int, false, None, None)
        .column("name", DataType::Text, false, None, Some(20))
        .column("age", DataType::Int, true, None, None);
    builder.build()
}

fn pets() -> Table {
    let mut builder = Table::builder();
    builder
        .name("pets")
        .column("owner", DataType::Int, true, None, None)
        .column("pet", DataType::Text, false, None, Some(20));
    builder.build()
}

fn person(id: i64, name: &str, age: i64) -> Row {
    Row::new(vec![num(id), text(name), num(age)])
}

fn literal(row: Vec<Field>) -> Vec<Expression> {
    row.into_iter().map(Expression::Constant).collect()
}

fn scan(table: Table) -> Node {
    Node::Scan { table, filter: None, alias: None }
}

fn filtered(table: Table, predicate: Expression) -> Node {
    Node::Filter { source: Box::new(scan(table)), predicate }
}

fn populated() -> LocalTransaction {
    let mut txn = Local::new(Memory::new()).begin().unwrap();
    txn.create_table(people()).unwrap();
    txn.create_table(pets()).unwrap();
    let rows = vec![
        person(1, "ann", 30),
        person(2, "bob", 25),
        person(3, "cyd", 41),
        person(4, "dee", 25),
    ];
    txn.insert("people", rows).unwrap();
    let pets = vec![
        Row::new(vec![num(2), text("rex")]),
        Row::new(vec![num(4), text("tom")]),
        Row::new(vec![num(2), text("kit")]),
        Row::new(vec![Field::Null, text("stray")]),
    ];
    txn.insert("pets", pets).unwrap();
    txn
}

fn rows_of(txn: &LocalTransaction, table: &str) -> Vec<Row> {
    txn.scan(table, None).unwrap().items.into_iter().map(|r| r.unwrap().1).collect()
}

fn ids_of(txn: &LocalTransaction, table: &str) -> Vec<RecordId> {
    txn.scan(table, None).unwrap().items.into_iter().map(|r| r.unwrap().0).collect()
}

fn selected(txn: &mut LocalTransaction, root: Node) -> Vec<Row> {
    match execute_plan(Plan::Select(root), txn).unwrap() {
        ExecutionResult::Select { rows, .. } => rows.items.into_iter().map(|r| r.unwrap().1).collect(),
        _ => panic!("not a selection"),
    }
}

#[test]
fn a_new_store_has_no_tables() {
    let txn = Local::new(Memory::new()).begin().unwrap();
    assert_eq!(txn.get_table("people"), Ok(None));
    assert_eq!(txn.scan("people", None), Err(Error::TableNotFound));
    assert_eq!(Error::TableNotFound.kind(), ErrorKind::InvalidInput);
}

#[test]
fn a_created_table_is_found_and_empty() {
    let mut txn = Local::new(Memory::new()).begin().unwrap();
    assert_eq!(txn.create_table(people()), Ok(()));
    assert_eq!(txn.get_table("people"), Ok(Some(people())));
    assert_eq!(txn.get_table("pets"), Ok(None));
    assert_eq!(txn.scan("people", None), Ok(Rows::nothing()));
    assert_eq!(txn.create_table(people()), Err(Error::TableExists));
}

#[test]
fn dropping_a_table_removes_it_with_its_rows() {
    let mut txn = populated();
    assert_eq!(txn.drop_table("people", false), Ok(true));
    assert_eq!(txn.get_table("people"), Ok(None));
    assert_eq!(txn.scan("people", None), Err(Error::TableNotFound));
    assert_eq!(rows_of(&txn, "pets").len(), 4);
    assert_eq!(txn.drop_table("people", true), Ok(false));
    assert_eq!(txn.drop_table("people", false), Err(Error::TableNotFound));
    txn.create_table(people()).unwrap();
    assert_eq!(rows_of(&txn, "people").len(), 0);
}

#[test]
fn insert_gives_one_fresh_identity_per_row_in_order() {
    let mut txn = populated();
    let before = ids_of(&txn, "people");
    let ids = txn.insert("people", vec![person(5, "eve", 1), person(6, "fay", 2), person(7, "gus", 3)]).unwrap();
    assert_eq!(ids.len(), 3);
    for (i, id) in ids.iter().enumerate() {
        assert!(id.is_valid());
        assert!(!before.contains(id));
        assert!(!ids[..i].contains(id));
    }
    let stored = txn.scan("people", None).unwrap().items;
    assert_eq!(stored.len(), 7);
    assert_eq!(stored[4], Ok((ids[0], person(5, "eve", 1))));
    assert_eq!(stored[5], Ok((ids[1], person(6, "fay", 2))));
    assert_eq!(stored[6], Ok((ids[2], person(7, "gus", 3))));
    assert_eq!(txn.insert("people", vec![]), Ok(vec![]));
    assert_eq!(txn.insert("nowhere", vec![person(1, "x", 1)]), Err(Error::TableNotFound));
}

#[test]
fn identities_are_not_assigned_twice() {
    let mut txn = populated();
    let first = ids_of(&txn, "people");
    txn.delete("people", &first).unwrap();
    let second = txn.insert("people", vec![person(9, "new", 9)]).unwrap();
    assert!(!first.contains(&second[0]));
    assert_eq!(rows_of(&txn, "people"), vec![person(9, "new", 9)]);
}

#[test]
fn a_scan_gives_the_rows_in_identity_order() {
    let txn = populated();
    let ids = ids_of(&txn, "people");
    for pair in ids.windows(2) {
        assert!(pair[0].precedes(&pair[1]));
    }
    assert_eq!(
        rows_of(&txn, "people"),
        vec![person(1, "ann", 30), person(2, "bob", 25), person(3, "cyd", 41), person(4, "dee", 25)]
    );
}

#[test]
fn a_scan_applies_the_filter_that_is_pushed_down() {
    let txn = populated();
    let young = op(BinaryOperator::LessThan, column(2), constant(30));
    let out = txn.scan("people", Some(young)).unwrap();
    let names: Vec<Row> = out.items.into_iter().map(|r| r.unwrap().1).collect();
    assert_eq!(names, vec![person(2, "bob", 25), person(4, "dee", 25)]);
    let broken = txn.scan("people", Some(column(1))).unwrap();
    assert_eq!(broken.items, vec![Err(Error::NonBooleanPredicate); 4]);
}

#[test]
fn the_store_deletes_the_identities_it_is_given() {
    let mut txn = populated();
    let ids = ids_of(&txn, "people");
    assert_eq!(txn.delete("people", &vec![ids[1], ids[3], RecordId::invalid(), ids[1]]), Ok(()));
    assert_eq!(rows_of(&txn, "people"), vec![person(1, "ann", 30), person(3, "cyd", 41)]);
    assert_eq!(txn.delete("people", &vec![ids[1], ids[3]]), Ok(()));
    assert_eq!(rows_of(&txn, "people"), vec![person(1, "ann", 30), person(3, "cyd", 41)]);
    assert_eq!(txn.delete("nowhere", &vec![]), Err(Error::TableNotFound));
    assert_eq!(rows_of(&txn, "pets").len(), 4);
}

#[test]
fn the_store_rewrites_the_rows_of_a_batch() {
    let mut txn = populated();
    let ids = ids_of(&txn, "people");
    let batch = vec![(ids[0], person(1, "ann", 31)), (ids[2], person(3, "cy", 42))];
    assert_eq!(txn.update("people", batch), Ok(()));
    assert_eq!(
        rows_of(&txn, "people"),
        vec![person(1, "ann", 31), person(2, "bob", 25), person(3, "cy", 42), person(4, "dee", 25)]
    );
    assert_eq!(ids_of(&txn, "people"), ids);
    let unknown = vec![(ids[0], person(0, "x", 0)), (RecordId::new(77, 7), person(0, "y", 0))];
    assert_eq!(txn.update("people", unknown), Err(Error::Storage));
    assert_eq!(rows_of(&txn, "people")[0], person(1, "ann", 31));
    assert_eq!(txn.update("nowhere", vec![]), Err(Error::TableNotFound));
    assert_eq!(Error::Storage.kind(), ErrorKind::Storage);
}

#[test]
fn delete_counts_the_rows_of_its_source() {
    let mut txn = populated();
    let source = txn.scan("people", Some(op(BinaryOperator::Equal, column(2), constant(25)))).unwrap();
    assert_eq!(delete(&mut txn, "people".to_string(), source), Ok(2));
    assert_eq!(rows_of(&txn, "people"), vec![person(1, "ann", 30), person(3, "cyd", 41)]);
    assert_eq!(delete(&mut txn, "people".to_string(), Rows::nothing()), Ok(0));
    assert_eq!(delete(&mut txn, "nowhere".to_string(), Rows::nothing()), Err(Error::TableNotFound));
}

#[test]
fn delete_stops_at_a_failure_before_touching_the_store() {
    let mut txn = populated();
    let ids = ids_of(&txn, "people");
    let source = Rows::new(vec![Ok((ids[0], person(1, "ann", 30))), Err(Error::Overflow)]);
    assert_eq!(delete(&mut txn, "people".to_string(), source), Err(Error::Overflow));
    assert_eq!(rows_of(&txn, "people").len(), 4);
}

#[test]
fn delete_counts_identities_that_are_gone_already() {
    let mut txn = populated();
    let ids = ids_of(&txn, "people");
    let source = || Rows::new(vec![Ok((ids[0], Row::new(vec![]))), Ok((ids[1], Row::new(vec![])))]);
    assert_eq!(delete(&mut txn, "people".to_string(), source()), Ok(2));
    assert_eq!(delete(&mut txn, "people".to_string(), source()), Ok(2));
    assert_eq!(rows_of(&txn, "people").len(), 2);
}

#[test]
fn insert_stores_the_rows_of_its_source_whatever_their_identity() {
    let mut txn = populated();
    let source = Rows::new(vec![
        Ok((RecordId::invalid(), person(8, "hal", 8))),
        Ok((RecordId::new(0, 0), person(9, "ivy", 9))),
    ]);
    let ids = insert(&mut txn, people(), source).unwrap();
    assert_eq!(ids.len(), 2);
    assert!(ids[0] != ids[1]);
    let stored = txn.scan("people", None).unwrap().items;
    assert_eq!(stored[4], Ok((ids[0], person(8, "hal", 8))));
    assert_eq!(stored[5], Ok((ids[1], person(9, "ivy", 9))));
    let failing = Rows::new(vec![Ok((RecordId::invalid(), person(1, "x", 1))), Err(Error::Storage)]);
    assert_eq!(insert(&mut txn, people(), failing), Err(Error::Storage));
    assert_eq!(rows_of(&txn, "people").len(), 6);
}

#[test]
fn update_applies_the_assignments_one_after_the_other() {
    let mut txn = populated();
    let source = txn.scan("people", Some(op(BinaryOperator::Equal, column(0), constant(2)))).unwrap();
    let assignments = vec![
        (2, op(BinaryOperator::Add, column(2), constant(1))),
        (0, op(BinaryOperator::Add, column(0), column(2))),
    ];
    assert_eq!(update(&mut txn, "people".to_string(), source, assignments), Ok(1));
    assert_eq!(rows_of(&txn, "people")[1], person(28, "bob", 26));
}

#[test]
fn the_last_write_to_an_identity_wins() {
    let mut txn = populated();
    let ids = ids_of(&txn, "people");
    let source = Rows::new(vec![
        Ok((ids[0], person(1, "ann", 30))),
        Ok((ids[2], person(3, "cyd", 41))),
        Ok((ids[0], person(1, "ann", 50))),
    ]);
    let increment = vec![(2, op(BinaryOperator::Add, column(2), constant(1)))];
    assert_eq!(update(&mut txn, "people".to_string(), source, increment), Ok(2));
    assert_eq!(
        rows_of(&txn, "people"),
        vec![person(1, "ann", 51), person(2, "bob", 25), person(3, "cyd", 42), person(4, "dee", 25)]
    );
}

#[test]
fn update_stops_at_a_failure_before_touching_the_store() {
    let mut txn = populated();
    let source = || txn_rows(&populated());
    let overflow = vec![(2, op(BinaryOperator::Add, column(2), constant(i64::MAX)))];
    assert_eq!(update(&mut txn, "people".to_string(), source(), overflow), Err(Error::Overflow));
    let outside = vec![(3, constant(0))];
    assert_eq!(update(&mut txn, "people".to_string(), source(), outside), Err(Error::ColumnOutOfRange));
    let broken = Rows::new(vec![Err(Error::Storage)]);
    assert_eq!(update(&mut txn, "people".to_string(), broken, vec![]), Err(Error::Storage));
    assert_eq!(rows_of(&txn, "people"), rows_of(&populated(), "people"));
    let computed = Rows::new(vec![Ok((RecordId::invalid(), person(1, "x", 1)))]);
    assert_eq!(update(&mut txn, "people".to_string(), computed, vec![]), Err(Error::Storage));
}

fn txn_rows(txn: &LocalTransaction) -> Rows {
    txn.scan("people", None).unwrap()
}

#[test]
fn plans_create_and_drop_tables() {
    let mut txn = Local::new(Memory::new()).begin().unwrap();
    assert_eq!(
        execute_plan(Plan::CreateTable { schema: people() }, &mut txn),
        Ok(ExecutionResult::CreateTable { name: "people".to_string() })
    );
    assert_eq!(execute_plan(Plan::CreateTable { schema: people() }, &mut txn), Err(Error::TableExists));
    assert_eq!(
        execute_plan(Plan::DropTable { table: "people".to_string(), if_exists: false }, &mut txn),
        Ok(ExecutionResult::DropTable { name: "people".to_string(), existed: true })
    );
    assert_eq!(
        execute_plan(Plan::DropTable { table: "people".to_string(), if_exists: true }, &mut txn),
        Ok(ExecutionResult::DropTable { name: "people".to_string(), existed: false })
    );
    assert_eq!(
        execute_plan(Plan::DropTable { table: "people".to_string(), if_exists: false }, &mut txn),
        Err(Error::TableNotFound)
    );
}

#[test]
fn a_plan_inserts_literal_rows() {
    let mut txn = populated();
    let source = Node::Values {
        rows: vec![literal(vec![num(5), text("eve"), num(19)]), literal(vec![num(6), text("fay"), Field::Null])],
    };
    match execute_plan(Plan::Insert { table: people(), source }, &mut txn).unwrap() {
        ExecutionResult::Insert { count, record_ids } => {
            assert_eq!(count, 2);
            assert_eq!(record_ids.len(), 2);
            assert_eq!(ids_of(&txn, "people")[4..], record_ids[..]);
        }
        _ => panic!("not an insertion"),
    }
    assert_eq!(rows_of(&txn, "people")[5], Row::new(vec![num(6), text("fay"), Field::Null]));
}

#[test]
fn deleting_by_predicate_twice_deletes_once() {
    let mut txn = populated();
    let plan = || Plan::Delete {
        table: "people".to_string(),
        source: filtered(people(), op(BinaryOperator::GreaterThan, column(2), constant(28))),
    };
    assert_eq!(execute_plan(plan(), &mut txn), Ok(ExecutionResult::Delete { count: 2 }));
    assert_eq!(rows_of(&txn, "people"), vec![person(2, "bob", 25), person(4, "dee", 25)]);
    assert_eq!(execute_plan(plan(), &mut txn), Ok(ExecutionResult::Delete { count: 0 }));
    assert_eq!(rows_of(&txn, "people"), vec![person(2, "bob", 25), person(4, "dee", 25)]);
}

#[test]
fn a_plan_updates_a_column_from_its_own_value() {
    let mut txn = populated();
    let plan = || Plan::Update {
        table: people(),
        source: filtered(people(), op(BinaryOperator::Equal, column(2), constant(25))),
        expressions: vec![(2, op(BinaryOperator::Add, column(2), constant(1)))],
    };
    assert_eq!(execute_plan(plan(), &mut txn), Ok(ExecutionResult::Update { count: 2 }));
    assert_eq!(
        rows_of(&txn, "people"),
        vec![person(1, "ann", 30), person(2, "bob", 26), person(3, "cyd", 41), person(4, "dee", 26)]
    );
    assert_eq!(execute_plan(plan(), &mut txn), Ok(ExecutionResult::Update { count: 0 }));
}

#[test]
fn a_failing_source_fails_the_statement_and_leaves_the_store() {
    let mut txn = populated();
    let failing = || filtered(people(), op(BinaryOperator::Divide, column(0), constant(0)));
    assert_eq!(
        execute_plan(Plan::Delete { table: "people".to_string(), source: failing() }, &mut txn),
        Err(Error::DivisionByZero)
    );
    assert_eq!(
        execute_plan(Plan::Update { table: people(), source: failing(), expressions: vec![] }, &mut txn),
        Err(Error::DivisionByZero)
    );
    assert_eq!(
        execute_plan(Plan::Insert { table: people(), source: failing() }, &mut txn),
        Err(Error::DivisionByZero)
    );
    assert_eq!(rows_of(&txn, "people"), rows_of(&populated(), "people"));
    assert_eq!(Error::DivisionByZero.kind(), ErrorKind::Evaluation);
}

#[test]
fn a_selection_gives_rows_and_labels() {
    let mut txn = populated();
    let root = Node::Projection {
        source: Box::new(Node::Scan { table: people(), filter: None, alias: Some("p".to_string()) }),
        expressions: vec![column(1), op(BinaryOperator::Add, column(2), constant(1)), column(0), constant(7)],
        aliases: vec![
            Label::Absent,
            Label::Unqualified("next".to_string()),
            Label::Qualified("x".to_string(), "y".to_string()),
        ],
    };
    match execute_plan(Plan::Select(root), &mut txn).unwrap() {
        ExecutionResult::Select { rows, columns } => {
            assert_eq!(
                columns,
                vec![
                    Label::Qualified("p".to_string(), "name".to_string()),
                    Label::Unqualified("next".to_string()),
                    Label::Qualified("x".to_string(), "y".to_string()),
                    Label::Absent,
                ]
            );
            assert_eq!(rows.len(), 4);
            assert_eq!(rows.items[1].as_ref().unwrap().1, Row::new(vec![text("bob"), num(26), num(2), num(7)]));
        }
        _ => panic!("not a selection"),
    }
}

#[test]
fn labels_pass_through_the_operators() {
    let join = Node::NestedLoopJoin {
        left: Box::new(scan(people())),
        right: Box::new(Node::Scan { table: pets(), filter: None, alias: Some("q".to_string()) }),
        predicate: None,
        outer: false,
    };
    assert_eq!(join.columns(), 5);
    assert_eq!(join.column_label(2), Label::Qualified("people".to_string(), "age".to_string()));
    assert_eq!(join.column_label(3), Label::Qualified("q".to_string(), "owner".to_string()));
    assert_eq!(join.column_label(5), Label::Absent);
    let remapped = Node::Remap { source: Box::new(join), targets: vec![Some(1), None, Some(0), None, Some(1)] };
    assert_eq!(remapped.columns(), 2);
    assert_eq!(remapped.column_label(0), Label::Qualified("people".to_string(), "age".to_string()));
    assert_eq!(remapped.column_label(1), Label::Qualified("q".to_string(), "pet".to_string()));
    let grouped = Node::Aggregate {
        source: Box::new(Node::Limit { source: Box::new(remapped), limit: 3 }),
        group_by: vec![column(1), constant(1)],
        aggregates: vec![Aggregate::Count(column(0))],
    };
    assert_eq!(grouped.columns(), 3);
    assert_eq!(grouped.column_label(0), Label::Qualified("q".to_string(), "pet".to_string()));
    assert_eq!(grouped.column_label(1), Label::Absent);
    assert_eq!(grouped.column_label(2), Label::Absent);
    let nothing = Node::Nothing { columns: vec![Label::Unqualified("a".to_string())] };
    assert_eq!(nothing.columns(), 1);
    assert_eq!(nothing.column_label(0), Label::Unqualified("a".to_string()));
    assert_eq!(nothing.column_label(0).clone(), Label::Unqualified("a".to_string()));
    let literal_rows = Node::Values { rows: vec![vec![constant(1), constant(2)]] };
    assert_eq!(literal_rows.columns(), 2);
    assert_eq!(literal_rows.column_label(0), Label::Absent);
    assert_eq!(Node::Values { rows: vec![] }.columns(), 0);
}

#[test]
fn a_limit_of_zero_does_not_lower_its_source() {
    let txn = populated();
    let mut missing = Table::builder();
    missing.name("missing");
    let failing = scan(missing.build());
    assert_eq!(execute(scan(Table::new("missing")), &txn), Err(Error::TableNotFound));
    assert_eq!(execute(Node::Limit { source: Box::new(failing), limit: 0 }, &txn), Ok(Rows::nothing()));
    let limited = Node::Limit { source: Box::new(scan(Table::new("missing"))), limit: 1 };
    assert_eq!(execute(limited, &txn), Err(Error::TableNotFound));
}

#[test]
fn limit_and_offset_cut_the_stream() {
    let mut txn = populated();
    let page = Node::Limit {
        source: Box::new(Node::Offset { source: Box::new(scan(people())), offset: 1 }),
        limit: 2,
    };
    assert_eq!(selected(&mut txn, page), vec![person(2, "bob", 25), person(3, "cyd", 41)]);
    let beyond = Node::Offset { source: Box::new(scan(people())), offset: 9 };
    assert_eq!(selected(&mut txn, beyond), vec![]);
}

#[test]
fn order_and_filter_compose() {
    let mut txn = populated();
    let root = Node::Order {
        source: Box::new(filtered(people(), op(BinaryOperator::GreaterThan, column(0), constant(1)))),
        key: vec![(column(2), Direction::Ascending), (column(0), Direction::Descending)],
    };
    assert_eq!(
        selected(&mut txn, root),
        vec![person(4, "dee", 25), person(2, "bob", 25), person(3, "cyd", 41)]
    );
}

#[test]
fn both_joins_run_from_plans() {
    let mut txn = populated();
    let by_hash = Node::HashJoin {
        left: Box::new(scan(people())),
        left_column: 0,
        right: Box::new(scan(pets())),
        right_column: 0,
        outer: true,
    };
    let by_loop = Node::NestedLoopJoin {
        left: Box::new(scan(people())),
        right: Box::new(scan(pets())),
        predicate: Some(op(BinaryOperator::Equal, column(0), column(3))),
        outer: true,
    };
    let expected = vec![
        Row::new(vec![num(1), text("ann"), num(30), Field::Null, Field::Null]),
        Row::new(vec![num(2), text("bob"), num(25), num(2), text("rex")]),
        Row::new(vec![num(2), text("bob"), num(25), num(2), text("kit")]),
        Row::new(vec![num(3), text("cyd"), num(41), Field::Null, Field::Null]),
        Row::new(vec![num(4), text("dee"), num(25), num(4), text("tom")]),
    ];
    assert_eq!(selected(&mut txn, by_hash), expected);
    assert_eq!(selected(&mut txn, by_loop), expected);
}

#[test]
fn joined_rows_have_no_identity() {
    let txn = populated();
    let join = Node::HashJoin {
        left: Box::new(scan(people())),
        left_column: 0,
        right: Box::new(scan(pets())),
        right_column: 0,
        outer: false,
    };
    let out = execute(join, &txn).unwrap();
    assert_eq!(out.len(), 3);
    for item in out.items {
        assert_eq!(item.unwrap().0, RecordId::invalid());
    }
}

#[test]
fn an_aggregate_runs_from_a_plan() {
    let mut txn = populated();
    let root = Node::Aggregate {
        source: Box::new(scan(people())),
        group_by: vec![column(2)],
        aggregates: vec![Aggregate::Count(column(0)), Aggregate::Max(column(1))],
    };
    let expected = vec![
        Row::new(vec![num(25), num(2), text("dee")]),
        Row::new(vec![num(30), num(1), text("ann")]),
        Row::new(vec![num(41), num(1), text("cyd")]),
    ];
    assert_eq!(selected(&mut txn, root), expected);
    let nothing_left = Node::Aggregate {
        source: Box::new(filtered(people(), Expression::Constant(Field::Boolean(false)))),
        group_by: vec![],
        aggregates: vec![Aggregate::Count(column(0)), Aggregate::Sum(column(0))],
    };
    assert_eq!(selected(&mut txn, nothing_left), vec![Row::new(vec![num(0), Field::Null])]);
}

#[test]
fn lookups_follow_the_order_of_their_values() {
    let mut txn = populated();
    let by_age = Node::IndexLookup {
        table: people(),
        column: 2,
        values: vec![num(41), num(99), num(25), num(41)],
        alias: None,
    };
    assert_eq!(
        selected(&mut txn, by_age),
        vec![person(3, "cyd", 41), person(2, "bob", 25), person(4, "dee", 25), person(3, "cyd", 41)]
    );
    let by_key = Node::KeyLookup { table: people(), keys: vec![num(4), num(0), num(1)], alias: None };
    assert_eq!(selected(&mut txn, by_key), vec![person(4, "dee", 25), person(1, "ann", 30)]);
    let by_name = Node::IndexLookup { table: people(), column: 1, values: vec![text("bob")], alias: None };
    assert_eq!(selected(&mut txn, by_name), vec![person(2, "bob", 25)]);
}

#[test]
fn lookups_without_values_look_nothing_up() {
    let txn = populated();
    let none = Node::KeyLookup { table: Table::new("missing"), keys: vec![], alias: None };
    assert_eq!(execute(none, &txn), Ok(Rows::nothing()));
    let some = Node::KeyLookup { table: Table::new("missing"), keys: vec![num(1)], alias: None };
    assert_eq!(execute(some, &txn), Err(Error::TableNotFound));
    let null_key = Node::KeyLookup { table: people(), keys: vec![Field::Null], alias: None };
    assert_eq!(execute(null_key, &txn), Ok(Rows::nothing()));
}

#[test]
fn literal_rows_and_nothing() {
    let txn = populated();
    assert_eq!(nothing(), Rows::nothing());
    let rows = vec![
        vec![constant(1), op(BinaryOperator::Add, constant(2), constant(3))],
        vec![op(BinaryOperator::Divide, constant(1), constant(0))],
        vec![column(0)],
        vec![],
    ];
    let expected: Vec<RowResult> = vec![
        Ok((RecordId::invalid(), Row::new(vec![num(1), num(5)]))),
        Err(Error::DivisionByZero),
        Err(Error::MissingRow),
        Ok((RecordId::invalid(), Row::new(vec![]))),
    ];
    assert_eq!(values(rows).items, expected);
    assert_eq!(execute(Node::Nothing { columns: vec![] }, &txn), Ok(Rows::nothing()));
    assert_eq!(Error::MissingRow.kind(), ErrorKind::InvalidInput);
}

#[test]
fn remap_and_projection_run_from_plans() {
    let mut txn = populated();
    let root = Node::Remap {
        source: Box::new(Node::Projection {
            source: Box::new(Node::Limit { source: Box::new(scan(people())), limit: 1 }),
            expressions: vec![column(2), column(0)],
            aliases: vec![],
        }),
        targets: vec![Some(2), Some(0)],
    };
    assert_eq!(selected(&mut txn, root), vec![Row::new(vec![num(1), Field::Null, num(30)])]);
}

#[test]
fn a_session_executes_plans_one_after_the_other() {
    let mut session = Local::new(Memory::new()).session();
    session.execute(Plan::CreateTable { schema: pets() }).unwrap();
    let source = Node::Values { rows: vec![literal(vec![num(1), text("rex")])] };
    session.execute(Plan::Insert { table: pets(), source }).unwrap();
    let local = session.end();
    let mut txn = local.begin().unwrap();
    assert_eq!(selected(&mut txn, scan(pets())), vec![Row::new(vec![num(1), text("rex")])]);
    let local = txn.commit();
    let txn = local.begin().unwrap();
    assert_eq!(rows_of(&txn, "pets").len(), 1);
}

#[test]
fn dropping_is_decided_by_what_the_catalog_said() {
    assert_eq!(drop_outcome("t".to_string(), false, false), Err(Error::TableNotFound));
    assert_eq!(
        drop_outcome("t".to_string(), true, false),
        Ok(ExecutionResult::DropTable { name: "t".to_string(), existed: false })
    );
    assert_eq!(
        drop_outcome("t".to_string(), false, true),
        Ok(ExecutionResult::DropTable { name: "t".to_string(), existed: true })
    );
    assert_eq!(
        drop_outcome("t".to_string(), true, true),
        Ok(ExecutionResult::DropTable { name: "t".to_string(), existed: true })
    );
    assert_eq!(Error::TableNotFound.kind(), ErrorKind::InvalidInput);
}

#[test]
fn creating_is_refused_where_a_table_is_there() {
    assert_eq!(create_guard(&Some(people())), Err(Error::TableExists));
    assert_eq!(create_guard(&None), Ok(()));
    assert_eq!(Error::TableExists.kind(), ErrorKind::InvalidInput);
}

#[test]
fn a_failure_of_the_store_is_handed_on_as_it_is() {
    assert_eq!(count_outcome(Ok(()), 7), Ok(7));
    assert_eq!(count_outcome(Err(Error::Storage), 7), Err(Error::Storage));
    assert_eq!(count_outcome(Err(Error::TableNotFound), 0), Err(Error::TableNotFound));
    let mut txn = populated();
    let ids = ids_of(&txn, "people");
    let source = Rows::new(vec![Ok((ids[0], person(1, "ann", 30)))]);
    assert_eq!(delete(&mut txn, "nowhere".to_string(), source.clone()), Err(Error::TableNotFound));
    assert_eq!(update(&mut txn, "nowhere".to_string(), source.clone(), vec![]), Err(Error::TableNotFound));
    assert_eq!(insert(&mut txn, Table::new("nowhere"), source), Err(Error::TableNotFound));
}
