use rustydb::common::Error;
use rustydb::sql::execution::transform::{filter, limit, offset, order, project, remap};
use rustydb::sql::planner::{BinaryOperator, Expression, UnaryOperator};
use rustydb::storage::page::RecordId;
use rustydb::storage::tuple::{Row, RowResult, Rows};
use rustydb::types::field::Field;
use rustydb::types::total_order::Direction;

fn num(i: i64) -> Field {
    Field::Integer(i)
}

fn item(slot: u16, values: Vec<i64>) -> RowResult {
    Ok((RecordId::new(0, slot), Row::new(values.into_iter().map(Field::Integer).collect())))
}

fn stream(rows: Vec<Vec<i64>>) -> Rows {
    Rows::new(rows.into_iter().enumerate().map(|(i, r)| item(i as u16, r)).collect())
}

fn column(i: usize) -> Expression {
    Expression::Column(i)
}

fn op(operator: BinaryOperator, l: Expression, r: Expression) -> Expression {
    Expression::Binary(operator, Box::new(l), Box::new(r))
}

fn greater_than(i: usize, n: i64) -> Expression {
    op(BinaryOperator::GreaterThan, column(i), Expression::Constant(num(n)))
}

fn slots(rows: &Rows) -> Vec<u16> {
    rows.items.iter().map(|r| r.as_ref().unwrap().0.slot_id).collect()
}

#[test]
fn filter_keeps_the_rows_where_the_predicate_is_true() {
    let out = filter(stream(vec![vec![1], vec![5], vec![3], vec![9]]), greater_than(0, 2));
    assert_eq!(out, Rows::new(vec![item(1, vec![5]), item(2, vec![3]), item(3, vec![9])]));
}

#[test]
fn filter_drops_false_and_null() {
    let source = Rows::new(vec![
        Ok((RecordId::new(0, 0), Row::new(vec![Field::Boolean(false)]))),
        Ok((RecordId::new(0, 1), Row::new(vec![Field::Null]))),
        Ok((RecordId::new(0, 2), Row::new(vec![Field::Boolean(true)]))),
    ]);
    let out = filter(source, column(0));
    assert_eq!(out, Rows::new(vec![Ok((RecordId::new(0, 2), Row::new(vec![Field::Boolean(true)])))]));
}

#[test]
fn filter_fails_on_a_predicate_that_is_not_boolean() {
    let out = filter(stream(vec![vec![1], vec![2]]), column(0));
    assert_eq!(out, Rows::new(vec![Err(Error::NonBooleanPredicate), Err(Error::NonBooleanPredicate)]));
}

#[test]
fn filter_passes_failures_on() {
    let source = Rows::new(vec![item(0, vec![7]), Err(Error::Storage), item(2, vec![1])]);
    let out = filter(source, greater_than(0, 2));
    assert_eq!(out, Rows::new(vec![item(0, vec![7]), Err(Error::Storage)]));
}

#[test]
fn filter_reports_the_failure_of_its_predicate() {
    let predicate = op(
        BinaryOperator::GreaterThan,
        op(BinaryOperator::Divide, Expression::Constant(num(10)), column(0)),
        Expression::Constant(num(2)),
    );
    let out = filter(stream(vec![vec![1], vec![0], vec![5]]), predicate);
    assert_eq!(out, Rows::new(vec![item(0, vec![1]), Err(Error::DivisionByZero)]));
    let short = filter(stream(vec![vec![1]]), greater_than(3, 0));
    assert_eq!(short, Rows::new(vec![Err(Error::ColumnOutOfRange)]));
}

#[test]
fn limit_lets_the_first_rows_through() {
    let rows = vec![vec![1], vec![2], vec![3]];
    assert_eq!(limit(stream(rows.clone()), 2), Rows::new(vec![item(0, vec![1]), item(1, vec![2])]));
    assert_eq!(limit(stream(rows.clone()), 3), stream(rows.clone()));
    assert_eq!(limit(stream(rows.clone()), 10), stream(rows.clone()));
    assert_eq!(limit(stream(rows.clone()), 0), Rows::nothing());
    assert_eq!(limit(Rows::nothing(), 4), Rows::nothing());
    assert_eq!(limit(stream(rows), usize::MAX).len(), 3);
}

#[test]
fn a_limit_after_a_limit_is_the_smaller_limit() {
    let rows: Vec<Vec<i64>> = (0..6).map(|i| vec![i]).collect();
    for n in 0..8 {
        for m in 0..8 {
            let twice = limit(limit(stream(rows.clone()), n), m);
            let once = limit(stream(rows.clone()), n.min(m));
            assert_eq!(twice, once);
        }
    }
}

#[test]
fn offset_skips_the_first_rows() {
    let rows: Vec<Vec<i64>> = (0..5).map(|i| vec![i * 10]).collect();
    for k in 0..8usize {
        let out = offset(stream(rows.clone()), k);
        assert_eq!(out.len(), 5usize.saturating_sub(k));
        let expected: Vec<u16> = (k as u16..5).collect();
        assert_eq!(slots(&out), expected);
    }
    assert_eq!(offset(stream(rows), usize::MAX), Rows::nothing());
    assert_eq!(offset(Rows::nothing(), 0), Rows::nothing());
}

#[test]
fn limit_and_offset_count_failures_as_items() {
    let source = || Rows::new(vec![Err(Error::Storage), item(1, vec![1]), item(2, vec![2])]);
    assert_eq!(limit(source(), 1), Rows::new(vec![Err(Error::Storage)]));
    assert_eq!(offset(source(), 1), Rows::new(vec![item(1, vec![1]), item(2, vec![2])]));
}

#[test]
fn project_evaluates_each_expression_on_each_row() {
    let expressions = vec![
        column(1),
        op(BinaryOperator::Add, column(0), column(1)),
        Expression::Constant(Field::Text("k".to_string())),
    ];
    let out = project(stream(vec![vec![1, 2], vec![10, 20]]), expressions);
    let expected = Rows::new(vec![
        Ok((RecordId::new(0, 0), Row::new(vec![num(2), num(3), Field::Text("k".to_string())]))),
        Ok((RecordId::new(0, 1), Row::new(vec![num(20), num(30), Field::Text("k".to_string())]))),
    ]);
    assert_eq!(out, expected);
}

#[test]
fn project_turns_a_failing_row_into_a_failure() {
    let expressions = vec![column(0), op(BinaryOperator::Divide, column(0), column(1))];
    let source = Rows::new(vec![item(0, vec![8, 2]), item(1, vec![8, 0]), Err(Error::Storage)]);
    let out = project(source, expressions);
    assert_eq!(
        out,
        Rows::new(vec![item(0, vec![8, 4]), Err(Error::DivisionByZero), Err(Error::Storage)])
    );
    assert_eq!(project(stream(vec![vec![1]]), vec![]), Rows::new(vec![item(0, vec![])]));
}

#[test]
fn remap_moves_and_drops_columns() {
    let out = remap(stream(vec![vec![1, 2, 3]]), vec![Some(2), None, Some(0)]);
    assert_eq!(
        out,
        Rows::new(vec![Ok((RecordId::new(0, 0), Row::new(vec![num(3), Field::Null, num(1)])))])
    );
}

#[test]
fn remap_fills_unused_targets_with_null() {
    let out = remap(stream(vec![vec![7, 8]]), vec![Some(3), None]);
    assert_eq!(
        out,
        Rows::new(vec![Ok((
            RecordId::new(0, 0),
            Row::new(vec![Field::Null, Field::Null, Field::Null, num(7)])
        ))])
    );
}

#[test]
fn remap_without_targets_gives_empty_rows() {
    let out = remap(stream(vec![vec![7, 8], vec![9, 9]]), vec![None, None]);
    assert_eq!(out, Rows::new(vec![item(0, vec![]), item(1, vec![])]));
    let none = remap(stream(vec![vec![7]]), vec![]);
    assert_eq!(none, Rows::new(vec![item(0, vec![])]));
}

#[test]
fn remap_lets_the_later_column_win_and_ignores_extra_ones() {
    let twice = remap(stream(vec![vec![1, 2]]), vec![Some(0), Some(0)]);
    assert_eq!(twice, Rows::new(vec![item(0, vec![2])]));
    let short_targets = remap(stream(vec![vec![1, 2, 3]]), vec![Some(1)]);
    assert_eq!(
        short_targets,
        Rows::new(vec![Ok((RecordId::new(0, 0), Row::new(vec![Field::Null, num(1)])))])
    );
    let short_row = remap(stream(vec![vec![1]]), vec![Some(0), Some(2)]);
    assert_eq!(
        short_row,
        Rows::new(vec![Ok((RecordId::new(0, 0), Row::new(vec![num(1), Field::Null, Field::Null])))])
    );
    let failing = remap(Rows::new(vec![Err(Error::Storage)]), vec![Some(0)]);
    assert_eq!(failing, Rows::new(vec![Err(Error::Storage)]));
}

#[test]
fn order_by_first_ascending_then_second_descending() {
    let key = vec![(column(0), Direction::Ascending), (column(1), Direction::Descending)];
    let out = order(stream(vec![vec![1, 2], vec![1, 1], vec![2, 0]]), key).unwrap();
    assert_eq!(out, Rows::new(vec![item(0, vec![1, 2]), item(1, vec![1, 1]), item(2, vec![2, 0])]));
}

#[test]
fn order_sorts_by_each_key_in_its_direction() {
    let rows = vec![vec![2, 1], vec![1, 1], vec![2, 3], vec![1, 2], vec![3, 0]];
    let key = vec![(column(0), Direction::Descending), (column(1), Direction::Ascending)];
    let out = order(stream(rows.clone()), key).unwrap();
    assert_eq!(slots(&out), vec![4, 0, 2, 1, 3]);
    let ascending = order(stream(rows), vec![(column(0), Direction::Ascending)]).unwrap();
    assert_eq!(slots(&ascending), vec![1, 3, 0, 2, 4]);
}

#[test]
fn order_is_stable() {
    let rows = vec![vec![5, 0], vec![5, 1], vec![4, 2], vec![5, 3], vec![4, 4]];
    let up = order(stream(rows.clone()), vec![(column(0), Direction::Ascending)]).unwrap();
    assert_eq!(slots(&up), vec![2, 4, 0, 1, 3]);
    let down = order(stream(rows.clone()), vec![(column(0), Direction::Descending)]).unwrap();
    assert_eq!(slots(&down), vec![0, 1, 3, 2, 4]);
    let unkeyed = order(stream(rows), vec![]).unwrap();
    assert_eq!(slots(&unkeyed), vec![0, 1, 2, 3, 4]);
}

#[test]
fn order_puts_null_first_when_ascending() {
    let source = Rows::new(vec![
        Ok((RecordId::new(0, 0), Row::new(vec![num(3)]))),
        Ok((RecordId::new(0, 1), Row::new(vec![Field::Null]))),
        Ok((RecordId::new(0, 2), Row::new(vec![num(-3)]))),
    ]);
    let out = order(source.clone(), vec![(column(0), Direction::Ascending)]).unwrap();
    assert_eq!(slots(&out), vec![1, 2, 0]);
    let down = order(source, vec![(column(0), Direction::Descending)]).unwrap();
    assert_eq!(slots(&down), vec![0, 2, 1]);
}

#[test]
fn order_sorts_by_the_value_of_an_expression() {
    let negated = op(BinaryOperator::Add, column(0), column(1));
    let out = order(stream(vec![vec![5, 5], vec![1, 2], vec![4, 0]]), vec![(negated, Direction::Ascending)])
        .unwrap();
    assert_eq!(slots(&out), vec![1, 2, 0]);
}

#[test]
fn order_agrees_with_a_stable_sort() {
    let mut rows: Vec<Vec<i64>> = Vec::new();
    let mut seed: i64 = 12345;
    for _ in 0..40 {
        seed = (seed * 1103515245 + 12345) % 2147483648;
        let a = seed % 5;
        seed = (seed * 1103515245 + 12345) % 2147483648;
        let b = seed % 3;
        rows.push(vec![a, b]);
    }
    let key = vec![(column(0), Direction::Ascending), (column(1), Direction::Descending)];
    let out = order(stream(rows.clone()), key).unwrap();
    let mut expected: Vec<(u16, Vec<i64>)> = Vec::new();
    for (i, r) in rows.into_iter().enumerate() {
        expected.push((u16::try_from(i).unwrap(), r));
    }
    expected.sort_by_key(|(_, x)| (x[0], -x[1]));
    let expected_slots: Vec<u16> = expected.iter().map(|(i, _)| *i).collect();
    assert_eq!(slots(&out), expected_slots);
}

#[test]
fn order_fails_with_the_first_failure_of_the_source() {
    let source = Rows::new(vec![item(0, vec![1]), Err(Error::Storage), Err(Error::Overflow)]);
    let failing_key = op(BinaryOperator::Divide, column(0), Expression::Constant(num(0)));
    assert_eq!(order(source, vec![(failing_key, Direction::Ascending)]), Err(Error::Storage));
}

#[test]
fn order_fails_with_the_first_failing_key() {
    let key = vec![
        (column(0), Direction::Ascending),
        (op(BinaryOperator::Divide, Expression::Constant(num(1)), column(1)), Direction::Ascending),
    ];
    let out = order(stream(vec![vec![1, 1], vec![2, 0], vec![3]]), key);
    assert_eq!(out, Err(Error::DivisionByZero));
    let not = Expression::Unary(UnaryOperator::Not, Box::new(column(0)));
    assert_eq!(
        order(stream(vec![vec![1]]), vec![(not, Direction::Ascending)]),
        Err(Error::TypeMismatch)
    );
    assert_eq!(order(Rows::nothing(), vec![(column(0), Direction::Ascending)]), Ok(Rows::nothing()));
}
