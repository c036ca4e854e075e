use rustydb::common::Error;
use rustydb::sql::execution::join::{hash, nested_loop};
use rustydb::sql::planner::{BinaryOperator, Expression};
use rustydb::storage::page::RecordId;
use rustydb::storage::tuple::{Row, RowResult, Rows};
use rustydb::types::field::Field;

fn num(i: i64) -> Field {
    Field::Integer(i)
}

fn fields(values: Vec<Option<i64>>) -> Vec<Field> {
    values
        .into_iter()
        .map(|v| match v {
            Some(i) => Field::Integer(i),
            None => Field::Null,
        })
        .collect()
}

fn stored(slot: u16, values: Vec<Option<i64>>) -> RowResult {
    Ok((RecordId::new(3, slot), Row::new(fields(values))))
}

fn joined(values: Vec<Option<i64>>) -> RowResult {
    Ok((RecordId::invalid(), Row::new(fields(values))))
}

fn stream(rows: Vec<Vec<Option<i64>>>) -> Rows {
    let mut items = Vec::new();
    let mut slot = 0;
    for r in rows {
        items.push(stored(slot, r));
        slot += 1;
    }
    Rows::new(items)
}

fn equal_columns(l: usize, r: usize) -> Expression {
    Expression::Binary(
        BinaryOperator::Equal,
        Box::new(Expression::Column(l)),
        Box::new(Expression::Column(r)),
    )
}

fn left_side() -> Rows {
    stream(vec![
        vec![Some(1), Some(10)],
        vec![Some(2), Some(20)],
        vec![Some(3), Some(30)],
        vec![None, Some(40)],
    ])
}

fn right_side() -> Rows {
    stream(vec![
        vec![Some(100), Some(2)],
        vec![Some(200), Some(1)],
        vec![Some(300), Some(2)],
        vec![Some(400), None],
        vec![Some(500), Some(9)],
    ])
}

#[test]
fn nested_loop_joins_the_pairs_that_the_predicate_accepts() {
    let out = nested_loop(left_side(), right_side(), 2, Some(equal_columns(0, 3)), false).unwrap();
    let expected = Rows::new(vec![
        joined(vec![Some(1), Some(10), Some(200), Some(1)]),
        joined(vec![Some(2), Some(20), Some(100), Some(2)]),
        joined(vec![Some(2), Some(20), Some(300), Some(2)]),
    ]);
    assert_eq!(out, expected);
}

#[test]
fn nested_loop_outer_pads_each_unmatched_left_row_once() {
    let out = nested_loop(left_side(), right_side(), 2, Some(equal_columns(0, 3)), true).unwrap();
    let expected = Rows::new(vec![
        joined(vec![Some(1), Some(10), Some(200), Some(1)]),
        joined(vec![Some(2), Some(20), Some(100), Some(2)]),
        joined(vec![Some(2), Some(20), Some(300), Some(2)]),
        joined(vec![Some(3), Some(30), None, None]),
        joined(vec![None, Some(40), None, None]),
    ]);
    assert_eq!(out, expected);
}

#[test]
fn nested_loop_without_predicate_is_the_product() {
    let left = stream(vec![vec![Some(1)], vec![Some(2)]]);
    let right = stream(vec![vec![Some(7)], vec![Some(8)], vec![Some(9)]]);
    let out = nested_loop(left, right, 1, None, true).unwrap();
    let expected = Rows::new(vec![
        joined(vec![Some(1), Some(7)]),
        joined(vec![Some(1), Some(8)]),
        joined(vec![Some(1), Some(9)]),
        joined(vec![Some(2), Some(7)]),
        joined(vec![Some(2), Some(8)]),
        joined(vec![Some(2), Some(9)]),
    ]);
    assert_eq!(out, expected);
}

#[test]
fn nested_loop_with_an_empty_side() {
    let none = nested_loop(Rows::nothing(), right_side(), 2, None, true).unwrap();
    assert_eq!(none, Rows::nothing());
    let inner = nested_loop(left_side(), Rows::nothing(), 2, None, false).unwrap();
    assert_eq!(inner, Rows::nothing());
    let outer = nested_loop(stream(vec![vec![Some(1)]]), Rows::nothing(), 3, None, true).unwrap();
    assert_eq!(outer, Rows::new(vec![joined(vec![Some(1), None, None, None])]));
}

#[test]
fn nested_loop_reports_a_predicate_that_is_not_boolean() {
    let left = stream(vec![vec![Some(1)]]);
    let right = stream(vec![vec![Some(2)]]);
    let out = nested_loop(left, right, 1, Some(Expression::Column(1)), true).unwrap();
    assert_eq!(
        out,
        Rows::new(vec![Err(Error::NonBooleanPredicate), joined(vec![Some(1), None])])
    );
}

#[test]
fn nested_loop_passes_failures_of_both_sides_on() {
    let left = Rows::new(vec![stored(0, vec![Some(1)]), Err(Error::Storage)]);
    let right = Rows::new(vec![Err(Error::Overflow), stored(1, vec![Some(1)])]);
    let out = nested_loop(left, right, 1, Some(equal_columns(0, 1)), false).unwrap();
    assert_eq!(
        out,
        Rows::new(vec![Err(Error::Overflow), joined(vec![Some(1), Some(1)]), Err(Error::Storage)])
    );
}

#[test]
fn nested_loop_reports_a_failing_predicate() {
    let left = stream(vec![vec![Some(1)]]);
    let right = stream(vec![vec![Some(2)]]);
    let out = nested_loop(left, right, 1, Some(equal_columns(0, 5)), false).unwrap();
    assert_eq!(out, Rows::new(vec![Err(Error::ColumnOutOfRange)]));
}

#[test]
fn hash_join_matches_equal_keys_in_right_order() {
    let out = hash(left_side(), 0, right_side(), 1, 2, false).unwrap();
    let expected = Rows::new(vec![
        joined(vec![Some(1), Some(10), Some(200), Some(1)]),
        joined(vec![Some(2), Some(20), Some(100), Some(2)]),
        joined(vec![Some(2), Some(20), Some(300), Some(2)]),
    ]);
    assert_eq!(out, expected);
}

#[test]
fn hash_join_outer_pads_each_unmatched_left_row_once() {
    let out = hash(left_side(), 0, right_side(), 1, 2, true).unwrap();
    let expected = Rows::new(vec![
        joined(vec![Some(1), Some(10), Some(200), Some(1)]),
        joined(vec![Some(2), Some(20), Some(100), Some(2)]),
        joined(vec![Some(2), Some(20), Some(300), Some(2)]),
        joined(vec![Some(3), Some(30), None, None]),
        joined(vec![None, Some(40), None, None]),
    ]);
    assert_eq!(out, expected);
}

#[test]
fn hash_join_never_matches_null_keys() {
    let left = stream(vec![vec![None], vec![Some(1)]]);
    let right = stream(vec![vec![None], vec![None], vec![Some(1)]]);
    let inner = hash(left.clone(), 0, right.clone(), 0, 1, false).unwrap();
    assert_eq!(inner, Rows::new(vec![joined(vec![Some(1), Some(1)])]));
    let outer = hash(left, 0, right, 0, 1, true).unwrap();
    assert_eq!(outer, Rows::new(vec![joined(vec![None, None]), joined(vec![Some(1), Some(1)])]));
}

#[test]
fn hash_join_never_matches_nan_and_joins_the_two_zeros() {
    let float = |x: f64| Field::Float(x.to_bits());
    let side = |values: Vec<f64>| {
        Rows::new(
            values
                .into_iter()
                .map(|x| Ok((RecordId::new(0, 0), Row::new(vec![float(x)]))))
                .collect(),
        )
    };
    let out = hash(side(vec![f64::NAN, 0.0, 2.5]), 0, side(vec![f64::NAN, -0.0, 2.5, 0.0]), 0, 1, false)
        .unwrap();
    let pair = |a: f64, b: f64| -> RowResult { Ok((RecordId::invalid(), Row::new(vec![float(a), float(b)]))) };
    assert_eq!(out, Rows::new(vec![pair(0.0, -0.0), pair(0.0, 0.0), pair(2.5, 2.5)]));
}

#[test]
fn hash_join_pairs_one_left_row_with_every_match() {
    let left = stream(vec![vec![Some(5), Some(0)]]);
    let right = stream(vec![vec![Some(5), Some(1)], vec![Some(5), Some(2)], vec![Some(5), Some(3)]]);
    let out = hash(left, 0, right, 0, 2, false).unwrap();
    let expected = Rows::new(vec![
        joined(vec![Some(5), Some(0), Some(5), Some(1)]),
        joined(vec![Some(5), Some(0), Some(5), Some(2)]),
        joined(vec![Some(5), Some(0), Some(5), Some(3)]),
    ]);
    assert_eq!(out, expected);
}

#[test]
fn hash_join_keys_of_different_types_do_not_match() {
    let left = Rows::new(vec![Ok((RecordId::new(0, 0), Row::new(vec![Field::Text("1".to_string())])))]);
    let right = stream(vec![vec![Some(1)]]);
    let out = hash(left, 0, right, 0, 1, true).unwrap();
    assert_eq!(
        out,
        Rows::new(vec![Ok((RecordId::invalid(), Row::new(vec![Field::Text("1".to_string()), Field::Null])))])
    );
}

#[test]
fn hash_join_fails_with_the_first_failure_of_the_right_side() {
    let right = Rows::new(vec![stored(0, vec![Some(1)]), Err(Error::Storage), Err(Error::Overflow)]);
    assert_eq!(hash(left_side(), 0, right, 0, 1, false), Err(Error::Storage));
    let short = stream(vec![vec![Some(1), Some(2)], vec![Some(1)]]);
    assert_eq!(hash(left_side(), 0, short, 1, 2, false), Err(Error::ColumnOutOfRange));
    let both = Rows::new(vec![stored(0, vec![]), Err(Error::Storage)]);
    assert_eq!(hash(left_side(), 0, both, 0, 1, true), Err(Error::ColumnOutOfRange));
}

#[test]
fn hash_join_passes_failures_of_the_left_side_on() {
    let left = Rows::new(vec![Err(Error::Storage), stored(1, vec![Some(2)]), stored(2, vec![])]);
    let right = stream(vec![vec![Some(2)]]);
    let out = hash(left, 0, right, 0, 1, true).unwrap();
    assert_eq!(
        out,
        Rows::new(vec![Err(Error::Storage), joined(vec![Some(2), Some(2)]), Err(Error::ColumnOutOfRange)])
    );
}

#[test]
fn hash_join_with_an_empty_side() {
    assert_eq!(hash(Rows::nothing(), 0, right_side(), 1, 2, true), Ok(Rows::nothing()));
    assert_eq!(hash(left_side(), 0, Rows::nothing(), 1, 2, false), Ok(Rows::nothing()));
    let outer = hash(stream(vec![vec![Some(1)]]), 0, Rows::nothing(), 0, 2, true).unwrap();
    assert_eq!(outer, Rows::new(vec![joined(vec![Some(1), None, None])]));
}

#[test]
fn the_two_join_strategies_agree() {
    let mut seed: i64 = 99;
    let mut next = |modulus: i64| {
        seed = (seed * 1103515245 + 12345) % 2147483648;
        seed % modulus
    };
    for outer in [false, true] {
        for _ in 0..20 {
            let mut left = Vec::new();
            let mut right = Vec::new();
            for _ in 0..next(7) {
                let key = next(5);
                left.push(vec![if key == 4 { None } else { Some(key) }, Some(next(100))]);
            }
            for _ in 0..next(7) {
                let key = next(5);
                right.push(vec![Some(next(100)), Some(next(100)), if key == 4 { None } else { Some(key) }]);
            }
            let by_hash = hash(stream(left.clone()), 0, stream(right.clone()), 2, 3, outer).unwrap();
            let by_loop =
                nested_loop(stream(left), stream(right), 3, Some(equal_columns(0, 2 + 2)), outer).unwrap();
            assert_eq!(by_hash, by_loop);
        }
    }
}
