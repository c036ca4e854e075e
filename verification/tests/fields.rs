use rustydb::common::{Error, ErrorKind};
use rustydb::sql::planner::{binary, evaluate_all, unary, BinaryOperator, Expression, UnaryOperator};
use rustydb::storage::page::RecordId;
use rustydb::storage::tuple::{clone_item, Row, RowResult, Rows};
use rustydb::types::field::{compare_byte_slices, Field, Relation};
use rustydb::types::schema::DataType;
use rustydb::types::total_order::{compare_key_vectors, Direction};

fn integer(i: i64) -> Field {
    Field::Integer(i)
}

fn text(s: &str) -> Field {
    Field::Text(s.to_string())
}

fn float(x: f64) -> Field {
    Field::Float(x.to_bits())
}

fn column(i: usize) -> Expression {
    Expression::Column(i)
}

fn constant(f: Field) -> Expression {
    Expression::Constant(f)
}

fn op(operator: BinaryOperator, l: Expression, r: Expression) -> Expression {
    Expression::Binary(operator, Box::new(l), Box::new(r))
}

#[test]
fn relation_reverses() {
    assert_eq!(Relation::Less.reverse(), Relation::Greater);
    assert_eq!(Relation::Equal.reverse(), Relation::Equal);
    assert_eq!(Relation::Greater.reverse(), Relation::Less);
}

#[test]
fn types_are_ordered_null_first() {
    let values = vec![Field::Null, Field::Boolean(true), integer(-5), float(-1.0), text("")];
    for i in 0..values.len() {
        for j in 0..values.len() {
            let expected = if i < j {
                Relation::Less
            } else if i == j {
                Relation::Equal
            } else {
                Relation::Greater
            };
            assert_eq!(values[i].compare(&values[j]), expected);
        }
    }
}

#[test]
fn booleans_and_integers_are_ordered_by_value() {
    assert_eq!(Field::Boolean(false).compare(&Field::Boolean(true)), Relation::Less);
    assert_eq!(Field::Boolean(true).compare(&Field::Boolean(true)), Relation::Equal);
    assert_eq!(integer(i64::MIN).compare(&integer(i64::MAX)), Relation::Less);
    assert_eq!(integer(7).compare(&integer(7)), Relation::Equal);
    assert_eq!(integer(8).compare(&integer(7)), Relation::Greater);
}

#[test]
fn floats_follow_the_total_order() {
    assert_eq!(float(-1.5).compare(&float(2.0)), Relation::Less);
    assert_eq!(float(-2.0).compare(&float(-1.0)), Relation::Less);
    assert_eq!(float(3.25).compare(&float(3.25)), Relation::Equal);
    assert_eq!(float(-0.0).compare(&float(0.0)), Relation::Less);
    assert_eq!(float(f64::INFINITY).compare(&float(f64::NAN)), Relation::Less);
    assert_eq!(float(f64::NEG_INFINITY).compare(&float(-1.0e300)), Relation::Less);
    for (a, b) in [(-1.5, 2.0), (0.5, 0.25), (-3.0, -3.5), (1e10, 1e-10)] {
        let expected = match f64::total_cmp(&a, &b) {
            std::cmp::Ordering::Less => Relation::Less,
            std::cmp::Ordering::Equal => Relation::Equal,
            std::cmp::Ordering::Greater => Relation::Greater,
        };
        assert_eq!(float(a).compare(&float(b)), expected);
    }
}

#[test]
fn text_is_ordered_by_its_bytes() {
    assert_eq!(text("a").compare(&text("b")), Relation::Less);
    assert_eq!(text("a").compare(&text("ab")), Relation::Less);
    assert_eq!(text("Z").compare(&text("a")), Relation::Less);
    assert_eq!(text("z").compare(&text("é")), Relation::Less);
    assert_eq!(text("same").compare(&text("same")), Relation::Equal);
    assert_eq!(text("b").compare(&text("abc")), Relation::Greater);
    assert_eq!(compare_byte_slices(b"", b""), Relation::Equal);
    assert_eq!(compare_byte_slices(b"", b"x"), Relation::Less);
    assert_eq!(compare_byte_slices(b"xy", b"x"), Relation::Greater);
}

#[test]
fn null_and_nan_are_undefined() {
    assert!(Field::Null.is_undefined());
    assert!(float(f64::NAN).is_undefined());
    assert!(!float(1.0).is_undefined());
    assert!(!float(f64::INFINITY).is_undefined());
    assert!(!integer(0).is_undefined());
    assert!(Field::Null.is_null());
    assert!(!integer(0).is_null());
}

#[test]
fn matching_is_equality_of_defined_values() {
    assert!(integer(3).matches(&integer(3)));
    assert!(!integer(3).matches(&integer(4)));
    assert!(!Field::Null.matches(&Field::Null));
    assert!(!float(f64::NAN).matches(&float(f64::NAN)));
    assert!(float(0.0).matches(&float(-0.0)));
    assert!(float(2.5).matches(&float(2.5)));
    assert!(!integer(1).matches(&text("1")));
    assert!(text("x").matches(&text("x")));
}

#[test]
fn sameness_is_by_content() {
    assert!(Field::Null.same(&Field::Null));
    assert!(text("ab").same(&text("ab")));
    assert!(!text("ab").same(&text("ac")));
    assert!(!float(0.0).same(&float(-0.0)));
    assert!(!integer(1).same(&Field::Boolean(true)));
    assert_eq!(text("copy").clone(), text("copy"));
}

#[test]
fn checked_addition() {
    assert_eq!(integer(1).checked_add(&integer(2)), Ok(integer(3)));
    assert_eq!(integer(-7).checked_add(&integer(7)), Ok(integer(0)));
    assert_eq!(integer(i64::MAX).checked_add(&integer(1)), Err(Error::Overflow));
    assert_eq!(integer(i64::MIN).checked_add(&integer(-1)), Err(Error::Overflow));
    assert_eq!(integer(1).checked_add(&Field::Null), Ok(Field::Null));
    assert_eq!(Field::Null.checked_add(&integer(1)), Ok(Field::Null));
    assert_eq!(Field::Null.checked_add(&Field::Null), Ok(Field::Null));
    assert_eq!(Field::Null.checked_add(&float(1.0)), Ok(Field::Null));
    assert_eq!(integer(1).checked_add(&text("1")), Err(Error::TypeMismatch));
    assert_eq!(float(1.0).checked_add(&float(1.0)), Err(Error::TypeMismatch));
    assert_eq!(Field::Boolean(true).checked_add(&Field::Null), Err(Error::TypeMismatch));
}

#[test]
fn checked_division() {
    assert_eq!(integer(7).checked_div(&integer(2)), Ok(integer(3)));
    assert_eq!(integer(-7).checked_div(&integer(2)), Ok(integer(-3)));
    assert_eq!(integer(7).checked_div(&integer(-2)), Ok(integer(-3)));
    assert_eq!(integer(-7).checked_div(&integer(-2)), Ok(integer(3)));
    assert_eq!(integer(0).checked_div(&integer(5)), Ok(integer(0)));
    assert_eq!(integer(1).checked_div(&integer(0)), Err(Error::DivisionByZero));
    assert_eq!(integer(i64::MIN).checked_div(&integer(-1)), Err(Error::Overflow));
    assert_eq!(Field::Null.checked_div(&integer(2)), Ok(Field::Null));
    assert_eq!(integer(2).checked_div(&Field::Null), Ok(Field::Null));
    assert_eq!(text("a").checked_div(&integer(2)), Err(Error::TypeMismatch));
}

#[test]
fn values_know_their_type() {
    assert_eq!(Field::Null.get_type(), DataType::Invalid);
    assert_eq!(Field::Boolean(true).get_type(), DataType::Bool);
    assert_eq!(integer(1).get_type(), DataType::Int);
    assert_eq!(float(1.0).get_type(), DataType::Float);
    assert_eq!(text("").get_type(), DataType::Text);
}

#[test]
fn errors_fall_into_three_kinds() {
    assert_eq!(Error::NonBooleanPredicate.kind(), ErrorKind::InvalidInput);
    assert_eq!(Error::TypeMismatch.kind(), ErrorKind::InvalidInput);
    assert_eq!(Error::ColumnOutOfRange.kind(), ErrorKind::InvalidInput);
    assert_eq!(Error::MissingRow.kind(), ErrorKind::InvalidInput);
    assert_eq!(Error::TableExists.kind(), ErrorKind::InvalidInput);
    assert_eq!(Error::TableNotFound.kind(), ErrorKind::InvalidInput);
    assert_eq!(Error::Overflow.kind(), ErrorKind::Evaluation);
    assert_eq!(Error::DivisionByZero.kind(), ErrorKind::Evaluation);
    assert_eq!(Error::Storage.kind(), ErrorKind::Storage);
}

#[test]
fn key_vectors_compare_position_by_position() {
    let none: Vec<Direction> = vec![];
    assert_eq!(compare_key_vectors(&vec![integer(1), integer(2)], &vec![integer(1), integer(3)], &none), Relation::Less);
    assert_eq!(compare_key_vectors(&vec![integer(2), integer(0)], &vec![integer(1), integer(3)], &none), Relation::Greater);
    assert_eq!(compare_key_vectors(&vec![integer(1)], &vec![integer(1), integer(3)], &none), Relation::Less);
    assert_eq!(compare_key_vectors(&vec![], &vec![], &none), Relation::Equal);
    assert_eq!(compare_key_vectors(&vec![integer(1), integer(3)], &vec![integer(1)], &none), Relation::Greater);
}

#[test]
fn a_descending_key_reverses_only_itself() {
    let directions = vec![Direction::Ascending, Direction::Descending];
    assert_eq!(
        compare_key_vectors(&vec![integer(1), integer(2)], &vec![integer(1), integer(1)], &directions),
        Relation::Less
    );
    assert_eq!(
        compare_key_vectors(&vec![integer(1), integer(2)], &vec![integer(2), integer(9)], &directions),
        Relation::Less
    );
    assert_eq!(
        compare_key_vectors(&vec![integer(1), integer(2)], &vec![integer(1), integer(2)], &directions),
        Relation::Equal
    );
    let down = vec![Direction::Descending];
    assert_eq!(compare_key_vectors(&vec![integer(1)], &vec![integer(2)], &down), Relation::Greater);
    assert_eq!(compare_key_vectors(&vec![Field::Null], &vec![integer(2)], &down), Relation::Greater);
}

#[test]
fn record_identities() {
    assert!(!RecordId::invalid().is_valid());
    assert_eq!(RecordId::invalid(), RecordId::new(u32::MAX, u16::MAX));
    assert!(RecordId::new(0, 0).is_valid());
    assert!(RecordId::new(u32::MAX, 0).is_valid());
    assert!(RecordId::new(0, 5).precedes(&RecordId::new(0, 6)));
    assert!(RecordId::new(0, 9).precedes(&RecordId::new(1, 0)));
    assert!(!RecordId::new(1, 0).precedes(&RecordId::new(0, 9)));
    assert!(!RecordId::new(1, 1).precedes(&RecordId::new(1, 1)));
}

#[test]
fn rows_are_read_by_position() {
    let row = Row::new(vec![integer(1), text("x")]);
    assert_eq!(row.len(), 2);
    assert_eq!(row.get_field(1), Ok(&text("x")));
    assert_eq!(row.get_field(2), Err(Error::ColumnOutOfRange));
    assert_eq!(Row::new(vec![]).get_field(0), Err(Error::ColumnOutOfRange));
}

#[test]
fn rows_are_updated_in_place() {
    let mut row = Row::new(vec![integer(1), text("x")]);
    assert_eq!(row.update_field(0, integer(9)), Ok(()));
    assert_eq!(row, Row::new(vec![integer(9), text("x")]));
    assert_eq!(row.update_field(2, integer(0)), Err(Error::ColumnOutOfRange));
    assert_eq!(row, Row::new(vec![integer(9), text("x")]));
}

#[test]
fn rows_concatenate_and_slice() {
    let left = Row::new(vec![integer(1), integer(2)]);
    let right = Row::new(vec![text("a")]);
    assert_eq!(left.concat(&right), Row::new(vec![integer(1), integer(2), text("a")]));
    assert_eq!(left.concat(&Row::new(vec![])), left);
    assert_eq!(left.concat(&right).slice(1, 3), Row::new(vec![integer(2), text("a")]));
    assert_eq!(left.slice(1, 1), Row::new(vec![]));
    assert_eq!(Row::nulls(3), Row::new(vec![Field::Null, Field::Null, Field::Null]));
    assert_eq!(Row::nulls(0), Row::new(vec![]));
    assert_eq!(left.clone(), left);
}

#[test]
fn streams_hold_their_items() {
    let items: Vec<RowResult> = vec![
        Ok((RecordId::new(0, 1), Row::new(vec![integer(1)]))),
        Err(Error::Storage),
    ];
    let rows = Rows::new(items);
    assert_eq!(rows.len(), 2);
    assert_eq!(rows.clone(), rows);
    assert_eq!(clone_item(&rows.items[0]), Ok((RecordId::new(0, 1), Row::new(vec![integer(1)]))));
    assert_eq!(rows.into_vec().len(), 2);
    assert_eq!(Rows::nothing().len(), 0);
}

#[test]
fn constants_and_columns_evaluate() {
    let row = Row::new(vec![integer(4), text("t")]);
    assert_eq!(constant(integer(9)).evaluate(Some(&row)), Ok(integer(9)));
    assert_eq!(constant(integer(9)).evaluate(None), Ok(integer(9)));
    assert_eq!(column(1).evaluate(Some(&row)), Ok(text("t")));
    assert_eq!(column(2).evaluate(Some(&row)), Err(Error::ColumnOutOfRange));
    assert_eq!(column(0).evaluate(None), Err(Error::MissingRow));
}

#[test]
fn logic_is_three_valued() {
    let t = Field::Boolean(true);
    let f = Field::Boolean(false);
    let n = Field::Null;
    assert_eq!(binary(BinaryOperator::And, &t, &t), Ok(Field::Boolean(true)));
    assert_eq!(binary(BinaryOperator::And, &t, &f), Ok(Field::Boolean(false)));
    assert_eq!(binary(BinaryOperator::And, &f, &n), Ok(Field::Boolean(false)));
    assert_eq!(binary(BinaryOperator::And, &n, &f), Ok(Field::Boolean(false)));
    assert_eq!(binary(BinaryOperator::And, &t, &n), Ok(Field::Null));
    assert_eq!(binary(BinaryOperator::And, &n, &n), Ok(Field::Null));
    assert_eq!(binary(BinaryOperator::And, &t, &integer(1)), Err(Error::TypeMismatch));
    assert_eq!(binary(BinaryOperator::Or, &f, &f), Ok(Field::Boolean(false)));
    assert_eq!(binary(BinaryOperator::Or, &f, &t), Ok(Field::Boolean(true)));
    assert_eq!(binary(BinaryOperator::Or, &t, &n), Ok(Field::Boolean(true)));
    assert_eq!(binary(BinaryOperator::Or, &n, &t), Ok(Field::Boolean(true)));
    assert_eq!(binary(BinaryOperator::Or, &f, &n), Ok(Field::Null));
    assert_eq!(binary(BinaryOperator::Or, &n, &n), Ok(Field::Null));
    assert_eq!(binary(BinaryOperator::Or, &text("x"), &n), Err(Error::TypeMismatch));
    assert_eq!(unary(UnaryOperator::Not, &t), Ok(Field::Boolean(false)));
    assert_eq!(unary(UnaryOperator::Not, &n), Ok(Field::Null));
    assert_eq!(unary(UnaryOperator::Not, &integer(0)), Err(Error::TypeMismatch));
    assert_eq!(unary(UnaryOperator::IsNull, &n), Ok(Field::Boolean(true)));
    assert_eq!(unary(UnaryOperator::IsNull, &integer(0)), Ok(Field::Boolean(false)));
}

#[test]
fn comparisons_give_booleans_or_null() {
    assert_eq!(binary(BinaryOperator::Equal, &integer(1), &integer(1)), Ok(Field::Boolean(true)));
    assert_eq!(binary(BinaryOperator::Equal, &integer(1), &integer(2)), Ok(Field::Boolean(false)));
    assert_eq!(binary(BinaryOperator::Equal, &integer(1), &Field::Null), Ok(Field::Null));
    assert_eq!(binary(BinaryOperator::Equal, &Field::Null, &Field::Null), Ok(Field::Null));
    assert_eq!(binary(BinaryOperator::Equal, &integer(1), &text("1")), Err(Error::TypeMismatch));
    assert_eq!(
        binary(BinaryOperator::Equal, &float(f64::NAN), &float(f64::NAN)),
        Ok(Field::Boolean(false))
    );
    assert_eq!(binary(BinaryOperator::Equal, &float(0.0), &float(-0.0)), Ok(Field::Boolean(true)));
    assert_eq!(binary(BinaryOperator::LessThan, &integer(1), &integer(2)), Ok(Field::Boolean(true)));
    assert_eq!(binary(BinaryOperator::LessThan, &integer(2), &integer(2)), Ok(Field::Boolean(false)));
    assert_eq!(binary(BinaryOperator::LessThan, &float(-0.0), &float(0.0)), Ok(Field::Boolean(false)));
    assert_eq!(binary(BinaryOperator::LessThan, &float(1.0), &float(f64::NAN)), Ok(Field::Boolean(false)));
    assert_eq!(binary(BinaryOperator::LessThan, &text("a"), &text("b")), Ok(Field::Boolean(true)));
    assert_eq!(binary(BinaryOperator::LessThan, &Field::Null, &integer(2)), Ok(Field::Null));
    assert_eq!(binary(BinaryOperator::GreaterThan, &integer(3), &integer(2)), Ok(Field::Boolean(true)));
    assert_eq!(binary(BinaryOperator::GreaterThan, &integer(1), &integer(2)), Ok(Field::Boolean(false)));
    assert_eq!(
        binary(BinaryOperator::GreaterThan, &Field::Boolean(true), &integer(2)),
        Err(Error::TypeMismatch)
    );
}

#[test]
fn arithmetic_expressions_are_checked() {
    let row = Row::new(vec![integer(10), integer(0), Field::Null]);
    assert_eq!(op(BinaryOperator::Add, column(0), constant(integer(5))).evaluate(Some(&row)), Ok(integer(15)));
    assert_eq!(
        op(BinaryOperator::Divide, column(0), column(1)).evaluate(Some(&row)),
        Err(Error::DivisionByZero)
    );
    assert_eq!(
        op(BinaryOperator::Add, column(0), constant(integer(i64::MAX))).evaluate(Some(&row)),
        Err(Error::Overflow)
    );
    assert_eq!(op(BinaryOperator::Add, column(0), column(2)).evaluate(Some(&row)), Ok(Field::Null));
    assert_eq!(
        op(BinaryOperator::Divide, constant(integer(9)), constant(integer(2))).evaluate(None),
        Ok(integer(4))
    );
}

#[test]
fn the_left_operand_fails_first() {
    let row = Row::new(vec![integer(1)]);
    let failing_left = op(
        BinaryOperator::Add,
        op(BinaryOperator::Divide, column(0), constant(integer(0))),
        column(7),
    );
    assert_eq!(failing_left.evaluate(Some(&row)), Err(Error::DivisionByZero));
    let failing_right = op(BinaryOperator::Add, column(0), column(7));
    assert_eq!(failing_right.evaluate(Some(&row)), Err(Error::ColumnOutOfRange));
    let negated = Expression::Unary(UnaryOperator::Not, Box::new(column(7)));
    assert_eq!(negated.evaluate(Some(&row)), Err(Error::ColumnOutOfRange));
}

#[test]
fn several_expressions_give_all_values_or_the_first_failure() {
    let row = Row::new(vec![integer(6), integer(0)]);
    let fine = vec![column(0), constant(text("k")), op(BinaryOperator::Add, column(0), column(0))];
    assert_eq!(evaluate_all(&fine, Some(&row)), Ok(vec![integer(6), text("k"), integer(12)]));
    let failing = vec![
        column(0),
        op(BinaryOperator::Divide, column(0), column(1)),
        column(9),
    ];
    assert_eq!(evaluate_all(&failing, Some(&row)), Err(Error::DivisionByZero));
    assert_eq!(evaluate_all(&vec![], Some(&row)), Ok(vec![]));
    assert_eq!(evaluate_all(&vec![column(0)], None), Err(Error::MissingRow));
}

#[test]
fn every_failure_describes_itself() {
    assert_eq!(Error::TableExists.message(), "table already exists");
    assert_eq!(Error::TableNotFound.message(), "table does not exist");
    assert_eq!(Error::DivisionByZero.message(), "division by zero");
    assert_eq!(Error::Overflow.message(), "integer overflow");
    let all = [
        Error::NonBooleanPredicate,
        Error::TypeMismatch,
        Error::ColumnOutOfRange,
        Error::MissingRow,
        Error::TableExists,
        Error::TableNotFound,
        Error::Overflow,
        Error::DivisionByZero,
        Error::Storage,
    ];
    for (i, a) in all.iter().enumerate() {
        assert!(!a.message().is_empty());
        for b in &all[..i] {
            assert!(a.message() != b.message());
        }
    }
}
