//! Expressions over rows, and the plan tree that the executor lowers.

use vstd::prelude::*;
use itertools::Itertools;
use crate::common::Error;
use crate::storage::tuple::Row;
use crate::types::schema::Table;
use crate::types::total_order::Direction;
use crate::types::field::{
    add_fields,
    compare_fields,
    divide_fields,
    fields_match,
    is_undefined,
    lemma_views_push,
    type_rank,
    views,
    Field,
    FieldView,
    Relation,
};

verus! {

/// An operator on one value.
#[derive(Clone, Copy, Debug, PartialEq, Eq, Structural)]
pub enum UnaryOperator {
    /// Logical negation; NULL stays NULL.
    Not,
    /// Whether the value is NULL.
    IsNull,
}

/// An operator on two values.
#[derive(Clone, Copy, Debug, PartialEq, Eq, Structural)]
pub enum BinaryOperator {
    And,
    Or,
    Equal,
    GreaterThan,
    LessThan,
    Add,
    Divide,
}

/// An expression over the values of one row.
#[derive(Debug, PartialEq)]
pub enum Expression {
    /// A literal value.
    Constant(Field),
    /// The value of the row at a position.
    Column(usize),
    Unary(UnaryOperator, Box<Expression>),
    Binary(BinaryOperator, Box<Expression>, Box<Expression>),
}

/// An aggregate function over the values that its expression gives.
#[derive(Debug, PartialEq)]
pub enum Aggregate {
    Average(Expression),
    Count(Expression),
    Max(Expression),
    Min(Expression),
    Sum(Expression),
}

impl Aggregate {
    /// The expression whose values the aggregate takes in.
    pub open spec fn source(self) -> Expression {
        match self {
            Aggregate::Average(e) => e,
            Aggregate::Count(e) => e,
            Aggregate::Max(e) => e,
            Aggregate::Min(e) => e,
            Aggregate::Sum(e) => e,
        }
    }
}

/// Three-valued negation.
pub open spec fn logical_not(v: FieldView) -> Result<FieldView, Error> {
    match v {
        FieldView::Boolean(b) => Ok(FieldView::Boolean(!b)),
        FieldView::Null => Ok(FieldView::Null),
        _ => Err(Error::TypeMismatch),
    }
}

/// Three-valued conjunction: false with anything boolean or NULL is false.
pub open spec fn logical_and(a: FieldView, b: FieldView) -> Result<FieldView, Error> {
    match (a, b) {
        (FieldView::Boolean(x), FieldView::Boolean(y)) => Ok(FieldView::Boolean(x && y)),
        (FieldView::Boolean(x), FieldView::Null) | (FieldView::Null, FieldView::Boolean(x)) => if x {
            Ok(FieldView::Null)
        } else {
            Ok(FieldView::Boolean(false))
        },
        (FieldView::Null, FieldView::Null) => Ok(FieldView::Null),
        _ => Err(Error::TypeMismatch),
    }
}

/// Three-valued disjunction: true with anything boolean or NULL is true.
pub open spec fn logical_or(a: FieldView, b: FieldView) -> Result<FieldView, Error> {
    match (a, b) {
        (FieldView::Boolean(x), FieldView::Boolean(y)) => Ok(FieldView::Boolean(x || y)),
        (FieldView::Boolean(x), FieldView::Null) | (FieldView::Null, FieldView::Boolean(x)) => if x {
            Ok(FieldView::Boolean(true))
        } else {
            Ok(FieldView::Null)
        },
        (FieldView::Null, FieldView::Null) => Ok(FieldView::Null),
        _ => Err(Error::TypeMismatch),
    }
}

/// Whether the first value is strictly smaller: both are defined, the order
/// puts the first before the second, and they are not the same value.
pub open spec fn strictly_less(a: FieldView, b: FieldView) -> bool {
    !is_undefined(a) && !is_undefined(b) && compare_fields(a, b) == Relation::Less && !fields_match(
        a,
        b,
    )
}

/// A comparison of two values: NULL when either is NULL, a type mismatch
/// when their types differ, and else the boolean that `decide` gives.
pub open spec fn comparison(a: FieldView, b: FieldView, decided: bool) -> Result<
    FieldView,
    Error,
> {
    if a == FieldView::Null || b == FieldView::Null {
        Ok(FieldView::Null)
    } else if type_rank(a) != type_rank(b) {
        Err(Error::TypeMismatch)
    } else {
        Ok(FieldView::Boolean(decided))
    }
}

/// What a unary operator gives on a value.
pub open spec fn apply_unary(op: UnaryOperator, v: FieldView) -> Result<FieldView, Error> {
    match op {
        UnaryOperator::Not => logical_not(v),
        UnaryOperator::IsNull => Ok(FieldView::Boolean(v == FieldView::Null)),
    }
}

/// What a binary operator gives on two values.
pub open spec fn apply_binary(op: BinaryOperator, a: FieldView, b: FieldView) -> Result<
    FieldView,
    Error,
> {
    match op {
        BinaryOperator::And => logical_and(a, b),
        BinaryOperator::Or => logical_or(a, b),
        BinaryOperator::Equal => comparison(a, b, fields_match(a, b)),
        BinaryOperator::GreaterThan => comparison(a, b, strictly_less(b, a)),
        BinaryOperator::LessThan => comparison(a, b, strictly_less(a, b)),
        BinaryOperator::Add => add_fields(a, b),
        BinaryOperator::Divide => divide_fields(a, b),
    }
}

/// The content of the outcome of an evaluation.
pub open spec fn outcome_view(r: Result<Field, Error>) -> Result<FieldView, Error> {
    match r {
        Ok(f) => Ok(f@),
        Err(e) => Err(e),
    }
}

/// The contents of a vector of outcomes, one for one.
pub open spec fn outcome_views(rs: Seq<Result<Field, Error>>) -> Seq<Result<FieldView, Error>> {
    Seq::new(rs.len(), |i: int| outcome_view(rs[i]))
}

/// The content of the outcome of evaluating several expressions.
pub open spec fn outcomes_view(r: Result<Vec<Field>, Error>) -> Result<Seq<FieldView>, Error> {
    match r {
        Ok(fields) => Ok(views(fields@)),
        Err(e) => Err(e),
    }
}

/// The content of a row that may be absent.
pub open spec fn optional_row_view(row: Option<&Row>) -> Option<Seq<FieldView>> {
    match row {
        Some(r) => Some(r@),
        None => None,
    }
}

/// The values of all items when none is a failure, and else the first failure.
pub open spec fn collected<T>(items: Seq<Result<T, Error>>) -> Result<Seq<T>, Error>
    decreases items.len(),
{
    if items.len() == 0 {
        Ok(Seq::empty())
    } else {
        match collected(items.drop_last()) {
            Err(e) => Err(e),
            Ok(values) => match items.last() {
                Err(e) => Err(e),
                Ok(v) => Ok(values.push(v)),
            },
        }
    }
}

/// What the expressions give on a row, in order: all their values, or the
/// failure of the first one that fails.
pub open spec fn eval_all(exprs: Seq<Expression>, row: Option<Seq<FieldView>>) -> Result<
    Seq<FieldView>,
    Error,
> {
    collected(Seq::new(exprs.len(), |i: int| exprs[i].eval(row)))
}

impl Expression {
    /// What the expression gives on a row. A column needs a row that reaches
    /// its position; an operator first evaluates its operands from left to
    /// right, and the first failure among them is the failure of the whole.
    pub open spec fn eval(self, row: Option<Seq<FieldView>>) -> Result<FieldView, Error>
        decreases self,
    {
        match self {
            Expression::Constant(f) => Ok(f@),
            Expression::Column(i) => match row {
                None => Err(Error::MissingRow),
                Some(r) => if i < r.len() {
                    Ok(r[i as int])
                } else {
                    Err(Error::ColumnOutOfRange)
                },
            },
            Expression::Unary(op, e) => match e.eval(row) {
                Err(x) => Err(x),
                Ok(v) => apply_unary(op, v),
            },
            Expression::Binary(op, l, r) => match l.eval(row) {
                Err(x) => Err(x),
                Ok(a) => match r.eval(row) {
                    Err(x) => Err(x),
                    Ok(b) => apply_binary(op, a, b),
                },
            },
        }
    }

    /// Evaluates the expression on a row.
    pub fn evaluate(&self, row: Option<&Row>) -> (r: Result<Field, Error>)
        ensures
            outcome_view(r) == self.eval(optional_row_view(row)),
        decreases self,
    {
        match self {
            Expression::Constant(f) => Ok(f.clone()),
            Expression::Column(i) => match row {
                None => Err(Error::MissingRow),
                Some(r) => match r.get_field(*i) {
                    Ok(f) => Ok(f.clone()),
                    Err(e) => Err(e),
                },
            },
            Expression::Unary(op, e) => match e.evaluate(row) {
                Err(x) => Err(x),
                Ok(v) => unary(*op, &v),
            },
            Expression::Binary(op, l, r) => match l.evaluate(row) {
                Err(x) => Err(x),
                Ok(a) => match r.evaluate(row) {
                    Err(x) => Err(x),
                    Ok(b) => binary(*op, &a, &b),
                },
            },
        }
    }
}

fn boolean_or_null(known: Option<bool>) -> (f: Field)
    ensures
        f@ == match known {
            Some(b) => FieldView::Boolean(b),
            None => FieldView::Null,
        },
{
    match known {
        Some(b) => Field::Boolean(b),
        None => Field::Null,
    }
}

/// Applies a unary operator to a value.
pub fn unary(op: UnaryOperator, v: &Field) -> (r: Result<Field, Error>)
    ensures
        outcome_view(r) == apply_unary(op, v@),
{
    match op {
        UnaryOperator::Not => match v {
            Field::Boolean(b) => Ok(Field::Boolean(!*b)),
            Field::Null => Ok(Field::Null),
            _ => Err(Error::TypeMismatch),
        },
        UnaryOperator::IsNull => Ok(Field::Boolean(v.is_null())),
    }
}

fn compared(a: &Field, b: &Field, op: BinaryOperator) -> (r: Result<Field, Error>)
    requires
        op == BinaryOperator::Equal || op == BinaryOperator::GreaterThan || op
            == BinaryOperator::LessThan,
    ensures
        outcome_view(r) == apply_binary(op, a@, b@),
{
    if a.is_null() || b.is_null() {
        return Ok(Field::Null);
    }
    if a.get_type() != b.get_type() {
        return Err(Error::TypeMismatch);
    }
    let matching = a.matches(b);
    let defined = !a.is_undefined() && !b.is_undefined();
    let decided = match op {
        BinaryOperator::Equal => matching,
        BinaryOperator::LessThan => defined && !matching && a.compare(b) == Relation::Less,
        _ => defined && !matching && b.compare(a) == Relation::Less,
    };
    proof {
        assert(fields_match(a@, b@) == fields_match(b@, a@));
    }
    Ok(Field::Boolean(decided))
}

/// Applies a binary operator to two values.
pub fn binary(op: BinaryOperator, a: &Field, b: &Field) -> (r: Result<Field, Error>)
    ensures
        outcome_view(r) == apply_binary(op, a@, b@),
{
    match op {
        BinaryOperator::And => match (a, b) {
            (Field::Boolean(x), Field::Boolean(y)) => Ok(Field::Boolean(*x && *y)),
            (Field::Boolean(x), Field::Null) => Ok(
                boolean_or_null(if *x { None } else { Some(false) }),
            ),
            (Field::Null, Field::Boolean(x)) => Ok(
                boolean_or_null(if *x { None } else { Some(false) }),
            ),
            (Field::Null, Field::Null) => Ok(Field::Null),
            _ => Err(Error::TypeMismatch),
        },
        BinaryOperator::Or => match (a, b) {
            (Field::Boolean(x), Field::Boolean(y)) => Ok(Field::Boolean(*x || *y)),
            (Field::Boolean(x), Field::Null) => Ok(
                boolean_or_null(if *x { Some(true) } else { None }),
            ),
            (Field::Null, Field::Boolean(x)) => Ok(
                boolean_or_null(if *x { Some(true) } else { None }),
            ),
            (Field::Null, Field::Null) => Ok(Field::Null),
            _ => Err(Error::TypeMismatch),
        },
        BinaryOperator::Equal => compared(a, b, op),
        BinaryOperator::GreaterThan => compared(a, b, op),
        BinaryOperator::LessThan => compared(a, b, op),
        BinaryOperator::Add => a.checked_add(b),
        BinaryOperator::Divide => a.checked_div(b),
    }
}

/// Gathers the values of a vector of outcomes, or gives its first failure.
/// Trusted: this is `itertools::Itertools::try_collect`, which collects into
/// a `Result` as `Iterator::collect` does: it stops at the first `Err` and
/// returns it, and otherwise returns the `Ok` values in order.
#[verifier::external_body]
pub(crate) fn try_collect<T>(items: Vec<Result<T, Error>>) -> (r: Result<Vec<T>, Error>)
    ensures
        match r {
            Ok(values) => collected(items@) == Ok::<Seq<T>, Error>(values@),
            Err(e) => collected(items@) == Err::<Seq<T>, Error>(e),
        },
{
    Itertools::try_collect(items.into_iter())
}

/// Collecting succeeds exactly when no item is a failure, and then gives
/// the values one for one.
pub proof fn lemma_collected_ok<T>(items: Seq<Result<T, Error>>)
    ensures
        collected(items) is Ok <==> (forall|i: int| 0 <= i < items.len() ==> items[i] is Ok),
        collected(items) is Ok ==> collected(items)->Ok_0.len() == items.len() && (forall|i: int|
            0 <= i < items.len() ==> items[i] == Ok::<T, Error>(
                #[trigger] collected(items)->Ok_0[i],
            )),
    decreases items.len(),
{
    if items.len() > 0 {
        lemma_collected_ok(items.drop_last());
        if collected(items) is Ok {
            assert forall|i: int| 0 <= i < items.len() implies items[i] is Ok by {
                if i < items.len() - 1 {
                    assert(items.drop_last()[i] == items[i]);
                }
            }
        }
        if forall|i: int| 0 <= i < items.len() ==> items[i] is Ok {
            assert forall|i: int| 0 <= i < items.drop_last().len() implies items.drop_last()[i] is Ok by {
                assert(items.drop_last()[i] == items[i]);
            }
        }
    }
}

/// The first failure decides: when the items before a failure collect, that
/// failure is what collecting all items gives.
pub proof fn lemma_collected_first_failure<T>(items: Seq<Result<T, Error>>, i: int)
    requires
        0 <= i < items.len(),
        collected(items.take(i)) is Ok,
        items[i] is Err,
    ensures
        collected(items) == Err::<Seq<T>, Error>(items[i]->Err_0),
    decreases items.len(),
{
    if i == items.len() - 1 {
        assert(items.drop_last() =~= items.take(i));
    } else {
        assert(items.drop_last().take(i) =~= items.take(i));
        lemma_collected_first_failure(items.drop_last(), i);
    }
}

/// What `f` makes of an outcome: a value is mapped, a failure stays.
pub open spec fn map_outcome<T, U>(r: Result<T, Error>, f: spec_fn(T) -> U) -> Result<U, Error> {
    match r {
        Ok(v) => Ok(f(v)),
        Err(e) => Err(e),
    }
}

/// Collecting commutes with mapping the values.
pub proof fn lemma_collected_map<T, U>(items: Seq<Result<T, Error>>, f: spec_fn(T) -> U)
    ensures
        collected(Seq::new(items.len(), |i: int| map_outcome(items[i], f))) == match collected(
            items,
        ) {
            Ok(values) => Ok::<Seq<U>, Error>(Seq::new(values.len(), |i: int| f(values[i]))),
            Err(e) => Err::<Seq<U>, Error>(e),
        },
    decreases items.len(),
{
    let mapped = Seq::new(items.len(), |i: int| map_outcome(items[i], f));
    if items.len() == 0 {
        assert(Seq::new(0, |i: int| f(Seq::<T>::empty()[i])) =~= Seq::<U>::empty());
    } else {
        lemma_collected_map(items.drop_last(), f);
        assert(mapped.drop_last() =~= Seq::new(
            items.drop_last().len(),
            |i: int| map_outcome(items.drop_last()[i], f),
        ));
        match collected(items.drop_last()) {
            Ok(values) => match items.last() {
                Ok(v) => {
                    assert(Seq::new(values.push(v).len(), |i: int| f(values.push(v)[i])) =~= Seq::new(
                        values.len(),
                        |i: int| f(values[i]),
                    ).push(f(v)));
                },
                Err(_) => {},
            },
            Err(_) => {},
        }
    }
}

/// Evaluates the expressions on a row in order.
pub fn evaluate_all(exprs: &Vec<Expression>, row: Option<&Row>) -> (r: Result<Vec<Field>, Error>)
    ensures
        outcomes_view(r) == eval_all(exprs@, optional_row_view(row)),
{
    let ghost model = Seq::new(exprs@.len(), |i: int| exprs@[i].eval(optional_row_view(row)));
    let mut outcomes: Vec<Result<Field, Error>> = Vec::new();
    let mut i: usize = 0;
    while i < exprs.len()
        invariant
            i <= exprs@.len(),
            outcomes@.len() == i,
            forall|k: int| 0 <= k < i ==> outcome_view(#[trigger] outcomes@[k]) == exprs@[k].eval(optional_row_view(row)),
        decreases exprs@.len() - i,
    {
        outcomes.push(exprs[i].evaluate(row));
        i += 1;
    }
    let r = try_collect(outcomes);
    proof {
        lemma_collected_views(outcomes@);
        assert(outcome_views(outcomes@) =~= model);
    }
    r
}

/// Collecting commutes with taking views.
pub proof fn lemma_collected_views(items: Seq<Result<Field, Error>>)
    ensures
        collected(outcome_views(items)) == match collected(items) {
            Ok(values) => Ok::<Seq<FieldView>, Error>(views(values)),
            Err(e) => Err::<Seq<FieldView>, Error>(e),
        },
    decreases items.len(),
{
    if items.len() == 0 {
        assert(views(Seq::<Field>::empty()) =~= Seq::<FieldView>::empty());
    } else {
        lemma_collected_views(items.drop_last());
        assert(outcome_views(items).drop_last() =~= outcome_views(items.drop_last()));
        match collected(items.drop_last()) {
            Ok(values) => match items.last() {
                Ok(v) => {
                    lemma_views_push(values, v);
                },
                Err(_) => {},
            },
            Err(_) => {},
        }
    }
}

/// The mathematical content of a [`Label`].
pub enum LabelView {
    Absent,
    Unqualified(Seq<char>),
    Qualified(Seq<char>, Seq<char>),
}

/// The label of a result column: none, a column name, or a table name
/// with a column name.
#[derive(Debug, PartialEq)]
pub enum Label {
    Absent,
    Unqualified(String),
    Qualified(String, String),
}

impl View for Label {
    type V = LabelView;

    open spec fn view(&self) -> LabelView {
        match self {
            Label::Absent => LabelView::Absent,
            Label::Unqualified(name) => LabelView::Unqualified(name@),
            Label::Qualified(table, name) => LabelView::Qualified(table@, name@),
        }
    }
}

impl Clone for Label {
    fn clone(&self) -> (r: Label)
        ensures
            r@ == self@,
    {
        match self {
            Label::Absent => Label::Absent,
            Label::Unqualified(name) => Label::Unqualified(name.clone()),
            Label::Qualified(table, name) => Label::Qualified(table.clone(), name.clone()),
        }
    }
}

/// A node of the plan tree. Every node gives a row stream; an inner node
/// takes the streams of its children.
#[derive(Debug, PartialEq)]
#[allow(inconsistent_fields)]
pub enum Node {
    /// Groups the rows by the GROUP BY expressions and computes the aggregates.
    Aggregate { source: Box<Node>, group_by: Vec<Expression>, aggregates: Vec<Aggregate> },
    /// Keeps the rows on which the predicate is true.
    Filter { source: Box<Node>, predicate: Expression },
    /// Joins on the equality of one left and one right column.
    HashJoin { left: Box<Node>, left_column: usize, right: Box<Node>, right_column: usize, outer: bool },
    /// The rows of the table whose value at the column matches one of the values.
    IndexLookup { table: Table, column: usize, values: Vec<Field>, alias: Option<String> },
    /// The rows of the table whose first column matches one of the keys.
    KeyLookup { table: Table, keys: Vec<Field>, alias: Option<String> },
    /// Lets at most `limit` rows through.
    Limit { source: Box<Node>, limit: usize },
    /// Joins every left row with every right row that the predicate accepts.
    NestedLoopJoin { left: Box<Node>, right: Box<Node>, predicate: Option<Expression>, outer: bool },
    /// No rows, under the given column labels.
    Nothing { columns: Vec<Label> },
    /// Skips the first `offset` rows.
    Offset { source: Box<Node>, offset: usize },
    /// Sorts the rows by the keys.
    Order { source: Box<Node>, key: Vec<(Expression, Direction)> },
    /// Replaces each row by the values of the expressions on it.
    Projection { source: Box<Node>, expressions: Vec<Expression>, aliases: Vec<Label> },
    /// Moves each column to its target position or drops it.
    Remap { source: Box<Node>, targets: Vec<Option<usize>> },
    /// The rows of the table, filtered by the store where a filter is given.
    Scan { table: Table, filter: Option<Expression>, alias: Option<String> },
    /// Literal rows.
    Values { rows: Vec<Vec<Expression>> },
}

/// A plan: a statement with the nodes that give it its rows.
#[derive(Debug, PartialEq)]
#[allow(inconsistent_fields)]
pub enum Plan {
    CreateTable { schema: Table },
    Delete { table: String, source: Node },
    DropTable { table: String, if_exists: bool },
    Insert { table: Table, source: Node },
    Select(Node),
    Update { table: Table, source: Node, expressions: Vec<(usize, Expression)> },
}

/// The width of a remapped row: one more than the largest target position.
pub open spec fn target_width(targets: Seq<Option<usize>>) -> nat
    decreases targets.len(),
{
    if targets.len() == 0 {
        0
    } else {
        let rest = target_width(targets.drop_last());
        match targets.last() {
            Some(i) => if i + 1 > rest {
                (i + 1) as nat
            } else {
                rest
            },
            None => rest,
        }
    }
}

/// The last source column that is moved to the target position, if any.
pub open spec fn source_of(targets: Seq<Option<usize>>, target: int) -> Option<int>
    decreases targets.len(),
{
    if targets.len() == 0 {
        None
    } else if targets.last() == Some(target as usize) && 0 <= target <= usize::MAX {
        Some(targets.len() - 1)
    } else {
        source_of(targets.drop_last(), target)
    }
}

/// The name under which the columns of a scanned table are labelled: the
/// alias where one is given, else the name of the table.
pub open spec fn qualifier(table: Table, alias: Option<String>) -> Seq<char> {
    match alias {
        Some(name) => name@,
        None => table@.name,
    }
}

/// The label of the column of a scanned table at a position.
pub open spec fn table_label(table: Table, alias: Option<String>, i: int) -> LabelView {
    if 0 <= i < table@.columns.len() {
        LabelView::Qualified(qualifier(table, alias), table@.columns[i].name)
    } else {
        LabelView::Absent
    }
}

impl Node {
    /// The number of columns of the rows that the node gives.
    pub open spec fn width(self) -> nat
        decreases self,
    {
        match self {
            Node::Aggregate { source, group_by, aggregates } => group_by@.len() + aggregates@.len(),
            Node::Filter { source, predicate } => source.width(),
            Node::HashJoin { left, left_column, right, right_column, outer } => left.width()
                + right.width(),
            Node::IndexLookup { table, column, values, alias } => table@.columns.len(),
            Node::KeyLookup { table, keys, alias } => table@.columns.len(),
            Node::Limit { source, limit } => source.width(),
            Node::NestedLoopJoin { left, right, predicate, outer } => left.width() + right.width(),
            Node::Nothing { columns } => columns@.len(),
            Node::Offset { source, offset } => source.width(),
            Node::Order { source, key } => source.width(),
            Node::Projection { source, expressions, aliases } => expressions@.len(),
            Node::Remap { source, targets } => target_width(targets@),
            Node::Scan { table, filter, alias } => table@.columns.len(),
            Node::Values { rows } => if rows@.len() > 0 {
                rows@[0]@.len()
            } else {
                0
            },
        }
    }

    /// Whether the node can be executed on this machine: the width of the
    /// node and of every node below it fits in a machine word.
    pub open spec fn executable(self) -> bool
        decreases self,
    {
        &&& self.width() <= usize::MAX
        &&& match self {
            Node::Aggregate { source, group_by, aggregates } => source.executable(),
            Node::Filter { source, predicate } => source.executable(),
            Node::HashJoin { left, left_column, right, right_column, outer } => left.executable()
                && right.executable(),
            Node::Limit { source, limit } => source.executable(),
            Node::NestedLoopJoin { left, right, predicate, outer } => left.executable()
                && right.executable(),
            Node::Offset { source, offset } => source.executable(),
            Node::Order { source, key } => source.executable(),
            Node::Projection { source, expressions, aliases } => source.executable(),
            Node::Remap { source, targets } => source.executable(),
            _ => true,
        }
    }

    /// The label of the column at a position of the rows that the node
    /// gives. A scan labels its columns by table and column name; a
    /// projection by its alias or, for a bare column, by the label of that
    /// column below; a GROUP BY column that is a bare column keeps the
    /// label of that column; joins and remaps pass labels on; everything
    /// else has no label.
    pub open spec fn label(self, i: int) -> LabelView
        decreases self,
    {
        match self {
            Node::Aggregate { source, group_by, aggregates } => if 0 <= i < group_by@.len() {
                match group_by@[i] {
                    Expression::Column(j) => source.label(j as int),
                    _ => LabelView::Absent,
                }
            } else {
                LabelView::Absent
            },
            Node::Filter { source, predicate } => source.label(i),
            Node::HashJoin { left, left_column, right, right_column, outer } => if i < left.width() {
                left.label(i)
            } else {
                right.label(i - left.width())
            },
            Node::IndexLookup { table, column, values, alias } => table_label(table, alias, i),
            Node::KeyLookup { table, keys, alias } => table_label(table, alias, i),
            Node::Limit { source, limit } => source.label(i),
            Node::NestedLoopJoin { left, right, predicate, outer } => if i < left.width() {
                left.label(i)
            } else {
                right.label(i - left.width())
            },
            Node::Nothing { columns } => if 0 <= i < columns@.len() {
                columns@[i]@
            } else {
                LabelView::Absent
            },
            Node::Offset { source, offset } => source.label(i),
            Node::Order { source, key } => source.label(i),
            Node::Projection { source, expressions, aliases } => if 0 <= i < aliases@.len()
                && aliases@[i]@ != LabelView::Absent {
                aliases@[i]@
            } else if 0 <= i < expressions@.len() {
                match expressions@[i] {
                    Expression::Column(j) => source.label(j as int),
                    _ => LabelView::Absent,
                }
            } else {
                LabelView::Absent
            },
            Node::Remap { source, targets } => match source_of(targets@, i) {
                Some(j) => source.label(j),
                None => LabelView::Absent,
            },
            Node::Scan { table, filter, alias } => table_label(table, alias, i),
            Node::Values { rows } => LabelView::Absent,
        }
    }

    /// The number of columns of the rows that the node gives.
    pub fn columns(&self) -> (n: usize)
        requires
            self.executable(),
        ensures
            n == self.width(),
        decreases self,
    {
        match self {
            Node::Aggregate { source, group_by, aggregates } => group_by.len() + aggregates.len(),
            Node::Filter { source, predicate } => source.columns(),
            Node::HashJoin { left, left_column, right, right_column, outer } => left.columns()
                + right.columns(),
            Node::IndexLookup { table, column, values, alias } => table.col_count(),
            Node::KeyLookup { table, keys, alias } => table.col_count(),
            Node::Limit { source, limit } => source.columns(),
            Node::NestedLoopJoin { left, right, predicate, outer } => left.columns()
                + right.columns(),
            Node::Nothing { columns } => columns.len(),
            Node::Offset { source, offset } => source.columns(),
            Node::Order { source, key } => source.columns(),
            Node::Projection { source, expressions, aliases } => expressions.len(),
            Node::Remap { source, targets } => {
                let mut size: usize = 0;
                let mut i: usize = 0;
                while i < targets.len()
                    invariant
                        i <= targets@.len(),
                        size == target_width(targets@.take(i as int)),
                        target_width(targets@) <= usize::MAX,
                    decreases targets@.len() - i,
                {
                    proof {
                        assert(targets@.take(i + 1).drop_last() =~= targets@.take(i as int));
                        assert(targets@.take(i + 1).last() == targets@[i as int]);
                        lemma_target_width_grows(targets@, i + 1);
                    }
                    match targets[i] {
                        Some(index) => {
                            if index + 1 > size {
                                size = index + 1;
                            }
                        },
                        None => {},
                    }
                    i += 1;
                }
                proof {
                    assert(targets@.take(i as int) =~= targets@);
                }
                size
            },
            Node::Scan { table, filter, alias } => table.col_count(),
            Node::Values { rows } => if rows.len() > 0 {
                rows[0].len()
            } else {
                0
            },
        }
    }

    /// The label of the column at a position.
    pub fn column_label(&self, index: usize) -> (l: Label)
        requires
            self.executable(),
        ensures
            l@ == self.label(index as int),
        decreases self,
    {
        match self {
            Node::Aggregate { source, group_by, aggregates } => {
                if index < group_by.len() {
                    match &group_by[index] {
                        Expression::Column(j) => source.column_label(*j),
                        _ => Label::Absent,
                    }
                } else {
                    Label::Absent
                }
            },
            Node::Filter { source, predicate } => source.column_label(index),
            Node::HashJoin { left, left_column, right, right_column, outer } => {
                let split = left.columns();
                if index < split {
                    left.column_label(index)
                } else {
                    right.column_label(index - split)
                }
            },
            Node::IndexLookup { table, column, values, alias } => label_of(table, alias, index),
            Node::KeyLookup { table, keys, alias } => label_of(table, alias, index),
            Node::Limit { source, limit } => source.column_label(index),
            Node::NestedLoopJoin { left, right, predicate, outer } => {
                let split = left.columns();
                if index < split {
                    left.column_label(index)
                } else {
                    right.column_label(index - split)
                }
            },
            Node::Nothing { columns } => {
                if index < columns.len() {
                    columns[index].clone()
                } else {
                    Label::Absent
                }
            },
            Node::Offset { source, offset } => source.column_label(index),
            Node::Order { source, key } => source.column_label(index),
            Node::Projection { source, expressions, aliases } => {
                let aliased = if index < aliases.len() {
                    match &aliases[index] {
                        Label::Absent => false,
                        _ => true,
                    }
                } else {
                    false
                };
                if aliased {
                    aliases[index].clone()
                } else if index < expressions.len() {
                    match &expressions[index] {
                        Expression::Column(j) => source.column_label(*j),
                        _ => Label::Absent,
                    }
                } else {
                    Label::Absent
                }
            },
            Node::Remap { source, targets } => {
                let mut found: Option<usize> = None;
                let mut i: usize = 0;
                assert(targets@.take(0) =~= Seq::<Option<usize>>::empty());
                while i < targets.len()
                    invariant
                        i <= targets@.len(),
                        match found {
                            Some(j) => source_of(targets@.take(i as int), index as int) == Some(
                                j as int,
                            ) && j < i,
                            None => source_of(targets@.take(i as int), index as int) is None,
                        },
                    decreases targets@.len() - i,
                {
                    proof {
                        assert(targets@.take(i + 1).drop_last() =~= targets@.take(i as int));
                        assert(targets@.take(i + 1).last() == targets@[i as int]);
                    }
                    match targets[i] {
                        Some(target) => {
                            if target == index {
                                found = Some(i);
                            }
                        },
                        None => {},
                    }
                    i += 1;
                }
                proof {
                    assert(targets@.take(i as int) =~= targets@);
                }
                match found {
                    Some(j) => source.column_label(j),
                    None => Label::Absent,
                }
            },
            Node::Scan { table, filter, alias } => label_of(table, alias, index),
            Node::Values { rows } => Label::Absent,
        }
    }
}

/// A prefix of the targets is no wider than all of them.
pub proof fn lemma_target_width_grows(targets: Seq<Option<usize>>, n: int)
    requires
        0 <= n <= targets.len(),
    ensures
        target_width(targets.take(n)) <= target_width(targets),
    decreases targets.len(),
{
    if n == targets.len() {
        assert(targets.take(n) =~= targets);
    } else {
        lemma_target_width_grows(targets.drop_last(), n);
        assert(targets.drop_last().take(n) =~= targets.take(n));
    }
}

fn label_of(table: &Table, alias: &Option<String>, index: usize) -> (l: Label)
    ensures
        l@ == table_label(*table, *alias, index as int),
{
    if index < table.col_count() {
        let qualifier = match alias {
            Some(name) => name.clone(),
            None => table.name().to_owned(),
        };
        Label::Qualified(qualifier, table.get_column_name(index))
    } else {
        Label::Absent
    }
}

impl Plan {
    /// Whether the plan can be executed on this machine.
    pub open spec fn executable(self) -> bool {
        match self {
            Plan::Delete { table, source } => source.executable(),
            Plan::Insert { table, source } => source.executable(),
            Plan::Select(root) => root.executable(),
            Plan::Update { table, source, expressions } => source.executable(),
            _ => true,
        }
    }
}

} // verus!
