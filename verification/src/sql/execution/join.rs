//! Operators on two row streams: the nested-loop join and the hash join.

use vstd::prelude::*;
use itertools::Itertools;
use crate::common::Error;
use crate::sql::planner::{
    apply_binary,
    collected,
    lemma_collected_first_failure,
    BinaryOperator,
    Expression,
};
use crate::storage::page::RecordId;
use crate::storage::tuple::{
    item_view,
    item_views,
    lemma_item_views_add,
    lemma_item_views_push,
    nulls,
    Item,
    Row,
    RowResult,
    Rows,
};
use crate::types::field::{fields_match, is_undefined, type_rank, Field, FieldView};

verus! {

/// A joined row: the left row followed by the right row, under the invalid
/// identity, since a joined row cannot be addressed.
pub open spec fn joined(left: Seq<FieldView>, right: Seq<FieldView>) -> Item {
    Ok((RecordId::spec_invalid(), left + right))
}

/// What the nested-loop join makes of a left row and one right item: a
/// right failure passes through; without a predicate the pair is joined;
/// with one, the pair is joined when the predicate is true on the joined
/// row, dropped when it is false or NULL, and a failure when the predicate
/// fails or gives anything else.
pub open spec fn pair_item(
    left: Seq<FieldView>,
    right: Item,
    predicate: Option<Expression>,
) -> Option<Item> {
    match right {
        Err(e) => Some(Err(e)),
        Ok((_, row)) => match predicate {
            None => Some(joined(left, row)),
            Some(p) => match p.eval(Some(left + row)) {
                Err(e) => Some(Err(e)),
                Ok(FieldView::Boolean(keep)) => if keep {
                    Some(joined(left, row))
                } else {
                    None
                },
                Ok(FieldView::Null) => None,
                Ok(_) => Some(Err(Error::NonBooleanPredicate)),
            },
        },
    }
}

/// Whether a left row and a right item give a joined row.
pub open spec fn is_match(left: Seq<FieldView>, right: Item, predicate: Option<Expression>) -> bool {
    match pair_item(left, right, predicate) {
        Some(Ok(_)) => true,
        _ => false,
    }
}

/// What the right stream gives for one left row, in right-stream order.
pub open spec fn pairs(left: Seq<FieldView>, right: Seq<Item>, predicate: Option<Expression>) -> Seq<
    Item,
>
    decreases right.len(),
{
    if right.len() == 0 {
        Seq::empty()
    } else {
        let rest = pairs(left, right.drop_last(), predicate);
        match pair_item(left, right.last(), predicate) {
            Some(item) => rest.push(item),
            None => rest,
        }
    }
}

/// Whether any right item gives a joined row with the left row.
pub open spec fn any_match(
    left: Seq<FieldView>,
    right: Seq<Item>,
    predicate: Option<Expression>,
) -> bool {
    exists|k: int| 0 <= k < right.len() && is_match(left, #[trigger] right[k], predicate)
}

/// The left row followed by `right_size` NULLs, under the invalid identity.
pub open spec fn padded(left: Seq<FieldView>, right_size: nat) -> Item {
    Ok((RecordId::spec_invalid(), left + nulls(right_size)))
}

/// What the nested-loop join emits for one left item: a failure passes
/// through; a row gives its pairs with the right stream and, in an outer
/// join where no right row matched, one NULL-padded row after them.
pub open spec fn nested_loop_row(
    left: Item,
    right: Seq<Item>,
    predicate: Option<Expression>,
    right_size: nat,
    outer: bool,
) -> Seq<Item> {
    match left {
        Err(e) => seq![Err(e)],
        Ok((_, row)) => if outer && !any_match(row, right, predicate) {
            pairs(row, right, predicate).push(padded(row, right_size))
        } else {
            pairs(row, right, predicate)
        },
    }
}

/// The stream of the nested-loop join: what each left item gives, left
/// items taken in order.
pub open spec fn nested_loop_items(
    left: Seq<Item>,
    right: Seq<Item>,
    predicate: Option<Expression>,
    right_size: nat,
    outer: bool,
) -> Seq<Item>
    decreases left.len(),
{
    if left.len() == 0 {
        Seq::empty()
    } else {
        nested_loop_items(left.drop_last(), right, predicate, right_size, outer) + nested_loop_row(
            left.last(),
            right,
            predicate,
            right_size,
            outer,
        )
    }
}

fn pair_one(left: &Row, right: &RowResult, predicate: &Option<Expression>) -> (r: Option<RowResult>)
    ensures
        match r {
            Some(item) => pair_item(left@, item_view(*right), *predicate) == Some(item_view(item)),
            None => pair_item(left@, item_view(*right), *predicate) is None,
        },
{
    match right {
        Err(e) => Some(Err(*e)),
        Ok((_, row)) => {
            let combined = left.concat(row);
            match predicate {
                None => Some(Ok((RecordId::invalid(), combined))),
                Some(p) => match p.evaluate(Some(&combined)) {
                    Err(e) => Some(Err(e)),
                    Ok(Field::Boolean(true)) => Some(Ok((RecordId::invalid(), combined))),
                    Ok(Field::Boolean(false)) => None,
                    Ok(Field::Null) => None,
                    Ok(_) => Some(Err(Error::NonBooleanPredicate)),
                },
            }
        },
    }
}

fn join_row(
    left: RowResult,
    right: &Rows,
    predicate: &Option<Expression>,
    right_size: usize,
    outer: bool,
) -> (out: Vec<RowResult>)
    ensures
        item_views(out@) == nested_loop_row(
            item_view(left),
            right@,
            *predicate,
            right_size as nat,
            outer,
        ),
{
    let mut out: Vec<RowResult> = Vec::new();
    match left {
        Err(e) => {
            proof {
                lemma_item_views_push(out@, Err(e));
                assert(item_views(Seq::<RowResult>::empty()).push(Err(e)) =~= seq![
                    Err::<(RecordId, Seq<FieldView>), Error>(e),
                ]);
            }
            out.push(Err(e));
        },
        Ok((_, row)) => {
            let mut right_match = false;
            let mut k: usize = 0;
            assert(right@.take(0) =~= Seq::<Item>::empty());
            while k < right.items.len()
                invariant
                    k <= right.items@.len(),
                    item_views(out@) == pairs(row@, right@.take(k as int), *predicate),
                    right_match == any_match(row@, right@.take(k as int), *predicate),
                decreases right.items@.len() - k,
            {
                let ghost seen = right@.take(k as int);
                let ghost next = right@.take(k + 1);
                proof {
                    assert(next.drop_last() =~= seen);
                    assert(next.last() == item_view(right.items@[k as int]));
                }
                match pair_one(&row, &right.items[k], predicate) {
                    Some(item) => {
                        proof {
                            lemma_item_views_push(out@, item);
                        }
                        match item {
                            Ok(_) => {
                                right_match = true;
                                assert(is_match(row@, next[k as int], *predicate));
                            },
                            Err(_) => {},
                        }
                        out.push(item);
                    },
                    None => {},
                }
                proof {
                    if any_match(row@, next, *predicate) && !is_match(
                        row@,
                        next.last(),
                        *predicate,
                    ) {
                        let j = choose|j: int|
                            0 <= j < next.len() && is_match(row@, #[trigger] next[j], *predicate);
                        assert(seen[j] == next[j]);
                    }
                    if any_match(row@, seen, *predicate) {
                        let j = choose|j: int|
                            0 <= j < seen.len() && is_match(row@, #[trigger] seen[j], *predicate);
                        assert(seen[j] == next[j]);
                    }
                }
                k += 1;
            }
            assert(right@.take(k as int) =~= right@);
            if outer && !right_match {
                let filler = Row::nulls(right_size);
                let last: RowResult = Ok((RecordId::invalid(), row.concat(&filler)));
                proof {
                    lemma_item_views_push(out@, last);
                }
                out.push(last);
            }
        },
    }
    out
}

/// Joins each left row with every right row that the predicate accepts,
/// rescanning the right stream for each left row. In an outer join a left
/// row without a match is emitted once, padded with `right_size` NULLs.
pub fn nested_loop(
    left: Rows,
    right: Rows,
    right_size: usize,
    predicate: Option<Expression>,
    outer: bool,
) -> (r: Result<Rows, Error>)
    ensures
        match r {
            Ok(out) => out@ == nested_loop_items(
                left@,
                right@,
                predicate,
                right_size as nat,
                outer,
            ),
            Err(_) => false,
        },
{
    let mut out: Vec<RowResult> = Vec::new();
    let ghost all = left@;
    for item in it: left.items
        invariant
            it.seq() == left.items@,
            all == item_views(left.items@),
            item_views(out@) == nested_loop_items(
                all.take(it.index() as int),
                right@,
                predicate,
                right_size as nat,
                outer,
            ),
    {
        proof {
            assert(all.take(it.index() + 1).drop_last() =~= all.take(it.index() as int));
            assert(all.take(it.index() + 1).last() == item_view(item));
        }
        let mut emitted = join_row(item, &right, &predicate, right_size, outer);
        proof {
            lemma_item_views_add(out@, emitted@);
        }
        out.append(&mut emitted);
    }
    proof {
        assert(all.take(all.len() as int) =~= all);
    }
    Ok(Rows::new(out))
}

/// The joined-to-be rows of the right side whose value at `column` matches
/// the key, in the order they came.
pub open spec fn key_matches(key: FieldView, rows: Seq<Seq<FieldView>>, column: int) -> Seq<
    Seq<FieldView>,
>
    decreases rows.len(),
{
    if rows.len() == 0 {
        Seq::empty()
    } else {
        let rest = key_matches(key, rows.drop_last(), column);
        if fields_match(key, rows.last()[column]) {
            rest.push(rows.last())
        } else {
            rest
        }
    }
}

/// What building the hash table makes of one right item: a failure is a
/// failure, a row that does not reach the join column is a failure, and
/// any other row is taken.
pub open spec fn build_item(item: Item, column: usize) -> Result<Seq<FieldView>, Error> {
    match item {
        Err(e) => Err(e),
        Ok((_, row)) => if column < row.len() {
            Ok(row)
        } else {
            Err(Error::ColumnOutOfRange)
        },
    }
}

/// The rows of the right side, or the first failure met while draining it.
pub open spec fn build_side(right: Seq<Item>, column: usize) -> Result<Seq<Seq<FieldView>>, Error> {
    collected(Seq::new(right.len(), |i: int| build_item(right[i], column)))
}

/// What the hash join emits for one left item: a failure passes through; a
/// row that does not reach the join column is a failure; any other row is
/// joined with every right row whose key matches its own, in the order the
/// right rows came, or, in an outer join where none matches, emitted once
/// padded with NULLs.
pub open spec fn hash_row(
    left: Item,
    left_column: usize,
    rows: Seq<Seq<FieldView>>,
    right_column: usize,
    right_size: nat,
    outer: bool,
) -> Seq<Item> {
    match left {
        Err(e) => seq![Err(e)],
        Ok((_, row)) => if left_column >= row.len() {
            seq![Err(Error::ColumnOutOfRange)]
        } else {
            let found = key_matches(row[left_column as int], rows, right_column as int);
            if found.len() > 0 {
                Seq::new(found.len(), |i: int| joined(row, found[i]))
            } else if outer {
                seq![padded(row, right_size)]
            } else {
                Seq::empty()
            }
        },
    }
}

/// The stream of the hash join over the rows of the right side: what each
/// left item gives, left items taken in order.
pub open spec fn hash_items(
    left: Seq<Item>,
    left_column: usize,
    rows: Seq<Seq<FieldView>>,
    right_column: usize,
    right_size: nat,
    outer: bool,
) -> Seq<Item>
    decreases left.len(),
{
    if left.len() == 0 {
        Seq::empty()
    } else {
        hash_items(left.drop_last(), left_column, rows, right_column, right_size, outer) + hash_row(
            left.last(),
            left_column,
            rows,
            right_column,
            right_size,
            outer,
        )
    }
}

/// Matching is symmetric.
pub proof fn lemma_match_symmetric(a: FieldView, b: FieldView)
    ensures
        fields_match(a, b) == fields_match(b, a),
{
}

/// Matching is transitive.
pub proof fn lemma_match_transitive(a: FieldView, b: FieldView, c: FieldView)
    requires
        fields_match(a, b),
        fields_match(b, c),
    ensures
        fields_match(a, c),
{
}

/// Keys that match each other select the same rows.
pub proof fn lemma_key_matches_same(
    a: FieldView,
    b: FieldView,
    rows: Seq<Seq<FieldView>>,
    column: int,
)
    requires
        fields_match(a, b),
    ensures
        key_matches(a, rows, column) == key_matches(b, rows, column),
    decreases rows.len(),
{
    if rows.len() > 0 {
        lemma_key_matches_same(a, b, rows.drop_last(), column);
        let v = rows.last()[column];
        if fields_match(a, v) {
            lemma_match_symmetric(a, b);
            lemma_match_transitive(b, a, v);
        }
        if fields_match(b, v) {
            lemma_match_transitive(a, b, v);
        }
    }
}

/// A key that no row matches selects nothing, and a key that selects
/// nothing is matched by no row.
pub proof fn lemma_key_matches_none(key: FieldView, rows: Seq<Seq<FieldView>>, column: int)
    ensures
        key_matches(key, rows, column).len() == 0 <==> (forall|i: int|
            0 <= i < rows.len() ==> !fields_match(key, #[trigger] rows[i][column])),
    decreases rows.len(),
{
    if rows.len() > 0 {
        lemma_key_matches_none(key, rows.drop_last(), column);
        if forall|i: int| 0 <= i < rows.len() ==> !fields_match(key, #[trigger] rows[i][column]) {
            assert forall|i: int| 0 <= i < rows.drop_last().len() implies !fields_match(
                key,
                #[trigger] rows.drop_last()[i][column],
            ) by {
                assert(rows.drop_last()[i] == rows[i]);
            }
        }
        if key_matches(key, rows, column).len() == 0 {
            assert forall|i: int| 0 <= i < rows.len() implies !fields_match(
                key,
                #[trigger] rows[i][column],
            ) by {
                if i < rows.len() - 1 {
                    assert(rows.drop_last()[i] == rows[i]);
                }
            }
        }
    }
}

/// The right rows that share one join key, in the order they came.
struct Bucket {
    key: Field,
    rows: Vec<Row>,
}

/// The contents of a sequence of rows, one for one.
pub open spec fn row_views(rows: Seq<Row>) -> Seq<Seq<FieldView>> {
    Seq::new(rows.len(), |i: int| rows[i]@)
}

/// Whether the table holds exactly the rows with a defined key: no two
/// buckets have matching keys, each bucket holds the rows that match its
/// key, and every defined key has its bucket.
spec fn table_holds(table: Seq<Bucket>, rows: Seq<Seq<FieldView>>, column: int) -> bool {
    &&& forall|b: int| 0 <= b < table.len() ==> !is_undefined(#[trigger] table[b].key@)
    &&& forall|b: int, c: int|
        0 <= b < c < table.len() ==> !fields_match(#[trigger] table[b].key@, #[trigger] table[c].key@)
    &&& forall|b: int|
        0 <= b < table.len() ==> (#[trigger] table[b]).rows@.len() > 0 && row_views(
            table[b].rows@,
        ) == key_matches(table[b].key@, rows, column)
    &&& forall|i: int|
        0 <= i < rows.len() && !is_undefined(#[trigger] rows[i][column]) ==> exists|b: int|
            0 <= b < table.len() && fields_match(#[trigger] table[b].key@, rows[i][column])
}

fn find_bucket(table: &Vec<Bucket>, key: &Field) -> (r: Option<usize>)
    ensures
        match r {
            Some(b) => b < table@.len() && fields_match(table@[b as int].key@, key@),
            None => forall|b: int|
                0 <= b < table@.len() ==> !fields_match(#[trigger] table@[b].key@, key@),
        },
{
    let mut b: usize = 0;
    while b < table.len()
        invariant
            b <= table@.len(),
            forall|c: int| 0 <= c < b ==> !fields_match(#[trigger] table@[c].key@, key@),
        decreases table@.len() - b,
    {
        if table[b].key.matches(key) {
            return Some(b);
        }
        b += 1;
    }
    None
}

/// Pairs the left row with each of the rows, in their order. Trusted: this
/// is `itertools::Itertools::cartesian_product` of the one-element iterator
/// of the left row with the iterator of the rows, which yields every pair
/// of an element of the first with an element of the second, the second
/// iterated in full and in order for each element of the first.
#[verifier::external_body]
fn pair_with_each(left: Row, rows: &Vec<Row>) -> (pairs: Vec<(Row, Row)>)
    ensures
        pairs@.len() == rows@.len(),
        forall|i: int|
            0 <= i < rows@.len() ==> (#[trigger] pairs@[i]).0@ == left@ && pairs@[i].1@
                == rows@[i]@,
{
    std::iter::once(left).cartesian_product(rows.iter().cloned()).collect()
}

fn probe(
    left: RowResult,
    left_column: usize,
    table: &Vec<Bucket>,
    right_column: usize,
    right_size: usize,
    outer: bool,
    Ghost(rows): Ghost<Seq<Seq<FieldView>>>,
) -> (out: Vec<RowResult>)
    requires
        table_holds(table@, rows, right_column as int),
    ensures
        item_views(out@) == hash_row(
            item_view(left),
            left_column,
            rows,
            right_column,
            right_size as nat,
            outer,
        ),
{
    let mut out: Vec<RowResult> = Vec::new();
    let row = match left {
        Err(e) => {
            out.push(Err(e));
            assert(item_views(out@) =~= seq![Err::<(RecordId, Seq<FieldView>), Error>(e)]);
            return out;
        },
        Ok((_, row)) => row,
    };
    let found = match row.get_field(left_column) {
        Err(e) => {
            out.push(Err(e));
            assert(item_views(out@) =~= seq![Err::<(RecordId, Seq<FieldView>), Error>(e)]);
            return out;
        },
        Ok(key) => find_bucket(table, key),
    };
    let ghost key = row@[left_column as int];
    let ghost selected = key_matches(key, rows, right_column as int);
    match found {
        Some(b) => {
            proof {
                lemma_key_matches_same(table@[b as int].key@, key, rows, right_column as int);
                assert(row_views(table@[b as int].rows@) == selected);
                assert(forall|i: int|
                    0 <= i < selected.len() ==> table@[b as int].rows@[i]@ == #[trigger] selected[i]);
            }
            let ghost left_view = row@;
            let pairs = pair_with_each(row, &table[b].rows);
            assert(pairs@.len() == selected.len());
            for pair in it: pairs
                invariant
                    it.seq() == pairs@,
                    pairs@.len() == selected.len(),
                    forall|i: int|
                        0 <= i < pairs@.len() ==> (#[trigger] pairs@[i]).0@ == left_view
                            && pairs@[i].1@ == selected[i],
                    item_views(out@) == Seq::new(
                        it.index() as nat,
                        |i: int| joined(left_view, selected[i]),
                    ),
            {
                let (l, r) = pair;
                let next: RowResult = Ok((RecordId::invalid(), l.concat(&r)));
                proof {
                    lemma_item_views_push(out@, next);
                    assert(item_views(out@).push(item_view(next)) =~= Seq::new(
                        (it.index() + 1) as nat,
                        |i: int| joined(left_view, selected[i]),
                    ));
                }
                out.push(next);
            }
        },
        None => {
            proof {
                lemma_key_matches_none(key, rows, right_column as int);
                assert forall|i: int| 0 <= i < rows.len() implies !fields_match(
                    key,
                    #[trigger] rows[i][right_column as int],
                ) by {
                    if fields_match(key, rows[i][right_column as int]) {
                        let b = choose|b: int|
                            0 <= b < table@.len() && fields_match(
                                #[trigger] table@[b].key@,
                                rows[i][right_column as int],
                            );
                        lemma_match_symmetric(key, rows[i][right_column as int]);
                        lemma_match_transitive(table@[b].key@, rows[i][right_column as int], key);
                    }
                }
            }
            if outer {
                let filler = Row::nulls(right_size);
                let last: RowResult = Ok((RecordId::invalid(), row.concat(&filler)));
                out.push(last);
                assert(item_views(out@) =~= seq![padded(row@, right_size as nat)]);
            } else {
                assert(item_views(out@) =~= Seq::<Item>::empty());
            }
        },
    }
    out
}

proof fn lemma_table_skips(table: Seq<Bucket>, rows: Seq<Seq<FieldView>>, row: Seq<FieldView>, column: int)
    requires
        table_holds(table, rows, column),
        is_undefined(row[column]),
    ensures
        table_holds(table, rows.push(row), column),
{
    let next = rows.push(row);
    assert(next.drop_last() =~= rows);
    assert forall|i: int| 0 <= i < next.len() && !is_undefined(#[trigger] next[i][column]) implies exists|b: int|
        0 <= b < table.len() && fields_match(#[trigger] table[b].key@, next[i][column]) by {
        assert(next[i] == rows[i]);
    }
}

proof fn lemma_table_grows(
    before: Seq<Bucket>,
    after: Seq<Bucket>,
    rows: Seq<Seq<FieldView>>,
    row: Row,
    column: int,
    b: int,
)
    requires
        table_holds(before, rows, column),
        0 <= b < before.len(),
        fields_match(before[b].key@, row@[column]),
        after.len() == before.len(),
        forall|c: int| 0 <= c < before.len() && c != b ==> after[c] == before[c],
        after[b].key == before[b].key,
        after[b].rows@ == before[b].rows@.push(row),
    ensures
        table_holds(after, rows.push(row@), column),
{
    let next = rows.push(row@);
    assert(next.drop_last() =~= rows);
    assert forall|c: int| 0 <= c < after.len() implies (#[trigger] after[c]).rows@.len() > 0
        && row_views(after[c].rows@) == key_matches(after[c].key@, next, column) by {
        if c == b {
            assert(row_views(before[b].rows@.push(row)) =~= row_views(before[b].rows@).push(row@));
        } else {
            if fields_match(before[c].key@, row@[column]) {
                lemma_match_symmetric(before[b].key@, row@[column]);
                lemma_match_transitive(before[c].key@, row@[column], before[b].key@);
                if c < b {
                    assert(!fields_match(before[c].key@, before[b].key@));
                } else {
                    lemma_match_symmetric(before[c].key@, before[b].key@);
                    assert(!fields_match(before[b].key@, before[c].key@));
                }
            }
        }
    }
    assert forall|i: int| 0 <= i < next.len() && !is_undefined(#[trigger] next[i][column]) implies exists|c: int|
        0 <= c < after.len() && fields_match(#[trigger] after[c].key@, next[i][column]) by {
        if i < rows.len() {
            assert(next[i] == rows[i]);
            let c = choose|c: int|
                0 <= c < before.len() && fields_match(#[trigger] before[c].key@, rows[i][column]);
            assert(after[c].key@ == before[c].key@);
        } else {
            assert(after[b].key@ == before[b].key@);
        }
    }
    assert forall|c: int, d: int| 0 <= c < d < after.len() implies !fields_match(
        #[trigger] after[c].key@,
        #[trigger] after[d].key@,
    ) by {
        assert(after[c].key@ == before[c].key@);
        assert(after[d].key@ == before[d].key@);
    }
    assert forall|c: int| 0 <= c < after.len() implies !is_undefined(#[trigger] after[c].key@) by {
        assert(after[c].key@ == before[c].key@);
    }
}

proof fn lemma_table_opens(
    before: Seq<Bucket>,
    rows: Seq<Seq<FieldView>>,
    bucket: Bucket,
    row: Row,
    column: int,
)
    requires
        table_holds(before, rows, column),
        !is_undefined(row@[column]),
        forall|b: int| 0 <= b < before.len() ==> !fields_match(#[trigger] before[b].key@, row@[column]),
        bucket.key@ == row@[column],
        bucket.rows@ == seq![row],
    ensures
        table_holds(before.push(bucket), rows.push(row@), column),
{
    let after = before.push(bucket);
    let next = rows.push(row@);
    let key = row@[column];
    assert(next.drop_last() =~= rows);
    lemma_key_matches_none(key, rows, column);
    assert forall|i: int| 0 <= i < rows.len() implies !fields_match(key, #[trigger] rows[i][column]) by {
        if fields_match(key, rows[i][column]) {
            let b = choose|b: int|
                0 <= b < before.len() && fields_match(#[trigger] before[b].key@, rows[i][column]);
            lemma_match_symmetric(key, rows[i][column]);
            lemma_match_transitive(before[b].key@, rows[i][column], key);
        }
    }
    assert forall|c: int| 0 <= c < after.len() implies (#[trigger] after[c]).rows@.len() > 0
        && row_views(after[c].rows@) == key_matches(after[c].key@, next, column) by {
        if c < before.len() {
            assert(after[c] == before[c]);
        } else {
            assert(row_views(seq![row]) =~= Seq::<Seq<FieldView>>::empty().push(row@));
        }
    }
    assert forall|i: int| 0 <= i < next.len() && !is_undefined(#[trigger] next[i][column]) implies exists|c: int|
        0 <= c < after.len() && fields_match(#[trigger] after[c].key@, next[i][column]) by {
        if i < rows.len() {
            assert(next[i] == rows[i]);
            let c = choose|c: int|
                0 <= c < before.len() && fields_match(#[trigger] before[c].key@, rows[i][column]);
            assert(after[c] == before[c]);
        } else {
            assert(after[before.len() as int] == bucket);
        }
    }
    assert forall|c: int, d: int| 0 <= c < d < after.len() implies !fields_match(
        #[trigger] after[c].key@,
        #[trigger] after[d].key@,
    ) by {
        assert(after[c] == before[c]);
        if d < before.len() {
            assert(after[d] == before[d]);
        }
    }
}

/// Joins each left row with the right rows whose value at `right_column`
/// matches its value at `left_column`. The right stream is drained first
/// into a table keyed by that value, rows with a NULL or NaN key left out.
/// In an outer join a left row without a match is emitted once, padded
/// with `right_size` NULLs.
pub fn hash(
    left: Rows,
    left_column: usize,
    right: Rows,
    right_column: usize,
    right_size: usize,
    outer: bool,
) -> (r: Result<Rows, Error>)
    ensures
        match r {
            Err(e) => build_side(right@, right_column) == Err::<Seq<Seq<FieldView>>, Error>(e),
            Ok(out) => match build_side(right@, right_column) {
                Err(_) => false,
                Ok(rows) => out@ == hash_items(
                    left@,
                    left_column,
                    rows,
                    right_column,
                    right_size as nat,
                    outer,
                ),
            },
        },
{
    let ghost built = Seq::new(right@.len(), |i: int| build_item(right@[i], right_column));
    let ghost mut rows: Seq<Seq<FieldView>> = Seq::empty();
    let mut table: Vec<Bucket> = Vec::new();
    assert(built.take(0) =~= Seq::<Result<Seq<FieldView>, Error>>::empty());
    for item in it: right.items
        invariant
            it.seq() == right.items@,
            built == Seq::new(right@.len(), |i: int| build_item(right@[i], right_column)),
            collected(built.take(it.index() as int)) == Ok::<Seq<Seq<FieldView>>, Error>(rows),
            table_holds(table@, rows, right_column as int),
    {
        let ghost at = it.index() as int;
        proof {
            assert(built.take(at + 1).drop_last() =~= built.take(at));
            assert(built.take(at + 1).last() == build_item(item_view(item), right_column));
        }
        let row = match item {
            Err(e) => {
                proof {
                    lemma_collected_first_failure(built, at);
                }
                return Err(e);
            },
            Ok((_, row)) => row,
        };
        let known = match row.get_field(right_column) {
            Err(e) => {
                proof {
                    lemma_collected_first_failure(built, at);
                }
                return Err(e);
            },
            Ok(value) => if value.is_undefined() {
                None
            } else {
                Some((value.clone(), find_bucket(&table, value)))
            },
        };
        match known {
            None => {
                proof {
                    lemma_table_skips(table@, rows, row@, right_column as int);
                }
            },
            Some((_, Some(b))) => {
                let ghost before = table@;
                proof {
                    lemma_match_symmetric(before[b as int].key@, row@[right_column as int]);
                }
                table[b].rows.push(row);
                proof {
                    lemma_table_grows(before, table@, rows, row, right_column as int, b as int);
                }
            },
            Some((key, None)) => {
                let ghost before = table@;
                let mut first: Vec<Row> = Vec::new();
                first.push(row);
                let bucket = Bucket { key, rows: first };
                proof {
                    assert(bucket.rows@ =~= seq![row]);
                    lemma_table_opens(before, rows, bucket, row, right_column as int);
                }
                table.push(bucket);
            },
        }
        proof {
            rows = rows.push(row@);
        }
    }
    assert(built.take(built.len() as int) =~= built);

    let mut out: Vec<RowResult> = Vec::new();
    let ghost all = left@;
    for item in it: left.items
        invariant
            it.seq() == left.items@,
            all == item_views(left.items@),
            table_holds(table@, rows, right_column as int),
            item_views(out@) == hash_items(
                all.take(it.index() as int),
                left_column,
                rows,
                right_column,
                right_size as nat,
                outer,
            ),
    {
        proof {
            assert(all.take(it.index() + 1).drop_last() =~= all.take(it.index() as int));
            assert(all.take(it.index() + 1).last() == item_view(item));
        }
        let mut emitted = probe(
            item,
            left_column,
            &table,
            right_column,
            right_size,
            outer,
            Ghost(rows),
        );
        proof {
            lemma_item_views_add(out@, emitted@);
        }
        out.append(&mut emitted);
    }
    proof {
        assert(all.take(all.len() as int) =~= all);
    }
    Ok(Rows::new(out))
}

/// The predicate that holds when the value at position `left` equals the
/// value at position `right` of a joined row.
pub open spec fn equality_of(left: usize, right: usize) -> Expression {
    Expression::Binary(
        BinaryOperator::Equal,
        Box::new(Expression::Column(left)),
        Box::new(Expression::Column(right)),
    )
}

/// Whether two join keys can be compared for equality without a type
/// mismatch: one is NULL, or they have the same type.
pub open spec fn comparable(a: FieldView, b: FieldView) -> bool {
    a == FieldView::Null || b == FieldView::Null || type_rank(a) == type_rank(b)
}

/// Whether the two streams can be equi-joined on the given columns by
/// either strategy: no item is a failure, every left row has `left_width`
/// values and reaches its join column, every right row reaches its join
/// column, and every left key can be compared with every right key.
pub open spec fn equi_joinable(
    left: Seq<Item>,
    left_column: usize,
    left_width: nat,
    right: Seq<Item>,
    right_column: usize,
) -> bool {
    &&& left_column < left_width
    &&& left_width + right_column <= usize::MAX
    &&& forall|i: int|
        0 <= i < left.len() ==> (#[trigger] left[i]) is Ok && left[i]->Ok_0.1.len() == left_width
    &&& forall|j: int|
        0 <= j < right.len() ==> (#[trigger] right[j]) is Ok && right_column
            < right[j]->Ok_0.1.len()
    &&& forall|i: int, j: int|
        0 <= i < left.len() && 0 <= j < right.len() ==> comparable(
            (#[trigger] left[i])->Ok_0.1[left_column as int],
            (#[trigger] right[j])->Ok_0.1[right_column as int],
        )
}

/// The rows of a stream without failures.
pub open spec fn rows_of(items: Seq<Item>) -> Seq<Seq<FieldView>> {
    Seq::new(items.len(), |i: int| items[i]->Ok_0.1)
}

proof fn lemma_build_side_rows(right: Seq<Item>, column: usize)
    requires
        forall|j: int|
            0 <= j < right.len() ==> (#[trigger] right[j]) is Ok && column < right[j]->Ok_0.1.len(),
    ensures
        build_side(right, column) == Ok::<Seq<Seq<FieldView>>, Error>(rows_of(right)),
    decreases right.len(),
{
    let built = Seq::new(right.len(), |i: int| build_item(right[i], column));
    if right.len() == 0 {
        assert(rows_of(right) =~= Seq::<Seq<FieldView>>::empty());
    } else {
        let shorter = right.drop_last();
        assert forall|j: int| 0 <= j < shorter.len() implies (#[trigger] shorter[j]) is Ok && column
            < shorter[j]->Ok_0.1.len() by {
            assert(shorter[j] == right[j]);
        }
        lemma_build_side_rows(shorter, column);
        assert(built.drop_last() =~= Seq::new(shorter.len(), |i: int| build_item(shorter[i], column)));
        assert(right.last() == right[right.len() - 1]);
        assert(rows_of(right) =~= rows_of(shorter).push(right.last()->Ok_0.1));
    }
}

proof fn lemma_pairs_are_key_matches(
    row: Seq<FieldView>,
    left_column: usize,
    right: Seq<Item>,
    right_column: usize,
)
    requires
        left_column < row.len(),
        row.len() + right_column <= usize::MAX,
        forall|j: int|
            0 <= j < right.len() ==> (#[trigger] right[j]) is Ok && right_column
                < right[j]->Ok_0.1.len() && comparable(
                row[left_column as int],
                right[j]->Ok_0.1[right_column as int],
            ),
    ensures
        ({
            let predicate = Some(equality_of(left_column, (row.len() + right_column) as usize));
            let found = key_matches(row[left_column as int], rows_of(right), right_column as int);
            &&& pairs(row, right, predicate) == Seq::new(
                found.len(),
                |i: int| joined(row, found[i]),
            )
            &&& any_match(row, right, predicate) <==> found.len() > 0
        }),
    decreases right.len(),
{
    let position = (row.len() + right_column) as usize;
    let predicate = Some(equality_of(left_column, position));
    let key = row[left_column as int];
    let found = key_matches(key, rows_of(right), right_column as int);
    if right.len() == 0 {
        assert(pairs(row, right, predicate) =~= Seq::new(
            found.len(),
            |i: int| joined(row, found[i]),
        ));
    } else {
        let shorter = right.drop_last();
        assert forall|j: int| 0 <= j < shorter.len() implies (#[trigger] shorter[j]) is Ok
            && right_column < shorter[j]->Ok_0.1.len() && comparable(
            key,
            shorter[j]->Ok_0.1[right_column as int],
        ) by {
            assert(shorter[j] == right[j]);
        }
        lemma_pairs_are_key_matches(row, left_column, shorter, right_column);
        let fewer = key_matches(key, rows_of(shorter), right_column as int);
        assert(rows_of(right).drop_last() =~= rows_of(shorter));
        assert(right.last() == right[right.len() - 1]);
        let other = right.last()->Ok_0.1;
        assert(rows_of(right).last() == other);
        let both = row + other;
        assert(both[left_column as int] == key);
        assert(both[position as int] == other[right_column as int]);
        assert(equality_of(left_column, position).eval(Some(both)) == apply_binary(
            BinaryOperator::Equal,
            key,
            other[right_column as int],
        )) by {
            reveal_with_fuel(Expression::eval, 3);
        }
        assert(is_match(row, right.last(), predicate) == fields_match(
            key,
            other[right_column as int],
        ));
        if fields_match(key, other[right_column as int]) {
            assert(pairs(row, right, predicate) =~= Seq::new(
                found.len(),
                |i: int| joined(row, found[i]),
            ));
        }
        if any_match(row, right, predicate) {
            let k = choose|k: int|
                0 <= k < right.len() && is_match(row, #[trigger] right[k], predicate);
            if k < right.len() - 1 {
                assert(shorter[k] == right[k]);
            }
        }
        if any_match(row, shorter, predicate) {
            let k = choose|k: int|
                0 <= k < shorter.len() && is_match(row, #[trigger] shorter[k], predicate);
            assert(shorter[k] == right[k]);
        }
    }
}

/// The two join strategies agree. On streams that can be equi-joined, the
/// nested-loop join under the equality of the two join columns emits the
/// same rows in the same order as the hash join on those columns, inner or
/// outer.
pub proof fn lemma_join_strategies_agree(
    left: Seq<Item>,
    left_column: usize,
    left_width: nat,
    right: Seq<Item>,
    right_column: usize,
    right_size: nat,
    outer: bool,
)
    requires
        equi_joinable(left, left_column, left_width, right, right_column),
    ensures
        build_side(right, right_column) == Ok::<Seq<Seq<FieldView>>, Error>(rows_of(right)),
        nested_loop_items(
            left,
            right,
            Some(equality_of(left_column, (left_width + right_column) as usize)),
            right_size,
            outer,
        ) == hash_items(left, left_column, rows_of(right), right_column, right_size, outer),
    decreases left.len(),
{
    lemma_build_side_rows(right, right_column);
    if left.len() > 0 {
        let shorter = left.drop_last();
        assert forall|i: int| 0 <= i < shorter.len() implies (#[trigger] shorter[i]) is Ok
            && shorter[i]->Ok_0.1.len() == left_width by {
            assert(shorter[i] == left[i]);
        }
        assert forall|i: int, j: int| 0 <= i < shorter.len() && 0 <= j < right.len() implies comparable(
            (#[trigger] shorter[i])->Ok_0.1[left_column as int],
            (#[trigger] right[j])->Ok_0.1[right_column as int],
        ) by {
            assert(shorter[i] == left[i]);
        }
        lemma_join_strategies_agree(
            shorter,
            left_column,
            left_width,
            right,
            right_column,
            right_size,
            outer,
        );
        assert(left.last() == left[left.len() - 1]);
        let row = left.last()->Ok_0.1;
        assert forall|j: int| 0 <= j < right.len() implies (#[trigger] right[j]) is Ok
            && right_column < right[j]->Ok_0.1.len() && comparable(
            row[left_column as int],
            right[j]->Ok_0.1[right_column as int],
        ) by {
            assert(comparable(
                left[left.len() - 1]->Ok_0.1[left_column as int],
                right[j]->Ok_0.1[right_column as int],
            ));
        }
        lemma_pairs_are_key_matches(row, left_column, right, right_column);
    }
}

/// The two join strategies emit the same multiset of rows on streams that
/// can be equi-joined.
pub proof fn lemma_join_strategies_same_multiset(
    left: Seq<Item>,
    left_column: usize,
    left_width: nat,
    right: Seq<Item>,
    right_column: usize,
    right_size: nat,
    outer: bool,
)
    requires
        equi_joinable(left, left_column, left_width, right, right_column),
    ensures
        nested_loop_items(
            left,
            right,
            Some(equality_of(left_column, (left_width + right_column) as usize)),
            right_size,
            outer,
        ).to_multiset() == hash_items(
            left,
            left_column,
            rows_of(right),
            right_column,
            right_size,
            outer,
        ).to_multiset(),
{
    lemma_join_strategies_agree(
        left,
        left_column,
        left_width,
        right,
        right_column,
        right_size,
        outer,
    );
}

/// An outer join pads exactly the unmatched rows. For a left row that no
/// right item matches, the nested-loop join emits what the inner join emits,
/// which holds no joined row, and then one NULL-padded row; for a left row
/// with a match it emits what the inner join emits and no padded row.
pub proof fn lemma_outer_join_pads_unmatched(
    rid: RecordId,
    row: Seq<FieldView>,
    right: Seq<Item>,
    predicate: Option<Expression>,
    right_size: nat,
)
    ensures
        any_match(row, right, predicate) ==> nested_loop_row(
            Ok((rid, row)),
            right,
            predicate,
            right_size,
            true,
        ) == nested_loop_row(Ok((rid, row)), right, predicate, right_size, false),
        !any_match(row, right, predicate) ==> nested_loop_row(
            Ok((rid, row)),
            right,
            predicate,
            right_size,
            true,
        ) == nested_loop_row(Ok((rid, row)), right, predicate, right_size, false).push(
            padded(row, right_size),
        ),
        !any_match(row, right, predicate) ==> forall|k: int|
            0 <= k < pairs(row, right, predicate).len() ==> (#[trigger] pairs(
                row,
                right,
                predicate,
            )[k]) is Err,
{
    if !any_match(row, right, predicate) {
        lemma_unmatched_pairs_fail(row, right, predicate);
    }
}

proof fn lemma_unmatched_pairs_fail(
    row: Seq<FieldView>,
    right: Seq<Item>,
    predicate: Option<Expression>,
)
    requires
        !any_match(row, right, predicate),
    ensures
        forall|k: int|
            0 <= k < pairs(row, right, predicate).len() ==> (#[trigger] pairs(
                row,
                right,
                predicate,
            )[k]) is Err,
    decreases right.len(),
{
    if right.len() > 0 {
        let shorter = right.drop_last();
        if any_match(row, shorter, predicate) {
            let k = choose|k: int|
                0 <= k < shorter.len() && is_match(row, #[trigger] shorter[k], predicate);
            assert(shorter[k] == right[k]);
        }
        lemma_unmatched_pairs_fail(row, shorter, predicate);
        assert(right.last() == right[right.len() - 1]);
        assert(!is_match(row, right[right.len() - 1], predicate));
    }
}

/// The hash join pads exactly the unmatched rows. For a left row that
/// reaches its join column, an outer join emits one NULL-padded row and
/// nothing else when no right row matches its key, and otherwise what the
/// inner join emits: one joined row for each matching right row.
pub proof fn lemma_outer_hash_join_pads_unmatched(
    rid: RecordId,
    row: Seq<FieldView>,
    left_column: usize,
    rows: Seq<Seq<FieldView>>,
    right_column: usize,
    right_size: nat,
)
    requires
        left_column < row.len(),
    ensures
        ({
            let found = key_matches(row[left_column as int], rows, right_column as int);
            let inner = hash_row(Ok((rid, row)), left_column, rows, right_column, right_size, false);
            let outer = hash_row(Ok((rid, row)), left_column, rows, right_column, right_size, true);
            &&& inner.len() == found.len()
            &&& found.len() > 0 ==> outer == inner
            &&& found.len() == 0 ==> outer == seq![padded(row, right_size)]
        }),
{
}

} // verus!
