//! Row streams that come from the plan itself.

use vstd::prelude::*;
use crate::sql::planner::{eval_all, evaluate_all, Expression};
use crate::storage::page::RecordId;
use crate::storage::tuple::{item_view, item_views, lemma_item_views_push, Item, Row, RowResult, Rows};

verus! {

/// The item of one literal row: the values of its expressions, evaluated
/// without a row, under the invalid identity; or the first failure.
pub open spec fn literal_item(row: Seq<Expression>) -> Item {
    match eval_all(row, None) {
        Err(e) => Err(e),
        Ok(values) => Ok((RecordId::spec_invalid(), values)),
    }
}

/// The contents of the literal rows, one for one.
pub open spec fn literal_items(rows: Seq<Vec<Expression>>) -> Seq<Item> {
    Seq::new(rows.len(), |i: int| literal_item(rows[i]@))
}

/// The empty stream.
pub fn nothing() -> (r: Rows)
    ensures
        r@ == Seq::<Item>::empty(),
{
    Rows::nothing()
}

/// The stream of the literal rows, in order.
pub fn values(rows: Vec<Vec<Expression>>) -> (r: Rows)
    ensures
        r@ == literal_items(rows@),
{
    let mut out: Vec<RowResult> = Vec::new();
    let mut i: usize = 0;
    while i < rows.len()
        invariant
            i <= rows@.len(),
            item_views(out@) == literal_items(rows@).take(i as int),
        decreases rows@.len() - i,
    {
        let next: RowResult = match evaluate_all(&rows[i], None) {
            Err(e) => Err(e),
            Ok(fields) => Ok((RecordId::invalid(), Row::new(fields))),
        };
        proof {
            lemma_item_views_push(out@, next);
            assert(item_view(next) == literal_items(rows@)[i as int]);
            assert(item_views(out@).push(item_view(next)) =~= literal_items(rows@).take(i + 1));
        }
        out.push(next);
        i += 1;
    }
    assert(literal_items(rows@).take(i as int) =~= literal_items(rows@));
    Rows::new(out)
}

} // verus!
