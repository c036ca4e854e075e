//! Operators on one row stream: filter, project, limit, offset, order, remap.

use vstd::prelude::*;
use vstd::set_lib::{lemma_int_range, lemma_subset_equality, set_int_range};
use crate::common::Error;
use crate::sql::planner::{
    collected,
    eval_all,
    evaluate_all,
    lemma_collected_map,
    lemma_collected_ok,
    map_outcome,
    outcomes_view,
    target_width,
    try_collect,
    Expression,
};
use crate::storage::page::RecordId;
use crate::storage::tuple::{
    item_view,
    item_views,
    lemma_item_views_push,
    nulls,
    Item,
    Row,
    RowResult,
    Rows,
};
use crate::types::field::{views, Field, FieldView, Relation};
use crate::types::total_order::{
    compare_key_vectors,
    compare_keys,
    lemma_compare_keys_equal,
    lemma_compare_keys_reverse,
    lemma_compare_keys_transitive,
    Direction,
};

verus! {

/// What filtering makes of one item: a failure passes through; a row is kept
/// when the predicate is true on it, dropped when it is false or NULL, and
/// replaced by a failure when the predicate fails or gives anything else.
pub open spec fn filter_item(item: Item, predicate: Expression) -> Option<Item> {
    match item {
        Err(e) => Some(Err(e)),
        Ok((rid, row)) => match predicate.eval(Some(row)) {
            Err(e) => Some(Err(e)),
            Ok(FieldView::Boolean(keep)) => if keep {
                Some(Ok((rid, row)))
            } else {
                None
            },
            Ok(FieldView::Null) => None,
            Ok(_) => Some(Err(Error::NonBooleanPredicate)),
        },
    }
}

/// The stream that filtering makes of a stream, item by item in order.
pub open spec fn filter_items(source: Seq<Item>, predicate: Expression) -> Seq<Item>
    decreases source.len(),
{
    if source.len() == 0 {
        Seq::empty()
    } else {
        let rest = filter_items(source.drop_last(), predicate);
        match filter_item(source.last(), predicate) {
            Some(item) => rest.push(item),
            None => rest,
        }
    }
}

/// Filters the rows of a stream by a predicate.
pub fn filter(source: Rows, predicate: Expression) -> (r: Rows)
    ensures
        r@ == filter_items(source@, predicate),
{
    let mut out: Vec<RowResult> = Vec::new();
    let ghost all = source@;
    for item in it: source.items
        invariant
            it.seq() == source.items@,
            all == item_views(source.items@),
            item_views(out@) == filter_items(all.take(it.index() as int), predicate),
    {
        proof {
            assert(all.take(it.index() + 1).drop_last() =~= all.take(it.index() as int));
            assert(all.take(it.index() + 1).last() == item_view(item));
        }
        match item {
            Err(e) => {
                proof {
                    lemma_item_views_push(out@, Err(e));
                }
                out.push(Err(e));
            },
            Ok((rid, row)) => {
                match predicate.evaluate(Some(&row)) {
                    Err(e) => {
                        proof {
                            lemma_item_views_push(out@, Err(e));
                        }
                        out.push(Err(e));
                    },
                    Ok(Field::Boolean(true)) => {
                        proof {
                            lemma_item_views_push(out@, Ok((rid, row)));
                        }
                        out.push(Ok((rid, row)));
                    },
                    Ok(Field::Boolean(false)) => {},
                    Ok(Field::Null) => {},
                    Ok(_) => {
                        proof {
                            lemma_item_views_push(out@, Err(Error::NonBooleanPredicate));
                        }
                        out.push(Err(Error::NonBooleanPredicate));
                    },
                }
            },
        }
    }
    proof {
        assert(all.take(all.len() as int) =~= all);
    }
    Rows::new(out)
}

/// The number of items that a limit lets through.
pub open spec fn bounded(n: usize, len: nat) -> int {
    if n <= len {
        n as int
    } else {
        len as int
    }
}

/// Lets at most `count` items through, failures counted as items.
pub fn limit(source: Rows, count: usize) -> (r: Rows)
    ensures
        r@ == source@.take(bounded(count, source@.len())),
{
    let mut items = source.items;
    items.truncate(count);
    let r = Rows::new(items);
    assert(r@ =~= source@.take(bounded(count, source@.len())));
    r
}

/// Skips the first `count` items, failures counted as items, and passes
/// the rest through unchanged.
pub fn offset(source: Rows, count: usize) -> (r: Rows)
    ensures
        r@ == source@.skip(bounded(count, source@.len())),
{
    let mut items = source.items;
    let at = if count <= items.len() {
        count
    } else {
        items.len()
    };
    let rest = items.split_off(at);
    let r = Rows::new(rest);
    assert(r@ =~= source@.skip(bounded(count, source@.len())));
    r
}

/// What projection makes of one item: a failure passes through; a row is
/// replaced by the values of the expressions on it, under the same identity,
/// or by the first failure among them.
pub open spec fn project_item(item: Item, expressions: Seq<Expression>) -> Item {
    match item {
        Err(e) => Err(e),
        Ok((rid, row)) => match eval_all(expressions, Some(row)) {
            Err(e) => Err(e),
            Ok(values) => Ok((rid, values)),
        },
    }
}

/// Replaces each row by the values of the expressions on it.
pub fn project(source: Rows, expressions: Vec<Expression>) -> (r: Rows)
    ensures
        r@ == Seq::new(source@.len(), |i: int| project_item(source@[i], expressions@)),
{
    let mut out: Vec<RowResult> = Vec::new();
    let ghost all = source@;
    for item in it: source.items
        invariant
            it.seq() == source.items@,
            all == item_views(source.items@),
            item_views(out@) == Seq::new(
                it.index() as nat,
                |i: int| project_item(all[i], expressions@),
            ),
    {
        let next: RowResult = match item {
            Err(e) => Err(e),
            Ok((rid, row)) => match evaluate_all(&expressions, Some(&row)) {
                Err(e) => Err(e),
                Ok(values) => Ok((rid, Row::new(values))),
            },
        };
        proof {
            lemma_item_views_push(out@, next);
            assert(item_view(next) == project_item(all[it.index() as int], expressions@));
            assert(item_views(out@).push(item_view(next)) =~= Seq::new(
                (it.index() + 1) as nat,
                |i: int| project_item(all[i], expressions@),
            ));
        }
        out.push(next);
    }
    Rows::new(out)
}

/// The remapped row after the first `n` source columns were placed: it
/// starts as NULLs, and each column with a target overwrites that position.
pub open spec fn remap_prefix(row: Seq<FieldView>, targets: Seq<Option<usize>>, n: int) -> Seq<
    FieldView,
>
    decreases n,
{
    if n <= 0 {
        nulls(target_width(targets))
    } else {
        let placed = remap_prefix(row, targets, n - 1);
        match targets[n - 1] {
            Some(i) => placed.update(i as int, row[n - 1]),
            None => placed,
        }
    }
}

/// The remapped row: every source column that has a target is moved there,
/// a later column overwriting an earlier one with the same target; columns
/// beyond the targets are dropped, and unfilled positions are NULL.
pub open spec fn remap_row(row: Seq<FieldView>, targets: Seq<Option<usize>>) -> Seq<FieldView> {
    remap_prefix(row, targets, bounded_len(row.len(), targets.len()))
}

/// The smaller of two lengths.
pub open spec fn bounded_len(a: nat, b: nat) -> int {
    if a <= b {
        a as int
    } else {
        b as int
    }
}

/// What remapping makes of one item: a failure passes through, a row is
/// remapped under the same identity.
pub open spec fn remap_item(item: Item, targets: Seq<Option<usize>>) -> Item {
    match item {
        Err(e) => Err(e),
        Ok((rid, row)) => Ok((rid, remap_row(row, targets))),
    }
}

/// Every target position lies inside the remapped width.
pub proof fn lemma_target_width_bounds(targets: Seq<Option<usize>>, k: int)
    requires
        0 <= k < targets.len(),
    ensures
        targets[k] is Some ==> targets[k]->Some_0 < target_width(targets),
    decreases targets.len(),
{
    if k < targets.len() - 1 {
        lemma_target_width_bounds(targets.drop_last(), k);
    }
}

/// A remapped row has the remapped width at every stage.
pub proof fn lemma_remap_prefix_len(row: Seq<FieldView>, targets: Seq<Option<usize>>, n: int)
    requires
        n <= targets.len(),
    ensures
        remap_prefix(row, targets, n).len() == target_width(targets),
    decreases n,
{
    if n > 0 {
        lemma_remap_prefix_len(row, targets, n - 1);
        lemma_target_width_bounds(targets, n - 1);
    }
}

fn width_of(targets: &Vec<Option<usize>>) -> (size: usize)
    requires
        target_width(targets@) <= usize::MAX,
    ensures
        size == target_width(targets@),
{
    let mut size: usize = 0;
    let mut i: usize = 0;
    while i < targets.len()
        invariant
            i <= targets@.len(),
            size == target_width(targets@.take(i as int)),
            target_width(targets@) <= usize::MAX,
        decreases targets@.len() - i,
    {
        proof {
            assert(targets@.take(i + 1).drop_last() =~= targets@.take(i as int));
            assert(targets@.take(i + 1).last() == targets@[i as int]);
            lemma_target_width_bounds(targets@, i as int);
        }
        match targets[i] {
            Some(index) => {
                if index + 1 > size {
                    size = index + 1;
                }
            },
            None => {},
        }
        i += 1;
    }
    proof {
        assert(targets@.take(i as int) =~= targets@);
    }
    size
}

fn remap_one(row: Row, targets: &Vec<Option<usize>>, size: usize) -> (r: Row)
    requires
        size == target_width(targets@),
    ensures
        r@ == remap_row(row@, targets@),
{
    let mut out = Row::nulls(size).fields;
    let ghost source = row@;
    let mut n: usize = 0;
    for value in it: row.fields
        invariant
            it.seq() == row.fields@,
            source == views(row.fields@),
            n == bounded_len(it.index() as nat, targets@.len()),
            size == target_width(targets@),
            views(out@) == remap_prefix(source, targets@, n as int),
    {
        if n < targets.len() {
            proof {
                lemma_target_width_bounds(targets@, n as int);
                lemma_remap_prefix_len(source, targets@, n as int);
            }
            match targets[n] {
                Some(index) => {
                    let ghost before = out@;
                    out[index] = value;
                    assert(views(out@) =~= views(before).update(index as int, value@));
                },
                None => {},
            }
            n += 1;
        }
    }
    Row::new(out)
}

/// Moves each source column to its target position or drops it.
pub fn remap(source: Rows, targets: Vec<Option<usize>>) -> (r: Rows)
    requires
        target_width(targets@) <= usize::MAX,
    ensures
        r@ == Seq::new(source@.len(), |i: int| remap_item(source@[i], targets@)),
{
    let size = width_of(&targets);
    let mut out: Vec<RowResult> = Vec::new();
    let ghost all = source@;
    for item in it: source.items
        invariant
            it.seq() == source.items@,
            all == item_views(source.items@),
            size == target_width(targets@),
            item_views(out@) == Seq::new(
                it.index() as nat,
                |i: int| remap_item(all[i], targets@),
            ),
    {
        let next: RowResult = match item {
            Err(e) => Err(e),
            Ok((rid, row)) => Ok((rid, remap_one(row, &targets, size))),
        };
        proof {
            lemma_item_views_push(out@, next);
            assert(item_view(next) == remap_item(all[it.index() as int], targets@));
            assert(item_views(out@).push(item_view(next)) =~= Seq::new(
                (it.index() + 1) as nat,
                |i: int| remap_item(all[i], targets@),
            ));
        }
        out.push(next);
    }
    Rows::new(out)
}

/// The expressions of a sort order, in order.
pub open spec fn key_expressions(order: Seq<(Expression, Direction)>) -> Seq<Expression> {
    Seq::new(order.len(), |i: int| order[i].0)
}

/// The directions of a sort order, in order.
pub open spec fn key_directions(order: Seq<(Expression, Direction)>) -> Seq<Direction> {
    Seq::new(order.len(), |i: int| order[i].1)
}

/// The key vector of every row, or the first failure of a key expression,
/// rows taken in order.
pub open spec fn sort_keys(
    rows: Seq<(RecordId, Seq<FieldView>)>,
    expressions: Seq<Expression>,
) -> Result<Seq<Seq<FieldView>>, Error> {
    collected(Seq::new(rows.len(), |i: int| eval_all(expressions, Some(rows[i].1))))
}

/// Whether the row at position `a` must come before the row at position `b`:
/// its key is smaller, or the keys are equal and it came first.
pub open spec fn precedes(
    keys: Seq<Seq<FieldView>>,
    directions: Seq<Direction>,
    a: int,
    b: int,
) -> bool {
    compare_keys(keys[a], keys[b], directions) == Relation::Less || (compare_keys(
        keys[a],
        keys[b],
        directions,
    ) == Relation::Equal && a < b)
}

/// Whether `p` lists the positions of all rows in sorted order: one entry
/// per row, each a position, and every entry must come before each later one.
pub open spec fn sorts(p: Seq<int>, keys: Seq<Seq<FieldView>>, directions: Seq<Direction>) -> bool {
    &&& p.len() == keys.len()
    &&& forall|i: int| 0 <= i < p.len() ==> 0 <= #[trigger] p[i] < keys.len()
    &&& forall|i: int, j: int|
        0 <= i < j < p.len() ==> precedes(keys, directions, #[trigger] p[i], #[trigger] p[j])
}

/// The rows taken in the order that `p` lists.
pub open spec fn arranged(rows: Seq<(RecordId, Seq<FieldView>)>, p: Seq<int>) -> Seq<Item> {
    Seq::new(p.len(), |i: int| Ok::<(RecordId, Seq<FieldView>), Error>(rows[p[i]]))
}

/// The content of a row with its identity.
pub open spec fn pair_view(p: (RecordId, Row)) -> (RecordId, Seq<FieldView>) {
    (p.0, p.1@)
}

/// The contents of rows with their identities, one for one.
pub open spec fn pair_views(rows: Seq<(RecordId, Row)>) -> Seq<(RecordId, Seq<FieldView>)> {
    Seq::new(rows.len(), |i: int| pair_view(rows[i]))
}

/// The listing that sorts the rows with the given keys.
pub open spec fn sorted_listing(keys: Seq<Seq<FieldView>>, directions: Seq<Direction>) -> Seq<int> {
    choose|p: Seq<int>| sorts(p, keys, directions)
}

/// The sorted stream: the rows of the source arranged by the listing that
/// sorts them; or the first failure of the source; or, where the source
/// has none, the first failure of a key expression, rows taken in order.
pub open spec fn ordered(source: Seq<Item>, key: Seq<(Expression, Direction)>) -> Result<
    Seq<Item>,
    Error,
> {
    match collected(source) {
        Err(e) => Err(e),
        Ok(rows) => match sort_keys(rows, key_expressions(key)) {
            Err(e) => Err(e),
            Ok(keys) => Ok(arranged(rows, sorted_listing(keys, key_directions(key)))),
        },
    }
}

/// The key vectors of a vector of keys.
pub open spec fn key_views(keys: Seq<Vec<Field>>) -> Seq<Seq<FieldView>> {
    Seq::new(keys.len(), |i: int| views(keys[i]@))
}

/// The positions as mathematical integers.
pub open spec fn positions(perm: Seq<usize>) -> Seq<int> {
    Seq::new(perm.len(), |i: int| perm[i] as int)
}

fn sorted_positions(keys: &Vec<Vec<Field>>, directions: &Vec<Direction>) -> (perm: Vec<usize>)
    ensures
        sorts(positions(perm@), key_views(keys@), directions@),
{
    let ghost model = key_views(keys@);
    let mut perm: Vec<usize> = Vec::new();
    let mut k: usize = 0;
    while k < keys.len()
        invariant
            k <= keys@.len(),
            model == key_views(keys@),
            perm@.len() == k,
            forall|i: int| 0 <= i < k ==> #[trigger] perm@[i] < k,
            forall|i: int, j: int|
                0 <= i < j < k ==> precedes(
                    model,
                    directions@,
                    #[trigger] perm@[i] as int,
                    #[trigger] perm@[j] as int,
                ),
        decreases keys@.len() - k,
    {
        let mut pos: usize = k;
        while pos > 0 && compare_key_vectors(&keys[perm[pos - 1]], &keys[k], directions)
            == Relation::Greater
            invariant
                pos <= k < keys@.len(),
                model == key_views(keys@),
                perm@.len() == k,
                forall|i: int| 0 <= i < k ==> #[trigger] perm@[i] < k,
                forall|j: int|
                    pos <= j < k ==> compare_keys(
                        model[#[trigger] perm@[j] as int],
                        model[k as int],
                        directions@,
                    ) == Relation::Greater,
            decreases pos,
        {
            pos -= 1;
        }
        let ghost before = perm@;
        perm.insert(pos, k);
        proof {
            assert forall|i: int| 0 <= i < k + 1 implies #[trigger] perm@[i] < k + 1 by {
                if i < pos {
                    assert(perm@[i] == before[i]);
                } else if i > pos {
                    assert(perm@[i] == before[i - 1]);
                }
            }
            assert forall|i: int, j: int| 0 <= i < j < k + 1 implies precedes(
                model,
                directions@,
                #[trigger] perm@[i] as int,
                #[trigger] perm@[j] as int,
            ) by {
                if j < pos {
                    assert(perm@[i] == before[i] && perm@[j] == before[j]);
                } else if j == pos {
                    assert(perm@[i] == before[i]);
                    assert(before[pos - 1] < k);
                    if i < pos - 1 {
                        assert(precedes(
                            model,
                            directions@,
                            before[i] as int,
                            before[pos - 1] as int,
                        ));
                        lemma_compare_keys_transitive(
                            model[before[i] as int],
                            model[before[pos - 1] as int],
                            model[k as int],
                            directions@,
                        );
                    }
                    assert(before[i] < k);
                } else if i == pos {
                    assert(perm@[j] == before[j - 1]);
                    lemma_compare_keys_reverse(
                        model[before[j - 1] as int],
                        model[k as int],
                        directions@,
                    );
                } else if i < pos {
                    assert(perm@[i] == before[i] && perm@[j] == before[j - 1]);
                } else {
                    assert(perm@[i] == before[i - 1] && perm@[j] == before[j - 1]);
                }
            }
        }
        k += 1;
    }
    proof {
        let p = positions(perm@);
        assert forall|i: int, j: int| 0 <= i < j < p.len() implies precedes(
            model,
            directions@,
            #[trigger] p[i],
            #[trigger] p[j],
        ) by {
            assert(precedes(model, directions@, perm@[i] as int, perm@[j] as int));
        }
    }
    perm
}

/// The content of a stream that may have failed as a whole.
pub open spec fn stream_view(r: Result<Rows, Error>) -> Result<Seq<Item>, Error> {
    match r {
        Ok(rows) => Ok(rows@),
        Err(e) => Err(e),
    }
}

/// Sorts the rows by the given keys, each in its direction. Rows with equal
/// keys keep the order they came in. A failure anywhere in the source is
/// returned before any key is evaluated; then the first key that fails,
/// rows taken in order.
pub fn order(source: Rows, key: Vec<(Expression, Direction)>) -> (r: Result<Rows, Error>)
    ensures
        stream_view(r) == ordered(source@, key@),
        r is Ok ==> sorts(
            sorted_listing(
                sort_keys(collected(source@)->Ok_0, key_expressions(key@))->Ok_0,
                key_directions(key@),
            ),
            sort_keys(collected(source@)->Ok_0, key_expressions(key@))->Ok_0,
            key_directions(key@),
        ),
{
    let ghost items = source.items@;
    proof {
        let f = |p: (RecordId, Row)| pair_view(p);
        lemma_collected_map(items, f);
        assert(source@ =~= Seq::new(items.len(), |i: int| map_outcome(items[i], f)));
        if collected(items) is Ok {
            let rows = collected(items)->Ok_0;
            assert(Seq::new(rows.len(), |i: int| f(rows[i])) =~= pair_views(rows));
        }
    }
    let rows = match try_collect(source.items) {
        Err(e) => {
            return Err(e);
        },
        Ok(rows) => rows,
    };
    let ghost row_views = pair_views(rows@);
    assert(collected(source@) == Ok::<Seq<(RecordId, Seq<FieldView>)>, Error>(row_views));

    let mut expressions: Vec<Expression> = Vec::new();
    let mut directions: Vec<Direction> = Vec::new();
    for pair in it: key
        invariant
            it.seq() == key@,
            expressions@ == key_expressions(key@).take(it.index() as int),
            directions@ == key_directions(key@).take(it.index() as int),
    {
        let (expression, direction) = pair;
        expressions.push(expression);
        directions.push(direction);
        assert(expressions@ =~= key_expressions(key@).take(it.index() + 1));
        assert(directions@ =~= key_directions(key@).take(it.index() + 1));
    }
    assert(expressions@ =~= key_expressions(key@));
    assert(directions@ =~= key_directions(key@));

    let mut outcomes: Vec<Result<Vec<Field>, Error>> = Vec::new();
    let mut i: usize = 0;
    while i < rows.len()
        invariant
            i <= rows@.len(),
            outcomes@.len() == i,
            row_views == pair_views(rows@),
            forall|k: int|
                0 <= k < i ==> outcomes_view(#[trigger] outcomes@[k]) == eval_all(
                    expressions@,
                    Some(row_views[k].1),
                ),
        decreases rows@.len() - i,
    {
        assert(row_views[i as int] == pair_view(rows@[i as int]));
        outcomes.push(evaluate_all(&expressions, Some(&rows[i].1)));
        i += 1;
    }
    proof {
        let f = |key: Vec<Field>| views(key@);
        lemma_collected_ok(outcomes@);
        lemma_collected_map(outcomes@, f);
        assert(Seq::new(outcomes@.len(), |i: int| map_outcome(outcomes@[i], f)) =~= Seq::new(
            row_views.len(),
            |i: int| eval_all(expressions@, Some(row_views[i].1)),
        ));
        if collected(outcomes@) is Ok {
            let keys = collected(outcomes@)->Ok_0;
            assert(Seq::new(keys.len(), |i: int| f(keys[i])) =~= key_views(keys));
        }
    }
    let keys = match try_collect(outcomes) {
        Err(e) => {
            return Err(e);
        },
        Ok(keys) => keys,
    };
    assert(sort_keys(row_views, expressions@) == Ok::<Seq<Seq<FieldView>>, Error>(
        key_views(keys@),
    ));

    let perm = sorted_positions(&keys, &directions);
    assert forall|i: int| 0 <= i < perm@.len() implies #[trigger] perm@[i] < rows@.len() by {
        assert(positions(perm@)[i] < keys@.len());
    }
    let mut out: Vec<RowResult> = Vec::new();
    let mut n: usize = 0;
    while n < perm.len()
        invariant
            n <= perm@.len(),
            perm@.len() == rows@.len(),
            forall|i: int| 0 <= i < perm@.len() ==> #[trigger] perm@[i] < rows@.len(),
            row_views == pair_views(rows@),
            item_views(out@) == arranged(row_views, positions(perm@)).take(n as int),
        decreases perm@.len() - n,
    {
        let next: RowResult = Ok((rows[perm[n]].0, rows[perm[n]].1.clone()));
        proof {
            lemma_item_views_push(out@, next);
            assert(row_views[perm@[n as int] as int] == pair_view(rows@[perm@[n as int] as int]));
            assert(item_view(next) == arranged(row_views, positions(perm@))[n as int]);
            assert(item_views(out@).push(item_view(next)) =~= arranged(
                row_views,
                positions(perm@),
            ).take(n + 1));
        }
        out.push(next);
        n += 1;
    }
    let sorted = Rows::new(out);
    proof {
        let p = positions(perm@);
        assert(arranged(row_views, p).take(n as int) =~= arranged(row_views, p));
        assert(sorts(p, key_views(keys@), directions@));
        lemma_sorts_unique(p, sorted_listing(key_views(keys@), directions@), key_views(keys@), directions@);
    }
    Ok(sorted)
}

/// Limits compose. A limit of `m` after a limit of `n` lets through what a
/// limit of the smaller of the two lets through, and a limit of zero lets
/// nothing through.
pub proof fn lemma_limit_of_limit(source: Seq<Item>, n: usize, m: usize)
    ensures
        source.take(bounded(n, source.len())).take(
            bounded(m, source.take(bounded(n, source.len())).len()),
        ) == source.take(
            bounded(
                if n <= m {
                    n
                } else {
                    m
                },
                source.len(),
            ),
        ),
        source.take(bounded(0, source.len())) == Seq::<Item>::empty(),
{
    let first = source.take(bounded(n, source.len()));
    let smaller = if n <= m {
        n
    } else {
        m
    };
    assert(first.take(bounded(m, first.len())) =~= source.take(bounded(smaller, source.len())));
    assert(source.take(bounded(0, source.len())) =~= Seq::<Item>::empty());
}

/// An offset keeps the tail. After an offset of `k`, a stream of `len`
/// items holds `len - k` items, or none when `k` exceeds `len`, and they
/// are the items from position `k` on, in their order.
pub proof fn lemma_offset_keeps_tail(source: Seq<Item>, k: usize)
    ensures
        source.skip(bounded(k, source.len())).len() == (if k <= source.len() {
            source.len() - k
        } else {
            0
        }),
        forall|i: int|
            0 <= i < source.skip(bounded(k, source.len())).len() ==> #[trigger] source.skip(
                bounded(k, source.len()),
            )[i] == source[k + i],
{
}

/// A sorted listing names every position. A listing that sorts `n` rows
/// has no position twice and every position from `0` to `n - 1` once.
pub proof fn lemma_sorts_permutes(
    p: Seq<int>,
    keys: Seq<Seq<FieldView>>,
    directions: Seq<Direction>,
)
    requires
        sorts(p, keys, directions),
    ensures
        p.no_duplicates(),
        forall|k: int| 0 <= k < keys.len() ==> p.contains(k),
{
    assert forall|i: int, j: int| 0 <= i < p.len() && 0 <= j < p.len() && i != j implies p[i]
        != p[j] by {
        lemma_compare_keys_equal(keys[p[i]], keys[p[i]], directions);
        if i < j {
            assert(precedes(keys, directions, p[i], p[j]));
        } else {
            assert(precedes(keys, directions, p[j], p[i]));
        }
    }
    let range = set_int_range(0, keys.len() as int);
    lemma_int_range(0, keys.len() as int);
    p.unique_seq_to_set();
    assert(p.to_set().subset_of(range)) by {
        assert forall|k: int| p.to_set().contains(k) implies range.contains(k) by {
            let i = choose|i: int| 0 <= i < p.len() && p[i] == k;
            assert(0 <= p[i] < keys.len());
        }
    }
    vstd::set_lib::lemma_len_subset(p.to_set(), range);
    lemma_subset_equality(p.to_set(), range);
    assert forall|k: int| 0 <= k < keys.len() implies p.contains(k) by {
        assert(range.contains(k));
        assert(p.to_set().contains(k));
    }
}

proof fn lemma_sorts_agree(
    p: Seq<int>,
    q: Seq<int>,
    keys: Seq<Seq<FieldView>>,
    directions: Seq<Direction>,
    m: int,
)
    requires
        sorts(p, keys, directions),
        sorts(q, keys, directions),
        0 <= m <= keys.len(),
    ensures
        forall|i: int| 0 <= i < m ==> p[i] == q[i],
    decreases m,
{
    if m > 0 {
        lemma_sorts_agree(p, q, keys, directions, m - 1);
        lemma_sorts_permutes(p, keys, directions);
        lemma_sorts_permutes(q, keys, directions);
        let a = p[m - 1];
        let b = q[m - 1];
        if a != b {
            assert(0 <= a < keys.len());
            assert(0 <= b < keys.len());
            assert(q.contains(a));
            assert(p.contains(b));
            let x = choose|x: int| 0 <= x < q.len() && q[x] == a;
            let y = choose|y: int| 0 <= y < p.len() && p[y] == b;
            if x < m - 1 {
                assert(p[x] == q[x]);
            }
            if y < m - 1 {
                assert(p[y] == q[y]);
            }
            assert(x > m - 1);
            assert(y > m - 1);
            assert(precedes(keys, directions, q[m - 1], q[x]));
            assert(precedes(keys, directions, p[m - 1], p[y]));
            lemma_compare_keys_reverse(keys[a], keys[b], directions);
        }
    }
}

/// Sorting has one outcome. Two listings that sort the same rows by the
/// same keys and directions are the same listing, so the sorted stream is
/// determined.
pub proof fn lemma_sorts_unique(
    p: Seq<int>,
    q: Seq<int>,
    keys: Seq<Seq<FieldView>>,
    directions: Seq<Direction>,
)
    requires
        sorts(p, keys, directions),
        sorts(q, keys, directions),
    ensures
        p == q,
{
    lemma_sorts_agree(p, q, keys, directions, keys.len() as int);
    assert(p =~= q);
}

} // verus!
