//! Grouped aggregation: rows are sorted into buckets by their GROUP BY key,
//! and each bucket carries one accumulator per aggregate.

use vstd::prelude::*;
use crate::common::Error;
use crate::sql::planner::{
    collected,
    eval_all,
    evaluate_all,
    lemma_collected_ok,
    lemma_collected_views,
    outcome_view,
    outcome_views,
    outcomes_view,
    try_collect,
    Aggregate,
    Expression,
};
use crate::sql::execution::transform::stream_view;
use crate::storage::page::RecordId;
use crate::storage::tuple::{
    item_view,
    item_views,
    lemma_item_views_push,
    Item,
    Row,
    RowResult,
    Rows,
};
use crate::types::field::{
    add_fields,
    compare_fields,
    divide_fields,
    views,
    Field,
    FieldView,
    Relation,
};
use crate::types::total_order::{
    compare_key_vectors,
    compare_keys,
    lemma_compare_keys_equal,
    lemma_compare_keys_reverse,
    lemma_compare_keys_transitive,
    Direction,
};

verus! {

/// The mathematical content of an [`Accumulator`].
pub enum AccumulatorView {
    Average { count: i64, sum: FieldView },
    Count(i64),
    Max(Option<FieldView>),
    Min(Option<FieldView>),
    Sum(Option<FieldView>),
}

/// The running state of one aggregate over the values seen so far.
#[derive(Debug, PartialEq)]
pub enum Accumulator {
    Average { count: i64, sum: Field },
    Count(i64),
    Max(Option<Field>),
    Min(Option<Field>),
    Sum(Option<Field>),
}

/// The content of a value that may be absent.
pub open spec fn optional_view(f: Option<Field>) -> Option<FieldView> {
    match f {
        Some(v) => Some(v@),
        None => None,
    }
}

impl View for Accumulator {
    type V = AccumulatorView;

    open spec fn view(&self) -> AccumulatorView {
        match self {
            Accumulator::Average { count, sum } => AccumulatorView::Average {
                count: *count,
                sum: sum@,
            },
            Accumulator::Count(n) => AccumulatorView::Count(*n),
            Accumulator::Max(v) => AccumulatorView::Max(optional_view(*v)),
            Accumulator::Min(v) => AccumulatorView::Min(optional_view(*v)),
            Accumulator::Sum(v) => AccumulatorView::Sum(optional_view(*v)),
        }
    }
}

fn clone_optional(f: &Option<Field>) -> (r: Option<Field>)
    ensures
        optional_view(r) == optional_view(*f),
{
    match f {
        Some(v) => Some(v.clone()),
        None => None,
    }
}

impl Clone for Accumulator {
    fn clone(&self) -> (r: Accumulator)
        ensures
            r@ == self@,
    {
        match self {
            Accumulator::Average { count, sum } => Accumulator::Average {
                count: *count,
                sum: sum.clone(),
            },
            Accumulator::Count(n) => Accumulator::Count(*n),
            Accumulator::Max(v) => Accumulator::Max(clone_optional(v)),
            Accumulator::Min(v) => Accumulator::Min(clone_optional(v)),
            Accumulator::Sum(v) => Accumulator::Sum(clone_optional(v)),
        }
    }
}

/// The accumulator that an aggregate starts from.
pub open spec fn initial(aggregate: Aggregate) -> AccumulatorView {
    match aggregate {
        Aggregate::Average(_) => AccumulatorView::Average { count: 0, sum: FieldView::Integer(0) },
        Aggregate::Count(_) => AccumulatorView::Count(0),
        Aggregate::Max(_) => AccumulatorView::Max(None),
        Aggregate::Min(_) => AccumulatorView::Min(None),
        Aggregate::Sum(_) => AccumulatorView::Sum(None),
    }
}

/// A count with one more, or an overflow failure at the end of the range.
pub open spec fn counted(n: i64) -> Result<i64, Error> {
    if n < i64::MAX {
        Ok((n + 1) as i64)
    } else {
        Err(Error::Overflow)
    }
}

/// The accumulator after one more value.
///
/// A count goes up on every value that is not NULL. A sum starts from the
/// integer zero and adds each value with checked addition, so a NULL value
/// turns the sum into NULL. A maximum adopts the first value and then every
/// value that the total order puts strictly above it; a minimum likewise
/// with strictly below; NULL, the smallest value of the order, is therefore
/// adopted by a minimum and dropped by a maximum that holds anything else.
/// An average adds the value to its running sum and counts it, NULL or not.
pub open spec fn accumulate(acc: AccumulatorView, value: FieldView) -> Result<
    AccumulatorView,
    Error,
> {
    match acc {
        AccumulatorView::Average { count, sum } => match add_fields(sum, value) {
            Err(e) => Err(e),
            Ok(total) => match counted(count) {
                Err(e) => Err(e),
                Ok(n) => Ok(AccumulatorView::Average { count: n, sum: total }),
            },
        },
        AccumulatorView::Count(n) => if value == FieldView::Null {
            Ok(acc)
        } else {
            match counted(n) {
                Err(e) => Err(e),
                Ok(m) => Ok(AccumulatorView::Count(m)),
            }
        },
        AccumulatorView::Max(None) => Ok(AccumulatorView::Max(Some(value))),
        AccumulatorView::Max(Some(max)) => if compare_fields(value, max) == Relation::Greater {
            Ok(AccumulatorView::Max(Some(value)))
        } else {
            Ok(acc)
        },
        AccumulatorView::Min(None) => Ok(AccumulatorView::Min(Some(value))),
        AccumulatorView::Min(Some(min)) => if compare_fields(value, min) == Relation::Less {
            Ok(AccumulatorView::Min(Some(value)))
        } else {
            Ok(acc)
        },
        AccumulatorView::Sum(None) => match add_fields(FieldView::Integer(0), value) {
            Err(e) => Err(e),
            Ok(total) => Ok(AccumulatorView::Sum(Some(total))),
        },
        AccumulatorView::Sum(Some(sum)) => match add_fields(sum, value) {
            Err(e) => Err(e),
            Ok(total) => Ok(AccumulatorView::Sum(Some(total))),
        },
    }
}

/// The value of the aggregate. An average is the running sum divided by the
/// count with checked division, or NULL when nothing was counted; a count is
/// its number; a maximum, minimum or sum that saw no value is NULL.
pub open spec fn finish(acc: AccumulatorView) -> Result<FieldView, Error> {
    match acc {
        AccumulatorView::Average { count, sum } => if count == 0 {
            Ok(FieldView::Null)
        } else {
            divide_fields(sum, FieldView::Integer(count))
        },
        AccumulatorView::Count(n) => Ok(FieldView::Integer(n)),
        AccumulatorView::Max(v) | AccumulatorView::Min(v) | AccumulatorView::Sum(v) => match v {
            Some(value) => Ok(value),
            None => Ok(FieldView::Null),
        },
    }
}

impl Accumulator {
    /// The accumulator that an aggregate starts from.
    pub fn new(aggregate: &Aggregate) -> (r: Accumulator)
        ensures
            r@ == initial(*aggregate),
    {
        match aggregate {
            Aggregate::Average(_) => Accumulator::Average { count: 0, sum: Field::Integer(0) },
            Aggregate::Count(_) => Accumulator::Count(0),
            Aggregate::Max(_) => Accumulator::Max(None),
            Aggregate::Min(_) => Accumulator::Min(None),
            Aggregate::Sum(_) => Accumulator::Sum(None),
        }
    }

    /// Takes one more value in. On a failure the accumulator is as before.
    pub fn add(&mut self, value: Field) -> (r: Result<(), Error>)
        ensures
            match r {
                Ok(_) => accumulate(old(self)@, value@) == Ok::<AccumulatorView, Error>(
                    final(self)@,
                ),
                Err(e) => accumulate(old(self)@, value@) == Err::<AccumulatorView, Error>(e)
                    && final(self)@ == old(self)@,
            },
    {
        match self {
            Accumulator::Average { count, sum } => {
                let total = match sum.checked_add(&value) {
                    Err(e) => {
                        return Err(e);
                    },
                    Ok(total) => total,
                };
                if *count == i64::MAX {
                    return Err(Error::Overflow);
                }
                *sum = total;
                *count = *count + 1;
            },
            Accumulator::Count(count) => {
                if !value.is_null() {
                    if *count == i64::MAX {
                        return Err(Error::Overflow);
                    }
                    *count = *count + 1;
                }
            },
            Accumulator::Max(held) => {
                let replace = match held {
                    Some(max) => match value.compare(max) {
                        Relation::Greater => true,
                        _ => false,
                    },
                    None => true,
                };
                if replace {
                    *held = Some(value);
                }
            },
            Accumulator::Min(held) => {
                let replace = match held {
                    Some(min) => match value.compare(min) {
                        Relation::Less => true,
                        _ => false,
                    },
                    None => true,
                };
                if replace {
                    *held = Some(value);
                }
            },
            Accumulator::Sum(held) => {
                let total = match held {
                    Some(sum) => sum.checked_add(&value),
                    None => Field::Integer(0).checked_add(&value),
                };
                match total {
                    Err(e) => {
                        return Err(e);
                    },
                    Ok(total) => {
                        *held = Some(total);
                    },
                }
            },
        }
        Ok(())
    }

    /// The value of the aggregate.
    pub fn value(self) -> (r: Result<Field, Error>)
        ensures
            match r {
                Ok(f) => finish(self@) == Ok::<FieldView, Error>(f@),
                Err(e) => finish(self@) == Err::<FieldView, Error>(e),
            },
    {
        match self {
            Accumulator::Average { count, sum } => {
                if count == 0 {
                    Ok(Field::Null)
                } else {
                    let divisor = Field::Integer(count);
                    sum.checked_div(&divisor)
                }
            },
            Accumulator::Count(count) => Ok(Field::Integer(count)),
            Accumulator::Max(field) => Ok(
                match field {
                    Some(v) => v,
                    None => Field::Null,
                },
            ),
            Accumulator::Min(field) => Ok(
                match field {
                    Some(v) => v,
                    None => Field::Null,
                },
            ),
            Accumulator::Sum(field) => Ok(
                match field {
                    Some(v) => v,
                    None => Field::Null,
                },
            ),
        }
    }
}

/// The accumulators of every bucket, by GROUP BY key.
pub type Groups = Map<Seq<FieldView>, Seq<AccumulatorView>>;

/// The contents of a vector of accumulators, one for one.
pub open spec fn accumulator_views(accs: Seq<Accumulator>) -> Seq<AccumulatorView> {
    Seq::new(accs.len(), |i: int| accs[i]@)
}

/// The accumulators that the aggregates start from, in their order.
pub open spec fn template_of(aggregates: Seq<Aggregate>) -> Seq<AccumulatorView> {
    Seq::new(aggregates.len(), |i: int| initial(aggregates[i]))
}

/// The expressions that the aggregates take their values from, in order.
pub open spec fn sources_of(aggregates: Seq<Aggregate>) -> Seq<Expression> {
    Seq::new(aggregates.len(), |i: int| aggregates[i].source())
}

/// The accumulators after the first `n` of them took in the value of their
/// expression on the row, one after the other; the first expression or
/// accumulator that fails is the failure of the whole.
pub open spec fn accumulate_prefix(
    accs: Seq<AccumulatorView>,
    expressions: Seq<Expression>,
    row: Seq<FieldView>,
    n: int,
) -> Result<Seq<AccumulatorView>, Error>
    decreases n,
{
    if n <= 0 {
        Ok(accs)
    } else {
        match accumulate_prefix(accs, expressions, row, n - 1) {
            Err(e) => Err(e),
            Ok(sofar) => match expressions[n - 1].eval(Some(row)) {
                Err(e) => Err(e),
                Ok(value) => match accumulate(sofar[n - 1], value) {
                    Err(e) => Err(e),
                    Ok(acc) => Ok(sofar.update(n - 1, acc)),
                },
            },
        }
    }
}

/// The accumulators after each took in the value of its expression on the row.
pub open spec fn accumulate_all(
    accs: Seq<AccumulatorView>,
    expressions: Seq<Expression>,
    row: Seq<FieldView>,
) -> Result<Seq<AccumulatorView>, Error> {
    accumulate_prefix(accs, expressions, row, expressions.len() as int)
}

/// The buckets after one more row: its GROUP BY key is evaluated, the
/// bucket of that key is taken, or a fresh one made from the template, and
/// its accumulators take the row in.
pub open spec fn absorb(
    groups: Groups,
    row: Seq<FieldView>,
    group_by: Seq<Expression>,
    template: Seq<AccumulatorView>,
    expressions: Seq<Expression>,
) -> Result<Groups, Error> {
    match eval_all(group_by, Some(row)) {
        Err(e) => Err(e),
        Ok(key) => {
            let start = if groups.contains_key(key) {
                groups[key]
            } else {
                template
            };
            match accumulate_all(start, expressions, row) {
                Err(e) => Err(e),
                Ok(accs) => Ok(groups.insert(key, accs)),
            }
        },
    }
}

/// The buckets after the whole stream, items taken in order; the first
/// failure, of the stream or of an evaluation, is the failure of the whole.
pub open spec fn grouped(
    source: Seq<Item>,
    group_by: Seq<Expression>,
    template: Seq<AccumulatorView>,
    expressions: Seq<Expression>,
) -> Result<Groups, Error>
    decreases source.len(),
{
    if source.len() == 0 {
        Ok(Map::empty())
    } else {
        match grouped(source.drop_last(), group_by, template, expressions) {
            Err(e) => Err(e),
            Ok(groups) => match source.last() {
                Err(e) => Err(e),
                Ok((_, row)) => absorb(groups, row, group_by, template, expressions),
            },
        }
    }
}

/// The values of the accumulators in order, or the first failure among them.
pub open spec fn finals(accs: Seq<AccumulatorView>) -> Result<Seq<FieldView>, Error> {
    collected(Seq::new(accs.len(), |i: int| finish(accs[i])))
}

/// The row emitted for one bucket: its key followed by the values of its
/// accumulators, under the invalid identity; or the failure of a value.
pub open spec fn group_item(key: Seq<FieldView>, accs: Seq<AccumulatorView>) -> Item {
    match finals(accs) {
        Err(e) => Err(e),
        Ok(values) => Ok((RecordId::spec_invalid(), key + values)),
    }
}

/// Whether `keys` lists the keys of all buckets in strictly increasing order.
pub open spec fn lists_groups(keys: Seq<Seq<FieldView>>, groups: Groups) -> bool {
    &&& forall|i: int, j: int|
        0 <= i < j < keys.len() ==> compare_keys(
            #[trigger] keys[i],
            #[trigger] keys[j],
            Seq::empty(),
        ) == Relation::Less
    &&& forall|i: int| 0 <= i < keys.len() ==> groups.contains_key(#[trigger] keys[i])
    &&& forall|k: Seq<FieldView>|
        groups.contains_key(k) ==> exists|i: int| 0 <= i < keys.len() && #[trigger] keys[i] == k
}

/// The rows emitted for the buckets in the order that `keys` lists.
pub open spec fn group_items(keys: Seq<Seq<FieldView>>, groups: Groups) -> Seq<Item> {
    Seq::new(keys.len(), |i: int| group_item(keys[i], groups[keys[i]]))
}

/// One bucket: a GROUP BY key with its accumulators.
#[derive(Debug, PartialEq)]
pub struct Bucket {
    pub key: Vec<Field>,
    pub accumulators: Vec<Accumulator>,
}

/// Computes bucketed aggregates for rows. The buckets are kept in the
/// strictly increasing order of their keys.
#[derive(Debug, PartialEq)]
pub struct Aggregator {
    /// The buckets, by strictly increasing key.
    pub buckets: Vec<Bucket>,
    /// The accumulators that a new bucket starts from.
    pub empty: Vec<Accumulator>,
    /// The expressions that give a row's key.
    pub group_by: Vec<Expression>,
    /// The expressions that give each accumulator its value.
    pub expressions: Vec<Expression>,
}

/// The keys of the buckets, in order.
pub open spec fn bucket_keys(buckets: Seq<Bucket>) -> Seq<Seq<FieldView>> {
    Seq::new(buckets.len(), |i: int| views(buckets[i].key@))
}

impl View for Aggregator {
    type V = Groups;

    open spec fn view(&self) -> Groups {
        Map::new(
            |k: Seq<FieldView>|
                exists|i: int| 0 <= i < self.buckets@.len() && views(#[trigger] self.buckets@[i].key@) == k,
            |k: Seq<FieldView>|
                accumulator_views(
                    self.buckets@[choose|i: int|
                        0 <= i < self.buckets@.len() && views(#[trigger] self.buckets@[i].key@) == k].accumulators@,
                ),
        )
    }
}

fn clone_accumulators(accs: &Vec<Accumulator>) -> (r: Vec<Accumulator>)
    ensures
        r@.len() == accs@.len(),
        accumulator_views(r@) == accumulator_views(accs@),
{
    let mut out: Vec<Accumulator> = Vec::new();
    let mut i: usize = 0;
    while i < accs.len()
        invariant
            i <= accs@.len(),
            out@.len() == i,
            forall|k: int| 0 <= k < i ==> (#[trigger] out@[k])@ == accs@[k]@,
        decreases accs@.len() - i,
    {
        out.push(accs[i].clone());
        i += 1;
    }
    assert(accumulator_views(out@) =~= accumulator_views(accs@));
    out
}

fn accumulate_row(accs: &mut Vec<Accumulator>, expressions: &Vec<Expression>, row: &Row) -> (r:
    Result<(), Error>)
    requires
        old(accs)@.len() == expressions@.len(),
    ensures
        final(accs)@.len() == old(accs)@.len(),
        match r {
            Ok(_) => accumulate_all(accumulator_views(old(accs)@), expressions@, row@) == Ok::<
                Seq<AccumulatorView>,
                Error,
            >(accumulator_views(final(accs)@)),
            Err(e) => accumulate_all(accumulator_views(old(accs)@), expressions@, row@) == Err::<
                Seq<AccumulatorView>,
                Error,
            >(e),
        },
{
    let ghost start = accumulator_views(accs@);
    let mut i: usize = 0;
    while i < expressions.len()
        invariant
            i <= expressions@.len(),
            accs@.len() == expressions@.len(),
            old(accs)@.len() == expressions@.len(),
            start == accumulator_views(old(accs)@),
            accumulate_prefix(start, expressions@, row@, i as int) == Ok::<
                Seq<AccumulatorView>,
                Error,
            >(accumulator_views(accs@)),
        decreases expressions@.len() - i,
    {
        let ghost sofar = accumulator_views(accs@);
        assert(sofar[i as int] == accs@[i as int]@);
        let value = match expressions[i].evaluate(Some(row)) {
            Err(e) => {
                proof {
                    lemma_accumulate_failure(
                        start,
                        expressions@,
                        row@,
                        i + 1,
                        expressions@.len() as int,
                    );
                }
                return Err(e);
            },
            Ok(value) => value,
        };
        let mut acc = accs[i].clone();
        match acc.add(value) {
            Err(e) => {
                proof {
                    lemma_accumulate_failure(
                        start,
                        expressions@,
                        row@,
                        i + 1,
                        expressions@.len() as int,
                    );
                }
                return Err(e);
            },
            Ok(_) => {},
        }
        accs[i] = acc;
        assert(accumulator_views(accs@) =~= sofar.update(i as int, acc@));
        i += 1;
    }
    Ok(())
}

/// A failure among the first accumulators is the failure of all of them.
pub proof fn lemma_accumulate_failure(
    accs: Seq<AccumulatorView>,
    expressions: Seq<Expression>,
    row: Seq<FieldView>,
    n: int,
    m: int,
)
    requires
        0 <= n <= m,
        accumulate_prefix(accs, expressions, row, n) is Err,
    ensures
        accumulate_prefix(accs, expressions, row, m) == accumulate_prefix(accs, expressions, row, n),
    decreases m - n,
{
    if n < m {
        lemma_accumulate_failure(accs, expressions, row, n, m - 1);
    }
}

impl Aggregator {
    /// Whether the buckets are in strictly increasing key order and each
    /// has one accumulator per aggregate.
    pub open spec fn well_formed(self) -> bool {
        &&& self.empty@.len() == self.expressions@.len()
        &&& forall|i: int|
            0 <= i < self.buckets@.len() ==> (#[trigger] self.buckets@[i]).accumulators@.len()
                == self.expressions@.len()
        &&& forall|i: int, j: int|
            0 <= i < j < self.buckets@.len() ==> compare_keys(
                views(#[trigger] self.buckets@[i].key@),
                views(#[trigger] self.buckets@[j].key@),
                Seq::empty(),
            ) == Relation::Less
    }

    /// An aggregator without buckets for the given GROUP BY expressions and
    /// aggregates.
    pub fn new(group_by: Vec<Expression>, aggregates: Vec<Aggregate>) -> (r: Aggregator)
        ensures
            r.well_formed(),
            r@ == Map::<Seq<FieldView>, Seq<AccumulatorView>>::empty(),
            r.group_by@ == group_by@,
            accumulator_views(r.empty@) == template_of(aggregates@),
            r.expressions@ == sources_of(aggregates@),
    {
        let mut empty: Vec<Accumulator> = Vec::new();
        let mut expressions: Vec<Expression> = Vec::new();
        for aggregate in it: aggregates
            invariant
                it.seq() == aggregates@,
                empty@.len() == it.index(),
                expressions@.len() == it.index(),
                forall|k: int|
                    0 <= k < it.index() ==> (#[trigger] empty@[k])@ == initial(aggregates@[k]),
                forall|k: int|
                    0 <= k < it.index() ==> #[trigger] expressions@[k] == aggregates@[k].source(),
        {
            empty.push(Accumulator::new(&aggregate));
            let expression = match aggregate {
                Aggregate::Average(e) => e,
                Aggregate::Count(e) => e,
                Aggregate::Max(e) => e,
                Aggregate::Min(e) => e,
                Aggregate::Sum(e) => e,
            };
            expressions.push(expression);
        }
        let r = Aggregator { buckets: Vec::new(), empty, group_by, expressions };
        assert(accumulator_views(r.empty@) =~= template_of(aggregates@));
        assert(r.expressions@ =~= sources_of(aggregates@));
        assert(r@ =~= Map::<Seq<FieldView>, Seq<AccumulatorView>>::empty());
        r
    }

    /// A bucket is found under its key.
    pub proof fn lemma_bucket(self, i: int)
        requires
            self.well_formed(),
            0 <= i < self.buckets@.len(),
        ensures
            self@.contains_key(views(self.buckets@[i].key@)),
            self@[views(self.buckets@[i].key@)] == accumulator_views(self.buckets@[i].accumulators@),
    {
        let k = views(self.buckets@[i].key@);
        let j = choose|j: int|
            0 <= j < self.buckets@.len() && views(#[trigger] self.buckets@[j].key@) == k;
        self.lemma_distinct(i, j);
    }

    /// Buckets at different positions have different keys.
    pub proof fn lemma_distinct(self, i: int, j: int)
        requires
            self.well_formed(),
            0 <= i < self.buckets@.len(),
            0 <= j < self.buckets@.len(),
            views(self.buckets@[i].key@) == views(self.buckets@[j].key@),
        ensures
            i == j,
    {
        lemma_compare_keys_equal(
            views(self.buckets@[i].key@),
            views(self.buckets@[j].key@),
            Seq::empty(),
        );
        if i < j {
            assert(compare_keys(
                views(self.buckets@[i].key@),
                views(self.buckets@[j].key@),
                Seq::empty(),
            ) == Relation::Less);
        } else if j < i {
            assert(compare_keys(
                views(self.buckets@[j].key@),
                views(self.buckets@[i].key@),
                Seq::empty(),
            ) == Relation::Less);
        }
    }

    /// Every key of the buckets is the key of a bucket at some position.
    pub proof fn lemma_position(self, k: Seq<FieldView>) -> (i: int)
        requires
            self@.contains_key(k),
        ensures
            0 <= i < self.buckets@.len(),
            views(self.buckets@[i].key@) == k,
    {
        choose|i: int| 0 <= i < self.buckets@.len() && views(#[trigger] self.buckets@[i].key@) == k
    }

    /// Replacing the accumulators of one bucket replaces what its key holds.
    proof fn lemma_after_update(before: Aggregator, after: Aggregator, at: int)
        requires
            before.well_formed(),
            0 <= at < before.buckets@.len(),
            after.buckets@.len() == before.buckets@.len(),
            after.expressions == before.expressions,
            after.empty == before.empty,
            after.buckets@[at].key == before.buckets@[at].key,
            after.buckets@[at].accumulators@.len() == before.expressions@.len(),
            forall|i: int|
                0 <= i < before.buckets@.len() && i != at ==> #[trigger] after.buckets@[i]
                    == before.buckets@[i],
        ensures
            after.well_formed(),
            after@ == before@.insert(
                views(before.buckets@[at].key@),
                accumulator_views(after.buckets@[at].accumulators@),
            ),
    {
        assert forall|i: int| 0 <= i < before.buckets@.len() implies (#[trigger] after.buckets@[i]).key
            == before.buckets@[i].key by {}
        assert forall|i: int, j: int| 0 <= i < j < after.buckets@.len() implies compare_keys(
            views(#[trigger] after.buckets@[i].key@),
            views(#[trigger] after.buckets@[j].key@),
            Seq::empty(),
        ) == Relation::Less by {
            assert(after.buckets@[i].key == before.buckets@[i].key);
            assert(after.buckets@[j].key == before.buckets@[j].key);
            assert(compare_keys(
                views(before.buckets@[i].key@),
                views(before.buckets@[j].key@),
                Seq::empty(),
            ) == Relation::Less);
        }
        assert(after.well_formed());
        let key = views(before.buckets@[at].key@);
        let accs = accumulator_views(after.buckets@[at].accumulators@);
        let expected = before@.insert(key, accs);
        assert forall|k: Seq<FieldView>| after@.contains_key(k) == expected.contains_key(k) by {
            if after@.contains_key(k) {
                let j = after.lemma_position(k);
                assert(after.buckets@[j].key == before.buckets@[j].key);
                before.lemma_bucket(j);
            }
            if before@.contains_key(k) {
                let j = before.lemma_position(k);
                assert(after.buckets@[j].key == before.buckets@[j].key);
                after.lemma_bucket(j);
            }
            if k == key {
                after.lemma_bucket(at);
            }
        }
        assert forall|k: Seq<FieldView>| after@.contains_key(k) implies after@[k] == expected[k] by {
            let j = after.lemma_position(k);
            after.lemma_bucket(j);
            assert(after.buckets@[j].key == before.buckets@[j].key);
            before.lemma_bucket(j);
            if j != at {
                if k == key {
                    before.lemma_distinct(j, at);
                }
            }
        }
        assert(after@ =~= expected);
    }

    /// Inserting a bucket in its place adds its key with its accumulators.
    #[verifier::rlimit(50)]
    proof fn lemma_after_insert(before: Aggregator, after: Aggregator, at: int, bucket: Bucket)
        requires
            before.well_formed(),
            0 <= at <= before.buckets@.len(),
            after.buckets@ == before.buckets@.insert(at, bucket),
            after.expressions == before.expressions,
            after.empty == before.empty,
            bucket.accumulators@.len() == before.expressions@.len(),
            forall|i: int|
                0 <= i < at ==> compare_keys(
                    views(#[trigger] before.buckets@[i].key@),
                    views(bucket.key@),
                    Seq::empty(),
                ) == Relation::Less,
            forall|i: int|
                at <= i < before.buckets@.len() ==> compare_keys(
                    views(#[trigger] before.buckets@[i].key@),
                    views(bucket.key@),
                    Seq::empty(),
                ) == Relation::Greater,
        ensures
            after.well_formed(),
            !before@.contains_key(views(bucket.key@)),
            after@ == before@.insert(views(bucket.key@), accumulator_views(bucket.accumulators@)),
    {
        let key = views(bucket.key@);
        assert forall|i: int| 0 <= i < after.buckets@.len() implies (#[trigger] after.buckets@[i])
            == (if i < at {
            before.buckets@[i]
        } else if i == at {
            bucket
        } else {
            before.buckets@[i - 1]
        }) by {}
        assert forall|i: int, j: int| 0 <= i < j < after.buckets@.len() implies compare_keys(
            views(#[trigger] after.buckets@[i].key@),
            views(#[trigger] after.buckets@[j].key@),
            Seq::empty(),
        ) == Relation::Less by {
            if j == at {
                assert(after.buckets@[i] == before.buckets@[i]);
            } else if i == at {
                assert(after.buckets@[j] == before.buckets@[j - 1]);
                lemma_compare_keys_reverse(views(before.buckets@[j - 1].key@), key, Seq::empty());
            } else {
                let a = if i < at {
                    i
                } else {
                    i - 1
                };
                let b = if j < at {
                    j
                } else {
                    j - 1
                };
                assert(after.buckets@[i] == before.buckets@[a]);
                assert(after.buckets@[j] == before.buckets@[b]);
                assert(compare_keys(
                    views(before.buckets@[a].key@),
                    views(before.buckets@[b].key@),
                    Seq::empty(),
                ) == Relation::Less);
            }
        }
        assert forall|i: int| 0 <= i < after.buckets@.len() implies (
        #[trigger] after.buckets@[i]).accumulators@.len() == after.expressions@.len() by {
            if i < at {
                assert(after.buckets@[i] == before.buckets@[i]);
            } else if i > at {
                assert(after.buckets@[i] == before.buckets@[i - 1]);
            }
        }
        assert(after.well_formed());
        if before@.contains_key(key) {
            let j = before.lemma_position(key);
            lemma_compare_keys_equal(views(before.buckets@[j].key@), key, Seq::empty());
        }
        let expected = before@.insert(key, accumulator_views(bucket.accumulators@));
        assert forall|k: Seq<FieldView>| after@.contains_key(k) == expected.contains_key(k) by {
            if after@.contains_key(k) {
                let j = after.lemma_position(k);
                if j < at {
                    assert(after.buckets@[j] == before.buckets@[j]);
                    before.lemma_bucket(j);
                } else if j > at {
                    assert(after.buckets@[j] == before.buckets@[j - 1]);
                    before.lemma_bucket(j - 1);
                }
            }
            if before@.contains_key(k) {
                let j = before.lemma_position(k);
                let a = if j < at {
                    j
                } else {
                    j + 1
                };
                assert(after.buckets@[a] == before.buckets@[j]);
                after.lemma_bucket(a);
            }
            if k == key {
                after.lemma_bucket(at);
            }
        }
        assert forall|k: Seq<FieldView>| after@.contains_key(k) implies after@[k] == expected[k] by {
            let j = after.lemma_position(k);
            after.lemma_bucket(j);
            if j < at {
                assert(after.buckets@[j] == before.buckets@[j]);
                before.lemma_bucket(j);
            } else if j > at {
                assert(after.buckets@[j] == before.buckets@[j - 1]);
                before.lemma_bucket(j - 1);
            }
        }
        assert(after@ =~= expected);
    }

    /// The position of the first bucket whose key is not below the given
    /// key, and whether that bucket has the key.
    #[verifier::rlimit(50)]
    fn locate(&self, key: &Vec<Field>) -> (r: (usize, bool))
        requires
            self.well_formed(),
        ensures
            r.0 <= self.buckets@.len(),
            forall|i: int|
                0 <= i < r.0 ==> compare_keys(
                    views(#[trigger] self.buckets@[i].key@),
                    views(key@),
                    Seq::empty(),
                ) == Relation::Less,
            r.1 ==> r.0 < self.buckets@.len() && views(self.buckets@[r.0 as int].key@) == views(key@),
            !r.1 ==> forall|i: int|
                r.0 <= i < self.buckets@.len() ==> compare_keys(
                    views(#[trigger] self.buckets@[i].key@),
                    views(key@),
                    Seq::empty(),
                ) == Relation::Greater,
    {
        let directions: Vec<Direction> = Vec::new();
        let mut i: usize = 0;
        while i < self.buckets.len()
            invariant
                i <= self.buckets@.len(),
                self.well_formed(),
                directions@ == Seq::<Direction>::empty(),
                forall|k: int|
                    0 <= k < i ==> compare_keys(
                        views(#[trigger] self.buckets@[k].key@),
                        views(key@),
                        Seq::empty(),
                    ) == Relation::Less,
            decreases self.buckets@.len() - i,
        {
            match compare_key_vectors(&self.buckets[i].key, key, &directions) {
                Relation::Less => {},
                Relation::Equal => {
                    proof {
                        lemma_compare_keys_equal(
                            views(self.buckets@[i as int].key@),
                            views(key@),
                            Seq::empty(),
                        );
                    }
                    return (i, true);
                },
                Relation::Greater => {
                    proof {
                        assert forall|k: int| i <= k < self.buckets@.len() implies compare_keys(
                            views(#[trigger] self.buckets@[k].key@),
                            views(key@),
                            Seq::empty(),
                        ) == Relation::Greater by {
                            if k > i {
                                lemma_compare_keys_reverse(
                                    views(self.buckets@[i as int].key@),
                                    views(key@),
                                    Seq::empty(),
                                );
                                assert(compare_keys(
                                    views(self.buckets@[i as int].key@),
                                    views(self.buckets@[k].key@),
                                    Seq::empty(),
                                ) == Relation::Less);
                                lemma_compare_keys_transitive(
                                    views(key@),
                                    views(self.buckets@[i as int].key@),
                                    views(self.buckets@[k].key@),
                                    Seq::empty(),
                                );
                                lemma_compare_keys_reverse(
                                    views(key@),
                                    views(self.buckets@[k].key@),
                                    Seq::empty(),
                                );
                            }
                        }
                    }
                    return (i, false);
                },
            }
            i += 1;
        }
        (i, false)
    }

    /// Adds a row to the aggregator. After a failure the buckets still are
    /// in order, and nothing more is said of what they hold.
    #[verifier::rlimit(50)]
    pub fn add(&mut self, row: Row) -> (r: Result<(), Error>)
        requires
            old(self).well_formed(),
        ensures
            final(self).well_formed(),
            final(self).group_by == old(self).group_by,
            final(self).expressions == old(self).expressions,
            final(self).empty == old(self).empty,
            match r {
                Ok(_) => absorb(
                    old(self)@,
                    row@,
                    old(self).group_by@,
                    accumulator_views(old(self).empty@),
                    old(self).expressions@,
                ) == Ok::<Groups, Error>(final(self)@),
                Err(e) => absorb(
                    old(self)@,
                    row@,
                    old(self).group_by@,
                    accumulator_views(old(self).empty@),
                    old(self).expressions@,
                ) == Err::<Groups, Error>(e),
            },
    {
        let key = match evaluate_all(&self.group_by, Some(&row)) {
            Err(e) => {
                return Err(e);
            },
            Ok(key) => key,
        };
        let ghost key_view = views(key@);
        let (at, found) = self.locate(&key);
        let ghost before = *self;
        if found {
            proof {
                before.lemma_bucket(at as int);
            }
        } else {
            let fresh = Bucket { key, accumulators: clone_accumulators(&self.empty) };
            self.buckets.insert(at, fresh);
            proof {
                Aggregator::lemma_after_insert(before, *self, at as int, fresh);
            }
        }
        let ghost ready = *self;
        proof {
            ready.lemma_bucket(at as int);
        }
        let outcome = accumulate_row(&mut self.buckets[at].accumulators, &self.expressions, &row);
        proof {
            Aggregator::lemma_after_update(ready, *self, at as int);
        }
        match outcome {
            Err(e) => Err(e),
            Ok(_) => {
                proof {
                    let accs = accumulator_views(self.buckets@[at as int].accumulators@);
                    assert(ready@.insert(key_view, accs) =~= before@.insert(key_view, accs));
                }
                Ok(())
            },
        }
    }

    /// The rows of the aggregate result. Without any bucket and without
    /// GROUP BY expressions, one row of the values that the accumulators
    /// start with; else one row per bucket, in key order.
    pub fn into_rows(self) -> (r: Result<Rows, Error>)
        requires
            self.well_formed(),
        ensures
            lists_groups(bucket_keys(self.buckets@), self@),
            self.buckets@.len() == 0 <==> self@ == Map::<
                Seq<FieldView>,
                Seq<AccumulatorView>,
            >::empty(),
            emitted(self@, self.group_by@, accumulator_views(self.empty@), stream_view(r)),
    {
        proof {
            self.lemma_lists_groups();
            if self.buckets@.len() == 0 {
                assert(self@ =~= Map::<Seq<FieldView>, Seq<AccumulatorView>>::empty());
            } else {
                self.lemma_bucket(0);
            }
        }
        if self.buckets.len() == 0 && self.group_by.len() == 0 {
            let values = match finalize(self.empty) {
                Err(e) => {
                    return Err(e);
                },
                Ok(values) => values,
            };
            let mut out: Vec<RowResult> = Vec::new();
            out.push(Ok((RecordId::invalid(), Row::new(values))));
            let rows = Rows::new(out);
            assert(rows@ =~= seq![
                Ok::<(RecordId, Seq<FieldView>), Error>((RecordId::spec_invalid(), views(values@))),
            ]);
            return Ok(rows);
        }
        let ghost keys = bucket_keys(self.buckets@);
        let ghost groups = self@;
        let mut out: Vec<RowResult> = Vec::new();
        for bucket in it: self.buckets
            invariant
                it.seq() == self.buckets@,
                self.well_formed(),
                keys == bucket_keys(self.buckets@),
                groups == self@,
                item_views(out@) == group_items(keys, groups).take(it.index() as int),
        {
            proof {
                self.lemma_bucket(it.index() as int);
            }
            let Bucket { key, accumulators } = bucket;
            let next: RowResult = match finalize(accumulators) {
                Err(e) => Err(e),
                Ok(values) => {
                    let mut fields = key;
                    let mut rest = values;
                    proof {
                        assert(views(fields@ + rest@) =~= views(fields@) + views(rest@));
                    }
                    fields.append(&mut rest);
                    Ok((RecordId::invalid(), Row::new(fields)))
                },
            };
            proof {
                lemma_item_views_push(out@, next);
                assert(item_view(next) == group_items(keys, groups)[it.index() as int]);
                assert(item_views(out@).push(item_view(next)) =~= group_items(keys, groups).take(
                    it.index() + 1,
                ));
            }
            out.push(next);
        }
        proof {
            assert(group_items(keys, groups).take(keys.len() as int) =~= group_items(keys, groups));
        }
        Ok(Rows::new(out))
    }

    /// The keys of the buckets, in their order, list the groups.
    pub proof fn lemma_lists_groups(self)
        requires
            self.well_formed(),
        ensures
            lists_groups(bucket_keys(self.buckets@), self@),
    {
        let keys = bucket_keys(self.buckets@);
        assert forall|i: int| 0 <= i < keys.len() implies self@.contains_key(#[trigger] keys[i]) by {
            self.lemma_bucket(i);
        }
        assert forall|k: Seq<FieldView>| self@.contains_key(k) implies exists|i: int|
            0 <= i < keys.len() && #[trigger] keys[i] == k by {
            let i = self.lemma_position(k);
            assert(keys[i] == k);
        }
        assert forall|i: int, j: int| 0 <= i < j < keys.len() implies compare_keys(
            #[trigger] keys[i],
            #[trigger] keys[j],
            Seq::empty(),
        ) == Relation::Less by {
            assert(compare_keys(
                views(self.buckets@[i].key@),
                views(self.buckets@[j].key@),
                Seq::empty(),
            ) == Relation::Less);
        }
    }
}

/// Whether `r` is what the buckets emit. Without any bucket and without
/// GROUP BY expressions: one row of the values that the template gives,
/// under the invalid identity, or the failure of the first value that
/// fails. Else: one item per bucket, in strictly increasing key order.
pub open spec fn emitted(
    groups: Groups,
    group_by: Seq<Expression>,
    template: Seq<AccumulatorView>,
    r: Result<Seq<Item>, Error>,
) -> bool {
    if groups == Map::<Seq<FieldView>, Seq<AccumulatorView>>::empty() && group_by.len() == 0 {
        match finals(template) {
            Err(e) => r == Err::<Seq<Item>, Error>(e),
            Ok(values) => r == Ok::<Seq<Item>, Error>(
                seq![Ok((RecordId::spec_invalid(), values))],
            ),
        }
    } else {
        exists|keys: Seq<Seq<FieldView>>|
            lists_groups(keys, groups) && r == Ok::<Seq<Item>, Error>(group_items(keys, groups))
    }
}

/// The listing of the keys of all buckets in strictly increasing order.
pub open spec fn group_listing(groups: Groups) -> Seq<Seq<FieldView>> {
    choose|keys: Seq<Seq<FieldView>>| lists_groups(keys, groups)
}

/// The aggregate of the stream: the failure of grouping it; or, without
/// any bucket and without GROUP BY expressions, one row of the values
/// that the accumulators start with, under the invalid identity; or else
/// one item per bucket, in strictly increasing key order.
pub open spec fn aggregated(
    source: Seq<Item>,
    group_by: Seq<Expression>,
    aggregates: Seq<Aggregate>,
) -> Result<Seq<Item>, Error> {
    match grouped(source, group_by, template_of(aggregates), sources_of(aggregates)) {
        Err(e) => Err(e),
        Ok(groups) => if groups == Map::<Seq<FieldView>, Seq<AccumulatorView>>::empty()
            && group_by.len() == 0 {
            match finals(template_of(aggregates)) {
                Err(e) => Err(e),
                Ok(values) => Ok(seq![Ok((RecordId::spec_invalid(), values))]),
            }
        } else {
            Ok(group_items(group_listing(groups), groups))
        },
    }
}

#[verifier::rlimit(50)]
proof fn lemma_listings_agree(
    a: Seq<Seq<FieldView>>,
    b: Seq<Seq<FieldView>>,
    groups: Groups,
    m: int,
)
    requires
        lists_groups(a, groups),
        lists_groups(b, groups),
        a.len() == b.len(),
        0 <= m <= a.len(),
    ensures
        forall|i: int| 0 <= i < m ==> a[i] == b[i],
    decreases m,
{
    if m > 0 {
        lemma_listings_agree(a, b, groups, m - 1);
        let x = a[m - 1];
        let y = b[m - 1];
        if x != y {
            assert(groups.contains_key(x));
            assert(groups.contains_key(y));
            let i = choose|i: int| 0 <= i < b.len() && #[trigger] b[i] == x;
            let j = choose|j: int| 0 <= j < a.len() && #[trigger] a[j] == y;
            lemma_compare_keys_equal(x, x, Seq::empty());
            lemma_compare_keys_equal(y, y, Seq::empty());
            if i < m - 1 {
                assert(a[i] == b[i]);
                assert(compare_keys(a[i], a[m - 1], Seq::empty()) == Relation::Less);
            }
            if j < m - 1 {
                assert(a[j] == b[j]);
                assert(compare_keys(b[j], b[m - 1], Seq::empty()) == Relation::Less);
            }
            assert(i > m - 1);
            assert(j > m - 1);
            assert(compare_keys(b[m - 1], b[i], Seq::empty()) == Relation::Less);
            assert(compare_keys(a[m - 1], a[j], Seq::empty()) == Relation::Less);
            lemma_compare_keys_reverse(x, y, Seq::empty());
        }
    }
}

/// The groups have one listing. Two lists of the keys of all buckets in
/// strictly increasing order are the same list, so the aggregate is
/// determined.
pub proof fn lemma_lists_groups_unique(
    a: Seq<Seq<FieldView>>,
    b: Seq<Seq<FieldView>>,
    groups: Groups,
)
    requires
        lists_groups(a, groups),
        lists_groups(b, groups),
    ensures
        a == b,
{
    lemma_one_row_per_group(a, groups);
    lemma_one_row_per_group(b, groups);
    lemma_listings_agree(a, b, groups, a.len() as int);
    assert(a =~= b);
}

/// The values of the accumulators in order, or the first failure.
pub fn finalize(accumulators: Vec<Accumulator>) -> (r: Result<Vec<Field>, Error>)
    ensures
        outcomes_view(r) == finals(accumulator_views(accumulators@)),
{
    let ghost accs = accumulator_views(accumulators@);
    let mut outcomes: Vec<Result<Field, Error>> = Vec::new();
    for accumulator in it: accumulators
        invariant
            it.seq() == accumulators@,
            accs == accumulator_views(accumulators@),
            outcomes@.len() == it.index(),
            forall|k: int|
                0 <= k < it.index() ==> outcome_view(#[trigger] outcomes@[k]) == finish(accs[k]),
    {
        assert(accs[it.index() as int] == accumulator@);
        outcomes.push(accumulator.value());
    }
    proof {
        lemma_collected_views(outcomes@);
        assert(outcome_views(outcomes@) =~= Seq::new(accs.len(), |i: int| finish(accs[i])));
    }
    try_collect(outcomes)
}

/// Once a prefix of the stream fails to group, the whole stream fails so.
pub proof fn lemma_grouped_failure(
    source: Seq<Item>,
    group_by: Seq<Expression>,
    template: Seq<AccumulatorView>,
    expressions: Seq<Expression>,
    n: int,
    m: int,
)
    requires
        0 <= n <= m <= source.len(),
        grouped(source.take(n), group_by, template, expressions) is Err,
    ensures
        grouped(source.take(m), group_by, template, expressions) == grouped(
            source.take(n),
            group_by,
            template,
            expressions,
        ),
    decreases m - n,
{
    if n < m {
        lemma_grouped_failure(source, group_by, template, expressions, n, m - 1);
        assert(source.take(m).drop_last() =~= source.take(m - 1));
    }
}

/// Aggregates the rows of the stream by the GROUP BY expressions, and
/// emits for each bucket its key followed by the values of the aggregates,
/// buckets in the order of their keys.
pub fn aggregate(source: Rows, group_by: Vec<Expression>, aggregates: Vec<Aggregate>) -> (r: Result<
    Rows,
    Error,
>)
    ensures
        stream_view(r) == aggregated(source@, group_by@, aggregates@),
        r is Ok ==> lists_groups(
            group_listing(
                grouped(
                    source@,
                    group_by@,
                    template_of(aggregates@),
                    sources_of(aggregates@),
                )->Ok_0,
            ),
            grouped(source@, group_by@, template_of(aggregates@), sources_of(aggregates@))->Ok_0,
        ),
{
    let ghost template = template_of(aggregates@);
    let ghost expressions = sources_of(aggregates@);
    let ghost all = source@;
    let mut aggregator = Aggregator::new(group_by, aggregates);
    assert(all.take(0) =~= Seq::<Item>::empty());
    for item in it: source.items
        invariant
            it.seq() == source.items@,
            all == item_views(source.items@),
            aggregator.well_formed(),
            template == template_of(aggregates@),
            expressions == sources_of(aggregates@),
            aggregator.group_by@ == group_by@,
            aggregator.expressions@ == expressions,
            accumulator_views(aggregator.empty@) == template,
            grouped(all.take(it.index() as int), group_by@, template, expressions) == Ok::<
                Groups,
                Error,
            >(aggregator@),
    {
        let ghost at = it.index() as int;
        proof {
            assert(all.take(at + 1).drop_last() =~= all.take(at));
            assert(all.take(at + 1).last() == item_view(item));
        }
        let ghost groups = aggregator@;
        let outcome = match item {
            Err(e) => Err(e),
            Ok((_, row)) => aggregator.add(row),
        };
        match outcome {
            Err(e) => {
                proof {
                    assert(grouped(all.take(at), group_by@, template, expressions) == Ok::<
                        Groups,
                        Error,
                    >(groups));
                    assert(grouped(all.take(at + 1), group_by@, template, expressions) == Err::<
                        Groups,
                        Error,
                    >(e));
                    lemma_grouped_failure(
                        all,
                        group_by@,
                        template,
                        expressions,
                        at + 1,
                        all.len() as int,
                    );
                    assert(all.take(all.len() as int) =~= all);
                }
                return Err(e);
            },
            Ok(_) => {},
        }
    }
    assert(all.take(all.len() as int) =~= all);
    let ghost groups = aggregator@;
    let ghost keys = bucket_keys(aggregator.buckets@);
    let r = aggregator.into_rows();
    proof {
        lemma_lists_groups_unique(keys, group_listing(groups), groups);
        if !(groups == Map::<Seq<FieldView>, Seq<AccumulatorView>>::empty() && group_by@.len()
            == 0) {
            let listed = choose|listed: Seq<Seq<FieldView>>|
                lists_groups(listed, groups) && stream_view(r) == Ok::<Seq<Item>, Error>(
                    group_items(listed, groups),
                );
            lemma_lists_groups_unique(listed, group_listing(groups), groups);
        }
    }
    r
}

/// Aggregates over nothing. Without GROUP BY expressions, the aggregate of
/// the empty stream is one row under the invalid identity that holds zero
/// for each count and NULL for each sum, average, maximum and minimum.
pub proof fn lemma_aggregate_of_nothing(aggregates: Seq<Aggregate>)
    ensures
        aggregated(Seq::empty(), Seq::empty(), aggregates) == Ok::<Seq<Item>, Error>(
            seq![
                Ok(
                    (
                        RecordId::spec_invalid(),
                        Seq::new(
                            aggregates.len(),
                            |i: int|
                                if aggregates[i] is Count {
                                    FieldView::Integer(0)
                                } else {
                                    FieldView::Null
                                },
                        ),
                    ),
                ),
            ],
        ),
{
    let template = template_of(aggregates);
    let outcomes = Seq::new(template.len(), |i: int| finish(template[i]));
    let expected = Seq::new(
        aggregates.len(),
        |i: int|
            if aggregates[i] is Count {
                FieldView::Integer(0)
            } else {
                FieldView::Null
            },
    );
    lemma_collected_ok(outcomes);
    assert(forall|i: int| 0 <= i < outcomes.len() ==> (#[trigger] outcomes[i]) is Ok);
    let values = collected(outcomes)->Ok_0;
    assert forall|i: int| 0 <= i < values.len() implies values[i] == expected[i] by {
        assert(outcomes[i] == Ok::<FieldView, Error>(values[i]));
    }
    assert(values =~= expected);
}

/// One row per group. A list of the groups in strictly increasing key
/// order names every key once, so the aggregate emits as many items as
/// there are distinct keys among the rows.
pub proof fn lemma_one_row_per_group(keys: Seq<Seq<FieldView>>, groups: Groups)
    requires
        lists_groups(keys, groups),
    ensures
        keys.no_duplicates(),
        keys.to_set() == groups.dom(),
        groups.dom().finite(),
        groups.dom().len() == keys.len(),
        group_items(keys, groups).len() == keys.len(),
{
    assert forall|i: int, j: int| 0 <= i < keys.len() && 0 <= j < keys.len() && i != j implies keys[i]
        != keys[j] by {
        lemma_compare_keys_equal(keys[i], keys[j], Seq::empty());
        if i < j {
            assert(compare_keys(keys[i], keys[j], Seq::empty()) == Relation::Less);
        } else {
            lemma_compare_keys_equal(keys[j], keys[i], Seq::empty());
            assert(compare_keys(keys[j], keys[i], Seq::empty()) == Relation::Less);
        }
    }
    assert(keys.to_set() =~= groups.dom()) by {
        assert forall|k: Seq<FieldView>| keys.to_set().contains(k) == groups.dom().contains(k) by {
            if keys.to_set().contains(k) {
                let i = choose|i: int| 0 <= i < keys.len() && keys[i] == k;
                assert(groups.contains_key(keys[i]));
            }
            if groups.contains_key(k) {
                let i = choose|i: int| 0 <= i < keys.len() && #[trigger] keys[i] == k;
                assert(keys.contains(k));
            }
        }
    }
    keys.unique_seq_to_set();
}

/// The rows of the stream whose GROUP BY key is `key`, in stream order.
pub open spec fn rows_of_group(
    source: Seq<Item>,
    group_by: Seq<Expression>,
    key: Seq<FieldView>,
) -> Seq<Seq<FieldView>>
    decreases source.len(),
{
    if source.len() == 0 {
        Seq::empty()
    } else {
        let rest = rows_of_group(source.drop_last(), group_by, key);
        match source.last() {
            Ok((_, row)) => if eval_all(group_by, Some(row)) == Ok::<Seq<FieldView>, Error>(key) {
                rest.push(row)
            } else {
                rest
            },
            Err(_) => rest,
        }
    }
}

/// The accumulators after they took in the given rows, one after the other.
pub open spec fn accumulated(
    template: Seq<AccumulatorView>,
    expressions: Seq<Expression>,
    rows: Seq<Seq<FieldView>>,
) -> Result<Seq<AccumulatorView>, Error>
    decreases rows.len(),
{
    if rows.len() == 0 {
        Ok(template)
    } else {
        match accumulated(template, expressions, rows.drop_last()) {
            Err(e) => Err(e),
            Ok(accs) => accumulate_all(accs, expressions, rows.last()),
        }
    }
}

/// Each group holds what its own rows amount to. When a stream groups,
/// the keys of the groups are the keys that its rows have, and the
/// accumulators of a group are the template after it took in, in stream
/// order, exactly the rows with that key.
pub proof fn lemma_group_accumulates(
    source: Seq<Item>,
    group_by: Seq<Expression>,
    template: Seq<AccumulatorView>,
    expressions: Seq<Expression>,
    key: Seq<FieldView>,
)
    requires
        grouped(source, group_by, template, expressions) is Ok,
    ensures
        ({
            let groups = grouped(source, group_by, template, expressions)->Ok_0;
            let rows = rows_of_group(source, group_by, key);
            &&& groups.contains_key(key) <==> rows.len() > 0
            &&& groups.contains_key(key) ==> accumulated(template, expressions, rows) == Ok::<
                Seq<AccumulatorView>,
                Error,
            >(groups[key])
        }),
    decreases source.len(),
{
    if source.len() > 0 {
        let shorter = source.drop_last();
        lemma_group_accumulates(shorter, group_by, template, expressions, key);
        let rows = rows_of_group(shorter, group_by, key);
        let row = source.last()->Ok_0.1;
        if eval_all(group_by, Some(row)) == Ok::<Seq<FieldView>, Error>(key) {
            assert(rows.push(row).drop_last() =~= rows);
        }
    }
}

} // verus!
