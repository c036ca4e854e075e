//! Rows, and the finite streams of rows that operators exchange.

use vstd::prelude::*;
use crate::common::Error;
use crate::storage::page::RecordId;
use crate::types::field::{lemma_views_push, views, Field, FieldView};

verus! {

/// An ordered sequence of values, aligned by position to a schema that the
/// context supplies.
#[derive(Debug, PartialEq)]
pub struct Row {
    pub fields: Vec<Field>,
}

impl View for Row {
    type V = Seq<FieldView>;

    open spec fn view(&self) -> Seq<FieldView> {
        views(self.fields@)
    }
}

impl Clone for Row {
    fn clone(&self) -> (r: Row)
        ensures
            r@ == self@,
    {
        let mut fields: Vec<Field> = Vec::new();
        let mut i: usize = 0;
        while i < self.fields.len()
            invariant
                i <= self.fields@.len(),
                views(fields@) == self@.take(i as int),
            decreases self.fields@.len() - i,
        {
            let next = self.fields[i].clone();
            proof {
                lemma_views_push(fields@, next);
            }
            fields.push(next);
            i += 1;
            assert(views(fields@) =~= self@.take(i as int));
        }
        assert(self@.take(i as int) =~= self@);
        Row { fields }
    }
}

/// A run of `n` NULL values.
pub open spec fn nulls(n: nat) -> Seq<FieldView> {
    Seq::new(n, |i: int| FieldView::Null)
}

impl Row {
    /// A row of the given values.
    pub fn new(fields: Vec<Field>) -> (r: Row)
        ensures
            r@ == views(fields@),
            r.fields == fields,
    {
        Row { fields }
    }

    /// A row of `n` NULL values.
    pub fn nulls(n: usize) -> (r: Row)
        ensures
            r@ == nulls(n as nat),
    {
        let mut fields: Vec<Field> = Vec::new();
        let mut i: usize = 0;
        while i < n
            invariant
                i <= n,
                views(fields@) == nulls(i as nat),
            decreases n - i,
        {
            let next = Field::Null;
            proof {
                lemma_views_push(fields@, next);
            }
            fields.push(next);
            i += 1;
            assert(views(fields@) =~= nulls(i as nat));
        }
        Row { fields }
    }

    /// The number of values in the row.
    pub fn len(&self) -> (n: usize)
        ensures
            n == self@.len(),
    {
        self.fields.len()
    }

    /// The value at a position, or a failure when the row is shorter.
    pub fn get_field(&self, index: usize) -> (r: Result<&Field, Error>)
        ensures
            match r {
                Ok(f) => index < self@.len() && f@ == self@[index as int],
                Err(e) => index >= self@.len() && e == Error::ColumnOutOfRange,
            },
    {
        if index < self.fields.len() {
            Ok(&self.fields[index])
        } else {
            Err(Error::ColumnOutOfRange)
        }
    }

    /// Replaces the value at a position. A position outside the row is a
    /// failure and leaves the row as it was.
    pub fn update_field(&mut self, index: usize, value: Field) -> (r: Result<(), Error>)
        ensures
            match r {
                Ok(_) => index < old(self)@.len() && final(self)@ == old(self)@.update(
                    index as int,
                    value@,
                ),
                Err(e) => index >= old(self)@.len() && e == Error::ColumnOutOfRange && final(self)@
                    == old(self)@,
            },
    {
        if index < self.fields.len() {
            self.fields[index] = value;
            assert(self@ =~= old(self)@.update(index as int, value@));
            Ok(())
        } else {
            Err(Error::ColumnOutOfRange)
        }
    }

    /// This row followed by another.
    pub fn concat(&self, other: &Row) -> (r: Row)
        ensures
            r@ == self@ + other@,
    {
        let mut fields: Vec<Field> = Vec::new();
        let mut i: usize = 0;
        while i < self.fields.len()
            invariant
                i <= self.fields@.len(),
                views(fields@) == self@.take(i as int),
            decreases self.fields@.len() - i,
        {
            let next = self.fields[i].clone();
            proof {
                lemma_views_push(fields@, next);
            }
            fields.push(next);
            i += 1;
            assert(views(fields@) =~= self@.take(i as int));
        }
        assert(self@.take(i as int) =~= self@);
        let mut j: usize = 0;
        while j < other.fields.len()
            invariant
                j <= other.fields@.len(),
                views(fields@) == self@ + other@.take(j as int),
            decreases other.fields@.len() - j,
        {
            let next = other.fields[j].clone();
            proof {
                lemma_views_push(fields@, next);
            }
            fields.push(next);
            j += 1;
            assert(views(fields@) =~= self@ + other@.take(j as int));
        }
        assert(other@.take(j as int) =~= other@);
        Row { fields }
    }

    /// The values from position `from` up to, not including, position `to`.
    pub fn slice(&self, from: usize, to: usize) -> (r: Row)
        requires
            from <= to <= self@.len(),
        ensures
            r@ == self@.subrange(from as int, to as int),
    {
        let mut fields: Vec<Field> = Vec::new();
        let mut i: usize = from;
        while i < to
            invariant
                from <= i <= to <= self.fields@.len(),
                views(fields@) == self@.subrange(from as int, i as int),
            decreases to - i,
        {
            let next = self.fields[i].clone();
            proof {
                lemma_views_push(fields@, next);
            }
            fields.push(next);
            i += 1;
            assert(views(fields@) =~= self@.subrange(from as int, i as int));
        }
        Row { fields }
    }
}

/// One item of a row stream: a row with its identity, or a failure.
pub type RowResult = Result<(RecordId, Row), Error>;

/// The mathematical content of one item of a row stream.
pub type Item = Result<(RecordId, Seq<FieldView>), Error>;

/// The content of one item.
pub open spec fn item_view(item: RowResult) -> Item {
    match item {
        Ok((rid, row)) => Ok((rid, row@)),
        Err(e) => Err(e),
    }
}

/// The contents of a sequence of items, one for one.
pub open spec fn item_views(items: Seq<RowResult>) -> Seq<Item> {
    Seq::new(items.len(), |i: int| item_view(items[i]))
}

/// The contents of a sequence with one more item are the contents with one more.
pub proof fn lemma_item_views_push(items: Seq<RowResult>, item: RowResult)
    ensures
        item_views(items.push(item)) == item_views(items).push(item_view(item)),
{
    assert(item_views(items.push(item)) =~= item_views(items).push(item_view(item)));
}

/// The contents of two sequences of items one after the other.
pub proof fn lemma_item_views_add(a: Seq<RowResult>, b: Seq<RowResult>)
    ensures
        item_views(a + b) == item_views(a) + item_views(b),
{
    assert(item_views(a + b) =~= item_views(a) + item_views(b));
}

/// A copy of one item.
pub fn clone_item(item: &RowResult) -> (r: RowResult)
    ensures
        item_view(r) == item_view(*item),
{
    match item {
        Ok((rid, row)) => Ok((*rid, row.clone())),
        Err(e) => Err(*e),
    }
}

/// A finite stream of rows, each with its identity, any of which may be a
/// failure instead. An operator takes streams and gives a stream. A stream
/// is held in memory as the sequence of its items, in the order in which a
/// consumer would pull them; evaluation has no effects, so that what a
/// consumer sees does not depend on when an item was made.
#[derive(Debug, PartialEq)]
pub struct Rows {
    pub items: Vec<RowResult>,
}

impl View for Rows {
    type V = Seq<Item>;

    open spec fn view(&self) -> Seq<Item> {
        item_views(self.items@)
    }
}

impl Clone for Rows {
    fn clone(&self) -> (r: Rows)
        ensures
            r@ == self@,
    {
        let mut items: Vec<RowResult> = Vec::new();
        let mut i: usize = 0;
        while i < self.items.len()
            invariant
                i <= self.items@.len(),
                item_views(items@) == self@.take(i as int),
            decreases self.items@.len() - i,
        {
            let next = clone_item(&self.items[i]);
            proof {
                lemma_item_views_push(items@, next);
            }
            items.push(next);
            i += 1;
            assert(item_views(items@) =~= self@.take(i as int));
        }
        assert(self@.take(i as int) =~= self@);
        Rows { items }
    }
}

impl Rows {
    /// The stream of the given items.
    pub fn new(items: Vec<RowResult>) -> (r: Rows)
        ensures
            r@ == item_views(items@),
            r.items == items,
    {
        Rows { items }
    }

    /// The empty stream.
    pub fn nothing() -> (r: Rows)
        ensures
            r@ == Seq::<Item>::empty(),
    {
        let r = Rows { items: Vec::new() };
        assert(r@ =~= Seq::<Item>::empty());
        r
    }

    /// The number of items in the stream.
    pub fn len(&self) -> (n: usize)
        ensures
            n == self@.len(),
    {
        self.items.len()
    }

    /// The items of the stream.
    pub fn into_vec(self) -> (items: Vec<RowResult>)
        ensures
            item_views(items@) == self@,
            items == self.items,
    {
        self.items
    }
}

} // verus!
