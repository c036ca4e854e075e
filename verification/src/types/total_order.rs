//! The order on values is total, and so is the order on key vectors built
//! from it. Sorting and grouping rest on these facts.

use vstd::prelude::*;
use vstd::utf8::{decode_utf8, encode_utf8, encode_utf8_decode_utf8};
use crate::types::field::{
    compare_bytes,
    compare_fields,
    lemma_float_sort_key_injective,
    views,
    Field,
    FieldView,
    Relation,
};

verus! {

/// The direction in which one sort key runs.
#[derive(Clone, Copy, Debug, PartialEq, Eq, Structural)]
pub enum Direction {
    Ascending,
    Descending,
}

/// The relation of two key vectors from position `i` on: the first position
/// at which the values differ decides, reversed where that position's
/// direction is descending; a vector that ends first comes first.
pub open spec fn compare_keys_from(
    a: Seq<FieldView>,
    b: Seq<FieldView>,
    directions: Seq<Direction>,
    i: int,
) -> Relation
    decreases a.len() - i,
{
    if i < 0 {
        Relation::Equal
    } else if i >= a.len() {
        if i >= b.len() {
            Relation::Equal
        } else {
            Relation::Less
        }
    } else if i >= b.len() {
        Relation::Greater
    } else if compare_fields(a[i], b[i]) != Relation::Equal {
        if i < directions.len() && directions[i] == Direction::Descending {
            compare_fields(a[i], b[i]).spec_reverse()
        } else {
            compare_fields(a[i], b[i])
        }
    } else {
        compare_keys_from(a, b, directions, i + 1)
    }
}

/// The relation of two key vectors under per-position directions. A position
/// without a direction ascends.
pub open spec fn compare_keys(
    a: Seq<FieldView>,
    b: Seq<FieldView>,
    directions: Seq<Direction>,
) -> Relation {
    compare_keys_from(a, b, directions, 0)
}

/// Byte strings compare equal exactly when they are the same string.
pub proof fn lemma_compare_bytes_equal(a: Seq<u8>, b: Seq<u8>)
    ensures
        (compare_bytes(a, b) == Relation::Equal) <==> a == b,
    decreases a.len(),
{
    if a.len() == 0 {
        if b.len() == 0 {
            assert(a =~= b);
        }
    } else if b.len() == 0 {
    } else if a[0] != b[0] {
    } else {
        lemma_compare_bytes_equal(a.drop_first(), b.drop_first());
        if a.drop_first() == b.drop_first() {
            assert forall|i: int| 0 <= i < a.len() implies a[i] == b[i] by {
                if i > 0 {
                    assert(a.drop_first()[i - 1] == a[i]);
                    assert(b.drop_first()[i - 1] == b[i]);
                }
            }
            assert(a.len() == a.drop_first().len() + 1);
            assert(b.len() == b.drop_first().len() + 1);
            assert(a =~= b);
        }
    }
}

/// Swapping the byte strings reverses their relation.
pub proof fn lemma_compare_bytes_reverse(a: Seq<u8>, b: Seq<u8>)
    ensures
        compare_bytes(b, a) == compare_bytes(a, b).spec_reverse(),
    decreases a.len(),
{
    if a.len() > 0 && b.len() > 0 && a[0] == b[0] {
        lemma_compare_bytes_reverse(a.drop_first(), b.drop_first());
    }
}

/// The order on byte strings is transitive.
pub proof fn lemma_compare_bytes_transitive(a: Seq<u8>, b: Seq<u8>, c: Seq<u8>)
    requires
        compare_bytes(a, b) != Relation::Greater,
        compare_bytes(b, c) != Relation::Greater,
    ensures
        compare_bytes(a, c) != Relation::Greater,
        compare_bytes(a, b) == Relation::Less || compare_bytes(b, c) == Relation::Less
            ==> compare_bytes(a, c) == Relation::Less,
    decreases a.len(),
{
    if a.len() > 0 && b.len() > 0 && c.len() > 0 && a[0] == b[0] && b[0] == c[0] {
        lemma_compare_bytes_transitive(a.drop_first(), b.drop_first(), c.drop_first());
    }
}

/// Values compare equal exactly when they are the same value.
pub proof fn lemma_compare_fields_equal(a: FieldView, b: FieldView)
    ensures
        (compare_fields(a, b) == Relation::Equal) <==> a == b,
{
    match (a, b) {
        (FieldView::Float(x), FieldView::Float(y)) => {
            if compare_fields(a, b) == Relation::Equal {
                lemma_float_sort_key_injective(x, y);
            }
        },
        (FieldView::Text(x), FieldView::Text(y)) => {
            lemma_compare_bytes_equal(encode_utf8(x), encode_utf8(y));
            encode_utf8_decode_utf8(x);
            encode_utf8_decode_utf8(y);
            if encode_utf8(x) == encode_utf8(y) {
                assert(decode_utf8(encode_utf8(x)) == decode_utf8(encode_utf8(y)));
            }
        },
        _ => {},
    }
}

/// Swapping the values reverses their relation.
pub proof fn lemma_compare_fields_reverse(a: FieldView, b: FieldView)
    ensures
        compare_fields(b, a) == compare_fields(a, b).spec_reverse(),
{
    match (a, b) {
        (FieldView::Text(x), FieldView::Text(y)) => {
            lemma_compare_bytes_reverse(encode_utf8(x), encode_utf8(y));
        },
        _ => {},
    }
}

/// The order on values is transitive.
pub proof fn lemma_compare_fields_transitive(a: FieldView, b: FieldView, c: FieldView)
    requires
        compare_fields(a, b) != Relation::Greater,
        compare_fields(b, c) != Relation::Greater,
    ensures
        compare_fields(a, c) != Relation::Greater,
        compare_fields(a, b) == Relation::Less || compare_fields(b, c) == Relation::Less
            ==> compare_fields(a, c) == Relation::Less,
{
    match (a, b, c) {
        (FieldView::Text(x), FieldView::Text(y), FieldView::Text(z)) => {
            lemma_compare_bytes_transitive(encode_utf8(x), encode_utf8(y), encode_utf8(z));
        },
        _ => {},
    }
}

/// Key vectors that compare equal from a position on agree from there on.
pub proof fn lemma_compare_keys_from_equal(
    a: Seq<FieldView>,
    b: Seq<FieldView>,
    directions: Seq<Direction>,
    i: int,
)
    requires
        0 <= i,
    ensures
        (compare_keys_from(a, b, directions, i) == Relation::Equal) <==> ({
            &&& a.len() <= i <==> b.len() <= i
            &&& i < a.len() ==> a.len() == b.len()
            &&& forall|j: int| i <= j < a.len() && j < b.len() ==> a[j] == b[j]
        }),
    decreases a.len() - i,
{
    if i < a.len() && i < b.len() {
        lemma_compare_fields_equal(a[i], b[i]);
        if compare_fields(a[i], b[i]) == Relation::Equal {
            lemma_compare_keys_from_equal(a, b, directions, i + 1);
        }
    }
}

/// Key vectors compare equal exactly when they are the same vector.
pub proof fn lemma_compare_keys_equal(
    a: Seq<FieldView>,
    b: Seq<FieldView>,
    directions: Seq<Direction>,
)
    ensures
        (compare_keys(a, b, directions) == Relation::Equal) <==> a == b,
{
    lemma_compare_keys_from_equal(a, b, directions, 0);
    if compare_keys(a, b, directions) == Relation::Equal {
        assert(a =~= b);
    }
}

/// Swapping the key vectors reverses their relation.
pub proof fn lemma_compare_keys_from_reverse(
    a: Seq<FieldView>,
    b: Seq<FieldView>,
    directions: Seq<Direction>,
    i: int,
)
    requires
        0 <= i,
    ensures
        compare_keys_from(b, a, directions, i) == compare_keys_from(
            a,
            b,
            directions,
            i,
        ).spec_reverse(),
    decreases a.len() - i,
{
    if i < a.len() && i < b.len() {
        lemma_compare_fields_reverse(a[i], b[i]);
        if compare_fields(a[i], b[i]) == Relation::Equal {
            lemma_compare_keys_from_reverse(a, b, directions, i + 1);
        }
    }
}

/// Swapping the key vectors reverses their relation.
pub proof fn lemma_compare_keys_reverse(
    a: Seq<FieldView>,
    b: Seq<FieldView>,
    directions: Seq<Direction>,
)
    ensures
        compare_keys(b, a, directions) == compare_keys(a, b, directions).spec_reverse(),
{
    lemma_compare_keys_from_reverse(a, b, directions, 0);
}

/// The order on key vectors is transitive from any position on.
pub proof fn lemma_compare_keys_from_transitive(
    a: Seq<FieldView>,
    b: Seq<FieldView>,
    c: Seq<FieldView>,
    directions: Seq<Direction>,
    i: int,
)
    requires
        0 <= i,
        compare_keys_from(a, b, directions, i) != Relation::Greater,
        compare_keys_from(b, c, directions, i) != Relation::Greater,
    ensures
        compare_keys_from(a, c, directions, i) != Relation::Greater,
        compare_keys_from(a, b, directions, i) == Relation::Less || compare_keys_from(
            b,
            c,
            directions,
            i,
        ) == Relation::Less ==> compare_keys_from(a, c, directions, i) == Relation::Less,
    decreases a.len() - i,
{
    if i < a.len() && i < b.len() && i < c.len() {
        let ab = compare_fields(a[i], b[i]);
        let bc = compare_fields(b[i], c[i]);
        lemma_compare_fields_equal(a[i], b[i]);
        lemma_compare_fields_equal(b[i], c[i]);
        lemma_compare_fields_equal(a[i], c[i]);
        if ab == Relation::Equal && bc == Relation::Equal {
            lemma_compare_keys_from_transitive(a, b, c, directions, i + 1);
        } else if ab == Relation::Equal || bc == Relation::Equal {
        } else if i < directions.len() && directions[i] == Direction::Descending {
            lemma_compare_fields_reverse(a[i], b[i]);
            lemma_compare_fields_reverse(b[i], c[i]);
            lemma_compare_fields_reverse(a[i], c[i]);
            lemma_compare_fields_transitive(c[i], b[i], a[i]);
        } else {
            lemma_compare_fields_transitive(a[i], b[i], c[i]);
        }
    }
}

/// The order on key vectors is transitive.
pub proof fn lemma_compare_keys_transitive(
    a: Seq<FieldView>,
    b: Seq<FieldView>,
    c: Seq<FieldView>,
    directions: Seq<Direction>,
)
    requires
        compare_keys(a, b, directions) != Relation::Greater,
        compare_keys(b, c, directions) != Relation::Greater,
    ensures
        compare_keys(a, c, directions) != Relation::Greater,
        compare_keys(a, b, directions) == Relation::Less || compare_keys(b, c, directions)
            == Relation::Less ==> compare_keys(a, c, directions) == Relation::Less,
{
    lemma_compare_keys_from_transitive(a, b, c, directions, 0);
}

/// Compares two key vectors under per-position directions.
pub fn compare_key_vectors(a: &Vec<Field>, b: &Vec<Field>, directions: &Vec<Direction>) -> (r:
    Relation)
    ensures
        r == compare_keys(views(a@), views(b@), directions@),
{
    let mut i: usize = 0;
    while i < a.len() && i < b.len()
        invariant
            i <= a@.len(),
            i <= b@.len(),
            compare_keys(views(a@), views(b@), directions@) == compare_keys_from(
                views(a@),
                views(b@),
                directions@,
                i as int,
            ),
        decreases a@.len() - i,
    {
        let first = a[i].compare(&b[i]);
        match first {
            Relation::Equal => {},
            _ => {
                if i < directions.len() {
                    match directions[i] {
                        Direction::Descending => {
                            return first.reverse();
                        },
                        Direction::Ascending => {},
                    }
                }
                return first;
            },
        }
        i += 1;
    }
    if i < b.len() {
        Relation::Less
    } else if i < a.len() {
        Relation::Greater
    } else {
        Relation::Equal
    }
}

} // verus!
