//! The typed value that operators exchange, with its total order, its
//! equality for matching, and its checked arithmetic.

use vstd::prelude::*;
use vstd::string::StringSliceAdditionalSpecFns;
use vstd::utf8::encode_utf8;
use crate::common::Error;
use crate::types::schema::DataType;

verus! {

/// How one value stands to another in a total order.
#[derive(Clone, Copy, Debug, PartialEq, Eq, Structural)]
pub enum Relation {
    Less,
    Equal,
    Greater,
}

impl Relation {
    /// The relation seen from the other side.
    pub open spec fn spec_reverse(self) -> Relation {
        match self {
            Relation::Less => Relation::Greater,
            Relation::Equal => Relation::Equal,
            Relation::Greater => Relation::Less,
        }
    }

    /// The relation seen from the other side.
    pub fn reverse(self) -> (r: Relation)
        ensures
            r == self.spec_reverse(),
    {
        match self {
            Relation::Less => Relation::Greater,
            Relation::Equal => Relation::Equal,
            Relation::Greater => Relation::Less,
        }
    }
}

/// How two integers stand to each other.
pub open spec fn relate(x: int, y: int) -> Relation {
    if x < y {
        Relation::Less
    } else if x == y {
        Relation::Equal
    } else {
        Relation::Greater
    }
}

/// The mathematical content of a [`Field`].
pub enum FieldView {
    Null,
    Boolean(bool),
    Integer(i64),
    /// The IEEE-754 binary64 bit pattern of the number.
    Float(u64),
    Text(Seq<char>),
}

/// A tagged value. A floating-point number is carried as its IEEE-754
/// binary64 bit pattern: it is stored, compared, ordered and matched, and
/// arithmetic refuses it as a type mismatch.
#[derive(Debug, PartialEq)]
pub enum Field {
    Null,
    Boolean(bool),
    Integer(i64),
    Float(u64),
    Text(String),
}

impl View for Field {
    type V = FieldView;

    open spec fn view(&self) -> FieldView {
        match self {
            Field::Null => FieldView::Null,
            Field::Boolean(b) => FieldView::Boolean(*b),
            Field::Integer(i) => FieldView::Integer(*i),
            Field::Float(bits) => FieldView::Float(*bits),
            Field::Text(s) => FieldView::Text(s@),
        }
    }
}

impl Clone for Field {
    fn clone(&self) -> (r: Field)
        ensures
            r@ == self@,
    {
        match self {
            Field::Null => Field::Null,
            Field::Boolean(b) => Field::Boolean(*b),
            Field::Integer(i) => Field::Integer(*i),
            Field::Float(bits) => Field::Float(*bits),
            Field::Text(s) => Field::Text(s.clone()),
        }
    }
}

/// Whether the bit pattern is a NaN: all exponent bits set, mantissa not zero.
pub open spec fn float_is_nan(bits: u64) -> bool {
    (bits & 0x7ff0_0000_0000_0000) == 0x7ff0_0000_0000_0000 && (bits & 0x000f_ffff_ffff_ffff) != 0
}

/// Whether the bit pattern is one of the two zeros.
pub open spec fn float_is_zero(bits: u64) -> bool {
    (bits & 0x7fff_ffff_ffff_ffff) == 0
}

/// An unsigned key that orders bit patterns as IEEE-754 `totalOrder` does:
/// negative numbers have all bits flipped, the others have the sign bit set.
pub open spec fn float_sort_key(bits: u64) -> u64 {
    if (bits & 0x8000_0000_0000_0000) != 0 {
        !bits
    } else {
        bits | 0x8000_0000_0000_0000
    }
}

/// Two bit patterns with the same sort key are the same pattern.
pub proof fn lemma_float_sort_key_injective(a: u64, b: u64)
    requires
        float_sort_key(a) == float_sort_key(b),
    ensures
        a == b,
{
    assert(({
        let ka = if (a & 0x8000_0000_0000_0000) != 0 { !a } else { a | 0x8000_0000_0000_0000 };
        let kb = if (b & 0x8000_0000_0000_0000) != 0 { !b } else { b | 0x8000_0000_0000_0000 };
        ka == kb ==> a == b
    })) by (bit_vector);
}

/// The position of a value's type in the cross-type order:
/// NULL, then booleans, integers, floats, text.
pub open spec fn type_rank(f: FieldView) -> int {
    match f {
        FieldView::Null => 0,
        FieldView::Boolean(_) => 1,
        FieldView::Integer(_) => 2,
        FieldView::Float(_) => 3,
        FieldView::Text(_) => 4,
    }
}

/// Lexicographic order of two byte strings; a proper prefix comes first.
pub open spec fn compare_bytes(a: Seq<u8>, b: Seq<u8>) -> Relation
    decreases a.len(),
{
    if a.len() == 0 {
        if b.len() == 0 {
            Relation::Equal
        } else {
            Relation::Less
        }
    } else if b.len() == 0 {
        Relation::Greater
    } else if a[0] != b[0] {
        relate(a[0] as int, b[0] as int)
    } else {
        compare_bytes(a.drop_first(), b.drop_first())
    }
}

/// The total order on values, used by ORDER BY and for GROUP BY buckets.
/// NULL sorts before every other value; values of different types are ordered
/// by type; booleans have false first; integers are ordered numerically;
/// floats by `totalOrder`; text by its UTF-8 bytes.
pub open spec fn compare_fields(a: FieldView, b: FieldView) -> Relation {
    match (a, b) {
        (FieldView::Boolean(x), FieldView::Boolean(y)) => relate(
            if x { 1 } else { 0 },
            if y { 1 } else { 0 },
        ),
        (FieldView::Integer(x), FieldView::Integer(y)) => relate(x as int, y as int),
        (FieldView::Float(x), FieldView::Float(y)) => relate(
            float_sort_key(x) as int,
            float_sort_key(y) as int,
        ),
        (FieldView::Text(x), FieldView::Text(y)) => compare_bytes(encode_utf8(x), encode_utf8(y)),
        _ => relate(type_rank(a), type_rank(b)),
    }
}

/// Whether a value takes no part in equality: NULL and NaN equal nothing,
/// themselves included.
pub open spec fn is_undefined(f: FieldView) -> bool {
    match f {
        FieldView::Null => true,
        FieldView::Float(bits) => float_is_nan(bits),
        _ => false,
    }
}

/// Equality for matching rows: both values are defined and hold the same
/// value. The two float zeros are the same value.
pub open spec fn fields_match(a: FieldView, b: FieldView) -> bool {
    !is_undefined(a) && !is_undefined(b) && match (a, b) {
        (FieldView::Float(x), FieldView::Float(y)) => x == y || (float_is_zero(x) && float_is_zero(
            y,
        )),
        _ => a == b,
    }
}

/// The quotient of two integers rounded toward zero.
pub open spec fn truncated_quotient(x: int, d: int) -> int
    recommends
        d != 0,
{
    if x == 0 {
        0
    } else if x > 0 && d > 0 {
        x / d
    } else if x < 0 && d < 0 {
        (x * -1) / (d * -1)
    } else if x < 0 {
        ((x * -1) / d) * -1
    } else {
        (x / (d * -1)) * -1
    }
}

/// Checked addition. Two integers give their sum, or an overflow failure when
/// the sum leaves the 64-bit range. NULL with NULL, an integer or a float
/// gives NULL. Every other pair of operands is a type mismatch.
pub open spec fn add_fields(a: FieldView, b: FieldView) -> Result<FieldView, Error> {
    match (a, b) {
        (FieldView::Integer(x), FieldView::Integer(y)) => if i64::MIN <= x + y <= i64::MAX {
            Ok(FieldView::Integer((x + y) as i64))
        } else {
            Err(Error::Overflow)
        },
        (FieldView::Null, FieldView::Null | FieldView::Integer(_) | FieldView::Float(_)) => Ok(
            FieldView::Null,
        ),
        (FieldView::Integer(_) | FieldView::Float(_), FieldView::Null) => Ok(FieldView::Null),
        _ => Err(Error::TypeMismatch),
    }
}

/// Checked division. Two integers give their quotient rounded toward zero;
/// a zero divisor is a division-by-zero failure, and a quotient outside the
/// 64-bit range an overflow failure. NULL with NULL, an integer or a float
/// gives NULL. Every other pair of operands is a type mismatch.
pub open spec fn divide_fields(a: FieldView, b: FieldView) -> Result<FieldView, Error> {
    match (a, b) {
        (FieldView::Integer(x), FieldView::Integer(y)) => if y == 0 {
            Err(Error::DivisionByZero)
        } else if i64::MIN <= truncated_quotient(x as int, y as int) <= i64::MAX {
            Ok(FieldView::Integer(truncated_quotient(x as int, y as int) as i64))
        } else {
            Err(Error::Overflow)
        },
        (FieldView::Null, FieldView::Null | FieldView::Integer(_) | FieldView::Float(_)) => Ok(
            FieldView::Null,
        ),
        (FieldView::Integer(_) | FieldView::Float(_), FieldView::Null) => Ok(FieldView::Null),
        _ => Err(Error::TypeMismatch),
    }
}

/// The column type that a value belongs to. NULL belongs to none.
pub open spec fn type_of(f: FieldView) -> DataType {
    match f {
        FieldView::Null => DataType::Invalid,
        FieldView::Boolean(_) => DataType::Bool,
        FieldView::Integer(_) => DataType::Int,
        FieldView::Float(_) => DataType::Float,
        FieldView::Text(_) => DataType::Text,
    }
}

/// The views of a sequence of values, one for one.
pub open spec fn views(fields: Seq<Field>) -> Seq<FieldView> {
    Seq::new(fields.len(), |i: int| fields[i]@)
}

/// The views of a sequence with one more value are the views with one more view.
pub proof fn lemma_views_push(fields: Seq<Field>, f: Field)
    ensures
        views(fields.push(f)) == views(fields).push(f@),
{
    assert(views(fields.push(f)) =~= views(fields).push(f@));
}

/// Compares two byte strings lexicographically.
pub fn compare_byte_slices(a: &[u8], b: &[u8]) -> (r: Relation)
    ensures
        r == compare_bytes(a@, b@),
{
    let mut i: usize = 0;
    proof {
        assert(a@.skip(0) =~= a@);
        assert(b@.skip(0) =~= b@);
    }
    while i < a.len() && i < b.len()
        invariant
            i <= a@.len(),
            i <= b@.len(),
            compare_bytes(a@, b@) == compare_bytes(a@.skip(i as int), b@.skip(i as int)),
        decreases a@.len() - i,
    {
        proof {
            assert(a@.skip(i as int)[0] == a@[i as int]);
            assert(b@.skip(i as int)[0] == b@[i as int]);
            assert(a@.skip(i as int).drop_first() =~= a@.skip(i + 1));
            assert(b@.skip(i as int).drop_first() =~= b@.skip(i + 1));
        }
        if a[i] < b[i] {
            return Relation::Less;
        }
        if a[i] > b[i] {
            return Relation::Greater;
        }
        i += 1;
    }
    if i < b.len() {
        Relation::Less
    } else if i < a.len() {
        Relation::Greater
    } else {
        Relation::Equal
    }
}

fn float_key(bits: u64) -> (k: u64)
    ensures
        k == float_sort_key(bits),
{
    if (bits & 0x8000_0000_0000_0000) != 0 {
        !bits
    } else {
        bits | 0x8000_0000_0000_0000
    }
}

impl Field {
    /// The column type that this value belongs to.
    pub fn get_type(&self) -> (t: DataType)
        ensures
            t == type_of(self@),
    {
        match self {
            Field::Null => DataType::Invalid,
            Field::Boolean(_) => DataType::Bool,
            Field::Integer(_) => DataType::Int,
            Field::Float(_) => DataType::Float,
            Field::Text(_) => DataType::Text,
        }
    }

    fn rank(&self) -> (r: u8)
        ensures
            r == type_rank(self@),
    {
        match self {
            Field::Null => 0,
            Field::Boolean(_) => 1,
            Field::Integer(_) => 2,
            Field::Float(_) => 3,
            Field::Text(_) => 4,
        }
    }

    /// Whether this value is NULL.
    pub fn is_null(&self) -> (r: bool)
        ensures
            r == (self@ == FieldView::Null),
    {
        match self {
            Field::Null => true,
            _ => false,
        }
    }

    /// Whether this value takes no part in equality (NULL or NaN).
    pub fn is_undefined(&self) -> (r: bool)
        ensures
            r == is_undefined(self@),
    {
        match self {
            Field::Null => true,
            Field::Float(bits) => (*bits & 0x7ff0_0000_0000_0000) == 0x7ff0_0000_0000_0000 && (*bits
                & 0x000f_ffff_ffff_ffff) != 0,
            _ => false,
        }
    }

    /// Where this value stands to another in the total order.
    pub fn compare(&self, other: &Field) -> (r: Relation)
        ensures
            r == compare_fields(self@, other@),
    {
        match (self, other) {
            (Field::Boolean(x), Field::Boolean(y)) => {
                if *x == *y {
                    Relation::Equal
                } else if *y {
                    Relation::Less
                } else {
                    Relation::Greater
                }
            },
            (Field::Integer(x), Field::Integer(y)) => {
                if *x < *y {
                    Relation::Less
                } else if *x == *y {
                    Relation::Equal
                } else {
                    Relation::Greater
                }
            },
            (Field::Float(x), Field::Float(y)) => {
                let kx = float_key(*x);
                let ky = float_key(*y);
                if kx < ky {
                    Relation::Less
                } else if kx == ky {
                    Relation::Equal
                } else {
                    Relation::Greater
                }
            },
            (Field::Text(x), Field::Text(y)) => compare_byte_slices(
                x.as_str().as_bytes(),
                y.as_str().as_bytes(),
            ),
            _ => {
                let rx = self.rank();
                let ry = other.rank();
                if rx < ry {
                    Relation::Less
                } else if rx == ry {
                    Relation::Equal
                } else {
                    Relation::Greater
                }
            },
        }
    }

    /// Whether this value and another are the same value.
    pub fn same(&self, other: &Field) -> (r: bool)
        ensures
            r == (self@ == other@),
    {
        match (self, other) {
            (Field::Null, Field::Null) => true,
            (Field::Boolean(x), Field::Boolean(y)) => *x == *y,
            (Field::Integer(x), Field::Integer(y)) => *x == *y,
            (Field::Float(x), Field::Float(y)) => *x == *y,
            (Field::Text(x), Field::Text(y)) => *x == *y,
            _ => false,
        }
    }

    /// Whether this value matches another for a join: both defined and equal.
    pub fn matches(&self, other: &Field) -> (r: bool)
        ensures
            r == fields_match(self@, other@),
    {
        if self.is_undefined() || other.is_undefined() {
            return false;
        }
        match (self, other) {
            (Field::Float(x), Field::Float(y)) => *x == *y || ((*x & 0x7fff_ffff_ffff_ffff) == 0
                && (*y & 0x7fff_ffff_ffff_ffff) == 0),
            _ => self.same(other),
        }
    }

    /// Checked addition.
    pub fn checked_add(&self, other: &Field) -> (r: Result<Field, Error>)
        ensures
            match r {
                Ok(f) => add_fields(self@, other@) == Ok::<FieldView, Error>(f@),
                Err(e) => add_fields(self@, other@) == Err::<FieldView, Error>(e),
            },
    {
        match (self, other) {
            (Field::Integer(x), Field::Integer(y)) => match x.checked_add(*y) {
                Some(sum) => Ok(Field::Integer(sum)),
                None => Err(Error::Overflow),
            },
            (Field::Null, Field::Null) => Ok(Field::Null),
            (Field::Null, Field::Integer(_)) => Ok(Field::Null),
            (Field::Null, Field::Float(_)) => Ok(Field::Null),
            (Field::Integer(_), Field::Null) => Ok(Field::Null),
            (Field::Float(_), Field::Null) => Ok(Field::Null),
            _ => Err(Error::TypeMismatch),
        }
    }

    /// Checked division.
    pub fn checked_div(&self, other: &Field) -> (r: Result<Field, Error>)
        ensures
            match r {
                Ok(f) => divide_fields(self@, other@) == Ok::<FieldView, Error>(f@),
                Err(e) => divide_fields(self@, other@) == Err::<FieldView, Error>(e),
            },
    {
        match (self, other) {
            (Field::Integer(x), Field::Integer(y)) => {
                if *y == 0 {
                    Err(Error::DivisionByZero)
                } else {
                    match x.checked_div(*y) {
                        Some(q) => Ok(Field::Integer(q)),
                        None => Err(Error::Overflow),
                    }
                }
            },
            (Field::Null, Field::Null) => Ok(Field::Null),
            (Field::Null, Field::Integer(_)) => Ok(Field::Null),
            (Field::Null, Field::Float(_)) => Ok(Field::Null),
            (Field::Integer(_), Field::Null) => Ok(Field::Null),
            (Field::Float(_), Field::Null) => Ok(Field::Null),
            _ => Err(Error::TypeMismatch),
        }
    }
}

} // verus!
