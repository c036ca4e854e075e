//! Column and table metadata: the static description by which raw tuples
//! are read and mutations are checked.

use std::sync::Arc;
use vstd::prelude::*;
use vstd::string::StringExecFns;
use crate::types::field::{type_of, Field, FieldView};

verus! {

/// The type of a column.
#[derive(PartialEq, Eq, Hash, Clone, Debug, Copy, Structural)]
pub enum DataType {
    Bool,
    Int,
    Float,
    Text,
    Invalid,
}

/// The type that a name stands for, if any.
pub open spec fn parse_type(name: Seq<char>) -> Option<DataType> {
    if name == seq!['B', 'o', 'o', 'l'] {
        Some(DataType::Bool)
    } else if name == seq!['I', 'n', 't'] {
        Some(DataType::Int)
    } else if name == seq!['F', 'l', 'o', 'a', 't'] {
        Some(DataType::Float)
    } else if name == seq!['T', 'e', 'x', 't'] {
        Some(DataType::Text)
    } else if name == seq!['I', 'n', 'v', 'a', 'l', 'i', 'd'] {
        Some(DataType::Invalid)
    } else if name == seq!['N', 'u', 'l', 'l'] {
        Some(DataType::Invalid)
    } else {
        None
    }
}

/// The name under which a type is rendered.
pub open spec fn type_label(data_type: DataType) -> Seq<char> {
    match data_type {
        DataType::Bool => seq!['b', 'o', 'o', 'l'],
        DataType::Int => seq!['i', 'n', 't'],
        DataType::Float => seq!['f', 'l', 'o', 'a', 't'],
        DataType::Text => seq!['v', 'a', 'r', 'c', 'h', 'a', 'r'],
        DataType::Invalid => seq!['i', 'n', 'v', 'a', 'l', 'i', 'd'],
    }
}

/// The number of bytes that a value of the type takes in the fixed region
/// of a tuple. Text takes none there.
pub open spec fn fixed_width(data_type: DataType) -> nat {
    match data_type {
        DataType::Bool => 1,
        DataType::Int => 4,
        DataType::Float => 4,
        DataType::Text => 0,
        DataType::Invalid => 0,
    }
}

fn same_text(a: &str, b: &str) -> (r: bool)
    ensures
        r == (a@ == b@),
{
    a.to_owned() == b.to_owned()
}

impl DataType {
    /// The type that a name stands for, if any.
    pub fn parse(data_type: &str) -> (r: Option<DataType>)
        ensures
            r == parse_type(data_type@),
    {
        proof {
            reveal_strlit("Bool");
            reveal_strlit("Int");
            reveal_strlit("Float");
            reveal_strlit("Text");
            reveal_strlit("Invalid");
            reveal_strlit("Null");
            assert("Bool"@ =~= seq!['B', 'o', 'o', 'l']);
            assert("Int"@ =~= seq!['I', 'n', 't']);
            assert("Float"@ =~= seq!['F', 'l', 'o', 'a', 't']);
            assert("Text"@ =~= seq!['T', 'e', 'x', 't']);
            assert("Invalid"@ =~= seq!['I', 'n', 'v', 'a', 'l', 'i', 'd']);
            assert("Null"@ =~= seq!['N', 'u', 'l', 'l']);
        }
        if same_text(data_type, "Bool") {
            Some(DataType::Bool)
        } else if same_text(data_type, "Int") {
            Some(DataType::Int)
        } else if same_text(data_type, "Float") {
            Some(DataType::Float)
        } else if same_text(data_type, "Text") {
            Some(DataType::Text)
        } else if same_text(data_type, "Invalid") {
            Some(DataType::Invalid)
        } else if same_text(data_type, "Null") {
            Some(DataType::Invalid)
        } else {
            None
        }
    }

    /// The type that a name stands for. The name must be one of the known ones.
    pub fn from_string(data_type: &str) -> (r: DataType)
        requires
            parse_type(data_type@) is Some,
        ensures
            Some(r) == parse_type(data_type@),
    {
        match DataType::parse(data_type) {
            Some(t) => t,
            None => DataType::Invalid,
        }
    }

    /// The number of bytes of a value in the fixed region. Not for text.
    pub fn length_bytes(&self) -> (n: u16)
        ensures
            n == fixed_width(*self),
    {
        match self {
            DataType::Bool => 1,
            DataType::Int => 4,
            DataType::Float => 4,
            DataType::Text => 0,
            DataType::Invalid => 0,
        }
    }

    /// The name under which the type is rendered.
    pub fn to_string(&self) -> (s: String)
        ensures
            s@ == type_label(*self),
    {
        proof {
            reveal_strlit("bool");
            reveal_strlit("int");
            reveal_strlit("float");
            reveal_strlit("varchar");
            reveal_strlit("invalid");
            assert("bool"@ =~= seq!['b', 'o', 'o', 'l']);
            assert("int"@ =~= seq!['i', 'n', 't']);
            assert("float"@ =~= seq!['f', 'l', 'o', 'a', 't']);
            assert("varchar"@ =~= seq!['v', 'a', 'r', 'c', 'h', 'a', 'r']);
            assert("invalid"@ =~= seq!['i', 'n', 'v', 'a', 'l', 'i', 'd']);
        }
        match self {
            DataType::Bool => "bool".to_owned(),
            DataType::Int => "int".to_owned(),
            DataType::Float => "float".to_owned(),
            DataType::Text => "varchar".to_owned(),
            DataType::Invalid => "invalid".to_owned(),
        }
    }
}

/// The character of a decimal digit.
pub open spec fn digit(d: nat) -> char {
    if d == 0 {
        '0'
    } else if d == 1 {
        '1'
    } else if d == 2 {
        '2'
    } else if d == 3 {
        '3'
    } else if d == 4 {
        '4'
    } else if d == 5 {
        '5'
    } else if d == 6 {
        '6'
    } else if d == 7 {
        '7'
    } else if d == 8 {
        '8'
    } else {
        '9'
    }
}

/// The decimal rendering of a number, without leading zeros.
pub open spec fn decimal(n: nat) -> Seq<char>
    decreases n,
{
    if n < 10 {
        seq![digit(n)]
    } else {
        decimal(n / 10).push(digit(n % 10))
    }
}

fn digit_text(d: u16) -> (s: &'static str)
    requires
        d < 10,
    ensures
        s@ == seq![digit(d as nat)],
{
    proof {
        reveal_strlit("0");
        reveal_strlit("1");
        reveal_strlit("2");
        reveal_strlit("3");
        reveal_strlit("4");
        reveal_strlit("5");
        reveal_strlit("6");
        reveal_strlit("7");
        reveal_strlit("8");
        reveal_strlit("9");
        assert("0"@ =~= seq!['0']);
        assert("1"@ =~= seq!['1']);
        assert("2"@ =~= seq!['2']);
        assert("3"@ =~= seq!['3']);
        assert("4"@ =~= seq!['4']);
        assert("5"@ =~= seq!['5']);
        assert("6"@ =~= seq!['6']);
        assert("7"@ =~= seq!['7']);
        assert("8"@ =~= seq!['8']);
        assert("9"@ =~= seq!['9']);
    }
    if d == 0 {
        "0"
    } else if d == 1 {
        "1"
    } else if d == 2 {
        "2"
    } else if d == 3 {
        "3"
    } else if d == 4 {
        "4"
    } else if d == 5 {
        "5"
    } else if d == 6 {
        "6"
    } else if d == 7 {
        "7"
    } else if d == 8 {
        "8"
    } else {
        "9"
    }
}

/// Renders a number in decimal.
pub fn render_number(n: u16) -> (s: String)
    ensures
        s@ == decimal(n as nat),
    decreases n,
{
    if n < 10 {
        digit_text(n).to_owned()
    } else {
        let mut s = render_number(n / 10);
        s.append(digit_text(n % 10));
        assert(s@ =~= decimal((n / 10) as nat).push(digit((n % 10) as nat)));
        s
    }
}

/// The mathematical content of a [`Column`].
pub struct ColumnView {
    pub name: Seq<char>,
    pub data_type: DataType,
    pub nullable: bool,
    pub default: Option<FieldView>,
    pub max_str_len: u16,
    pub stored_offset: u16,
}

/// The description of one column.
#[derive(Debug, PartialEq)]
pub struct Column {
    /// Column name. Can't be empty in a stored table.
    name: String,
    /// Column datatype.
    data_type: DataType,
    /// Whether the column allows null values.
    nullable: bool,
    /// The column's default value. If absent, the inserter must give a value.
    default: Option<Field>,
    /// The bound on the length of a text value; 0 for other types.
    max_str_len: u16,
    /// For a fixed-width column, the offset in bytes of the value from the
    /// start of the fixed region. For a text column, its index in the table
    /// of variable-length slots.
    stored_offset: u16,
}

/// The anonymous column of a type: without name, not nullable, without
/// default or length bound, not yet placed.
pub open spec fn anonymous(dt: DataType) -> ColumnView {
    ColumnView {
        name: Seq::empty(),
        data_type: dt,
        nullable: false,
        default: None,
        max_str_len: 0,
        stored_offset: 0,
    }
}

/// The content of a default that may be absent.
pub open spec fn default_view(f: Option<Field>) -> Option<FieldView> {
    match f {
        Some(v) => Some(v@),
        None => None,
    }
}

/// The default that a column gets: the one given, or NULL where none is
/// given and the column allows NULL, or none.
pub open spec fn effective_default(given: Option<FieldView>, nullable: bool) -> Option<FieldView> {
    match given {
        Some(v) => Some(v),
        None => if nullable {
            Some(FieldView::Null)
        } else {
            None
        },
    }
}

/// The rendering of a column: its name, a colon and the name of its type,
/// followed for a text column by the length bound in parentheses.
pub open spec fn render_column(c: ColumnView) -> Seq<char> {
    let base = c.name + seq![':'] + type_label(c.data_type);
    if c.data_type == DataType::Text {
        base + seq!['('] + decimal(c.max_str_len as nat) + seq![')']
    } else {
        base
    }
}

impl ColumnView {
    /// Whether the column can stand in a stored table: its name is not
    /// empty; its default, where it has one, is NULL only if the column
    /// allows NULL and is otherwise of the column's type; and only a text
    /// column has a length bound.
    pub open spec fn valid(self) -> bool {
        &&& self.name.len() > 0
        &&& match self.default {
            None => true,
            Some(FieldView::Null) => self.nullable,
            Some(v) => type_of(v) == self.data_type,
        }
        &&& self.data_type != DataType::Text ==> self.max_str_len == 0
    }
}

impl View for Column {
    type V = ColumnView;

    closed spec fn view(&self) -> ColumnView {
        ColumnView {
            name: self.name@,
            data_type: self.data_type,
            nullable: self.nullable,
            default: default_view(self.default),
            max_str_len: self.max_str_len,
            stored_offset: self.stored_offset,
        }
    }
}

fn clone_default(f: &Option<Field>) -> (r: Option<Field>)
    ensures
        default_view(r) == default_view(*f),
{
    match f {
        Some(v) => Some(v.clone()),
        None => None,
    }
}

impl Clone for Column {
    fn clone(&self) -> (r: Column)
        ensures
            r@ == self@,
    {
        Column {
            name: self.name.clone(),
            data_type: self.data_type,
            nullable: self.nullable,
            default: clone_default(&self.default),
            max_str_len: self.max_str_len,
            stored_offset: self.stored_offset,
        }
    }
}

impl Column {
    /// A column that is not yet placed in a table.
    pub fn new(
        column_name: &str,
        dt: DataType,
        nullable: bool,
        default: Option<Field>,
        max_str_chars: Option<u16>,
    ) -> (c: Column)
        ensures
            c@ == (ColumnView {
                name: column_name@,
                data_type: dt,
                nullable,
                default: effective_default(default_view(default), nullable),
                max_str_len: match max_str_chars {
                    Some(n) => n,
                    None => 0,
                },
                stored_offset: 0,
            }),
    {
        Column {
            name: column_name.to_owned(),
            data_type: dt,
            nullable,
            default: match default {
                Some(value) => Some(value),
                None => if nullable {
                    Some(Field::Null)
                } else {
                    None
                },
            },
            max_str_len: match max_str_chars {
                Some(n) => n,
                None => 0,
            },
            stored_offset: 0,
        }
    }

    /// A builder without any setting.
    pub fn builder() -> (b: ColumnBuilder)
        ensures
            b@ == ColumnBuilderView::unset(),
    {
        ColumnBuilder::new()
    }

    /// An anonymous column of the given type, not nullable, without default.
    pub fn from_type(dt: DataType) -> (c: Column)
        ensures
            c@ == anonymous(dt),
    {
        Column {
            name: String::new(),
            data_type: dt,
            nullable: false,
            default: None,
            max_str_len: 0,
            stored_offset: 0,
        }
    }

    /// An anonymous column of the given type and length bound.
    pub fn from_type_and_length(dt: DataType, str_len: u16) -> (c: Column)
        ensures
            c@ == (ColumnView { max_str_len: str_len, ..anonymous(dt) }),
    {
        Column {
            name: String::new(),
            data_type: dt,
            nullable: false,
            default: None,
            max_str_len: str_len,
            stored_offset: 0,
        }
    }

    /// The rendering of the column.
    pub fn to_string(&self) -> (s: String)
        ensures
            s@ == render_column(self@),
    {
        proof {
            reveal_strlit(":");
            reveal_strlit("(");
            reveal_strlit(")");
            assert(":"@ =~= seq![':']);
            assert("("@ =~= seq!['(']);
            assert(")"@ =~= seq![')']);
        }
        let mut s = self.name.clone();
        s.append(":");
        let type_text = self.data_type.to_string();
        s.append(type_text.as_str());
        if self.data_type == DataType::Text {
            s.append("(");
            let bound = render_number(self.max_str_len);
            s.append(bound.as_str());
            s.append(")");
        }
        s
    }

    /// Changes the type of the column.
    pub fn set_data_type(&mut self, data_type: DataType)
        ensures
            final(self)@ == (ColumnView { data_type, ..old(self)@ }),
    {
        self.data_type = data_type;
    }

    /// The type of the column.
    pub fn get_data_type(&self) -> (t: DataType)
        ensures
            t == self@.data_type,
    {
        self.data_type
    }

    /// Changes the name of the column.
    pub fn set_name(&mut self, column_name: &str)
        ensures
            final(self)@ == (ColumnView { name: column_name@, ..old(self)@ }),
    {
        self.name = column_name.to_owned();
    }

    /// The name of the column.
    pub fn get_name(&self) -> (s: String)
        ensures
            s@ == self@.name,
    {
        self.name.clone()
    }

    /// Whether the column allows NULL.
    pub fn is_nullable(&self) -> (b: bool)
        ensures
            b == self@.nullable,
    {
        self.nullable
    }

    /// Whether the column can stand in a stored table.
    pub fn is_valid(&self) -> (b: bool)
        ensures
            b == self@.valid(),
    {
        let named = !self.name.as_str().is_empty();
        let fitting = match &self.default {
            None => true,
            Some(f) => if f.is_null() {
                self.nullable
            } else {
                f.get_type() == self.data_type
            },
        };
        let bounded = self.data_type == DataType::Text || self.max_str_len == 0;
        named && fitting && bounded
    }

    /// The default value of the column, if it has one.
    pub fn default(&self) -> (d: Option<&Field>)
        ensures
            match d {
                Some(f) => self@.default == Some(f@),
                None => self@.default is None,
            },
    {
        match &self.default {
            Some(f) => Some(f),
            None => None,
        }
    }

    /// The largest number of bytes that a value of the column takes: the
    /// fixed width of its type and its length bound together.
    pub fn length_bytes(&self) -> (n: u16)
        requires
            fixed_width(self@.data_type) + self@.max_str_len <= u16::MAX,
        ensures
            n == fixed_width(self@.data_type) + self@.max_str_len,
    {
        self.data_type.length_bytes() + self.max_str_len
    }

    /// Where the column is stored in a tuple of its table.
    pub fn stored_offset(&self) -> (n: u16)
        ensures
            n == self@.stored_offset,
    {
        self.stored_offset
    }

    /// The bound on the length of a text value.
    pub fn get_max_str_len(&self) -> (n: u16)
        ensures
            n == self@.max_str_len,
    {
        self.max_str_len
    }

    fn placed_at(&self, offset: u16) -> (c: Column)
        ensures
            c@ == (ColumnView { stored_offset: offset, ..self@ }),
    {
        let mut c = self.clone();
        c.stored_offset = offset;
        c
    }
}

/// The mathematical content of a [`ColumnBuilder`].
pub struct ColumnBuilderView {
    pub name: Option<Seq<char>>,
    pub data_type: Option<DataType>,
    pub nullable: Option<bool>,
    pub default: Option<FieldView>,
    pub max_str_len: Option<u16>,
}

impl ColumnBuilderView {
    /// The builder without any setting.
    pub open spec fn unset() -> ColumnBuilderView {
        ColumnBuilderView {
            name: None,
            data_type: None,
            nullable: None,
            default: None,
            max_str_len: None,
        }
    }
}

/// Collects the settings of a column one by one.
pub struct ColumnBuilder {
    name: Option<String>,
    data_type: Option<DataType>,
    nullable: Option<bool>,
    default: Option<Field>,
    max_str_len: Option<u16>,
}

/// The content of a name that may be absent.
pub open spec fn name_view(name: Option<String>) -> Option<Seq<char>> {
    match name {
        Some(s) => Some(s@),
        None => None,
    }
}

impl View for ColumnBuilder {
    type V = ColumnBuilderView;

    closed spec fn view(&self) -> ColumnBuilderView {
        ColumnBuilderView {
            name: name_view(self.name),
            data_type: self.data_type,
            nullable: self.nullable,
            default: default_view(self.default),
            max_str_len: self.max_str_len,
        }
    }
}

impl ColumnBuilder {
    fn new() -> (b: ColumnBuilder)
        ensures
            b@ == ColumnBuilderView::unset(),
    {
        ColumnBuilder { name: None, data_type: None, nullable: None, default: None, max_str_len: None }
    }

    /// Sets the name.
    pub fn name(self, name: String) -> (b: ColumnBuilder)
        ensures
            b@ == (ColumnBuilderView { name: Some(name@), ..self@ }),
    {
        let mut b = self;
        b.name = Some(name);
        b
    }

    /// Sets the type.
    pub fn data_type(self, data_type: DataType) -> (b: ColumnBuilder)
        ensures
            b@ == (ColumnBuilderView { data_type: Some(data_type), ..self@ }),
    {
        let mut b = self;
        b.data_type = Some(data_type);
        b
    }

    /// Sets whether the column allows NULL.
    pub fn nullable(self, nullable: bool) -> (b: ColumnBuilder)
        ensures
            b@ == (ColumnBuilderView { nullable: Some(nullable), ..self@ }),
    {
        let mut b = self;
        b.nullable = Some(nullable);
        b
    }

    /// Sets the default value. The type must be set already, and the value
    /// must be of that type.
    pub fn default(self, default: Field) -> (b: ColumnBuilder)
        requires
            self@.data_type == Some(type_of(default@)),
        ensures
            b@ == (ColumnBuilderView { default: Some(default@), ..self@ }),
    {
        let mut b = self;
        b.default = Some(default);
        b
    }

    /// Sets the bound on the length of a text value.
    pub fn max_str_len(self, max_str_len: u16) -> (b: ColumnBuilder)
        ensures
            b@ == (ColumnBuilderView { max_str_len: Some(max_str_len), ..self@ }),
    {
        let mut b = self;
        b.max_str_len = Some(max_str_len);
        b
    }

    /// The column with the settings made. The name and the type must be
    /// set; a column is not nullable unless it was set so.
    pub fn build(self) -> (c: Column)
        requires
            self@.name is Some,
            self@.data_type is Some,
        ensures
            c@ == (ColumnView {
                name: self@.name->Some_0,
                data_type: self@.data_type->Some_0,
                nullable: self@.nullable == Some(true),
                default: effective_default(self@.default, self@.nullable == Some(true)),
                max_str_len: match self@.max_str_len {
                    Some(n) => n,
                    None => 0,
                },
                stored_offset: 0,
            }),
    {
        let nullable = match self.nullable {
            Some(b) => b,
            None => false,
        };
        Column {
            name: self.name.unwrap(),
            data_type: self.data_type.unwrap(),
            nullable,
            default: match self.default {
                Some(value) => Some(value),
                None => if nullable {
                    Some(Field::Null)
                } else {
                    None
                },
            },
            max_str_len: match self.max_str_len {
                Some(n) => n,
                None => 0,
            },
            stored_offset: 0,
        }
    }
}

/// The contents of a sequence of columns, one for one.
pub open spec fn column_views(columns: Seq<Column>) -> Seq<ColumnView> {
    Seq::new(columns.len(), |i: int| columns[i]@)
}

/// The number of bytes of the fixed region that the columns take together.
pub open spec fn fixed_size(columns: Seq<ColumnView>) -> nat
    decreases columns.len(),
{
    if columns.len() == 0 {
        0
    } else {
        fixed_size(columns.drop_last()) + fixed_width(columns.last().data_type)
    }
}

/// The number of text columns among the columns.
pub open spec fn text_count(columns: Seq<ColumnView>) -> nat
    decreases columns.len(),
{
    if columns.len() == 0 {
        0
    } else {
        text_count(columns.drop_last()) + if columns.last().data_type == DataType::Text {
            1nat
        } else {
            0nat
        }
    }
}

/// The largest number of bytes that a tuple of the columns can take.
pub open spec fn total_size(columns: Seq<ColumnView>) -> nat
    decreases columns.len(),
{
    if columns.len() == 0 {
        0
    } else {
        total_size(columns.drop_last()) + fixed_width(columns.last().data_type)
            + columns.last().max_str_len as nat
    }
}

/// Where the column at position `i` is stored: a text column at its index
/// among the text columns, any other at the number of bytes that the
/// columns before it take in the fixed region.
pub open spec fn offset_at(columns: Seq<ColumnView>, i: int) -> nat {
    if columns[i].data_type == DataType::Text {
        text_count(columns.take(i))
    } else {
        fixed_size(columns.take(i))
    }
}

/// The columns as declared, each placed where it is stored.
pub open spec fn placed(columns: Seq<ColumnView>) -> Seq<ColumnView> {
    Seq::new(
        columns.len(),
        |i: int| ColumnView { stored_offset: offset_at(columns, i) as u16, ..columns[i] },
    )
}

/// Whether every column is where it is stored.
pub open spec fn offsets_consistent(columns: Seq<ColumnView>) -> bool {
    forall|i: int| 0 <= i < columns.len() ==> (#[trigger] columns[i]).stored_offset == offset_at(
        columns,
        i,
    )
}

/// Whether the columns can be laid out: the fixed region and the number
/// of text columns both fit in 16 bits.
pub open spec fn fits(columns: Seq<ColumnView>) -> bool {
    fixed_size(columns) <= u16::MAX && text_count(columns) <= u16::MAX
}

/// The renderings of the columns, separated by a comma and a space.
pub open spec fn render_columns(columns: Seq<ColumnView>) -> Seq<char>
    decreases columns.len(),
{
    if columns.len() == 0 {
        Seq::empty()
    } else if columns.len() == 1 {
        render_column(columns[0])
    } else {
        render_columns(columns.drop_last()) + seq![',', ' '] + render_column(columns.last())
    }
}

/// The position of the first column with the given name, if any.
pub open spec fn index_of(columns: Seq<ColumnView>, name: Seq<char>) -> Option<int>
    decreases columns.len(),
{
    if columns.len() == 0 {
        None
    } else {
        match index_of(columns.drop_last(), name) {
            Some(i) => Some(i),
            None => if columns.last().name == name {
                Some(columns.len() - 1)
            } else {
                None
            },
        }
    }
}

/// The mathematical content of a [`Table`].
pub struct TableView {
    pub name: Seq<char>,
    pub fixed_field_size_bytes: u16,
    pub columns: Seq<ColumnView>,
}

impl TableView {
    /// Whether the layout is consistent with the column order: every column
    /// is where it is stored, and the size of the fixed region is the sum of
    /// the fixed widths.
    pub open spec fn consistent(self) -> bool {
        &&& self.fixed_field_size_bytes == fixed_size(self.columns)
        &&& text_count(self.columns) <= u16::MAX
        &&& offsets_consistent(self.columns)
    }

    /// The rendering of the table: its name, then its columns in declared
    /// order between parentheses.
    pub open spec fn render(self) -> Seq<char> {
        self.name + seq!['('] + render_columns(self.columns) + seq![')']
    }
}

/// The schema of a table: its columns in declared order, laid out.
#[derive(Debug, PartialEq)]
pub struct Table {
    /// The name of the table
    name: String,
    /// The number of bytes of the fixed fields serialized in memory
    fixed_field_size_bytes: u16,
    /// The column definitions of the table
    columns: Vec<Column>,
}

impl View for Table {
    type V = TableView;

    closed spec fn view(&self) -> TableView {
        TableView {
            name: self.name@,
            fixed_field_size_bytes: self.fixed_field_size_bytes,
            columns: column_views(self.columns@),
        }
    }
}

/// A prefix of the columns takes no more than all of them.
pub proof fn lemma_sizes_grow(columns: Seq<ColumnView>, n: int)
    requires
        0 <= n <= columns.len(),
    ensures
        fixed_size(columns.take(n)) <= fixed_size(columns),
        text_count(columns.take(n)) <= text_count(columns),
        total_size(columns.take(n)) <= total_size(columns),
    decreases columns.len(),
{
    if n == columns.len() {
        assert(columns.take(n) =~= columns);
    } else {
        lemma_sizes_grow(columns.drop_last(), n);
        assert(columns.drop_last().take(n) =~= columns.take(n));
    }
}

/// Appending a column that is placed at the end keeps the layout consistent.
pub proof fn lemma_push_consistent(columns: Seq<ColumnView>, column: ColumnView)
    requires
        offsets_consistent(columns),
        column.stored_offset == offset_at(columns.push(column), columns.len() as int),
    ensures
        offsets_consistent(columns.push(column)),
{
    let next = columns.push(column);
    assert forall|i: int| 0 <= i < next.len() implies (#[trigger] next[i]).stored_offset
        == offset_at(next, i) by {
        if i < columns.len() {
            assert(next.take(i) =~= columns.take(i));
            assert(next[i] == columns[i]);
        }
    }
}

impl Clone for Table {
    fn clone(&self) -> (r: Table)
        ensures
            r@ == self@,
    {
        let mut columns: Vec<Column> = Vec::new();
        let mut i: usize = 0;
        while i < self.columns.len()
            invariant
                i <= self.columns@.len(),
                columns@.len() == i,
                forall|k: int| 0 <= k < i ==> (#[trigger] columns@[k])@ == self.columns@[k]@,
            decreases self.columns@.len() - i,
        {
            columns.push(self.columns[i].clone());
            i += 1;
        }
        assert(column_views(columns@) =~= column_views(self.columns@));
        Table {
            name: self.name.clone(),
            fixed_field_size_bytes: self.fixed_field_size_bytes,
            columns,
        }
    }
}

impl Table {
    /// A table without columns.
    pub fn new(table_name: &str) -> (t: Table)
        ensures
            t@ == (TableView {
                name: table_name@,
                fixed_field_size_bytes: 0,
                columns: Seq::empty(),
            }),
            t@.consistent(),
    {
        let t = Table { name: table_name.to_owned(), fixed_field_size_bytes: 0, columns: Vec::new() };
        assert(t@.columns =~= Seq::<ColumnView>::empty());
        t
    }

    /// A builder without name or columns.
    pub fn builder() -> (b: TableBuilder)
        ensures
            b@ == (TableBuilderView { name: None, columns: Seq::empty() }),
    {
        let b = TableBuilder { name: None, columns: Vec::new() };
        assert(b@.columns =~= Seq::<ColumnView>::empty());
        b
    }

    /// The name of the table.
    pub fn name(&self) -> (s: &str)
        ensures
            s@ == self@.name,
    {
        self.name.as_str()
    }

    /// Consumes the table after giving it another name; nothing is left of
    /// either.
    pub fn set_name(self, table_name: &str) {
        let mut t = self;
        t.name = table_name.to_owned();
    }

    /// Appends a column, placed behind the columns that are there.
    pub fn add_column(&mut self, column: &Column)
        requires
            old(self)@.consistent(),
            fits(old(self)@.columns.push(column@)),
        ensures
            final(self)@.consistent(),
            final(self)@.name == old(self)@.name,
            final(self)@.columns == old(self)@.columns.push(
                ColumnView {
                    stored_offset: offset_at(
                        old(self)@.columns.push(column@),
                        old(self)@.columns.len() as int,
                    ) as u16,
                    ..column@
                },
            ),
    {
        let ghost before = self@.columns;
        let ghost declared = before.push(column@);
        proof {
            assert(declared.drop_last() =~= before);
            assert(declared.take(before.len() as int) =~= before);
        }
        let data_type = column.get_data_type();
        let offset = if data_type == DataType::Text {
            let count = self.variable_length_fields();
            count as u16
        } else {
            self.fixed_field_size_bytes
        };
        let to_push = column.placed_at(offset);
        proof {
            let next = before.push(to_push@);
            assert(next.drop_last() =~= before);
            assert(next.take(before.len() as int) =~= before);
            lemma_push_consistent(before, to_push@);
            assert(column_views(self.columns@.push(to_push)) =~= next);
        }
        self.columns.push(to_push);
        if data_type != DataType::Text {
            self.fixed_field_size_bytes = self.fixed_field_size_bytes + data_type.length_bytes();
        }
    }

    fn place(&mut self, column: &Column, Ghost(all): Ghost<Seq<ColumnView>>, Ghost(n): Ghost<int>)
        requires
            old(self)@.consistent(),
            0 <= n < all.len(),
            fits(all),
            old(self)@.columns == placed(all.take(n)),
            column@ == all[n],
        ensures
            final(self)@.consistent(),
            final(self)@.name == old(self)@.name,
            final(self)@.columns == placed(all.take(n + 1)),
    {
        proof {
            lemma_place_next(all, n, self@.columns, column@);
        }
        self.add_column(column);
    }

    /// Appends the columns in order.
    #[verifier::rlimit(50)]
    pub fn with_columns(&mut self, columns: Vec<Column>)
        requires
            old(self)@.consistent(),
            fits(old(self)@.columns + column_views(columns@)),
        ensures
            final(self)@.consistent(),
            final(self)@.name == old(self)@.name,
            final(self)@.columns == placed(old(self)@.columns + column_views(columns@)),
    {
        let ghost before = self@.columns;
        let ghost all = before + column_views(columns@);
        proof {
            lemma_placed_consistent(before);
            assert(all.take(before.len() as int) =~= before);
        }
        let mut i: usize = 0;
        while i < columns.len()
            invariant
                i <= columns@.len(),
                before == old(self)@.columns,
                all == before + column_views(columns@),
                fits(all),
                self@.consistent(),
                self@.name == old(self)@.name,
                self@.columns == placed(all.take(before.len() + i)),
            decreases columns@.len() - i,
        {
            assert(all[before.len() + i] == columns@[i as int]@);
            self.place(&columns[i], Ghost(all), Ghost(before.len() + i));
            i += 1;
        }
        proof {
            assert(all.take(all.len() as int) =~= all);
        }
    }

    /// The column at a position.
    pub fn get_column(&self, index: usize) -> (c: &Column)
        requires
            index < self@.columns.len(),
        ensures
            c@ == self@.columns[index as int],
    {
        &self.columns[index]
    }

    /// The columns in declared order.
    pub fn columns(&self) -> (columns: &Vec<Column>)
        ensures
            column_views(columns@) == self@.columns,
    {
        &self.columns
    }

    /// The rendering of the table.
    pub fn to_string(&self) -> (s: String)
        ensures
            s@ == self@.render(),
    {
        proof {
            reveal_strlit("(");
            reveal_strlit(")");
            reveal_strlit(", ");
            assert("("@ =~= seq!['(']);
            assert(")"@ =~= seq![')']);
            assert(", "@ =~= seq![',', ' ']);
        }
        let mut result = self.name.clone();
        result.append("(");
        let ghost columns = self@.columns;
        let mut i: usize = 0;
        assert(columns.take(0) =~= Seq::<ColumnView>::empty());
        while i < self.columns.len()
            invariant
                i <= self.columns@.len(),
                columns == column_views(self.columns@),
                ", "@ == seq![',', ' '],
                result@ == self.name@ + seq!['('] + render_columns(columns.take(i as int)),
            decreases self.columns@.len() - i,
        {
            proof {
                assert(columns.take(i + 1).drop_last() =~= columns.take(i as int));
                assert(columns.take(i + 1).last() == self.columns@[i as int]@);
                if i == 0 {
                    assert(columns.take(1)[0] == self.columns@[0]@);
                }
            }
            if i > 0 {
                result.append(", ");
            }
            let rendered = self.columns[i].to_string();
            result.append(rendered.as_str());
            i += 1;
            assert(result@ =~= self.name@ + seq!['('] + render_columns(columns.take(i as int)));
        }
        assert(columns.take(i as int) =~= columns);
        result.append(")");
        assert(result@ =~= self@.render());
        result
    }

    /// The number of columns.
    pub fn col_count(&self) -> (n: usize)
        ensures
            n == self@.columns.len(),
    {
        self.columns.len()
    }

    /// The name of the column at a position.
    pub fn get_column_name(&self, index: usize) -> (s: String)
        requires
            index < self@.columns.len(),
        ensures
            s@ == self@.columns[index as int].name,
    {
        self.columns[index].get_name()
    }

    /// The type of the column at a position.
    pub fn get_field_type(&self, index: usize) -> (t: DataType)
        requires
            index < self@.columns.len(),
        ensures
            t == self@.columns[index as int].data_type,
    {
        self.columns[index].get_data_type()
    }

    /// The position of the first column with the given name; none where no
    /// name is given or no column has it.
    pub fn field_name_to_index(&self, field_name: Option<&String>) -> (r: Option<usize>)
        ensures
            match field_name {
                None => r is None,
                Some(name) => match r {
                    Some(i) => index_of(self@.columns, name@) == Some(i as int),
                    None => index_of(self@.columns, name@) is None,
                },
            },
    {
        let name = match field_name {
            None => {
                return None;
            },
            Some(name) => name,
        };
        let ghost columns = self@.columns;
        let mut i: usize = 0;
        assert(columns.take(0) =~= Seq::<ColumnView>::empty());
        while i < self.columns.len()
            invariant
                i <= self.columns@.len(),
                field_name == Some(name),
                columns == column_views(self.columns@),
                index_of(columns.take(i as int), name@) is None,
            decreases self.columns@.len() - i,
        {
            proof {
                assert(columns.take(i + 1).drop_last() =~= columns.take(i as int));
                assert(columns.take(i + 1).last() == self.columns@[i as int]@);
            }
            if self.columns[i].get_name() == *name {
                proof {
                    lemma_index_found(columns, name@, i as int);
                }
                return Some(i);
            }
            i += 1;
        }
        assert(columns.take(i as int) =~= columns);
        None
    }

    /// The largest number of bytes that a tuple of the table can take.
    pub fn size(&self) -> (n: u16)
        requires
            total_size(self@.columns) <= u16::MAX,
        ensures
            n == total_size(self@.columns),
    {
        let ghost columns = self@.columns;
        let mut size: u16 = 0;
        let mut i: usize = 0;
        assert(columns.take(0) =~= Seq::<ColumnView>::empty());
        while i < self.columns.len()
            invariant
                i <= self.columns@.len(),
                columns == column_views(self.columns@),
                total_size(columns) <= u16::MAX,
                size == total_size(columns.take(i as int)),
            decreases self.columns@.len() - i,
        {
            proof {
                assert(columns.take(i + 1).drop_last() =~= columns.take(i as int));
                assert(columns.take(i + 1).last() == self.columns@[i as int]@);
                lemma_sizes_grow(columns, i + 1);
            }
            size = size + self.columns[i].length_bytes();
            i += 1;
        }
        assert(columns.take(i as int) =~= columns);
        size
    }

    /// The number of bytes of the fixed region.
    pub fn fixed_field_size_bytes(&self) -> (n: u16)
        ensures
            n == self@.fixed_field_size_bytes,
    {
        self.fixed_field_size_bytes
    }

    /// The number of text columns.
    pub fn variable_length_fields(&self) -> (n: usize)
        ensures
            n == text_count(self@.columns),
    {
        let ghost columns = self@.columns;
        let mut count: usize = 0;
        let mut i: usize = 0;
        assert(columns.take(0) =~= Seq::<ColumnView>::empty());
        while i < self.columns.len()
            invariant
                i <= self.columns@.len(),
                columns == column_views(self.columns@),
                count == text_count(columns.take(i as int)),
                count <= i,
            decreases self.columns@.len() - i,
        {
            proof {
                assert(columns.take(i + 1).drop_last() =~= columns.take(i as int));
                assert(columns.take(i + 1).last() == self.columns@[i as int]@);
            }
            if self.columns[i].get_data_type() == DataType::Text {
                count += 1;
            }
            i += 1;
        }
        assert(columns.take(i as int) =~= columns);
        count
    }

    /// The schema of a joined row: the columns of the first table followed
    /// by those of the second, without a name, laid out from scratch.
    pub fn merge(d1: &Table, d2: &Table) -> (t: Table)
        requires
            fits(d1@.columns + d2@.columns),
        ensures
            t@.consistent(),
            t@.name == Seq::<char>::empty(),
            t@.columns == placed(d1@.columns + d2@.columns),
    {
        let mut schema = Table::new("");
        proof {
            reveal_strlit("");
            assert(""@ =~= Seq::<char>::empty());
            assert(Seq::<ColumnView>::empty() + d1@.columns =~= d1@.columns);
        }
        let first = d1.clone();
        let second = d2.clone();
        let mut all = first.columns;
        let mut rest = second.columns;
        proof {
            assert(column_views(all@ + rest@) =~= d1@.columns + d2@.columns);
        }
        all.append(&mut rest);
        proof {
            assert(Seq::<ColumnView>::empty() + column_views(all@) =~= column_views(all@));
        }
        schema.with_columns(all);
        schema
    }

    /// The schema of one anonymous column of the given type.
    pub fn from_type(dt: DataType) -> (t: Table)
        ensures
            t@.consistent(),
            t@.name == Seq::<char>::empty(),
            t@.columns == placed(seq![anonymous(dt)]),
    {
        let mut types: Vec<DataType> = Vec::new();
        types.push(dt);
        proof {
            lemma_sizes_bounded(Seq::new(types@.len(), |i: int| anonymous(types@[i])));
        }
        let t = Table::from_types(types);
        assert(Seq::new(1, |i: int| anonymous(types@[i])) =~= seq![
            anonymous(dt),
        ]);
        t
    }

    /// The schema of anonymous columns of the given types, in order.
    pub fn from_types(dt: Vec<DataType>) -> (t: Table)
        requires
            fits(Seq::new(dt@.len(), |i: int| anonymous(dt@[i]))),
        ensures
            t@.consistent(),
            t@.name == Seq::<char>::empty(),
            t@.columns == placed(Seq::new(dt@.len(), |i: int| anonymous(dt@[i]))),
    {
        let ghost declared = Seq::new(dt@.len(), |i: int| anonymous(dt@[i]));
        let mut columns: Vec<Column> = Vec::new();
        let mut i: usize = 0;
        while i < dt.len()
            invariant
                i <= dt@.len(),
                columns@.len() == i,
                forall|k: int|
                    0 <= k < i ==> (#[trigger] columns@[k])@ == anonymous(dt@[k]),
            decreases dt@.len() - i,
        {
            columns.push(Column::from_type(dt[i]));
            i += 1;
        }
        let mut schema = Table::new("");
        proof {
            reveal_strlit("");
            assert(""@ =~= Seq::<char>::empty());
            assert(column_views(columns@) =~= declared);
            assert(Seq::<ColumnView>::empty() + declared =~= declared);
        }
        schema.with_columns(columns);
        schema
    }

    /// The schema of a joined row, from the two schemas by value.
    pub fn from_pair(schema1: Table, schema2: Table) -> (t: Table)
        requires
            fits(schema1@.columns + schema2@.columns),
        ensures
            t@.consistent(),
            t@.name == Seq::<char>::empty(),
            t@.columns == placed(schema1@.columns + schema2@.columns),
    {
        Table::merge(&schema1, &schema2)
    }
}

/// The first column with a name is found at its position.
pub proof fn lemma_index_found(columns: Seq<ColumnView>, name: Seq<char>, i: int)
    requires
        0 <= i < columns.len(),
        index_of(columns.take(i), name) is None,
        columns[i].name == name,
    ensures
        index_of(columns, name) == Some(i),
    decreases columns.len(),
{
    if i == columns.len() - 1 {
        assert(columns.drop_last() =~= columns.take(i));
    } else {
        assert(columns.drop_last().take(i) =~= columns.take(i));
        lemma_index_found(columns.drop_last(), name, i);
    }
}

/// Sizes do not depend on where the columns are stored.
pub proof fn lemma_same_sizes(a: Seq<ColumnView>, b: Seq<ColumnView>)
    requires
        a.len() == b.len(),
        forall|i: int| 0 <= i < a.len() ==> (#[trigger] a[i]).data_type == b[i].data_type,
    ensures
        fixed_size(a) == fixed_size(b),
        text_count(a) == text_count(b),
    decreases a.len(),
{
    if a.len() > 0 {
        assert forall|i: int| 0 <= i < a.drop_last().len() implies (#[trigger] a.drop_last()[i]).data_type
            == b.drop_last()[i].data_type by {
            assert(a.drop_last()[i] == a[i]);
            assert(b.drop_last()[i] == b[i]);
        }
        lemma_same_sizes(a.drop_last(), b.drop_last());
        assert(a.last() == a[a.len() - 1]);
        assert(b.last() == b[b.len() - 1]);
    }
}

/// Where a column is stored does not depend on where the columns before it
/// are stored.
pub proof fn lemma_offset_ignores_offsets(a: Seq<ColumnView>, b: Seq<ColumnView>, i: int)
    requires
        a.len() == b.len(),
        0 <= i < a.len(),
        forall|k: int| 0 <= k < a.len() ==> (#[trigger] a[k]).data_type == b[k].data_type,
    ensures
        offset_at(a, i) == offset_at(b, i),
{
    assert forall|k: int| 0 <= k < a.take(i).len() implies (#[trigger] a.take(i)[k]).data_type
        == b.take(i)[k].data_type by {
        assert(a.take(i)[k] == a[k]);
        assert(b.take(i)[k] == b[k]);
    }
    lemma_same_sizes(a.take(i), b.take(i));
}

/// Placing one more column places the ones before it as before.
pub proof fn lemma_placed_push(all: Seq<ColumnView>, n: int)
    requires
        0 <= n < all.len(),
    ensures
        placed(all.take(n + 1)) == placed(all.take(n)).push(
            ColumnView { stored_offset: offset_at(all.take(n + 1), n) as u16, ..all[n] },
        ),
{
    let longer = all.take(n + 1);
    let shorter = all.take(n);
    assert forall|i: int| 0 <= i < n implies offset_at(longer, i) == offset_at(shorter, i) by {
        assert(longer.take(i) =~= shorter.take(i));
        assert(longer[i] == shorter[i]);
    }
    assert(placed(longer) =~= placed(shorter).push(
        ColumnView { stored_offset: offset_at(longer, n) as u16, ..all[n] },
    ));
}

/// Appending the next declared column to the placed ones before it, at the
/// place behind them, gives the placed columns up to and with it.
pub proof fn lemma_place_next(
    all: Seq<ColumnView>,
    n: int,
    current: Seq<ColumnView>,
    column: ColumnView,
)
    requires
        0 <= n < all.len(),
        fits(all),
        current == placed(all.take(n)),
        column == all[n],
    ensures
        current.len() == n,
        fits(current.push(column)),
        current.push(
            ColumnView {
                stored_offset: offset_at(current.push(column), current.len() as int) as u16,
                ..column
            },
        ) == placed(all.take(n + 1)),
{
    let next = current.push(column);
    let declared = all.take(n + 1);
    assert forall|k: int| 0 <= k < next.len() implies (#[trigger] next[k]).data_type
        == declared[k].data_type by {
        if k < n {
            assert(next[k] == current[k]);
            assert(all.take(n)[k] == all[k]);
        }
    }
    lemma_same_sizes(next, declared);
    lemma_sizes_grow(all, n + 1);
    lemma_offset_ignores_offsets(next, declared, n);
    lemma_placed_push(all, n);
}

/// Columns that are placed are where they are stored, as long as they fit.
pub proof fn lemma_placed_consistent(columns: Seq<ColumnView>)
    requires
        offsets_consistent(columns),
    ensures
        placed(columns) == columns,
{
    assert(placed(columns) =~= columns);
}

/// A short list of columns fits.
pub proof fn lemma_sizes_bounded(columns: Seq<ColumnView>)
    ensures
        fixed_size(columns) <= 4 * columns.len(),
        text_count(columns) <= columns.len(),
    decreases columns.len(),
{
    if columns.len() > 0 {
        lemma_sizes_bounded(columns.drop_last());
    }
}

/// The mathematical content of a [`TableBuilder`].
pub struct TableBuilderView {
    pub name: Option<Seq<char>>,
    pub columns: Seq<ColumnView>,
}

/// Collects the name and the columns of a table.
pub struct TableBuilder {
    name: Option<String>,
    columns: Vec<Column>,
}

impl View for TableBuilder {
    type V = TableBuilderView;

    closed spec fn view(&self) -> TableBuilderView {
        TableBuilderView { name: name_view(self.name), columns: column_views(self.columns@) }
    }
}

impl TableBuilder {
    /// Sets the name.
    pub fn name(&mut self, name: &str) -> (b: &mut Self)
        ensures
            b@ == (TableBuilderView { name: Some(name@), ..old(self)@ }),
            *final(self) == *final(b),
    {
        self.name = Some(name.to_owned());
        self
    }

    /// Appends a column with the given settings.
    pub fn column(
        &mut self,
        column_name: &str,
        dt: DataType,
        nullable: bool,
        default: Option<Field>,
        max_str_chars: Option<u16>,
    ) -> (b: &mut Self)
        ensures
            b@ == (TableBuilderView {
                columns: old(self)@.columns.push(
                    ColumnView {
                        name: column_name@,
                        data_type: dt,
                        nullable,
                        default: effective_default(default_view(default), nullable),
                        max_str_len: match max_str_chars {
                            Some(n) => n,
                            None => 0,
                        },
                        stored_offset: 0,
                    },
                ),
                ..old(self)@
            }),
            *final(self) == *final(b),
    {
        let column = Column::new(column_name, dt, nullable, default, max_str_chars);
        proof {
            assert(column_views(self.columns@.push(column)) =~= column_views(self.columns@).push(
                column@,
            ));
        }
        self.columns.push(column);
        self
    }

    /// Appends a column.
    pub fn column_from_definition(&mut self, column_definition: Column) -> (b: &mut Self)
        ensures
            b@ == (TableBuilderView {
                columns: old(self)@.columns.push(column_definition@),
                ..old(self)@
            }),
            *final(self) == *final(b),
    {
        proof {
            assert(column_views(self.columns@.push(column_definition)) =~= column_views(
                self.columns@,
            ).push(column_definition@));
        }
        self.columns.push(column_definition);
        self
    }

    /// Appends the columns in order.
    pub fn columns(&mut self, columns: Vec<Column>) -> (b: &mut Self)
        ensures
            b@ == (TableBuilderView {
                columns: old(self)@.columns + column_views(columns@),
                ..old(self)@
            }),
            *final(self) == *final(b),
    {
        let mut more = columns;
        proof {
            assert(column_views(self.columns@ + more@) =~= column_views(self.columns@)
                + column_views(more@));
        }
        self.columns.append(&mut more);
        self
    }

    /// The table with the name and the columns collected, the columns laid
    /// out in order. The name must be set.
    pub fn build(&mut self) -> (t: Table)
        requires
            old(self)@.name is Some,
            fits(old(self)@.columns),
        ensures
            final(self)@ == old(self)@,
            t@.consistent(),
            t@.name == old(self)@.name->Some_0,
            t@.columns == placed(old(self)@.columns),
    {
        let mut table_definition = match &self.name {
            Some(name) => Table::new(name.as_str()),
            None => Table::new(""),
        };
        let ghost declared = self@.columns;
        proof {
            assert(declared.take(0) =~= Seq::<ColumnView>::empty());
            assert(placed(Seq::<ColumnView>::empty()) =~= Seq::<ColumnView>::empty());
        }
        let mut i: usize = 0;
        while i < self.columns.len()
            invariant
                i <= self.columns@.len(),
                *self == *old(self),
                declared == column_views(self.columns@),
                fits(declared),
                table_definition@.consistent(),
                table_definition@.name == old(self)@.name->Some_0,
                table_definition@.columns == placed(declared.take(i as int)),
            decreases self.columns@.len() - i,
        {
            assert(declared[i as int] == self.columns@[i as int]@);
            table_definition.place(&self.columns[i], Ghost(declared), Ghost(i as int));
            i += 1;
        }
        proof {
            assert(declared.take(i as int) =~= declared);
        }
        table_definition
    }

    /// The table as [`TableBuilder::build`] gives it, behind a shared handle.
    pub fn build_with_handle(&mut self) -> (t: Arc<Table>)
        requires
            old(self)@.name is Some,
            fits(old(self)@.columns),
        ensures
            final(self)@ == old(self)@,
            t@.consistent(),
            t@.name == old(self)@.name->Some_0,
            t@.columns == placed(old(self)@.columns),
    {
        Arc::new(self.build())
    }
}

} // verus!
