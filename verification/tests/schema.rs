use rustydb::types::field::Field;
use rustydb::types::schema::{render_number, Column, DataType, Table};

fn text_column(name: &str, len: u16) -> Column {
    Column::new(name, DataType::Text, false, None, Some(len))
}

fn int_column(name: &str) -> Column {
    Column::new(name, DataType::Int, false, None, None)
}

fn sample() -> Table {
    let mut table = Table::new("people");
    table.add_column(&int_column("id"));
    table.add_column(&text_column("name", 20));
    table.add_column(&Column::new("alive", DataType::Bool, true, None, None));
    table.add_column(&text_column("city", 8));
    table.add_column(&Column::new("score", DataType::Float, false, None, None));
    table
}

#[test]
fn type_names_are_parsed() {
    assert_eq!(DataType::parse("Bool"), Some(DataType::Bool));
    assert_eq!(DataType::parse("Int"), Some(DataType::Int));
    assert_eq!(DataType::parse("Float"), Some(DataType::Float));
    assert_eq!(DataType::parse("Text"), Some(DataType::Text));
    assert_eq!(DataType::parse("Invalid"), Some(DataType::Invalid));
    assert_eq!(DataType::parse("Null"), Some(DataType::Invalid));
    assert_eq!(DataType::parse("bool"), None);
    assert_eq!(DataType::parse(""), None);
    assert_eq!(DataType::parse("Integer"), None);
    assert_eq!(DataType::from_string("Int"), DataType::Int);
    assert_eq!(DataType::from_string("Null"), DataType::Invalid);
}

#[test]
fn types_have_fixed_widths() {
    assert_eq!(DataType::Bool.length_bytes(), 1);
    assert_eq!(DataType::Int.length_bytes(), 4);
    assert_eq!(DataType::Float.length_bytes(), 4);
    assert_eq!(DataType::Text.length_bytes(), 0);
    assert_eq!(DataType::Invalid.length_bytes(), 0);
}

#[test]
fn types_are_rendered() {
    assert_eq!(DataType::Bool.to_string(), "bool");
    assert_eq!(DataType::Int.to_string(), "int");
    assert_eq!(DataType::Float.to_string(), "float");
    assert_eq!(DataType::Text.to_string(), "varchar");
    assert_eq!(DataType::Invalid.to_string(), "invalid");
}

#[test]
fn numbers_are_rendered_in_decimal() {
    assert_eq!(render_number(0), "0");
    assert_eq!(render_number(7), "7");
    assert_eq!(render_number(10), "10");
    assert_eq!(render_number(409), "409");
    assert_eq!(render_number(65535), "65535");
    for n in [1u16, 99, 100, 1000, 12345, 60001] {
        assert_eq!(render_number(n), n.to_string());
    }
}

#[test]
fn a_new_column_takes_its_settings() {
    let column = Column::new("age", DataType::Int, false, Some(Field::Integer(3)), None);
    assert_eq!(column.get_name(), "age");
    assert_eq!(column.get_data_type(), DataType::Int);
    assert!(!column.is_nullable());
    assert_eq!(column.default(), Some(&Field::Integer(3)));
    assert_eq!(column.get_max_str_len(), 0);
    assert_eq!(column.stored_offset(), 0);
    assert_eq!(column.length_bytes(), 4);
}

#[test]
fn a_nullable_column_defaults_to_null() {
    let nullable = Column::new("n", DataType::Int, true, None, None);
    assert_eq!(nullable.default(), Some(&Field::Null));
    let required = Column::new("r", DataType::Int, false, None, None);
    assert_eq!(required.default(), None);
    let given = Column::new("g", DataType::Int, true, Some(Field::Integer(1)), None);
    assert_eq!(given.default(), Some(&Field::Integer(1)));
}

#[test]
fn column_setters_change_one_setting() {
    let mut column = text_column("a", 12);
    column.set_name("b");
    assert_eq!(column.get_name(), "b");
    assert_eq!(column.get_data_type(), DataType::Text);
    column.set_data_type(DataType::Bool);
    assert_eq!(column.get_data_type(), DataType::Bool);
    assert_eq!(column.get_name(), "b");
    assert_eq!(column.get_max_str_len(), 12);
    assert_eq!(column.length_bytes(), 13);
}

#[test]
fn columns_are_rendered_with_their_type() {
    assert_eq!(int_column("id").to_string(), "id:int");
    assert_eq!(text_column("name", 20).to_string(), "name:varchar(20)");
    assert_eq!(text_column("t", 0).to_string(), "t:varchar(0)");
    assert_eq!(Column::new("b", DataType::Bool, true, None, None).to_string(), "b:bool");
    assert_eq!(Column::new("f", DataType::Float, true, None, Some(9)).to_string(), "f:float");
    assert_eq!(Column::from_type(DataType::Invalid).to_string(), ":invalid");
}

#[test]
fn anonymous_columns() {
    let column = Column::from_type(DataType::Float);
    assert_eq!(column.get_name(), "");
    assert_eq!(column.get_data_type(), DataType::Float);
    assert!(!column.is_nullable());
    assert_eq!(column.default(), None);
    let bounded = Column::from_type_and_length(DataType::Text, 30);
    assert_eq!(bounded.get_max_str_len(), 30);
    assert_eq!(bounded.get_name(), "");
}

#[test]
fn the_column_builder_collects_settings() {
    let column = Column::builder()
        .name("price".to_string())
        .data_type(DataType::Int)
        .nullable(false)
        .default(Field::Integer(10))
        .build();
    assert_eq!(column, Column::new("price", DataType::Int, false, Some(Field::Integer(10)), None));
    let text = Column::builder()
        .name("note".to_string())
        .data_type(DataType::Text)
        .nullable(true)
        .max_str_len(64)
        .build();
    assert_eq!(text, Column::new("note", DataType::Text, true, None, Some(64)));
    assert_eq!(text.default(), Some(&Field::Null));
    let bare = Column::builder().name("x".to_string()).data_type(DataType::Bool).build();
    assert!(!bare.is_nullable());
    assert_eq!(bare.default(), None);
}

#[test]
fn a_new_table_is_empty() {
    let table = Table::new("t");
    assert_eq!(table.name(), "t");
    assert_eq!(table.col_count(), 0);
    assert_eq!(table.fixed_field_size_bytes(), 0);
    assert_eq!(table.variable_length_fields(), 0);
    assert_eq!(table.size(), 0);
    assert_eq!(table.to_string(), "t()");
    assert!(table.columns().is_empty());
}

#[test]
fn columns_are_placed_in_declaration_order() {
    let table = sample();
    let offsets: Vec<u16> = table.columns().iter().map(|c| c.stored_offset()).collect();
    assert_eq!(offsets, vec![0, 0, 4, 1, 5]);
    assert_eq!(table.fixed_field_size_bytes(), 9);
    assert_eq!(table.variable_length_fields(), 2);
    assert_eq!(table.col_count(), 5);
    assert_eq!(table.size(), 4 + 20 + 1 + 8 + 4);
}

#[test]
fn adding_a_column_ignores_its_stale_offset() {
    let first = sample();
    let placed = first.get_column(4).clone();
    assert_eq!(placed.stored_offset(), 5);
    let mut second = Table::new("other");
    second.add_column(&placed);
    assert_eq!(second.get_column(0).stored_offset(), 0);
    assert_eq!(second.fixed_field_size_bytes(), 4);
}

#[test]
fn columns_are_found_by_position_and_name() {
    let table = sample();
    assert_eq!(table.get_column(1).get_name(), "name");
    assert_eq!(table.get_column_name(3), "city");
    assert_eq!(table.get_field_type(2), DataType::Bool);
    assert_eq!(table.field_name_to_index(Some(&"city".to_string())), Some(3));
    assert_eq!(table.field_name_to_index(Some(&"id".to_string())), Some(0));
    assert_eq!(table.field_name_to_index(Some(&"missing".to_string())), None);
    assert_eq!(table.field_name_to_index(None), None);
}

#[test]
fn the_first_of_two_columns_with_one_name_is_found() {
    let mut table = Table::new("t");
    table.add_column(&int_column("a"));
    table.add_column(&int_column("b"));
    table.add_column(&int_column("a"));
    assert_eq!(table.field_name_to_index(Some(&"a".to_string())), Some(0));
}

#[test]
fn tables_are_rendered_in_declared_order() {
    assert_eq!(
        sample().to_string(),
        "people(id:int, name:varchar(20), alive:bool, city:varchar(8), score:float)"
    );
    let mut one = Table::new("one");
    one.add_column(&text_column("only", 3));
    assert_eq!(one.to_string(), "one(only:varchar(3))");
}

#[test]
fn several_columns_are_added_in_order() {
    let mut table = Table::new("t");
    table.add_column(&int_column("a"));
    table.with_columns(vec![text_column("b", 4), int_column("c"), text_column("d", 5)]);
    let offsets: Vec<u16> = table.columns().iter().map(|c| c.stored_offset()).collect();
    assert_eq!(offsets, vec![0, 0, 4, 1]);
    assert_eq!(table.fixed_field_size_bytes(), 8);
    assert_eq!(table.to_string(), "t(a:int, b:varchar(4), c:int, d:varchar(5))");
}

#[test]
fn merging_rebuilds_every_offset() {
    let mut left = Table::new("l");
    left.add_column(&int_column("a"));
    left.add_column(&text_column("b", 4));
    let mut right = Table::new("r");
    right.add_column(&text_column("c", 6));
    right.add_column(&Column::new("d", DataType::Bool, false, None, None));
    right.add_column(&int_column("e"));
    let merged = Table::merge(&left, &right);
    assert_eq!(merged.name(), "");
    let names: Vec<String> = merged.columns().iter().map(|c| c.get_name()).collect();
    assert_eq!(names, vec!["a", "b", "c", "d", "e"]);
    let offsets: Vec<u16> = merged.columns().iter().map(|c| c.stored_offset()).collect();
    assert_eq!(offsets, vec![0, 0, 1, 4, 5]);
    assert_eq!(merged.fixed_field_size_bytes(), 9);
    assert_eq!(merged.variable_length_fields(), 2);
    assert_eq!(Table::from_pair(left.clone(), right.clone()), merged);
    assert_eq!(left.col_count(), 2);
}

#[test]
fn merging_with_an_empty_table_keeps_the_columns() {
    let merged = Table::merge(&sample(), &Table::new("none"));
    assert_eq!(merged.col_count(), 5);
    assert_eq!(merged.fixed_field_size_bytes(), 9);
    let offsets: Vec<u16> = merged.columns().iter().map(|c| c.stored_offset()).collect();
    assert_eq!(offsets, vec![0, 0, 4, 1, 5]);
}

#[test]
fn tables_of_anonymous_columns() {
    let one = Table::from_type(DataType::Int);
    assert_eq!(one.col_count(), 1);
    assert_eq!(one.name(), "");
    assert_eq!(one.fixed_field_size_bytes(), 4);
    let several = Table::from_types(vec![DataType::Bool, DataType::Text, DataType::Int, DataType::Text]);
    let offsets: Vec<u16> = several.columns().iter().map(|c| c.stored_offset()).collect();
    assert_eq!(offsets, vec![0, 0, 1, 1]);
    assert_eq!(several.fixed_field_size_bytes(), 5);
    assert_eq!(several.to_string(), "(:bool, :varchar(0), :int, :varchar(0))");
    assert_eq!(Table::from_types(vec![]).col_count(), 0);
}

#[test]
fn the_table_builder_lays_out_its_columns() {
    let mut builder = Table::builder();
    builder
        .name("orders")
        .column("id", DataType::Int, false, None, None)
        .column("note", DataType::Text, true, None, Some(16))
        .column_from_definition(Column::new("paid", DataType::Bool, false, None, None))
        .columns(vec![int_column("total"), text_column("tag", 2)]);
    let table = builder.build();
    assert_eq!(table.name(), "orders");
    let offsets: Vec<u16> = table.columns().iter().map(|c| c.stored_offset()).collect();
    assert_eq!(offsets, vec![0, 0, 4, 5, 1]);
    assert_eq!(table.fixed_field_size_bytes(), 9);
    assert_eq!(table.get_column(1).default(), Some(&Field::Null));
    assert_eq!(builder.build(), table);
    assert_eq!(*builder.build_with_handle(), table);
}

#[test]
fn renaming_consumes_the_table() {
    let table = Table::new("gone");
    table.set_name("other");
    let kept = sample();
    assert_eq!(kept.clone(), kept);
}

#[test]
fn a_column_of_a_stored_table_is_checked() {
    assert!(Column::new("a", DataType::Int, false, Some(Field::Integer(1)), None).is_valid());
    assert!(Column::new("a", DataType::Int, true, None, None).is_valid());
    assert!(Column::new("a", DataType::Text, false, None, Some(9)).is_valid());
    assert!(!Column::new("", DataType::Int, false, None, None).is_valid());
    assert!(!Column::new("a", DataType::Int, false, Some(Field::Boolean(true)), None).is_valid());
    assert!(!Column::new("a", DataType::Int, false, Some(Field::Null), None).is_valid());
    assert!(!Column::new("a", DataType::Int, false, None, Some(9)).is_valid());
    assert!(!Column::from_type(DataType::Bool).is_valid());
}

#[test]
fn many_narrow_columns_fit() {
    let table = Table::from_types(vec![DataType::Bool; 20000]);
    assert_eq!(table.col_count(), 20000);
    assert_eq!(table.fixed_field_size_bytes(), 20000);
    assert_eq!(table.get_column(19999).stored_offset(), 19999);
    let wide = Table::from_types(vec![DataType::Int; 16383]);
    assert_eq!(wide.fixed_field_size_bytes(), 65532);
    let texts = Table::from_types(vec![DataType::Text; 300]);
    assert_eq!(texts.get_column(299).stored_offset(), 299);
}
