use qplug::{LuaTable, LuaValue, name_table, parse_literal_assignment, serialize_table, serialize_value};

fn s(text: &str) -> String {
    text.to_string()
}

#[test]
fn parser_test_serialize_simple_table() {
    let mut table = LuaTable::new();
    table.set(s("key1"), LuaValue::Str(s("value1")));
    table.set(s("key2"), LuaValue::Integer(42));
    table.set(s("key3"), LuaValue::Boolean(true));

    let serialized = name_table("my_table", &serialize_table(&table));

    let expected = r#"my_table = {key1 = "value1", key2 = 42, key3 = true}"#;
    assert_eq!(&serialized, expected);
}

#[test]
fn parser_test_serialize_nested_table() {
    let mut table = LuaTable::new();
    let mut nested_table = LuaTable::new();
    nested_table.set(s("nested_key"), LuaValue::Str(s("nested_value")));
    table.set(s("nested_table"), LuaValue::Table(nested_table));

    let serialized = name_table("my_table", &serialize_table(&table));

    let expected = r#"my_table = {nested_table = {nested_key = "nested_value"}}"#;
    assert_eq!(&serialized, expected);
}

#[test]
fn parser_test_serialize_empty_table() {
    let table = LuaTable::new();

    let serialized = name_table("serialized", &serialize_table(&table));

    assert_eq!(&serialized, "serialized = {}");
}

#[test]
fn parser_test_serialize_table_with_nil() {
    let mut table = LuaTable::new();
    table.set(s("key"), LuaValue::Nil);

    let serialized = name_table("table_with_nil", &serialize_table(&table));

    let expected = "table_with_nil = {}";
    assert_eq!(&serialized, expected);
}

#[test]
fn parser_test_serialize_table_with_unsupported_value() {
    let mut table = LuaTable::new();
    table.set(s("function_key"), LuaValue::Unsupported);

    let serialized = name_table("table_with_function", &serialize_table(&table));

    let expected = "table_with_function = {function_key = unsupported}";
    assert_eq!(&serialized, expected);
}

#[test]
fn nil_entries_are_left_out_between_others() {
    let mut table = LuaTable::new();
    table.set(s("a"), LuaValue::Integer(1));
    table.set(s("b"), LuaValue::Nil);
    table.set(s("c"), LuaValue::Integer(3));
    table.set(s("d"), LuaValue::Nil);
    assert_eq!(serialize_table(&table), "{a = 1, c = 3}");
}

#[test]
fn insertion_order_is_kept_and_set_replaces_in_place() {
    let mut table = LuaTable::new();
    table.set(s("zeta"), LuaValue::Integer(1));
    table.set(s("alpha"), LuaValue::Integer(2));
    table.set(s("zeta"), LuaValue::Integer(9));
    assert_eq!(serialize_table(&table), "{zeta = 9, alpha = 2}");
    assert_eq!(table.get("zeta"), Some(&LuaValue::Integer(9)));
    assert_eq!(table.get("beta"), None);
}

#[test]
fn scalar_literals() {
    assert_eq!(serialize_value(&LuaValue::Nil), "nil");
    assert_eq!(serialize_value(&LuaValue::Boolean(false)), "false");
    assert_eq!(serialize_value(&LuaValue::Integer(-17)), "-17");
    assert_eq!(serialize_value(&LuaValue::Integer(0)), "0");
    assert_eq!(serialize_value(&LuaValue::Integer(i64::MIN)), "-9223372036854775808");
    assert_eq!(serialize_value(&LuaValue::Integer(i64::MAX)), "9223372036854775807");
    assert_eq!(serialize_value(&LuaValue::Number(2.5f64.to_string())), "2.5");
}

#[test]
fn strings_are_escaped() {
    let v = LuaValue::Str(s("say \"hi\"\\\nnext\rend"));
    assert_eq!(serialize_value(&v), r#""say \"hi\"\\\nnext\rend""#);
}

#[test]
fn parses_scalars_and_nesting() {
    let text = "cfg = { a = 1, b = -2, c = 2.5e3, d = 'x\\'y', e = true, f = false, g = nil, h = { i = \"deep\" }; }";
    let (name, value) = parse_literal_assignment(text).unwrap();
    assert_eq!(name, "cfg");
    let mut inner = LuaTable::new();
    inner.set(s("i"), LuaValue::Str(s("deep")));
    let mut expected = LuaTable::new();
    expected.set(s("a"), LuaValue::Integer(1));
    expected.set(s("b"), LuaValue::Integer(-2));
    expected.set(s("c"), LuaValue::Number(s("2.5e3")));
    expected.set(s("d"), LuaValue::Str(s("x'y")));
    expected.set(s("e"), LuaValue::Boolean(true));
    expected.set(s("f"), LuaValue::Boolean(false));
    expected.set(s("g"), LuaValue::Nil);
    expected.set(s("h"), LuaValue::Table(inner));
    assert_eq!(value, LuaValue::Table(expected));
}

#[test]
fn parses_comments_and_blank_lines() {
    let text = "-- leading comment\n\nt = {\n  -- inside\n  k = 5, -- trailing\n}\n-- end";
    let (name, value) = parse_literal_assignment(text).unwrap();
    assert_eq!(name, "t");
    let mut expected = LuaTable::new();
    expected.set(s("k"), LuaValue::Integer(5));
    assert_eq!(value, LuaValue::Table(expected));
}

#[test]
fn integers_at_the_edges_of_range() {
    let (_, v) = parse_literal_assignment("x = -9223372036854775808").unwrap();
    assert_eq!(v, LuaValue::Integer(i64::MIN));
    let (_, v) = parse_literal_assignment("x = 9223372036854775807").unwrap();
    assert_eq!(v, LuaValue::Integer(i64::MAX));
    let (_, v) = parse_literal_assignment("x = 9223372036854775808").unwrap();
    assert_eq!(v, LuaValue::Number(s("9223372036854775808")));
}

#[test]
fn rejects_malformed_text() {
    assert!(parse_literal_assignment("x = ").is_none());
    assert!(parse_literal_assignment("x = {a = 1").is_none());
    assert!(parse_literal_assignment("x = {a = 1} y").is_none());
    assert!(parse_literal_assignment("x = \"open").is_none());
    assert!(parse_literal_assignment("x = 12ab").is_none());
    assert!(parse_literal_assignment("x = {1}").is_none());
    assert!(parse_literal_assignment("x = \"bad \\q escape\"").is_none());
    assert!(parse_literal_assignment("= 3").is_none());
}

#[test]
fn serialized_tables_parse_back() {
    let mut inner = LuaTable::new();
    inner.set(s("q"), LuaValue::Str(s("a \"b\" \\ c\nd")));
    let mut table = LuaTable::new();
    table.set(s("n"), LuaValue::Integer(-5));
    table.set(s("t"), LuaValue::Table(inner));
    table.set(s("b"), LuaValue::Boolean(true));
    let text = name_table("root", &serialize_table(&table));
    let (name, value) = parse_literal_assignment(&text).unwrap();
    assert_eq!(name, "root");
    assert_eq!(value, LuaValue::Table(table));
}
