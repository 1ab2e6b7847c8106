use dgit::dbconnector::Entity;
use dgit::utils::{parse_argument, qualified_name, strip_trailing_newline};

fn table(schema: &str, name: &str) -> Entity {
    Entity { schema: schema.to_string(), name: name.to_string(), columns: vec![], exists: true }
}

#[test]
fn parse_argument_splits_schema_and_name() {
    let e = parse_argument("public.users").unwrap();
    assert_eq!(e.schema, "public");
    assert_eq!(e.name, "users");
    assert!(e.columns.is_empty());
    assert!(e.exists);
}

#[test]
fn parse_argument_ignores_text_after_second_dot() {
    let e = parse_argument("a.b.c").unwrap();
    assert_eq!(e.schema, "a");
    assert_eq!(e.name, "b");
}

#[test]
fn parse_argument_accepts_empty_parts() {
    let e = parse_argument(".x").unwrap();
    assert_eq!(e.schema, "");
    assert_eq!(e.name, "x");
    let e = parse_argument("x.").unwrap();
    assert_eq!(e.schema, "x");
    assert_eq!(e.name, "");
}

#[test]
fn parse_argument_refuses_argument_without_dot() {
    match parse_argument("users") {
        Err(m) => assert_eq!(m, "Invalid argument provided: users"),
        Ok(_) => panic!("accepted an argument without a dot"),
    }
    match parse_argument("") {
        Err(m) => assert_eq!(m, "Invalid argument provided: "),
        Ok(_) => panic!("accepted an empty argument"),
    }
}

#[test]
fn parse_argument_handles_non_ascii() {
    let e = parse_argument("sch\u{e9}ma.t\u{e4}ble").unwrap();
    assert_eq!(e.schema, "sch\u{e9}ma");
    assert_eq!(e.name, "t\u{e4}ble");
}

#[test]
fn strip_trailing_newline_takes_one_line_break() {
    assert_eq!(strip_trailing_newline("abc\r\n"), "abc");
    assert_eq!(strip_trailing_newline("abc\n"), "abc");
    assert_eq!(strip_trailing_newline("abc"), "abc");
    assert_eq!(strip_trailing_newline("abc\n\n"), "abc\n");
    assert_eq!(strip_trailing_newline("abc\r"), "abc\r");
    assert_eq!(strip_trailing_newline(""), "");
    assert_eq!(strip_trailing_newline("\n"), "");
    assert_eq!(strip_trailing_newline("\r\n"), "");
}

#[test]
fn strip_trailing_newline_gives_back_the_line() {
    for line in ["", "x", "hello world", "tab\there"] {
        assert_eq!(strip_trailing_newline(&format!("{}\r\n", line)), line);
        assert_eq!(strip_trailing_newline(&format!("{}\n", line)), line);
    }
}

#[test]
fn qualified_name_joins_with_dot() {
    assert_eq!(qualified_name(&table("public", "users")), "public.users");
    assert_eq!(qualified_name(&table("", "")), ".");
}

#[test]
fn qualified_name_parses_back() {
    let named = table("sales", "orders");
    let parsed = parse_argument(&qualified_name(&named)).unwrap();
    assert_eq!(parsed.schema, named.schema);
    assert_eq!(parsed.name, named.name);
}
