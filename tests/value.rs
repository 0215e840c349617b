use confindent::{ConfItem, Indent, Line, ParseErrorKind, Value};

#[test]
fn whitespace_end_index() {
    let nowhite = "Key Value";
    let tab = "\tKey Value";
    let space = " Key Value";
    let twospace = "  Key Value";
    let mixed = "\t Key Value";

    assert_eq!(Value::whitespace_end_index(nowhite), 0);
    assert_eq!(Value::whitespace_end_index(tab), 1);
    assert_eq!(Value::whitespace_end_index(space), 1);
    assert_eq!(Value::whitespace_end_index(twospace), 2);
    assert_eq!(Value::whitespace_end_index(mixed), 2);
}

#[test]
fn value_from_str() {
    let noindent = "Key Value";
    let noindent_novalue = "Key";

    assert_eq!(
        Value::from_str(noindent).unwrap(),
        Value::from_parts(Indent::Empty, "Key", "Value")
    );
    assert_eq!(
        Value::from_str(noindent_novalue).unwrap(),
        Value::from_parts(Indent::Empty, "Key", "")
    );

    let indent = "\tKey Value";
    let indent_novalue = "\tKey";

    assert_eq!(
        Value::from_str(indent).unwrap(),
        Value::from_parts(Indent::Tabs { count: 1, delta: 1 }, "Key", "Value")
    );
    assert_eq!(
        Value::from_str(indent_novalue).unwrap(),
        Value::from_parts(Indent::Tabs { count: 1, delta: 1 }, "Key", "")
    );

    let mixed = " \tKey Value";
    assert_eq!(
        Value::from_str(mixed).unwrap_err(),
        ParseErrorKind::MixedIndent
    );
}

#[test]
fn no_indent_only_key() {
    let value = Value::from_parts(Indent::Empty, "Key", "");
    let expected = "Key\n";

    assert_eq!(value.to_string(), expected)
}

#[test]
fn no_indent_with_value() {
    let value = Value::from_parts(Indent::Empty, "Key", "Value");
    let expected = "Key Value\n";

    assert_eq!(value.to_string(), expected)
}

#[test]
fn no_indent_with_value_children() {
    let value = Value {
        indent: Indent::Empty,
        key: "Key".into(),
        value: Some("Value".into()),
        children: vec![Line::Value(Value::from_parts(
            Indent::Tabs { count: 1, delta: 1 },
            "ChildKey",
            "Value",
        ))],
    };

    let expected = "Key Value\n\tChildKey Value\n";

    assert_eq!(value.to_string(), expected)
}

#[test]
fn split_whitespace_parts() {
    let (indent, rest) = Value::split_whitespace("  Key Value").unwrap();
    assert_eq!(indent, Indent::Spaces { count: 2, delta: 2 });
    assert_eq!(rest, "Key Value");
    assert_eq!(
        Value::split_whitespace("\t \tKey").unwrap_err(),
        ParseErrorKind::MixedIndent
    );
}

#[test]
fn from_indent_str_parts() {
    let v = Value::from_indent_str(Indent::Empty, "Key a b");
    assert_eq!(v.key, "Key");
    assert_eq!(v.value(), Some("a b"));
    let v = Value::from_indent_str(Indent::Empty, "Key ");
    assert_eq!(v.value(), None);
    assert_eq!(v.value_owned(), None);
}

#[test]
fn new_value_and_comment_lines() {
    let v = Value::new("Key", Some("x"));
    assert_eq!(v, Value::from_parts(Indent::Empty, "Key", "x"));
    assert_eq!(Value::new("Key", None).to_string(), "Key\n");
    let c = Line::from((Indent::Spaces { count: 2, delta: 2 }, " hi"));
    assert_eq!(c.to_string(), "  # hi\n");
    let c = Line::from((Indent::Empty, String::from("x")));
    assert_eq!(c.to_string(), "#x\n");
    let l = Line::from(Value::new("K", Some("v")));
    assert_eq!(l.to_string(), "K v\n");
}

#[test]
fn tokenize_kinds() {
    assert_eq!(
        Line::tokenize(&" \t ".chars().collect()).unwrap(),
        Line::Blank(" \t ".to_string())
    );
    assert_eq!(
        Line::tokenize(&"\t#c".chars().collect()).unwrap(),
        Line::Comment { indent: Indent::Tabs { count: 1, delta: 1 }, comment: "c".to_string() }
    );
    assert_eq!(
        Line::tokenize(&" \t#c".chars().collect()).unwrap_err(),
        ParseErrorKind::MixedIndent
    );
}

#[test]
fn confitem_test() {
    let data = "256";
    let item = ConfItem::parse(data);

    assert_eq!(Some(256), item.get::<u16>());
}

#[test]
fn confitem_empty_and_bad_text() {
    assert_eq!(ConfItem::Empty.get::<u16>(), None);
    assert_eq!(ConfItem::parse("x").get::<u16>(), None);
    assert_eq!(ConfItem::parse("x").to_string(), "x");
    assert_eq!(ConfItem::Empty.to_string(), "");
}
