use std::str::FromStr;

use confindent::{Confindent, Indent, Line, ParseError, ParseErrorKind, Value};

fn value_line(indent: Indent, key: &str, value: &str) -> Line {
    Line::Value(Value::from_parts(indent, key, value))
}

#[test]
fn parses_single() {
    let single = "Key Value";

    assert_eq!(
        Confindent::from_str(single).unwrap(),
        Confindent {
            children: vec![value_line(Indent::Empty, "Key", "Value")]
        }
    );
}

#[test]
fn parses_double_noindent() {
    let double = "Key1 Value1\nKey2 Value2";

    assert_eq!(
        Confindent::from_str(double).unwrap(),
        Confindent {
            children: vec![
                value_line(Indent::Empty, "Key1", "Value1"),
                value_line(Indent::Empty, "Key2", "Value2")
            ]
        }
    );
}

#[test]
fn parses_double_indented() {
    let doubledent = "Key1 Value1\n\tKey2 Value2";

    assert_eq!(
        Confindent::from_str(doubledent).unwrap(),
        Confindent {
            children: vec![Line::Value(Value {
                indent: Indent::Empty,
                key: "Key1".into(),
                value: Some("Value1".into()),
                children: vec![value_line(
                    Indent::Tabs { count: 1, delta: 1 },
                    "Key2",
                    "Value2"
                )]
            })]
        }
    );
}

#[test]
fn parses_three_allindented() {
    let doubledent = "Key1 Value1\n\tKey2 Value2\n\t\tKey3 Value3";

    assert_eq!(
        Confindent::from_str(doubledent).unwrap(),
        Confindent {
            children: vec![Line::Value(Value {
                indent: Indent::Empty,
                key: "Key1".into(),
                value: Some("Value1".into()),
                children: vec![Line::Value(Value {
                    indent: Indent::Tabs { count: 1, delta: 1 },
                    key: "Key2".into(),
                    value: Some("Value2".into()),
                    children: vec![value_line(
                        Indent::Tabs { count: 2, delta: 1 },
                        "Key3",
                        "Value3"
                    )]
                })]
            })]
        }
    );
}

#[test]
fn parses_three() {
    let doubledent = "Key1 Value1\n\tKey2 Value2\nKey3 Value3";

    assert_eq!(
        Confindent::from_str(doubledent).unwrap(),
        Confindent {
            children: vec![
                Line::Value(Value {
                    indent: Indent::Empty,
                    key: "Key1".into(),
                    value: Some("Value1".into()),
                    children: vec![value_line(
                        Indent::Tabs { count: 1, delta: 1 },
                        "Key2",
                        "Value2"
                    )]
                }),
                value_line(Indent::Empty, "Key3", "Value3")
            ]
        }
    );
}

#[test]
fn roundtrip() {
    let raw = r###"# Top of the file!
Root value
	Key v
	
	# Comment
	Key otherV
		ChildKey nested again!
	
# Comment
MoreRoot value
"###;

    let conf: Confindent = raw.parse().unwrap();
    let string = conf.to_string();

    assert_eq!(raw, string)
}

#[test]
fn depth_nests_each_level_under_the_last() {
    let conf = Confindent::from_str("A 1\n\tB 2\n\t\tC 3").unwrap();
    assert_eq!(conf.children.len(), 1);
    let a = conf.child("A").unwrap();
    assert_eq!(a.value(), Some("1"));
    assert_eq!(a.children.len(), 1);
    let b = a.child("B").unwrap();
    assert_eq!(b.value(), Some("2"));
    assert_eq!(b.indent, Indent::Tabs { count: 1, delta: 1 });
    assert_eq!(b.children.len(), 1);
    let c = b.child("C").unwrap();
    assert_eq!(c.value(), Some("3"));
    assert_eq!(c.indent, Indent::Tabs { count: 2, delta: 1 });
    assert!(c.children.is_empty());
}

#[test]
fn siblings_share_a_parent() {
    let conf = Confindent::from_str("A 1\n\tB 2\n\tC 3").unwrap();
    let a = conf.child("A").unwrap();
    assert_eq!(a.children.len(), 2);
    let mut it = a.values();
    assert_eq!(it.next().unwrap().key, "B");
    assert_eq!(it.next().unwrap().key, "C");
    assert!(it.next().is_none());
    assert!(a.child("B").unwrap().children.is_empty());
}

#[test]
fn dedent_returns_to_top_level() {
    let conf = Confindent::from_str("A 1\n\tB 2\nC 3").unwrap();
    assert_eq!(conf.children.len(), 2);
    assert_eq!(conf.child_value("C"), Some("3"));
    let a = conf.child("A").unwrap();
    assert!(a.child("B").unwrap().children.is_empty());
    assert!(!a.has_child("C"));
}

#[test]
fn indented_first_line_is_refused() {
    assert_eq!(
        Confindent::from_str("\tA 1").unwrap_err(),
        ParseError { line: 1, kind: ParseErrorKind::StartedIndented }
    );
}

#[test]
fn indented_after_only_comments_is_refused() {
    assert_eq!(
        Confindent::from_str("# note\n\n\tA 1").unwrap_err(),
        ParseError { line: 3, kind: ParseErrorKind::StartedIndented }
    );
}

#[test]
fn mixed_run_is_refused() {
    assert_eq!(
        Confindent::from_str("A 1\n \tB 2").unwrap_err(),
        ParseError { line: 2, kind: ParseErrorKind::MixedIndent }
    );
}

#[test]
fn spaces_among_tab_siblings_are_refused() {
    assert_eq!(
        Confindent::from_str("A 1\n\tB 2\n    C 3").unwrap_err(),
        ParseError { line: 3, kind: ParseErrorKind::SpacesWithTabs }
    );
}

#[test]
fn tabs_among_space_siblings_are_refused() {
    assert_eq!(
        Confindent::from_str("A 1\n  B 2\n\tC 3").unwrap_err(),
        ParseError { line: 3, kind: ParseErrorKind::TabsWithSpaces }
    );
}

#[test]
fn child_of_other_kind_than_parent_is_refused() {
    assert_eq!(
        Confindent::from_str("A 1\n\tB 2\n\t\tC 3\n\t  D 4").unwrap_err(),
        ParseError { line: 4, kind: ParseErrorKind::MixedIndent }
    );
    assert_eq!(
        Confindent::from_str("A 1\n  B 2\n\t\tC").unwrap_err(),
        ParseError { line: 3, kind: ParseErrorKind::TabsWithSpaces }
    );
}

#[test]
fn key_without_value() {
    let conf = Confindent::from_str("A").unwrap();
    let a = conf.child("A").unwrap();
    assert_eq!(a.value(), None);
    assert_eq!(conf.to_string(), "A\n");
}

#[test]
fn duplicate_keys_keep_their_order() {
    let conf = Confindent::from_str("A 1\nA 2").unwrap();
    assert_eq!(conf.children.len(), 2);
    let all = conf.children("A");
    assert_eq!(all.len(), 2);
    assert_eq!(all[0].value(), Some("1"));
    assert_eq!(all[1].value(), Some("2"));
    assert_eq!(conf.child_value("A"), Some("1"));
}

#[test]
fn empty_document() {
    let conf = Confindent::from_str("").unwrap();
    assert_eq!(conf, Confindent::new());
    assert_eq!(conf.to_string(), "");
    assert!(!conf.has_child("A"));
}

#[test]
fn round_trip_keeps_blank_lines_and_comments() {
    let raw = "\n# head\nA 1\n  B 2\n  # inner\n\n    C 3\n  D\nE x y z\n";
    let conf = Confindent::from_str(raw).unwrap();
    assert_eq!(conf.to_string(), raw);
}

#[test]
fn crlf_line_endings_are_dropped() {
    let conf = Confindent::from_str("A 1\r\n\tB 2\r\n").unwrap();
    assert_eq!(conf.get("A/B"), Some("2"));
    assert_eq!(conf.to_string(), "A 1\n\tB 2\n");
}

#[test]
fn trailing_space_after_key_is_not_kept() {
    let conf = Confindent::from_str("A \n").unwrap();
    assert_eq!(conf.child("A").unwrap().value(), None);
    assert_eq!(conf.to_string(), "A\n");
}

#[test]
fn value_keeps_inner_spaces() {
    let conf = Confindent::from_str("Key a  b ").unwrap();
    assert_eq!(conf.child_value("Key"), Some("a  b "));
}

#[test]
fn comment_goes_under_the_last_entry() {
    let conf = Confindent::from_str("A 1\n\tB 2\n# note\nC 3").unwrap();
    let b = conf.child("A").unwrap().child("B").unwrap();
    assert_eq!(
        b.children,
        vec![Line::Comment { indent: Indent::Empty, comment: " note".to_string() }]
    );
    assert_eq!(conf.children.len(), 2);
}

#[test]
fn irregular_dedent_goes_under_the_deeper_entry() {
    let conf = Confindent::from_str("A\n\t\t\tB\n\tC").unwrap();
    let b = conf.child("A").unwrap().child("B").unwrap();
    assert_eq!(b.child("C").unwrap().indent, Indent::Tabs { count: 1, delta: 2 });
}

#[test]
fn path_lookup() {
    let conf = Confindent::from_str("Host h\n\tPort 22\n\tUser\n\t\tName gen\nOther o").unwrap();
    assert_eq!(conf.get("Host/Port"), Some("22"));
    assert_eq!(conf.get("Host/User/Name"), Some("gen"));
    assert_eq!(conf.get("Host/User"), None);
    assert_eq!(conf.get("Host/Missing"), None);
    assert_eq!(conf.get("Host"), Some("h"));
    assert_eq!(conf.get_delim("Host.Port", '.'), Some("22"));
    assert_eq!(conf.get(""), None);
    let host = conf.child("Host").unwrap();
    assert_eq!(host.get("User/Name"), Some("gen"));
    assert_eq!(host.child_owned("Port"), Some("22".to_string()));
}

#[test]
fn change_a_value_in_place() {
    let mut conf = Confindent::from_str("A 1\n\tB 2").unwrap();
    {
        let a = conf.child_mut("A").unwrap();
        let b = a.child_mut("B").unwrap();
        let v = b.value_mut().unwrap();
        v.push_str("0");
    }
    assert_eq!(conf.get("A/B"), Some("20"));
    assert!(conf.child_mut("Z").is_none());
}

#[test]
fn top_level_values_skip_comments() {
    let conf = Confindent::from_str("# c\nA 1\n\nB 2").unwrap();
    let mut it = conf.values();
    assert_eq!(it.next().unwrap().key, "A");
    assert_eq!(it.next().unwrap().key, "B");
    assert!(it.next().is_none());
    assert!(it.next().is_none());
}

#[test]
fn error_messages_name_the_line() {
    let e = Confindent::from_str("A\n\t \tB").unwrap_err();
    assert_eq!(e.to_string(), "Indent mixed between tabs and spaces on line 2");
    let e = ParseError { line: 120, kind: ParseErrorKind::StartedIndented };
    assert_eq!(
        e.to_string(),
        "Cannot start document with an indented section. Line 120"
    );
    let e = ParseError { line: 7, kind: ParseErrorKind::TabsWithSpaces };
    assert_eq!(e.to_string(), "Tabular indent in space block. Line 7");
    let e = ParseError { line: 0, kind: ParseErrorKind::SpacesWithTabs };
    assert_eq!(e.to_string(), "Space indent in tab block. Line 0");
    let e = ParseError { line: 0, kind: ParseErrorKind::FileReadError };
    assert_eq!(e.to_string(), "Failed to open file!");
}

#[test]
fn change_values_through_the_walk() {
    let mut conf = Confindent::from_str("# c\nA 1\n\tX 0\nB 2").unwrap();
    {
        let mut it = conf.values_mut();
        while let Some(v) = it.next() {
            v.value = Some("9".to_string());
        }
    }
    assert_eq!(conf.to_string(), "# c\nA 9\n\tX 0\nB 9\n");
    let a = conf.child_mut("A").unwrap();
    {
        let mut it = a.values_mut();
        let x = it.next().unwrap();
        x.key = "Y".to_string();
        assert!(it.next().is_none());
    }
    assert_eq!(conf.get("A/Y"), Some("0"));
}

#[test]
fn change_all_children_with_a_key() {
    let mut conf = Confindent::from_str("H\n\tP 1\n\t# c\n\tQ 2\n\tP 3").unwrap();
    {
        let h = conf.child_mut("H").unwrap();
        let mut ps = h.children_mut("P");
        assert_eq!(ps.len(), 2);
        assert_eq!(ps[0].value(), Some("1"));
        assert_eq!(ps[1].value(), Some("3"));
        ps[0].value = Some("10".to_string());
        ps[1].value = None;
    }
    assert_eq!(conf.to_string(), "H\n\tP 10\n\t# c\n\tQ 2\n\tP\n");
}

#[test]
fn comment_between_parent_and_child() {
    let raw = "A 1\n# c\n\n\tB 2\n";
    let conf = Confindent::from_str(raw).unwrap();
    let a = conf.child("A").unwrap();
    assert_eq!(a.children.len(), 3);
    assert_eq!(a.child_value("B"), Some("2"));
    assert_eq!(conf.to_string(), raw);
}
