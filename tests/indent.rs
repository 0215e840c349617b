use confindent::{Indent, ParseErrorKind};

#[test]
fn indent_from_str() {
    let empty = "";
    let onetab = "\t";
    let onespace = " ";

    assert_eq!(Indent::from_str(empty).unwrap(), Indent::Empty);
    assert_eq!(
        Indent::from_str(onetab).unwrap(),
        Indent::Tabs { count: 1, delta: 1 }
    );
    assert_eq!(
        Indent::from_str(onespace).unwrap(),
        Indent::Spaces { count: 1, delta: 1 }
    );

    let twotab = "\t\t";
    let twospace = "  ";

    assert_eq!(
        Indent::from_str(twotab).unwrap(),
        Indent::Tabs { count: 2, delta: 2 }
    );
    assert_eq!(
        Indent::from_str(twospace).unwrap(),
        Indent::Spaces { count: 2, delta: 2 }
    );

    let mixedwhitespace = "\t ";

    assert_eq!(
        Indent::from_str(mixedwhitespace).unwrap_err(),
        ParseErrorKind::MixedIndent
    )
}

#[test]
fn delta_correct() {
    let empty = Indent::Empty;
    let mut tab1 = Indent::Tabs { count: 1, delta: 0 };
    let mut tab3 = Indent::Tabs { count: 3, delta: 0 };

    tab1.delta_from(&empty).unwrap();
    tab3.delta_from(&tab1).unwrap();

    assert_eq!(tab1, Indent::Tabs { count: 1, delta: 1 });
    assert_eq!(tab3, Indent::Tabs { count: 3, delta: 2 });
}

#[test]
fn delta_from_refuses_other_kind() {
    let mut spaces = Indent::Spaces { count: 2, delta: 2 };
    assert_eq!(
        spaces.delta_from(&Indent::Tabs { count: 1, delta: 1 }),
        Err(ParseErrorKind::SpacesWithTabs)
    );
    assert_eq!(spaces, Indent::Spaces { count: 2, delta: 2 });
    let mut tabs = Indent::Tabs { count: 2, delta: 0 };
    assert_eq!(
        tabs.delta_from(&Indent::Spaces { count: 1, delta: 1 }),
        Err(ParseErrorKind::TabsWithSpaces)
    );
    let mut empty = Indent::Empty;
    assert_eq!(
        empty.delta_from(&Indent::Tabs { count: 1, delta: 1 }),
        Err(ParseErrorKind::StartedIndented)
    );
}

#[test]
fn add_grows_by_kind() {
    let t = Indent::Tabs { count: 1, delta: 1 };
    assert_eq!(t.add(2), Indent::Tabs { count: 3, delta: 2 });
    assert_eq!(Indent::Empty.add(2), Indent::Empty);
    let mut s = Indent::Spaces { count: 4, delta: 4 };
    s.add_assign(2);
    assert_eq!(s, Indent::Spaces { count: 6, delta: 2 });
}
