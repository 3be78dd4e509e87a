use tinystyle::css::{parse, Color, ParseError, Selector, Unit, Value};

#[test]
fn round_trip_three_selectors() {
    let sheet = parse("h1, h2, h3 { margin: auto; color: #cc0000; }".to_string()).unwrap();
    assert_eq!(sheet.rules.len(), 1);
    let rule = &sheet.rules[0];
    assert_eq!(rule.selectors.len(), 3);
    let tags: Vec<&str> = rule
        .selectors
        .iter()
        .map(|Selector::Simple(s)| s.tag_name.as_deref().unwrap())
        .collect();
    // All three are tag-only with equal specificity, so the sort keeps
    // their source order.
    assert_eq!(tags, vec!["h1", "h2", "h3"]);
    for Selector::Simple(s) in &rule.selectors {
        assert!(s.id.is_none());
        assert!(s.class.is_empty());
    }
    assert_eq!(rule.declarations.len(), 2);
    assert_eq!(rule.declarations[0].name, "margin");
    assert_eq!(rule.declarations[0].value, Value::Keyword("auto".to_string()));
    assert_eq!(rule.declarations[1].name, "color");
    assert_eq!(
        rule.declarations[1].value,
        Value::ColorValue(Color { r: 204, g: 0, b: 0, a: 255 })
    );
}

#[test]
fn tag_and_class_selector_with_lengths() {
    let sheet = parse("div.note { margin-bottom: 20px; padding: 10px; }".to_string()).unwrap();
    assert_eq!(sheet.rules.len(), 1);
    let rule = &sheet.rules[0];
    assert_eq!(rule.selectors.len(), 1);
    let Selector::Simple(s) = &rule.selectors[0];
    assert_eq!(s.tag_name.as_deref(), Some("div"));
    assert!(s.id.is_none());
    assert_eq!(s.class, vec!["note".to_string()]);
    assert_eq!(rule.declarations.len(), 2);
    assert_eq!(rule.declarations[0].name, "margin-bottom");
    assert_eq!(
        rule.declarations[0].value,
        Value::Length("20".to_string(), Unit::Px)
    );
    assert_eq!(rule.declarations[1].name, "padding");
    assert_eq!(
        rule.declarations[1].value,
        Value::Length("10".to_string(), Unit::Px)
    );
    // The magnitude text converts to the expected numeric value.
    match &rule.declarations[0].value {
        Value::Length(t, Unit::Px) => assert_eq!(t.parse::<f32>().unwrap(), 20.0),
        other => panic!("expected a length, got {:?}", other),
    }
}

#[test]
fn id_selector_only() {
    let sheet = parse("#answer { display: none; }".to_string()).unwrap();
    assert_eq!(sheet.rules.len(), 1);
    let rule = &sheet.rules[0];
    assert_eq!(rule.selectors.len(), 1);
    let Selector::Simple(s) = &rule.selectors[0];
    assert_eq!(s.id.as_deref(), Some("answer"));
    assert!(s.tag_name.is_none());
    assert!(s.class.is_empty());
    assert_eq!(rule.declarations.len(), 1);
    assert_eq!(rule.declarations[0].name, "display");
    assert_eq!(rule.declarations[0].value, Value::Keyword("none".to_string()));
}

#[test]
fn missing_colon_is_unexpected_input() {
    let r = parse("h1 { margin auto; }".to_string());
    assert_eq!(r.unwrap_err(), ParseError::UnexpectedInput);
}

#[test]
fn unterminated_block_is_out_of_bounds() {
    let r = parse("h1 { color: red;".to_string());
    assert_eq!(r.unwrap_err(), ParseError::OutOfBounds);
}

#[test]
fn bad_hex_digit_is_invalid_color() {
    let r = parse("a { c: #zz0000; }".to_string());
    assert_eq!(r.unwrap_err(), ParseError::InvalidColor);
}

#[test]
fn truncated_color_is_out_of_bounds() {
    let r = parse("a { c: #c".to_string());
    assert_eq!(r.unwrap_err(), ParseError::OutOfBounds);
}

#[test]
fn unrecognized_unit_is_unknown_unit() {
    let r = parse("a { w: 10em; }".to_string());
    assert_eq!(r.unwrap_err(), ParseError::UnknownUnit);
}

#[test]
fn two_dots_is_malformed_number() {
    let r = parse("a { w: 1.2.3px; }".to_string());
    assert_eq!(r.unwrap_err(), ParseError::MalformedNumber);
}

#[test]
fn value_starting_nothing_is_empty_value() {
    let r = parse("a { c: !; }".to_string());
    assert_eq!(r.unwrap_err(), ParseError::EmptyValue);
}

#[test]
fn multibyte_value_start_is_empty_value() {
    let r = parse("a { c: \u{e9}; }".to_string());
    assert_eq!(r.unwrap_err(), ParseError::EmptyValue);
}

#[test]
fn stray_selector_character_is_unexpected_input() {
    let r = parse("a ! { }".to_string());
    assert_eq!(r.unwrap_err(), ParseError::UnexpectedInput);
}

#[test]
fn empty_source_is_empty_sheet() {
    let sheet = parse(String::new()).unwrap();
    assert_eq!(sheet.rules.len(), 0);
}

#[test]
fn whitespace_only_source_is_empty_sheet() {
    let sheet = parse("  \n\t  ".to_string()).unwrap();
    assert_eq!(sheet.rules.len(), 0);
}

#[test]
fn unicode_whitespace_between_tokens() {
    let sheet = parse("h1\u{3000}{ margin: auto; }".to_string()).unwrap();
    assert_eq!(sheet.rules.len(), 1);
    let Selector::Simple(s) = &sheet.rules[0].selectors[0];
    assert_eq!(s.tag_name.as_deref(), Some("h1"));
}

#[test]
fn universal_selector_has_no_components() {
    let sheet = parse("* { }".to_string()).unwrap();
    assert_eq!(sheet.rules.len(), 1);
    let rule = &sheet.rules[0];
    assert_eq!(rule.selectors.len(), 1);
    let Selector::Simple(s) = &rule.selectors[0];
    assert!(s.tag_name.is_none());
    assert!(s.id.is_none());
    assert!(s.class.is_empty());
    assert_eq!(rule.declarations.len(), 0);
}

#[test]
fn hex_color_is_case_insensitive() {
    let sheet = parse("a { c: #0aF0Cd; }".to_string()).unwrap();
    assert_eq!(
        sheet.rules[0].declarations[0].value,
        Value::ColorValue(Color { r: 10, g: 240, b: 205, a: 255 })
    );
}

#[test]
fn unit_is_case_insensitive() {
    let sheet = parse("a { w: 10PX; }".to_string()).unwrap();
    assert_eq!(
        sheet.rules[0].declarations[0].value,
        Value::Length("10".to_string(), Unit::Px)
    );
}

#[test]
fn trailing_dot_magnitude_is_accepted() {
    let sheet = parse("a { w: 10.px; }".to_string()).unwrap();
    match &sheet.rules[0].declarations[0].value {
        Value::Length(t, Unit::Px) => {
            assert_eq!(t, "10.");
            assert_eq!(t.parse::<f32>().unwrap(), 10.0);
        },
        other => panic!("expected a length, got {:?}", other),
    }
}

#[test]
fn several_rules_keep_source_order() {
    let sheet =
        parse("h1 { margin: auto; } p { color: #000000; } .x { display: block; }".to_string())
            .unwrap();
    assert_eq!(sheet.rules.len(), 3);
    let Selector::Simple(first) = &sheet.rules[0].selectors[0];
    assert_eq!(first.tag_name.as_deref(), Some("h1"));
    let Selector::Simple(third) = &sheet.rules[2].selectors[0];
    assert_eq!(third.class, vec!["x".to_string()]);
}

#[test]
fn selector_with_many_components() {
    let sheet = parse("div#main.a.b { display: block; }".to_string()).unwrap();
    let Selector::Simple(s) = &sheet.rules[0].selectors[0];
    assert_eq!(s.tag_name.as_deref(), Some("div"));
    assert_eq!(s.id.as_deref(), Some("main"));
    assert_eq!(s.class, vec!["a".to_string(), "b".to_string()]);
}
