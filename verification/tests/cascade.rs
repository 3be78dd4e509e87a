use tinystyle::css::{parse, Color, Unit, Value};
use tinystyle::dom;
use tinystyle::dom::AttributeMap;
use tinystyle::style::{
    matching_selector_specificity, selector_matches, specified_values, Display, PropertyMap,
    StyledNode,
};

fn styled<'a>(node: &'a dom::Node, map: PropertyMap) -> StyledNode<'a> {
    StyledNode { node, specified_values: map, children: Vec::new() }
}

#[test]
fn class_beats_tag() {
    let sheet = parse("p { color: red; } .x { color: blue; }".to_string()).unwrap();
    let tag = "p".to_string();
    let id: Option<String> = None;
    let classes = vec!["x".to_string()];
    let map = specified_values(&tag, &id, &classes, &sheet);
    assert_eq!(map.get("color"), Some(&Value::Keyword("blue".to_string())));
}

#[test]
fn id_beats_class_regardless_of_source_order() {
    let tag = "p".to_string();
    let id = Some("y".to_string());
    let classes = vec!["x".to_string()];
    let first = parse(".x { color: blue; } #y { color: green; }".to_string()).unwrap();
    let map1 = specified_values(&tag, &id, &classes, &first);
    assert_eq!(map1.get("color"), Some(&Value::Keyword("green".to_string())));
    let second = parse("#y { color: green; } .x { color: blue; }".to_string()).unwrap();
    let map2 = specified_values(&tag, &id, &classes, &second);
    assert_eq!(map2.get("color"), Some(&Value::Keyword("green".to_string())));
}

#[test]
fn later_source_order_wins_among_equal_specificity() {
    let sheet = parse("p { color: red; } p { color: blue; }".to_string()).unwrap();
    let tag = "p".to_string();
    let id: Option<String> = None;
    let classes: Vec<String> = Vec::new();
    let map = specified_values(&tag, &id, &classes, &sheet);
    assert_eq!(map.get("color"), Some(&Value::Keyword("blue".to_string())));
}

#[test]
fn rule_priority_is_max_of_its_matching_selectors() {
    // The rule's own id selector does not match this node, so the matching
    // class selector sets the priority; a later tag rule must still lose.
    let sheet = parse("#z, .x { color: blue; } p { color: red; }".to_string()).unwrap();
    let tag = "p".to_string();
    let id: Option<String> = None;
    let classes = vec!["x".to_string()];
    let map = specified_values(&tag, &id, &classes, &sheet);
    assert_eq!(map.get("color"), Some(&Value::Keyword("blue".to_string())));
    assert_eq!(
        matching_selector_specificity(&sheet.rules[0], &tag, &id, &classes),
        Some((0, 1, 0))
    );
    assert_eq!(
        matching_selector_specificity(&sheet.rules[1], &tag, &id, &classes),
        Some((0, 0, 1))
    );
}

#[test]
fn non_matching_rules_contribute_nothing() {
    let sheet = parse("h1 { color: red; } #other { color: blue; }".to_string()).unwrap();
    let tag = "p".to_string();
    let id: Option<String> = None;
    let classes: Vec<String> = Vec::new();
    let map = specified_values(&tag, &id, &classes, &sheet);
    assert_eq!(map.get("color"), None);
}

#[test]
fn universal_selector_matches_everything() {
    let sheet = parse("* { display: block; }".to_string()).unwrap();
    let tag = "em".to_string();
    let id: Option<String> = None;
    let classes: Vec<String> = Vec::new();
    let map = specified_values(&tag, &id, &classes, &sheet);
    assert_eq!(map.get("display"), Some(&Value::Keyword("block".to_string())));
}

#[test]
fn selector_needs_every_class() {
    let sheet = parse(".a.b { color: red; }".to_string()).unwrap();
    let tag = "p".to_string();
    let id: Option<String> = None;
    let both = vec!["a".to_string(), "b".to_string()];
    let one = vec!["a".to_string()];
    assert!(selector_matches(&sheet.rules[0].selectors[0], &tag, &id, &both));
    assert!(!selector_matches(&sheet.rules[0].selectors[0], &tag, &id, &one));
}

#[test]
fn resolving_twice_is_bit_identical() {
    let sheet = parse(
        "p { color: red; margin: auto; } .x { color: blue; } #y { width: 20px; }".to_string(),
    )
    .unwrap();
    let tag = "p".to_string();
    let id = Some("y".to_string());
    let classes = vec!["x".to_string()];
    let map1 = specified_values(&tag, &id, &classes, &sheet);
    let map2 = specified_values(&tag, &id, &classes, &sheet);
    assert_eq!(map1, map2);
}

#[test]
fn display_of_resolved_mapping() {
    let sheet = parse("#answer { display: none; }".to_string()).unwrap();
    let tag = "div".to_string();
    let id = Some("answer".to_string());
    let classes: Vec<String> = Vec::new();
    let map = specified_values(&tag, &id, &classes, &sheet);
    let node = dom::text(String::new());
    let styled_node = styled(&node, map);
    assert_eq!(styled_node.display(), Display::DisplayNone);
}

#[test]
fn display_defaults_to_inline() {
    let node = dom::text(String::new());
    assert_eq!(styled(&node, PropertyMap::new()).display(), Display::Inline);

    let mut block = PropertyMap::new();
    block.insert("display".to_string(), Value::Keyword("block".to_string()));
    assert_eq!(styled(&node, block).display(), Display::Block);

    let mut odd = PropertyMap::new();
    odd.insert("display".to_string(), Value::Keyword("table".to_string()));
    assert_eq!(styled(&node, odd).display(), Display::Inline);

    let mut not_a_keyword = PropertyMap::new();
    not_a_keyword.insert(
        "display".to_string(),
        Value::Length("10".to_string(), Unit::Px),
    );
    assert_eq!(styled(&node, not_a_keyword).display(), Display::Inline);
}

#[test]
fn lookup_falls_back_then_defaults() {
    let default_color = Value::ColorValue(Color { r: 1, g: 2, b: 3, a: 255 });
    let node = dom::text(String::new());

    let mut with_fallback = PropertyMap::new();
    with_fallback.insert(
        "color".to_string(),
        Value::ColorValue(Color { r: 204, g: 0, b: 0, a: 255 }),
    );
    let n1 = styled(&node, with_fallback);
    assert_eq!(
        n1.lookup("background-color", "color", &default_color),
        Value::ColorValue(Color { r: 204, g: 0, b: 0, a: 255 })
    );

    let n2 = styled(&node, PropertyMap::new());
    assert_eq!(n2.lookup("background-color", "color", &default_color), default_color);

    let mut with_name = PropertyMap::new();
    with_name.insert(
        "background-color".to_string(),
        Value::ColorValue(Color { r: 9, g: 9, b: 9, a: 255 }),
    );
    with_name.insert(
        "color".to_string(),
        Value::ColorValue(Color { r: 204, g: 0, b: 0, a: 255 }),
    );
    let n3 = styled(&node, with_name);
    assert_eq!(
        n3.lookup("background-color", "color", &default_color),
        Value::ColorValue(Color { r: 9, g: 9, b: 9, a: 255 })
    );
}

#[test]
fn value_returns_resolved_property() {
    let node = dom::text(String::new());
    let mut map = PropertyMap::new();
    map.insert("margin".to_string(), Value::Keyword("auto".to_string()));
    let n = styled(&node, map);
    assert_eq!(n.value("margin"), Some(Value::Keyword("auto".to_string())));
    assert_eq!(n.value("padding"), None);
}

#[test]
fn property_map_insert_overwrites() {
    let mut map = PropertyMap::new();
    map.insert("color".to_string(), Value::Keyword("red".to_string()));
    map.insert("color".to_string(), Value::Keyword("blue".to_string()));
    assert_eq!(map.get("color"), Some(&Value::Keyword("blue".to_string())));
    assert_eq!(map.get("margin"), None);
}

#[test]
fn later_declaration_in_same_rule_wins() {
    let sheet = parse("p { color: red; color: blue; }".to_string()).unwrap();
    let tag = "p".to_string();
    let id: Option<String> = None;
    let classes: Vec<String> = Vec::new();
    let map = specified_values(&tag, &id, &classes, &sheet);
    assert_eq!(map.get("color"), Some(&Value::Keyword("blue".to_string())));
}

#[test]
fn independent_properties_accumulate() {
    let sheet =
        parse("p { margin: auto; } .x { color: blue; } #y { width: 20px; }".to_string()).unwrap();
    let tag = "p".to_string();
    let id = Some("y".to_string());
    let classes = vec!["x".to_string()];
    let map = specified_values(&tag, &id, &classes, &sheet);
    assert_eq!(map.get("margin"), Some(&Value::Keyword("auto".to_string())));
    assert_eq!(map.get("color"), Some(&Value::Keyword("blue".to_string())));
    assert_eq!(map.get("width"), Some(&Value::Length("20".to_string(), Unit::Px)));
    assert_eq!(map.get("height"), None);
}

#[test]
fn attribute_map_and_node_constructors() {
    let mut attrs = AttributeMap::new();
    attrs.insert("id".to_string(), "main".to_string());
    attrs.insert("class".to_string(), "test".to_string());
    attrs.insert("id".to_string(), "other".to_string());
    assert_eq!(attrs.get("id"), Some(&"other".to_string()));
    assert_eq!(attrs.get("class"), Some(&"test".to_string()));
    assert_eq!(attrs.get("style"), None);

    let child = dom::text("Hello".to_string());
    let elem = dom::element("div".to_string(), attrs, vec![child]);
    assert_eq!(elem.children.len(), 1);
    match &elem.node_type {
        dom::NodeType::Element(e) => assert_eq!(e.tag_name, "div"),
        dom::NodeType::Text(_) => panic!("expected an element"),
    }
}
