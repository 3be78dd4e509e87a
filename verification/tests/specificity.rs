use tinystyle::css::{parse, Selector, SimpleSelector};

fn simple(tag: Option<&str>, id: Option<&str>, classes: &[&str]) -> Selector {
    Selector::Simple(SimpleSelector {
        tag_name: tag.map(|t| t.to_string()),
        id: id.map(|i| i.to_string()),
        class: classes.iter().map(|c| c.to_string()).collect(),
    })
}

#[test]
fn id_component_counts_one() {
    assert_eq!(simple(None, Some("x"), &[]).specificity().0, 1);
    assert_eq!(simple(Some("div"), Some("x"), &["a"]).specificity().0, 1);
    assert_eq!(simple(Some("div"), None, &["a"]).specificity().0, 0);
    assert_eq!(simple(None, None, &[]).specificity().0, 0);
}

#[test]
fn class_component_counts_each_name() {
    assert_eq!(simple(None, None, &[]).specificity().1, 0);
    assert_eq!(simple(None, None, &["a"]).specificity().1, 1);
    assert_eq!(simple(Some("p"), Some("x"), &["a", "b", "c"]).specificity().1, 3);
}

#[test]
fn tag_component_counts_concrete_tags_only() {
    assert_eq!(simple(Some("div"), None, &[]).specificity().2, 1);
    assert_eq!(simple(None, None, &[]).specificity().2, 0);
    // A universal or empty tag name contributes nothing.
    assert_eq!(simple(Some("*"), None, &[]).specificity().2, 0);
    assert_eq!(simple(Some(""), None, &[]).specificity().2, 0);
}

#[test]
fn specificity_ordering() {
    let id = simple(None, Some("x"), &[]).specificity();
    let class = simple(None, None, &["c"]).specificity();
    let tag = simple(Some("div"), None, &[]).specificity();
    let universal = simple(None, None, &[]).specificity();
    assert!(id > class);
    assert!(class > tag);
    assert!(tag > universal);
}

#[test]
fn selector_lists_are_sorted_ascending_by_specificity() {
    let sheet = parse("p.a.b, #x, div { display: block; }".to_string()).unwrap();
    let rule = &sheet.rules[0];
    assert_eq!(rule.selectors.len(), 3);
    let keys: Vec<(usize, usize, usize)> =
        rule.selectors.iter().map(|s| s.specificity()).collect();
    assert_eq!(keys, vec![(0, 0, 1), (0, 2, 1), (1, 0, 0)]);
    let Selector::Simple(first) = &rule.selectors[0];
    assert_eq!(first.tag_name.as_deref(), Some("div"));
}

#[test]
fn equal_specificity_keeps_source_order() {
    let sheet = parse("b, a, c { display: block; }".to_string()).unwrap();
    let tags: Vec<&str> = sheet.rules[0]
        .selectors
        .iter()
        .map(|Selector::Simple(s)| s.tag_name.as_deref().unwrap())
        .collect();
    assert_eq!(tags, vec!["b", "a", "c"]);
}
