use tsugiki::{Attribute, Attributes, ExpandedName};

#[test]
fn insert_then_get() {
    let mut attrs = Attributes::default();
    assert!(!attrs.contains("class"));
    assert_eq!(attrs.get("class"), None);
    assert_eq!(attrs.insert("class", "test".to_string()), None);
    assert!(attrs.contains("class"));
    assert_eq!(attrs.get("class"), Some("test"));
}

#[test]
fn insert_returns_replaced_attribute() {
    let mut attrs = Attributes::default();
    attrs.insert("id", "main".to_string());
    let old = attrs.insert("id", "other".to_string());
    assert_eq!(
        old,
        Some(Attribute {
            prefix: None,
            value: "main".to_string(),
        })
    );
    assert_eq!(attrs.get("id"), Some("other"));
}

#[test]
fn remove_returns_attribute_and_forgets_it() {
    let mut attrs = Attributes::default();
    attrs.insert("id", "main".to_string());
    attrs.insert("class", "a b".to_string());
    let removed = attrs.remove("id");
    assert_eq!(removed.map(|a| a.value), Some("main".to_string()));
    assert!(!attrs.contains("id"));
    assert_eq!(attrs.get("class"), Some("a b"));
    assert_eq!(attrs.remove("id"), None);
}

#[test]
fn get_mut_writes_through() {
    let mut attrs = Attributes::default();
    assert!(attrs.get_mut("id").is_none());
    attrs.insert("id", "main".to_string());
    *attrs.get_mut("id").unwrap() = "changed".to_string();
    assert_eq!(attrs.get("id"), Some("changed"));
}

#[test]
fn entry_inserts_when_vacant() {
    let mut attrs = Attributes::default();
    attrs.entry("lang").or_insert(Attribute {
        prefix: None,
        value: "en".to_string(),
    });
    attrs.entry("lang").or_insert(Attribute {
        prefix: None,
        value: "fr".to_string(),
    });
    assert_eq!(attrs.get("lang"), Some("en"));
}

#[test]
fn namespaced_attributes_are_not_null_namespace() {
    let mut attrs = Attributes::default();
    let name = ExpandedName::new("http://www.w3.org/1999/xlink", "href");
    attrs.insert_named(
        name.clone(),
        Attribute {
            prefix: Some("xlink".to_string()),
            value: "#a".to_string(),
        },
    );
    assert!(attrs.contains_name(&name));
    assert!(!attrs.contains("href"));
    assert_eq!(attrs.get("href"), None);
}

#[test]
fn from_pairs_later_value_wins() {
    let attrs = Attributes::from_pairs(vec![
        (
            ExpandedName::new("", "a"),
            Attribute {
                prefix: None,
                value: "1".to_string(),
            },
        ),
        (
            ExpandedName::new("", "b"),
            Attribute {
                prefix: None,
                value: "2".to_string(),
            },
        ),
        (
            ExpandedName::new("", "a"),
            Attribute {
                prefix: None,
                value: "3".to_string(),
            },
        ),
    ]);
    assert_eq!(attrs.get("a"), Some("3"));
    assert_eq!(attrs.get("b"), Some("2"));
}

fn local_names(attrs: &Attributes) -> Vec<String> {
    attrs.map().keys().map(|k| k.local.clone()).collect()
}

#[test]
fn insertion_order_is_kept() {
    let mut attrs = Attributes::default();
    attrs.insert("a", "1".to_string());
    attrs.insert("b", "2".to_string());
    attrs.insert("c", "3".to_string());
    attrs.insert("a", "4".to_string());
    assert_eq!(local_names(&attrs), vec!["a", "b", "c"]);
}

#[test]
fn remove_moves_last_into_place() {
    let mut attrs = Attributes::default();
    attrs.insert("a", "1".to_string());
    attrs.insert("b", "2".to_string());
    attrs.insert("c", "3".to_string());
    attrs.remove("a");
    assert_eq!(local_names(&attrs), vec!["c", "b"]);
}

#[test]
fn remove_undoes_insert_of_new_name() {
    let mut attrs = Attributes::default();
    attrs.insert("a", "1".to_string());
    attrs.insert("b", "2".to_string());
    attrs.insert("c", "3".to_string());
    attrs.remove("c");
    assert_eq!(local_names(&attrs), vec!["a", "b"]);
    assert_eq!(attrs.get("a"), Some("1"));
    assert_eq!(attrs.get("b"), Some("2"));
}

#[test]
fn entry_refers_to_name_and_position() {
    let mut attrs = Attributes::default();
    attrs.insert("a", "1".to_string());
    attrs.insert("b", "2".to_string());
    {
        let e = attrs.entry("b");
        assert_eq!(e.index(), 1);
        assert_eq!(e.key(), &ExpandedName::new("", "b"));
    }
    {
        let e = attrs.entry("c");
        assert_eq!(e.index(), 2);
        assert_eq!(e.key(), &ExpandedName::new("", "c"));
    }
    assert_eq!(attrs.len(), 2);
    assert!(!attrs.contains("c"));
}

#[test]
fn unused_entry_changes_nothing() {
    let mut attrs = Attributes::default();
    drop(attrs.entry("x"));
    assert_eq!(attrs.len(), 0);
    assert!(!attrs.contains("x"));
}

#[test]
fn or_insert_keeps_present_value_and_appends_absent_one() {
    let mut attrs = Attributes::default();
    attrs.insert("a", "1".to_string());
    let kept = attrs.entry("a").or_insert(Attribute {
        prefix: None,
        value: "9".to_string(),
    });
    assert_eq!(kept.value, "1");
    attrs.entry("b").or_insert(Attribute {
        prefix: None,
        value: "2".to_string(),
    });
    assert_eq!(local_names(&attrs), vec!["a", "b"]);
    assert_eq!(attrs.get("a"), Some("1"));
    assert_eq!(attrs.get("b"), Some("2"));
}

#[test]
fn or_insert_reference_writes_through() {
    let mut attrs = Attributes::default();
    attrs
        .entry("a")
        .or_insert(Attribute {
            prefix: None,
            value: "1".to_string(),
        })
        .value
        .push_str("2");
    assert_eq!(attrs.get("a"), Some("12"));
}

#[test]
fn or_insert_with_calls_only_when_absent() {
    let mut attrs = Attributes::default();
    attrs.insert("a", "1".to_string());
    let mut calls = 0;
    attrs.entry("a").or_insert_with(|| {
        calls += 1;
        Attribute {
            prefix: None,
            value: "9".to_string(),
        }
    });
    assert_eq!(calls, 0);
    attrs.entry("b").or_insert_with(|| {
        calls += 1;
        Attribute {
            prefix: None,
            value: "2".to_string(),
        }
    });
    assert_eq!(calls, 1);
    assert_eq!(attrs.get("a"), Some("1"));
    assert_eq!(attrs.get("b"), Some("2"));
}

#[test]
fn and_modify_changes_only_present_attribute() {
    let mut attrs = Attributes::default();
    attrs.insert("a", "1".to_string());
    attrs.entry("a").and_modify(|v| v.value.push_str("0"));
    attrs.entry("b").and_modify(|v| v.value.push_str("0"));
    assert_eq!(attrs.get("a"), Some("10"));
    assert!(!attrs.contains("b"));
    let v = attrs
        .entry("c")
        .and_modify(|v| v.value.push_str("0"))
        .or_insert(Attribute {
            prefix: None,
            value: "3".to_string(),
        });
    assert_eq!(v.value, "3");
}

#[test]
fn clone_keeps_entries_in_order() {
    let mut attrs = Attributes::default();
    attrs.insert("b", "2".to_string());
    attrs.insert("a", "1".to_string());
    let copy = attrs.clone();
    assert_eq!(copy, attrs);
    assert_eq!(local_names(&copy), vec!["b", "a"]);
    attrs.insert("a", "changed".to_string());
    assert_eq!(copy.get("a"), Some("1"));
}
