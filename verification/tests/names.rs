use tsugiki::{ExpandedName, QualName};

#[test]
fn qual_name_new_has_no_prefix() {
    let name = QualName::new("http://www.w3.org/1999/xhtml", "table");
    assert_eq!(name.prefix, None);
    assert_eq!(name.ns, "http://www.w3.org/1999/xhtml");
    assert_eq!(name.local, "table");
}

#[test]
fn qual_name_new_prefixed_keeps_prefix() {
    let qual = QualName::new_prefixed("furn", "https://furniture.example.com", "table");
    assert_eq!("furn", &qual.prefix.clone().unwrap());
    assert_eq!("https://furniture.example.com", &qual.ns);
    assert_eq!("table", &qual.local);
}

#[test]
fn qual_name_expanded_drops_prefix() {
    let qual = QualName::new_prefixed("furn", "https://furniture.example.com", "table");
    let expanded = qual.expanded();
    assert_eq!(
        expanded,
        ExpandedName {
            ns: "https://furniture.example.com".to_string(),
            local: "table".to_string(),
        }
    );
    assert_eq!(expanded, ExpandedName::new("https://furniture.example.com", "table"));
}
