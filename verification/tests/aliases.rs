use propagation::aliases::AliasTable;

#[test]
fn unaliased_device_shown_as_is() {
    let t = AliasTable::new();
    assert_eq!(t.display_name("Speakers (Realtek)"), "Speakers (Realtek)");
    assert_eq!(t.get("Speakers (Realtek)"), None);
}

#[test]
fn rename_then_shown() {
    let mut t = AliasTable::new();
    t.rename("hw:0", "Desk mic");
    assert_eq!(t.display_name("hw:0"), "Desk mic");
    assert_eq!(t.get("hw:0"), Some(&"Desk mic".to_string()));
    t.rename("hw:0", "Podcast mic");
    assert_eq!(t.display_name("hw:0"), "Podcast mic");
    assert_eq!(t.entries().len(), 1);
}

#[test]
fn rename_to_empty_or_own_name_drops_alias() {
    let mut t = AliasTable::new();
    t.rename("hw:0", "Desk mic");
    t.rename("hw:0", "");
    assert_eq!(t.get("hw:0"), None);
    assert_eq!(t.display_name("hw:0"), "hw:0");
    t.rename("hw:0", "Desk mic");
    t.rename("hw:0", "hw:0");
    assert_eq!(t.get("hw:0"), None);
    assert!(t.entries().is_empty());
}

#[test]
fn rename_touches_one_device() {
    let mut t = AliasTable::new();
    t.rename("a", "Alpha");
    t.rename("b", "Beta");
    t.rename("a", "");
    assert_eq!(t.display_name("b"), "Beta");
    assert_eq!(t.display_name("a"), "a");
}

#[test]
fn insert_remove_and_entries() {
    let mut t = AliasTable::new();
    t.insert("x", "X");
    t.insert("y", "Y");
    t.insert("x", "XX");
    let mut e = t.entries();
    e.sort();
    assert_eq!(
        e,
        vec![("x".to_string(), "XX".to_string()), ("y".to_string(), "Y".to_string())]
    );
    t.remove("x");
    t.remove("nothing");
    assert_eq!(t.entries(), vec![("y".to_string(), "Y".to_string())]);
}
