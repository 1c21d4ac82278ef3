use webparse::AttrMap;

#[test]
fn new_map_is_empty() {
    let m = AttrMap::new();
    assert_eq!(m.len(), 0);
    assert_eq!(m.get("x"), None);
    assert!(!m.contains_key("x"));
}

#[test]
fn insert_then_get() {
    let mut m = AttrMap::new();
    m.insert("x".to_string(), Some("1".to_string()));
    m.insert("y".to_string(), None);
    assert_eq!(m.len(), 2);
    assert_eq!(m.get("x"), Some(&Some("1".to_string())));
    assert_eq!(m.get("y"), Some(&None));
    assert_eq!(m.get("z"), None);
    assert!(m.contains_key("y"));
}

#[test]
fn insert_replaces_the_value_of_a_name() {
    let mut m = AttrMap::new();
    m.insert("x".to_string(), None);
    m.insert("y".to_string(), None);
    m.insert("x".to_string(), Some("2".to_string()));
    assert_eq!(m.len(), 2);
    assert_eq!(m.get("x"), Some(&Some("2".to_string())));
    assert_eq!(m.get("y"), Some(&None));
}

#[test]
fn clone_keeps_the_attributes() {
    let mut m = AttrMap::new();
    m.insert("x".to_string(), Some("1".to_string()));
    let c = m.clone();
    assert_eq!(c, m);
    assert_eq!(c.get("x"), Some(&Some("1".to_string())));
}

#[test]
fn equality_does_not_go_by_order() {
    let mut a = AttrMap::new();
    a.insert("x".to_string(), Some("1".to_string()));
    a.insert("y".to_string(), None);
    let mut b = AttrMap::new();
    b.insert("y".to_string(), None);
    b.insert("x".to_string(), Some("1".to_string()));
    assert_eq!(a, b);
    assert_eq!(b, a);
    b.insert("x".to_string(), Some("2".to_string()));
    assert_ne!(a, b);
    b.insert("x".to_string(), None);
    assert_ne!(a, b);
    let mut c = AttrMap::new();
    c.insert("x".to_string(), Some("1".to_string()));
    assert_ne!(a, c);
    assert_ne!(c, a);
    c.insert("z".to_string(), None);
    assert_ne!(a, c);
    assert_eq!(AttrMap::new(), AttrMap::new());
}
