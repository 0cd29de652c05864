use miniko_renderer::colors::{ColorMap, LayerStateKey};

#[test]
fn insert_get_and_replace() {
    let mut m = ColorMap::new();
    assert_eq!(m.len(), 0);
    m.insert("base".to_string(), "#ffffff".to_string());
    m.insert("0".to_string(), "#102030".to_string());
    assert_eq!(m.len(), 2);
    assert_eq!(m.get("base").map(|s| s.as_str()), Some("#ffffff"));
    m.insert("base".to_string(), "#000000".to_string());
    assert_eq!(m.len(), 2);
    assert_eq!(m.get("base").map(|s| s.as_str()), Some("#000000"));
    assert_eq!(m.get("shadow"), None);
}

#[test]
fn sublayer_tint_is_keyed_by_decimal_index() {
    let mut m = ColorMap::new();
    m.insert("0".to_string(), "#aaaaaa".to_string());
    m.insert("12".to_string(), "#bbbbbb".to_string());
    assert_eq!(m.tint_for_sublayer(0).map(|s| s.as_str()), Some("#aaaaaa"));
    assert_eq!(m.tint_for_sublayer(12).map(|s| s.as_str()), Some("#bbbbbb"));
    assert_eq!(m.tint_for_sublayer(1), None);
}

#[test]
fn maps_compare_by_content() {
    let mut a = ColorMap::new();
    a.insert("x".to_string(), "1".to_string());
    a.insert("y".to_string(), "2".to_string());
    let mut b = ColorMap::new();
    b.insert("y".to_string(), "2".to_string());
    b.insert("x".to_string(), "1".to_string());
    assert!(a.same_as(&b));
    b.insert("x".to_string(), "3".to_string());
    assert!(!a.same_as(&b));
}

#[test]
fn keys_compare_asset_colours_and_offset() {
    let k1 = LayerStateKey::new("body", ColorMap::new(), (0, 0));
    let k2 = LayerStateKey::new("body", ColorMap::new(), (0, 0));
    let k3 = LayerStateKey::new("body", ColorMap::new(), (0, 1));
    let k4 = LayerStateKey::new("hair", ColorMap::new(), (0, 0));
    assert!(k1.same_as(&k2));
    assert!(!k1.same_as(&k3));
    assert!(!k1.same_as(&k4));
}
