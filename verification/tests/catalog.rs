use materia::{Catalog, InvalidInput};

fn catalog_from(pairs: &[(&str, u32)]) -> Catalog {
    let mut c = Catalog::new();
    for (name, price) in pairs {
        c.insert(name.to_string(), *price);
    }
    c
}

#[test]
fn new_catalog_is_empty() {
    let c = Catalog::new();
    assert_eq!(c.len(), 0);
    assert!(c.entries().is_empty());
    assert_eq!(c.get(&"A".to_string()), None);
    assert!(!c.contains_key(&"A".to_string()));
}

#[test]
fn insert_appends_new_names_in_order() {
    let mut c = Catalog::new();
    assert_eq!(c.insert("B".to_string(), 2), None);
    assert_eq!(c.insert("A".to_string(), 1), None);
    assert_eq!(c.insert("C".to_string(), 3), None);
    assert_eq!(c.len(), 3);
    assert_eq!(
        c.entries(),
        &vec![("B".to_string(), 2), ("A".to_string(), 1), ("C".to_string(), 3)]
    );
}

#[test]
fn insert_of_a_listed_name_replaces_the_price_in_place() {
    let mut c = catalog_from(&[("A", 1), ("B", 2), ("C", 3)]);
    assert_eq!(c.insert("B".to_string(), 20), Some(2));
    assert_eq!(c.len(), 3);
    assert_eq!(
        c.entries(),
        &vec![("A".to_string(), 1), ("B".to_string(), 20), ("C".to_string(), 3)]
    );
    assert_eq!(c.get(&"B".to_string()), Some(20));
}

#[test]
fn get_and_position_find_listed_names_only() {
    let c = catalog_from(&[("A", 1), ("B", 2), ("C", 3)]);
    assert_eq!(c.get(&"A".to_string()), Some(1));
    assert_eq!(c.get(&"C".to_string()), Some(3));
    assert_eq!(c.get(&"D".to_string()), None);
    assert_eq!(c.position(&"A".to_string()), Some(0));
    assert_eq!(c.position(&"C".to_string()), Some(2));
    assert_eq!(c.position(&"".to_string()), None);
    assert!(c.contains_key(&"B".to_string()));
    assert!(!c.contains_key(&"b".to_string()));
}

#[test]
fn contains_all_asks_for_every_name() {
    let c = catalog_from(&[("A", 1), ("B", 2)]);
    assert!(c.contains_all(&vec![]));
    assert!(c.contains_all(&vec!["A".to_string(), "A".to_string(), "B".to_string()]));
    assert!(!c.contains_all(&vec!["A".to_string(), "C".to_string()]));
}

#[test]
fn invalid_input_variants_differ() {
    assert_ne!(InvalidInput::SelectionSize, InvalidInput::UnknownMaterial);
    assert_ne!(InvalidInput::UnknownMaterial, InvalidInput::CatalogTooSmall);
    assert_eq!(InvalidInput::CatalogTooSmall, InvalidInput::CatalogTooSmall);
}
