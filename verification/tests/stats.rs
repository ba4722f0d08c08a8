use materia::{
    average, fill_transmute_vec, k_smallest, partition_by_threshold, smallest_five, sort_by_price,
    sum, Catalog, InvalidInput,
};

fn priced(pairs: &[(&str, u32)]) -> Vec<(String, u32)> {
    pairs.iter().map(|(n, p)| (n.to_string(), *p)).collect()
}

fn tier(pairs: &[(&str, u32)]) -> Catalog {
    let mut c = Catalog::new();
    for (name, price) in pairs {
        c.insert(name.to_string(), *price);
    }
    c
}

#[test]
fn sum_of_nothing_is_zero() {
    assert_eq!(sum(&priced(&[])), 0);
}

#[test]
fn sum_adds_every_price() {
    assert_eq!(sum(&priced(&[("A", 1), ("B", 2), ("C", 3), ("D", 4)])), 10);
    assert_eq!(sum(&priced(&[("A", 7), ("A", 7)])), 14);
}

#[test]
fn sum_does_not_wrap() {
    let v = priced(&[("A", u32::MAX), ("B", u32::MAX), ("C", u32::MAX)]);
    assert_eq!(sum(&v), 3 * (u32::MAX as u128));
}

#[test]
fn average_of_nothing_is_zero() {
    assert_eq!(average(&priced(&[])), 0);
}

#[test]
fn average_rounds_towards_zero() {
    assert_eq!(average(&priced(&[("A", 1), ("B", 2)])), 1);
    assert_eq!(average(&priced(&[("A", 2), ("B", 3), ("C", 4), ("D", 5), ("E", 100)])), 22);
    assert_eq!(average(&priced(&[("A", 9)])), 9);
    assert_eq!(average(&priced(&[("A", 0), ("B", 0), ("C", 2)])), 0);
}

#[test]
fn average_of_greatest_prices_is_the_greatest_price() {
    let v = priced(&[("A", u32::MAX), ("B", u32::MAX), ("C", u32::MAX)]);
    assert_eq!(average(&v), u32::MAX);
}

#[test]
fn sort_by_price_is_ascending() {
    let v = priced(&[("A", 5), ("B", 1), ("C", 4), ("D", 2), ("E", 3)]);
    assert_eq!(
        sort_by_price(&v),
        priced(&[("B", 1), ("D", 2), ("E", 3), ("C", 4), ("A", 5)])
    );
}

#[test]
fn sort_by_price_keeps_equal_prices_in_order() {
    let v = priced(&[("A", 2), ("B", 1), ("C", 2), ("D", 1), ("E", 2)]);
    assert_eq!(
        sort_by_price(&v),
        priced(&[("B", 1), ("D", 1), ("A", 2), ("C", 2), ("E", 2)])
    );
}

#[test]
fn sort_by_price_of_nothing_is_nothing() {
    assert_eq!(sort_by_price(&priced(&[])), priced(&[]));
}

#[test]
fn sort_by_price_agrees_with_a_stable_sort() {
    let mut v = Vec::new();
    let mut x: u32 = 12345;
    for i in 0..200 {
        x = x.wrapping_mul(1103515245).wrapping_add(12345);
        v.push((format!("m{}", i), (x >> 16) % 17));
    }
    let mut expected = v.clone();
    expected.sort_by(|a, b| a.1.cmp(&b.1));
    assert_eq!(sort_by_price(&v), expected);
}

#[test]
fn k_smallest_takes_the_cheapest_first() {
    let c = tier(&[("A", 5), ("B", 1), ("C", 4), ("D", 2), ("E", 3), ("F", 0)]);
    let r = k_smallest(&c, 3).unwrap();
    assert_eq!(r.entries(), &priced(&[("F", 0), ("B", 1), ("D", 2)]));
}

#[test]
fn k_smallest_breaks_ties_by_catalog_order() {
    let c = tier(&[("A", 1), ("B", 1), ("C", 1), ("D", 0)]);
    let r = k_smallest(&c, 3).unwrap();
    assert_eq!(r.entries(), &priced(&[("D", 0), ("A", 1), ("B", 1)]));
}

#[test]
fn k_smallest_of_zero_is_empty() {
    let c = tier(&[("A", 1)]);
    assert_eq!(k_smallest(&c, 0).unwrap().len(), 0);
    assert_eq!(k_smallest(&Catalog::new(), 0).unwrap().len(), 0);
}

#[test]
fn k_smallest_of_all_is_the_sorted_catalog() {
    let c = tier(&[("A", 3), ("B", 2), ("C", 1)]);
    let r = k_smallest(&c, 3).unwrap();
    assert_eq!(r.entries(), &priced(&[("C", 1), ("B", 2), ("A", 3)]));
}

#[test]
fn k_smallest_five_of_four_is_invalid_input() {
    let c = tier(&[("A", 1), ("B", 2), ("C", 3), ("D", 4)]);
    assert_eq!(k_smallest(&c, 5).err(), Some(InvalidInput::CatalogTooSmall));
}

#[test]
fn smallest_five_of_four_is_invalid_input() {
    let c = tier(&[("A", 1), ("B", 2), ("C", 3), ("D", 4)]);
    assert_eq!(smallest_five(&c).err(), Some(InvalidInput::CatalogTooSmall));
}

#[test]
fn smallest_five_takes_five() {
    let c = tier(&[("A", 10), ("B", 9), ("C", 8), ("D", 7), ("E", 6), ("F", 5), ("G", 4)]);
    let r = smallest_five(&c).unwrap();
    assert_eq!(
        r.entries(),
        &priced(&[("G", 4), ("F", 5), ("E", 6), ("D", 7), ("C", 8)])
    );
}

#[test]
fn fill_transmute_vec_of_nothing_is_nothing() {
    assert_eq!(fill_transmute_vec(&priced(&[])), priced(&[]));
}

#[test]
fn fill_transmute_vec_repeats_the_first_entry() {
    let v = priced(&[("A", 1), ("B", 2)]);
    assert_eq!(
        fill_transmute_vec(&v),
        priced(&[("A", 1), ("B", 2), ("A", 1), ("A", 1), ("A", 1)])
    );
    assert_eq!(
        fill_transmute_vec(&priced(&[("Z", 9)])),
        priced(&[("Z", 9), ("Z", 9), ("Z", 9), ("Z", 9), ("Z", 9)])
    );
}

#[test]
fn fill_transmute_vec_takes_the_first_five() {
    let v = priced(&[("A", 1), ("B", 2), ("C", 3), ("D", 4), ("E", 5), ("F", 6), ("G", 7)]);
    assert_eq!(
        fill_transmute_vec(&v),
        priced(&[("A", 1), ("B", 2), ("C", 3), ("D", 4), ("E", 5)])
    );
    let w = priced(&[("A", 1), ("B", 2), ("C", 3), ("D", 4), ("E", 5)]);
    assert_eq!(fill_transmute_vec(&w), w);
}

#[test]
fn partition_by_threshold_splits_at_the_price() {
    let v = priced(&[("A", 5), ("B", 1), ("C", 3), ("D", 2), ("E", 3)]);
    let (upper, lower) = partition_by_threshold(&v, 3);
    assert_eq!(upper, priced(&[("A", 5), ("C", 3), ("E", 3)]));
    assert_eq!(lower, priced(&[("B", 1), ("D", 2)]));
}

#[test]
fn partition_by_threshold_zero_keeps_all_above() {
    let v = priced(&[("A", 0), ("B", 1)]);
    let (upper, lower) = partition_by_threshold(&v, 0);
    assert_eq!(upper, v);
    assert_eq!(lower, priced(&[]));
}
