use materia::{enumerate_combinations, find_best, operate_specific_materia, Catalog};

fn market(pairs: &[(&str, u32)]) -> Catalog {
    let mut c = Catalog::new();
    for (name, price) in pairs {
        c.insert(name.to_string(), *price);
    }
    c
}

fn list(items: &[&str]) -> Vec<String> {
    items.iter().map(|n| n.to_string()).collect()
}

/// The first selection of greatest profit, found by evaluating the whole enumeration.
fn first_maximum(c: &Catalog) -> Option<(Vec<String>, i64)> {
    let mut best: Option<(Vec<String>, i64)> = None;
    for s in enumerate_combinations(c) {
        let profit = operate_specific_materia(c, s.to_string_vec()).unwrap().profit();
        let better = match &best {
            None => true,
            Some((_, p)) => *p < profit,
        };
        if better {
            best = Some((s.to_string_vec(), profit));
        }
    }
    best
}

#[test]
fn empty_catalog_has_no_best_selection() {
    assert!(find_best(&Catalog::new()).is_none());
}

#[test]
fn handing_in_all_cheap_materials_leaves_the_dear_one() {
    let c = market(&[("A", 1), ("B", 2), ("C", 3), ("D", 4), ("E", 5), ("F", 100)]);
    let best = find_best(&c).unwrap();
    assert_eq!(best.combo.to_string_vec(), list(&["A", "B", "C", "D", "E"]));
    assert_eq!(best.result.input_sum(), 15);
    assert_eq!(best.result.others_average(), 100);
    assert_eq!(best.profit, 85);
}

#[test]
fn single_entry_catalog_has_a_best_selection_at_a_loss() {
    let c = market(&[("A", 3)]);
    let best = find_best(&c).unwrap();
    assert_eq!(best.combo.to_string_vec(), list(&["A", "A", "A", "A", "A"]));
    assert_eq!(best.result.input_sum(), 15);
    assert_eq!(best.result.others_average(), 0);
    assert_eq!(best.profit, -15);
}

#[test]
fn zero_profit_optimum_is_reported() {
    let c = market(&[("A", 0), ("B", 0)]);
    let best = find_best(&c).unwrap();
    assert_eq!(best.profit, 0);
    assert_eq!(best.combo.to_string_vec(), list(&["A", "A", "A", "A", "A"]));
}

#[test]
fn first_of_equally_profitable_selections_wins() {
    // Handing in A only or B only leaves the other: the same profit both ways.
    let c = market(&[("A", 1), ("B", 1)]);
    let best = find_best(&c).unwrap();
    assert_eq!(best.profit, 1 - 5);
    assert_eq!(best.combo.to_string_vec(), list(&["A", "A", "A", "A", "A"]));
    let d = market(&[("B", 1), ("A", 1)]);
    let best = find_best(&d).unwrap();
    assert_eq!(best.combo.to_string_vec(), list(&["B", "B", "B", "B", "B"]));
}

#[test]
fn tie_between_later_selections_goes_to_the_earlier_one() {
    // Every selection of B and C that holds both costs 10 and leaves A alone.
    let c = market(&[("A", 1000), ("B", 2), ("C", 2)]);
    let best = find_best(&c).unwrap();
    assert_eq!(best.combo.to_string_vec(), list(&["B", "B", "B", "B", "C"]));
    assert_eq!(best.result.input_sum(), 10);
    assert_eq!(best.result.others_average(), 1000);
    assert_eq!(best.profit, 990);
}

#[test]
fn no_enumerated_selection_is_more_profitable() {
    let c = market(&[("A", 7), ("B", 3), ("C", 90), ("D", 15), ("E", 4)]);
    let best = find_best(&c).unwrap();
    for s in enumerate_combinations(&c) {
        let r = operate_specific_materia(&c, s.to_string_vec()).unwrap();
        assert!(r.profit() <= best.profit);
    }
}

#[test]
fn best_selection_is_the_first_maximum_of_the_enumeration() {
    let catalogs = [
        market(&[("A", 7), ("B", 3), ("C", 90), ("D", 15), ("E", 4)]),
        market(&[("A", 5), ("B", 5), ("C", 5), ("D", 5)]),
        market(&[("A", 0), ("B", 100), ("C", 0), ("D", 100), ("E", 0), ("F", 1)]),
        market(&[("A", 10), ("B", 9), ("C", 8)]),
        market(&[("A", u32::MAX), ("B", u32::MAX)]),
    ];
    for c in &catalogs {
        let (combo, profit) = first_maximum(c).unwrap();
        let best = find_best(c).unwrap();
        assert_eq!(best.combo.to_string_vec(), combo);
        assert_eq!(best.profit, profit);
        assert_eq!(best.result.profit(), profit);
        let again = operate_specific_materia(c, combo).unwrap();
        assert_eq!(best.result.input_sum(), again.input_sum());
        assert_eq!(best.result.others_average(), again.others_average());
    }
}

#[test]
fn thirteen_entries_are_searched_in_full() {
    let c = market(&[
        ("m01", 120),
        ("m02", 95),
        ("m03", 310),
        ("m04", 15),
        ("m05", 15),
        ("m06", 720),
        ("m07", 48),
        ("m08", 1500),
        ("m09", 33),
        ("m10", 15),
        ("m11", 260),
        ("m12", 80),
        ("m13", 2400),
    ]);
    let best = find_best(&c).unwrap();
    // The five cheapest cost 126 and leave eight others worth 5485 together.
    assert_eq!(best.combo.to_string_vec(), list(&["m04", "m05", "m07", "m09", "m10"]));
    assert_eq!(best.result.input_sum(), 126);
    assert_eq!(best.result.others_average(), 685);
    assert_eq!(best.profit, 559);
}

#[test]
fn ratio_per_mille_is_output_over_cost() {
    let c = market(&[("A", 1), ("B", 2), ("C", 3), ("D", 4), ("E", 5), ("F", 100)]);
    let best = find_best(&c).unwrap();
    assert_eq!(best.result.input_sum(), 15);
    assert_eq!(best.result.others_average(), 100);
    assert_eq!(best.ratio_per_mille(), Some(6666));
    let d = market(&[("A", 3), ("B", 10)]);
    let best = find_best(&d).unwrap();
    assert_eq!(best.result.input_sum(), 15);
    assert_eq!(best.result.others_average(), 10);
    assert_eq!(best.ratio_per_mille(), Some(666));
}

#[test]
fn ratio_per_mille_of_a_free_input_is_undefined() {
    let c = market(&[("A", 0), ("B", 9)]);
    let best = find_best(&c).unwrap();
    assert_eq!(best.result.input_sum(), 0);
    assert_eq!(best.result.others_average(), 9);
    assert_eq!(best.ratio_per_mille(), None);
}
