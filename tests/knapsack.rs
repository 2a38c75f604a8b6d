use rods_technique::{
    confirm_blocking, make_items, rods_technique, select_items, sort_by_density, suffix_value,
    sum_values, sum_weights, Item,
};

fn it(value: u64, weight: usize) -> Item {
    Item { value, weight }
}

#[test]
fn rods_technique_1() {
    let items = vec![
        Item{value:1500, weight:1},
        Item{value:2000, weight:3},
        Item{value:3000, weight:4},
    ];
    match rods_technique(&items, 4) {
        Ok(value) => assert_eq!(value.2, 3500),
        Err(_) => assert!(false),
    }
}

#[test]
fn rods_technique_2() {
    let items = vec![
        Item{value:1500, weight:1},
        Item{value:2000, weight:3},
        Item{value:3000, weight:4},
        Item{value:3300, weight:5},
        Item{value:4000, weight:6},
        Item{value:4200, weight:7},
        Item{value:4400, weight:8},
    ];
    let expected_vals: Vec<u64> = vec![22400, 20900, 20400, 20400, 19400, 19100, 18400, 18200];
    for (i, expected_val) in expected_vals.iter().map(|x: &u64| *x).enumerate() {
        println!("----- Testing {i} for value {expected_val}");
        match rods_technique(&items, 34 - i) {
            Ok(value) => assert_eq!(value.2, expected_val),
            Err(_) => { },
        }
    }
}

/// Best value by trying every subset of the items.
fn brute_force(items: &[Item], limit: usize) -> u64 {
    let n = items.len();
    let mut best: u64 = 0;
    for mask in 0u32..(1u32 << n) {
        let mut w: usize = 0;
        let mut v: u64 = 0;
        for k in 0..n {
            if mask & (1 << k) != 0 {
                w += items[k].weight;
                v += items[k].value;
            }
        }
        if w <= limit && v > best {
            best = v;
        }
    }
    best
}

/// A small deterministic generator for test inputs.
fn next(state: &mut u64) -> u64 {
    *state = state.wrapping_mul(6364136223846793005).wrapping_add(1442695040888963407);
    *state >> 33
}

fn check_result(items: &[Item], limit: usize) -> u64 {
    let (path, weight, value) = rods_technique(items, limit).expect("a selection always exists");
    let sorted = sort_by_density(items);
    for k in 1..path.len() {
        assert!(path[k - 1] < path[k]);
    }
    for &p in path.iter() {
        assert!(p < sorted.len());
    }
    let chosen = select_items(&sorted, &path);
    assert_eq!(sum_weights(&chosen), weight);
    assert_eq!(sum_values(&chosen), value);
    assert!(weight <= limit);
    value
}

#[test]
fn scenario_three_items_path_and_weight() {
    let items = vec![it(1500, 1), it(2000, 3), it(3000, 4)];
    let (path, weight, value) = rods_technique(&items, 4).unwrap();
    // Density order is (1500,1), (3000,4), (2000,3).
    assert_eq!(path, vec![0, 2]);
    assert_eq!(weight, 4);
    assert_eq!(value, 3500);
}

#[test]
fn scenario_seven_items_every_capacity_succeeds() {
    let items = vec![
        it(1500, 1), it(2000, 3), it(3000, 4), it(3300, 5), it(4000, 6), it(4200, 7), it(4400, 8),
    ];
    let expected: Vec<u64> = vec![22400, 20900, 20400, 20400, 19400, 19100, 18400, 18200];
    for (i, e) in expected.iter().enumerate() {
        assert_eq!(check_result(&items, 34 - i), *e);
    }
}

#[test]
fn optimal_against_brute_force() {
    let mut state: u64 = 42;
    for round in 0..60 {
        let n = (round % 13) as usize;
        let mut items = Vec::new();
        for _ in 0..n {
            let v = next(&mut state) % 30;
            let w = (next(&mut state) % 12) as usize;
            items.push(it(v, w));
        }
        let limit = (next(&mut state) % 40) as usize;
        assert_eq!(check_result(&items, limit), brute_force(&items, limit));
    }
}

#[test]
fn capacity_monotonic() {
    let items = vec![it(7, 3), it(4, 2), it(9, 5), it(1, 1), it(6, 4), it(3, 3)];
    let mut previous: u64 = 0;
    for limit in 0..20 {
        let v = check_result(&items, limit);
        assert!(v >= previous);
        previous = v;
    }
    assert_eq!(previous, 30);
}

#[test]
fn empty_items_give_empty_selection() {
    let items: Vec<Item> = vec![];
    assert_eq!(rods_technique(&items, 10), Ok((vec![], 0, 0)));
}

#[test]
fn nothing_fits_gives_empty_selection() {
    let items = vec![it(10, 5), it(20, 9)];
    assert_eq!(rods_technique(&items, 4), Ok((vec![], 0, 0)));
}

#[test]
fn worthless_items_give_zero_value() {
    let items = vec![it(0, 1), it(0, 0)];
    let (_, weight, value) = rods_technique(&items, 10).unwrap();
    assert_eq!(value, 0);
    assert!(weight <= 10);
}

#[test]
fn zero_capacity_takes_weightless_items() {
    let items = vec![it(7, 3), it(5, 0), it(2, 0)];
    let (path, weight, value) = rods_technique(&items, 0).unwrap();
    assert_eq!(weight, 0);
    assert_eq!(value, 7);
    assert_eq!(path, vec![0, 1]);
}

#[test]
fn large_limit_takes_everything() {
    let items = vec![it(3, 2), it(8, 4), it(1, 7)];
    let (path, weight, value) = rods_technique(&items, usize::MAX).unwrap();
    assert_eq!(path, vec![0, 1, 2]);
    assert_eq!(weight, 13);
    assert_eq!(value, 12);
}

#[test]
fn sort_by_density_orders_and_breaks_ties() {
    let items = vec![it(2, 2), it(9, 3), it(1, 1), it(4, 0), it(6, 0), it(0, 5), it(3, 1)];
    let sorted = sort_by_density(&items);
    assert_eq!(
        sorted,
        vec![it(6, 0), it(4, 0), it(3, 1), it(9, 3), it(1, 1), it(2, 2), it(0, 5)]
    );
    assert!(confirm_blocking(&sorted).is_empty());
    assert_eq!(items[0], it(2, 2));
}

#[test]
fn sorted_random_items_have_no_dominated_order() {
    let mut state: u64 = 7;
    let mut items = Vec::new();
    for _ in 0..40 {
        let v = next(&mut state) % 6;
        let w = (next(&mut state) % 5) as usize;
        items.push(it(v, w));
    }
    let sorted = sort_by_density(&items);
    assert!(confirm_blocking(&sorted).is_empty());
    for i in 0..sorted.len() {
        for j in i + 1..sorted.len() {
            if sorted[i].value == sorted[j].value {
                assert!(sorted[i].weight <= sorted[j].weight);
            }
            if sorted[i].weight == sorted[j].weight {
                assert!(sorted[i].value >= sorted[j].value);
            }
        }
    }
    let mut a = items.clone();
    let mut b = sorted.clone();
    a.sort_by_key(|x| (x.value, x.weight));
    b.sort_by_key(|x| (x.value, x.weight));
    assert_eq!(a, b);
}

#[test]
fn confirm_blocking_reports_pairs() {
    let items = vec![it(5, 4), it(5, 2), it(3, 2), it(8, 2)];
    assert_eq!(confirm_blocking(&items), vec![(0, 1), (1, 3), (2, 3)]);
}

#[test]
fn sums_and_selection() {
    let items = vec![it(3, 2), it(8, 4), it(1, 7)];
    assert_eq!(sum_values(&items), 12);
    assert_eq!(sum_weights(&items), 13);
    assert_eq!(suffix_value(&items, 1), 9);
    assert_eq!(suffix_value(&items, 3), 0);
    assert_eq!(select_items(&items, &[2, 0]), vec![it(1, 7), it(3, 2)]);
    assert_eq!(sum_values(&[]), 0);
}

#[test]
fn make_items_maps_draws_into_ranges() {
    let items = make_items(&[0, 13, 25], &[4, 100, 11], 1, 12, 4, 15);
    assert_eq!(items, vec![it(1, 8), it(2, 8), it(2, 15)]);
}
