use incline_watershed::fabric::UnitId;
use incline_watershed::strahler::checked_strahler_orders;
use incline_watershed::strahler::strahler_orders;
use incline_watershed::strahler::UnitLink;

fn unit(id: i64) -> UnitId {
    UnitId::new(id).unwrap()
}

fn links(pairs: &[(i64, i64)]) -> Vec<UnitLink> {
    pairs
        .iter()
        .map(|p| UnitLink {
            id: unit(p.0),
            downstream_id: if p.1 == 0 { None } else { Some(unit(p.1)) },
        })
        .collect()
}

#[test]
fn two_equal_tributaries_raise_the_order() {
    let tree = links(&[(1, 0), (2, 1), (3, 1), (4, 2), (5, 2)]);
    let orders = strahler_orders(unit(1), &tree);
    assert_eq!(orders.order_of(unit(4)), Some(1));
    assert_eq!(orders.order_of(unit(5)), Some(1));
    assert_eq!(orders.order_of(unit(2)), Some(2));
    assert_eq!(orders.order_of(unit(3)), Some(1));
    assert_eq!(orders.order_of(unit(1)), Some(2));
    assert_eq!(orders.order_of(unit(9)), None);
    assert_eq!(orders.len(), 5);
    assert_eq!(orders.order_counts(), vec![3, 2]);
}

#[test]
fn a_chain_keeps_the_order() {
    let chain = links(&[(1, 0), (2, 1), (3, 2), (4, 3)]);
    let orders = strahler_orders(unit(1), &chain);
    assert_eq!(orders.order_counts(), vec![4]);
}

#[test]
fn a_full_binary_tree_counts_its_depth() {
    let mut pairs = vec![(1, 0)];
    for id in 2..=31 {
        pairs.push((id, id / 2));
    }
    let orders = checked_strahler_orders(unit(1), &links(&pairs)).unwrap();
    assert_eq!(orders.order_of(unit(1)), Some(5));
    assert_eq!(orders.order_counts(), vec![16, 8, 4, 2, 1]);
}

#[test]
fn the_outlet_has_the_highest_order_and_enough_heads() {
    let trees = [
        vec![(1, 0), (2, 1), (3, 1), (4, 2), (5, 2)],
        vec![(1, 0), (2, 1), (3, 1), (4, 2), (5, 2), (6, 3), (7, 3), (8, 7)],
        vec![(1, 0), (2, 1), (3, 2)],
    ];
    for pairs in trees {
        let orders = strahler_orders(unit(1), &links(&pairs));
        let top = orders.order_of(unit(1)).unwrap();
        let heads = pairs.iter().filter(|p| !pairs.iter().any(|q| q.1 == p.0)).count();
        assert!(2usize.pow(top - 1) <= heads);
        for pair in &pairs {
            assert!(orders.order_of(unit(pair.0)).unwrap() <= top);
        }
    }
}

#[test]
fn a_basin_without_records_is_its_terminal_unit() {
    let orders = strahler_orders(unit(7), &vec![]);
    assert_eq!(orders.order_of(unit(7)), Some(1));
    assert_eq!(orders.order_counts(), vec![1]);
}

#[test]
fn the_last_record_without_a_successor_is_the_outlet() {
    let orders = strahler_orders(unit(7), &links(&[(7, 0), (8, 0), (9, 8)]));
    assert_eq!(orders.order_of(unit(8)), Some(1));
    assert_eq!(orders.order_of(unit(9)), Some(1));
    assert_eq!(orders.order_of(unit(7)), None);
}

#[test]
fn units_that_drain_elsewhere_have_no_order() {
    let orders = strahler_orders(unit(1), &links(&[(1, 0), (2, 1), (5, 99)]));
    assert_eq!(orders.order_of(unit(5)), None);
    assert_eq!(orders.len(), 2);
}

#[test]
fn a_confluence_of_two_arms_of_one_channel() {
    // Unit 4 splits into 2 and 3, which meet again in 1.
    let orders = strahler_orders(unit(1), &links(&[(1, 0), (2, 1), (3, 1), (4, 2), (4, 3)]));
    assert_eq!(orders.order_of(unit(4)), Some(1));
    assert_eq!(orders.order_of(unit(1)), Some(2));
    assert_eq!(orders.len(), 4);
}

#[test]
fn a_circle_has_no_orders() {
    assert!(checked_strahler_orders(unit(1), &links(&[(1, 0), (2, 1), (3, 2), (2, 3)])).is_none());
    assert!(checked_strahler_orders(unit(1), &links(&[(1, 1)])).is_none());
    assert!(checked_strahler_orders(unit(1), &links(&[(1, 0), (5, 6), (6, 5)])).is_some());
}
