use multi_exchange_l3_est::amount::Amount;
use multi_exchange_l3_est::level::Level;
use multi_exchange_l3_est::side::Side;

const UNIT: i128 = 1_000_000_000_000_000_000;

fn amt(whole: i128) -> Amount {
    Amount::from_units(whole * UNIT).unwrap()
}

fn rows(pairs: &[(i128, i128)]) -> Vec<(Amount, Amount)> {
    pairs.iter().map(|&(p, q)| (amt(p), amt(q))).collect()
}

fn orders(side: &Side, price: i128) -> Option<Vec<i128>> {
    side.orders_at(amt(price)).map(|v| v.iter().map(|a| a.units() / UNIT).collect())
}

fn level_orders(level: &Level) -> Vec<i128> {
    (0..level.len()).map(|i| level.order(i).units() / UNIT).collect()
}

/// A level built by growth: its orders are the positive steps.
fn level(sizes: &[i128]) -> Level {
    let mut total = sizes[0];
    let mut l = Level::single(amt(total));
    for s in &sizes[1..] {
        total += s;
        l = l.repriced(amt(total));
    }
    l
}

#[test]
fn a_level_that_grows_gets_a_new_order() {
    let l = level(&[5]).repriced(amt(7));
    assert_eq!(level_orders(&l), vec![5, 2]);
    assert_eq!(l.total().units(), 7 * UNIT);
}

#[test]
fn an_unchanged_total_changes_nothing() {
    let l = level(&[5, 2]).repriced(amt(7));
    assert_eq!(level_orders(&l), vec![5, 2]);
}

#[test]
fn a_level_that_shrinks_by_an_order_loses_the_rightmost_match() {
    let l = level(&[2, 5, 2, 3]).repriced(amt(10));
    assert_eq!(level_orders(&l), vec![2, 5, 3]);
}

#[test]
fn a_shrink_by_the_largest_order_prefers_the_exact_match() {
    let l = level(&[5, 2, 5]).repriced(amt(7));
    assert_eq!(level_orders(&l), vec![5, 2]);
}

#[test]
fn a_level_that_shrinks_otherwise_takes_from_its_first_largest_order() {
    let l = level(&[3, 5, 5]).repriced(amt(12));
    assert_eq!(level_orders(&l), vec![3, 5, 4]);
    assert_eq!(l.total().units(), 12 * UNIT);
}

#[test]
fn a_shrink_beyond_the_largest_order_leaves_a_negative_rest() {
    let l = level(&[5, 2]).repriced(amt(1));
    assert_eq!(level_orders(&l), vec![2, -1]);
    assert_eq!(l.total().units(), UNIT);
}

#[test]
fn a_single_order_shrinks_in_place() {
    let l = level(&[5]).repriced(amt(3));
    assert_eq!(level_orders(&l), vec![3]);
}

#[test]
fn a_new_side_is_empty() {
    let side = Side::new();
    assert!(side.is_empty());
    assert!(side.prices().is_empty());
    assert!(!side.contains(amt(1)));
    assert_eq!(orders(&side, 1), None);
    assert!(side.total_at(amt(1)).is_none());
}

#[test]
fn a_snapshot_keeps_rows_with_a_positive_quantity() {
    let side = Side::from_rows(&rows(&[(100, 5), (99, 0), (98, -1), (97, 2)]));
    assert_eq!(orders(&side, 100), Some(vec![5]));
    assert_eq!(orders(&side, 99), None);
    assert_eq!(orders(&side, 98), None);
    assert_eq!(orders(&side, 97), Some(vec![2]));
    assert!(!side.is_empty());
}

#[test]
fn a_later_row_of_a_snapshot_replaces_an_earlier_one() {
    let side = Side::from_rows(&rows(&[(100, 5), (100, 8), (100, 0)]));
    assert_eq!(orders(&side, 100), Some(vec![8]));
}

#[test]
fn prices_come_out_ascending() {
    let side = Side::from_rows(&rows(&[(103, 1), (101, 1), (105, 1), (102, 1)]));
    let prices: Vec<i128> = side.prices().iter().map(|p| p.units() / UNIT).collect();
    assert_eq!(prices, vec![101, 102, 103, 105]);
}

#[test]
fn a_zero_row_removes_the_price() {
    let mut side = Side::from_rows(&rows(&[(100, 5), (101, 3)]));
    side.apply_row(amt(100), amt(0));
    assert_eq!(orders(&side, 100), None);
    assert_eq!(orders(&side, 101), Some(vec![3]));
    side.apply_row(amt(50), amt(0));
    assert_eq!(side.prices().len(), 1);
}

#[test]
fn a_positive_row_at_a_new_price_makes_one_order() {
    let mut side = Side::new();
    side.apply_row(amt(100), amt(4));
    assert_eq!(orders(&side, 100), Some(vec![4]));
    assert_eq!(side.total_at(amt(100)).unwrap().units(), 4 * UNIT);
}

#[test]
fn a_negative_row_changes_nothing() {
    let mut side = Side::from_rows(&rows(&[(100, 5)]));
    side.apply_row(amt(100), amt(-3));
    side.apply_row(amt(101), amt(-3));
    assert_eq!(orders(&side, 100), Some(vec![5]));
    assert_eq!(orders(&side, 101), None);
}

#[test]
fn rows_apply_in_their_order() {
    let mut side = Side::from_rows(&rows(&[(100, 5)]));
    side.apply_rows(&rows(&[(100, 7), (100, 0), (100, 4), (101, 1), (100, 6)]));
    assert_eq!(orders(&side, 100), Some(vec![4, 2]));
    assert_eq!(orders(&side, 101), Some(vec![1]));
}

#[test]
fn the_orders_of_a_level_sum_to_the_last_reported_quantity() {
    let mut side = Side::from_rows(&rows(&[(100, 5), (101, 9)]));
    let updates = [(100, 7), (101, 4), (100, 6), (101, 20), (100, 1), (101, 3), (100, 30)];
    for (price, qty) in updates {
        side.apply_row(amt(price), amt(qty));
        let level = side.orders_at(amt(price)).unwrap();
        let sum: i128 = level.iter().map(|a| a.units()).sum();
        assert_eq!(sum, qty * UNIT);
        assert_eq!(side.total_at(amt(price)).unwrap().units(), qty * UNIT);
        assert!(!level.is_empty());
    }
}

#[test]
fn the_last_zero_row_for_a_price_leaves_it_absent() {
    let mut side = Side::from_rows(&rows(&[(100, 5)]));
    side.apply_rows(&rows(&[(100, 0), (100, 5), (100, 0)]));
    assert!(!side.contains(amt(100)));
    side.apply_rows(&rows(&[(100, 0), (100, 5)]));
    assert!(side.contains(amt(100)));
}

#[test]
fn the_best_prices_are_the_ends_of_the_walk() {
    let side = Side::from_rows(&rows(&[(103, 1), (101, 1), (105, 1), (102, 1)]));
    assert_eq!(side.lowest().unwrap().units(), 101 * UNIT);
    assert_eq!(side.highest().unwrap().units(), 105 * UNIT);
    assert!(Side::new().lowest().is_none());
    assert!(Side::new().highest().is_none());
    side.ensure_ok();
}
