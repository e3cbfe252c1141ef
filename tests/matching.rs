use orderbook::{OrderBook, SequenceSource, Side, Trade};

#[test]
fn test_basic_match() {
    let mut ob = OrderBook::new();

    assert_eq!(ob.place_order(Side::Buy, 10, 100, 1).len(), 0);
    assert_eq!(ob.place_order(Side::Buy, 9, 200, 2).len(), 0);
    assert_eq!(ob.place_order(Side::Buy, 8, 300, 3).len(), 0);
    assert_eq!(ob.place_order(Side::Buy, 7, 400, 4).len(), 0);
    assert_eq!(ob.place_order(Side::Buy, 8, 500, 5).len(), 0);

    assert_eq!(ob.place_order(Side::Sell, 11, 100, 1).len(), 0);
    assert_eq!(ob.place_order(Side::Sell, 12, 100, 1).len(), 0);
    assert_eq!(ob.place_order(Side::Sell, 13, 100, 1).len(), 0);
    assert_eq!(ob.place_order(Side::Sell, 14, 100, 1).len(), 0);
    assert_eq!(ob.place_order(Side::Sell, 15, 100, 1).len(), 0);

    assert_eq!(ob.place_order(Side::Sell, 10, 100, 1).len(), 1);
    assert_eq!(ob.place_order(Side::Sell, 10, 100, 2).len(), 0);
    assert_eq!(ob.place_order(Side::Sell, 8, 300, 2).len(), 2);
    assert_eq!(ob.place_order(Side::Sell, 8, 100, 3).len(), 1);
}

#[test]
fn test_fifo_priority() {
    let mut ob = OrderBook::new();

    assert_eq!(ob.place_order(Side::Buy, 10, 100, 1).len(), 0);
    assert_eq!(ob.place_order(Side::Buy, 10, 200, 2).len(), 0);
    assert_eq!(ob.place_order(Side::Buy, 10, 300, 3).len(), 0);
    assert_eq!(ob.place_order(Side::Buy, 9, 400, 4).len(), 0);
    assert_eq!(ob.place_order(Side::Buy, 9, 500, 5).len(), 0);

    let trades = ob.place_order(Side::Sell, 10, 600, 10);

    assert_eq!(trades.len(), 3);
    assert_eq!(trades[0].maker_id, 1);
    assert_eq!(trades[1].maker_id, 2);
    assert_eq!(trades[2].maker_id, 3);
}

#[test]
fn test_partial_fill() {
    let mut ob = OrderBook::new();

    assert_eq!(ob.place_order(Side::Buy, 10, 100, 1).len(), 0);
    assert_eq!(ob.place_order(Side::Buy, 10, 200, 2).len(), 0);
    assert_eq!(ob.place_order(Side::Buy, 10, 300, 3).len(), 0);
    assert_eq!(ob.place_order(Side::Buy, 9, 400, 4).len(), 0);
    assert_eq!(ob.place_order(Side::Buy, 9, 500, 5).len(), 0);

    println!("First partial fill");
    let trades = ob.place_order(Side::Sell, 10, 199, 10);

    assert_eq!(trades.len(), 2);
    assert_eq!(trades[0].maker_id, 1);
    assert_eq!(trades[0].quantity, 100);
    assert_eq!(trades[1].maker_id, 2);
    assert_eq!(trades[1].quantity, 99);

    println!("Second partial fill");
    let trades = ob.place_order(Side::Sell, 10, 199, 11);
    assert_eq!(trades.len(), 2);
    assert_eq!(trades[0].maker_id, 2);
    assert_eq!(trades[0].quantity, 101);
    assert_eq!(trades[1].maker_id, 3);
    assert_eq!(trades[1].quantity, 98);
}

#[test]
fn test_buy_at_and_sell_at() {
    let mut ob = OrderBook::new();

    ob.place_order(Side::Buy, 10, 100, 1);
    ob.place_order(Side::Buy, 10, 200, 2);
    ob.place_order(Side::Buy, 9, 300, 3);

    ob.place_order(Side::Sell, 11, 150, 4);
    ob.place_order(Side::Sell, 11, 50, 5);
    ob.place_order(Side::Sell, 12, 100, 6);

    assert_eq!(ob.buy_at(10), Some((10, 300)));
    assert_eq!(ob.buy_at(9), Some((9, 300)));
    assert_eq!(ob.buy_at(8), None);

    assert_eq!(ob.sell_at(11), Some((11, 200)));
    assert_eq!(ob.sell_at(12), Some((12, 100)));
    assert_eq!(ob.sell_at(13), None);
}

fn trade(price: u64, quantity: u64, maker_id: u64, taker_id: u64) -> Trade {
    Trade { price, quantity, maker_id, taker_id }
}

#[test]
fn basic_match_drains_best_level_exactly() {
    let mut ob = OrderBook::new();
    ob.place_order(Side::Buy, 10, 100, 1);
    ob.place_order(Side::Buy, 9, 200, 2);
    ob.place_order(Side::Buy, 8, 300, 3);
    ob.place_order(Side::Buy, 7, 400, 4);
    ob.place_order(Side::Buy, 8, 500, 5);
    for p in 11..16u64 {
        assert!(ob.place_order(Side::Sell, p, 100, 1).is_empty());
    }
    let trades = ob.place_order(Side::Sell, 10, 100, 1).to_vec();
    assert_eq!(trades, vec![trade(10, 100, 1, 1)]);
    assert_eq!(ob.buy_at(10), None);
    assert_eq!(ob.best_buy(), Some((9, 200)));
    assert_eq!(ob.best_sell(), Some((11, 100)));
}

#[test]
fn best_price_first_whatever_the_insertion_order() {
    let mut ob = OrderBook::new();
    ob.place_order(Side::Sell, 12, 10, 1);
    ob.place_order(Side::Sell, 10, 10, 2);
    ob.place_order(Side::Sell, 14, 10, 3);
    ob.place_order(Side::Sell, 11, 10, 4);
    let trades = ob.place_order(Side::Buy, 13, 35, 9).to_vec();
    assert_eq!(
        trades,
        vec![trade(10, 10, 2, 9), trade(11, 10, 4, 9), trade(12, 10, 1, 9)]
    );
    // The 5 left over cannot reach 14, so it rests at the buyer's limit.
    assert_eq!(ob.best_buy(), Some((13, 5)));
    assert_eq!(ob.best_sell(), Some((14, 10)));
}

#[test]
fn trades_execute_at_the_makers_price() {
    let mut ob = OrderBook::new();
    ob.place_order(Side::Buy, 20, 50, 1);
    let trades = ob.place_order(Side::Sell, 5, 30, 2).to_vec();
    assert_eq!(trades, vec![trade(20, 30, 1, 2)]);
    assert_eq!(ob.best_buy(), Some((20, 20)));
}

#[test]
fn same_price_orders_fill_in_arrival_order() {
    let mut ob = OrderBook::new();
    ob.place_order(Side::Sell, 7, 5, 1);
    ob.place_order(Side::Sell, 7, 5, 2);
    ob.place_order(Side::Sell, 7, 5, 3);
    let first = ob.place_order(Side::Buy, 7, 7, 10).to_vec();
    assert_eq!(first, vec![trade(7, 5, 1, 10), trade(7, 2, 2, 10)]);
    let second = ob.place_order(Side::Buy, 7, 4, 11).to_vec();
    assert_eq!(second, vec![trade(7, 3, 2, 11), trade(7, 1, 3, 11)]);
    assert_eq!(ob.sell_at(7), Some((7, 4)));
}

#[test]
fn traded_plus_resting_equals_incoming() {
    let mut ob = OrderBook::new();
    ob.place_order(Side::Buy, 10, 40, 1);
    ob.place_order(Side::Buy, 9, 25, 2);
    let before = ob.buy_at(10).unwrap().1 + ob.buy_at(9).unwrap().1;
    let traded: u64 = ob.place_order(Side::Sell, 9, 100, 3).iter().map(|t| t.quantity).sum();
    assert_eq!(traded, 65);
    assert_eq!(ob.sell_at(9), Some((9, 35)));
    assert_eq!(traded + ob.sell_at(9).unwrap().1, 100);
    assert_eq!(before - traded, 0);
    assert_eq!(ob.best_buy(), None);
}

#[test]
fn aggregates_follow_partial_fills() {
    let mut ob = OrderBook::new();
    ob.place_order(Side::Sell, 30, 10, 1);
    ob.place_order(Side::Sell, 30, 20, 2);
    assert_eq!(ob.best_sell(), Some((30, 30)));
    ob.place_order(Side::Buy, 30, 15, 3);
    assert_eq!(ob.best_sell(), Some((30, 15)));
    assert_eq!(ob.sell_at(30), Some((30, 15)));
    assert_eq!(ob.best_buy(), None);
}

#[test]
fn drained_or_untouched_levels_are_never_reported() {
    let mut ob = OrderBook::new();
    assert_eq!(ob.best_buy(), None);
    assert_eq!(ob.best_sell(), None);
    assert_eq!(ob.buy_at(1), None);
    ob.place_order(Side::Buy, 5, 10, 1);
    ob.place_order(Side::Buy, 4, 10, 2);
    ob.place_order(Side::Sell, 5, 10, 3);
    assert_eq!(ob.buy_at(5), None);
    assert_eq!(ob.sell_at(5), None);
    assert_eq!(ob.best_buy(), Some((4, 10)));
    ob.place_order(Side::Sell, 4, 10, 4);
    assert_eq!(ob.best_buy(), None);
    assert_eq!(ob.buy_at(4), None);
}

#[test]
fn zero_quantity_changes_nothing() {
    let mut ob = OrderBook::new();
    ob.place_order(Side::Buy, 10, 100, 1);
    assert!(ob.place_order(Side::Sell, 10, 0, 2).is_empty());
    assert!(ob.place_order(Side::Buy, 11, 0, 3).is_empty());
    assert_eq!(ob.best_buy(), Some((10, 100)));
    assert_eq!(ob.best_sell(), None);
    assert_eq!(ob.buy_at(11), None);
}

#[test]
fn non_crossing_orders_rest() {
    let mut ob = OrderBook::new();
    assert!(ob.place_order(Side::Buy, 10, 5, 1).is_empty());
    assert!(ob.place_order(Side::Sell, 11, 6, 2).is_empty());
    assert_eq!(ob.best_buy(), Some((10, 5)));
    assert_eq!(ob.best_sell(), Some((11, 6)));
}

#[test]
fn duplicate_ids_are_matched_independently() {
    let mut ob = OrderBook::new();
    ob.place_order(Side::Buy, 10, 5, 7);
    ob.place_order(Side::Buy, 10, 6, 7);
    assert_eq!(ob.buy_at(10), Some((10, 11)));
    let trades = ob.place_order(Side::Sell, 10, 11, 7).to_vec();
    assert_eq!(trades, vec![trade(10, 5, 7, 7), trade(10, 6, 7, 7)]);
}

#[test]
fn largest_quantity_rests_and_fills() {
    let mut ob = OrderBook::new();
    ob.place_order(Side::Sell, u64::MAX, u64::MAX, 1);
    assert_eq!(ob.best_sell(), Some((u64::MAX, u64::MAX)));
    let trades = ob.place_order(Side::Buy, u64::MAX, u64::MAX, 2).to_vec();
    assert_eq!(trades, vec![trade(u64::MAX, u64::MAX, 1, 2)]);
    assert_eq!(ob.best_sell(), None);
}

#[test]
fn sequence_source_counts_up_from_one() {
    let mut seq = SequenceSource::new();
    assert_eq!(seq.next_timestamp(), 1);
    assert_eq!(seq.next_timestamp(), 2);
    assert_eq!(seq.next_timestamp(), 3);
    let mut ob = OrderBook::with_sequence(seq);
    ob.place_order(Side::Buy, 3, 3, 1);
    assert_eq!(ob.best_buy(), Some((3, 3)));
}

#[test]
fn one_sell_sweeps_a_level_in_arrival_order() {
    let mut ob = OrderBook::new();
    ob.place_order(Side::Buy, 10, 100, 1);
    ob.place_order(Side::Buy, 10, 200, 2);
    ob.place_order(Side::Buy, 10, 300, 3);
    let trades = ob.place_order(Side::Sell, 10, 600, 10).to_vec();
    assert_eq!(
        trades,
        vec![trade(10, 100, 1, 10), trade(10, 200, 2, 10), trade(10, 300, 3, 10)]
    );
    assert_eq!(ob.buy_at(10), None);
    assert_eq!(ob.sell_at(10), None);
}
