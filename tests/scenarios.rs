use orderbook::{
    LevelInfo, Order, OrderError, OrderModify, OrderType, Orderbook, OrderbookLevelInfos, Side,
    Trade, TradeInfo,
};

fn gtc(id: u32, side: Side, price: i32, q: u32) -> Order {
    Order::new(OrderType::GoodTillCancel, id, side, price, q)
}

#[test]
fn empty_book_has_no_orders_and_no_levels() {
    let ob = Orderbook::new();
    assert_eq!(ob.size(), 0);
    let infos = ob.get_order_infos();
    assert!(infos.get_bids().is_empty());
    assert!(infos.get_asks().is_empty());
}

#[test]
fn two_bids_then_cancel_both() {
    let mut ob = Orderbook::new();
    assert!(ob.add_order(gtc(1, Side::Buy, 100, 10)).is_empty());
    assert!(ob.add_order(gtc(2, Side::Buy, 100, 10)).is_empty());
    assert_eq!(ob.size(), 2);
    ob.cancel_order(1);
    ob.cancel_order(2);
    assert_eq!(ob.size(), 0);
}

#[test]
fn modify_to_other_side_trades_with_resting_bid() {
    let mut ob = Orderbook::new();
    ob.add_order(gtc(1, Side::Buy, 100, 10));
    ob.add_order(gtc(2, Side::Buy, 100, 10));
    let trades = ob.modify_order(OrderModify::new(2, Side::Sell, 100, 10));
    assert_eq!(trades.len(), 1);
    let bid = trades[0].get_bid_trade();
    let ask = trades[0].get_ask_trade();
    assert_eq!((bid.order_id, bid.price, bid.quantity), (1, 100, 10));
    assert_eq!((ask.order_id, ask.price, ask.quantity), (2, 100, 10));
    assert_eq!(ob.size(), 0);
}

#[test]
fn fill_and_kill_residual_is_discarded() {
    let mut ob = Orderbook::new();
    ob.add_order(gtc(2, Side::Sell, 100, 10));
    let trades = ob.add_order(Order::new(OrderType::FillAndKill, 1, Side::Buy, 100, 10));
    assert_eq!(trades.len(), 1);
    assert_eq!(trades[0].get_bid_trade().quantity, 10);
    ob.add_order(gtc(3, Side::Buy, 250, 5));
    let trades = ob.add_order(Order::new(OrderType::FillAndKill, 4, Side::Buy, 100, 10));
    assert!(trades.is_empty());
    assert_eq!(ob.size(), 1);
    assert!(ob.contains(3));
    assert!(!ob.contains(4));
}

#[test]
fn fill_and_kill_partial_fill_leaves_nothing() {
    let mut ob = Orderbook::new();
    ob.add_order(gtc(1, Side::Sell, 100, 4));
    let trades = ob.add_order(Order::new(OrderType::FillAndKill, 2, Side::Buy, 105, 10));
    assert_eq!(trades.len(), 1);
    assert_eq!(trades[0].get_ask_trade().quantity, 4);
    assert_eq!(ob.size(), 0);
    assert!(!ob.contains(2));
}

#[test]
fn same_side_or_uncrossed_orders_do_not_trade() {
    let mut ob1 = Orderbook::new();
    assert!(ob1.add_order(gtc(1, Side::Buy, 1, 1)).is_empty());
    assert!(ob1.add_order(gtc(2, Side::Buy, 1, 1)).is_empty());
    assert_eq!(ob1.size(), 2);
    let mut ob2 = Orderbook::new();
    assert!(ob2.add_order(gtc(1, Side::Buy, 1, 1)).is_empty());
    assert!(ob2.add_order(gtc(2, Side::Sell, 2, 1)).is_empty());
    assert_eq!(ob2.size(), 2);
}

#[test]
fn fill_or_kill_without_enough_liquidity_is_rejected() {
    let mut ob = Orderbook::new();
    ob.add_order(gtc(1, Side::Sell, 100, 5));
    ob.add_order(gtc(2, Side::Sell, 101, 30));
    let trades = ob.add_order(Order::new(OrderType::FillOrKill, 3, Side::Buy, 100, 20));
    assert!(trades.is_empty());
    assert_eq!(ob.size(), 2);
}

#[test]
fn fill_or_kill_with_enough_liquidity_fills_whole() {
    let mut ob = Orderbook::new();
    ob.add_order(gtc(1, Side::Sell, 100, 5));
    ob.add_order(gtc(2, Side::Sell, 101, 30));
    let trades = ob.add_order(Order::new(OrderType::FillOrKill, 3, Side::Buy, 101, 20));
    assert_eq!(trades.len(), 2);
    assert_eq!(trades[0].get_ask_trade().order_id, 1);
    assert_eq!(trades[0].get_ask_trade().quantity, 5);
    assert_eq!(trades[1].get_ask_trade().order_id, 2);
    assert_eq!(trades[1].get_ask_trade().quantity, 15);
    assert_eq!(ob.size(), 1);
    assert!(!ob.contains(3));
    let asks = ob.get_order_infos().ask_infos;
    assert_eq!(asks.len(), 1);
    assert_eq!((asks[0].price, asks[0].quantity), (101, 15));
}

#[test]
fn duplicate_id_is_ignored() {
    let mut ob = Orderbook::new();
    ob.add_order(gtc(1, Side::Buy, 100, 10));
    let trades = ob.add_order(gtc(1, Side::Sell, 90, 10));
    assert!(trades.is_empty());
    assert_eq!(ob.size(), 1);
    let infos = ob.get_order_infos();
    assert_eq!(infos.bid_infos.len(), 1);
    assert!(infos.ask_infos.is_empty());
}

#[test]
fn cancel_of_unknown_id_changes_nothing() {
    let mut ob = Orderbook::new();
    ob.add_order(gtc(1, Side::Buy, 100, 10));
    ob.cancel_order(42);
    assert_eq!(ob.size(), 1);
    assert!(ob.contains(1));
}

#[test]
fn add_then_cancel_restores_levels() {
    let mut ob = Orderbook::new();
    ob.add_order(gtc(1, Side::Buy, 99, 10));
    ob.add_order(gtc(2, Side::Sell, 101, 7));
    let before = ob.get_order_infos();
    assert!(ob.add_order(gtc(3, Side::Buy, 100, 4)).is_empty());
    ob.cancel_order(3);
    let after = ob.get_order_infos();
    assert_eq!(before.bid_infos.len(), after.bid_infos.len());
    assert_eq!((after.bid_infos[0].price, after.bid_infos[0].quantity), (99, 10));
    assert_eq!((after.ask_infos[0].price, after.ask_infos[0].quantity), (101, 7));
    assert_eq!(ob.size(), 2);
}

#[test]
fn earlier_order_at_a_price_fills_first() {
    let mut ob = Orderbook::new();
    ob.add_order(gtc(1, Side::Sell, 100, 5));
    ob.add_order(gtc(2, Side::Sell, 100, 5));
    let trades = ob.add_order(gtc(3, Side::Buy, 100, 7));
    assert_eq!(trades.len(), 2);
    assert_eq!(trades[0].get_ask_trade().order_id, 1);
    assert_eq!(trades[0].get_ask_trade().quantity, 5);
    assert_eq!(trades[1].get_ask_trade().order_id, 2);
    assert_eq!(trades[1].get_ask_trade().quantity, 2);
    assert!(!ob.contains(1));
    assert!(ob.contains(2));
    assert!(!ob.contains(3));
}

#[test]
fn trade_quantities_match_filled_quantities() {
    let mut ob = Orderbook::new();
    ob.add_order(gtc(1, Side::Buy, 100, 6));
    ob.add_order(gtc(2, Side::Buy, 99, 6));
    let trades = ob.add_order(gtc(3, Side::Sell, 99, 10));
    let bid_total: u32 = trades.iter().map(|t| t.get_bid_trade().quantity).sum();
    let ask_total: u32 = trades.iter().map(|t| t.get_ask_trade().quantity).sum();
    assert_eq!(bid_total, 10);
    assert_eq!(ask_total, 10);
    assert_eq!(trades[0].get_bid_trade().price, 100);
    assert_eq!(trades[1].get_bid_trade().price, 99);
    let bids = ob.get_order_infos().bid_infos;
    assert_eq!((bids[0].price, bids[0].quantity), (99, 2));
}

#[test]
fn book_is_never_crossed_after_a_sweep() {
    let mut ob = Orderbook::new();
    ob.add_order(gtc(1, Side::Sell, 101, 3));
    ob.add_order(gtc(2, Side::Sell, 103, 3));
    ob.add_order(gtc(3, Side::Buy, 102, 10));
    let infos = ob.get_order_infos();
    assert_eq!((infos.bid_infos[0].price, infos.bid_infos[0].quantity), (102, 7));
    assert_eq!(infos.ask_infos[0].price, 103);
    assert!(infos.bid_infos[0].price < infos.ask_infos[0].price);
}

#[test]
fn snapshot_sums_levels_in_price_order() {
    let mut ob = Orderbook::new();
    ob.add_order(gtc(1, Side::Buy, 98, 1));
    ob.add_order(gtc(2, Side::Buy, 99, 2));
    ob.add_order(gtc(3, Side::Buy, 99, 3));
    ob.add_order(gtc(4, Side::Sell, 102, 4));
    ob.add_order(gtc(5, Side::Sell, 101, 5));
    let infos = ob.get_order_infos();
    let bids: Vec<(i32, u64)> = infos.bid_infos.iter().map(|l| (l.price, l.quantity)).collect();
    let asks: Vec<(i32, u64)> = infos.ask_infos.iter().map(|l| (l.price, l.quantity)).collect();
    assert_eq!(bids, vec![(98, 1), (99, 5)]);
    assert_eq!(asks, vec![(101, 5), (102, 4)]);
}

#[test]
fn snapshot_level_sum_exceeds_u32() {
    let mut ob = Orderbook::new();
    ob.add_order(gtc(1, Side::Sell, 10, u32::MAX));
    ob.add_order(gtc(2, Side::Sell, 10, u32::MAX));
    let asks = ob.get_order_infos().ask_infos;
    assert_eq!(asks[0].quantity, 2 * (u32::MAX as u64));
}

#[test]
fn market_order_sweeps_and_rests_at_worst_price() {
    let mut ob = Orderbook::new();
    ob.add_order(gtc(1, Side::Sell, 100, 5));
    ob.add_order(gtc(2, Side::Sell, 105, 5));
    let trades = ob.add_order(Order::new_market(3, Side::Buy, 12));
    assert_eq!(trades.len(), 2);
    assert_eq!(trades[0].get_bid_trade().price, 105);
    assert_eq!(trades[0].get_ask_trade().price, 100);
    assert_eq!(ob.size(), 1);
    let bids = ob.get_order_infos().bid_infos;
    assert_eq!((bids[0].price, bids[0].quantity), (105, 2));
}

#[test]
fn market_order_with_empty_other_side_is_rejected() {
    let mut ob = Orderbook::new();
    ob.add_order(gtc(1, Side::Sell, 100, 5));
    assert!(ob.add_order(Order::new_market(2, Side::Sell, 3)).is_empty());
    assert_eq!(ob.size(), 1);
    assert!(!ob.contains(2));
}

#[test]
fn prune_removes_only_good_for_day() {
    let mut ob = Orderbook::new();
    ob.add_order(Order::new(OrderType::GoodForDay, 1, Side::Buy, 100, 1));
    ob.add_order(gtc(2, Side::Buy, 100, 1));
    ob.add_order(Order::new(OrderType::GoodForDay, 3, Side::Sell, 110, 1));
    ob.prune_gfd_orders();
    assert_eq!(ob.size(), 1);
    assert!(ob.contains(2));
    assert!(!ob.contains(1));
    assert!(!ob.contains(3));
}

#[test]
fn fill_updates_bookkeeping_and_refuses_overfill() {
    let mut o = gtc(1, Side::Buy, 100, 10);
    assert_eq!(o.fill(4), Ok(()));
    assert_eq!(o.get_remaining_quantity(), 6);
    assert_eq!(o.get_filled_quantity(), 4);
    assert!(!o.is_filled());
    assert_eq!(o.fill(7), Err(OrderError::OverFill));
    assert_eq!(o.get_remaining_quantity(), 6);
    assert_eq!(o.fill(6), Ok(()));
    assert!(o.is_filled());
    assert_eq!(o.get_initial_quantity(), 10);
}

#[test]
fn reprice_only_market_orders_to_real_prices() {
    let mut g = gtc(1, Side::Buy, 100, 10);
    assert_eq!(g.to_good_till_cancel(90), Err(OrderError::NotMarket));
    let mut m = Order::new_market(2, Side::Sell, 5);
    assert_eq!(m.get_price(), i32::MIN);
    assert_eq!(m.to_good_till_cancel(i32::MIN), Err(OrderError::InvalidPrice));
    assert_eq!(m.to_good_till_cancel(95), Ok(()));
    assert_eq!(m.get_price(), 95);
    assert_eq!(m.get_order_type(), OrderType::GoodTillCancel);
    assert_eq!(m.get_side(), Side::Sell);
    assert_eq!(m.get_order_id(), 2);
}

#[test]
fn modify_of_unknown_id_does_nothing() {
    let mut ob = Orderbook::new();
    ob.add_order(gtc(1, Side::Buy, 100, 10));
    let m = OrderModify::new(9, Side::Sell, 50, 1);
    assert_eq!((m.get_order_id(), m.get_side(), m.get_price(), m.get_quantity()), (9, Side::Sell, 50, 1));
    assert!(ob.modify_order(m).is_empty());
    assert_eq!(ob.size(), 1);
}

#[test]
fn modify_keeps_type_and_loses_priority() {
    let mut ob = Orderbook::new();
    ob.add_order(Order::new(OrderType::GoodForDay, 1, Side::Sell, 100, 5));
    ob.add_order(gtc(2, Side::Sell, 100, 5));
    ob.modify_order(OrderModify::new(1, Side::Sell, 100, 5));
    let trades = ob.add_order(gtc(3, Side::Buy, 100, 5));
    assert_eq!(trades[0].get_ask_trade().order_id, 2);
    ob.prune_gfd_orders();
    assert_eq!(ob.size(), 0);
}

#[test]
fn trade_and_level_infos_hold_what_they_are_given() {
    let bid = TradeInfo { order_id: 1, price: 100, quantity: 3 };
    let ask = TradeInfo { order_id: 2, price: 99, quantity: 3 };
    let t = Trade::new(bid, ask);
    assert_eq!(t.get_bid_trade().order_id, 1);
    assert_eq!(t.get_ask_trade().price, 99);
    let infos = OrderbookLevelInfos::new(
        vec![LevelInfo { price: 100, quantity: 3 }],
        vec![LevelInfo { price: 101, quantity: 4 }, LevelInfo { price: 102, quantity: 1 }],
    );
    assert_eq!(infos.get_bids().len(), 1);
    assert_eq!(infos.get_asks()[1].price, 102);
}

#[test]
fn sell_sweeps_bids_from_the_highest_price() {
    let mut ob = Orderbook::new();
    ob.add_order(gtc(1, Side::Buy, 98, 2));
    ob.add_order(gtc(2, Side::Buy, 100, 2));
    ob.add_order(gtc(3, Side::Buy, 99, 2));
    let trades = ob.add_order(gtc(4, Side::Sell, 99, 5));
    assert_eq!(trades.len(), 2);
    assert_eq!(trades[0].get_bid_trade().order_id, 2);
    assert_eq!(trades[1].get_bid_trade().order_id, 3);
    assert_eq!(trades[0].get_ask_trade().price, 99);
    let infos = ob.get_order_infos();
    assert_eq!((infos.ask_infos[0].price, infos.ask_infos[0].quantity), (99, 1));
    assert_eq!((infos.bid_infos[0].price, infos.bid_infos[0].quantity), (98, 2));
}

#[test]
fn zero_quantity_order_is_not_accepted() {
    let mut ob = Orderbook::new();
    assert!(ob.add_order(gtc(1, Side::Buy, 100, 0)).is_empty());
    assert_eq!(ob.size(), 0);
}

#[test]
fn snapshot_lists_bids_in_ascending_price_order() {
    let mut ob = Orderbook::new();
    ob.add_order(gtc(1, Side::Buy, 1, 1));
    ob.add_order(gtc(2, Side::Buy, 2, 1));
    let bids: Vec<i32> = ob.get_order_infos().bid_infos.iter().map(|l| l.price).collect();
    assert_eq!(bids, vec![1, 2]);
}

#[test]
fn prune_keeps_the_queue_order_of_the_rest() {
    let mut ob = Orderbook::new();
    ob.add_order(gtc(1, Side::Sell, 100, 1));
    ob.add_order(Order::new(OrderType::GoodForDay, 2, Side::Sell, 100, 1));
    ob.add_order(gtc(3, Side::Sell, 100, 1));
    ob.add_order(Order::new(OrderType::GoodForDay, 4, Side::Sell, 101, 1));
    ob.prune_gfd_orders();
    let asks = ob.get_order_infos().ask_infos;
    assert_eq!(asks.len(), 1);
    assert_eq!((asks[0].price, asks[0].quantity), (100, 2));
    let trades = ob.add_order(gtc(5, Side::Buy, 100, 2));
    assert_eq!(trades[0].get_ask_trade().order_id, 1);
    assert_eq!(trades[1].get_ask_trade().order_id, 3);
}
