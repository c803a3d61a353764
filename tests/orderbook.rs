use orderbook::{Order, OrderModify, OrderType, Orderbook, Side};

#[test]
fn test_orderbook_new() {
    let orderbook = Orderbook::new();
    assert_eq!(orderbook.size(), 0)
}

#[test]
fn test_orderbook_add_order() {
    let mut orderbook = Orderbook::new();
    orderbook.add_order(Order::new(OrderType::GoodTillCancel, 1, Side::Buy, 100, 10));
    orderbook.add_order(Order::new(OrderType::GoodTillCancel, 2, Side::Buy, 100, 10));
    orderbook.add_order(Order::new(OrderType::GoodTillCancel, 3, Side::Buy, 100, 10));

    assert_eq!(orderbook.size(), 3);
}

#[test]
fn test_orderbook_cancel_order() {
    let mut orderbook = Orderbook::new();

    orderbook.add_order(Order::new(OrderType::GoodTillCancel, 1, Side::Buy, 100, 10));
    orderbook.add_order(Order::new(OrderType::GoodTillCancel, 2, Side::Buy, 100, 10));
    orderbook.add_order(Order::new(OrderType::GoodTillCancel, 3, Side::Buy, 100, 10));
    orderbook.cancel_order(1);
    orderbook.cancel_order(2);
    orderbook.cancel_order(3);

    assert_eq!(orderbook.size(), 0);
}

#[test]
fn test_order_modify_order() {
    let mut orderbook = Orderbook::new();
    orderbook.add_order(Order::new(OrderType::GoodTillCancel, 1, Side::Buy, 100, 10));
    orderbook.add_order(Order::new(OrderType::GoodTillCancel, 2, Side::Buy, 100, 10));

    let order_mod = OrderModify::new(2, Side::Sell, 100, 10);

    orderbook.modify_order(order_mod);
    assert_eq!(orderbook.size(), 0);
}

#[test]
fn test_orderbook_will_cancel_fnk() {
    let mut orderbook = Orderbook::new();

    orderbook.add_order(Order::new(OrderType::GoodTillCancel, 2, Side::Sell, 100, 10));
    orderbook.add_order(Order::new(OrderType::FillAndKill, 1, Side::Buy, 100, 10));

    orderbook.add_order(Order::new(OrderType::GoodTillCancel, 3, Side::Buy, 250, 5));
    orderbook.add_order(Order::new(OrderType::FillAndKill, 4, Side::Buy, 100, 10));

    assert_eq!(orderbook.size(), 1);
}

#[test]
fn test_orderbook_wont_match() {
    let mut ob1 = Orderbook::new();
    let mut ob2 = Orderbook::new();

    ob1.add_order(Order::new(OrderType::GoodTillCancel, 1, Side::Buy, 1, 1));
    ob1.add_order(Order::new(OrderType::GoodTillCancel, 2, Side::Buy, 1, 1));

    ob2.add_order(Order::new(OrderType::GoodTillCancel, 1, Side::Buy, 1, 1));
    ob2.add_order(Order::new(OrderType::GoodTillCancel, 2, Side::Sell, 2, 1));

    assert_eq!(ob1.size(), ob2.size());
}
