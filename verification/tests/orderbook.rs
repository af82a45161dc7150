use trade::BidOrAsk;
use trade::Order;
use trade::OrderBook;
use trade::Quantity;

#[test]
fn orderbook_fill_market_order_asks() {
    let mut orderbook = OrderBook::new();
    orderbook.add_limit_order(500, Order::new(BidOrAsk::Ask, Quantity::new(10, 0)));
    // This order should be matched and removed
    orderbook.add_limit_order(100, Order::new(BidOrAsk::Ask, Quantity::new(10, 0)));
    orderbook.add_limit_order(200, Order::new(BidOrAsk::Ask, Quantity::new(10, 0)));
    orderbook.add_limit_order(300, Order::new(BidOrAsk::Ask, Quantity::new(10, 0)));

    // Market order to match the ask at price 100
    let mut market_order = Order::new(BidOrAsk::Bid, Quantity::new(10, 0));
    orderbook.fill_market_order(&mut market_order);

    assert!(
        market_order.is_filled(),
        "Market order should be fully filled"
    );

    // After filling, the ask at price 100 should either be absent or empty
    if let Some(limit) = orderbook.ask_limit_at(100) {
        assert!(
            limit.orders.is_empty(),
            "Limit at price 100 should be empty after being matched"
        );
    } else {
        assert!(true, "Limit at price 100 correctly removed from OrderBook");
    }

    // The OrderBook still contains the other limits
    assert!(
        !orderbook.ask_limits().is_empty(),
        "OrderBook should still contain other asks"
    );
    assert!(
        orderbook.ask_limit_at(200).is_some(),
        "OrderBook should have an ask at price 200"
    );
    assert!(
        orderbook.ask_limit_at(300).is_some(),
        "OrderBook should have an ask at price 300"
    );
    assert!(
        orderbook.ask_limit_at(500).is_some(),
        "OrderBook should have an ask at price 500"
    );
}

#[test]
fn orderbook_no_orders_fill_market_order() {
    let mut orderbook = OrderBook::new();
    let mut market_order = Order::new(BidOrAsk::Bid, Quantity::new(10, 0));
    orderbook.fill_market_order(&mut market_order);

    assert!(!market_order.is_filled());
}

#[test]
fn orderbook_limit_order_sorting() {
    let mut orderbook = OrderBook::new();
    orderbook.add_limit_order(200, Order::new(BidOrAsk::Ask, Quantity::new(5, 0)));
    orderbook.add_limit_order(100, Order::new(BidOrAsk::Ask, Quantity::new(5, 0)));

    let ask_limits = orderbook.ask_limits();
    assert_eq!(ask_limits[0].price, 100);
    assert_eq!(ask_limits[1].price, 200);
}

#[test]
fn orderbook_partial_fill_market_order() {
    let mut orderbook = OrderBook::new();
    orderbook.add_limit_order(100, Order::new(BidOrAsk::Ask, Quantity::new(5, 0)));

    let mut market_order = Order::new(BidOrAsk::Bid, Quantity::new(10, 0));
    orderbook.fill_market_order(&mut market_order);

    assert!(!market_order.is_filled());
    assert_eq!(market_order.size, Quantity::new(5, 0));
}

#[test]
fn orderbook_multiple_fills_across_levels() {
    let mut orderbook = OrderBook::new();
    orderbook.add_limit_order(100, Order::new(BidOrAsk::Ask, Quantity::new(5, 0)));
    orderbook.add_limit_order(110, Order::new(BidOrAsk::Ask, Quantity::new(10, 0)));

    let mut market_order = Order::new(BidOrAsk::Bid, Quantity::new(12, 0));
    orderbook.fill_market_order(&mut market_order);

    // The market order was for 12.0 and 15.0 was available, so it is filled
    assert!(market_order.is_filled());

    // The remaining size in the order book at price 110 should be 3.0
    let remaining_limit_order = orderbook
        .ask_limit_at(110)
        .unwrap()
        .orders
        .get(0)
        .unwrap();
    assert_eq!(remaining_limit_order.size, Quantity::new(3, 0));
}

#[test]
fn orderbook_insertion_at_same_price() {
    let mut orderbook = OrderBook::new();
    let price = 100;
    orderbook.add_limit_order(price, Order::new(BidOrAsk::Ask, Quantity::new(5, 0)));
    orderbook.add_limit_order(price, Order::new(BidOrAsk::Ask, Quantity::new(10, 0)));

    assert_eq!(orderbook.ask_limit_at(price).unwrap().orders.len(), 2);
}

#[test]
fn orderbook_removes_empty_orders_after_filling() {
    let mut orderbook = OrderBook::new();

    // Add ask orders
    orderbook.add_limit_order(100, Order::new(BidOrAsk::Ask, Quantity::new(10, 0)));
    orderbook.add_limit_order(150, Order::new(BidOrAsk::Ask, Quantity::new(5, 0)));

    // A bid that matches and removes the first ask order
    let mut market_order_bid = Order::new(BidOrAsk::Bid, Quantity::new(10, 0));
    orderbook.fill_market_order(&mut market_order_bid);

    // The first ask level is filled and removed
    assert!(orderbook.ask_limit_at(100).is_none());

    // The other level is still present
    assert!(orderbook.ask_limit_at(150).is_some());
    assert_eq!(
        orderbook.ask_limit_at(150).unwrap().orders[0].size,
        Quantity::new(5, 0)
    );
}

#[test]
fn bid_side_sweeps_best_price_first() {
    // An incoming ask sweeps the bids from the highest price down.
    let mut orderbook = OrderBook::new();
    orderbook.add_limit_order(90, Order::new(BidOrAsk::Bid, Quantity::new(4, 0)));
    orderbook.add_limit_order(110, Order::new(BidOrAsk::Bid, Quantity::new(4, 0)));
    orderbook.add_limit_order(100, Order::new(BidOrAsk::Bid, Quantity::new(4, 0)));

    let bid_limits = orderbook.bid_limits();
    assert_eq!(bid_limits[0].price, 110);
    assert_eq!(bid_limits[1].price, 100);
    assert_eq!(bid_limits[2].price, 90);

    let mut market_order = Order::new(BidOrAsk::Ask, Quantity::new(6, 0));
    orderbook.fill_market_order(&mut market_order);

    assert!(market_order.is_filled());
    // The 110 level is gone, the 100 level is half consumed, 90 untouched.
    assert!(orderbook.bid_limit_at(110).is_none());
    assert_eq!(
        orderbook.bid_limit_at(100).unwrap().orders[0].size,
        Quantity::new(2, 0)
    );
    assert_eq!(
        orderbook.bid_limit_at(90).unwrap().orders[0].size,
        Quantity::new(4, 0)
    );
}

#[test]
fn remove_empty_limits_keeps_populated_levels() {
    let mut orderbook = OrderBook::new();
    orderbook.add_limit_order(100, Order::new(BidOrAsk::Ask, Quantity::new(1, 0)));
    orderbook.add_limit_order(110, Order::new(BidOrAsk::Bid, Quantity::new(1, 0)));

    orderbook.remove_empty_limits();

    assert_eq!(orderbook.ask_limits().len(), 1);
    assert_eq!(orderbook.bid_limits().len(), 1);
}
