use trade::BidOrAsk;
use trade::Limit;
use trade::Order;
use trade::Quantity;

#[test]
fn limit_order_single_fill() {
    let price = 10000;
    let mut limit = Limit::new(price);

    let buy_limit_order = Order::new(BidOrAsk::Bid, Quantity::new(100, 0));
    limit.add_order(buy_limit_order);

    let mut market_sell_order = Order::new(BidOrAsk::Ask, Quantity::new(99, 0));
    limit.fill_order(&mut market_sell_order);

    assert_eq!(market_sell_order.is_filled(), true);
    assert_eq!(limit.orders.get(0).unwrap().size, Quantity::new(1, 0));

    println!("{:?}", limit);
}

#[test]
fn limit_order_multi_fill() {
    let price = 10000;
    let mut limit = Limit::new(price);

    // Add two orders of 100 units each
    let buy_limit_order_1 = Order::new(BidOrAsk::Bid, Quantity::new(100, 0));
    let buy_limit_order_2 = Order::new(BidOrAsk::Bid, Quantity::new(100, 0));
    limit.add_order(buy_limit_order_1);
    limit.add_order(buy_limit_order_2);

    // Market order to sell 199 units: fully fills the first order and
    // partially fills the second
    let mut market_sell_order = Order::new(BidOrAsk::Ask, Quantity::new(199, 0));
    limit.fill_order(&mut market_sell_order);

    assert!(
        market_sell_order.is_filled(),
        "Market sell order should be fully filled"
    );
    assert_eq!(
        limit.orders.len(),
        1,
        "There should be only one order remaining in the limit"
    );
    assert_eq!(
        limit.orders[0].size,
        Quantity::new(1, 0),
        "The remaining order should have 1.0 units left unfilled"
    );
}

#[test]
fn limit_total_volume() {
    let price = 10000;
    let mut limit = Limit::new(price);

    let buy_limit_order_1 = Order::new(BidOrAsk::Bid, Quantity::new(100, 0));
    let buy_limit_order_2 = Order::new(BidOrAsk::Bid, Quantity::new(100, 0));

    limit.add_order(buy_limit_order_1);
    limit.add_order(buy_limit_order_2);

    assert_eq!(limit.total_volume(), Quantity::new(200, 0));
}

#[test]
fn limit_removes_filled_orders() {
    let price = 10000;
    let mut limit = Limit::new(price);

    // One order that will be completely filled, and one that will not
    let fully_filled_order = Order::new(BidOrAsk::Bid, Quantity::new(50, 0));
    let partially_filled_order = Order::new(BidOrAsk::Bid, Quantity::new(100, 0));
    limit.add_order(fully_filled_order);
    limit.add_order(partially_filled_order);

    // A market sell order that fully fills the first limit order
    let mut market_sell_order = Order::new(BidOrAsk::Ask, Quantity::new(50, 0));
    limit.fill_order(&mut market_sell_order);

    // The fully filled order is removed
    assert_eq!(limit.orders.len(), 1);

    // The remaining order is the partially filled one
    assert_eq!(limit.orders[0].size, Quantity::new(100, 0));
}

#[test]
fn fractional_sizes_fill_exactly() {
    // Fixed-point quantities keep zero exactly across repeated subtraction.
    let mut limit = Limit::new(10);
    limit.add_order(Order::new(BidOrAsk::Bid, Quantity::new(0, 75)));
    limit.add_order(Order::new(BidOrAsk::Bid, Quantity::new(0, 75)));

    let mut market_order = Order::new(BidOrAsk::Ask, Quantity::new(1, 50));
    limit.fill_order(&mut market_order);

    assert!(market_order.is_filled());
    assert!(limit.orders.is_empty());
}

#[test]
fn remove_filled_orders_drops_only_zero_sizes() {
    let mut limit = Limit::new(42);
    limit.add_order(Order::new(BidOrAsk::Bid, Quantity::new(1, 0)));
    limit.add_order(Order::new(BidOrAsk::Bid, Quantity::new(0, 0)));
    limit.add_order(Order::new(BidOrAsk::Bid, Quantity::new(2, 0)));

    limit.remove_filled_orders();

    assert_eq!(limit.orders.len(), 2);
    assert_eq!(limit.orders[0].size, Quantity::new(1, 0));
    assert_eq!(limit.orders[1].size, Quantity::new(2, 0));
}
