use swarm_economy::order_book::{Order, OrderBook, BASE_CAPACITY, NPC_AGENT_ID, PRICE_HISTORY_LEN};
use swarm_economy::types::{Commodity, Side};

#[derive(Debug, Clone, Copy, PartialEq)]
struct Terms {
    price: f32,
    quantity: f32,
}

#[derive(Debug, Clone, Copy, PartialEq)]
struct PriceRecord {
    tick: u32,
    price: f32,
    quantity: f32,
}

type Book = OrderBook<Terms, PriceRecord>;

fn buy_order(agent: u32, commodity: Commodity, price: f32, qty: f32, tick: u32) -> Order<Terms> {
    Order { agent_id: agent, commodity, side: Side::Buy, terms: Terms { price, quantity: qty }, tick_placed: tick, ttl: 200 }
}

fn sell_order(agent: u32, commodity: Commodity, price: f32, qty: f32, tick: u32) -> Order<Terms> {
    Order { agent_id: agent, commodity, side: Side::Sell, terms: Terms { price, quantity: qty }, tick_placed: tick, ttl: 200 }
}

fn book() -> Book {
    OrderBook::new(0, false)
}

#[test]
fn place_order_adds_to_book() {
    let mut ob = book();
    let order = buy_order(1, Commodity::Grain, 10.0, 5.0, 0);
    assert!(ob.place_order(order));
    assert_eq!(ob.order_count(Commodity::Grain, Side::Buy), 1);
}

#[test]
fn place_order_respects_capacity() {
    let mut ob = book();
    for i in 0..BASE_CAPACITY {
        assert!(ob.place_order(buy_order(i as u32, Commodity::Grain, 10.0, 1.0, 0)));
    }
    assert!(!ob.place_order(buy_order(999, Commodity::Grain, 10.0, 1.0, 0)));
}

#[test]
fn market_hall_doubles_capacity() {
    let mut ob: Book = OrderBook::new(0, true);
    for i in 0..(BASE_CAPACITY * 2) {
        assert!(ob.place_order(buy_order(i as u32, Commodity::Grain, 10.0, 1.0, 0)));
    }
    assert!(!ob.place_order(buy_order(9999, Commodity::Grain, 10.0, 1.0, 0)));
}

#[test]
fn set_market_hall_updates_capacity() {
    let mut ob = book();
    assert_eq!(ob.capacity(), BASE_CAPACITY);
    ob.set_market_hall(true);
    assert_eq!(ob.capacity(), BASE_CAPACITY * 2);
}

#[test]
fn expire_removes_old_orders() {
    let mut ob = book();
    ob.place_order(buy_order(1, Commodity::Grain, 10.0, 5.0, 0)); // ttl=200
    ob.place_order(buy_order(2, Commodity::Grain, 10.0, 5.0, 100));

    ob.expire_orders(200);
    // tick 0: age 200 >= ttl 200 → expired.
    // tick 100: age 100 < ttl 200 → kept.
    assert_eq!(ob.order_count(Commodity::Grain, Side::Buy), 1);
    assert_eq!(ob.orders(Commodity::Grain, Side::Buy)[0].agent_id, 2);
}

#[test]
fn expire_keeps_fresh_orders() {
    let mut ob = book();
    ob.place_order(sell_order(1, Commodity::Grain, 10.0, 5.0, 50));

    ob.expire_orders(100);
    assert_eq!(ob.order_count(Commodity::Grain, Side::Sell), 1);
}

#[test]
fn price_history_capped() {
    let mut ob = book();
    for tick in 0..2500u32 {
        ob.record_execution(Commodity::Grain, PriceRecord { tick, price: 10.0, quantity: 1.0 });
    }
    let history = ob.price_history(Commodity::Grain).unwrap();
    assert_eq!(history.len(), PRICE_HISTORY_LEN);
    assert_eq!(history[0].tick, 500);
    assert_eq!(ob.last_record(Commodity::Grain).unwrap().tick, 2499);
    assert!(ob.price_history(Commodity::Ore).is_none());
}

#[test]
fn take_and_replace_orders_isolate_one_side() {
    let mut ob = book();
    ob.place_order(buy_order(1, Commodity::Fish, 10.0, 5.0, 0));
    ob.place_order(sell_order(2, Commodity::Fish, 8.0, 5.0, 0));
    ob.place_order(buy_order(NPC_AGENT_ID, Commodity::Ore, 3.0, 1.0, 0));
    let buys = ob.take_orders(Commodity::Fish, Side::Buy);
    assert_eq!(buys.len(), 1);
    assert_eq!(ob.order_count(Commodity::Fish, Side::Buy), 0);
    assert_eq!(ob.order_count(Commodity::Fish, Side::Sell), 1);
    assert_eq!(ob.order_count(Commodity::Ore, Side::Buy), 1);
    let prev = ob.replace_orders(Commodity::Fish, Side::Buy, buys);
    assert!(prev.is_empty());
    assert_eq!(ob.order_count(Commodity::Fish, Side::Buy), 1);
    assert_eq!(ob.city_id(), 0);
}
