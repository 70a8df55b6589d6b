use matching_engine::{
    Event, Level, LimitOrder, OrderEvent, OrderStatus, Orderbook, OrderbookError, RejectReason,
    Side, TradeEvent,
};

fn resting(order_id: u64, side: Side, price: u64, size: u64) -> LimitOrder {
    LimitOrder { order_id, price, size, cum_filled_size: 0, side }
}

fn order_event(
    status: OrderStatus,
    order_id: u64,
    filled_size: u64,
    cum_filled_size: u64,
    remaining_size: u64,
    price: u64,
    side: Side,
) -> OrderEvent {
    OrderEvent {
        status,
        order_id,
        filled_size,
        cum_filled_size,
        remaining_size,
        price,
        side,
        reject_reason: RejectReason::NoError,
    }
}

#[test]
fn test_best() {
    let mut ob = Orderbook::new();
    assert!(ob.best(Side::Bid).is_none());
    ob.limit(resting(1, Side::Bid, 1000, 10));
    assert!(ob
        .best(Side::Bid)
        .is_some_and(|best| best.price == 1000 && best.volume == 10));
    ob.cancel(1).unwrap();
    assert!(ob.best(Side::Bid).is_none());
}

#[test]
fn test_top_n() {
    let mut ob = Orderbook::new();
    assert_eq!(ob.top_n(Side::Bid, 5).len(), 0);
    ob.limit(resting(1, Side::Bid, 1000, 10));
    assert_eq!(ob.top_n(Side::Bid, 5).len(), 1);
    ob.cancel(1).unwrap();
    assert_eq!(ob.top_n(Side::Bid, 5).len(), 0);
}

#[test]
fn test_limit() {
    let mut ob = Orderbook::new();
    let mut size = ob.size(Side::Bid);
    assert_eq!(size, 0);
    ob.limit(resting(1, Side::Bid, 1000, 10));
    size = ob.size(Side::Bid);
    assert_eq!(size, 1);
}

#[test]
fn test_market() {
    let mut ob = Orderbook::new();
    let mut size = ob.size(Side::Bid);
    assert_eq!(size, 0);
    ob.limit(resting(1, Side::Bid, 1000, 10));
    size = ob.size(Side::Bid);
    assert_eq!(size, 1);
    ob.execute(2, Side::Ask, 10, 10, true);
    size = ob.size(Side::Bid);
    assert_eq!(size, 0);
}

#[test]
fn test_cancel() {
    let mut ob = Orderbook::new();
    let mut size = ob.size(Side::Bid);
    assert_eq!(size, 0);
    ob.limit(resting(1, Side::Bid, 1000, 10));
    size = ob.size(Side::Bid);
    assert_eq!(size, 1);
    ob.cancel(1).unwrap();
    size = ob.size(Side::Bid);
    assert_eq!(size, 0);
}

#[test]
fn test_amend_size() {
    let mut ob = Orderbook::new();
    ob.limit(resting(1, Side::Bid, 1000, 10));
    let mut order_size = ob.best(Side::Bid).unwrap().volume;
    assert_eq!(order_size, 10);
    ob.amend_size(1, 100).unwrap();
    order_size = ob.best(Side::Bid).unwrap().volume;
    assert_eq!(order_size, 100);
}

#[test]
fn new_book_is_empty_with_id_zero() {
    let mut ob = Orderbook::new();
    assert_eq!(ob.book_id(), 0);
    assert_eq!(ob.best(Side::Bid), None);
    assert_eq!(ob.best(Side::Ask), None);
    assert_eq!(ob.size(Side::Ask), 0);
    assert_eq!(ob.volume(Side::Bid), 0);
    assert!(ob.take_events().is_empty());
}

#[test]
fn with_id_marks_events() {
    let mut ob = Orderbook::new().with_id(42);
    assert_eq!(ob.book_id(), 42);
    ob.limit(resting(1, Side::Ask, 500, 3));
    assert_eq!(
        ob.take_events(),
        vec![Event::Order {
            id: 42,
            event: order_event(OrderStatus::Created, 1, 0, 0, 3, 500, Side::Ask),
        }]
    );
    assert!(ob.take_events().is_empty());
}

#[test]
fn limit_reports_created_with_earlier_fills() {
    let mut ob = Orderbook::new();
    ob.limit(LimitOrder { order_id: 9, price: 77, size: 4, cum_filled_size: 6, side: Side::Bid });
    assert_eq!(
        ob.take_events(),
        vec![Event::Order {
            id: 0,
            event: order_event(OrderStatus::Created, 9, 6, 6, 4, 77, Side::Bid),
        }]
    );
}

#[test]
fn market_against_empty_book_is_rejected() {
    let mut ob = Orderbook::new();
    let remaining = ob.execute(5, Side::Ask, 10, 10, true);
    assert_eq!(remaining, 10);
    assert_eq!(
        ob.take_events(),
        vec![Event::Order {
            id: 0,
            event: OrderEvent {
                status: OrderStatus::Rejected,
                order_id: 5,
                filled_size: 0,
                cum_filled_size: 0,
                remaining_size: 10,
                price: 0,
                side: Side::Ask,
                reject_reason: RejectReason::NoLiquidity,
            },
        }]
    );
}

#[test]
fn limit_execution_against_empty_book_is_silent() {
    let mut ob = Orderbook::new();
    let remaining = ob.execute(5, Side::Bid, 10, 10, false);
    assert_eq!(remaining, 10);
    assert!(ob.take_events().is_empty());
}

#[test]
fn cancel_then_cancel_again() {
    let mut ob = Orderbook::new();
    ob.limit(resting(1, Side::Bid, 1000, 10));
    ob.take_events();
    assert_eq!(ob.cancel(1), Ok(()));
    assert_eq!(
        ob.take_events(),
        vec![Event::Order {
            id: 0,
            event: order_event(OrderStatus::Cancelled, 1, 0, 0, 10, 1000, Side::Bid),
        }]
    );
    assert_eq!(ob.cancel(1), Err(OrderbookError::OrderNotFound));
    assert!(ob.take_events().is_empty());
    assert_eq!(ob.amend_size(1, 5), Err(OrderbookError::OrderNotFound));
    assert!(ob.take_events().is_empty());
}

#[test]
fn cancel_unknown_leaves_book_unchanged() {
    let mut ob = Orderbook::new();
    ob.limit(resting(1, Side::Bid, 1000, 10));
    ob.limit(resting(2, Side::Ask, 1010, 7));
    ob.take_events();
    assert_eq!(ob.cancel(99), Err(OrderbookError::OrderNotFound));
    assert_eq!(ob.best(Side::Bid), Some(Level { price: 1000, volume: 10, orders: 1 }));
    assert_eq!(ob.best(Side::Ask), Some(Level { price: 1010, volume: 7, orders: 1 }));
    assert_eq!(ob.size(Side::Bid), 1);
    assert_eq!(ob.size(Side::Ask), 1);
    assert!(ob.take_events().is_empty());
}

#[test]
fn time_priority_fifo() {
    let mut ob = Orderbook::new();
    ob.limit(resting(1, Side::Bid, 1000, 10));
    ob.limit(resting(2, Side::Bid, 1000, 10));
    ob.take_events();
    let remaining = ob.execute(3, Side::Ask, 10, 10, true);
    assert_eq!(remaining, 0);
    assert_eq!(
        ob.take_events(),
        vec![
            Event::Trade {
                id: 0,
                event: TradeEvent {
                    size: 10,
                    price: 1000,
                    side: Side::Ask,
                    buyer_order_id: 1,
                    seller_order_id: 3,
                },
            },
            Event::Order {
                id: 0,
                event: order_event(OrderStatus::Filled, 1, 10, 10, 0, 1000, Side::Bid),
            },
            Event::Order {
                id: 0,
                event: order_event(OrderStatus::Filled, 3, 10, 10, 0, 0, Side::Ask),
            },
        ]
    );
    assert!(!ob.contains(1));
    assert!(ob.contains(2));
    assert_eq!(ob.best(Side::Bid), Some(Level { price: 1000, volume: 10, orders: 1 }));
}

#[test]
fn amend_up_loses_priority() {
    let mut ob = Orderbook::new();
    ob.limit(resting(1, Side::Bid, 1000, 10));
    ob.limit(resting(2, Side::Bid, 1000, 10));
    assert_eq!(ob.amend_size(1, 20), Ok(()));
    assert_eq!(ob.best(Side::Bid), Some(Level { price: 1000, volume: 30, orders: 2 }));
    ob.take_events();
    let remaining = ob.execute(3, Side::Ask, 10, 10, true);
    assert_eq!(remaining, 0);
    let events = ob.take_events();
    assert_eq!(
        events[0],
        Event::Trade {
            id: 0,
            event: TradeEvent {
                size: 10,
                price: 1000,
                side: Side::Ask,
                buyer_order_id: 2,
                seller_order_id: 3,
            },
        }
    );
    assert_eq!(
        events[1],
        Event::Order {
            id: 0,
            event: order_event(OrderStatus::Filled, 2, 10, 10, 0, 1000, Side::Bid),
        }
    );
    assert!(ob.contains(1));
    assert!(!ob.contains(2));
    assert_eq!(ob.volume(Side::Bid), 20);
}

#[test]
fn amend_down_keeps_priority() {
    let mut ob = Orderbook::new();
    ob.limit(resting(1, Side::Bid, 1000, 10));
    ob.limit(resting(2, Side::Bid, 1000, 10));
    assert_eq!(ob.amend_size(1, 4), Ok(()));
    assert_eq!(ob.best(Side::Bid), Some(Level { price: 1000, volume: 14, orders: 2 }));
    ob.take_events();
    let remaining = ob.execute(3, Side::Ask, 4, 4, false);
    assert_eq!(remaining, 0);
    assert_eq!(
        ob.take_events(),
        vec![
            Event::Trade {
                id: 0,
                event: TradeEvent {
                    size: 4,
                    price: 1000,
                    side: Side::Ask,
                    buyer_order_id: 1,
                    seller_order_id: 3,
                },
            },
            Event::Order {
                id: 0,
                event: order_event(OrderStatus::Filled, 1, 4, 4, 0, 1000, Side::Bid),
            },
        ]
    );
}

#[test]
fn amend_to_same_size_keeps_place() {
    let mut ob = Orderbook::new();
    ob.limit(resting(1, Side::Ask, 1000, 10));
    ob.limit(resting(2, Side::Ask, 1000, 10));
    assert_eq!(ob.amend_size(1, 10), Ok(()));
    ob.take_events();
    ob.execute(3, Side::Bid, 1, 1, false);
    let events = ob.take_events();
    assert_eq!(
        events[1],
        Event::Order {
            id: 0,
            event: order_event(OrderStatus::PartiallyFilled, 1, 1, 1, 9, 1000, Side::Ask),
        }
    );
}

#[test]
fn amend_rejects_size_not_above_filled() {
    let mut ob = Orderbook::new();
    ob.limit(resting(1, Side::Ask, 1000, 10));
    ob.execute(2, Side::Bid, 4, 4, false);
    ob.take_events();
    assert_eq!(ob.amend_size(1, 0), Err(OrderbookError::InvalidOrderSize));
    assert_eq!(ob.amend_size(1, 4), Err(OrderbookError::InvalidOrderSize));
    assert_eq!(ob.best(Side::Ask), Some(Level { price: 1000, volume: 6, orders: 1 }));
    assert_eq!(ob.amend_size(1, 5), Ok(()));
    assert_eq!(ob.best(Side::Ask), Some(Level { price: 1000, volume: 1, orders: 1 }));
    assert!(ob.take_events().is_empty());
}

#[test]
fn cancel_after_partial_fill() {
    let mut ob = Orderbook::new();
    ob.limit(resting(1, Side::Ask, 1000, 10));
    ob.execute(2, Side::Bid, 4, 4, false);
    ob.take_events();
    assert_eq!(ob.cancel(1), Ok(()));
    assert_eq!(
        ob.take_events(),
        vec![Event::Order {
            id: 0,
            event: order_event(
                OrderStatus::PartiallyFilledCancelled,
                1,
                0,
                4,
                6,
                1000,
                Side::Ask
            ),
        }]
    );
    assert_eq!(ob.best(Side::Ask), None);
}

#[test]
fn partial_market_with_residual() {
    let mut ob = Orderbook::new();
    ob.limit(resting(1, Side::Ask, 6280505, 1));
    ob.take_events();
    let remaining = ob.execute(7, Side::Bid, 5, 5, true);
    assert_eq!(remaining, 4);
    assert_eq!(
        ob.take_events(),
        vec![
            Event::Trade {
                id: 0,
                event: TradeEvent {
                    size: 1,
                    price: 6280505,
                    side: Side::Bid,
                    buyer_order_id: 7,
                    seller_order_id: 1,
                },
            },
            Event::Order {
                id: 0,
                event: order_event(OrderStatus::Filled, 1, 1, 1, 0, 6280505, Side::Ask),
            },
            Event::Order {
                id: 0,
                event: order_event(
                    OrderStatus::PartiallyFilledCancelled,
                    7,
                    1,
                    1,
                    4,
                    0,
                    Side::Bid
                ),
            },
        ]
    );
    assert_eq!(ob.best(Side::Ask), None);
    assert_eq!(ob.size(Side::Ask), 0);
}

#[test]
fn execute_walks_levels_from_best_outward() {
    let mut ob = Orderbook::new();
    ob.limit(resting(1, Side::Ask, 102, 5));
    ob.limit(resting(2, Side::Ask, 100, 5));
    ob.limit(resting(3, Side::Ask, 101, 5));
    ob.limit(resting(4, Side::Ask, 100, 2));
    assert_eq!(
        ob.top_n(Side::Ask, 10),
        vec![
            Level { price: 100, volume: 7, orders: 2 },
            Level { price: 101, volume: 5, orders: 1 },
            Level { price: 102, volume: 5, orders: 1 },
        ]
    );
    assert_eq!(ob.top_n(Side::Ask, 2).len(), 2);
    assert_eq!(ob.top_n(Side::Ask, 0).len(), 0);
    ob.take_events();
    let remaining = ob.execute(9, Side::Bid, 9, 9, false);
    assert_eq!(remaining, 0);
    let events = ob.take_events();
    let makers: Vec<(u64, u64, OrderStatus)> = events
        .iter()
        .filter_map(|e| match e {
            Event::Order { event, .. } => Some((event.order_id, event.filled_size, event.status)),
            Event::Trade { .. } => None,
        })
        .collect();
    assert_eq!(
        makers,
        vec![
            (2, 5, OrderStatus::Filled),
            (4, 2, OrderStatus::Filled),
            (3, 2, OrderStatus::PartiallyFilled),
        ]
    );
    assert_eq!(
        ob.top_n(Side::Ask, 10),
        vec![
            Level { price: 101, volume: 3, orders: 1 },
            Level { price: 102, volume: 5, orders: 1 },
        ]
    );
    assert_eq!(ob.volume(Side::Ask), 8);
    assert_eq!(ob.size(Side::Ask), 2);
}

#[test]
fn bids_walk_from_highest_price_down() {
    let mut ob = Orderbook::new();
    ob.limit(resting(1, Side::Bid, 100, 1));
    ob.limit(resting(2, Side::Bid, 102, 2));
    ob.limit(resting(3, Side::Bid, 101, 3));
    assert_eq!(
        ob.top_n(Side::Bid, 3),
        vec![
            Level { price: 102, volume: 2, orders: 1 },
            Level { price: 101, volume: 3, orders: 1 },
            Level { price: 100, volume: 1, orders: 1 },
        ]
    );
    assert_eq!(ob.best(Side::Bid), Some(Level { price: 102, volume: 2, orders: 1 }));
}

#[test]
fn every_trade_is_followed_by_its_maker_event() {
    let mut ob = Orderbook::new();
    ob.limit(resting(1, Side::Bid, 100, 3));
    ob.limit(resting(2, Side::Bid, 99, 3));
    ob.take_events();
    ob.execute(3, Side::Ask, 5, 5, false);
    let events = ob.take_events();
    assert_eq!(events.len(), 4);
    for pair in events.chunks(2) {
        match (&pair[0], &pair[1]) {
            (Event::Trade { event: t, .. }, Event::Order { event: o, .. }) => {
                assert_eq!(t.buyer_order_id, o.order_id);
                assert_eq!(t.seller_order_id, 3);
                assert_eq!(t.price, o.price);
                assert_eq!(t.size, o.filled_size);
            }
            _ => panic!("a trade and then an order event were expected"),
        }
    }
}

#[test]
fn volume_is_the_sum_of_the_levels() {
    let mut ob = Orderbook::new();
    ob.limit(resting(1, Side::Bid, 100, 3));
    ob.limit(resting(2, Side::Bid, 99, 4));
    ob.limit(resting(3, Side::Bid, 100, 5));
    ob.execute(4, Side::Ask, 2, 2, false);
    ob.amend_size(2, 10).unwrap();
    ob.cancel(3).unwrap();
    let levels = ob.top_n(Side::Bid, 10);
    let total: u64 = levels.iter().map(|l| l.volume).sum();
    let count: u64 = levels.iter().map(|l| l.orders).sum();
    assert_eq!(total, ob.volume(Side::Bid));
    assert_eq!(total, 11);
    assert_eq!(count, ob.size(Side::Bid));
    assert_eq!(count, 2);
}

#[test]
fn side_inverse() {
    assert_eq!(Side::Bid.inverse(), Side::Ask);
    assert_eq!(Side::Ask.inverse(), Side::Bid);
}

#[test]
fn error_messages() {
    assert_eq!(OrderbookError::OrderNotFound.message(), "Order is not found");
    assert_eq!(OrderbookError::InvalidOrderSize.message(), "Order size <= 0");
}

#[test]
fn orders_are_found_by_id_at_any_level() {
    let mut ob = Orderbook::new();
    ob.limit(resting(1, Side::Ask, 105, 1));
    ob.limit(resting(2, Side::Ask, 103, 2));
    ob.limit(resting(3, Side::Ask, 103, 3));
    ob.limit(resting(4, Side::Bid, 101, 4));
    ob.limit(resting(5, Side::Ask, 104, 5));
    assert_eq!(ob.amend_size(3, 1), Ok(()));
    assert_eq!(ob.cancel(5), Ok(()));
    assert_eq!(ob.cancel(5), Err(OrderbookError::OrderNotFound));
    assert_eq!(ob.cancel(4), Ok(()));
    assert_eq!(ob.best(Side::Bid), None);
    assert_eq!(
        ob.top_n(Side::Ask, 5),
        vec![
            Level { price: 103, volume: 3, orders: 2 },
            Level { price: 105, volume: 1, orders: 1 },
        ]
    );
    ob.execute(6, Side::Bid, 3, 3, false);
    assert!(!ob.contains(2));
    assert!(!ob.contains(3));
    assert!(ob.contains(1));
    assert_eq!(ob.cancel(2), Err(OrderbookError::OrderNotFound));
    assert_eq!(ob.amend_size(3, 9), Err(OrderbookError::OrderNotFound));
    assert_eq!(ob.amend_size(1, 7), Ok(()));
    assert_eq!(ob.best(Side::Ask), Some(Level { price: 105, volume: 7, orders: 1 }));
}
