use matching_engine::matcher::scale_factor;
use matching_engine::{
    deliver, Event, Handler, IdGenerator, Level, Matcher, MatcherError, Order, OrderEvent,
    OrderStatus, OrderbookError, RejectReason, Side, StdOutHandler, Symbol, SymbolMetadata,
    SymbolTable, TCPPublisher, TradeEvent,
};

fn btc() -> SymbolMetadata {
    SymbolMetadata { symbol: String::from("BTCUSDT"), price_precision: 2, size_precision: 3 }
}

fn ticks(value: f64, scale: u32) -> u64 {
    (value * scale as f64).round() as u64
}

fn created(order_id: u64, cum: u64, remaining: u64, price: u64, side: Side) -> Event {
    Event::Order {
        id: 0,
        event: OrderEvent {
            status: OrderStatus::Created,
            order_id,
            filled_size: cum,
            cum_filled_size: cum,
            remaining_size: remaining,
            price,
            side,
            reject_reason: RejectReason::NoError,
        },
    }
}

#[test]
fn id_generator_counts_from_one() {
    let mut ids = IdGenerator::new();
    assert_eq!(ids.next_id(), 1);
    assert_eq!(ids.next_id(), 2);
    assert_eq!(ids.next_id(), 3);
}

#[test]
fn scale_factors() {
    assert_eq!(scale_factor(0), 1);
    assert_eq!(scale_factor(2), 100);
    assert_eq!(scale_factor(3), 1000);
    assert_eq!(scale_factor(9), 1_000_000_000);
    assert_eq!(btc().price_scale(), 100);
    assert_eq!(btc().size_scale(), 1000);
}

#[test]
fn simple_cross() {
    let mut m = Matcher::new();
    m.add_symbol(Symbol::btcusdt(), btc()).unwrap();
    let meta = btc();
    let price = ticks(62805.05, meta.price_scale());
    let bid_size = ticks(0.001, meta.size_scale());
    let ask_size = ticks(0.002, meta.size_scale());
    assert_eq!((price, bid_size, ask_size), (6280505, 1, 2));

    m.order(Symbol::btcusdt(), Order { size: bid_size, price, side: Side::Bid }).unwrap();
    m.order(Symbol::btcusdt(), Order { size: ask_size, price, side: Side::Ask }).unwrap();

    assert_eq!(
        m.take_events(Symbol::btcusdt()).unwrap(),
        vec![
            created(1, 0, 1, 6280505, Side::Bid),
            Event::Trade {
                id: 0,
                event: TradeEvent {
                    size: 1,
                    price: 6280505,
                    side: Side::Ask,
                    buyer_order_id: 1,
                    seller_order_id: 2,
                },
            },
            Event::Order {
                id: 0,
                event: OrderEvent {
                    status: OrderStatus::Filled,
                    order_id: 1,
                    filled_size: 1,
                    cum_filled_size: 1,
                    remaining_size: 0,
                    price: 6280505,
                    side: Side::Bid,
                    reject_reason: RejectReason::NoError,
                },
            },
            created(2, 1, 1, 6280505, Side::Ask),
        ]
    );
    let book = m.get_orderbook(Symbol::btcusdt()).unwrap();
    assert_eq!(book.best(Side::Bid), None);
    assert_eq!(book.best(Side::Ask), Some(Level { price: 6280505, volume: 1, orders: 1 }));
}

#[test]
fn market_order_on_empty_book() {
    let mut m = Matcher::new();
    m.add_symbol(Symbol::btcusdt(), btc()).unwrap();
    m.order(Symbol::btcusdt(), Order { size: 10, price: 0, side: Side::Ask }).unwrap();
    assert_eq!(
        m.take_events(Symbol::btcusdt()).unwrap(),
        vec![Event::Order {
            id: 0,
            event: OrderEvent {
                status: OrderStatus::Rejected,
                order_id: 1,
                filled_size: 0,
                cum_filled_size: 0,
                remaining_size: 10,
                price: 0,
                side: Side::Ask,
                reject_reason: RejectReason::NoLiquidity,
            },
        }]
    );
    let book = m.get_orderbook(Symbol::btcusdt()).unwrap();
    assert_eq!(book.size(Side::Ask), 0);
    assert_eq!(book.size(Side::Bid), 0);
}

#[test]
fn limit_order_that_does_not_cross_rests() {
    let mut m = Matcher::new();
    m.add_symbol(Symbol::btcusdt(), btc()).unwrap();
    m.order(Symbol::btcusdt(), Order { size: 5, price: 100, side: Side::Ask }).unwrap();
    m.order(Symbol::btcusdt(), Order { size: 5, price: 99, side: Side::Bid }).unwrap();
    assert_eq!(
        m.take_events(Symbol::btcusdt()).unwrap(),
        vec![created(1, 0, 5, 100, Side::Ask), created(2, 0, 5, 99, Side::Bid)]
    );
    let book = m.get_orderbook(Symbol::btcusdt()).unwrap();
    assert_eq!(book.best(Side::Bid).unwrap().price, 99);
    assert_eq!(book.best(Side::Ask).unwrap().price, 100);
}

#[test]
fn limit_order_through_the_best_price_trades_at_the_makers_price() {
    let mut m = Matcher::new();
    m.add_symbol(Symbol::btcusdt(), btc()).unwrap();
    m.order(Symbol::btcusdt(), Order { size: 5, price: 100, side: Side::Ask }).unwrap();
    m.order(Symbol::btcusdt(), Order { size: 3, price: 105, side: Side::Bid }).unwrap();
    let events = m.take_events(Symbol::btcusdt()).unwrap();
    assert_eq!(events.len(), 3);
    assert_eq!(
        events[1],
        Event::Trade {
            id: 0,
            event: TradeEvent {
                size: 3,
                price: 100,
                side: Side::Bid,
                buyer_order_id: 2,
                seller_order_id: 1,
            },
        }
    );
    let book = m.get_orderbook(Symbol::btcusdt()).unwrap();
    assert_eq!(book.best(Side::Bid), None);
    assert_eq!(book.best(Side::Ask), Some(Level { price: 100, volume: 2, orders: 1 }));
}

#[test]
fn unknown_symbol_is_an_error_and_uses_no_id() {
    let mut m = Matcher::new();
    m.add_symbol(Symbol::btcusdt(), btc()).unwrap();
    assert_eq!(
        m.order(Symbol::ethusdt(), Order { size: 1, price: 1, side: Side::Bid }),
        Err(MatcherError::SymbolNotFound(Symbol::ethusdt()))
    );
    assert_eq!(m.cancel(Symbol::ethusdt(), 1), Err(MatcherError::SymbolNotFound(Symbol(1))));
    assert_eq!(
        m.amend_size(Symbol::adausdt(), 1, 5),
        Err(MatcherError::SymbolNotFound(Symbol(2)))
    );
    assert!(m.get_orderbook(Symbol::ethusdt()).is_none());
    assert_eq!(
        m.take_events(Symbol::ethusdt()),
        Err(MatcherError::SymbolNotFound(Symbol::ethusdt()))
    );
    m.order(Symbol::btcusdt(), Order { size: 1, price: 1, side: Side::Bid }).unwrap();
    assert!(m.get_orderbook(Symbol::btcusdt()).unwrap().contains(1));
}

#[test]
fn a_symbol_is_registered_once() {
    let mut m = Matcher::new();
    assert_eq!(m.add_symbol(Symbol::btcusdt(), btc()), Ok(()));
    m.order(Symbol::btcusdt(), Order { size: 1, price: 10, side: Side::Bid }).unwrap();
    assert_eq!(
        m.add_symbol(Symbol::btcusdt(), btc()),
        Err(MatcherError::SymbolExists(Symbol::btcusdt()))
    );
    assert_eq!(m.get_orderbook(Symbol::btcusdt()).unwrap().size(Side::Bid), 1);
}

#[test]
fn books_carry_their_symbol_and_are_independent() {
    let mut m = Matcher::new();
    m.add_symbol(Symbol::ethusdt(), btc()).unwrap();
    m.add_symbol(Symbol::btcusdt(), btc()).unwrap();
    m.order(Symbol::ethusdt(), Order { size: 1, price: 10, side: Side::Bid }).unwrap();
    m.order(Symbol::btcusdt(), Order { size: 2, price: 10, side: Side::Ask }).unwrap();
    assert_eq!(m.get_orderbook(Symbol::ethusdt()).unwrap().book_id(), 1);
    assert_eq!(m.get_orderbook(Symbol::btcusdt()).unwrap().book_id(), 0);
    assert_eq!(m.get_orderbook(Symbol::ethusdt()).unwrap().size(Side::Ask), 0);
    assert_eq!(m.get_orderbook(Symbol::btcusdt()).unwrap().size(Side::Ask), 1);
    let table = m.get_symbol_table();
    assert_eq!(table.len(), 2);
    assert_eq!(table[0].0, 1);
    assert_eq!(table[1].0, 0);
    assert_eq!(table[0].1.price_precision, 2);
    let events = m.take_events(Symbol::btcusdt()).unwrap();
    assert_eq!(events.len(), 1);
    match events[0] {
        Event::Order { id, event } => {
            assert_eq!(id, 0);
            assert_eq!(event.order_id, 2);
        }
        Event::Trade { .. } => panic!("no trade was expected"),
    }
}

#[test]
fn cancel_and_amend_through_the_matcher() {
    let mut m = Matcher::new();
    m.add_symbol(Symbol::btcusdt(), btc()).unwrap();
    m.order(Symbol::btcusdt(), Order { size: 10, price: 1000, side: Side::Bid }).unwrap();
    assert_eq!(m.amend_size(Symbol::btcusdt(), 1, 100), Ok(()));
    assert_eq!(m.get_orderbook(Symbol::btcusdt()).unwrap().volume(Side::Bid), 100);
    assert_eq!(
        m.amend_size(Symbol::btcusdt(), 1, 0),
        Err(MatcherError::Orderbook(OrderbookError::InvalidOrderSize))
    );
    assert_eq!(m.cancel(Symbol::btcusdt(), 1), Ok(()));
    assert_eq!(
        m.cancel(Symbol::btcusdt(), 1),
        Err(MatcherError::Orderbook(OrderbookError::OrderNotFound))
    );
    assert_eq!(
        m.amend_size(Symbol::btcusdt(), 1, 5),
        Err(MatcherError::Orderbook(OrderbookError::OrderNotFound))
    );
}

#[test]
fn symbol_table_insert_get_remove() {
    let mut t = SymbolTable::new();
    assert_eq!(t.get(Symbol(7)), None);
    assert_eq!(t.insert(Symbol(7), 3), None);
    assert_eq!(t.get(Symbol(7)), Some(3));
    assert_eq!(t.get(Symbol(3)), None);
    assert_eq!(t.insert(Symbol(7), 4), Some(3));
    assert_eq!(t.get(Symbol(7)), Some(4));
    assert_eq!(t.insert(Symbol(8), 9), None);
    assert_eq!(t.remove(Symbol(7)), Some(4));
    assert_eq!(t.get(Symbol(7)), None);
    assert_eq!(t.remove(Symbol(7)), None);
    assert_eq!(t.get(Symbol(8)), Some(9));
}

#[test]
fn symbols_and_tickers() {
    assert_eq!(Symbol::btcusdt(), Symbol(0));
    assert_eq!(Symbol::ethusdt().id(), 1);
    assert_eq!(Symbol::from_repr(2), Some(Symbol::adausdt()));
    assert_eq!(Symbol::from_repr(3), None);
    assert_eq!(Symbol(0).ticker(), Some("BTCUSDT"));
    assert_eq!(Symbol(1).ticker(), Some("ETHUSDT"));
    assert_eq!(Symbol(2).ticker(), Some("ADAUSDT"));
    assert_eq!(Symbol(3).ticker(), None);
}

#[test]
fn stdout_handler_counts_and_labels() {
    let mut h = StdOutHandler::new();
    assert_eq!(h.label(0), None);
    assert_eq!(h.count(), 1);
    assert_eq!(h.count(), 2);
    let mut h = h.with_id_as_symbol(true);
    assert_eq!(h.label(0), Some("BTCUSDT"));
    assert_eq!(h.label(2), Some("ADAUSDT"));
    assert_eq!(h.label(5), None);
    assert_eq!(h.count(), 3);
}

struct Recorder;

impl Handler for Recorder {
    type Ctx = Vec<String>;

    fn on_order(ctx: &mut Vec<String>, id: u64, event: OrderEvent) {
        ctx.push(format!("order {} {}", id, event.order_id));
    }

    fn on_trade(ctx: &mut Vec<String>, id: u64, event: TradeEvent) {
        ctx.push(format!("trade {} {}", id, event.size));
    }
}

#[test]
fn deliver_keeps_the_order_of_events() {
    let mut m = Matcher::new();
    m.add_symbol(Symbol::btcusdt(), btc()).unwrap();
    m.order(Symbol::btcusdt(), Order { size: 2, price: 10, side: Side::Bid }).unwrap();
    m.order(Symbol::btcusdt(), Order { size: 1, price: 0, side: Side::Ask }).unwrap();
    let events = m.take_events(Symbol::btcusdt()).unwrap();
    let mut seen: Vec<String> = Vec::new();
    deliver::<Recorder>(&mut seen, &events);
    assert_eq!(seen, vec!["order 0 1", "trade 0 1", "order 0 1", "order 0 2"]);
}

#[test]
fn publisher_numbers_trades_and_skips_order_events() {
    let mut p = TCPPublisher::new();
    let order = created(1, 0, 1, 5, Side::Bid);
    assert_eq!(p.frame(&order, 0), None);
    let trade = Event::Trade {
        id: 1,
        event: TradeEvent { size: 2, price: 3, side: Side::Ask, buyer_order_id: 4, seller_order_id: 5 },
    };
    let first = p.frame(&trade, 6).unwrap();
    let second = p.frame(&trade, 6).unwrap();
    assert_eq!(first.len(), 65);
    assert_eq!(first[8], 1);
    assert_eq!(second[8], 2);
    assert_eq!(first[16], 1);
    assert_eq!(first[9..], second[9..]);
}
