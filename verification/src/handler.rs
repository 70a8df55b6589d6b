//! Consumers of the events that the books record.

use vstd::prelude::*;
use crate::ende::{trade_bytes, trade_of_event, Encoder};
use crate::matcher::IdGenerator;
use crate::symbol_table::Symbol;
use crate::types::{Event, OrderEvent, TradeEvent};

verus! {

/// A consumer of events: one entry for order events, one for trades, each
/// with the id of the book that the event came from. A handler must not
/// call back into the book.
pub trait Handler {
    type Ctx;

    /// What the handler says of itself: whether taking `event` can turn the
    /// context `before` into the context `after`. Each handler chooses this
    /// relation; one that says nothing of its context lets it hold always,
    /// as it does where a handler does not choose.
    open spec fn takes(before: Self::Ctx, after: Self::Ctx, event: Event) -> bool {
        true
    }

    fn on_order(ctx: &mut Self::Ctx, id: u64, event: OrderEvent)
        ensures
            Self::takes(*old(ctx), *final(ctx), (Event::Order { id, event })),
    ;

    fn on_trade(ctx: &mut Self::Ctx, id: u64, event: TradeEvent)
        ensures
            Self::takes(*old(ctx), *final(ctx), (Event::Trade { id, event })),
    ;
}

/// Whether `states` are the contexts of a delivery of `events` to the
/// handler `H` that starts at `before` and ends at `after`: one context
/// before each event and one after the last, each event taken from the
/// context that the one before it left.
pub open spec fn is_trace<H: Handler>(
    before: H::Ctx,
    after: H::Ctx,
    events: Seq<Event>,
    states: Seq<H::Ctx>,
) -> bool {
    &&& states.len() == events.len() + 1
    &&& states[0] == before
    &&& states[events.len() as int] == after
    &&& forall|k: int|
        #![trigger states[k]]
        0 <= k < events.len() ==> H::takes(states[k], states[k + 1], events[k])
}

/// Whether the handler `H` can get from the context `before` to the context
/// `after` by taking `events` one after the other, in their order.
pub open spec fn delivered<H: Handler>(before: H::Ctx, after: H::Ctx, events: Seq<Event>) -> bool {
    exists|states: Seq<H::Ctx>| is_trace::<H>(before, after, events, states)
}

/// Hands `events` to the handler `H` one by one, in their order: order
/// events to `on_order`, trades to `on_trade`.
pub fn deliver<H: Handler>(ctx: &mut H::Ctx, events: &Vec<Event>)
    ensures
        delivered::<H>(*old(ctx), *final(ctx), events@),
{
    let ghost mut states: Seq<H::Ctx> = seq![*ctx];
    let mut i: usize = 0;
    while i < events.len()
        invariant
            i <= events.len(),
            states.len() == i + 1,
            states[0] == *old(ctx),
            states[i as int] == *ctx,
            forall|k: int|
                #![trigger states[k]]
                0 <= k < i ==> H::takes(states[k], states[k + 1], events@[k]),
        decreases events.len() - i,
    {
        match events[i] {
            Event::Order { id, event } => H::on_order(ctx, id, event),
            Event::Trade { id, event } => H::on_trade(ctx, id, event),
        }
        proof {
            states = states.push(*ctx);
        }
        i += 1;
    }
    assert(is_trace::<H>(*old(ctx), *ctx, events@, states));
}

/// Numbers the events it is shown and names the book of each, for a
/// consumer that prints one line per event.
pub struct StdOutHandler {
    id_as_symbol: bool,
    counter: u64,
}

impl StdOutHandler {
    /// Whether books are named by their symbol's ticker.
    pub closed spec fn names_symbols(&self) -> bool {
        self.id_as_symbol
    }

    /// Number of events counted so far.
    pub closed spec fn seen(&self) -> u64 {
        self.counter
    }

    /// A handler that has counted nothing and names books by their number.
    pub fn new() -> (h: StdOutHandler)
        ensures
            !h.names_symbols(),
            h.seen() == 0,
    {
        StdOutHandler { id_as_symbol: false, counter: 0 }
    }

    /// The same handler, naming books by ticker if `id_as_symbol` is set.
    pub fn with_id_as_symbol(self, id_as_symbol: bool) -> (h: StdOutHandler)
        ensures
            h.names_symbols() == id_as_symbol,
            h.seen() == self.seen(),
    {
        let mut h = self;
        h.id_as_symbol = id_as_symbol;
        h
    }

    /// Counts one more event and returns its number, starting at 1.
    pub fn count(&mut self) -> (n: u64)
        requires
            old(self).seen() < u64::MAX,
        ensures
            n == old(self).seen() + 1,
            final(self).seen() == n,
            final(self).names_symbols() == old(self).names_symbols(),
    {
        self.counter = self.counter + 1;
        self.counter
    }

    /// Counts one more event and returns its number, or `None`, counting
    /// nothing, where the count has reached the largest number.
    pub fn count_checked(&mut self) -> (n: Option<u64>)
        ensures
            final(self).names_symbols() == old(self).names_symbols(),
            old(self).seen() < u64::MAX ==> n == Some((old(self).seen() + 1) as u64) && final(self).seen() == old(self).seen() + 1,
            old(self).seen() == u64::MAX ==> n.is_none() && final(self).seen() == old(self).seen(),
    {
        if self.counter == u64::MAX {
            None
        } else {
            Some(self.count())
        }
    }

    /// The ticker under which the book `id` is shown; `None` where the book
    /// is shown by its number: for a handler that does not name symbols and
    /// for a number that belongs to no known instrument.
    pub fn label(&self, id: u64) -> (r: Option<&'static str>)
        ensures
            r.is_some() == (self.names_symbols() && id <= 2),
            r.is_some() && id == 0 ==> r.unwrap()@ == "BTCUSDT"@,
            r.is_some() && id == 1 ==> r.unwrap()@ == "ETHUSDT"@,
            r.is_some() && id == 2 ==> r.unwrap()@ == "ADAUSDT"@,
    {
        if self.id_as_symbol {
            match Symbol::from_repr(id) {
                Some(symbol) => symbol.ticker(),
                None => None,
            }
        } else {
            None
        }
    }
}

/// Prepares what goes out to the subscribers of a feed of trades: each
/// trade gets the next trade id of this publisher and is encoded; order
/// events are not published.
pub struct TCPPublisher {
    trade_id_gen: IdGenerator,
}

impl TCPPublisher {
    /// The trade id that was given out last, 0 before the first.
    pub closed spec fn published(&self) -> u64 {
        self.trade_id_gen.issued()
    }

    /// A publisher that has published nothing.
    pub fn new() -> (p: TCPPublisher)
        ensures
            p.published() == 0,
    {
        TCPPublisher { trade_id_gen: IdGenerator::new() }
    }

    /// The trade id that was given out last, 0 before the first.
    pub fn last_trade_id(&self) -> (id: u64)
        ensures
            id == self.published(),
    {
        self.trade_id_gen.last()
    }

    /// The bytes to send for `event`, if it is to be sent: the encoded
    /// trade, under the next trade id, the symbol of its book and the time
    /// `timestamp`. An order event sends nothing and uses no trade id.
    pub fn frame(&mut self, event: &Event, timestamp: i64) -> (r: Option<Vec<u8>>)
        requires
            old(self).published() < u64::MAX,
        ensures
            match *event {
                Event::Order { .. } => r.is_none() && final(self).published() == old(self).published(),
                Event::Trade { id, event: e } => r.is_some() && final(self).published() == old(self).published() + 1 && r.unwrap()@ == trade_bytes(
                    trade_of_event(e, final(self).published(), Symbol(id), timestamp),
                ),
            },
    {
        match event {
            Event::Order { .. } => None,
            Event::Trade { id, event: e } => {
                let trade_id = self.trade_id_gen.next_id();
                let encoder = Encoder::new();
                Some(encoder.encode_event(e, trade_id, Symbol(*id), timestamp))
            },
        }
    }
}

} // verus!
