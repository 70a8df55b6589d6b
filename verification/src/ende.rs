//! The wire form of a trade: an 8-byte message header followed by a block of
//! 57 bytes, every number little-endian.
//!
//! | offset | size | field |
//! |---|---|---|
//! | 0 | 2 | block length (57) |
//! | 2 | 2 | template id (201) |
//! | 4 | 2 | schema id (2) |
//! | 6 | 2 | version (0) |
//! | 8 | 8 | trade id |
//! | 16 | 8 | symbol id |
//! | 24 | 8 | price |
//! | 32 | 8 | size |
//! | 40 | 1 | taker side (0 bid, 1 ask) |
//! | 41 | 8 | buyer order id |
//! | 49 | 8 | seller order id |
//! | 57 | 8 | time, nanoseconds since the Unix epoch |

use vstd::prelude::*;
use vstd::bytes::{
    lemma_auto_spec_u16_to_from_le_bytes, lemma_auto_spec_u64_to_from_le_bytes,
    spec_u16_from_le_bytes, spec_u16_to_le_bytes, spec_u64_from_le_bytes, spec_u64_to_le_bytes,
    u16_from_le_bytes, u16_to_le_bytes, u64_from_le_bytes, u64_to_le_bytes,
};
use vstd::slice::slice_subrange;
use crate::symbol_table::Symbol;
use crate::types::{Side, TradeEvent};

verus! {

/// Length of the block that follows the header.
pub const SBE_BLOCK_LENGTH: u16 = 57;

/// Template id of a trade message.
pub const SBE_TEMPLATE_ID: u16 = 201;

/// Id of the schema that the trade message belongs to.
pub const SBE_SCHEMA_ID: u16 = 2;

/// Version of that schema.
pub const SBE_SCHEMA_VERSION: u16 = 0;

/// Length of the message header.
pub const ENCODED_LENGTH: usize = 8;

/// Length of a whole trade message: header and block.
pub const MESSAGE_LENGTH: usize = 65;

/// A trade as it crosses the wire.
#[derive(Debug, Clone, Copy, PartialEq, Eq, Structural)]
pub struct Trade {
    pub trade_id: u64,
    pub symbol_id: u64,
    pub price: u64,
    pub size: u64,
    pub taker_side: Side,
    pub buy_order_id: u64,
    pub sell_order_id: u64,
    pub timestamp: i64,
}

/// Any message that can be decoded.
#[derive(Debug, Clone, Copy, PartialEq, Eq, Structural)]
pub enum Message {
    Trade(Trade),
}

/// What is wrong with the bytes of a message.
#[derive(Debug, Clone, Copy, PartialEq, Eq, Structural)]
pub enum SbeErr {
    /// There are fewer bytes than the layout needs.
    Truncated,
    /// The byte of the taker side is neither 0 nor 1.
    InvalidSide(u8),
}

/// Failure to encode or decode.
#[derive(Debug, Clone, Copy, PartialEq, Eq, Structural)]
pub enum Error {
    SymbolNotFound(Symbol),
    Sbe(SbeErr),
    SbeInvalidTemplateId(u16),
}

/// Turns a value into its encoded form.
pub trait Encode<In, Out> {
    fn encode(&self, data: In) -> Out;
}

/// Turns a value into its encoded form, or fails.
pub trait TryEncode<In, Out> {
    fn try_encode(&self, data: In) -> Result<Out, Error>;
}

/// Turns a value and what else the encoded form holds into that form, or fails.
pub trait TryEncodeWithCtx<In, Out> {
    type Ctx;

    fn try_encode(&self, data: In, ctx: Self::Ctx) -> Result<Out, Error>;
}

/// Turns an encoded form back into a value.
pub trait Decode<In> {
    type Out;

    fn decode(&self, data: In) -> Self::Out;
}

/// Turns an encoded form back into a value, or fails.
pub trait TryDecode<In, Out> {
    /// What `data` decodes to.
    spec fn decoded(&self, data: In) -> Result<Out, Error>;

    fn try_decode(&self, data: In) -> (r: Result<Out, Error>)
        ensures
            r == self.decoded(data),
    ;
}

/// Turns an encoded form and a context back into a value, or fails.
pub trait TryDecodeWithCtx<In> {
    type Out;

    type Ctx;

    fn try_decode(&self, data: In, ctx: Self::Ctx) -> Result<Self::Out, Error>;
}

/// The byte that stands for a side.
pub open spec fn side_byte(s: Side) -> u8 {
    match s {
        Side::Bid => 0,
        Side::Ask => 1,
    }
}

/// The header of a trade message.
pub open spec fn header_bytes() -> Seq<u8> {
    spec_u16_to_le_bytes(SBE_BLOCK_LENGTH) + spec_u16_to_le_bytes(SBE_TEMPLATE_ID)
        + spec_u16_to_le_bytes(SBE_SCHEMA_ID) + spec_u16_to_le_bytes(SBE_SCHEMA_VERSION)
}

/// The message that carries `t`.
pub open spec fn trade_bytes(t: Trade) -> Seq<u8> {
    header_bytes() + spec_u64_to_le_bytes(t.trade_id) + spec_u64_to_le_bytes(t.symbol_id)
        + spec_u64_to_le_bytes(t.price) + spec_u64_to_le_bytes(t.size) + seq![
        side_byte(t.taker_side),
    ] + spec_u64_to_le_bytes(t.buy_order_id) + spec_u64_to_le_bytes(t.sell_order_id)
        + spec_u64_to_le_bytes(t.timestamp as u64)
}

/// The trade that a trade event becomes on the wire.
pub open spec fn trade_of_event(e: TradeEvent, trade_id: u64, symbol: Symbol, timestamp: i64) -> Trade {
    Trade {
        trade_id,
        symbol_id: symbol.0,
        price: e.price,
        size: e.size,
        taker_side: e.side,
        buy_order_id: e.buyer_order_id,
        sell_order_id: e.seller_order_id,
        timestamp,
    }
}

/// The 64-bit number at `offset` of `data`.
pub open spec fn u64_at(data: Seq<u8>, offset: int) -> u64 {
    spec_u64_from_le_bytes(data.subrange(offset, offset + 8))
}

/// The 16-bit number at `offset` of `data`.
pub open spec fn u16_at(data: Seq<u8>, offset: int) -> u16 {
    spec_u16_from_le_bytes(data.subrange(offset, offset + 2))
}

/// What the bytes `data` decode to: a header first, whose template id must
/// be that of a trade, then the block, read field by field.
pub open spec fn parse_trade(data: Seq<u8>) -> Result<Trade, Error> {
    if data.len() < ENCODED_LENGTH {
        Err(Error::Sbe(SbeErr::Truncated))
    } else if u16_at(data, 2) != SBE_TEMPLATE_ID {
        Err(Error::SbeInvalidTemplateId(u16_at(data, 2)))
    } else if data.len() < MESSAGE_LENGTH {
        Err(Error::Sbe(SbeErr::Truncated))
    } else if data[40] > 1 {
        Err(Error::Sbe(SbeErr::InvalidSide(data[40])))
    } else {
        Ok(
            Trade {
                trade_id: u64_at(data, 8),
                symbol_id: u64_at(data, 16),
                price: u64_at(data, 24),
                size: u64_at(data, 32),
                taker_side: if data[40] == 0 {
                    Side::Bid
                } else {
                    Side::Ask
                },
                buy_order_id: u64_at(data, 41),
                sell_order_id: u64_at(data, 49),
                timestamp: u64_at(data, 57) as i64,
            },
        )
    }
}

/// What the bytes `data` decode to as a message of any kind.
pub open spec fn parse_message(data: Seq<u8>) -> Result<Message, Error> {
    match parse_trade(data) {
        Ok(t) => Ok(Message::Trade(t)),
        Err(e) => Err(e),
    }
}

/// The sign, exponent and mantissa fields of the 64 bits of a double, as
/// the triple (mantissa, exponent, sign) with
/// value = sign * mantissa * 2^exponent.
pub open spec fn split_bits(bits: u64) -> (u64, i16, i8) {
    let biased = (bits >> 52) & 0x7ff;
    let fraction = bits & 0xfffffffffffff;
    (
        if biased == 0 {
            fraction << 1
        } else {
            fraction | 0x10000000000000
        },
        (biased - 1075) as i16,
        if bits >> 63 == 0 {
            1i8
        } else {
            -1i8
        },
    )
}

/// Appends the two bytes of `x`.
fn put_u16(buf: &mut Vec<u8>, x: u16)
    ensures
        final(buf)@ == old(buf)@ + spec_u16_to_le_bytes(x),
{
    let b = u16_to_le_bytes(x);
    buf.extend_from_slice(b.as_slice());
}

/// Appends the eight bytes of `x`.
fn put_u64(buf: &mut Vec<u8>, x: u64)
    ensures
        final(buf)@ == old(buf)@ + spec_u64_to_le_bytes(x),
{
    let b = u64_to_le_bytes(x);
    buf.extend_from_slice(b.as_slice());
}

/// Reads the 64-bit number at `offset`.
fn get_u64(data: &[u8], offset: usize) -> (x: u64)
    requires
        offset <= 1024,
        offset + 8 <= data@.len(),
    ensures
        x == u64_at(data@, offset as int),
{
    u64_from_le_bytes(slice_subrange(data, offset, offset + 8))
}

/// Reads the 16-bit number at `offset`.
fn get_u16(data: &[u8], offset: usize) -> (x: u16)
    requires
        offset <= 1024,
        offset + 2 <= data@.len(),
    ensures
        x == u16_at(data@, offset as int),
{
    u16_from_le_bytes(slice_subrange(data, offset, offset + 2))
}

/// Writes messages.
#[derive(Debug)]
pub struct Encoder {}

/// Reads messages.
#[derive(Debug)]
pub struct Decoder {}

impl Encoder {
    pub fn new() -> (e: Encoder) {
        Encoder {  }
    }

    /// The message that carries `t`.
    pub fn encode_trade(&self, t: &Trade) -> (buf: Vec<u8>)
        ensures
            buf@ == trade_bytes(*t),
            buf@.len() == MESSAGE_LENGTH,
    {
        proof {
            lemma_auto_spec_u16_to_from_le_bytes();
            lemma_auto_spec_u64_to_from_le_bytes();
        }
        let mut buf: Vec<u8> = Vec::with_capacity(MESSAGE_LENGTH);
        put_u16(&mut buf, SBE_BLOCK_LENGTH);
        put_u16(&mut buf, SBE_TEMPLATE_ID);
        put_u16(&mut buf, SBE_SCHEMA_ID);
        put_u16(&mut buf, SBE_SCHEMA_VERSION);
        assert(buf@ =~= header_bytes());
        put_u64(&mut buf, t.trade_id);
        put_u64(&mut buf, t.symbol_id);
        put_u64(&mut buf, t.price);
        put_u64(&mut buf, t.size);
        buf.push(
            match t.taker_side {
                Side::Bid => 0,
                Side::Ask => 1,
            },
        );
        put_u64(&mut buf, t.buy_order_id);
        put_u64(&mut buf, t.sell_order_id);
        put_u64(&mut buf, t.timestamp as u64);
        assert(buf@ =~= trade_bytes(*t));
        buf
    }
}

impl Decoder {
    pub fn new() -> (d: Decoder) {
        Decoder {  }
    }

    /// The trade that the message `data` carries.
    pub fn decode_trade(&self, data: &[u8]) -> (r: Result<Trade, Error>)
        ensures
            r == parse_trade(data@),
    {
        if data.len() < ENCODED_LENGTH {
            return Err(Error::Sbe(SbeErr::Truncated));
        }
        let template_id = get_u16(data, 2);
        if template_id != SBE_TEMPLATE_ID {
            return Err(Error::SbeInvalidTemplateId(template_id));
        }
        if data.len() < MESSAGE_LENGTH {
            return Err(Error::Sbe(SbeErr::Truncated));
        }
        let side = data[40];
        if side > 1 {
            return Err(Error::Sbe(SbeErr::InvalidSide(side)));
        }
        Ok(
            Trade {
                trade_id: get_u64(data, 8),
                symbol_id: get_u64(data, 16),
                price: get_u64(data, 24),
                size: get_u64(data, 32),
                taker_side: if side == 0 {
                    Side::Bid
                } else {
                    Side::Ask
                },
                buy_order_id: get_u64(data, 41),
                sell_order_id: get_u64(data, 49),
                timestamp: get_u64(data, 57) as i64,
            },
        )
    }
}

impl Decoder {
    /// The message that the bytes `data` carry.
    pub fn decode_message(&self, data: &[u8]) -> (r: Result<Message, Error>)
        ensures
            r == parse_message(data@),
    {
        match self.decode_trade(data) {
            Ok(t) => Ok(Message::Trade(t)),
            Err(e) => Err(e),
        }
    }
}

impl Encode<u64, (u64, i16, i8)> for Encoder {
    /// Splits the 64 bits of a double into (mantissa, exponent, sign), from
    /// which the number is sign * mantissa * 2^exponent without any
    /// floating-point step.
    fn encode(&self, data: u64) -> (r: (u64, i16, i8))
        ensures
            r == split_bits(data),
    {
        let biased: u64 = (data >> 52) & 0x7ff;
        let fraction: u64 = data & 0xfffffffffffff;
        assert(biased <= 0x7ff) by (bit_vector)
            requires
                biased == (data >> 52) & 0x7ff,
        ;
        let mantissa: u64 = if biased == 0 {
            fraction << 1
        } else {
            fraction | 0x10000000000000
        };
        let exponent: i16 = (biased as i16) - 1075;
        let sign: i8 = if data >> 63 == 0 {
            1
        } else {
            -1
        };
        (mantissa, exponent, sign)
    }
}

impl Encoder {
    /// The message that carries the trade event `e` under the given trade
    /// id, symbol and time.
    pub fn encode_event(&self, e: &TradeEvent, trade_id: u64, symbol: Symbol, timestamp: i64) -> (buf:
        Vec<u8>)
        ensures
            buf@ == trade_bytes(trade_of_event(*e, trade_id, symbol, timestamp)),
    {
        let t = Trade {
            trade_id,
            symbol_id: symbol.0,
            price: e.price,
            size: e.size,
            taker_side: e.side,
            buy_order_id: e.buyer_order_id,
            sell_order_id: e.seller_order_id,
            timestamp,
        };
        self.encode_trade(&t)
    }
}

impl TryEncodeWithCtx<&TradeEvent, Vec<u8>> for Encoder {
    type Ctx = (u64, Symbol, i64);

    /// The message that carries the trade event `data` under the trade id,
    /// symbol and time of `ctx`. It never fails.
    fn try_encode(&self, data: &TradeEvent, ctx: (u64, Symbol, i64)) -> (r: Result<Vec<u8>, Error>)
        ensures
            r.is_ok(),
            r.unwrap()@ == trade_bytes(trade_of_event(*data, ctx.0, ctx.1, ctx.2)),
    {
        Ok(self.encode_event(data, ctx.0, ctx.1, ctx.2))
    }
}

impl TryDecode<&[u8], Trade> for Decoder {
    open spec fn decoded(&self, data: &[u8]) -> Result<Trade, Error> {
        parse_trade(data@)
    }

    /// `decode_trade` under the name of the trait.
    fn try_decode(&self, data: &[u8]) -> Result<Trade, Error> {
        self.decode_trade(data)
    }
}

impl TryDecode<&[u8], Message> for Decoder {
    open spec fn decoded(&self, data: &[u8]) -> Result<Message, Error> {
        parse_message(data@)
    }

    /// `decode_message` under the name of the trait.
    fn try_decode(&self, data: &[u8]) -> Result<Message, Error> {
        self.decode_message(data)
    }
}

/// Decoding the message of a trade gives the trade back.
pub proof fn lemma_decode_encode(t: Trade)
    ensures
        trade_bytes(t).len() == MESSAGE_LENGTH,
        parse_trade(trade_bytes(t)) == Ok::<Trade, Error>(t),
{
    lemma_auto_spec_u16_to_from_le_bytes();
    lemma_auto_spec_u64_to_from_le_bytes();
    let d = trade_bytes(t);
    assert(d.len() == 65);
    assert(d.subrange(2, 4) =~= spec_u16_to_le_bytes(SBE_TEMPLATE_ID));
    assert(d.subrange(8, 16) =~= spec_u64_to_le_bytes(t.trade_id));
    assert(d.subrange(16, 24) =~= spec_u64_to_le_bytes(t.symbol_id));
    assert(d.subrange(24, 32) =~= spec_u64_to_le_bytes(t.price));
    assert(d.subrange(32, 40) =~= spec_u64_to_le_bytes(t.size));
    assert(d[40] == side_byte(t.taker_side));
    assert(d.subrange(41, 49) =~= spec_u64_to_le_bytes(t.buy_order_id));
    assert(d.subrange(49, 57) =~= spec_u64_to_le_bytes(t.sell_order_id));
    assert(d.subrange(57, 65) =~= spec_u64_to_le_bytes(t.timestamp as u64));
    let ts = t.timestamp;
    assert((ts as u64) as i64 == ts) by (bit_vector);
}

/// Round trip on the wire: a message that was encoded from a trade decodes
/// to a trade whose encoding is the same message, byte for byte.
pub proof fn lemma_reencode(t: Trade)
    ensures
        parse_trade(trade_bytes(t)).is_ok(),
        trade_bytes(parse_trade(trade_bytes(t)).unwrap()) == trade_bytes(t),
{
    lemma_decode_encode(t);
}

} // verus!
