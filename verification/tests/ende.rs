use matching_engine::{
    Decoder, Encode, Encoder, Error, Message, SbeErr, Side, Symbol, Trade, TradeEvent, TryDecode,
    TryEncodeWithCtx,
};

fn sample() -> Trade {
    Trade {
        trade_id: 0x0102030405060708,
        symbol_id: 2,
        price: 6280505,
        size: 3,
        taker_side: Side::Ask,
        buy_order_id: 11,
        sell_order_id: 12,
        timestamp: -5,
    }
}

#[test]
fn test_f64_decode_encode() {
    let encoder = Encoder::new();

    let tcs: Vec<f64> = vec![0.0, 1.0, -1.0, 1.5, -1.5, 12.5, -12.5, 0.123124];

    for tc in tcs {
        let (mantissa, exponent, sign) = encoder.encode(tc.to_bits());
        println!("exponent: {exponent}\nmantissa: {mantissa}\nsign: {sign}\n");
        let b = sign as f64 * mantissa as f64 * 2f64.powi(exponent.into());
        assert_eq!(tc, b);
    }
}

#[test]
fn test_trade_encode() {
    let encoder = Encoder::new();
    let decoder = Decoder::new();

    let tcs = vec![TradeEvent {
        size: 1230,
        price: 17239821,
        side: Side::Bid,
        buyer_order_id: 123,
        seller_order_id: 124,
    }];

    for tc in tcs {
        let encoded = encoder
            .try_encode(&tc, (1, Symbol::btcusdt(), 1_700_000_000_000_000_000))
            .unwrap();
        let trade: Trade = decoder.try_decode(encoded.as_slice()).unwrap();

        assert_eq!(tc.side, trade.taker_side);
        assert_eq!(tc.price, trade.price);
        assert_eq!(tc.size, trade.size);
    }
}

#[test]
fn split_of_one_and_of_a_subnormal() {
    let encoder = Encoder::new();
    assert_eq!(encoder.encode(1.0f64.to_bits()), (1u64 << 52, -52, 1));
    assert_eq!(encoder.encode((-2.0f64).to_bits()), (1u64 << 52, -51, -1));
    assert_eq!(encoder.encode(1u64), (2, -1075, 1));
    assert_eq!(encoder.encode(0u64), (0, -1075, 1));
}

#[test]
fn trade_layout_is_fixed() {
    let bytes = Encoder::new().encode_trade(&sample());
    assert_eq!(bytes.len(), 65);
    assert_eq!(&bytes[0..8], &[57, 0, 201, 0, 2, 0, 0, 0]);
    assert_eq!(&bytes[8..16], &[8, 7, 6, 5, 4, 3, 2, 1]);
    assert_eq!(&bytes[16..24], &[2, 0, 0, 0, 0, 0, 0, 0]);
    assert_eq!(&bytes[24..32], &6280505u64.to_le_bytes());
    assert_eq!(&bytes[32..40], &[3, 0, 0, 0, 0, 0, 0, 0]);
    assert_eq!(bytes[40], 1);
    assert_eq!(&bytes[41..49], &[11, 0, 0, 0, 0, 0, 0, 0]);
    assert_eq!(&bytes[49..57], &[12, 0, 0, 0, 0, 0, 0, 0]);
    assert_eq!(&bytes[57..65], &[0xfb, 0xff, 0xff, 0xff, 0xff, 0xff, 0xff, 0xff]);
}

#[test]
fn decode_gives_the_trade_back() {
    let bytes = Encoder::new().encode_trade(&sample());
    assert_eq!(Decoder::new().decode_trade(&bytes), Ok(sample()));
    assert_eq!(Decoder::new().decode_message(&bytes), Ok(Message::Trade(sample())));
    let as_message: Result<Message, Error> = Decoder::new().try_decode(bytes.as_slice());
    assert_eq!(as_message, Ok(Message::Trade(sample())));
}

#[test]
fn reencoding_is_byte_identical() {
    let event = TradeEvent {
        size: 1230,
        price: 17239821,
        side: Side::Bid,
        buyer_order_id: 123,
        seller_order_id: 124,
    };
    let bytes = Encoder::new().encode_event(&event, 77, Symbol::ethusdt(), 1_234_567_890);
    let trade = Decoder::new().decode_trade(&bytes).unwrap();
    assert_eq!(trade.trade_id, 77);
    assert_eq!(trade.symbol_id, 1);
    assert_eq!(trade.buy_order_id, 123);
    assert_eq!(trade.sell_order_id, 124);
    assert_eq!(trade.timestamp, 1_234_567_890);
    assert_eq!(Encoder::new().encode_trade(&trade), bytes);
}

#[test]
fn decode_rejects_other_templates() {
    let mut bytes = Encoder::new().encode_trade(&sample());
    bytes[2] = 0x34;
    bytes[3] = 0x12;
    assert_eq!(Decoder::new().decode_trade(&bytes), Err(Error::SbeInvalidTemplateId(0x1234)));
    assert_eq!(Decoder::new().decode_message(&bytes), Err(Error::SbeInvalidTemplateId(0x1234)));
    assert_eq!(
        Decoder::new().decode_trade(&bytes[..8]),
        Err(Error::SbeInvalidTemplateId(0x1234))
    );
}

#[test]
fn decode_rejects_short_input() {
    let bytes = Encoder::new().encode_trade(&sample());
    assert_eq!(Decoder::new().decode_trade(&[]), Err(Error::Sbe(SbeErr::Truncated)));
    assert_eq!(Decoder::new().decode_trade(&bytes[..7]), Err(Error::Sbe(SbeErr::Truncated)));
    assert_eq!(Decoder::new().decode_trade(&bytes[..64]), Err(Error::Sbe(SbeErr::Truncated)));
}

#[test]
fn decode_rejects_an_unknown_side() {
    let mut bytes = Encoder::new().encode_trade(&sample());
    bytes[40] = 255;
    assert_eq!(Decoder::new().decode_trade(&bytes), Err(Error::Sbe(SbeErr::InvalidSide(255))));
}

#[test]
fn decode_ignores_what_follows_the_message() {
    let mut bytes = Encoder::new().encode_trade(&sample());
    bytes.extend_from_slice(&[9, 9, 9]);
    assert_eq!(Decoder::new().decode_trade(&bytes), Ok(sample()));
}
