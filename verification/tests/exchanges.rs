use multi_exchange_l3_est::amount::Amount;
use multi_exchange_l3_est::exchanges::binance::{
    decimals_of_step, on_frame, BinanceExchange, ExchangeInfo, RawDepthUpdate, RawSnapshot, SymbolFilter, SymbolInfo,
};
use multi_exchange_l3_est::exchanges::hyperliquid::{
    convert_levels, HyperliquidExchange, HyperliquidStream, WsBook, WsLevel,
};
use multi_exchange_l3_est::exchanges::{
    parse_row, Exchange, ExchangeMessage, ExchangeType, Frame, Reply, Venue,
};
use multi_exchange_l3_est::replica::BookReplica;

const UNIT: i128 = 1_000_000_000_000_000_000;

fn text_rows(pairs: &[(&str, &str)]) -> Vec<(String, String)> {
    pairs.iter().map(|&(p, q)| (p.to_string(), q.to_string())).collect()
}

fn units(rows: &[(Amount, Amount)]) -> Vec<(i128, i128)> {
    rows.iter().map(|r| (r.0.units(), r.1.units())).collect()
}

fn levels(pairs: &[(&str, &str)]) -> Vec<WsLevel> {
    pairs.iter().map(|&(px, sz)| WsLevel { px: px.to_string(), sz: sz.to_string(), n: 1 }).collect()
}

fn book(time: u64) -> WsBook {
    WsBook {
        coin: "SOL".to_string(),
        bids: levels(&[("100.5", "2"), ("bad", "1"), ("100", "0.25")]),
        asks: levels(&[("101", "x"), ("101.5", "4")]),
        time,
    }
}

fn filter(kind: &str, tick: Option<&str>, step: Option<&str>) -> SymbolFilter {
    SymbolFilter {
        filter_type: kind.to_string(),
        tick_size: tick.map(|t| t.to_string()),
        step_size: step.map(|t| t.to_string()),
    }
}

fn info(symbols: Vec<(&str, Vec<SymbolFilter>)>) -> ExchangeInfo {
    ExchangeInfo {
        symbols: symbols
            .into_iter()
            .map(|(symbol, filters)| SymbolInfo { symbol: symbol.to_string(), filters })
            .collect(),
    }
}

#[test]
fn symbols_are_written_as_the_venue_writes_them() {
    assert_eq!(BinanceExchange::new().format_symbol("DogeUSDT"), "dogeusdt");
    assert_eq!(HyperliquidExchange::new().format_symbol("sol"), "SOL");
    assert_eq!(ExchangeType::Binance.create_exchange().format_symbol("BTCUSDT"), "btcusdt");
    assert_eq!(ExchangeType::Hyperliquid.create_exchange().format_symbol("btc"), "BTC");
}

#[test]
fn venues_have_their_names() {
    assert_eq!(BinanceExchange::new().get_name(), "Binance");
    assert_eq!(HyperliquidExchange::new().get_name(), "Hyperliquid");
    assert_eq!(ExchangeType::Binance.create_exchange().get_name(), "Binance");
    assert_eq!(ExchangeType::Hyperliquid.create_exchange().get_name(), "Hyperliquid");
}

#[test]
fn create_exchange_gives_the_adapter_of_the_venue() {
    assert!(matches!(ExchangeType::Binance.create_exchange(), Venue::Binance(_)));
    assert!(matches!(ExchangeType::Hyperliquid.create_exchange(), Venue::Hyperliquid(_)));
}

#[test]
fn binance_addresses() {
    let venue = BinanceExchange::new();
    assert_eq!(venue.stream_url("DOGEUSDT"), "wss://fstream.binance.com/ws/dogeusdt@depth@0ms");
    assert_eq!(
        venue.snapshot_url("dogeusdt"),
        "https://fapi.binance.com/fapi/v1/depth?symbol=DOGEUSDT&limit=1000"
    );
    assert_eq!(venue.info_url(), "https://fapi.binance.com/fapi/v1/exchangeInfo");
}

#[test]
fn hyperliquid_addresses() {
    let venue = HyperliquidExchange::new();
    assert_eq!(venue.stream_url(), "wss://api.hyperliquid.xyz/ws");
    assert_eq!(venue.info_url(), "https://api.hyperliquid.xyz/info");
}

#[test]
fn precision_defaults_without_metadata() {
    assert_eq!(BinanceExchange::new().get_precision("DOGEUSDT", None), (2, 2));
    assert_eq!(HyperliquidExchange::new().get_precision("SOL", None), (4, 4));
    assert_eq!(ExchangeType::Binance.create_exchange().get_precision("X", None), (2, 2));
    assert_eq!(ExchangeType::Hyperliquid.create_exchange().get_precision("X", None), (4, 4));
}

#[test]
fn precision_is_read_from_tick_and_step() {
    let doc = info(vec![
        ("BTCUSDT", vec![filter("PRICE_FILTER", Some("0.10"), None)]),
        (
            "DOGEUSDT",
            vec![
                filter("PRICE_FILTER", Some("0.00001"), None),
                filter("MARKET_LOT_SIZE", None, Some("0.001")),
                filter("LOT_SIZE", None, Some("1")),
            ],
        ),
    ]);
    let venue = BinanceExchange::new();
    assert_eq!(venue.precision_from_info(&doc, "dogeusdt"), (5, 0));
    assert_eq!(venue.get_precision("DOGEUSDT", Some(&doc)), (5, 0));
    assert_eq!(venue.get_precision("btcusdt", Some(&doc)), (1, 2));
    assert_eq!(venue.get_precision("ethusdt", Some(&doc)), (2, 2));
    assert_eq!(HyperliquidExchange::new().get_precision("dogeusdt", Some(&doc)), (4, 4));
}

#[test]
fn decimals_of_a_step() {
    assert_eq!(decimals_of_step("0.001"), Some(3));
    assert_eq!(decimals_of_step("0.0050"), Some(3));
    assert_eq!(decimals_of_step("0.5"), Some(1));
    assert_eq!(decimals_of_step("0.25"), Some(1));
    assert_eq!(decimals_of_step("0.09"), Some(2));
    assert_eq!(decimals_of_step("1"), Some(0));
    assert_eq!(decimals_of_step("1.000"), Some(0));
    assert_eq!(decimals_of_step("10"), Some(0));
    assert_eq!(decimals_of_step("2.5"), Some(0));
    assert_eq!(decimals_of_step("0.00000001"), Some(8));
    assert_eq!(decimals_of_step("no number"), Some(0));
    assert_eq!(decimals_of_step("0"), None);
    assert_eq!(decimals_of_step("0.000"), None);
    assert_eq!(decimals_of_step("-0.01"), None);
}

#[test]
fn a_step_that_is_not_positive_leaves_the_precision() {
    let doc = info(vec![(
        "DOGEUSDT",
        vec![
            filter("PRICE_FILTER", Some("0.001"), None),
            filter("PRICE_FILTER", Some("0"), None),
            filter("PRICE_FILTER", None, Some("0.1")),
            filter("LOT_SIZE", Some("0.1"), None),
            filter("LOT_SIZE", None, Some("garbage")),
        ],
    )]);
    assert_eq!(BinanceExchange::new().precision_from_info(&doc, "DOGEUSDT"), (3, 0));
}

#[test]
fn the_first_listing_of_a_symbol_counts() {
    let doc = info(vec![
        ("DOGEUSDT", vec![filter("LOT_SIZE", None, Some("0.01"))]),
        ("DOGEUSDT", vec![filter("LOT_SIZE", None, Some("0.0001"))]),
    ]);
    assert_eq!(BinanceExchange::new().precision_from_info(&doc, "DOGEUSDT"), (2, 2));
    let none = info(vec![]);
    assert_eq!(BinanceExchange::new().precision_from_info(&none, "DOGEUSDT"), (2, 2));
}

#[test]
fn a_row_of_text_is_read_as_two_amounts() {
    let row = parse_row("100.5", "0.25").unwrap();
    assert_eq!((row.0.units(), row.1.units()), (100 * UNIT + UNIT / 2, UNIT / 4));
    assert!(parse_row("x", "1").is_none());
    assert!(parse_row("1", "").is_none());
}

#[test]
fn binance_update_is_converted_field_by_field() {
    let raw = RawDepthUpdate {
        event_time: 1,
        transaction_time: 2,
        symbol: "DOGEUSDT".to_string(),
        capital_u: 11,
        small_u: 12,
        pu: 10,
        bids: text_rows(&[("100", "7"), ("99.5", "0")]),
        asks: text_rows(&[("101", "3.5")]),
    };
    let d = BinanceExchange::new().convert_depth_update(raw).unwrap();
    assert_eq!(d.event_time, 1);
    assert_eq!(d.transaction_time, 2);
    assert_eq!(d.symbol, "DOGEUSDT");
    assert_eq!((d.capital_u, d.small_u, d.pu), (11, 12, 10));
    assert_eq!(units(&d.bids), vec![(100 * UNIT, 7 * UNIT), (99 * UNIT + UNIT / 2, 0)]);
    assert_eq!(units(&d.asks), vec![(101 * UNIT, 3 * UNIT + UNIT / 2)]);
}

#[test]
fn binance_update_with_a_bad_row_is_dropped() {
    let raw = RawDepthUpdate {
        event_time: 1,
        transaction_time: 2,
        symbol: "DOGEUSDT".to_string(),
        capital_u: 11,
        small_u: 12,
        pu: 10,
        bids: text_rows(&[("100", "7")]),
        asks: text_rows(&[("101", "3.5"), ("oops", "1")]),
    };
    assert!(BinanceExchange::new().convert_depth_update(raw).is_none());
}

#[test]
fn binance_snapshot_is_converted() {
    let raw = RawSnapshot {
        last_update_id: 77,
        bids: text_rows(&[("100", "5")]),
        asks: text_rows(&[("101", "3")]),
    };
    let s = BinanceExchange::new().convert_snapshot(raw).unwrap();
    assert_eq!(s.last_update_id, 77);
    assert_eq!(units(&s.bids), vec![(100 * UNIT, 5 * UNIT)]);
    assert_eq!(units(&s.asks), vec![(101 * UNIT, 3 * UNIT)]);
    let bad = RawSnapshot { last_update_id: 1, bids: text_rows(&[("", "5")]), asks: vec![] };
    assert!(BinanceExchange::new().convert_snapshot(bad).is_none());
}

#[test]
fn binance_frames() {
    let raw = RawDepthUpdate {
        event_time: 1,
        transaction_time: 2,
        symbol: "DOGEUSDT".to_string(),
        capital_u: 11,
        small_u: 12,
        pu: 10,
        bids: vec![],
        asks: vec![],
    };
    match on_frame(Frame::Parsed(raw)) {
        Reply::Deliver(ExchangeMessage::Update(d)) => assert_eq!(d.small_u, 12),
        other => panic!("unexpected reply {:?}", other),
    }
    let bad = RawDepthUpdate {
        event_time: 1,
        transaction_time: 2,
        symbol: "DOGEUSDT".to_string(),
        capital_u: 11,
        small_u: 12,
        pu: 10,
        bids: text_rows(&[("a", "b")]),
        asks: vec![],
    };
    assert!(matches!(on_frame(Frame::Parsed(bad)), Reply::Skip));
    assert!(matches!(on_frame(Frame::Unparsed), Reply::Skip));
    assert!(matches!(on_frame(Frame::Other), Reply::Skip));
    assert!(matches!(on_frame(Frame::Close), Reply::Stop));
    assert!(matches!(on_frame(Frame::Failed), Reply::Stop));
    match on_frame(Frame::Ping(vec![1, 2, 3])) {
        Reply::Pong(payload) => assert_eq!(payload, vec![1, 2, 3]),
        other => panic!("unexpected reply {:?}", other),
    }
}

#[test]
fn hyperliquid_levels_that_do_not_parse_are_left_out() {
    let rows = convert_levels(&levels(&[("100.5", "2"), ("bad", "1"), ("100", "0.25"), ("1", "")]));
    assert_eq!(units(&rows), vec![(100 * UNIT + UNIT / 2, 2 * UNIT), (100 * UNIT, UNIT / 4)]);
}

#[test]
fn hyperliquid_book_as_snapshot() {
    let s = HyperliquidExchange::new().convert_ws_book_to_snapshot(book(1_700_000_000_000));
    assert_eq!(s.last_update_id, 1_700_000_000_000);
    assert_eq!(units(&s.bids), vec![(100 * UNIT + UNIT / 2, 2 * UNIT), (100 * UNIT, UNIT / 4)]);
    assert_eq!(units(&s.asks), vec![(101 * UNIT + UNIT / 2, 4 * UNIT)]);
}

#[test]
fn hyperliquid_book_as_update() {
    let d = HyperliquidExchange::new().convert_ws_book_to_update(book(1_700_000_000_000));
    assert_eq!(d.event_time, 1_700_000_000_000);
    assert_eq!(d.transaction_time, 1_700_000_000_000);
    assert_eq!(d.symbol, "SOL");
    assert_eq!(d.capital_u, 1_700_000_000_000);
    assert_eq!(d.small_u, 1_700_000_000_000);
    assert_eq!(d.pu, 1_699_999_999_999);
    assert_eq!(units(&d.bids), vec![(100 * UNIT + UNIT / 2, 2 * UNIT), (100 * UNIT, UNIT / 4)]);
    assert_eq!(units(&d.asks), vec![(101 * UNIT + UNIT / 2, 4 * UNIT)]);
}

#[test]
fn hyperliquid_predecessor_at_the_edges() {
    let venue = HyperliquidExchange::new();
    assert_eq!(venue.convert_ws_book_to_update(book(0)).pu, -1);
    assert_eq!(venue.convert_ws_book_to_update(book(1)).pu, 0);
    assert_eq!(venue.convert_ws_book_to_update(book(1 << 63)).pu, i64::MAX);
    assert_eq!(venue.convert_ws_book_to_update(book((1 << 63) + 1)).pu, i64::MIN);
    assert_eq!(venue.convert_ws_book_to_update(book(u64::MAX)).pu, -2);
}

#[test]
fn hyperliquid_fetched_book_takes_the_time_of_the_request() {
    let s = HyperliquidExchange::new().convert_l2_book(
        &levels(&[("100", "1")]),
        &levels(&[("101", "2"), ("?", "2")]),
        123_456,
    );
    assert_eq!(s.last_update_id, 123_456);
    assert_eq!(units(&s.bids), vec![(100 * UNIT, UNIT)]);
    assert_eq!(units(&s.asks), vec![(101 * UNIT, 2 * UNIT)]);
}

#[test]
fn hyperliquid_stream_starts_with_a_snapshot() {
    let mut stream = HyperliquidStream::new();
    assert!(matches!(stream.on_frame(Frame::Unparsed), Reply::Skip));
    match stream.on_frame(Frame::Ping(vec![9])) {
        Reply::Pong(payload) => assert_eq!(payload, vec![9]),
        other => panic!("unexpected reply {:?}", other),
    }
    match stream.on_frame(Frame::Parsed(book(1_000))) {
        Reply::Deliver(ExchangeMessage::Snapshot(s)) => assert_eq!(s.last_update_id, 1_000),
        other => panic!("unexpected reply {:?}", other),
    }
    match stream.on_frame(Frame::Parsed(book(1_001))) {
        Reply::Deliver(ExchangeMessage::Update(d)) => {
            assert_eq!((d.capital_u, d.small_u, d.pu), (1_001, 1_001, 1_000))
        }
        other => panic!("unexpected reply {:?}", other),
    }
    assert!(matches!(stream.on_frame(Frame::Other), Reply::Skip));
    assert!(matches!(stream.on_frame(Frame::Close), Reply::Stop));
    assert!(matches!(stream.on_frame(Frame::Failed), Reply::Stop));
}

#[test]
fn hyperliquid_books_one_millisecond_apart_are_contiguous() {
    let mut stream = HyperliquidStream::new();
    let mut replica = BookReplica::new();
    for time in [1_000u64, 1_000, 1_001, 1_002] {
        match stream.on_frame(Frame::Parsed(book(time))) {
            Reply::Deliver(message) => assert!(!replica.on_message(message)),
            other => panic!("unexpected reply {:?}", other),
        }
    }
    assert_eq!(replica.last_applied_u(), 1_002);
    assert!(replica.is_synced());
    let level = replica.bids().orders_at(Amount::from_units(100 * UNIT).unwrap()).unwrap();
    assert_eq!(level.len(), 1);
    assert_eq!(level[0].units(), UNIT / 4);
    match stream.on_frame(Frame::Parsed(book(1_004))) {
        Reply::Deliver(message) => assert!(replica.on_message(message)),
        other => panic!("unexpected reply {:?}", other),
    }
    assert_eq!(replica.last_applied_u(), 1_002);
}

#[test]
fn hyperliquid_book_after_the_snapshot_must_straddle_it() {
    let mut stream = HyperliquidStream::new();
    let mut replica = BookReplica::new();
    match stream.on_frame(Frame::Parsed(book(1_000))) {
        Reply::Deliver(message) => assert!(!replica.on_message(message)),
        other => panic!("unexpected reply {:?}", other),
    }
    match stream.on_frame(Frame::Parsed(book(1_001))) {
        Reply::Deliver(message) => assert!(replica.on_message(message)),
        other => panic!("unexpected reply {:?}", other),
    }
    assert_eq!(replica.last_applied_u(), 1_000);
    assert!(!replica.is_synced());
}

#[test]
fn a_snapshot_read_back_from_json_gives_the_same_book() {
    let text = "{\"lastUpdateId\":10,\"bids\":[[\"100\",\"5\"],[\"99.5\",\"1.25\"]],\"asks\":[[\"101\",\"3\"]]}";
    let value: serde_json::Value = serde_json::from_str(text).unwrap();
    let side = |name: &str| -> Vec<(String, String)> {
        value[name]
            .as_array()
            .unwrap()
            .iter()
            .map(|row| (row[0].as_str().unwrap().to_string(), row[1].as_str().unwrap().to_string()))
            .collect()
    };
    let raw = RawSnapshot {
        last_update_id: value["lastUpdateId"].as_u64().unwrap(),
        bids: side("bids"),
        asks: side("asks"),
    };
    let read = BinanceExchange::new().convert_snapshot(raw).unwrap();
    let mut from_json = BookReplica::new();
    from_json.apply_snapshot(&read);

    let amt = |units: i128| Amount::from_units(units).unwrap();
    let direct = multi_exchange_l3_est::exchanges::OrderBookSnapshot {
        last_update_id: 10,
        bids: vec![(amt(100 * UNIT), amt(5 * UNIT)), (amt(99 * UNIT + UNIT / 2), amt(UNIT + UNIT / 4))],
        asks: vec![(amt(101 * UNIT), amt(3 * UNIT))],
    };
    let mut built = BookReplica::new();
    built.apply_snapshot(&direct);

    assert_eq!(from_json.last_applied_u(), built.last_applied_u());
    assert_eq!(from_json.bids().prices(), built.bids().prices());
    assert_eq!(from_json.asks().prices(), built.asks().prices());
    for price in built.bids().prices() {
        assert_eq!(from_json.bids().orders_at(price), built.bids().orders_at(price));
    }
    for price in built.asks().prices() {
        assert_eq!(from_json.asks().orders_at(price), built.asks().orders_at(price));
    }
}
