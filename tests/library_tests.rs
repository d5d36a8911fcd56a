use crypto_streamer::models::consts::{ERR_COUNT_LOG, MAX_PAIR_EXCHANGE, PRICE_SCALE};
use crypto_streamer::models::errors::OrderbookError;
use crypto_streamer::models::mapper::{
    de_float_from_str, de_usize_from_str, parse_levels, BinanceStreamData, BitstampData,
    BitstampStreamData, Exchange, OfferData,
};
use crypto_streamer::models::messages::{BidsAsks, OrderbookMessage, Orders};
use crypto_streamer::models::ranking::rank_levels;
use crypto_streamer::models::stream::{
    binance_message, binance_stream_url, bitstamp_channel, bitstamp_message, FailureCounter,
};
use crypto_streamer::models::stream_service::{
    AggregationSession, SessionAction, SessionState, StreamService, Summary,
};

fn lvl(price: u64, quantity: u64) -> OfferData {
    OfferData { price, quantity }
}

fn message(exchange: Exchange, asks: Vec<OfferData>, bids: Vec<OfferData>) -> OrderbookMessage {
    OrderbookMessage::Message { message: Box::new(Orders { exchange, asks, bids }) }
}

fn text_pairs(pairs: &[(&str, &str)]) -> Vec<(String, String)> {
    pairs.iter().map(|(p, q)| (p.to_string(), q.to_string())).collect()
}

fn summary_key(s: &Summary) -> (i128, Vec<(String, u64, u64)>, Vec<(String, u64, u64)>) {
    let side = |v: &Vec<crypto_streamer::models::stream_service::Level>| {
        v.iter().map(|l| (l.exchange.clone(), l.price, l.amount)).collect::<Vec<_>>()
    };
    (s.spread, side(&s.asks), side(&s.bids))
}

#[test]
fn ranking_orders_asks_up_and_bids_down() {
    let mut asks = vec![lvl(7, 1), lvl(3, 1), lvl(9, 1), lvl(3, 2), lvl(1, 1)];
    let mut bids = asks.clone();
    rank_levels(&mut asks, true);
    rank_levels(&mut bids, false);
    let ask_prices: Vec<u64> = asks.iter().map(|o| o.price).collect();
    let bid_prices: Vec<u64> = bids.iter().map(|o| o.price).collect();
    assert_eq!(ask_prices, vec![1, 3, 3, 7, 9]);
    assert_eq!(bid_prices, vec![9, 7, 3, 3, 1]);
}

#[test]
fn ranking_keeps_input_order_at_equal_prices() {
    let mut asks = vec![lvl(5, 10), lvl(2, 20), lvl(5, 30), lvl(2, 40), lvl(5, 50)];
    rank_levels(&mut asks, true);
    assert_eq!(asks, vec![lvl(2, 20), lvl(2, 40), lvl(5, 10), lvl(5, 30), lvl(5, 50)]);
    let mut bids = vec![lvl(5, 10), lvl(2, 20), lvl(5, 30), lvl(2, 40), lvl(5, 50)];
    rank_levels(&mut bids, false);
    assert_eq!(bids, vec![lvl(5, 10), lvl(5, 30), lvl(5, 50), lvl(2, 20), lvl(2, 40)]);
}

#[test]
fn ranking_empty_side_stays_empty() {
    let mut levels: Vec<OfferData> = Vec::new();
    rank_levels(&mut levels, true);
    assert!(levels.is_empty());
}

#[test]
fn truncation_keeps_the_best_levels() {
    let mut asks: Vec<OfferData> = (1..=15u64).rev().map(|p| lvl(p * 100, p)).collect();
    let mut bids: Vec<OfferData> = (1..=15u64).map(|p| lvl(p * 100, p)).collect();
    let (a, b) = StreamService::sort_and_convert(&mut asks, &mut bids, &Exchange::Bitstamp);
    assert_eq!(a.len(), MAX_PAIR_EXCHANGE);
    assert_eq!(b.len(), MAX_PAIR_EXCHANGE);
    let ask_prices: Vec<u64> = a.iter().map(|l| l.price).collect();
    let bid_prices: Vec<u64> = b.iter().map(|l| l.price).collect();
    assert_eq!(ask_prices, (1..=10u64).map(|p| p * 100).collect::<Vec<_>>());
    assert_eq!(bid_prices, (6..=15u64).rev().map(|p| p * 100).collect::<Vec<_>>());
    assert!(a.iter().all(|l| l.exchange == "Bitstamp"));
    assert_eq!(a[0].amount, 1);
}

#[test]
fn spread_example_summary() {
    let scale = PRICE_SCALE;
    let msg = message(
        Exchange::Bitstamp,
        vec![lvl(60 * scale, 550_000_000), lvl(65 * scale, 210_000_000), lvl(75 * scale, 80_000_000)],
        vec![lvl(49 * scale, 710_000_000), lvl(53 * scale, 150_000_000), lvl(51 * scale, 720_000_000)],
    );
    let summary = StreamService::handle_message(&msg).unwrap();
    assert_eq!(summary.spread, 7 * scale as i128);
    let asks: Vec<u64> = summary.asks.iter().map(|l| l.price / scale).collect();
    let bids: Vec<u64> = summary.bids.iter().map(|l| l.price / scale).collect();
    assert_eq!(asks, vec![60, 65, 75]);
    assert_eq!(bids, vec![53, 51, 49]);
    assert_eq!(summary.asks[0].exchange, "Bitstamp");
}

#[test]
fn spread_can_be_negative() {
    let msg = message(Exchange::Binance, vec![lvl(40, 1)], vec![lvl(45, 1), lvl(41, 1)]);
    let summary = StreamService::handle_message(&msg).unwrap();
    assert_eq!(summary.spread, -5);
}

#[test]
fn ranking_twice_gives_identical_summaries() {
    let msg = message(
        Exchange::Binance,
        vec![lvl(8, 1), lvl(8, 2), lvl(3, 3), lvl(12, 4)],
        vec![lvl(2, 5), lvl(2, 6), lvl(1, 7)],
    );
    let first = StreamService::handle_message(&msg).unwrap();
    let second = StreamService::handle_message(&msg).unwrap();
    assert_eq!(summary_key(&first), summary_key(&second));
}

#[test]
fn empty_side_has_no_summary() {
    let no_bids = message(Exchange::Binance, vec![lvl(1, 1)], vec![]);
    let no_asks = message(Exchange::Binance, vec![], vec![lvl(1, 1)]);
    assert!(matches!(StreamService::handle_message(&no_bids), Err(OrderbookError::EmptySide)));
    assert!(matches!(StreamService::handle_message(&no_asks), Err(OrderbookError::EmptySide)));
}

#[test]
fn decimal_texts_parse_to_units() {
    assert_eq!(de_float_from_str("0.06123400"), Ok(6_123_400));
    assert_eq!(de_float_from_str("12"), Ok(1_200_000_000));
    assert_eq!(de_float_from_str("12.5"), Ok(1_250_000_000));
    assert_eq!(de_float_from_str("0.00000001"), Ok(1));
    assert_eq!(de_float_from_str("007.10"), Ok(710_000_000));
    assert_eq!(de_float_from_str("184467440737.09551615"), Ok(u64::MAX));
    assert_eq!(de_float_from_str("+1"), Ok(100_000_000));
    assert_eq!(de_float_from_str("+0.5"), Ok(50_000_000));
}

#[test]
fn malformed_decimal_texts_are_refused() {
    for text in [
        "", ".5", "5.", "1.123456789", "-1", "+", "++1", "+-1", "-+1", "1e5", "1.2.3", "abc", " 1", "184467440737.09551616",
        "99999999999999999999",
    ] {
        assert_eq!(de_float_from_str(text), Err(OrderbookError::InvalidNumber), "{}", text);
    }
}

#[test]
fn integer_texts_parse() {
    assert_eq!(de_usize_from_str("1652956321"), Ok(Some(1_652_956_321)));
    assert_eq!(de_usize_from_str("0"), Ok(Some(0)));
    assert_eq!(de_usize_from_str("+1"), Ok(Some(1)));
    assert_eq!(de_usize_from_str("+"), Err(OrderbookError::InvalidNumber));
    assert_eq!(de_usize_from_str("++1"), Err(OrderbookError::InvalidNumber));
    assert_eq!(de_usize_from_str("-1"), Err(OrderbookError::InvalidNumber));
    assert_eq!(de_usize_from_str(""), Err(OrderbookError::InvalidNumber));
    assert_eq!(de_usize_from_str("12a"), Err(OrderbookError::InvalidNumber));
    assert_eq!(de_usize_from_str("1.5"), Err(OrderbookError::InvalidNumber));
    assert_eq!(
        de_usize_from_str("999999999999999999999999"),
        Err(OrderbookError::InvalidNumber)
    );
}

#[test]
fn level_texts_parse_in_order() {
    let raw = text_pairs(&[("0.061234", "1.5"), ("0.0612", "20")]);
    let levels = parse_levels(&raw).unwrap();
    assert_eq!(levels, vec![lvl(6_123_400, 150_000_000), lvl(6_120_000, 2_000_000_000)]);
    let bad = text_pairs(&[("0.061234", "1.5"), ("x", "20")]);
    assert_eq!(parse_levels(&bad), Err(OrderbookError::InvalidNumber));
    assert_eq!(OfferData::from_text("1", "2"), Ok(lvl(PRICE_SCALE, 2 * PRICE_SCALE)));
    assert_eq!(OfferData::from_text("1", "-2"), Err(OrderbookError::InvalidNumber));
}

#[test]
fn binance_payload_becomes_tagged_message() {
    let bids = text_pairs(&[("0.0024", "10")]);
    let asks = text_pairs(&[("0.0026", "100"), ("0.0025", "5")]);
    let data = BinanceStreamData::from_text_levels(160, &bids, &asks).unwrap();
    assert_eq!(data.last_update_id, 160);
    let OrderbookMessage::Message { message } = binance_message(data);
    assert_eq!(message.exchange, Exchange::Binance);
    assert_eq!(message.asks, vec![lvl(260_000, 10_000_000_000), lvl(250_000, 500_000_000)]);
    assert_eq!(message.bids, vec![lvl(240_000, 1_000_000_000)]);
    let bad = text_pairs(&[("0.0024", "")]);
    assert!(BinanceStreamData::from_text_levels(1, &bad, &asks).is_err());
}

fn bitstamp(data: BitstampStreamData) -> BitstampData {
    BitstampData { data, channel: "order_book_ethbtc".to_string(), event: "data".to_string() }
}

#[test]
fn bitstamp_update_becomes_tagged_message() {
    let data = BitstampStreamData::from_text_fields(
        &Some("1652956321".to_string()),
        &Some("1652956321123456".to_string()),
        &Some(text_pairs(&[("0.07", "1")])),
        &Some(text_pairs(&[("0.08", "2")])),
    )
    .unwrap();
    assert_eq!(data.timestamp, Some(1_652_956_321));
    assert_eq!(data.microtimestamp, Some(1_652_956_321_123_456));
    let msg = bitstamp_message(bitstamp(data)).unwrap();
    let OrderbookMessage::Message { message } = msg;
    assert_eq!(message.exchange, Exchange::Bitstamp);
    assert_eq!(message.asks, vec![lvl(8_000_000, 200_000_000)]);
    assert_eq!(message.bids, vec![lvl(7_000_000, 100_000_000)]);
}

#[test]
fn bitstamp_control_payload_is_not_forwarded() {
    let empty = BitstampStreamData::from_text_fields(&None, &None, &None, &None).unwrap();
    assert!(bitstamp_message(bitstamp(empty)).is_none());
    let no_levels =
        BitstampStreamData::from_text_fields(&Some("1".to_string()), &None, &None, &None).unwrap();
    assert!(bitstamp_message(bitstamp(no_levels)).is_none());
    let no_time = BitstampStreamData::from_text_fields(
        &None,
        &None,
        &Some(text_pairs(&[("1", "1")])),
        &Some(text_pairs(&[("2", "1")])),
    )
    .unwrap();
    assert!(bitstamp_message(bitstamp(no_time)).is_none());
    let bad_time =
        BitstampStreamData::from_text_fields(&Some("soon".to_string()), &None, &None, &None);
    assert!(matches!(bad_time, Err(OrderbookError::InvalidNumber)));
}

#[test]
fn sides_are_tagged_by_into_message() {
    let sides = BidsAsks { bids: vec![lvl(1, 1)], asks: vec![lvl(2, 2)] };
    let OrderbookMessage::Message { message } = sides.into_message(Exchange::Bitstamp);
    assert_eq!(message.exchange, Exchange::Bitstamp);
    assert_eq!(message.bids, vec![lvl(1, 1)]);
    assert_eq!(message.asks, vec![lvl(2, 2)]);
}

#[test]
fn feed_addresses() {
    assert_eq!(
        binance_stream_url("ethbtc"),
        "wss://stream.binance.com:9443/ws/ethbtc@depth20@100ms"
    );
    assert_eq!(bitstamp_channel("ethbtc"), "order_book_ethbtc");
}

#[test]
fn exchange_names() {
    assert_eq!(Exchange::Binance.name(), "Binance");
    assert_eq!(Exchange::Bitstamp.name(), "Bitstamp");
}

#[test]
fn failure_counter_warns_after_threshold() {
    let mut counter = FailureCounter::new();
    for _ in 0..ERR_COUNT_LOG {
        assert!(!counter.record(false));
    }
    assert_eq!(counter.failures, ERR_COUNT_LOG);
    assert!(counter.record(false));
    assert_eq!(counter.failures, 0);
    assert!(!counter.record(false));
    assert!(!counter.record(true));
    assert_eq!(counter.failures, 0);
}

#[test]
fn session_forwards_skips_and_stops() {
    let mut session = AggregationSession::new();
    assert!(session.is_active());
    let full = message(Exchange::Binance, vec![lvl(5, 1)], vec![lvl(4, 1)]);
    match session.on_update(&full) {
        SessionAction::Forward(summary) => assert_eq!(summary.spread, 1),
        SessionAction::Skip => panic!("update with both sides was skipped"),
    }
    let half = message(Exchange::Binance, vec![], vec![lvl(4, 1)]);
    assert!(matches!(session.on_update(&half), SessionAction::Skip));
    session.on_send_result(true);
    assert_eq!(session.state, SessionState::Active);
    session.on_lagged();
    assert_eq!(session.state, SessionState::Active);
    session.on_send_result(false);
    assert_eq!(session.state, SessionState::Draining);
    assert!(!session.is_active());
    session.finish();
    assert_eq!(session.state, SessionState::Terminated);
}

#[test]
fn session_drains_when_bus_closes() {
    let mut session = AggregationSession::new();
    session.on_bus_closed();
    assert_eq!(session.state, SessionState::Draining);
    session.on_send_result(false);
    assert_eq!(session.state, SessionState::Draining);
}

#[test]
fn service_keeps_symbol() {
    let service = StreamService::new("ethbtc".to_string());
    assert_eq!(service.symbol, "ethbtc");
}

#[test]
fn bitstamp_timestamp_may_carry_plus_sign() {
    let data = BitstampStreamData::from_text_fields(&Some("+17".to_string()), &None, &None, &None)
        .unwrap();
    assert_eq!(data.timestamp, Some(17));
}
