use vstd::prelude::*;
use vstd::string::StringExecFns;

use super::consts::{BINANCE_WS_API, DEPTH_LEVEL_BINANCE, ERR_COUNT_LOG, UPDATE_SPEED_BINANCE};
use super::mapper::{BinanceStreamData, BitstampData, Exchange};
use super::messages::{BidsAsks, OrderbookMessage};

verus! {

/// The Binance stream of `symbol`: its depth level and update cadence are
/// path segments of the URL.
pub fn binance_stream_url(symbol: &str) -> (r: String)
    ensures
        r@ == BINANCE_WS_API@ + "/ws/"@ + symbol@ + "@"@ + DEPTH_LEVEL_BINANCE@ + "@"@
            + UPDATE_SPEED_BINANCE@,
{
    let mut url = String::from_str(BINANCE_WS_API);
    url.append("/ws/");
    url.append(symbol);
    url.append("@");
    url.append(DEPTH_LEVEL_BINANCE);
    url.append("@");
    url.append(UPDATE_SPEED_BINANCE);
    url
}

/// The Bitstamp channel that carries the order book of `symbol`.
pub fn bitstamp_channel(symbol: &str) -> (r: String)
    ensures
        r@ == "order_book_"@ + symbol@,
{
    let mut channel = String::from_str("order_book_");
    channel.append(symbol);
    channel
}

/// The bus message for a Binance payload: its asks and bids, tagged with
/// Binance.
pub fn binance_message(data: BinanceStreamData) -> (r: OrderbookMessage)
    ensures
        r.orders().exchange == Exchange::Binance,
        r.orders().asks@ == data.asks@,
        r.orders().bids@ == data.bids@,
{
    BidsAsks { bids: data.bids, asks: data.asks }.into_message(Exchange::Binance)
}

/// Whether a Bitstamp payload is an order-book update: control payloads
/// carry no timestamp or no price levels.
pub open spec fn is_bitstamp_update(data: BitstampData) -> bool {
    data.data.timestamp is Some && data.data.asks is Some && data.data.bids is Some
}

/// The bus message for a Bitstamp payload, tagged with Bitstamp; `None` for
/// a payload that is no order-book update.
pub fn bitstamp_message(data: BitstampData) -> (r: Option<OrderbookMessage>)
    ensures
        r is Some <==> is_bitstamp_update(data),
        r is Some ==> {
            let o = r->Some_0.orders();
            &&& o.exchange == Exchange::Bitstamp
            &&& o.asks@ == data.data.asks->Some_0@
            &&& o.bids@ == data.data.bids->Some_0@
        },
{
    if data.data.timestamp.is_none() {
        return None;
    }
    match (data.data.asks, data.data.bids) {
        (Some(asks), Some(bids)) => Some(BidsAsks { bids, asks }.into_message(Exchange::Bitstamp)),
        _ => None,
    }
}

/// Counts consecutive failures of one kind, and says when a warning is due:
/// on the failure that follows `ERR_COUNT_LOG` consecutive ones, after which
/// counting starts again.
pub struct FailureCounter {
    /// Consecutive failures since the last success or warning
    pub failures: u32,
}

impl FailureCounter {
    pub fn new() -> (r: FailureCounter)
        ensures
            r.failures == 0,
    {
        FailureCounter { failures: 0 }
    }

    /// Records one attempt; returns whether a warning is due.
    pub fn record(&mut self, succeeded: bool) -> (warn: bool)
        ensures
            warn == (!succeeded && old(self).failures >= ERR_COUNT_LOG),
            final(self).failures == if succeeded || warn {
                0
            } else {
                old(self).failures + 1
            },
    {
        if succeeded {
            self.failures = 0;
            false
        } else if self.failures >= ERR_COUNT_LOG {
            self.failures = 0;
            true
        } else {
            self.failures = self.failures + 1;
            false
        }
    }
}

} // verus!
