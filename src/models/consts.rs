use vstd::prelude::*;

verus! {

/// Buffer limit of the broadcast channel
pub const CHANNEL_BUFFER_LIMIT: usize = 1024;

/// Depth of the outbound buffer of one subscriber
pub const CLIENT_BUFFER_LIMIT: usize = 100;

/// Binance Web Socket URL endpoint
pub const BINANCE_WS_API: &'static str = "wss://stream.binance.com:9443";

/// Bitstamp Web Socket URL endpoint
pub const BITSTAMP_WS_API: &'static str = "wss://ws.bitstamp.net";

/// Consecutive failures tolerated before a warning is due
pub const ERR_COUNT_LOG: u32 = 100;

/// Binance depth level. We set it to 20
pub const DEPTH_LEVEL_BINANCE: &'static str = "depth20";

/// Binance web socket stream speed. We set it to 100 ms
pub const UPDATE_SPEED_BINANCE: &'static str = "100ms";

/// Port at which the gRPC server runs
pub const SERVER_PORT: &'static str = "50505";

/// IP address at which the gRPC server runs
pub const IP_ADDRESS: &'static str = "[::1]";

/// Number of price levels kept on each side of a summary
pub const MAX_PAIR_EXCHANGE: usize = 10;

/// Decimal places carried by prices and quantities
pub const PRICE_DECIMALS: usize = 8;

/// One price or quantity unit is `1 / PRICE_SCALE`
pub const PRICE_SCALE: u64 = 100000000;

} // verus!
