use vstd::prelude::*;

use super::mapper::{Exchange, OfferData};

verus! {

/// Message published on the distribution bus: one self-contained order-book
/// update of one feed.
#[derive(Debug, Clone)]
pub enum OrderbookMessage {
    Message { message: Box<Orders> },
}

/// The asks and bids of one update, tagged with the feed they come from.
#[derive(Debug, Clone)]
pub struct Orders {
    pub exchange: Exchange,
    /// Asks to be updated
    pub asks: Vec<OfferData>,
    /// Bids to be updated
    pub bids: Vec<OfferData>,
}

/// The "buy"s and "sell"s of an order book, not yet tagged with a feed.
#[derive(Debug, Clone)]
pub struct BidsAsks {
    /// Bids to be updated
    pub bids: Vec<OfferData>,
    /// Asks to be updated
    pub asks: Vec<OfferData>,
}

impl OrderbookMessage {
    /// The update carried by the message.
    pub open spec fn orders(&self) -> Orders {
        match self {
            OrderbookMessage::Message { message } => **message,
        }
    }
}

impl BidsAsks {
    /// Tags both sides with the feed they come from.
    pub fn into_message(self, exchange: Exchange) -> (r: OrderbookMessage)
        ensures
            r.orders().exchange == exchange,
            r.orders().asks@ == self.asks@,
            r.orders().bids@ == self.bids@,
    {
        OrderbookMessage::Message {
            message: Box::new(Orders { exchange, asks: self.asks, bids: self.bids }),
        }
    }
}

} // verus!
