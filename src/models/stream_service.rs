use vstd::prelude::*;
use vstd::slice::slice_to_vec;

use super::consts::MAX_PAIR_EXCHANGE;
use super::errors::OrderbookError;
use super::mapper::{exchange_name, Exchange, OfferData};
use super::messages::{OrderbookMessage, Orders};
use super::ranking::{
    is_stable_ranking, lemma_kept_levels_are_best_inputs, lemma_stable_ranking_unique, rank_levels,
    ranks_before,
};

verus! {

/// One ranked price level as sent to subscribers.
#[derive(Debug, Clone)]
pub struct Level {
    /// Name of the feed the level comes from
    pub exchange: String,
    /// Price, in units of `1 / PRICE_SCALE`
    pub price: u64,
    /// Quantity offered at that price, in units of `1 / PRICE_SCALE`
    pub amount: u64,
}

/// The ranked, truncated summary of one update.
#[derive(Debug, Clone)]
pub struct Summary {
    /// Best ask price minus best bid price, in units of `1 / PRICE_SCALE`
    pub spread: i128,
    /// Bids, highest price first
    pub bids: Vec<Level>,
    /// Asks, lowest price first
    pub asks: Vec<Level>,
}

/// A level seen as (feed name, price, amount).
pub type LevelView = (Seq<char>, u64, u64);

/// A summary seen as (spread, asks, bids).
pub type SummaryView = (int, Seq<LevelView>, Seq<LevelView>);

impl View for Level {
    type V = LevelView;

    open spec fn view(&self) -> LevelView {
        (self.exchange@, self.price, self.amount)
    }
}

pub open spec fn levels_view(v: Seq<Level>) -> Seq<LevelView> {
    v.map_values(|l: Level| l@)
}

impl View for Summary {
    type V = SummaryView;

    open spec fn view(&self) -> SummaryView {
        (self.spread as int, levels_view(self.asks@), levels_view(self.bids@))
    }
}

/// How many levels of a side of `len` levels a summary keeps.
pub open spec fn kept_len(len: nat) -> nat {
    if len < MAX_PAIR_EXCHANGE {
        len
    } else {
        MAX_PAIR_EXCHANGE as nat
    }
}

/// The level that `o` becomes once tagged with feed `e`.
pub open spec fn level_view(o: OfferData, e: Exchange) -> LevelView {
    (exchange_name(e), o.price, o.quantity)
}

/// The leading levels of ranked `s` that a summary keeps, tagged with feed `e`.
pub open spec fn tagged_top(s: Seq<OfferData>, e: Exchange) -> Seq<LevelView> {
    s.take(kept_len(s.len()) as int).map_values(|o: OfferData| level_view(o, e))
}

/// The summary built from ranked asks `ra` and ranked bids `rb` of feed `e`.
pub open spec fn summary_from(ra: Seq<OfferData>, rb: Seq<OfferData>, e: Exchange) -> SummaryView {
    (ra[0].price - rb[0].price, tagged_top(ra, e), tagged_top(rb, e))
}

/// `sm` is the summary of update `o`: asks ranked lowest price first and bids
/// highest first (stably), each side truncated and tagged with the feed, and
/// the spread taken between the two best prices.
pub open spec fn is_summary_of(sm: SummaryView, o: Orders) -> bool {
    exists|ra: Seq<OfferData>, rb: Seq<OfferData>|
        #![trigger summary_from(ra, rb, o.exchange)]
        is_stable_ranking(ra, o.asks@, true) && is_stable_ranking(rb, o.bids@, false) && sm
            == summary_from(ra, rb, o.exchange)
}

/// Ranking is a pure function of the update: two summaries of the same update
/// are identical.
pub proof fn lemma_summary_deterministic(s1: SummaryView, s2: SummaryView, o: Orders)
    requires
        is_summary_of(s1, o),
        is_summary_of(s2, o),
    ensures
        s1 == s2,
{
    let (ra1, rb1) = choose|ra: Seq<OfferData>, rb: Seq<OfferData>|
        is_stable_ranking(ra, o.asks@, true) && is_stable_ranking(rb, o.bids@, false) && s1
            == summary_from(ra, rb, o.exchange);
    let (ra2, rb2) = choose|ra: Seq<OfferData>, rb: Seq<OfferData>|
        is_stable_ranking(ra, o.asks@, true) && is_stable_ranking(rb, o.bids@, false) && s2
            == summary_from(ra, rb, o.exchange);
    lemma_stable_ranking_unique(ra1, ra2, o.asks@, true);
    lemma_stable_ranking_unique(rb1, rb2, o.bids@, false);
}

/// The sides of a summary are ordered, asks by non-decreasing and bids by
/// non-increasing price, and hold at most `MAX_PAIR_EXCHANGE` levels each.
pub proof fn lemma_summary_sides_ordered(sm: SummaryView, o: Orders)
    requires
        is_summary_of(sm, o),
    ensures
        sm.1.len() <= MAX_PAIR_EXCHANGE,
        sm.2.len() <= MAX_PAIR_EXCHANGE,
        forall|i: int, j: int| 0 <= i < j < sm.1.len() ==> #[trigger] sm.1[i].1 <= #[trigger] sm.1[j].1,
        forall|i: int, j: int| 0 <= i < j < sm.2.len() ==> #[trigger] sm.2[i].1 >= #[trigger] sm.2[j].1,
{
    let (ra, rb) = choose|ra: Seq<OfferData>, rb: Seq<OfferData>|
        is_stable_ranking(ra, o.asks@, true) && is_stable_ranking(rb, o.bids@, false) && sm
            == summary_from(ra, rb, o.exchange);
    assert forall|i: int, j: int| 0 <= i < j < sm.1.len() implies #[trigger] sm.1[i].1
        <= #[trigger] sm.1[j].1 by {
        assert(sm.1[i].1 == ra[i].price && sm.1[j].1 == ra[j].price);
    }
    assert forall|i: int, j: int| 0 <= i < j < sm.2.len() implies #[trigger] sm.2[i].1
        >= #[trigger] sm.2[j].1 by {
        assert(sm.2[i].1 == rb[i].price && sm.2[j].1 == rb[j].price);
    }
}

/// `v` is some level of `s`, tagged with feed `e`.
pub open spec fn is_input_level(v: LevelView, s: Seq<OfferData>, e: Exchange) -> bool {
    exists|j: int| 0 <= j < s.len() && v == level_view(#[trigger] s[j], e)
}

proof fn lemma_tagged_top_keeps_best(r: Seq<OfferData>, s: Seq<OfferData>, e: Exchange, ascending: bool)
    requires
        is_stable_ranking(r, s, ascending),
    ensures
        tagged_top(r, e).len() == kept_len(s.len()),
        forall|i: int|
            0 <= i < tagged_top(r, e).len() ==> is_input_level(#[trigger] tagged_top(r, e)[i], s, e),
        tagged_top(r, e).len() > 0 ==> forall|j: int|
            0 <= j < s.len() && ranks_before(
                #[trigger] s[j].price,
                tagged_top(r, e).last().1,
                ascending,
            ) ==> tagged_top(r, e).contains(level_view(s[j], e)),
{
    let k = kept_len(s.len()) as int;
    let t = tagged_top(r, e);
    lemma_kept_levels_are_best_inputs(r, s, k, ascending);
    assert forall|i: int| 0 <= i < t.len() implies is_input_level(#[trigger] t[i], s, e) by {
        assert(t[i] == level_view(r[i], e));
        assert(s.contains(r[i]));
        let j = choose|j: int| 0 <= j < s.len() && s[j] == r[i];
        assert(t[i] == level_view(s[j], e));
    }
    if t.len() > 0 {
        assert(t.last() == level_view(r[k - 1], e));
        assert forall|j: int|
            0 <= j < s.len() && ranks_before(#[trigger] s[j].price, t.last().1, ascending) implies t.contains(
            level_view(s[j], e),
        ) by {
            assert(r.take(k).contains(s[j]));
            let i = choose|i: int| 0 <= i < k && r.take(k)[i] == s[j];
            assert(t[i] == level_view(s[j], e));
        }
    }
}

/// Truncation: each side of the summary of `o` keeps `min(MAX_PAIR_EXCHANGE,
/// n)` of its `n` input levels, so exactly `MAX_PAIR_EXCHANGE` when there are
/// at least that many; every kept level is an input level of its side; and
/// every input ask priced below the highest kept ask, and every input bid
/// priced above the lowest kept bid, is kept.
pub proof fn lemma_summary_keeps_best(sm: SummaryView, o: Orders)
    requires
        is_summary_of(sm, o),
    ensures
        sm.1.len() == kept_len(o.asks@.len()),
        sm.2.len() == kept_len(o.bids@.len()),
        forall|i: int| 0 <= i < sm.1.len() ==> is_input_level(#[trigger] sm.1[i], o.asks@, o.exchange),
        forall|i: int| 0 <= i < sm.2.len() ==> is_input_level(#[trigger] sm.2[i], o.bids@, o.exchange),
        sm.1.len() > 0 ==> forall|j: int|
            0 <= j < o.asks@.len() && #[trigger] o.asks@[j].price < sm.1.last().1 ==> sm.1.contains(
                level_view(o.asks@[j], o.exchange),
            ),
        sm.2.len() > 0 ==> forall|j: int|
            0 <= j < o.bids@.len() && #[trigger] o.bids@[j].price > sm.2.last().1 ==> sm.2.contains(
                level_view(o.bids@[j], o.exchange),
            ),
{
    let (ra, rb) = choose|ra: Seq<OfferData>, rb: Seq<OfferData>|
        is_stable_ranking(ra, o.asks@, true) && is_stable_ranking(rb, o.bids@, false) && sm
            == summary_from(ra, rb, o.exchange);
    lemma_tagged_top_keeps_best(ra, o.asks@, o.exchange, true);
    lemma_tagged_top_keeps_best(rb, o.bids@, o.exchange, false);
    assert forall|i: int| 0 <= i < sm.1.len() implies is_input_level(
        #[trigger] sm.1[i],
        o.asks@,
        o.exchange,
    ) by {
        assert(tagged_top(ra, o.exchange)[i] == sm.1[i]);
    }
    assert forall|i: int| 0 <= i < sm.2.len() implies is_input_level(
        #[trigger] sm.2[i],
        o.bids@,
        o.exchange,
    ) by {
        assert(tagged_top(rb, o.exchange)[i] == sm.2[i]);
    }
}

/// Life cycle of a subscriber session: it loops while `Active`, stops
/// receiving once `Draining`, and has released its handles once `Terminated`.
#[derive(Clone, Copy, Debug, PartialEq, Eq, Structural)]
pub enum SessionState {
    Active,
    Draining,
    Terminated,
}

/// What a session does with one update received from the bus.
pub enum SessionAction {
    /// Send this summary to the subscriber.
    Forward(Summary),
    /// Send nothing: the update has no spread.
    Skip,
}

/// The decisions of one subscriber session; the loop that receives from the
/// bus and sends to the subscriber runs them.
pub struct AggregationSession {
    pub state: SessionState,
}

impl AggregationSession {
    pub fn new() -> (r: AggregationSession)
        ensures
            r.state == SessionState::Active,
    {
        AggregationSession { state: SessionState::Active }
    }

    /// Whether the session still receives from the bus.
    pub fn is_active(&self) -> (r: bool)
        ensures
            r == (self.state == SessionState::Active),
    {
        self.state == SessionState::Active
    }

    /// The work for one update: forward its summary, or skip an update with
    /// an empty side.
    pub fn on_update(&self, msg: &OrderbookMessage) -> (r: SessionAction)
        ensures
            r is Skip <==> msg.orders().asks.len() == 0 || msg.orders().bids.len() == 0,
            r is Forward ==> is_summary_of(r->Forward_0@, msg.orders()),
    {
        match StreamService::handle_message(msg) {
            Ok(summary) => SessionAction::Forward(summary),
            Err(_) => SessionAction::Skip,
        }
    }

    /// Records the outcome of sending a summary: a subscriber that is gone
    /// ends the session.
    pub fn on_send_result(&mut self, delivered: bool)
        ensures
            final(self).state == if !delivered && old(self).state == SessionState::Active {
                SessionState::Draining
            } else {
                old(self).state
            },
    {
        if !delivered && self.state == SessionState::Active {
            self.state = SessionState::Draining;
        }
    }

    /// The session fell behind and the bus dropped its oldest unread
    /// updates: it keeps receiving.
    pub fn on_lagged(&mut self)
        ensures
            final(self).state == old(self).state,
    {
    }

    /// The bus is closed: no update will come.
    pub fn on_bus_closed(&mut self)
        ensures
            final(self).state == if old(self).state == SessionState::Active {
                SessionState::Draining
            } else {
                old(self).state
            },
    {
        if self.state == SessionState::Active {
            self.state = SessionState::Draining;
        }
    }

    /// The loop has exited and the session's handles are released.
    pub fn finish(&mut self)
        ensures
            final(self).state == SessionState::Terminated,
    {
        self.state = SessionState::Terminated;
    }
}

/// Feed adapters and subscriber sessions of one trading pair.
pub struct StreamService {
    /// Symbol (currency pair) that the feeds are asked for
    pub symbol: String,
}

impl StreamService {
    /// A service for trading pair `symbol`.
    pub fn new(symbol: String) -> (r: StreamService)
        ensures
            r.symbol@ == symbol@,
    {
        StreamService { symbol }
    }

    /// Ranks one update into the summary sent to subscribers. An update whose
    /// asks or bids are empty has no spread and is refused.
    pub fn handle_message(msg: &OrderbookMessage) -> (r: Result<Summary, OrderbookError>)
        ensures
            r is Err <==> msg.orders().asks.len() == 0 || msg.orders().bids.len() == 0,
            r is Err ==> r->Err_0 == OrderbookError::EmptySide,
            r is Ok ==> is_summary_of(r->Ok_0@, msg.orders()),
    {
        let OrderbookMessage::Message { message } = msg;
        let exchange = message.exchange;
        let mut asks = slice_to_vec(message.asks.as_slice());
        let mut bids = slice_to_vec(message.bids.as_slice());
        if asks.len() == 0 || bids.len() == 0 {
            return Err(OrderbookError::EmptySide);
        }
        let (converted_asks, converted_bids) = StreamService::sort_and_convert(
            asks.as_mut_slice(),
            bids.as_mut_slice(),
            &exchange,
        );
        assert(levels_view(converted_asks@).len() == converted_asks@.len());
        assert(levels_view(converted_bids@).len() == converted_bids@.len());
        assert(tagged_top(asks@, exchange).len() == kept_len(asks@.len()));
        assert(tagged_top(bids@, exchange).len() == kept_len(bids@.len()));
        let best_ask = converted_asks[0].price;
        let best_bid = converted_bids[0].price;
        let spread = best_ask as i128 - best_bid as i128;
        let summary = Summary { spread, bids: converted_bids, asks: converted_asks };
        proof {
            assert(levels_view(converted_asks@)[0] == converted_asks@[0]@);
            assert(levels_view(converted_bids@)[0] == converted_bids@[0]@);
            assert(summary@ == summary_from(asks@, bids@, exchange));
        }
        Ok(summary)
    }

    /// Sorts the asks by ascending and the bids by descending price, both
    /// stably, and converts the leading levels of each into the levels sent to
    /// subscribers.
    pub fn sort_and_convert(asks: &mut [OfferData], bids: &mut [OfferData], exchange: &Exchange) -> (r: (
        Vec<Level>,
        Vec<Level>,
    ))
        ensures
            is_stable_ranking(final(asks)@, old(asks)@, true),
            is_stable_ranking(final(bids)@, old(bids)@, false),
            levels_view(r.0@) == tagged_top(final(asks)@, *exchange),
            levels_view(r.1@) == tagged_top(final(bids)@, *exchange),
    {
        rank_levels(asks, true);
        rank_levels(bids, false);

        let converted_asks = StreamService::convert_to_levels(asks, exchange);
        let converted_bids = StreamService::convert_to_levels(bids, exchange);

        (converted_asks, converted_bids)
    }

    /// Converts the leading levels of `securities` into levels tagged with
    /// the feed's name.
    fn convert_to_levels(securities: &[OfferData], exchange: &Exchange) -> (r: Vec<Level>)
        ensures
            levels_view(r@) == tagged_top(securities@, *exchange),
    {
        let n = if securities.len() < MAX_PAIR_EXCHANGE {
            securities.len()
        } else {
            MAX_PAIR_EXCHANGE
        };
        let mut levels: Vec<Level> = Vec::new();
        let mut i: usize = 0;
        while i < n
            invariant
                n == kept_len(securities@.len() as nat),
                i <= n,
                levels_view(levels@) == tagged_top(securities@, *exchange).take(i as int),
            decreases n - i,
        {
            let offer = securities[i];
            let level = Level { exchange: exchange.name(), price: offer.price, amount: offer.quantity };
            let ghost prev = levels@;
            levels.push(level);
            proof {
                assert(levels_view(levels@) =~= levels_view(prev).push(level@));
                assert(tagged_top(securities@, *exchange).take(i + 1) =~= tagged_top(
                    securities@,
                    *exchange,
                ).take(i as int).push(level_view(offer, *exchange)));
            }
            i = i + 1;
        }
        proof {
            assert(tagged_top(securities@, *exchange).take(n as int) =~= tagged_top(
                securities@,
                *exchange,
            ));
        }
        levels
    }
}

} // verus!
