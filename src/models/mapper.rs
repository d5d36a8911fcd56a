use vstd::prelude::*;
use vstd::slice::slice_subrange;
use vstd::string::StringSliceAdditionalSpecFns;
use vstd::utf8::encode_utf8;

use super::consts::PRICE_DECIMALS;
use super::errors::OrderbookError;

verus! {

/// One price level: a price and the quantity offered at it, both in units of
/// `1 / PRICE_SCALE`.
#[derive(Clone, Copy, Debug, PartialEq, Eq, Structural)]
pub struct OfferData {
    /// Price level to be updated
    pub price: u64,
    /// Quantity
    pub quantity: u64,
}

/// The feed an update comes from.
#[derive(Clone, Copy, Debug, PartialEq, Eq, Structural)]
pub enum Exchange {
    Binance,
    Bitstamp,
}

/// The name under which a feed is reported to subscribers.
pub open spec fn exchange_name(e: Exchange) -> Seq<char> {
    match e {
        Exchange::Binance => "Binance"@,
        Exchange::Bitstamp => "Bitstamp"@,
    }
}

impl Exchange {
    /// The feed's name, as subscribers see it.
    pub fn name(&self) -> (r: String)
        ensures
            r@ == exchange_name(*self),
    {
        match self {
            Exchange::Binance => String::from_str("Binance"),
            Exchange::Bitstamp => String::from_str("Bitstamp"),
        }
    }
}

/// `c` is an ASCII digit, `0` to `9`.
pub open spec fn is_digit(c: u8) -> bool {
    48 <= c <= 57
}

/// Every byte of `s` is an ASCII digit.
pub open spec fn all_digits(s: Seq<u8>) -> bool {
    forall|i: int| 0 <= i < s.len() ==> is_digit(#[trigger] s[i])
}

/// The number written by the decimal digits `s` (`0` for none).
pub open spec fn digits_value(s: Seq<u8>) -> nat
    decreases s.len(),
{
    if s.len() == 0 {
        0
    } else {
        digits_value(s.drop_last()) * 10 + (s.last() - 48) as nat
    }
}

/// The position of the first `.` in `s`, or `s.len()` when there is none.
pub open spec fn point_index(s: Seq<u8>) -> int
    decreases s.len(),
{
    if s.len() == 0 || s[0] == 46 {
        0
    } else {
        1 + point_index(s.skip(1))
    }
}

/// `k` zero digits.
pub open spec fn zeros(k: nat) -> Seq<u8> {
    Seq::new(k, |i: int| 48u8)
}

/// The digits after the decimal point of `s` (none without a point).
pub open spec fn fraction_digits(s: Seq<u8>) -> Seq<u8> {
    if point_index(s) < s.len() {
        s.skip(point_index(s) + 1)
    } else {
        Seq::empty()
    }
}

/// The digits of `s` scaled to `PRICE_DECIMALS` places: the whole part, the
/// fraction, then zeros up to `PRICE_DECIMALS` fraction digits.
pub open spec fn scaled_digits(s: Seq<u8>) -> Seq<u8> {
    s.take(point_index(s)) + fraction_digits(s) + zeros(
        (PRICE_DECIMALS - fraction_digits(s).len()) as nat,
    )
}

/// `s` is a non-negative decimal number: one or more digits, then optionally a
/// point followed by one to `PRICE_DECIMALS` digits.
pub open spec fn is_decimal_text(s: Seq<u8>) -> bool {
    let d = point_index(s);
    &&& d > 0
    &&& all_digits(s.take(d))
    &&& all_digits(fraction_digits(s))
    &&& d < s.len() ==> 1 <= fraction_digits(s).len() <= PRICE_DECIMALS
}

/// The value of decimal text `s` in units of `1 / PRICE_SCALE`.
pub open spec fn decimal_units(s: Seq<u8>) -> nat {
    digits_value(scaled_digits(s))
}

proof fn lemma_digits_push(s: Seq<u8>, i: int)
    requires
        0 <= i < s.len(),
    ensures
        digits_value(s.take(i + 1)) == digits_value(s.take(i)) * 10 + (s[i] - 48) as nat,
{
    assert(s.take(i + 1).drop_last() =~= s.take(i));
}

proof fn lemma_digits_prefix_bound(s: Seq<u8>, k: int)
    requires
        all_digits(s),
        0 <= k <= s.len(),
    ensures
        digits_value(s.take(k)) <= digits_value(s),
    decreases s.len(),
{
    if k < s.len() {
        assert(all_digits(s.drop_last()));
        lemma_digits_prefix_bound(s.drop_last(), k);
        assert(s.drop_last().take(k) =~= s.take(k));
        assert(s.take(s.len() as int) =~= s);
    } else {
        assert(s.take(k) =~= s);
    }
}

proof fn lemma_scaled_all_digits(s: Seq<u8>)
    requires
        all_digits(s.take(point_index(s))),
        all_digits(fraction_digits(s)),
    ensures
        all_digits(scaled_digits(s)),
{
    let w = s.take(point_index(s));
    let f = fraction_digits(s);
    let z = zeros((PRICE_DECIMALS - f.len()) as nat);
    assert forall|i: int| 0 <= i < scaled_digits(s).len() implies is_digit(
        #[trigger] scaled_digits(s)[i],
    ) by {
        if i < w.len() {
            assert(scaled_digits(s)[i] == w[i]);
        } else if i < w.len() + f.len() {
            assert(scaled_digits(s)[i] == f[i - w.len()]);
        } else {
            assert(scaled_digits(s)[i] == z[i - w.len() - f.len()]);
        }
    }
}

proof fn lemma_point_index(s: Seq<u8>, d: int)
    requires
        0 <= d <= s.len(),
        forall|k: int| 0 <= k < d ==> s[k] != 46,
        d == s.len() || s[d] == 46,
    ensures
        point_index(s) == d,
    decreases d,
{
    if d > 0 {
        lemma_point_index(s.skip(1), d - 1);
    }
}

/// `s` without its leading `+`, if it has one.
pub open spec fn unsigned_part(s: Seq<u8>) -> Seq<u8> {
    if s.len() > 0 && s[0] == 43 {
        s.skip(1)
    } else {
        s
    }
}

/// `s` is one or more decimal digits, optionally preceded by `+`, whose value
/// fits in `usize`.
pub open spec fn is_integer_text(s: Seq<u8>) -> bool {
    let u = unsigned_part(s);
    u.len() > 0 && all_digits(u) && digits_value(u) <= usize::MAX
}

/// The bytes after a leading `+`, or all of them.
fn strip_plus(b: &[u8]) -> (r: &[u8])
    ensures
        r@ == unsigned_part(b@),
{
    if b.len() > 0 && b[0] == 43 {
        assert(b@.subrange(1, b@.len() as int) =~= b@.skip(1));
        slice_subrange(b, 1, b.len())
    } else {
        b
    }
}

/// Appends digit `c` to the number `acc`, unless the result leaves `u64`.
fn push_digit(acc: u64, c: u8) -> (r: Option<u64>)
    requires
        is_digit(c),
    ensures
        acc * 10 + (c - 48) <= u64::MAX ==> r == Some((acc * 10 + (c - 48)) as u64),
        acc * 10 + (c - 48) > u64::MAX ==> r is None,
{
    match acc.checked_mul(10) {
        Some(m) => m.checked_add((c - 48) as u64),
        None => None,
    }
}

/// Parses a decimal number such as `"0.06123400"`, optionally preceded by
/// `+`, into units of `1 / PRICE_SCALE`. A `-` sign, exponents, more than
/// `PRICE_DECIMALS` fraction digits and values beyond `u64` are refused.
pub fn de_float_from_str(text: &str) -> (r: Result<u64, OrderbookError>)
    ensures
        r is Ok <==> is_decimal_text(unsigned_part(text.spec_bytes())) && decimal_units(
            unsigned_part(text.spec_bytes()),
        ) <= u64::MAX,
        r is Ok ==> r->Ok_0 == decimal_units(unsigned_part(text.spec_bytes())),
        r is Err ==> r->Err_0 == OrderbookError::InvalidNumber,
{
    parse_decimal(strip_plus(text.as_bytes()))
}

/// Parses unsigned decimal text into units of `1 / PRICE_SCALE`.
fn parse_decimal(b: &[u8]) -> (r: Result<u64, OrderbookError>)
    ensures
        r is Ok <==> is_decimal_text(b@) && decimal_units(b@) <= u64::MAX,
        r is Ok ==> r->Ok_0 == decimal_units(b@),
        r is Err ==> r->Err_0 == OrderbookError::InvalidNumber,
{
    let n = b.len();
    let ghost s = b@;
    let mut d: usize = 0;
    while d < n && b[d] != 46
        invariant
            d <= n,
            n == s.len(),
            b@ == s,
            forall|k: int| 0 <= k < d ==> s[k] != 46,
        decreases n - d,
    {
        d = d + 1;
    }
    proof {
        lemma_point_index(s, d as int);
    }
    if d == 0 {
        return Err(OrderbookError::InvalidNumber);
    }
    let frac_len: usize = if d < n {
        n - d - 1
    } else {
        0
    };
    if d < n && (frac_len == 0 || frac_len > PRICE_DECIMALS) {
        return Err(OrderbookError::InvalidNumber);
    }
    let ghost whole = s.take(d as int);
    let ghost frac = fraction_digits(s);
    let ghost digits = scaled_digits(s);
    assert(frac.len() == frac_len);
    let mut acc: u64 = 0;
    let mut i: usize = 0;
    while i < n
        invariant
            b@ == s,
            n == s.len(),
            0 < d <= n,
            d == point_index(s),
            frac == fraction_digits(s),
            frac.len() == frac_len <= PRICE_DECIMALS,
            digits == whole + frac + zeros((PRICE_DECIMALS - frac_len) as nat),
            whole == s.take(d as int),
            i <= n,
            all_digits(digits.take(if i <= d { i as int } else { i - 1 })),
            acc == digits_value(digits.take(if i <= d { i as int } else { i - 1 })),
        decreases n - i,
    {
        let ghost pos: int = if i <= d { i as int } else { i - 1 };
        if i != d {
            let c = b[i];
            if c < 48 || c > 57 {
                proof {
                    if i < d {
                        assert(whole[i as int] == c);
                        assert(!is_digit(whole[i as int]));
                    } else {
                        assert(frac[i - d - 1] == c);
                        assert(!is_digit(frac[i - d - 1]));
                    }
                }
                return Err(OrderbookError::InvalidNumber);
            }
            assert(digits[pos] == c) by {
                if i < d {
                    assert(whole[i as int] == c);
                } else {
                    assert(frac[i - d - 1] == c);
                }
            }
            proof {
                lemma_digits_push(digits, pos);
                assert(all_digits(digits.take(pos + 1)));
            }
            match push_digit(acc, c) {
                Some(v) => {
                    acc = v;
                },
                None => {
                    proof {
                        if is_decimal_text(s) {
                            lemma_scaled_all_digits(s);
                            lemma_digits_prefix_bound(digits, pos + 1);
                        }
                    }
                    return Err(OrderbookError::InvalidNumber);
                },
            }
        }
        i = i + 1;
    }
    let ghost body_len: int = if d < n { n - 1 } else { n as int };
    assert(body_len == whole.len() + frac.len());
    proof {
        assert(digits.take(body_len) =~= whole + frac);
        assert forall|k: int| 0 <= k < whole.len() implies is_digit(#[trigger] whole[k]) by {
            assert(whole[k] == digits.take(body_len)[k]);
        }
        assert forall|k: int| 0 <= k < frac.len() implies is_digit(#[trigger] frac[k]) by {
            assert(frac[k] == digits.take(body_len)[whole.len() + k]);
        }
        lemma_scaled_all_digits(s);
    }
    let mut z: usize = frac_len;
    while z < PRICE_DECIMALS
        invariant
            frac_len <= z <= PRICE_DECIMALS,
            b@ == s,
            digits == scaled_digits(s),
            frac.len() == frac_len,
            digits == whole + frac + zeros((PRICE_DECIMALS - frac_len) as nat),
            body_len == whole.len() + frac.len(),
            all_digits(whole),
            all_digits(frac),
            all_digits(digits),
            all_digits(digits.take(body_len + (z - frac_len))),
            acc == digits_value(digits.take(body_len + (z - frac_len))),
        decreases PRICE_DECIMALS - z,
    {
        let ghost pos: int = body_len + (z - frac_len);
        assert(digits[pos] == 48u8);
        proof {
            lemma_digits_push(digits, pos);
            assert(all_digits(digits.take(pos + 1)));
        }
        match push_digit(acc, 48) {
            Some(v) => {
                acc = v;
            },
            None => {
                proof {
                    lemma_digits_prefix_bound(digits, pos + 1);
                }
                return Err(OrderbookError::InvalidNumber);
            },
        }
        z = z + 1;
    }
    assert(digits.take(digits.len() as int) =~= digits);
    Ok(acc)
}

/// Parses a non-negative integer written in decimal digits, optionally
/// preceded by `+`, such as a timestamp; no digits, any other character or a
/// value beyond `usize` is refused.
pub fn de_usize_from_str(text: &str) -> (r: Result<Option<usize>, OrderbookError>)
    ensures
        r is Ok <==> is_integer_text(text.spec_bytes()),
        r is Ok ==> r->Ok_0 == Some(digits_value(unsigned_part(text.spec_bytes())) as usize),
        r is Err ==> r->Err_0 == OrderbookError::InvalidNumber,
{
    let b = strip_plus(text.as_bytes());
    let n = b.len();
    let ghost s = b@;
    if n == 0 {
        return Err(OrderbookError::InvalidNumber);
    }
    let mut acc: u64 = 0;
    let mut i: usize = 0;
    while i < n
        invariant
            b@ == s,
            s == unsigned_part(text.spec_bytes()),
            n == s.len(),
            i <= n,
            all_digits(s.take(i as int)),
            acc == digits_value(s.take(i as int)),
        decreases n - i,
    {
        let c = b[i];
        if c < 48 || c > 57 {
            assert(!is_digit(s[i as int]));
            return Err(OrderbookError::InvalidNumber);
        }
        proof {
            lemma_digits_push(s, i as int);
            assert(all_digits(s.take(i + 1)));
        }
        match push_digit(acc, c) {
            Some(v) => {
                acc = v;
            },
            None => {
                proof {
                    if all_digits(s) {
                        lemma_digits_prefix_bound(s, i + 1);
                    }
                }
                return Err(OrderbookError::InvalidNumber);
            },
        }
        i = i + 1;
    }
    assert(s.take(n as int) =~= s);
    if acc > usize::MAX as u64 {
        return Err(OrderbookError::InvalidNumber);
    }
    Ok(Some(acc as usize))
}

/// What a price or quantity text `t` stands for, in units of
/// `1 / PRICE_SCALE`; `None` when it is no decimal number within `u64`,
/// optionally preceded by `+`.
pub open spec fn text_units(t: Seq<char>) -> Option<u64> {
    let b = unsigned_part(encode_utf8(t));
    if is_decimal_text(b) && decimal_units(b) <= u64::MAX {
        Some(decimal_units(b) as u64)
    } else {
        None
    }
}

/// The level written as price text `p` and quantity text `q`.
pub open spec fn level_of_text(p: Seq<char>, q: Seq<char>) -> Option<OfferData> {
    match (text_units(p), text_units(q)) {
        (Some(price), Some(quantity)) => Some(OfferData { price, quantity }),
        _ => None,
    }
}

/// Every level of `raw` parses, and `levels` holds them in order.
pub open spec fn levels_of_text(raw: Seq<(String, String)>, levels: Seq<OfferData>) -> bool {
    &&& levels.len() == raw.len()
    &&& forall|i: int|
        0 <= i < raw.len() ==> level_of_text(#[trigger] raw[i].0@, raw[i].1@) == Some(levels[i])
}

/// Some level of `raw` does not parse.
pub open spec fn has_bad_level(raw: Seq<(String, String)>) -> bool {
    exists|i: int| 0 <= i < raw.len() && level_of_text(#[trigger] raw[i].0@, raw[i].1@) is None
}

impl OfferData {
    /// Parses a level written as a price text and a quantity text.
    pub fn from_text(price: &str, quantity: &str) -> (r: Result<OfferData, OrderbookError>)
        ensures
            r is Ok <==> level_of_text(price@, quantity@) is Some,
            r is Ok ==> level_of_text(price@, quantity@) == Some(r->Ok_0),
            r is Err ==> r->Err_0 == OrderbookError::InvalidNumber,
    {
        let price = de_float_from_str(price)?;
        let quantity = de_float_from_str(quantity)?;
        Ok(OfferData { price, quantity })
    }
}

/// Parses every level of one side of a payload, in order.
pub fn parse_levels(raw: &Vec<(String, String)>) -> (r: Result<Vec<OfferData>, OrderbookError>)
    ensures
        r is Ok <==> !has_bad_level(raw@),
        r is Ok ==> levels_of_text(raw@, r->Ok_0@),
        r is Err ==> r->Err_0 == OrderbookError::InvalidNumber,
{
    let mut levels: Vec<OfferData> = Vec::new();
    let mut i: usize = 0;
    while i < raw.len()
        invariant
            i <= raw@.len(),
            levels_of_text(raw@.take(i as int), levels@),
        decreases raw@.len() - i,
    {
        let (price, quantity) = &raw[i];
        match OfferData::from_text(price.as_str(), quantity.as_str()) {
            Ok(level) => {
                levels.push(level);
                assert(levels_of_text(raw@.take(i + 1), levels@)) by {
                    assert forall|k: int| 0 <= k < i + 1 implies level_of_text(
                        #[trigger] raw@.take(i + 1)[k].0@,
                        raw@.take(i + 1)[k].1@,
                    ) == Some(levels@[k]) by {
                        if k < i {
                            assert(raw@.take(i + 1)[k] == raw@.take(i as int)[k]);
                        }
                    }
                }
            },
            Err(e) => {
                assert(level_of_text(raw@[i as int].0@, raw@[i as int].1@) is None);
                return Err(e);
            },
        }
        i = i + 1;
    }
    assert(raw@.take(raw@.len() as int) =~= raw@);
    Ok(levels)
}

/// A Binance partial book depth payload.
pub struct BinanceStreamData {
    pub last_update_id: usize,
    /// Bids to be updated
    pub bids: Vec<OfferData>,
    /// Asks to be updated
    pub asks: Vec<OfferData>,
}

impl BinanceStreamData {
    /// Builds the payload from its decoded fields, parsing the level texts.
    pub fn from_text_levels(
        last_update_id: usize,
        bids: &Vec<(String, String)>,
        asks: &Vec<(String, String)>,
    ) -> (r: Result<BinanceStreamData, OrderbookError>)
        ensures
            r is Ok <==> !has_bad_level(bids@) && !has_bad_level(asks@),
            r is Ok ==> r->Ok_0.last_update_id == last_update_id && levels_of_text(
                bids@,
                r->Ok_0.bids@,
            ) && levels_of_text(asks@, r->Ok_0.asks@),
            r is Err ==> r->Err_0 == OrderbookError::InvalidNumber,
    {
        let bids = parse_levels(bids)?;
        let asks = parse_levels(asks)?;
        Ok(BinanceStreamData { last_update_id, bids, asks })
    }
}

/// The `data` object of a Bitstamp order-book payload. Subscription
/// acknowledgements and other control payloads carry none of its fields.
pub struct BitstampStreamData {
    pub timestamp: Option<usize>,
    pub microtimestamp: Option<usize>,
    /// Bids to be updated
    pub bids: Option<Vec<OfferData>>,
    /// Asks to be updated
    pub asks: Option<Vec<OfferData>>,
}

/// What an optional integer text stands for: `Ok(None)` when absent.
pub open spec fn optional_integer(t: Option<String>) -> Result<Option<usize>, OrderbookError> {
    match t {
        None => Ok(None),
        Some(s) => {
            let b = encode_utf8(s@);
            if is_integer_text(b) {
                Ok(Some(digits_value(unsigned_part(b)) as usize))
            } else {
                Err(OrderbookError::InvalidNumber)
            }
        },
    }
}

/// An optional side parses, or is absent.
pub open spec fn optional_side_ok(raw: Option<Vec<(String, String)>>) -> bool {
    match raw {
        None => true,
        Some(v) => !has_bad_level(v@),
    }
}

/// `levels` is what optional side `raw` parses to.
pub open spec fn optional_side_of(raw: Option<Vec<(String, String)>>, levels: Option<Vec<OfferData>>) -> bool {
    match (raw, levels) {
        (None, None) => true,
        (Some(v), Some(l)) => levels_of_text(v@, l@),
        _ => false,
    }
}

fn parse_optional_integer(t: &Option<String>) -> (r: Result<Option<usize>, OrderbookError>)
    ensures
        r == optional_integer(*t),
{
    match t {
        Some(s) => de_usize_from_str(s.as_str()),
        None => Ok(None),
    }
}

fn parse_optional_levels(raw: &Option<Vec<(String, String)>>) -> (r: Result<
    Option<Vec<OfferData>>,
    OrderbookError,
>)
    ensures
        r is Ok <==> optional_side_ok(*raw),
        r is Ok ==> optional_side_of(*raw, r->Ok_0),
        r is Err ==> r->Err_0 == OrderbookError::InvalidNumber,
{
    match raw {
        Some(v) => {
            let levels = parse_levels(v)?;
            Ok(Some(levels))
        },
        None => Ok(None),
    }
}

impl BitstampStreamData {
    /// Builds the payload from its decoded fields, parsing the number texts.
    pub fn from_text_fields(
        timestamp: &Option<String>,
        microtimestamp: &Option<String>,
        bids: &Option<Vec<(String, String)>>,
        asks: &Option<Vec<(String, String)>>,
    ) -> (r: Result<BitstampStreamData, OrderbookError>)
        ensures
            r is Ok <==> optional_integer(*timestamp) is Ok && optional_integer(*microtimestamp) is Ok
                && optional_side_ok(*bids) && optional_side_ok(*asks),
            r is Ok ==> {
                let d = r->Ok_0;
                &&& optional_integer(*timestamp) == Ok::<Option<usize>, OrderbookError>(d.timestamp)
                &&& optional_integer(*microtimestamp) == Ok::<Option<usize>, OrderbookError>(d.microtimestamp)
                &&& optional_side_of(*bids, d.bids)
                &&& optional_side_of(*asks, d.asks)
            },
            r is Err ==> r->Err_0 == OrderbookError::InvalidNumber,
    {
        let timestamp = parse_optional_integer(timestamp)?;
        let microtimestamp = parse_optional_integer(microtimestamp)?;
        let bids = parse_optional_levels(bids)?;
        let asks = parse_optional_levels(asks)?;
        Ok(BitstampStreamData { timestamp, microtimestamp, bids, asks })
    }
}

/// A Bitstamp payload: its data, channel and event names.
pub struct BitstampData {
    pub data: BitstampStreamData,
    pub channel: String,
    pub event: String,
}

} // verus!
