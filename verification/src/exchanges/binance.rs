//! The centralized derivatives venue: a stream of incremental updates with
//! update identifiers, snapshots over HTTP, and a metadata document from
//! which the decimals to show are read.

use vstd::prelude::*;
use vstd::string::StringExecFns;
use vstd::arithmetic::power::*;
use crate::amount::{
    Amount, decimal_from_str, lemma_pow10_positive, lemma_pow10_split, lemma_pow10_step,
    parse_decimal, pow10,
};
use crate::exchanges::{
    DepthUpdate, Exchange, ExchangeMessage, ExchangeType, Frame, MessageView, OrderBookSnapshot,
    Reply, ReplyView, SnapshotView, UpdateView, lowercase, parse_row, text_row, to_lowercase,
    to_uppercase, uppercase,
};
use crate::side::rows_view;

verus! {

/// An update as the venue writes it, its rows still decimals in text.
#[derive(Debug)]
pub struct RawDepthUpdate {
    pub event_time: u64,
    pub transaction_time: u64,
    pub symbol: String,
    pub capital_u: u64,
    pub small_u: u64,
    pub pu: i64,
    /// Rows of price and quantity.
    pub bids: Vec<(String, String)>,
    /// Rows of price and quantity.
    pub asks: Vec<(String, String)>,
}

/// A snapshot as the venue writes it, its rows still decimals in text.
#[derive(Debug)]
pub struct RawSnapshot {
    pub last_update_id: u64,
    pub bids: Vec<(String, String)>,
    pub asks: Vec<(String, String)>,
}

/// The rows that rows of text stand for, or none where one of them is not a
/// pair of amounts.
pub open spec fn text_rows(rows: Seq<(String, String)>) -> Option<Seq<(int, int)>>
    decreases rows.len(),
{
    if rows.len() == 0 {
        Some(Seq::empty())
    } else {
        match (text_rows(rows.drop_last()), text_row(rows.last().0@, rows.last().1@)) {
            (Some(front), Some(row)) => Some(front.push(row)),
            _ => None,
        }
    }
}

/// The update that the venue's text stands for.
pub open spec fn raw_update(raw: RawDepthUpdate) -> Option<UpdateView> {
    match (text_rows(raw.bids@), text_rows(raw.asks@)) {
        (Some(bids), Some(asks)) => Some(
            UpdateView {
                event_time: raw.event_time,
                transaction_time: raw.transaction_time,
                symbol: raw.symbol@,
                capital_u: raw.capital_u,
                small_u: raw.small_u,
                pu: raw.pu,
                bids,
                asks,
            },
        ),
        _ => None,
    }
}

/// The snapshot that the venue's text stands for.
pub open spec fn raw_snapshot(raw: RawSnapshot) -> Option<SnapshotView> {
    match (text_rows(raw.bids@), text_rows(raw.asks@)) {
        (Some(bids), Some(asks)) => Some(
            SnapshotView { last_update_id: raw.last_update_id, bids, asks },
        ),
        _ => None,
    }
}

/// Reads rows of text into rows of amounts.
pub fn convert_rows(rows: &Vec<(String, String)>) -> (r: Option<Vec<(Amount, Amount)>>)
    ensures
        r matches Some(v) ==> text_rows(rows@) == Some(rows_view(v@)),
        r is None ==> text_rows(rows@) is None,
{
    let mut out: Vec<(Amount, Amount)> = Vec::new();
    let mut i: usize = 0;
    proof {
        assert(rows_view(out@) =~= Seq::<(int, int)>::empty());
    }
    while i < rows.len()
        invariant
            i <= rows.len(),
            text_rows(rows@.take(i as int)) == Some(rows_view(out@)),
        decreases rows.len() - i,
    {
        let ghost before = rows_view(out@);
        proof {
            assert(rows@.take(i + 1).drop_last() =~= rows@.take(i as int));
            assert(rows@.take(i + 1).last() == rows@[i as int]);
        }
        match parse_row(rows[i].0.as_str(), rows[i].1.as_str()) {
            Some(row) => {
                out.push(row);
                proof {
                    assert(rows_view(out@) =~= before.push((row.0@, row.1@)));
                }
            },
            None => {
                proof {
                    lemma_text_rows_prefix(rows@, i + 1);
                }
                return None;
            },
        }
        i = i + 1;
    }
    proof {
        assert(rows@.take(rows.len() as int) =~= rows@);
    }
    Some(out)
}

/// Rows of text of which a prefix holds a bad row stand for nothing.
proof fn lemma_text_rows_prefix(rows: Seq<(String, String)>, n: int)
    requires
        0 <= n <= rows.len(),
        text_rows(rows.take(n)) is None,
    ensures
        text_rows(rows) is None,
    decreases rows.len() - n,
{
    if n < rows.len() {
        assert(rows.take(n + 1).drop_last() =~= rows.take(n));
        lemma_text_rows_prefix(rows, n + 1);
    } else {
        assert(rows.take(n) =~= rows);
    }
}

/// The address of the stream of updates for a symbol.
pub open spec fn stream_url_of(symbol: Seq<char>) -> Seq<char> {
    "wss://fstream.binance.com/ws/"@ + lowercase(symbol) + "@depth@0ms"@
}

/// The address of a snapshot of a symbol's book.
pub open spec fn snapshot_url_of(symbol: Seq<char>) -> Seq<char> {
    "https://fapi.binance.com/fapi/v1/depth?symbol="@ + uppercase(symbol) + "&limit=1000"@
}

/// The address of the venue's metadata document.
pub open spec fn info_url_of() -> Seq<char> {
    "https://fapi.binance.com/fapi/v1/exchangeInfo"@
}

/// The adapter of the centralized derivatives venue.
pub struct BinanceExchange {}

impl BinanceExchange {
    /// The adapter.
    pub fn new() -> (r: Self)
        ensures
            r.venue() == ExchangeType::Binance,
    {
        Self {  }
    }

    /// The address of the stream of updates for `symbol`.
    pub fn stream_url(&self, symbol: &str) -> (r: String)
        ensures
            r@ == stream_url_of(symbol@),
    {
        let mut url = String::from_str("wss://fstream.binance.com/ws/");
        let lower = to_lowercase(symbol);
        url.append(lower.as_str());
        url.append("@depth@0ms");
        url
    }

    /// The address of a snapshot of the book of `symbol`.
    pub fn snapshot_url(&self, symbol: &str) -> (r: String)
        ensures
            r@ == snapshot_url_of(symbol@),
    {
        let mut url = String::from_str("https://fapi.binance.com/fapi/v1/depth?symbol=");
        let upper = to_uppercase(symbol);
        url.append(upper.as_str());
        url.append("&limit=1000");
        url
    }

    /// The address of the venue's metadata document.
    pub fn info_url(&self) -> (r: &'static str)
        ensures
            r@ == info_url_of(),
    {
        "https://fapi.binance.com/fapi/v1/exchangeInfo"
    }

    /// The update that the venue's text stands for; none where a row is not
    /// a pair of amounts.
    pub fn convert_depth_update(&self, raw: RawDepthUpdate) -> (r: Option<DepthUpdate>)
        ensures
            r matches Some(d) ==> raw_update(raw) == Some(d@),
            r is None ==> raw_update(raw) is None,
    {
        let bids = match convert_rows(&raw.bids) {
            Some(rows) => rows,
            None => {
                return None;
            },
        };
        let asks = match convert_rows(&raw.asks) {
            Some(rows) => rows,
            None => {
                return None;
            },
        };
        Some(
            DepthUpdate {
                event_time: raw.event_time,
                transaction_time: raw.transaction_time,
                symbol: raw.symbol,
                capital_u: raw.capital_u,
                small_u: raw.small_u,
                pu: raw.pu,
                bids,
                asks,
            },
        )
    }

    /// The snapshot that the venue's text stands for; none where a row is
    /// not a pair of amounts.
    pub fn convert_snapshot(&self, raw: RawSnapshot) -> (r: Option<OrderBookSnapshot>)
        ensures
            r matches Some(s) ==> raw_snapshot(raw) == Some(s@),
            r is None ==> raw_snapshot(raw) is None,
    {
        let bids = match convert_rows(&raw.bids) {
            Some(rows) => rows,
            None => {
                return None;
            },
        };
        let asks = match convert_rows(&raw.asks) {
            Some(rows) => rows,
            None => {
                return None;
            },
        };
        Some(OrderBookSnapshot { last_update_id: raw.last_update_id, bids, asks })
    }
}

impl Exchange for BinanceExchange {
    open spec fn venue(&self) -> ExchangeType {
        ExchangeType::Binance
    }

    fn format_symbol(&self, symbol: &str) -> (r: String) {
        to_lowercase(symbol)
    }

    fn get_name(&self) -> (r: &'static str) {
        "Binance"
    }

    fn get_precision(&self, symbol: &str, metadata: Option<&ExchangeInfo>) -> (r: (usize, usize)) {
        match metadata {
            Some(info) => self.precision_from_info(info, symbol),
            None => (2, 2),
        }
    }
}

/// One filter of a symbol's trading rules.
#[derive(Debug)]
pub struct SymbolFilter {
    pub filter_type: String,
    /// The smallest step of the price, a decimal.
    pub tick_size: Option<String>,
    /// The smallest step of the quantity, a decimal.
    pub step_size: Option<String>,
}

/// The trading rules of one symbol.
#[derive(Debug)]
pub struct SymbolInfo {
    pub symbol: String,
    pub filters: Vec<SymbolFilter>,
}

/// The venue's metadata document.
#[derive(Debug)]
pub struct ExchangeInfo {
    pub symbols: Vec<SymbolInfo>,
}

/// `d` is the number of decimals of the step `mantissa / 10^scale`: the
/// least `d` with `10^-d <= step`, which is `ceil(-log10(step))` or zero
/// where that is negative.
pub open spec fn is_decimals_of(mantissa: int, scale: nat, d: nat) -> bool {
    &&& mantissa * pow10(d) >= pow10(scale)
    &&& d > 0 ==> mantissa * pow10((d - 1) as nat) < pow10(scale)
}

/// The number of decimals that a step written as a decimal asks for. A text
/// that is no decimal counts as a step of one; a step that is not positive
/// asks for nothing.
pub open spec fn step_decimals(text: Seq<char>) -> Option<nat> {
    match decimal_from_str(text) {
        None => Some(0),
        Some((mantissa, scale)) => if mantissa <= 0 {
            None
        } else {
            Some(choose|d: nat| is_decimals_of(mantissa as int, scale as nat, d))
        },
    }
}

/// Decimals of price and of quantity after one more filter was read: a
/// price filter sets the first from its tick size, a lot-size filter the
/// second from its step size.
pub open spec fn precision_after(prec: (nat, nat), filter: SymbolFilter) -> (nat, nat) {
    if filter.filter_type@ == "PRICE_FILTER"@ {
        match filter.tick_size {
            Some(text) => match step_decimals(text@) {
                Some(d) => (d, prec.1),
                None => prec,
            },
            None => prec,
        }
    } else if filter.filter_type@ == "LOT_SIZE"@ {
        match filter.step_size {
            Some(text) => match step_decimals(text@) {
                Some(d) => (prec.0, d),
                None => prec,
            },
            None => prec,
        }
    } else {
        prec
    }
}

/// Decimals of price and of quantity that a symbol's filters ask for,
/// starting from two and two.
pub open spec fn filters_precision(filters: Seq<SymbolFilter>) -> (nat, nat)
    decreases filters.len(),
{
    if filters.len() == 0 {
        (2, 2)
    } else {
        precision_after(filters_precision(filters.drop_last()), filters.last())
    }
}

/// The first of the symbols that is named `name`.
pub open spec fn first_named(symbols: Seq<SymbolInfo>, name: Seq<char>) -> Option<SymbolInfo>
    decreases symbols.len(),
{
    if symbols.len() == 0 {
        None
    } else if symbols[0].symbol@ == name {
        Some(symbols[0])
    } else {
        first_named(symbols.drop_first(), name)
    }
}

/// Decimals of price and of quantity for `symbol` according to the
/// metadata document: two and two where the document does not list the
/// symbol.
pub open spec fn info_precision(info: ExchangeInfo, symbol: Seq<char>) -> (nat, nat) {
    match first_named(info.symbols@, uppercase(symbol)) {
        Some(found) => filters_precision(found.filters@),
        None => (2, 2),
    }
}

/// A step has one number of decimals.
proof fn lemma_decimals_unique(mantissa: int, scale: nat, a: nat, b: nat)
    requires
        mantissa > 0,
        is_decimals_of(mantissa, scale, a),
        is_decimals_of(mantissa, scale, b),
    ensures
        a == b,
{
    if a < b {
        lemma_pow_increases(10, a, (b - 1) as nat);
        assert(mantissa * pow10(a) <= mantissa * pow10((b - 1) as nat)) by (nonlinear_arith)
            requires
                mantissa > 0,
                pow10(a) <= pow10((b - 1) as nat),
        ;
    } else if b < a {
        lemma_pow_increases(10, b, (a - 1) as nat);
        assert(mantissa * pow10(b) <= mantissa * pow10((a - 1) as nat)) by (nonlinear_arith)
            requires
                mantissa > 0,
                pow10(b) <= pow10((a - 1) as nat),
        ;
    }
}

/// The number of decimals of the step `mantissa / 10^scale`.
fn decimals_of(mantissa: i128, scale: u32) -> (d: u32)
    requires
        mantissa > 0,
    ensures
        is_decimals_of(mantissa as int, scale as nat, d as nat),
{
    let mut top: i128 = mantissa;
    let mut k: u32 = 0;
    proof {
        lemma_pow0(10);
    }
    while top >= 10
        invariant
            top >= 1,
            k <= 40,
            top * pow10(k as nat) <= mantissa,
            mantissa < (top + 1) * pow10(k as nat),
            k < 40 || top < 10,
        decreases top,
    {
        proof {
            lemma_pow10_step(k as nat);
            lemma_pow10_positive(k as nat);
            let p = pow10(k as nat);
            let q = (top / 10) as int;
            assert(q * 10 <= top && top + 1 <= q * 10 + 10);
            assert(q * (10 * p) <= top * p) by (nonlinear_arith)
                requires
                    q * 10 <= top,
                    p >= 1,
            ;
            assert((top + 1) * p <= (q + 1) * (10 * p)) by (nonlinear_arith)
                requires
                    top + 1 <= q * 10 + 10,
                    p >= 1,
            ;
            if k >= 39 {
                lemma_pow10_large();
                lemma_pow_increases(10, 39, k as nat);
                assert(top * p >= 10 * p) by (nonlinear_arith)
                    requires
                        top >= 10,
                        p >= 1,
                ;
            }
        }
        top = top / 10;
        k = k + 1;
    }
    proof {
        lemma_pow10_positive(k as nat);
        let p = pow10(k as nat);
        assert(p <= mantissa) by (nonlinear_arith)
            requires
                top * p <= mantissa,
                top >= 1,
                p >= 1,
        ;
        assert(mantissa < 10 * p) by (nonlinear_arith)
            requires
                mantissa < (top + 1) * p,
                top < 10,
                p >= 1,
        ;
    }
    if scale >= k {
        let d: u32 = scale - k;
        proof {
            let p = pow10(k as nat);
            let r = pow10(d as nat);
            lemma_pow10_split(k as nat, d as nat);
            lemma_pow10_positive(d as nat);
            assert(mantissa * r >= p * r) by (nonlinear_arith)
                requires
                    p <= mantissa,
                    r >= 1,
            ;
            if d > 0 {
                let r1 = pow10((d - 1) as nat);
                lemma_pow10_step((d - 1) as nat);
                lemma_pow10_positive((d - 1) as nat);
                assert(mantissa * r1 < p * (10 * r1)) by (nonlinear_arith)
                    requires
                        mantissa < 10 * p,
                        r1 >= 1,
                ;
            }
        }
        d
    } else {
        proof {
            lemma_pow_increases(10, scale as nat, k as nat);
            lemma_pow0(10);
        }
        0
    }
}

/// `10^39` is beyond the range of `i128`.
proof fn lemma_pow10_large()
    ensures
        pow10(39) > i128::MAX,
{
    lemma_pow10_split(13, 13);
    lemma_pow10_split(26, 13);
    assert(pow10(13) == 10_000_000_000_000) by {
        reveal_with_fuel(pow, 14);
    }
    let a = pow10(13);
    assert(a * a * a > i128::MAX) by (nonlinear_arith)
        requires
            a == 10_000_000_000_000,
    ;
    assert(pow10(26) * a == a * a * a) by (nonlinear_arith)
        requires
            pow10(26) == a * a,
    ;
}

/// The number of decimals that a step written as a decimal asks for.
pub fn decimals_of_step(text: &str) -> (r: Option<usize>)
    ensures
        r matches Some(d) ==> step_decimals(text@) == Some(d as nat),
        r is None ==> step_decimals(text@) is None,
{
    match parse_decimal(text) {
        None => Some(0),
        Some((mantissa, scale)) => {
            if mantissa <= 0 {
                None
            } else {
                let d: u32 = decimals_of(mantissa, scale);
                proof {
                    let w = choose|w: nat| is_decimals_of(mantissa as int, scale as nat, w);
                    lemma_decimals_unique(mantissa as int, scale as nat, w, d as nat);
                }
                Some(d as usize)
            }
        },
    }
}

impl BinanceExchange {
    /// Decimals of price and of quantity for `symbol` according to the
    /// venue's metadata document.
    pub fn precision_from_info(&self, info: &ExchangeInfo, symbol: &str) -> (r: (usize, usize))
        ensures
            (r.0 as nat, r.1 as nat) == info_precision(*info, symbol@),
    {
        let name = to_uppercase(symbol);
        let mut i: usize = 0;
        proof {
            assert(info.symbols@.skip(0) =~= info.symbols@);
        }
        while i < info.symbols.len()
            invariant
                i <= info.symbols.len(),
                name@ == uppercase(symbol@),
                first_named(info.symbols@, name@) == first_named(info.symbols@.skip(i as int), name@),
            decreases info.symbols.len() - i,
        {
            proof {
                assert(info.symbols@.skip(i as int).drop_first() =~= info.symbols@.skip(i + 1));
            }
            if info.symbols[i].symbol == name {
                return filters_precision_of(&info.symbols[i].filters);
            }
            i = i + 1;
        }
        (2, 2)
    }
}

/// Decimals of price and of quantity that a symbol's filters ask for.
fn filters_precision_of(filters: &Vec<SymbolFilter>) -> (r: (usize, usize))
    ensures
        (r.0 as nat, r.1 as nat) == filters_precision(filters@),
{
    let price_filter = String::from_str("PRICE_FILTER");
    let lot_size = String::from_str("LOT_SIZE");
    let mut price_prec: usize = 2;
    let mut qty_prec: usize = 2;
    let mut i: usize = 0;
    while i < filters.len()
        invariant
            i <= filters.len(),
            price_filter@ == "PRICE_FILTER"@,
            lot_size@ == "LOT_SIZE"@,
            (price_prec as nat, qty_prec as nat) == filters_precision(filters@.take(i as int)),
        decreases filters.len() - i,
    {
        let filter = &filters[i];
        proof {
            assert(filters@.take(i + 1).drop_last() =~= filters@.take(i as int));
            assert(filters@.take(i + 1).last() == filters@[i as int]);
        }
        if filter.filter_type == price_filter {
            match &filter.tick_size {
                Some(text) => match decimals_of_step(text.as_str()) {
                    Some(d) => {
                        price_prec = d;
                    },
                    None => {},
                },
                None => {},
            }
        } else if filter.filter_type == lot_size {
            match &filter.step_size {
                Some(text) => match decimals_of_step(text.as_str()) {
                    Some(d) => {
                        qty_prec = d;
                    },
                    None => {},
                },
                None => {},
            }
        }
        i = i + 1;
    }
    proof {
        assert(filters@.take(filters.len() as int) =~= filters@);
    }
    (price_prec, qty_prec)
}

/// What the reader of the venue's socket does after a frame.
pub open spec fn after_frame(frame: Frame<RawDepthUpdate>) -> ReplyView {
    match frame {
        Frame::Parsed(raw) => match raw_update(raw) {
            Some(d) => ReplyView::Deliver(MessageView::Update(d)),
            None => ReplyView::Skip,
        },
        Frame::Unparsed => ReplyView::Skip,
        Frame::Ping(payload) => ReplyView::Pong(payload@),
        Frame::Close => ReplyView::Stop,
        Frame::Failed => ReplyView::Stop,
        Frame::Other => ReplyView::Skip,
    }
}

/// Takes one frame of the socket. An update is delivered; a ping is answered
/// with its own payload; a close or a failure ends the stream; anything else
/// is passed over.
pub fn on_frame(frame: Frame<RawDepthUpdate>) -> (r: Reply)
    ensures
        r@ == after_frame(frame),
{
    let venue = BinanceExchange::new();
    match frame {
        Frame::Parsed(raw) => match venue.convert_depth_update(raw) {
            Some(d) => Reply::Deliver(ExchangeMessage::Update(d)),
            None => Reply::Skip,
        },
        Frame::Unparsed => Reply::Skip,
        Frame::Ping(payload) => Reply::Pong(payload),
        Frame::Close => Reply::Stop,
        Frame::Failed => Reply::Stop,
        Frame::Other => Reply::Skip,
    }
}

} // verus!
