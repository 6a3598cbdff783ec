//! The events that a venue's depth feed delivers, and what the venues have
//! in common.

use vstd::prelude::*;
use crate::amount::{Amount, parsed_units};
use crate::side::rows_view;

pub mod binance;
pub mod hyperliquid;

verus! {

/// A full book at one instant.
#[derive(Clone, Debug)]
pub struct OrderBookSnapshot {
    pub last_update_id: u64,
    /// Rows of price and quantity.
    pub bids: Vec<(Amount, Amount)>,
    /// Rows of price and quantity.
    pub asks: Vec<(Amount, Amount)>,
}

/// An incremental change to the book. A row with quantity zero removes its
/// price; a row with a positive quantity gives the new aggregate quantity at
/// its price.
#[derive(Clone, Debug)]
pub struct DepthUpdate {
    pub event_time: u64,
    pub transaction_time: u64,
    pub symbol: String,
    /// Identifier of the first update that the event covers.
    pub capital_u: u64,
    /// Identifier of the last update that the event covers.
    pub small_u: u64,
    /// Identifier of the last update that the previous event covered.
    pub pu: i64,
    pub bids: Vec<(Amount, Amount)>,
    pub asks: Vec<(Amount, Amount)>,
}

/// What a venue's stream delivers.
#[derive(Clone, Debug)]
pub enum ExchangeMessage {
    Snapshot(OrderBookSnapshot),
    Update(DepthUpdate),
}

/// A snapshot as plain values, its rows in units.
pub struct SnapshotView {
    pub last_update_id: u64,
    pub bids: Seq<(int, int)>,
    pub asks: Seq<(int, int)>,
}

/// An update as plain values, its rows in units.
pub struct UpdateView {
    pub event_time: u64,
    pub transaction_time: u64,
    pub symbol: Seq<char>,
    pub capital_u: u64,
    pub small_u: u64,
    pub pu: i64,
    pub bids: Seq<(int, int)>,
    pub asks: Seq<(int, int)>,
}

/// A message as plain values.
pub enum MessageView {
    Snapshot(SnapshotView),
    Update(UpdateView),
}

impl View for OrderBookSnapshot {
    type V = SnapshotView;

    open spec fn view(&self) -> SnapshotView {
        SnapshotView {
            last_update_id: self.last_update_id,
            bids: rows_view(self.bids@),
            asks: rows_view(self.asks@),
        }
    }
}

impl View for DepthUpdate {
    type V = UpdateView;

    open spec fn view(&self) -> UpdateView {
        UpdateView {
            event_time: self.event_time,
            transaction_time: self.transaction_time,
            symbol: self.symbol@,
            capital_u: self.capital_u,
            small_u: self.small_u,
            pu: self.pu,
            bids: rows_view(self.bids@),
            asks: rows_view(self.asks@),
        }
    }
}

impl View for ExchangeMessage {
    type V = MessageView;

    open spec fn view(&self) -> MessageView {
        match self {
            ExchangeMessage::Snapshot(s) => MessageView::Snapshot(s@),
            ExchangeMessage::Update(d) => MessageView::Update(d@),
        }
    }
}

/// A frame of a venue's socket, its text already read as `B` where that
/// succeeded.
pub enum Frame<B> {
    /// A text frame that holds a `B`.
    Parsed(B),
    /// A text frame that holds something else.
    Unparsed,
    /// A ping and its payload.
    Ping(Vec<u8>),
    /// The venue closed the stream.
    Close,
    /// The socket failed.
    Failed,
    /// Any other frame.
    Other,
}

/// What the socket's reader does after a frame.
#[derive(Debug)]
pub enum Reply {
    /// Hand the message to the consumer.
    Deliver(ExchangeMessage),
    /// Answer a ping with a pong of this payload.
    Pong(Vec<u8>),
    /// Go on to the next frame.
    Skip,
    /// End the stream.
    Stop,
}

/// A reply as plain values.
pub enum ReplyView {
    Deliver(MessageView),
    Pong(Seq<u8>),
    Skip,
    Stop,
}

impl View for Reply {
    type V = ReplyView;

    open spec fn view(&self) -> ReplyView {
        match self {
            Reply::Deliver(m) => ReplyView::Deliver(m@),
            Reply::Pong(p) => ReplyView::Pong(p@),
            Reply::Skip => ReplyView::Skip,
            Reply::Stop => ReplyView::Stop,
        }
    }
}

/// The row that a price and a quantity, written as decimals, stand for; none
/// unless both are exactly an amount.
pub open spec fn text_row(price: Seq<char>, qty: Seq<char>) -> Option<(int, int)> {
    match (parsed_units(price), parsed_units(qty)) {
        (Some(p), Some(q)) => Some((p, q)),
        _ => None,
    }
}

/// Reads a price and a quantity, written as decimals, into a row.
pub fn parse_row(price: &str, qty: &str) -> (r: Option<(Amount, Amount)>)
    ensures
        r matches Some(row) ==> text_row(price@, qty@) == Some((row.0@, row.1@)),
        r is None ==> text_row(price@, qty@) is None,
{
    match Amount::parse(price) {
        Some(p) => match Amount::parse(qty) {
            Some(q) => Some((p, q)),
            None => None,
        },
        None => None,
    }
}

/// The venues.
#[derive(Clone, Copy, Debug, PartialEq, Eq)]
pub enum ExchangeType {
    Binance,
    Hyperliquid,
}

/// What the venues have in common beyond their transports.
pub trait Exchange {
    /// The venue that this adapter speaks to.
    spec fn venue(&self) -> ExchangeType;

    /// The symbol as the venue writes it.
    fn format_symbol(&self, symbol: &str) -> (r: String)
        ensures
            r@ == formatted_symbol(self.venue(), symbol@),
    ;

    /// The venue's name.
    fn get_name(&self) -> (r: &'static str)
        ensures
            r@ == venue_name(self.venue()),
    ;

    /// Decimals of price and of quantity to show for `symbol`, read from
    /// the venue's metadata document where the venue has one and it could be
    /// fetched.
    fn get_precision(&self, symbol: &str, metadata: Option<&binance::ExchangeInfo>) -> (r: (
        usize,
        usize,
    ))
        ensures
            (r.0 as nat, r.1 as nat) == precision_of(self.venue(), symbol@, metadata),
    ;
}

/// The lowercase form that `str::to_lowercase` gives a string.
pub uninterp spec fn lowercase(s: Seq<char>) -> Seq<char>;

/// The uppercase form that `str::to_uppercase` gives a string.
pub uninterp spec fn uppercase(s: Seq<char>) -> Seq<char>;

/// Calls `str::to_lowercase`. Its result is only given the name
/// [`lowercase`].
#[verifier::external_body]
pub(crate) fn to_lowercase(s: &str) -> (r: String)
    ensures
        r@ == lowercase(s@),
{
    s.to_lowercase()
}

/// Calls `str::to_uppercase`. Its result is only given the name
/// [`uppercase`].
#[verifier::external_body]
pub(crate) fn to_uppercase(s: &str) -> (r: String)
    ensures
        r@ == uppercase(s@),
{
    s.to_uppercase()
}

/// A symbol as a venue writes it: lowercase at the one, uppercase at the
/// other.
pub open spec fn formatted_symbol(venue: ExchangeType, symbol: Seq<char>) -> Seq<char> {
    match venue {
        ExchangeType::Binance => lowercase(symbol),
        ExchangeType::Hyperliquid => uppercase(symbol),
    }
}

/// The name of a venue.
pub open spec fn venue_name(venue: ExchangeType) -> Seq<char> {
    match venue {
        ExchangeType::Binance => "Binance"@,
        ExchangeType::Hyperliquid => "Hyperliquid"@,
    }
}

/// Decimals of price and of quantity to show for a symbol at a venue. The
/// one venue publishes them in a metadata document, and two and two stand in
/// where there is no document; the other always has four and four.
pub open spec fn precision_of(
    venue: ExchangeType,
    symbol: Seq<char>,
    metadata: Option<&binance::ExchangeInfo>,
) -> (nat, nat) {
    match venue {
        ExchangeType::Binance => match metadata {
            Some(info) => binance::info_precision(*info, symbol),
            None => (2, 2),
        },
        ExchangeType::Hyperliquid => (4, 4),
    }
}

/// The adapter of one of the venues.
pub enum Venue {
    Binance(binance::BinanceExchange),
    Hyperliquid(hyperliquid::HyperliquidExchange),
}

impl Exchange for Venue {
    open spec fn venue(&self) -> ExchangeType {
        match self {
            Venue::Binance(_) => ExchangeType::Binance,
            Venue::Hyperliquid(_) => ExchangeType::Hyperliquid,
        }
    }

    fn format_symbol(&self, symbol: &str) -> (r: String) {
        match self {
            Venue::Binance(x) => x.format_symbol(symbol),
            Venue::Hyperliquid(x) => x.format_symbol(symbol),
        }
    }

    fn get_name(&self) -> (r: &'static str) {
        match self {
            Venue::Binance(x) => x.get_name(),
            Venue::Hyperliquid(x) => x.get_name(),
        }
    }

    fn get_precision(&self, symbol: &str, metadata: Option<&binance::ExchangeInfo>) -> (r: (
        usize,
        usize,
    )) {
        match self {
            Venue::Binance(x) => x.get_precision(symbol, metadata),
            Venue::Hyperliquid(x) => x.get_precision(symbol, metadata),
        }
    }
}

impl ExchangeType {
    /// The adapter for this venue.
    pub fn create_exchange(&self) -> (r: Venue)
        ensures
            r.venue() == *self,
    {
        match self {
            ExchangeType::Binance => Venue::Binance(binance::BinanceExchange::new()),
            ExchangeType::Hyperliquid => Venue::Hyperliquid(hyperliquid::HyperliquidExchange::new()),
        }
    }
}

} // verus!
