//! The decentralized perpetuals venue: every message is a full book, the
//! first of which stands for a snapshot and each later one for an update.

use vstd::prelude::*;
use crate::amount::Amount;
use crate::exchanges::{
    DepthUpdate, Exchange, ExchangeMessage, ExchangeType, Frame, MessageView, OrderBookSnapshot,
    Reply, ReplyView, SnapshotView, UpdateView, parse_row, text_row, to_uppercase,
};
use crate::exchanges::binance::ExchangeInfo;
use crate::side::rows_view;

verus! {

/// One level of a book as the venue writes it.
#[derive(Debug)]
pub struct WsLevel {
    /// The price, a decimal.
    pub px: String,
    /// The aggregate size, a decimal.
    pub sz: String,
    /// The number of orders.
    pub n: u32,
}

/// A full book as the venue writes it.
#[derive(Debug)]
pub struct WsBook {
    pub coin: String,
    pub bids: Vec<WsLevel>,
    pub asks: Vec<WsLevel>,
    /// Milliseconds at the venue when the book was taken.
    pub time: u64,
}

/// The rows that the levels of a book stand for: one for each level whose
/// price and size are both exactly an amount, in the order of the levels.
pub open spec fn level_rows(levels: Seq<WsLevel>) -> Seq<(int, int)>
    decreases levels.len(),
{
    if levels.len() == 0 {
        Seq::empty()
    } else {
        let front = level_rows(levels.drop_last());
        match text_row(levels.last().px@, levels.last().sz@) {
            Some(row) => front.push(row),
            None => front,
        }
    }
}

/// The identifier that an update made of a full book names as its
/// predecessor: the book's time less one, as a signed 64-bit number.
pub open spec fn predecessor(time: u64) -> int {
    if time - 1 <= i64::MAX {
        time - 1
    } else {
        time - 1 - 0x1_0000_0000_0000_0000
    }
}

/// The snapshot that a full book stands for.
pub open spec fn book_snapshot(book: WsBook) -> SnapshotView {
    SnapshotView {
        last_update_id: book.time,
        bids: level_rows(book.bids@),
        asks: level_rows(book.asks@),
    }
}

/// The update that a full book stands for: it covers the one identifier
/// `time` and names `time - 1` as its predecessor.
pub open spec fn book_update(book: WsBook) -> UpdateView {
    UpdateView {
        event_time: book.time,
        transaction_time: book.time,
        symbol: book.coin@,
        capital_u: book.time,
        small_u: book.time,
        pu: predecessor(book.time) as i64,
        bids: level_rows(book.bids@),
        asks: level_rows(book.asks@),
    }
}

/// The address of the venue's socket.
pub open spec fn stream_url_of() -> Seq<char> {
    "wss://api.hyperliquid.xyz/ws"@
}

/// The address that answers requests for a snapshot.
pub open spec fn info_url_of() -> Seq<char> {
    "https://api.hyperliquid.xyz/info"@
}

/// Reads the levels of a book into rows.
pub fn convert_levels(levels: &Vec<WsLevel>) -> (r: Vec<(Amount, Amount)>)
    ensures
        rows_view(r@) == level_rows(levels@),
{
    let mut out: Vec<(Amount, Amount)> = Vec::new();
    let mut i: usize = 0;
    proof {
        assert(rows_view(out@) =~= level_rows(levels@.take(0)));
    }
    while i < levels.len()
        invariant
            i <= levels.len(),
            rows_view(out@) == level_rows(levels@.take(i as int)),
        decreases levels.len() - i,
    {
        let level = &levels[i];
        let ghost before = rows_view(out@);
        proof {
            assert(levels@.take(i + 1).drop_last() =~= levels@.take(i as int));
            assert(levels@.take(i + 1).last() == levels@[i as int]);
        }
        match parse_row(level.px.as_str(), level.sz.as_str()) {
            Some(row) => {
                out.push(row);
                proof {
                    assert(rows_view(out@) =~= before.push((row.0@, row.1@)));
                }
            },
            None => {},
        }
        i = i + 1;
    }
    proof {
        assert(levels@.take(levels.len() as int) =~= levels@);
    }
    out
}

/// The adapter of the decentralized perpetuals venue.
pub struct HyperliquidExchange {}

impl HyperliquidExchange {
    /// The adapter.
    pub fn new() -> (r: Self)
        ensures
            r.venue() == ExchangeType::Hyperliquid,
    {
        Self {  }
    }

    /// The address of the venue's socket.
    pub fn stream_url(&self) -> (r: &'static str)
        ensures
            r@ == stream_url_of(),
    {
        "wss://api.hyperliquid.xyz/ws"
    }

    /// The address that answers requests for a snapshot.
    pub fn info_url(&self) -> (r: &'static str)
        ensures
            r@ == info_url_of(),
    {
        "https://api.hyperliquid.xyz/info"
    }

    /// The snapshot that a full book stands for.
    pub fn convert_ws_book_to_snapshot(&self, book: WsBook) -> (r: OrderBookSnapshot)
        ensures
            r@ == book_snapshot(book),
    {
        OrderBookSnapshot {
            last_update_id: book.time,
            bids: convert_levels(&book.bids),
            asks: convert_levels(&book.asks),
        }
    }

    /// The update that a full book stands for.
    pub fn convert_ws_book_to_update(&self, book: WsBook) -> (r: DepthUpdate)
        ensures
            r@ == book_update(book),
    {
        let time: u64 = book.time;
        let pu: i64 = if time == 0 {
            -1
        } else if time - 1 <= 0x7fff_ffff_ffff_ffff {
            (time - 1) as i64
        } else {
            ((time - 1 - 0x8000_0000_0000_0000) as i64) + i64::MIN
        };
        let bids = convert_levels(&book.bids);
        let asks = convert_levels(&book.asks);
        DepthUpdate {
            event_time: time,
            transaction_time: time,
            symbol: book.coin,
            capital_u: time,
            small_u: time,
            pu,
            bids,
            asks,
        }
    }

    /// The snapshot that a book fetched on request stands for. Such a book
    /// carries no time of its own: `now_millis` is the time of the request.
    pub fn convert_l2_book(&self, bids: &Vec<WsLevel>, asks: &Vec<WsLevel>, now_millis: u64) -> (r:
        OrderBookSnapshot)
        ensures
            r@ == (SnapshotView {
                last_update_id: now_millis,
                bids: level_rows(bids@),
                asks: level_rows(asks@),
            }),
    {
        OrderBookSnapshot {
            last_update_id: now_millis,
            bids: convert_levels(bids),
            asks: convert_levels(asks),
        }
    }
}

impl Exchange for HyperliquidExchange {
    open spec fn venue(&self) -> ExchangeType {
        ExchangeType::Hyperliquid
    }

    fn format_symbol(&self, symbol: &str) -> (r: String) {
        to_uppercase(symbol)
    }

    fn get_name(&self) -> (r: &'static str) {
        "Hyperliquid"
    }

    fn get_precision(&self, symbol: &str, metadata: Option<&ExchangeInfo>) -> (r: (usize, usize)) {
        (4, 4)
    }
}

/// The reader of the venue's socket: it remembers whether a book has been
/// seen.
#[derive(Debug)]
pub struct HyperliquidStream {
    first_message: bool,
}

/// What the reader does after a frame, and whether it then still waits for
/// its first book.
pub open spec fn after_frame(waiting: bool, frame: Frame<WsBook>) -> (ReplyView, bool) {
    match frame {
        Frame::Parsed(book) => if waiting {
            (ReplyView::Deliver(MessageView::Snapshot(book_snapshot(book))), false)
        } else {
            (ReplyView::Deliver(MessageView::Update(book_update(book))), false)
        },
        Frame::Unparsed => (ReplyView::Skip, waiting),
        Frame::Ping(payload) => (ReplyView::Pong(payload@), waiting),
        Frame::Close => (ReplyView::Stop, waiting),
        Frame::Failed => (ReplyView::Stop, waiting),
        Frame::Other => (ReplyView::Skip, waiting),
    }
}

impl HyperliquidStream {
    /// Whether the reader still waits for its first book.
    pub closed spec fn waiting(&self) -> bool {
        self.first_message
    }

    /// A reader that has seen no book.
    pub fn new() -> (r: Self)
        ensures
            r.waiting(),
    {
        HyperliquidStream { first_message: true }
    }

    /// Takes one frame of the socket. The first book becomes a snapshot,
    /// each later one an update; a ping is answered with its own payload; a
    /// close or a failure ends the stream; anything else is passed over.
    pub fn on_frame(&mut self, frame: Frame<WsBook>) -> (r: Reply)
        ensures
            r@ == after_frame(old(self).waiting(), frame).0,
            final(self).waiting() == after_frame(old(self).waiting(), frame).1,
    {
        let venue = HyperliquidExchange::new();
        match frame {
            Frame::Parsed(book) => {
                if self.first_message {
                    self.first_message = false;
                    Reply::Deliver(ExchangeMessage::Snapshot(venue.convert_ws_book_to_snapshot(book)))
                } else {
                    Reply::Deliver(ExchangeMessage::Update(venue.convert_ws_book_to_update(book)))
                }
            },
            Frame::Unparsed => Reply::Skip,
            Frame::Ping(payload) => Reply::Pong(payload),
            Frame::Close => Reply::Stop,
            Frame::Failed => Reply::Stop,
            Frame::Other => Reply::Skip,
        }
    }
}

} // verus!
