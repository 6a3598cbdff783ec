//! The replica of a venue's book: it joins a snapshot to the stream of
//! updates, applies what is contiguous, and asks for a new snapshot where the
//! stream has a gap.

use vstd::prelude::*;
use std::collections::VecDeque;
use crate::exchanges::{DepthUpdate, ExchangeMessage, MessageView, OrderBookSnapshot, SnapshotView, UpdateView};
use crate::side::{Side, apply_rows, load_rows, side_ok};

verus! {

/// What became of an update.
#[derive(Clone, Copy, Debug, PartialEq, Eq, Structural)]
pub enum Outcome {
    /// The update ended before the replica's last applied update: dropped.
    Stale,
    /// The update was applied.
    Applied,
    /// The update does not follow on what was applied: the replica is left
    /// as it was, what it had buffered is dropped, and a new snapshot is to
    /// be fetched.
    Gap,
}

/// The replica as plain values.
pub struct ReplicaView {
    pub bids: Map<int, Seq<int>>,
    pub asks: Map<int, Seq<int>>,
    pub last_applied_u: u64,
    pub is_synced: bool,
    pub buffer: Seq<UpdateView>,
}

/// What becomes of update `d` at replica `s`.
pub open spec fn outcome_of(s: ReplicaView, d: UpdateView) -> Outcome {
    if d.small_u < s.last_applied_u {
        Outcome::Stale
    } else if s.is_synced {
        if d.pu >= 0 && d.pu != s.last_applied_u {
            Outcome::Gap
        } else {
            Outcome::Applied
        }
    } else if d.capital_u <= s.last_applied_u && s.last_applied_u <= d.small_u {
        Outcome::Applied
    } else {
        Outcome::Gap
    }
}

/// The replica with the rows of `d` applied to both sides.
pub open spec fn with_rows(s: ReplicaView, d: UpdateView) -> ReplicaView {
    ReplicaView { bids: apply_rows(s.bids, d.bids), asks: apply_rows(s.asks, d.asks), ..s }
}

/// The replica after update `d` was processed.
pub open spec fn after_diff(s: ReplicaView, d: UpdateView) -> ReplicaView {
    match outcome_of(s, d) {
        Outcome::Stale => s,
        Outcome::Applied => ReplicaView {
            last_applied_u: d.small_u,
            is_synced: true,
            ..with_rows(s, d)
        },
        Outcome::Gap => ReplicaView { buffer: Seq::empty(), ..s },
    }
}

/// The replica after its buffered updates were processed in their order of
/// arrival, up to the first that shows a gap, and whether one did.
pub open spec fn replay(s: ReplicaView) -> (ReplicaView, bool)
    decreases s.buffer.len(),
{
    if s.buffer.len() == 0 {
        (s, false)
    } else {
        let d = s.buffer[0];
        let rest = ReplicaView { buffer: s.buffer.drop_first(), ..s };
        if outcome_of(rest, d) == Outcome::Gap {
            (after_diff(rest, d), true)
        } else {
            replay(after_diff(rest, d))
        }
    }
}

/// The replica that a snapshot leaves before the buffered updates are
/// replayed.
pub open spec fn loaded(s: ReplicaView, snap: SnapshotView) -> ReplicaView {
    ReplicaView {
        bids: load_rows(snap.bids),
        asks: load_rows(snap.asks),
        last_applied_u: snap.last_update_id,
        is_synced: false,
        buffer: s.buffer,
    }
}

/// The replica after a snapshot, and whether a new snapshot is to be
/// fetched.
pub open spec fn after_snapshot(s: ReplicaView, snap: SnapshotView) -> (ReplicaView, bool) {
    replay(loaded(s, snap))
}

/// The replica after a message of the stream, and whether a new snapshot is
/// to be fetched. An update that arrives before any snapshot is buffered.
pub open spec fn after_message(s: ReplicaView, msg: MessageView) -> (ReplicaView, bool) {
    match msg {
        MessageView::Snapshot(snap) => after_snapshot(s, snap),
        MessageView::Update(d) => if s.last_applied_u == 0 {
            (ReplicaView { buffer: s.buffer.push(d), ..s }, false)
        } else {
            (after_diff(s, d), outcome_of(s, d) == Outcome::Gap)
        },
    }
}

/// Whether both sides of the replica are well formed.
pub open spec fn book_ok(s: ReplicaView) -> bool {
    side_ok(s.bids) && side_ok(s.asks)
}

/// No update moves the last applied identifier backwards.
pub proof fn lemma_diff_never_rewinds(s: ReplicaView, d: UpdateView)
    ensures
        after_diff(s, d).last_applied_u >= s.last_applied_u,
{
}

/// An applied update whose last identifier differs from the replica's moves
/// the last applied identifier strictly forwards.
pub proof fn lemma_applied_diff_advances(s: ReplicaView, d: UpdateView)
    requires
        outcome_of(s, d) == Outcome::Applied,
        d.small_u != s.last_applied_u,
    ensures
        after_diff(s, d).last_applied_u > s.last_applied_u,
{
}

/// An update that a synced replica applies names, where it names any, the
/// replica's last applied identifier as its predecessor.
pub proof fn lemma_applied_diff_follows(s: ReplicaView, d: UpdateView)
    requires
        s.is_synced,
        outcome_of(s, d) == Outcome::Applied,
        d.pu >= 0,
    ensures
        d.pu == s.last_applied_u,
{
}

/// Of two updates applied one after the other, the second names, where it
/// names any, the last identifier of the first as its predecessor.
pub proof fn lemma_applied_diffs_contiguous(s: ReplicaView, first: UpdateView, second: UpdateView)
    requires
        outcome_of(s, first) == Outcome::Applied,
        outcome_of(after_diff(s, first), second) == Outcome::Applied,
        second.pu >= 0,
    ensures
        second.pu == first.small_u,
{
}

/// Only an applied update changes the book, and it leaves the replica
/// synced.
pub proof fn lemma_unapplied_diff_keeps_book(s: ReplicaView, d: UpdateView)
    requires
        outcome_of(s, d) != Outcome::Applied,
    ensures
        after_diff(s, d).bids == s.bids,
        after_diff(s, d).asks == s.asks,
        after_diff(s, d).last_applied_u == s.last_applied_u,
        after_diff(s, d).is_synced == s.is_synced,
{
}

/// An update without rows changes neither side.
pub proof fn lemma_empty_diff_keeps_book(s: ReplicaView, d: UpdateView)
    requires
        d.bids.len() == 0,
        d.asks.len() == 0,
    ensures
        after_diff(s, d).bids == s.bids,
        after_diff(s, d).asks == s.asks,
{
}

/// The updates of a buffer as plain values.
pub open spec fn updates_view(s: Seq<DepthUpdate>) -> Seq<UpdateView> {
    s.map_values(|d: DepthUpdate| d@)
}

/// A local replica of one venue's book.
#[derive(Debug)]
pub struct BookReplica {
    bids: Side,
    asks: Side,
    last_applied_u: u64,
    is_synced: bool,
    update_buffer: VecDeque<DepthUpdate>,
}

impl View for BookReplica {
    type V = ReplicaView;

    closed spec fn view(&self) -> ReplicaView {
        ReplicaView {
            bids: self.bids@,
            asks: self.asks@,
            last_applied_u: self.last_applied_u,
            is_synced: self.is_synced,
            buffer: updates_view(self.update_buffer@),
        }
    }
}

impl BookReplica {
    /// An empty replica that has seen no snapshot.
    pub fn new() -> (r: BookReplica)
        ensures
            r@.bids == Map::<int, Seq<int>>::empty(),
            r@.asks == Map::<int, Seq<int>>::empty(),
            r@.last_applied_u == 0,
            !r@.is_synced,
            r@.buffer == Seq::<UpdateView>::empty(),
    {
        let r = BookReplica {
            bids: Side::new(),
            asks: Side::new(),
            last_applied_u: 0,
            is_synced: false,
            update_buffer: VecDeque::new(),
        };
        assert(r@.buffer =~= Seq::<UpdateView>::empty());
        r
    }

    /// The identifier of the last update that was applied, or of the
    /// snapshot.
    pub fn last_applied_u(&self) -> (r: u64)
        ensures
            r == self@.last_applied_u,
    {
        self.last_applied_u
    }

    /// Whether the replica has joined the stream of updates.
    pub fn is_synced(&self) -> (r: bool)
        ensures
            r == self@.is_synced,
    {
        self.is_synced
    }

    /// The bids.
    pub fn bids(&self) -> (r: &Side)
        ensures
            r@ == self@.bids,
            side_ok(r@),
    {
        self.bids.ensure_ok();
        &self.bids
    }

    /// The asks.
    pub fn asks(&self) -> (r: &Side)
        ensures
            r@ == self@.asks,
            side_ok(r@),
    {
        self.asks.ensure_ok();
        &self.asks
    }

    /// The number of updates that wait for a snapshot.
    pub fn buffered(&self) -> (r: usize)
        ensures
            r == self@.buffer.len(),
    {
        self.update_buffer.len()
    }

    /// Empties both sides and forgets the last applied identifier, as when
    /// the symbol or the venue changes. What is buffered stays.
    pub fn reset(&mut self)
        ensures
            final(self)@ == (ReplicaView {
                bids: Map::empty(),
                asks: Map::empty(),
                last_applied_u: 0,
                is_synced: false,
                buffer: old(self)@.buffer,
            }),
    {
        self.bids = Side::new();
        self.asks = Side::new();
        self.last_applied_u = 0;
        self.is_synced = false;
    }

    /// Applies the rows of an update to both sides, whatever its identifiers.
    pub fn apply_update(&mut self, update: &DepthUpdate)
        ensures
            final(self)@ == with_rows(old(self)@, update@),
            side_ok(final(self)@.bids),
            side_ok(final(self)@.asks),
    {
        self.bids.apply_rows(&update.bids);
        self.asks.apply_rows(&update.asks);
    }

    /// Processes one update of the stream: drops it where it is stale,
    /// applies it where it follows on what was applied, and reports a gap
    /// where it does not.
    pub fn process_diff(&mut self, update: DepthUpdate) -> (r: Outcome)
        ensures
            r == outcome_of(old(self)@, update@),
            final(self)@ == after_diff(old(self)@, update@),
            book_ok(final(self)@),
    {
        self.bids.ensure_ok();
        self.asks.ensure_ok();
        if update.small_u < self.last_applied_u {
            return Outcome::Stale;
        }
        if self.is_synced {
            if update.pu >= 0 && (update.pu as u64) != self.last_applied_u {
                self.update_buffer.clear();
                assert(self@.buffer =~= Seq::<UpdateView>::empty());
                return Outcome::Gap;
            }
            self.apply_update(&update);
            self.last_applied_u = update.small_u;
            Outcome::Applied
        } else if update.capital_u <= self.last_applied_u && self.last_applied_u <= update.small_u {
            self.apply_update(&update);
            self.last_applied_u = update.small_u;
            self.is_synced = true;
            Outcome::Applied
        } else {
            self.update_buffer.clear();
            assert(self@.buffer =~= Seq::<UpdateView>::empty());
            Outcome::Gap
        }
    }

    /// Replaces both sides by those of the snapshot and replays the buffered
    /// updates. Says whether a new snapshot is to be fetched.
    pub fn apply_snapshot(&mut self, snapshot: &OrderBookSnapshot) -> (refetch: bool)
        ensures
            final(self)@ == after_snapshot(old(self)@, snapshot@).0,
            refetch == after_snapshot(old(self)@, snapshot@).1,
            book_ok(final(self)@),
    {
        self.bids = Side::from_rows(&snapshot.bids);
        self.asks = Side::from_rows(&snapshot.asks);
        self.last_applied_u = snapshot.last_update_id;
        self.is_synced = false;
        let ghost start = self@;
        assert(start == loaded(old(self)@, snapshot@));
        let mut gap: bool = false;
        loop
            invariant_except_break
                replay(self@) == replay(start),
            invariant
                book_ok(self@),
            ensures
                self@ == replay(start).0,
                gap == replay(start).1,
            decreases self.update_buffer.len(),
        {
            let ghost before = self@;
            match self.update_buffer.pop_front() {
                Some(update) => {
                    assert(self@.buffer =~= before.buffer.drop_first());
                    assert(update@ == before.buffer[0]);
                    let outcome = self.process_diff(update);
                    if outcome == Outcome::Gap {
                        gap = true;
                        break;
                    }
                },
                None => {
                    gap = false;
                    break;
                },
            }
        }
        gap
    }

    /// Takes one message of the stream. Says whether a new snapshot is to be
    /// fetched.
    pub fn on_message(&mut self, message: ExchangeMessage) -> (refetch: bool)
        ensures
            final(self)@ == after_message(old(self)@, message@).0,
            refetch == after_message(old(self)@, message@).1,
            book_ok(final(self)@),
    {
        self.bids.ensure_ok();
        self.asks.ensure_ok();
        match message {
            ExchangeMessage::Snapshot(snapshot) => self.apply_snapshot(&snapshot),
            ExchangeMessage::Update(update) => {
                if self.last_applied_u == 0 {
                    let ghost before = self@;
                    self.update_buffer.push_back(update);
                    assert(self@.buffer =~= before.buffer.push(update@));
                    false
                } else {
                    self.process_diff(update) == Outcome::Gap
                }
            },
        }
    }
}

} // verus!
