//! Time-series bookkeeping of the metrics tracker: a window of the most
//! recent snapshots and running totals of per-tick event counts.
//!
//! A snapshot is carried as an opaque payload `S`; what it holds is computed
//! elsewhere.
use vstd::prelude::*;

verus! {

broadcast use vstd::seq_lib::group_seq_properties;

/// The last `max` elements of `s` (all of `s` when it is shorter).
pub open spec fn window<S>(s: Seq<S>, max: usize) -> Seq<S> {
    if s.len() <= max {
        s
    } else {
        s.subrange(s.len() - max, s.len() as int)
    }
}

/// Mathematical value of a tracker.
pub ghost struct TrackerModel<S> {
    pub snapshots: Seq<S>,
    pub max_snapshots: usize,
    pub cumulative_trades: u32,
    pub cumulative_robberies: u32,
    pub cumulative_bankruptcies: u32,
    pub cumulative_caravans_formed: u32,
}

/// Records one snapshot per tick, keeping at most `max_snapshots` of them,
/// and running totals of trades, robberies, bankruptcies and caravans formed.
pub struct MetricsTracker<S> {
    snapshots: Vec<S>,
    cumulative_trades: u32,
    cumulative_robberies: u32,
    cumulative_bankruptcies: u32,
    cumulative_caravans_formed: u32,
    max_snapshots: usize,
}

impl<S> View for MetricsTracker<S> {
    type V = TrackerModel<S>;

    closed spec fn view(&self) -> TrackerModel<S> {
        TrackerModel {
            snapshots: self.snapshots@,
            max_snapshots: self.max_snapshots,
            cumulative_trades: self.cumulative_trades,
            cumulative_robberies: self.cumulative_robberies,
            cumulative_bankruptcies: self.cumulative_bankruptcies,
            cumulative_caravans_formed: self.cumulative_caravans_formed,
        }
    }
}

impl<S> MetricsTracker<S> {
    /// Well-formedness: never more snapshots than the window holds.
    pub open spec fn wf(&self) -> bool {
        self@.snapshots.len() <= self@.max_snapshots
    }

    /// An empty tracker keeping at most `max_snapshots` snapshots.
    pub fn new(max_snapshots: usize) -> (t: Self)
        ensures
            t.wf(),
            t@.snapshots.len() == 0,
            t@.max_snapshots == max_snapshots,
            t@.cumulative_trades == 0,
            t@.cumulative_robberies == 0,
            t@.cumulative_bankruptcies == 0,
            t@.cumulative_caravans_formed == 0,
    {
        MetricsTracker {
            snapshots: Vec::new(),
            cumulative_trades: 0,
            cumulative_robberies: 0,
            cumulative_bankruptcies: 0,
            cumulative_caravans_formed: 0,
            max_snapshots,
        }
    }

    /// Record the snapshot of the current tick with this tick's event
    /// counts: the totals grow by the counts, the snapshot is appended, and
    /// the oldest snapshot is dropped when the window overflows.
    pub fn record(
        &mut self,
        snapshot: S,
        trades_this_tick: u32,
        robberies_this_tick: u32,
        bankruptcies_this_tick: u32,
        caravans_formed_this_tick: u32,
    )
        requires
            old(self).wf(),
            old(self)@.cumulative_trades + trades_this_tick <= u32::MAX,
            old(self)@.cumulative_robberies + robberies_this_tick <= u32::MAX,
            old(self)@.cumulative_bankruptcies + bankruptcies_this_tick <= u32::MAX,
            old(self)@.cumulative_caravans_formed + caravans_formed_this_tick <= u32::MAX,
        ensures
            final(self).wf(),
            final(self)@.max_snapshots == old(self)@.max_snapshots,
            final(self)@.snapshots == window(old(self)@.snapshots.push(snapshot), old(self)@.max_snapshots),
            final(self)@.cumulative_trades == old(self)@.cumulative_trades + trades_this_tick,
            final(self)@.cumulative_robberies == old(self)@.cumulative_robberies + robberies_this_tick,
            final(self)@.cumulative_bankruptcies == old(self)@.cumulative_bankruptcies
                + bankruptcies_this_tick,
            final(self)@.cumulative_caravans_formed == old(self)@.cumulative_caravans_formed
                + caravans_formed_this_tick,
    {
        self.cumulative_trades = self.cumulative_trades + trades_this_tick;
        self.cumulative_robberies = self.cumulative_robberies + robberies_this_tick;
        self.cumulative_bankruptcies = self.cumulative_bankruptcies + bankruptcies_this_tick;
        self.cumulative_caravans_formed = self.cumulative_caravans_formed + caravans_formed_this_tick;
        let ghost pushed = self.snapshots@.push(snapshot);
        self.snapshots.push(snapshot);
        if self.snapshots.len() > self.max_snapshots {
            self.snapshots.remove(0);
            assert(self.snapshots@ =~= pushed.subrange(pushed.len() - self.max_snapshots, pushed.len() as int));
        }
    }

    /// The recorded snapshots, oldest first.
    pub fn snapshots(&self) -> (s: &Vec<S>)
        ensures
            s@ == self@.snapshots,
    {
        &self.snapshots
    }

    /// The most recent snapshot, if any.
    pub fn latest(&self) -> (r: Option<&S>)
        ensures
            self@.snapshots.len() == 0 ==> r is None,
            self@.snapshots.len() > 0 ==> r == Some(&self@.snapshots.last()),
    {
        if self.snapshots.len() == 0 {
            None
        } else {
            Some(&self.snapshots[self.snapshots.len() - 1])
        }
    }

    /// Trades recorded so far.
    pub fn cumulative_trades(&self) -> (n: u32)
        ensures
            n == self@.cumulative_trades,
    {
        self.cumulative_trades
    }

    /// Robberies recorded so far.
    pub fn cumulative_robberies(&self) -> (n: u32)
        ensures
            n == self@.cumulative_robberies,
    {
        self.cumulative_robberies
    }

    /// Bankruptcies recorded so far.
    pub fn cumulative_bankruptcies(&self) -> (n: u32)
        ensures
            n == self@.cumulative_bankruptcies,
    {
        self.cumulative_bankruptcies
    }

    /// Caravans formed so far.
    pub fn cumulative_caravans_formed(&self) -> (n: u32)
        ensures
            n == self@.cumulative_caravans_formed,
    {
        self.cumulative_caravans_formed
    }
}

/// The window keeps the newest snapshots: it never exceeds its bound, it
/// ends with the snapshot just recorded, and it is a suffix of the full
/// history in the same order.
pub proof fn lemma_window_keeps_newest<S>(history: Seq<S>, snapshot: S, max: usize)
    requires
        max > 0,
    ensures
        window(history.push(snapshot), max).len() <= max,
        window(history.push(snapshot), max).last() == snapshot,
        ({
            let w = window(history.push(snapshot), max);
            let full = history.push(snapshot);
            forall|i: int| 0 <= i < w.len() ==> #[trigger] w[i] == full[full.len() - w.len() + i]
        }),
{
}

} // verus!
