//! A memory of experiences that is searched by resonance, and the
//! primitives around it: binary fingerprints, the collapse gate, and truth
//! values. All quantities are fixed-point numbers in millionths.
//!
//! Every function of the library's own carries a contract that Verus
//! proves. What rests on the standard library is believed, not proved, and
//! says so where it stands:
//!
//! - in `bits`, the count of set bits (`u64::count_ones`) and the Euclidean
//!   remainder (`i32::rem_euclid`);
//! - in `fingerprint`, the hashing of a string (`hash_str`) and the name for
//!   what it writes to the hasher (`str_hash_writes`);
//! - in `text`, decimal and hexadecimal formatting (`decimal_string`,
//!   `lower_hex_string`);
//! - in `clock`, the calls that read the system clock, of whose results
//!   nothing is claimed.
//!
//! The first six have contracts taken from the standard library's
//! documentation. Reading the clock has none, so nothing follows from it.

pub mod bits;
pub mod clock;
pub mod cognitive;
pub mod fingerprint;
pub mod fixed;
pub mod learning;
pub mod nars;
pub mod prelude;
pub mod text;

use crate::fingerprint::Fingerprint;
use crate::learning::moment::{same_moment, Moment};
use crate::learning::resonance::{
    find_sweet_spot, ResonanceCapture, ResonanceEntry, ResonanceStats, ResonanceView,
    SimilarMoment, DEFAULT_CONTENT_WEIGHT, DEFAULT_RECENCY_WEIGHT, DEFAULT_SWEET_HIGH,
    DEFAULT_SWEET_LOW,
};
use vstd::prelude::*;

verus! {

/// The cycle after `cycle`; the last cycle there is stays the last.
pub open spec fn next_cycle(cycle: u64) -> u64 {
    if cycle < u64::MAX {
        (cycle + 1) as u64
    } else {
        cycle
    }
}

/// The capture cycles never fall from one entry to the next, and none lies after `now`.
pub open spec fn cycles_ordered(entries: Seq<ResonanceEntry>, now: u64) -> bool {
    &&& forall|i: int, j: int|
        0 <= i <= j < entries.len() ==> (#[trigger] entries[i]).cycle <= (#[trigger] entries[j]).cycle
    &&& forall|i: int| 0 <= i < entries.len() ==> (#[trigger] entries[i]).cycle <= now
}

/// The learning loop's memory and clock: it stamps every capture with the
/// next cycle and asks the memory as of the current one.
#[derive(Debug)]
pub struct MetaAGI {
    pub resonance: ResonanceCapture,
    pub global_cycle: u64,
}

/// Counts of what a `MetaAGI` has done.
#[derive(Clone, Copy, Debug, PartialEq, Eq, Structural)]
pub struct MetaAGIStats {
    pub global_cycle: u64,
    pub resonance_stats: ResonanceStats,
}

impl MetaAGI {
    /// Whether the memory holds what this clock stamped: capture cycles in
    /// order, none after the current cycle.
    pub open spec fn wf(&self) -> bool {
        cycles_ordered(self.resonance@.entries, self.global_cycle)
    }

    /// An empty memory at cycle zero.
    pub fn new() -> (r: MetaAGI)
        ensures
            r.global_cycle == 0,
            r.resonance@ == (ResonanceView {
                entries: Seq::empty(),
                content_weight: DEFAULT_CONTENT_WEIGHT,
                recency_weight: DEFAULT_RECENCY_WEIGHT,
                sweet_low: DEFAULT_SWEET_LOW,
                sweet_high: DEFAULT_SWEET_HIGH,
                total_captures: 0,
                total_queries: 0,
            }),
            r.wf(),
    {
        MetaAGI { resonance: ResonanceCapture::new(), global_cycle: 0 }
    }

    /// Moves on to the next cycle and captures `moment` in it.
    pub fn capture_moment(&mut self, moment: &Moment)
        ensures
            final(self).global_cycle == next_cycle(old(self).global_cycle),
            final(self).resonance@.entries.len() == old(self).resonance@.entries.len() + 1,
            final(self).resonance@ == old(self).resonance@.captured(
                final(self).resonance@.entries.last().moment,
                final(self).global_cycle,
            ),
            same_moment(final(self).resonance@.entries.last().moment, *moment),
            final(self).resonance@.wf(),
            old(self).wf() ==> final(self).wf(),
    {
        if self.global_cycle < u64::MAX {
            self.global_cycle = self.global_cycle + 1;
        }
        self.resonance.capture(moment, self.global_cycle);
    }

    /// Finds the stored moments that resonate with `query` as of the
    /// current cycle: see `ResonanceCapture::find_resonant`.
    pub fn find_similar(&mut self, query: &Fingerprint, threshold: i64, limit: usize) -> (found:
        Vec<SimilarMoment>)
        ensures
            old(self).resonance@.is_ranking(
                found@,
                query@,
                threshold,
                limit,
                old(self).global_cycle,
                old(self).resonance@.entries.len() as int,
            ),
            final(self).resonance@ == old(self).resonance@.queried(),
            final(self).resonance@.wf(),
            final(self).global_cycle == old(self).global_cycle,
            old(self).wf() ==> final(self).wf(),
    {
        self.resonance.find_resonant(query, threshold, limit, self.global_cycle)
    }

    /// Finds the sweet spot of `query` as of the current cycle: see
    /// `learning::find_sweet_spot`.
    pub fn find_sweet_spot(&mut self, query: &Fingerprint) -> (best: Option<SimilarMoment>)
        ensures
            old(self).resonance@.is_sweet_spot(
                best,
                query@,
                old(self).global_cycle,
                old(self).resonance@.entries.len() as int,
            ),
            final(self).resonance@ == old(self).resonance@.queried(),
            final(self).resonance@.wf(),
            final(self).global_cycle == old(self).global_cycle,
            old(self).wf() ==> final(self).wf(),
    {
        find_sweet_spot(&mut self.resonance, query, self.global_cycle)
    }

    /// The current cycle and the memory's running counts.
    pub fn stats(&self) -> (s: MetaAGIStats)
        ensures
            s.global_cycle == self.global_cycle,
            s.resonance_stats.total_captures == self.resonance@.total_captures,
            s.resonance_stats.total_captures == self.resonance@.entries.len(),
            s.resonance_stats.total_queries == self.resonance@.total_queries,
    {
        MetaAGIStats { global_cycle: self.global_cycle, resonance_stats: self.resonance.stats() }
    }
}

impl Default for MetaAGI {
    fn default() -> (r: MetaAGI)
        ensures
            r.global_cycle == 0,
            r.resonance@ == (ResonanceView {
                entries: Seq::empty(),
                content_weight: DEFAULT_CONTENT_WEIGHT,
                recency_weight: DEFAULT_RECENCY_WEIGHT,
                sweet_low: DEFAULT_SWEET_LOW,
                sweet_high: DEFAULT_SWEET_HIGH,
                total_captures: 0,
                total_queries: 0,
            }),
            r.resonance@.wf(),
            r.wf(),
    {
        MetaAGI::new()
    }
}

} // verus!
