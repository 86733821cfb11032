//! The resonance memory: an append-only store of moments, searched by similarity and recency.

use crate::fingerprint::{similarity_of, Fingerprint};
use crate::fixed::{clamp_signed, clamp_signed_to_unit, UNIT};
use crate::learning::moment::{same_moment, Moment};
use vstd::prelude::*;

verus! {

/// The weight of content similarity in a resonance, unless another is chosen: one half.
pub const DEFAULT_CONTENT_WEIGHT: u32 = 500_000;

/// The weight of recency in a resonance, unless another is chosen: one half.
pub const DEFAULT_RECENCY_WEIGHT: u32 = 500_000;

/// The similarity above which a sweet spot starts, unless another is chosen.
pub const DEFAULT_SWEET_LOW: i64 = 600_000;

/// The similarity below which a sweet spot ends, unless another is chosen.
pub const DEFAULT_SWEET_HIGH: i64 = 900_000;

/// A captured moment and the cycle in which it was captured.
#[derive(Debug)]
pub struct ResonanceEntry {
    pub moment: Moment,
    pub cycle: u64,
}

/// A stored moment that resonates with a query: its place in capture
/// order, its similarity to the query, and its resonance, both in millionths.
#[derive(Clone, Copy, Debug, PartialEq, Eq, Structural)]
pub struct SimilarMoment {
    pub index: usize,
    pub content_similarity: u32,
    pub resonance: u32,
}

/// Running counts of what a memory was asked to do.
#[derive(Clone, Copy, Debug, PartialEq, Eq, Structural)]
pub struct ResonanceStats {
    pub total_captures: u64,
    pub total_queries: u64,
}

/// How many cycles ago a moment was captured; zero for one from the future.
pub open spec fn age_of(current_cycle: u64, capture_cycle: u64) -> nat {
    if current_cycle >= capture_cycle {
        (current_cycle - capture_cycle) as nat
    } else {
        0
    }
}

/// The resonance of a stored moment in millionths, rounded down:
/// `content_weight * similarity + recency_weight / (1 + age)`.
pub open spec fn resonance_of(
    content_weight: u32,
    recency_weight: u32,
    similarity: int,
    age: nat,
) -> int {
    (content_weight * similarity * (1 + age) + recency_weight * UNIT) / (UNIT * (1 + age))
}

/// `a` comes before `b` in a ranking: it resonates more, or as much and was captured earlier.
pub open spec fn outranks(a: SimilarMoment, b: SimilarMoment) -> bool {
    a.resonance > b.resonance || (a.resonance == b.resonance && a.index < b.index)
}

/// Whether entry `j` is among the results.
pub open spec fn lists(found: Seq<SimilarMoment>, j: int) -> bool {
    exists|k: int| 0 <= k < found.len() && (#[trigger] found[k]).index == j
}

/// Whether `h` had to stay out of full results: there are `limit` of them,
/// and each outranks `h`.
pub open spec fn left_out(found: Seq<SimilarMoment>, limit: usize, h: SimilarMoment) -> bool {
    found.len() == limit && forall|k: int| 0 <= k < found.len() ==> outranks(#[trigger] found[k], h)
}

/// `found` without its last result where it holds more than `limit`.
pub open spec fn trimmed(found: Seq<SimilarMoment>, limit: usize) -> Seq<SimilarMoment> {
    if found.len() > limit {
        found.drop_last()
    } else {
        found
    }
}

/// What a memory holds, as mathematical values.
pub struct ResonanceView {
    pub entries: Seq<ResonanceEntry>,
    pub content_weight: u32,
    pub recency_weight: u32,
    pub sweet_low: i64,
    pub sweet_high: i64,
    pub total_captures: nat,
    pub total_queries: nat,
}

impl ResonanceView {
    /// The weights are at most one, every entry was counted as a capture,
    /// and the count of queries fits its counter.
    pub open spec fn wf(self) -> bool {
        &&& self.content_weight <= UNIT
        &&& self.recency_weight <= UNIT
        &&& self.total_captures == self.entries.len()
        &&& self.total_queries <= u64::MAX
    }

    /// The memory after one more capture.
    pub open spec fn captured(self, moment: Moment, cycle: u64) -> ResonanceView {
        ResonanceView {
            entries: self.entries.push(ResonanceEntry { moment, cycle }),
            total_captures: self.total_captures + 1,
            ..self
        }
    }

    /// The memory after one more query: the count goes up by one, and stays
    /// where it is once it has reached the largest number it can hold.
    pub open spec fn queried(self) -> ResonanceView {
        ResonanceView {
            total_queries: if self.total_queries < u64::MAX {
                self.total_queries + 1
            } else {
                self.total_queries
            },
            ..self
        }
    }

    /// How entry `i` answers a query in a given cycle.
    pub open spec fn hit(self, query: Seq<bool>, current_cycle: u64, i: int) -> SimilarMoment {
        let entry = self.entries[i];
        let similarity = similarity_of(query, entry.moment.fingerprint@);
        SimilarMoment {
            index: i as usize,
            content_similarity: similarity as u32,
            resonance: resonance_of(
                self.content_weight,
                self.recency_weight,
                similarity,
                age_of(current_cycle, entry.cycle),
            ) as u32,
        }
    }

    /// Whether entry `j` resonates with a query at least as much as `threshold`.
    pub open spec fn qualifies(
        self,
        query: Seq<bool>,
        threshold: i64,
        current_cycle: u64,
        j: int,
    ) -> bool {
        self.hit(query, current_cycle, j).resonance >= threshold
    }

    /// Whether `found` is the answer to a query over the first `upto` entries:
    /// the entries that resonate at least as much as `threshold`, most
    /// resonant first and of equals the earliest first, cut after `limit`.
    ///
    /// Every result is such an entry with its scores; the results are in
    /// rank order; and an entry that qualifies and is not listed was left
    /// out for the limit, behind results that all outrank it.
    pub open spec fn is_ranking(
        self,
        found: Seq<SimilarMoment>,
        query: Seq<bool>,
        threshold: i64,
        limit: usize,
        current_cycle: u64,
        upto: int,
    ) -> bool {
        &&& found.len() <= limit
        &&& forall|k: int|
            0 <= k < found.len() ==> {
                &&& 0 <= (#[trigger] found[k]).index < upto
                &&& found[k] == self.hit(query, current_cycle, found[k].index as int)
                &&& found[k].resonance >= threshold
            }
        &&& forall|k: int, l: int|
            0 <= k < l < found.len() ==> outranks(#[trigger] found[k], #[trigger] found[l])
        &&& forall|j: int|
            0 <= j < upto && #[trigger] self.qualifies(query, threshold, current_cycle, j)
                ==> lists(found, j) || left_out(found, limit, self.hit(query, current_cycle, j))
    }

    /// Whether `best` is the sweet spot among the first `upto` entries: the
    /// entry in the band that outranks every other entry in it, or nothing
    /// where no entry lies in the band.
    pub open spec fn is_sweet_spot(
        self,
        best: Option<SimilarMoment>,
        query: Seq<bool>,
        current_cycle: u64,
        upto: int,
    ) -> bool {
        match best {
            Some(h) => {
                &&& 0 <= h.index < upto
                &&& h == self.hit(query, current_cycle, h.index as int)
                &&& self.in_sweet_spot(query, h.index as int)
                &&& forall|j: int|
                    0 <= j < upto && j != h.index && #[trigger] self.in_sweet_spot(query, j)
                        ==> outranks(h, self.hit(query, current_cycle, j))
            },
            None => forall|j: int| 0 <= j < upto ==> !#[trigger] self.in_sweet_spot(query, j),
        }
    }

    /// Whether entry `i` lies in the sweet spot of a query: similar enough
    /// to matter, and not so similar as to say the same again.
    pub open spec fn in_sweet_spot(self, query: Seq<bool>, i: int) -> bool {
        let similarity = similarity_of(query, self.entries[i].moment.fingerprint@);
        self.sweet_low < similarity < self.sweet_high
    }
}

/// The two weights of a resonance, each at most one.
#[derive(Debug)]
struct Weights {
    content: u32,
    recency: u32,
}

impl Weights {
    #[verifier::type_invariant]
    spec fn at_most_one(self) -> bool {
        self.content <= UNIT && self.recency <= UNIT
    }

    fn new(content: i64, recency: i64) -> (w: Weights)
        ensures
            w.content == clamp_signed(content),
            w.recency == clamp_signed(recency),
    {
        Weights { content: clamp_signed_to_unit(content), recency: clamp_signed_to_unit(recency) }
    }
}

/// An append-only memory of captured moments.
///
/// Every stored moment counts as one capture, so the count of captures is
/// the number of entries.
#[derive(Debug)]
pub struct ResonanceCapture {
    entries: Vec<ResonanceEntry>,
    weights: Weights,
    sweet_low: i64,
    sweet_high: i64,
    total_queries: u64,
}

impl View for ResonanceCapture {
    type V = ResonanceView;

    closed spec fn view(&self) -> ResonanceView {
        ResonanceView {
            entries: self.entries@,
            content_weight: self.weights.content,
            recency_weight: self.weights.recency,
            sweet_low: self.sweet_low,
            sweet_high: self.sweet_high,
            total_captures: self.entries@.len(),
            total_queries: self.total_queries as nat,
        }
    }
}

impl ResonanceCapture {
    /// An empty memory with equal weights and the default sweet spot.
    pub fn new() -> (r: ResonanceCapture)
        ensures
            r@ == (ResonanceView {
                entries: Seq::empty(),
                content_weight: DEFAULT_CONTENT_WEIGHT,
                recency_weight: DEFAULT_RECENCY_WEIGHT,
                sweet_low: DEFAULT_SWEET_LOW,
                sweet_high: DEFAULT_SWEET_HIGH,
                total_captures: 0,
                total_queries: 0,
            }),
            r@.wf(),
    {
        ResonanceCapture {
            entries: Vec::new(),
            weights: Weights::new(DEFAULT_CONTENT_WEIGHT as i64, DEFAULT_RECENCY_WEIGHT as i64),
            sweet_low: DEFAULT_SWEET_LOW,
            sweet_high: DEFAULT_SWEET_HIGH,
            total_queries: 0,
        }
    }

    /// An empty memory with the given weights, each limited to the range
    /// from zero to one, and the given bounds of the sweet spot.
    pub fn with_config(
        content_weight: i64,
        recency_weight: i64,
        sweet_low: i64,
        sweet_high: i64,
    ) -> (r: ResonanceCapture)
        ensures
            r@ == (ResonanceView {
                entries: Seq::empty(),
                content_weight: clamp_signed(content_weight),
                recency_weight: clamp_signed(recency_weight),
                sweet_low,
                sweet_high,
                total_captures: 0,
                total_queries: 0,
            }),
            r@.wf(),
    {
        ResonanceCapture {
            entries: Vec::new(),
            weights: Weights::new(content_weight, recency_weight),
            sweet_low,
            sweet_high,
            total_queries: 0,
        }
    }

    /// Appends `moment` as captured in `cycle`. Nothing stored before changes.
    pub fn capture(&mut self, moment: &Moment, cycle: u64)
        ensures
            final(self)@.entries.len() == old(self)@.entries.len() + 1,
            final(self)@.entries.drop_last() == old(self)@.entries,
            final(self)@.entries.last().cycle == cycle,
            same_moment(final(self)@.entries.last().moment, *moment),
            final(self)@ == old(self)@.captured(final(self)@.entries.last().moment, cycle),
            old(self)@.wf(),
            final(self)@.wf(),
    {
        proof {
            use_type_invariant(&self.weights);
        }
        let stored = moment.clone();
        self.entries.push(ResonanceEntry { moment: stored, cycle });
        proof {
            assert(self@.entries.drop_last() =~= old(self)@.entries);
            assert(self@.entries =~= old(self)@.entries.push(self@.entries.last()));
        }
    }

    /// The number of stored moments.
    pub fn len(&self) -> (n: usize)
        ensures
            n == self@.entries.len(),
            self@.wf(),
    {
        proof {
            use_type_invariant(&self.weights);
        }
        self.entries.len()
    }

    /// The stored moment at place `index` in capture order, if there is one.
    pub fn entry(&self, index: usize) -> (e: Option<&ResonanceEntry>)
        ensures
            index < self@.entries.len() ==> e == Some(&self@.entries[index as int]),
            index >= self@.entries.len() ==> e is None,
    {
        if index < self.entries.len() {
            Some(&self.entries[index])
        } else {
            None
        }
    }

    /// The running counts: captures and queries so far.
    pub fn stats(&self) -> (s: ResonanceStats)
        ensures
            s.total_captures == self@.total_captures,
            s.total_queries == self@.total_queries,
            s.total_captures == self@.entries.len(),
            self@.wf(),
    {
        proof {
            use_type_invariant(&self.weights);
        }
        ResonanceStats {
            total_captures: self.entries.len() as u64,
            total_queries: self.total_queries,
        }
    }

    /// Counts one more query.
    fn count_query(&mut self)
        ensures
            final(self)@ == old(self)@.queried(),
    {
        if self.total_queries < u64::MAX {
            self.total_queries = self.total_queries + 1;
        }
    }

    /// How the entry at `index` answers `query` in `current_cycle`.
    fn hit_at(&self, query: &Fingerprint, current_cycle: u64, index: usize) -> (h: SimilarMoment)
        requires
            index < self@.entries.len(),
        ensures
            h == self@.hit(query@, current_cycle, index as int),
            h.index == index,
            h.content_similarity == similarity_of(
                query@,
                self@.entries[index as int].moment.fingerprint@,
            ),
    {
        proof {
            use_type_invariant(&self.weights);
        }
        let entry = &self.entries[index];
        let similarity = query.similarity(&entry.moment.fingerprint);
        let age: u64 = if current_cycle >= entry.cycle {
            current_cycle - entry.cycle
        } else {
            0
        };
        let span = age as u128 + 1;
        let unit = UNIT as u128;
        let content = self.weights.content as u128;
        let recency = self.weights.recency as u128;
        proof {
            assert(content * similarity as u128 <= unit * unit && (content * similarity as u128)
                * span <= unit * unit * span && unit * unit * span
                <= 1_000_000_000_000 * 0x1_0000_0000_0000_0000 && recency * unit <= unit * unit
                && unit * span > 0 && unit * span <= 1_000_000 * 0x1_0000_0000_0000_0000)
                by (nonlinear_arith)
                requires
                    content <= unit,
                    similarity <= unit,
                    recency <= unit,
                    unit == 1_000_000,
                    1 <= span <= 0x1_0000_0000_0000_0000,
            ;
        }
        let weighed = content * similarity as u128 * span + recency * unit;
        let resonance = weighed / (unit * span);
        proof {
            assert(weighed as int / (unit * span) <= 2 * unit) by (nonlinear_arith)
                requires
                    weighed <= unit * unit * span + unit * unit,
                    span >= 1,
                    unit > 0,
            ;
        }
        SimilarMoment { index, content_similarity: similarity, resonance: resonance as u32 }
    }
}

impl Default for ResonanceCapture {
    /// An empty memory with equal weights and the default sweet spot.
    fn default() -> (r: ResonanceCapture)
        ensures
            r@ == (ResonanceView {
                entries: Seq::empty(),
                content_weight: DEFAULT_CONTENT_WEIGHT,
                recency_weight: DEFAULT_RECENCY_WEIGHT,
                sweet_low: DEFAULT_SWEET_LOW,
                sweet_high: DEFAULT_SWEET_HIGH,
                total_captures: 0,
                total_queries: 0,
            }),
            r@.wf(),
    {
        ResonanceCapture::new()
    }
}

/// Placing a new hit where its rank puts it, and dropping the last result
/// where that makes one too many, gives the ranking over one more entry.
proof fn lemma_rank_insert(
    v: ResonanceView,
    found: Seq<SimilarMoment>,
    query: Seq<bool>,
    threshold: i64,
    limit: usize,
    current_cycle: u64,
    i: int,
    p: int,
    h: SimilarMoment,
)
    requires
        0 <= i < v.entries.len(),
        v.is_ranking(found, query, threshold, limit, current_cycle, i),
        h == v.hit(query, current_cycle, i),
        h.index == i,
        h.resonance >= threshold,
        0 <= p <= found.len(),
        p < limit,
        forall|k: int| 0 <= k < p ==> (#[trigger] found[k]).resonance >= h.resonance,
        p < found.len() ==> found[p].resonance < h.resonance,
    ensures
        v.is_ranking(
            trimmed(found.insert(p, h), limit),
            query,
            threshold,
            limit,
            current_cycle,
            i + 1,
        ),
{
    let grown = found.insert(p, h);
    let next = trimmed(grown, limit);
    found.insert_ensures(p, h);
    assert forall|k: int| 0 <= k < grown.len() implies #[trigger] grown[k] == (if k < p {
        found[k]
    } else if k == p {
        h
    } else {
        found[k - 1]
    }) by {
        if k > p {
            assert(grown[(k - 1) + 1] == found[k - 1]);
        }
    }
    assert forall|k: int| 0 <= k < next.len() implies #[trigger] next[k] == grown[k] by {}
    // The new hit stands behind all that resonate as much, and before the rest.
    assert forall|k: int| 0 <= k < p implies outranks(#[trigger] found[k], h) by {}
    assert forall|k: int| p <= k < found.len() implies outranks(h, #[trigger] found[k]) by {
        if k > p {
            assert(outranks(found[p], found[k]));
        }
    }
    assert forall|k: int, l: int| 0 <= k < l < next.len() implies outranks(
        #[trigger] next[k],
        #[trigger] next[l],
    ) by {
        if l < p {
            assert(outranks(found[k], found[l]));
        } else if l == p {
            assert(outranks(found[k], h));
        } else if k < p {
            assert(outranks(found[k], found[l - 1]));
        } else if k == p {
            assert(outranks(h, found[l - 1]));
        } else {
            assert(outranks(found[k - 1], found[l - 1]));
        }
    }
    assert forall|k: int| 0 <= k < next.len() implies {
        &&& 0 <= (#[trigger] next[k]).index < i + 1
        &&& next[k] == v.hit(query, current_cycle, next[k].index as int)
        &&& next[k].resonance >= threshold
    } by {
        if k < p {
            assert(found[k].index < i);
        } else if k > p {
            assert(found[k - 1].index < i);
        }
    }
    assert forall|j: int|
        0 <= j < i + 1 && #[trigger] v.qualifies(query, threshold, current_cycle, j) implies lists(
        next,
        j,
    ) || left_out(next, limit, v.hit(query, current_cycle, j)) by {
        let hj = v.hit(query, current_cycle, j);
        if j == i {
            assert(p < next.len());
            assert(next[p].index == j);
        } else if lists(found, j) {
            let k = choose|k: int| 0 <= k < found.len() && (#[trigger] found[k]).index == j;
            assert(found[k] == hj);
            let at = if k < p {
                k
            } else {
                k + 1
            };
            assert(grown[at] == found[k]);
            if at < next.len() {
                assert(next[at].index == j);
            } else {
                // The entry was the last of full results and is the one dropped.
                assert(k == found.len() - 1 && found.len() == limit);
                assert forall|m: int| 0 <= m < next.len() implies outranks(
                    #[trigger] next[m],
                    hj,
                ) by {
                    if m < p {
                        assert(outranks(found[m], found[k]));
                    } else if m == p {
                        assert(outranks(h, found[k]));
                    } else {
                        assert(outranks(found[m - 1], found[k]));
                    }
                }
            }
        } else {
            assert(left_out(found, limit, hj));
            assert forall|m: int| 0 <= m < next.len() implies outranks(#[trigger] next[m], hj) by {
                if m < p {
                    assert(outranks(found[m], hj));
                } else if m == p {
                    assert(outranks(found[p], hj));
                } else {
                    assert(outranks(found[m - 1], hj));
                }
            }
        }
    }
}

/// Leaving a hit out that every one of full results outranks, or that does
/// not reach the threshold, keeps the ranking over one more entry.
proof fn lemma_rank_skip(
    v: ResonanceView,
    found: Seq<SimilarMoment>,
    query: Seq<bool>,
    threshold: i64,
    limit: usize,
    current_cycle: u64,
    i: int,
)
    requires
        0 <= i < v.entries.len(),
        v.is_ranking(found, query, threshold, limit, current_cycle, i),
        v.qualifies(query, threshold, current_cycle, i) ==> left_out(
            found,
            limit,
            v.hit(query, current_cycle, i),
        ),
    ensures
        v.is_ranking(found, query, threshold, limit, current_cycle, i + 1),
{
}

impl ResonanceCapture {
    /// Ranks the entries that resonate with `query` at least as much as
    /// `threshold`: a linear scan that keeps the best `limit` in rank order.
    fn rank(&self, query: &Fingerprint, threshold: i64, limit: usize, current_cycle: u64) -> (found:
        Vec<SimilarMoment>)
        ensures
            self@.is_ranking(
                found@,
                query@,
                threshold,
                limit,
                current_cycle,
                self@.entries.len() as int,
            ),
    {
        let n = self.entries.len();
        let mut found: Vec<SimilarMoment> = Vec::new();
        let mut i: usize = 0;
        while i < n
            invariant
                i <= n,
                n == self@.entries.len(),
                self@.is_ranking(found@, query@, threshold, limit, current_cycle, i as int),
            decreases n - i,
        {
            let h = self.hit_at(query, current_cycle, i);
            let mut p: usize = 0;
            let reaches = h.resonance as i64 >= threshold;
            if reaches {
                while p < found.len() && found[p].resonance >= h.resonance
                    invariant
                        p <= found.len(),
                        forall|k: int| 0 <= k < p ==> (#[trigger] found@[k]).resonance >= h.resonance,
                    decreases found.len() - p,
                {
                    p += 1;
                }
            }
            if reaches && p < limit {
                proof {
                    lemma_rank_insert(
                        self@,
                        found@,
                        query@,
                        threshold,
                        limit,
                        current_cycle,
                        i as int,
                        p as int,
                        h,
                    );
                }
                let ghost grown = found@.insert(p as int, h);
                found.insert(p, h);
                if found.len() > limit {
                    found.pop();
                }
                assert(found@ =~= trimmed(grown, limit));
            } else {
                proof {
                    if reaches {
                        assert forall|k: int| 0 <= k < found@.len() implies outranks(
                            #[trigger] found@[k],
                            h,
                        ) by {
                            assert(found@[k].index < i);
                        }
                    }
                    lemma_rank_skip(
                        self@,
                        found@,
                        query@,
                        threshold,
                        limit,
                        current_cycle,
                        i as int,
                    );
                }
            }
            i += 1;
        }
        found
    }

    /// Finds the stored moments that resonate with `query` at least as much
    /// as `threshold`, most resonant first, of equals the one captured
    /// earliest first, and at most `limit` of them. Counts one query.
    pub fn find_resonant(
        &mut self,
        query: &Fingerprint,
        threshold: i64,
        limit: usize,
        current_cycle: u64,
    ) -> (found: Vec<SimilarMoment>)
        ensures
            old(self)@.is_ranking(
                found@,
                query@,
                threshold,
                limit,
                current_cycle,
                old(self)@.entries.len() as int,
            ),
            final(self)@ == old(self)@.queried(),
            old(self)@.wf(),
            final(self)@.wf(),
    {
        proof {
            use_type_invariant(&self.weights);
        }
        let found = self.rank(query, threshold, limit, current_cycle);
        self.count_query();
        found
    }
}

/// Finds the sweet spot of `query`: among the stored moments whose
/// similarity to it lies strictly inside the band, the most resonant, and
/// of equals the one captured earliest; nothing where none lies inside.
/// Counts one query.
pub fn find_sweet_spot(
    capture: &mut ResonanceCapture,
    query: &Fingerprint,
    current_cycle: u64,
) -> (best: Option<SimilarMoment>)
    ensures
        old(capture)@.is_sweet_spot(
            best,
            query@,
            current_cycle,
            old(capture)@.entries.len() as int,
        ),
        final(capture)@ == old(capture)@.queried(),
        old(capture)@.wf(),
        final(capture)@.wf(),
{
    proof {
        use_type_invariant(&capture.weights);
    }
    let n = capture.entries.len();
    let mut best: Option<SimilarMoment> = None;
    let mut i: usize = 0;
    while i < n
        invariant
            i <= n,
            n == capture@.entries.len(),
            capture@ == old(capture)@,
            capture@.is_sweet_spot(best, query@, current_cycle, i as int),
        decreases n - i,
    {
        let h = capture.hit_at(query, current_cycle, i);
        let ghost before = best;
        let similarity = h.content_similarity as i64;
        if capture.sweet_low < similarity && similarity < capture.sweet_high {
            let better = match best {
                Some(b) => h.resonance > b.resonance,
                None => true,
            };
            if better {
                best = Some(h);
            }
        }
        proof {
            let v = capture@;
            assert(v.in_sweet_spot(query@, i as int) == (v.sweet_low < h.content_similarity
                < v.sweet_high));
            match best {
                Some(b) => {
                    assert forall|j: int|
                        0 <= j < i + 1 && j != b.index && #[trigger] v.in_sweet_spot(
                            query@,
                            j,
                        ) implies outranks(b, v.hit(query@, current_cycle, j)) by {
                        let hj = v.hit(query@, current_cycle, j);
                        if b.index == i {
                            // The new best resonates more than the one before it.
                            if let Some(a) = before {
                                if j != a.index {
                                    assert(outranks(a, hj));
                                }
                            }
                        } else {
                            if j == i {
                                assert(b.resonance >= h.resonance);
                            }
                        }
                    }
                },
                None => {},
            }
        }
        i += 1;
    }
    capture.count_query();
    best
}

/// The scores of a hit are what the formulas give, with nothing cut off:
/// the similarity is at most one and the resonance at most two.
pub proof fn lemma_hit_scores(v: ResonanceView, query: Fingerprint, current_cycle: u64, i: int)
    requires
        v.wf(),
        0 <= i < v.entries.len(),
    ensures
        v.hit(query@, current_cycle, i).content_similarity == similarity_of(
            query@,
            v.entries[i].moment.fingerprint@,
        ),
        v.hit(query@, current_cycle, i).content_similarity <= UNIT,
        v.hit(query@, current_cycle, i).resonance == resonance_of(
            v.content_weight,
            v.recency_weight,
            similarity_of(query@, v.entries[i].moment.fingerprint@),
            age_of(current_cycle, v.entries[i].cycle),
        ),
        v.hit(query@, current_cycle, i).resonance <= 2 * UNIT,
{
    let entry = v.entries[i];
    crate::fingerprint::lemma_similarity_range(query, entry.moment.fingerprint);
    let similarity = similarity_of(query@, entry.moment.fingerprint@);
    let span = 1 + age_of(current_cycle, entry.cycle);
    let unit = UNIT as int;
    let content = v.content_weight as int;
    let recency = v.recency_weight as int;
    let weighed = content * similarity * span + recency * unit;
    assert(0 <= weighed <= 2 * unit * (unit * span) && unit * span > 0) by (nonlinear_arith)
        requires
            0 <= content <= unit,
            0 <= recency <= unit,
            0 <= similarity <= unit,
            span >= 1,
            unit > 0,
            weighed == content * similarity * span + recency * unit,
    ;
    assert(0 <= weighed / (unit * span) <= 2 * unit) by (nonlinear_arith)
        requires
            0 <= weighed <= 2 * unit * (unit * span),
            unit * span > 0,
    ;
}

/// A moment that is no less similar and no older resonates no less.
pub proof fn lemma_resonance_monotonic(
    content_weight: u32,
    recency_weight: u32,
    less_similar: int,
    more_similar: int,
    older: nat,
    newer: nat,
)
    requires
        0 <= less_similar <= more_similar,
        newer <= older,
    ensures
        resonance_of(content_weight, recency_weight, less_similar, older) <= resonance_of(
            content_weight,
            recency_weight,
            more_similar,
            newer,
        ),
{
    let unit = UNIT as int;
    let c = content_weight as int;
    let r = recency_weight as int;
    let span1 = 1 + older;
    let span2 = 1 + newer;
    let n1 = c * less_similar * span1 + r * unit;
    let n2 = c * more_similar * span2 + r * unit;
    let d1 = unit * span1;
    let d2 = unit * span2;
    assert(c * less_similar * span1 * span2 <= c * more_similar * span1 * span2)
        by (nonlinear_arith)
        requires
            0 <= c,
            0 <= less_similar <= more_similar,
            span1 >= 1,
            span2 >= 1,
    ;
    assert(n1 * d2 == unit * (c * less_similar * span1 * span2) + unit * (r * unit * span2))
        by (nonlinear_arith)
        requires
            n1 == c * less_similar * span1 + r * unit,
            d2 == unit * span2,
    ;
    assert(n2 * d1 == unit * (c * more_similar * span1 * span2) + unit * (r * unit * span1))
        by (nonlinear_arith)
        requires
            n2 == c * more_similar * span2 + r * unit,
            d1 == unit * span1,
    ;
    assert(r * unit * span2 <= r * unit * span1) by (nonlinear_arith)
        requires
            0 <= r,
            unit > 0,
            span2 <= span1,
    ;
    assert(n1 * d2 <= n2 * d1) by (nonlinear_arith)
        requires
            n1 * d2 == unit * (c * less_similar * span1 * span2) + unit * (r * unit * span2),
            n2 * d1 == unit * (c * more_similar * span1 * span2) + unit * (r * unit * span1),
            c * less_similar * span1 * span2 <= c * more_similar * span1 * span2,
            r * unit * span2 <= r * unit * span1,
            unit > 0,
    ;
    lemma_quotients_ordered(n1, d1, n2, d2);
}

/// Of two fractions, the one that is no larger has the rounded-down quotient that is no larger.
proof fn lemma_quotients_ordered(n1: int, d1: int, n2: int, d2: int)
    requires
        d1 > 0,
        d2 > 0,
        n1 * d2 <= n2 * d1,
    ensures
        n1 / d1 <= n2 / d2,
{
    let q1 = n1 / d1;
    let q2 = n2 / d2;
    assert(q1 * d1 <= n1 && n2 < (q2 + 1) * d2) by (nonlinear_arith)
        requires
            q1 == n1 / d1,
            q2 == n2 / d2,
            d1 > 0,
            d2 > 0,
    ;
    assert(q1 * d1 * d2 <= n1 * d2 && n2 * d1 < (q2 + 1) * d2 * d1) by (nonlinear_arith)
        requires
            q1 * d1 <= n1,
            n2 < (q2 + 1) * d2,
            d1 > 0,
            d2 > 0,
    ;
    assert(q1 < q2 + 1) by (nonlinear_arith)
        requires
            q1 * d1 * d2 < (q2 + 1) * d2 * d1,
            d1 > 0,
            d2 > 0,
    ;
}

/// The memory after capturing a sequence of moments, each in its cycle, in order.
pub open spec fn captured_all(v: ResonanceView, batch: Seq<ResonanceEntry>) -> ResonanceView
    decreases batch.len(),
{
    if batch.len() == 0 {
        v
    } else {
        captured_all(v, batch.drop_last()).captured(batch.last().moment, batch.last().cycle)
    }
}

/// Captures only add: what was stored stays in place, each capture adds one
/// entry and counts once, and the count of queries does not move.
pub proof fn lemma_captures_append(v: ResonanceView, batch: Seq<ResonanceEntry>)
    requires
        v.wf(),
    ensures
        captured_all(v, batch).wf(),
        captured_all(v, batch).entries == v.entries + batch,
        captured_all(v, batch).total_captures == v.total_captures + batch.len(),
        captured_all(v, batch).total_queries == v.total_queries,
    decreases batch.len(),
{
    if batch.len() > 0 {
        lemma_captures_append(v, batch.drop_last());
        assert((v.entries + batch.drop_last()).push(
            ResonanceEntry { moment: batch.last().moment, cycle: batch.last().cycle },
        ) =~= v.entries + batch);
    } else {
        assert(v.entries + batch =~= v.entries);
    }
}

/// Capturing any number of moments and then asking once raises the count
/// of captures by that number and the count of queries by exactly one, as
/// long as the counter of queries is not at its end.
pub proof fn lemma_counts_after_captures_and_query(v: ResonanceView, batch: Seq<ResonanceEntry>)
    requires
        v.wf(),
        v.total_queries < u64::MAX,
    ensures
        captured_all(v, batch).queried().total_captures == v.total_captures + batch.len(),
        captured_all(v, batch).queried().total_queries == v.total_queries + 1,
        captured_all(v, batch).queried().entries.len() == v.entries.len() + batch.len(),
{
    lemma_captures_append(v, batch);
}

/// Of two different hits of one memory, one outranks the other, and never both.
pub proof fn lemma_outranks_total(a: SimilarMoment, b: SimilarMoment)
    ensures
        a.index != b.index ==> outranks(a, b) || outranks(b, a),
        !(outranks(a, b) && outranks(b, a)),
{
}

/// Ranks pass on: what outranks a hit outranks all that the hit outranks.
pub proof fn lemma_outranks_transitive(a: SimilarMoment, b: SimilarMoment, c: SimilarMoment)
    requires
        outranks(a, b),
        outranks(b, c),
    ensures
        outranks(a, c),
{
}

/// The results of a ranking never rise in resonance, and results of equal
/// resonance stand in capture order.
pub proof fn lemma_ranking_descends(
    v: ResonanceView,
    found: Seq<SimilarMoment>,
    query: Seq<bool>,
    threshold: i64,
    limit: usize,
    current_cycle: u64,
    k: int,
    l: int,
)
    requires
        v.is_ranking(found, query, threshold, limit, current_cycle, v.entries.len() as int),
        0 <= k < l < found.len(),
    ensures
        found[k].resonance >= found[l].resonance,
        found[k].resonance == found[l].resonance ==> found[k].index < found[l].index,
        found[k].resonance >= threshold,
        found.len() <= limit,
{
    assert(outranks(found[k], found[l]));
}

/// Two rankings agree up to any place that both reach.
proof fn lemma_rankings_agree(
    v: ResonanceView,
    a: Seq<SimilarMoment>,
    b: Seq<SimilarMoment>,
    query: Seq<bool>,
    threshold: i64,
    limit: usize,
    current_cycle: u64,
    upto: int,
    n: int,
)
    requires
        v.is_ranking(a, query, threshold, limit, current_cycle, upto),
        v.is_ranking(b, query, threshold, limit, current_cycle, upto),
        0 <= n <= a.len(),
        n <= b.len(),
    ensures
        forall|k: int| 0 <= k < n ==> a[k] == b[k],
    decreases n,
{
    if n > 0 {
        lemma_rankings_agree(v, a, b, query, threshold, limit, current_cycle, upto, n - 1);
        let k = n - 1;
        if a[k] != b[k] {
            assert(a[k].index != b[k].index);
            if outranks(a[k], b[k]) {
                lemma_ranking_misses(v, a, b, query, threshold, limit, current_cycle, upto, k);
            } else {
                lemma_ranking_misses(v, b, a, query, threshold, limit, current_cycle, upto, k);
            }
        }
    }
}

/// Where two rankings agree before place `k`, the one cannot hold at `k` a
/// hit that outranks what the other holds there.
proof fn lemma_ranking_misses(
    v: ResonanceView,
    a: Seq<SimilarMoment>,
    b: Seq<SimilarMoment>,
    query: Seq<bool>,
    threshold: i64,
    limit: usize,
    current_cycle: u64,
    upto: int,
    k: int,
)
    requires
        v.is_ranking(a, query, threshold, limit, current_cycle, upto),
        v.is_ranking(b, query, threshold, limit, current_cycle, upto),
        0 <= k < a.len(),
        k < b.len(),
        forall|m: int| 0 <= m < k ==> a[m] == b[m],
    ensures
        !outranks(a[k], b[k]),
{
    let j = a[k].index as int;
    assert(v.qualifies(query, threshold, current_cycle, j));
    if !outranks(a[k], b[k]) {
    } else if lists(b, j) {
        let m = choose|m: int| 0 <= m < b.len() && (#[trigger] b[m]).index == j;
        assert(b[m] == a[k]);
        if m < k {
            assert(outranks(a[m], a[k]));
        } else if m > k {
            assert(outranks(b[k], b[m]));
        }
    } else {
        assert(left_out(b, limit, v.hit(query, current_cycle, j)));
        assert(outranks(b[k], a[k]));
    }
}

/// A query has one answer: two rankings of the same entries for the same
/// query, threshold, limit and cycle are the same sequence.
pub proof fn lemma_ranking_unique(
    v: ResonanceView,
    a: Seq<SimilarMoment>,
    b: Seq<SimilarMoment>,
    query: Seq<bool>,
    threshold: i64,
    limit: usize,
    current_cycle: u64,
    upto: int,
)
    requires
        v.is_ranking(a, query, threshold, limit, current_cycle, upto),
        v.is_ranking(b, query, threshold, limit, current_cycle, upto),
    ensures
        a == b,
{
    if a.len() <= b.len() {
        lemma_rankings_agree(v, a, b, query, threshold, limit, current_cycle, upto, a.len() as int);
        lemma_ranking_short(v, a, b, query, threshold, limit, current_cycle, upto);
    } else {
        lemma_rankings_agree(v, a, b, query, threshold, limit, current_cycle, upto, b.len() as int);
        lemma_ranking_short(v, b, a, query, threshold, limit, current_cycle, upto);
    }
    assert(a =~= b);
}

/// A ranking cannot stop short of what another one, equal so far, goes on to hold.
proof fn lemma_ranking_short(
    v: ResonanceView,
    a: Seq<SimilarMoment>,
    b: Seq<SimilarMoment>,
    query: Seq<bool>,
    threshold: i64,
    limit: usize,
    current_cycle: u64,
    upto: int,
)
    requires
        v.is_ranking(a, query, threshold, limit, current_cycle, upto),
        v.is_ranking(b, query, threshold, limit, current_cycle, upto),
        a.len() <= b.len(),
        forall|m: int| 0 <= m < a.len() ==> a[m] == b[m],
    ensures
        a.len() == b.len(),
{
    let k = a.len() as int;
    let j = b[k].index as int;
    if a.len() == b.len() {
    } else if lists(a, j) {
        let m = choose|m: int| 0 <= m < a.len() && (#[trigger] a[m]).index == j;
        assert(outranks(b[m], b[k]));
    } else {
        assert(v.qualifies(query, threshold, current_cycle, j));
        assert(left_out(a, limit, v.hit(query, current_cycle, j)));
    }
}

/// A query has at most one sweet spot.
pub proof fn lemma_sweet_spot_unique(
    v: ResonanceView,
    a: Option<SimilarMoment>,
    b: Option<SimilarMoment>,
    query: Seq<bool>,
    current_cycle: u64,
    upto: int,
)
    requires
        v.is_sweet_spot(a, query, current_cycle, upto),
        v.is_sweet_spot(b, query, current_cycle, upto),
    ensures
        a == b,
{
    match (a, b) {
        (Some(x), Some(y)) => {
            if x.index != y.index {
                assert(outranks(x, v.hit(query, current_cycle, y.index as int)));
                assert(outranks(y, v.hit(query, current_cycle, x.index as int)));
            }
        },
        (Some(x), None) => {
            assert(v.in_sweet_spot(query, x.index as int));
        },
        (None, Some(y)) => {
            assert(v.in_sweet_spot(query, y.index as int));
        },
        (None, None) => {},
    }
}

} // verus!
