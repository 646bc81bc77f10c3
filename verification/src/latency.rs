//! Bounded-history tracker of round-trip latency samples and the table that
//! correlates an outgoing ping with the matching pong per session.

use vstd::prelude::*;

verus! {

/// How many round-trip samples are retained; when full, the oldest sample is
/// evicted to make room for a new one.
pub const SAMPLE_CAPACITY: usize = 1000;

/// Samples strictly above this many milliseconds count as high latency.
pub const HIGH_LATENCY_THRESHOLD_MS: u64 = 50;

/// Sum of a sequence of samples, as a mathematical integer.
pub open spec fn seq_sum(s: Seq<u64>) -> int
    decreases s.len(),
{
    if s.len() == 0 {
        0
    } else {
        s[0] + seq_sum(s.drop_first())
    }
}

/// Smallest sample of a non-empty sequence.
pub open spec fn seq_min(s: Seq<u64>) -> u64
    recommends
        s.len() > 0,
    decreases s.len(),
{
    if s.len() <= 1 {
        s[0]
    } else {
        let rest = seq_min(s.drop_first());
        if s[0] <= rest {
            s[0]
        } else {
            rest
        }
    }
}

/// Largest sample of a non-empty sequence.
pub open spec fn seq_max(s: Seq<u64>) -> u64
    recommends
        s.len() > 0,
    decreases s.len(),
{
    if s.len() <= 1 {
        s[0]
    } else {
        let rest = seq_max(s.drop_first());
        if s[0] >= rest {
            s[0]
        } else {
            rest
        }
    }
}

/// A counter increment that stops at the largest representable value instead
/// of wrapping.
pub open spec fn inc_saturating(c: u64) -> u64 {
    if c == u64::MAX {
        c
    } else {
        (c + 1) as u64
    }
}

pub proof fn lemma_seq_sum_push(s: Seq<u64>, x: u64)
    ensures
        seq_sum(s.push(x)) == seq_sum(s) + x,
    decreases s.len(),
{
    if s.len() == 0 {
        assert(s.push(x).drop_first() =~= Seq::<u64>::empty());
        assert(seq_sum(Seq::<u64>::empty()) == 0);
    } else {
        assert(s.push(x).drop_first() =~= s.drop_first().push(x));
        lemma_seq_sum_push(s.drop_first(), x);
        assert(seq_sum(s.push(x)) == s[0] + seq_sum(s.drop_first().push(x)));
        assert(seq_sum(s) == s[0] + seq_sum(s.drop_first()));
    }
}

pub proof fn lemma_seq_min_push(s: Seq<u64>, x: u64)
    requires
        s.len() > 0,
    ensures
        seq_min(s.push(x)) == if x < seq_min(s) {
            x
        } else {
            seq_min(s)
        },
    decreases s.len(),
{
    if s.len() == 1 {
        assert(s.push(x).drop_first() =~= seq![x]);
        assert(seq_min(seq![x]) == x);
    } else {
        assert(s.push(x).drop_first() =~= s.drop_first().push(x));
        lemma_seq_min_push(s.drop_first(), x);
        assert(seq_min(s.push(x)) == if s[0] <= seq_min(s.drop_first().push(x)) {
            s[0]
        } else {
            seq_min(s.drop_first().push(x))
        });
        assert(seq_min(s) == if s[0] <= seq_min(s.drop_first()) {
            s[0]
        } else {
            seq_min(s.drop_first())
        });
    }
}

pub proof fn lemma_seq_max_push(s: Seq<u64>, x: u64)
    requires
        s.len() > 0,
    ensures
        seq_max(s.push(x)) == if x > seq_max(s) {
            x
        } else {
            seq_max(s)
        },
    decreases s.len(),
{
    if s.len() == 1 {
        assert(s.push(x).drop_first() =~= seq![x]);
        assert(seq_max(seq![x]) == x);
    } else {
        assert(s.push(x).drop_first() =~= s.drop_first().push(x));
        lemma_seq_max_push(s.drop_first(), x);
        assert(seq_max(s.push(x)) == if s[0] >= seq_max(s.drop_first().push(x)) {
            s[0]
        } else {
            seq_max(s.drop_first().push(x))
        });
        assert(seq_max(s) == if s[0] >= seq_max(s.drop_first()) {
            s[0]
        } else {
            seq_max(s.drop_first())
        });
    }
}

/// How one recorded sample changes a tracker's history and high-latency
/// count: the relation between the state before and after [`LatencyTracker::record`].
pub open spec fn recorded(
    samples_old: Seq<u64>,
    high_old: u64,
    samples_new: Seq<u64>,
    high_new: u64,
    sample_ms: u64,
) -> bool {
    &&& samples_new == if samples_old.len() < SAMPLE_CAPACITY {
        samples_old.push(sample_ms)
    } else {
        samples_old.drop_first().push(sample_ms)
    }
    &&& high_new == if sample_ms > HIGH_LATENCY_THRESHOLD_MS {
        inc_saturating(high_old)
    } else {
        high_old
    }
}

/// Aggregate view over the currently retained samples.
pub struct LatencyReport {
    /// Smallest retained sample, in milliseconds.
    pub min_ms: u64,
    /// Largest retained sample, in milliseconds.
    pub max_ms: u64,
    /// Integer average of the retained samples, in milliseconds.
    pub avg_ms: u64,
    /// Samples ever observed above the high-latency threshold.
    pub high_latency_count: u64,
    /// Number of retained samples the other fields are computed over.
    pub sample_count: usize,
}

/// Bounded history of round-trip samples plus a running count of samples
/// above the high-latency threshold.
pub struct LatencyTracker {
    samples: Vec<u64>,
    high_latency_count: u64,
}

impl LatencyTracker {
    /// The retained samples, oldest first.
    pub closed spec fn samples(&self) -> Seq<u64> {
        self.samples@
    }

    /// How many samples ever exceeded the threshold, saturating at `u64::MAX`.
    pub closed spec fn high_count(&self) -> u64 {
        self.high_latency_count
    }

    /// The retained history never outgrows the capacity.
    pub closed spec fn wf(&self) -> bool {
        self.samples@.len() <= SAMPLE_CAPACITY
    }

    pub fn new() -> (r: LatencyTracker)
        ensures
            r.wf(),
            r.samples() == Seq::<u64>::empty(),
            r.high_count() == 0,
    {
        LatencyTracker { samples: Vec::new(), high_latency_count: 0 }
    }

    /// Append a round-trip sample, evicting the oldest when the history is
    /// full, and count it if it exceeds the threshold.
    pub fn record(&mut self, sample_ms: u64)
        requires
            old(self).wf(),
        ensures
            final(self).wf(),
            recorded(
                old(self).samples(),
                old(self).high_count(),
                final(self).samples(),
                final(self).high_count(),
                sample_ms,
            ),
    {
        if self.samples.len() >= SAMPLE_CAPACITY {
            self.samples.remove(0);
            proof {
                assert(self.samples@ =~= old(self).samples@.drop_first());
            }
        }
        self.samples.push(sample_ms);
        if sample_ms > HIGH_LATENCY_THRESHOLD_MS && self.high_latency_count < u64::MAX {
            self.high_latency_count = self.high_latency_count + 1;
        }
    }

    /// Aggregate statistics over the retained samples; with no samples there
    /// is nothing to report and `None` is returned.
    pub fn report(&self) -> (r: Option<LatencyReport>)
        requires
            self.wf(),
        ensures
            r is Some <==> self.samples().len() > 0,
            r matches Some(rep) ==> {
                &&& rep.min_ms == seq_min(self.samples())
                &&& rep.max_ms == seq_max(self.samples())
                &&& rep.avg_ms == seq_sum(self.samples()) / (self.samples().len() as int)
                &&& rep.high_latency_count == self.high_count()
                &&& rep.sample_count == self.samples().len()
            },
    {
        let n = self.samples.len();
        if n == 0 {
            return None;
        }
        let mut mn: u64 = self.samples[0];
        let mut mx: u64 = self.samples[0];
        let mut sum: u128 = self.samples[0] as u128;
        proof {
            assert(self.samples@.subrange(0, 1) =~= seq![self.samples@[0]]);
            assert(seq_sum(Seq::<u64>::empty()) == 0);
            assert(seq![self.samples@[0]].drop_first() =~= Seq::<u64>::empty());
            assert(seq_sum(seq![self.samples@[0]]) == self.samples@[0]);
        }
        let mut i: usize = 1;
        while i < n
            invariant
                1 <= i <= n,
                n == self.samples@.len(),
                mn == seq_min(self.samples@.subrange(0, i as int)),
                mx == seq_max(self.samples@.subrange(0, i as int)),
                sum == seq_sum(self.samples@.subrange(0, i as int)),
                sum <= (i as int) * (u64::MAX as int),
            decreases n - i,
        {
            let s = self.samples[i];
            proof {
                let pre = self.samples@.subrange(0, i as int);
                assert(self.samples@.subrange(0, i as int + 1) =~= pre.push(s));
                lemma_seq_min_push(pre, s);
                lemma_seq_max_push(pre, s);
                lemma_seq_sum_push(pre, s);
                assert((i as int + 1) * (u64::MAX as int) == (i as int) * (u64::MAX as int)
                    + u64::MAX) by (nonlinear_arith);
            }
            if s < mn {
                mn = s;
            }
            if s > mx {
                mx = s;
            }
            sum = sum + s as u128;
            i = i + 1;
        }
        proof {
            assert(self.samples@.subrange(0, n as int) =~= self.samples@);
            vstd::arithmetic::div_mod::lemma_multiply_divide_le(
                sum as int,
                n as int,
                u64::MAX as int,
            );
            assert((n as int) * (u64::MAX as int) == (u64::MAX as int) * (n as int))
                by (nonlinear_arith);
        }
        let avg: u64 = (sum / (n as u128)) as u64;
        Some(
            LatencyReport {
                min_ms: mn,
                max_ms: mx,
                avg_ms: avg,
                high_latency_count: self.high_latency_count,
                sample_count: n,
            },
        )
    }
}

/// True when no session id occurs twice in the pair list.
pub open spec fn pending_keys_distinct(s: Seq<(u128, u64)>) -> bool {
    forall|i: int, j: int| 0 <= i < j < s.len() ==> s[i].0 != s[j].0
}

/// The pair list read as a map from session id to the time its ping was sent.
pub open spec fn pending_map(s: Seq<(u128, u64)>) -> Map<u128, u64>
    decreases s.len(),
{
    if s.len() == 0 {
        Map::empty()
    } else {
        pending_map(s.drop_last()).insert(s.last().0, s.last().1)
    }
}

proof fn lemma_pending_map_index(s: Seq<(u128, u64)>, i: int)
    requires
        pending_keys_distinct(s),
        0 <= i < s.len(),
    ensures
        pending_map(s).contains_key(s[i].0),
        pending_map(s)[s[i].0] == s[i].1,
    decreases s.len(),
{
    if i < s.len() - 1 {
        lemma_pending_map_index(s.drop_last(), i);
    }
}

proof fn lemma_pending_map_absent(s: Seq<(u128, u64)>, id: u128)
    requires
        forall|i: int| 0 <= i < s.len() ==> s[i].0 != id,
    ensures
        !pending_map(s).contains_key(id),
    decreases s.len(),
{
    if s.len() > 0 {
        lemma_pending_map_absent(s.drop_last(), id);
    }
}

proof fn lemma_pending_map_update(s: Seq<(u128, u64)>, i: int, v: u64)
    requires
        pending_keys_distinct(s),
        0 <= i < s.len(),
    ensures
        pending_map(s.update(i, (s[i].0, v))) =~= pending_map(s).insert(s[i].0, v),
    decreases s.len(),
{
    let id = s[i].0;
    let t = s.update(i, (id, v));
    if i == s.len() - 1 {
        assert(t.drop_last() =~= s.drop_last());
        assert(pending_map(s.drop_last()).insert(id, s.last().1).insert(id, v)
            =~= pending_map(s.drop_last()).insert(id, v));
    } else {
        assert(t.drop_last() =~= s.drop_last().update(i, (id, v)));
        lemma_pending_map_update(s.drop_last(), i, v);
        let last = s.last();
        assert(pending_map(s.drop_last()).insert(id, v).insert(last.0, last.1)
            =~= pending_map(s.drop_last()).insert(last.0, last.1).insert(id, v));
    }
}

proof fn lemma_pending_map_remove(s: Seq<(u128, u64)>, i: int)
    requires
        pending_keys_distinct(s),
        0 <= i < s.len(),
    ensures
        pending_map(s.remove(i)) =~= pending_map(s).remove(s[i].0),
        pending_keys_distinct(s.remove(i)),
    decreases s.len(),
{
    let id = s[i].0;
    if i == s.len() - 1 {
        assert(s.remove(i) =~= s.drop_last());
        lemma_pending_map_absent(s.drop_last(), id);
        assert(pending_map(s.drop_last()).insert(id, s.last().1).remove(id)
            =~= pending_map(s.drop_last()));
    } else {
        assert(s.remove(i).drop_last() =~= s.drop_last().remove(i));
        assert(s.remove(i).last() == s.last());
        lemma_pending_map_remove(s.drop_last(), i);
        let last = s.last();
        assert(pending_map(s.drop_last()).remove(id).insert(last.0, last.1)
            =~= pending_map(s.drop_last()).insert(last.0, last.1).remove(id));
    }
}

/// Time, keyed by session id, at which the latest ping was sent and is still
/// awaiting its pong; pairing the pong with this time yields a true
/// round-trip sample rather than a mere send cost.
pub struct PingTable {
    pending: Vec<(u128, u64)>,
}

/// Elapsed time from `sent` to `now`; a clock that moved backwards yields 0.
pub open spec fn elapsed_ms(sent: u64, now: u64) -> u64 {
    if now >= sent {
        (now - sent) as u64
    } else {
        0
    }
}

impl PingTable {
    /// Sessions with an outstanding ping, each with its send time.
    pub closed spec fn pending(&self) -> Map<u128, u64> {
        pending_map(self.pending@)
    }

    pub closed spec fn wf(&self) -> bool {
        pending_keys_distinct(self.pending@)
    }

    pub fn new() -> (r: PingTable)
        ensures
            r.wf(),
            r.pending() == Map::<u128, u64>::empty(),
    {
        PingTable { pending: Vec::new() }
    }

    /// Note that a ping was sent to `id` at `now`; a still-outstanding
    /// earlier ping for the same session is superseded.
    pub fn record_ping(&mut self, id: u128, now: u64)
        requires
            old(self).wf(),
        ensures
            final(self).wf(),
            final(self).pending() == old(self).pending().insert(id, now),
    {
        let n = self.pending.len();
        let mut i: usize = 0;
        while i < n
            invariant
                0 <= i <= n,
                n == self.pending@.len(),
                self.pending@ == old(self).pending@,
                pending_keys_distinct(self.pending@),
                forall|j: int| 0 <= j < i ==> self.pending@[j].0 != id,
            decreases n - i,
        {
            if self.pending[i].0 == id {
                self.pending.set(i, (id, now));
                proof {
                    lemma_pending_map_update(old(self).pending@, i as int, now);
                }
                return ;
            }
            i = i + 1;
        }
        self.pending.push((id, now));
        proof {
            assert(self.pending@.drop_last() =~= old(self).pending@);
            assert(pending_keys_distinct(self.pending@));
        }
    }

    /// Drop any outstanding ping for `id`, as part of session teardown.
    pub fn forget(&mut self, id: u128)
        requires
            old(self).wf(),
        ensures
            final(self).wf(),
            final(self).pending() == old(self).pending().remove(id),
    {
        let n = self.pending.len();
        let mut i: usize = 0;
        while i < n
            invariant
                0 <= i <= n,
                n == self.pending@.len(),
                self.pending@ == old(self).pending@,
                pending_keys_distinct(self.pending@),
                forall|j: int| 0 <= j < i ==> self.pending@[j].0 != id,
            decreases n - i,
        {
            if self.pending[i].0 == id {
                self.pending.remove(i);
                proof {
                    lemma_pending_map_remove(old(self).pending@, i as int);
                }
                return ;
            }
            i = i + 1;
        }
        proof {
            lemma_pending_map_absent(self.pending@, id);
            assert(old(self).pending().remove(id) =~= old(self).pending());
        }
    }

    /// A pong arrived from `id` at `now`: the round-trip time of the
    /// outstanding ping, if one was pending.
    pub fn observe_pong(&mut self, id: u128, now: u64) -> (r: Option<u64>)
        requires
            old(self).wf(),
        ensures
            final(self).wf(),
            r is Some <==> old(self).pending().contains_key(id),
            r matches Some(ms) ==> ms == elapsed_ms(old(self).pending()[id], now),
            final(self).pending() == old(self).pending().remove(id),
    {
        let n = self.pending.len();
        let mut i: usize = 0;
        while i < n
            invariant
                0 <= i <= n,
                n == self.pending@.len(),
                self.pending@ == old(self).pending@,
                pending_keys_distinct(self.pending@),
                forall|j: int| 0 <= j < i ==> self.pending@[j].0 != id,
            decreases n - i,
        {
            if self.pending[i].0 == id {
                let sent = self.pending[i].1;
                self.pending.remove(i);
                proof {
                    lemma_pending_map_index(old(self).pending@, i as int);
                    lemma_pending_map_remove(old(self).pending@, i as int);
                }
                let ms = if now >= sent {
                    now - sent
                } else {
                    0
                };
                return Some(ms);
            }
            i = i + 1;
        }
        proof {
            lemma_pending_map_absent(self.pending@, id);
            assert(old(self).pending().remove(id) =~= old(self).pending());
        }
        None
    }
}

} // verus!
