use vstd::prelude::*;

use crate::checkpoint::ResumePosition;
use crate::message::Message;

verus! {

/// Delivery state of one configured sink.
///
/// Deliveries to one sink are serial and in feed order: the in-flight
/// message, when there is one, is always the one at sequence `acked`, so
/// per-sink order can never be violated.
#[derive(Clone, Copy, PartialEq, Eq, Structural, Debug)]
pub struct SinkState {
    /// Every message with sequence below this is acknowledged by this sink.
    pub acked: u64,
    /// Attempts made for the in-flight message; 0 when the sink is idle.
    pub inflight_attempts: u64,
    /// Retries exhausted: no new attempts until a health probe restores it.
    pub degraded: bool,
    /// How many distinct messages were ever handed to this sink.
    pub first_attempted: u64,
}

/// What the fan-out engine decides after a delivery attempt resolves.
#[derive(Clone, Copy, PartialEq, Eq, Structural, Debug)]
pub enum DeliveryVerdict {
    /// The sink accepted the message; its acknowledged prefix grew by one.
    Acked,
    /// The attempt failed but attempts remain: deliver again after backoff.
    RetryScheduled,
    /// Attempts are exhausted: the sink is now degraded and isolated.
    Degraded,
}

/// One message waiting in the pending-acknowledgment window, with the feed
/// position that observing it established.
pub struct PendingEntry {
    pub msg: Message,
    pub pos: ResumePosition,
}

/// The fan-out engine: hands every accepted message to every configured
/// sink, each sink in feed order, keeps the pending window bounded, and
/// tracks which prefix every sink has acknowledged.
pub struct Dispatcher {
    /// Per-sink delivery state; the index is the sink's identity.
    pub sinks: Vec<SinkState>,
    /// Sequence number of `window[0]`; every sequence below it is
    /// acknowledged by every sink.
    pub base: u64,
    /// Accepted messages not yet acknowledged by every sink; the entry at
    /// index `i` has sequence `base + i`.
    pub window: Vec<PendingEntry>,
    /// Bound on the pending window: accepting stops when it is full.
    pub window_limit: usize,
    /// Bound on delivery attempts per message per sink.
    pub max_attempts: u64,
    /// For each sink, the sequences handed to it, in first-attempt order.
    pub order_log: Ghost<Seq<Seq<u64>>>,
}

impl Dispatcher {
    /// Sequences `0 .. accepted()` have been accepted for fan-out.
    pub open spec fn accepted(self) -> int {
        self.base + self.window@.len()
    }

    pub open spec fn sink_wf(self, i: int) -> bool {
        let s = self.sinks@[i];
        &&& self.base <= s.acked <= self.accepted()
        &&& s.inflight_attempts <= self.max_attempts
        &&& (s.inflight_attempts > 0 ==> s.acked < self.accepted() && !s.degraded
            && s.first_attempted >= s.acked + 1)
        &&& s.acked <= s.first_attempted <= self.accepted()
        &&& self.order_log@[i] =~= Seq::<u64>::new(s.first_attempted as nat, |k: int| k as u64)
    }

    /// Feed positions of pending messages grow with their sequence.
    pub open spec fn positions_increasing(self) -> bool {
        forall|i: int, j: int|
            0 <= i < j < self.window@.len() ==> #[trigger] self.window@[i].pos.value
                < #[trigger] self.window@[j].pos.value
    }

    pub open spec fn wf(self) -> bool {
        &&& self.window_limit >= 1
        &&& self.max_attempts >= 1
        &&& self.window@.len() <= self.window_limit
        &&& self.accepted() <= u64::MAX
        &&& self.order_log@.len() == self.sinks@.len()
        &&& forall|i: int| 0 <= i < self.sinks@.len() ==> self.sink_wf(i)
        &&& self.positions_increasing()
    }

    /// Start a dispatcher for `num_sinks` sinks, all healthy and idle.
    pub fn new(num_sinks: usize, window_limit: usize, max_attempts: u64) -> (d: Self)
        requires
            window_limit >= 1,
            max_attempts >= 1,
        ensures
            d.wf(),
            d.base == 0,
            d.window@.len() == 0,
            d.sinks@.len() == num_sinks,
            d.window_limit == window_limit,
            d.max_attempts == max_attempts,
            forall|i: int| 0 <= i < num_sinks ==> (#[trigger] d.sinks@[i]) == (SinkState {
                acked: 0u64,
                inflight_attempts: 0u64,
                degraded: false,
                first_attempted: 0u64,
            }),
    {
        let mut sinks: Vec<SinkState> = Vec::new();
        let mut i: usize = 0;
        while i < num_sinks
            invariant
                i <= num_sinks,
                sinks@.len() == i,
                forall|j: int| 0 <= j < i ==> (#[trigger] sinks@[j]) == (SinkState {
                    acked: 0u64,
                    inflight_attempts: 0u64,
                    degraded: false,
                    first_attempted: 0u64,
                }),
            decreases num_sinks - i,
        {
            sinks.push(SinkState {
                acked: 0,
                inflight_attempts: 0,
                degraded: false,
                first_attempted: 0,
            });
            i = i + 1;
        }
        let d = Dispatcher {
            sinks,
            base: 0,
            window: Vec::new(),
            window_limit,
            max_attempts,
            order_log: Ghost(Seq::new(num_sinks as nat, |k: int| Seq::<u64>::empty())),
        };
        proof {
            assert forall|i: int| 0 <= i < num_sinks implies d.sink_wf(i) by {
                assert(d.order_log@[i] =~= Seq::<u64>::new(0, |k: int| k as u64));
            }
        }
        d
    }

    /// Whether the window has room for one more message now.
    pub fn can_accept(&self) -> (r: bool)
        requires
            self.wf(),
        ensures
            r == (self.window@.len() < self.window_limit && self.accepted() < u64::MAX),
    {
        let len = self.window.len();
        len < self.window_limit && self.base < u64::MAX - (len as u64)
    }

    /// Admit one mapped message into the pending window, with the feed
    /// position that observing it established. Refused — backpressure — when
    /// the window is full: the caller must pause feed reads, not drop data.
    pub fn accept(&mut self, msg: Message, pos: ResumePosition) -> (r: bool)
        requires
            old(self).wf(),
            old(self).window@.len() > 0 ==> old(self).window@.last().pos.value < pos.value,
        ensures
            final(self).wf(),
            r == (old(self).window@.len() < old(self).window_limit && old(self).accepted()
                < u64::MAX),
            final(self).sinks == old(self).sinks,
            final(self).base == old(self).base,
            final(self).window_limit == old(self).window_limit,
            final(self).max_attempts == old(self).max_attempts,
            final(self).order_log == old(self).order_log,
            r ==> final(self).window@ =~= old(self).window@.push(PendingEntry { msg, pos }),
            !r ==> final(self).window == old(self).window,
    {
        let len = self.window.len();
        if len < self.window_limit && self.base < u64::MAX - (len as u64) {
            self.window.push(PendingEntry { msg, pos });
            proof {
                assert forall|i: int| 0 <= i < self.sinks@.len() implies self.sink_wf(i) by {
                    assert(old(self).sink_wf(i));
                }
            }
            true
        } else {
            false
        }
    }

    /// If sink `i` is idle, healthy and behind, start a delivery: returns the
    /// sequence to deliver now (always the sink's acknowledged frontier, so
    /// per-sink order is the feed order).
    pub fn poll_sink(&mut self, i: usize) -> (r: Option<u64>)
        requires
            old(self).wf(),
            i < old(self).sinks@.len(),
        ensures
            final(self).wf(),
            final(self).base == old(self).base,
            final(self).window == old(self).window,
            final(self).window_limit == old(self).window_limit,
            final(self).max_attempts == old(self).max_attempts,
            final(self).sinks@.len() == old(self).sinks@.len(),
            final(self).sinks@ == old(self).sinks@.update(i as int, final(self).sinks@[i as int]),
            final(self).order_log@ == old(self).order_log@.update(
                i as int,
                final(self).order_log@[i as int],
            ),
            forall|j: int|
                0 <= j < old(self).sinks@.len() && j != i ==> final(self).sinks@[j] == old(
                    self,
                ).sinks@[j] && final(self).order_log@[j] == old(self).order_log@[j],
            r is Some <==> (old(self).sinks@[i as int].inflight_attempts == 0 && !old(
                self,
            ).sinks@[i as int].degraded && old(self).sinks@[i as int].acked < old(self).accepted()),
            r matches Option::Some(seq) ==> {
                let s = old(self).sinks@[i as int];
                &&& seq == s.acked
                &&& final(self).sinks@[i as int] == SinkState {
                    inflight_attempts: 1u64,
                    first_attempted: if s.first_attempted == s.acked {
                        (s.acked + 1) as u64
                    } else {
                        s.first_attempted
                    },
                    ..s
                }
            },
            r is None ==> final(self).sinks == old(self).sinks && final(self).order_log == old(
                self,
            ).order_log,
    {
        let s = self.sinks[i];
        let frontier = self.base + (self.window.len() as u64);
        if s.inflight_attempts == 0 && !s.degraded && s.acked < frontier {
            let mut ns = s;
            ns.inflight_attempts = 1;
            if s.first_attempted == s.acked {
                ns.first_attempted = s.acked + 1;
                proof {
                    let gi = i as int;
                    assert(old(self).sink_wf(gi));
                    let updated = self.order_log@.update(gi, self.order_log@[gi].push(s.acked));
                    assert(updated[gi] =~= Seq::<u64>::new(
                        (s.first_attempted + 1) as nat,
                        |k: int| k as u64,
                    ));
                    self.order_log@ = updated;
                }
            }
            self.sinks[i] = ns;
            proof {
                assert forall|j: int| 0 <= j < self.sinks@.len() implies self.sink_wf(j) by {
                    assert(old(self).sink_wf(j));
                }
                assert(self.order_log@ =~= old(self).order_log@.update(
                    i as int,
                    self.order_log@[i as int],
                ));
            }
            Option::Some(s.acked)
        } else {
            proof {
                assert(self.order_log@ =~= old(self).order_log@.update(
                    i as int,
                    self.order_log@[i as int],
                ));
                assert(self.sinks@ =~= old(self).sinks@.update(i as int, self.sinks@[i as int]));
            }
            Option::None
        }
    }

    /// Record the outcome of the attempt in flight at sink `i`: on success
    /// the sink's acknowledged prefix grows by one; on failure a retry is
    /// scheduled while attempts remain, and after the bounded attempt count
    /// is exhausted the sink is degraded and isolated — other sinks keep
    /// making progress.
    pub fn on_result(&mut self, i: usize, ok: bool) -> (v: DeliveryVerdict)
        requires
            old(self).wf(),
            i < old(self).sinks@.len(),
            old(self).sinks@[i as int].inflight_attempts >= 1,
        ensures
            final(self).wf(),
            final(self).base == old(self).base,
            final(self).window == old(self).window,
            final(self).window_limit == old(self).window_limit,
            final(self).max_attempts == old(self).max_attempts,
            final(self).order_log == old(self).order_log,
            final(self).sinks@.len() == old(self).sinks@.len(),
            forall|j: int|
                0 <= j < old(self).sinks@.len() && j != i ==> final(self).sinks@[j] == old(
                    self,
                ).sinks@[j],
            ({
                let s = old(self).sinks@[i as int];
                if ok {
                    v == DeliveryVerdict::Acked && final(self).sinks@[i as int] == SinkState {
                        acked: (s.acked + 1) as u64,
                        inflight_attempts: 0u64,
                        ..s
                    }
                } else if s.inflight_attempts < old(self).max_attempts {
                    v == DeliveryVerdict::RetryScheduled && final(self).sinks@[i as int]
                        == SinkState { inflight_attempts: (s.inflight_attempts + 1) as u64, ..s }
                } else {
                    v == DeliveryVerdict::Degraded && final(self).sinks@[i as int] == SinkState {
                        inflight_attempts: 0u64,
                        degraded: true,
                        ..s
                    }
                }
            }),
    {
        proof {
            assert(old(self).sink_wf(i as int));
        }
        let s = self.sinks[i];
        let v = if ok {
            let mut ns = s;
            ns.acked = s.acked + 1;
            ns.inflight_attempts = 0;
            self.sinks[i] = ns;
            DeliveryVerdict::Acked
        } else if s.inflight_attempts < self.max_attempts {
            let mut ns = s;
            ns.inflight_attempts = s.inflight_attempts + 1;
            self.sinks[i] = ns;
            DeliveryVerdict::RetryScheduled
        } else {
            let mut ns = s;
            ns.inflight_attempts = 0;
            ns.degraded = true;
            self.sinks[i] = ns;
            DeliveryVerdict::Degraded
        };
        proof {
            assert forall|j: int| 0 <= j < self.sinks@.len() implies self.sink_wf(j) by {
                assert(old(self).sink_wf(j));
            }
        }
        v
    }

    /// A periodic health probe resolved for sink `i`: a healthy answer
    /// restores a degraded sink to normal delivery.
    pub fn probe_result(&mut self, i: usize, healthy: bool)
        requires
            old(self).wf(),
            i < old(self).sinks@.len(),
        ensures
            final(self).wf(),
            final(self).base == old(self).base,
            final(self).window == old(self).window,
            final(self).window_limit == old(self).window_limit,
            final(self).max_attempts == old(self).max_attempts,
            final(self).order_log == old(self).order_log,
            final(self).sinks@.len() == old(self).sinks@.len(),
            forall|j: int|
                0 <= j < old(self).sinks@.len() && j != i ==> final(self).sinks@[j] == old(
                    self,
                ).sinks@[j],
            final(self).sinks@[i as int] == (SinkState {
                degraded: old(self).sinks@[i as int].degraded && !healthy,
                ..old(self).sinks@[i as int]
            }),
    {
        let s = self.sinks[i];
        let mut ns = s;
        ns.degraded = s.degraded && !healthy;
        self.sinks[i] = ns;
        proof {
            assert forall|j: int| 0 <= j < self.sinks@.len() implies self.sink_wf(j) by {
                assert(old(self).sink_wf(j));
            }
        }
    }

    /// Whether every sink has acknowledged the message at the window's head.
    fn all_acked_head(&self) -> (r: bool)
        requires
            self.wf(),
        ensures
            r == (forall|j: int|
                0 <= j < self.sinks@.len() ==> (#[trigger] self.sinks@[j]).acked > self.base),
    {
        let mut j: usize = 0;
        while j < self.sinks.len()
            invariant
                self.wf(),
                j <= self.sinks@.len(),
                forall|k: int| 0 <= k < j ==> (#[trigger] self.sinks@[k]).acked > self.base,
            decreases self.sinks@.len() - j,
        {
            if self.sinks[j].acked <= self.base {
                return false;
            }
            j = j + 1;
        }
        true
    }

    /// Drop from the window every leading message that all sinks have
    /// acknowledged, and return the feed position of the newest one dropped:
    /// the position the checkpoint may now advance to. Nothing is returned —
    /// and the checkpoint therefore cannot advance — while any sink still
    /// lacks the head message.
    pub fn collect_acked(&mut self) -> (r: Option<ResumePosition>)
        requires
            old(self).wf(),
        ensures
            final(self).wf(),
            final(self).sinks == old(self).sinks,
            final(self).window_limit == old(self).window_limit,
            final(self).max_attempts == old(self).max_attempts,
            final(self).order_log == old(self).order_log,
            final(self).base >= old(self).base,
            final(self).accepted() == old(self).accepted(),
            final(self).window@ =~= old(self).window@.skip(
                final(self).base - old(self).base,
            ),
            r is None <==> final(self).base == old(self).base,
            r matches Option::Some(p) ==> p == old(self).window@[final(self).base - old(
                self,
            ).base - 1].pos,
            final(self).window@.len() > 0 ==> exists|j: int|
                0 <= j < final(self).sinks@.len() && (#[trigger] final(self).sinks@[j]).acked
                    == final(self).base,
    {
        let ghost base0 = self.base;
        let ghost win0 = self.window@;
        let mut newest: Option<ResumePosition> = Option::None;
        loop
            invariant
                self.wf(),
                self.sinks == old(self).sinks,
                self.window_limit == old(self).window_limit,
                self.max_attempts == old(self).max_attempts,
                self.order_log == old(self).order_log,
                self.base >= base0,
                self.accepted() == base0 + win0.len(),
                self.window@ =~= win0.skip(self.base - base0),
                newest is None <==> self.base == base0,
                newest matches Option::Some(p) ==> p == win0[self.base - base0 - 1].pos,
            ensures
                self.window@.len() > 0 ==> exists|j: int|
                    0 <= j < self.sinks@.len() && (#[trigger] self.sinks@[j]).acked == self.base,
            decreases self.window@.len(),
        {
            if self.window.len() == 0 {
                break;
            }
            if !self.all_acked_head() {
                proof {
                    let j = choose|j: int|
                        0 <= j < self.sinks@.len() && !((#[trigger] self.sinks@[j]).acked
                            > self.base);
                    assert(self.sink_wf(j));
                    assert(self.sinks@[j].acked == self.base);
                    assert(exists|j: int|
                        0 <= j < self.sinks@.len() && (#[trigger] self.sinks@[j]).acked
                            == self.base);
                }
                break;
            }
            let ghost pre = *self;
            let head = self.window.remove(0);
            newest = Option::Some(head.pos);
            self.base = self.base + 1;
            proof {
                assert(self.window@ =~= pre.window@.skip(1));
                assert(self.window@ =~= win0.skip(self.base - base0));
                assert forall|j: int| 0 <= j < self.sinks@.len() implies self.sink_wf(j) by {
                    assert(pre.sink_wf(j));
                }
                assert forall|i: int, j: int|
                    0 <= i < j < self.window@.len() implies self.window@[i].pos.value
                    < self.window@[j].pos.value by {
                    assert(pre.window@[i + 1].pos.value < pre.window@[j + 1].pos.value);
                }
            }
        }
        newest
    }

    /// Read the pending message with sequence `seq`, for a delivery attempt.
    pub fn message_at(&self, seq: u64) -> (m: &Message)
        requires
            self.wf(),
            self.base <= seq < self.accepted(),
        ensures
            m == &self.window@[seq - self.base].msg,
    {
        &self.window[(seq - self.base) as usize].msg
    }
}

/// Fan-out order law: every sink is handed messages in exactly the order
/// they were mapped — sink `i`'s first-attempt log is the sequence
/// `0, 1, ..., first_attempted - 1`, with no reordering and no skips.
pub proof fn lemma_per_sink_fifo(d: Dispatcher, i: int)
    requires
        d.wf(),
        0 <= i < d.sinks@.len(),
    ensures
        d.order_log@[i] =~= Seq::<u64>::new(
            d.sinks@[i].first_attempted as nat,
            |k: int| k as u64,
        ),
{
    assert(d.sink_wf(i));
}

/// Fan-out completeness law: once the pending window is drained, every sink
/// has received exactly one delivery attempt per accepted message — `M`
/// messages accepted means `M` first attempts at every sink, in feed order.
pub proof fn lemma_fanout_exactly_all(d: Dispatcher, i: int)
    requires
        d.wf(),
        0 <= i < d.sinks@.len(),
        d.window@.len() == 0,
    ensures
        d.sinks@[i].first_attempted == d.accepted(),
        d.order_log@[i] =~= Seq::<u64>::new(d.accepted() as nat, |k: int| k as u64),
{
    assert(d.sink_wf(i));
}

/// At-least-once without duplication, per session: a sink's first-attempt
/// log never repeats a message. Within one feed session a sink can see the
/// same message again only as an explicit retry of a delivery it has not
/// acknowledged; after a restart, only messages past the committed
/// checkpoint are read again, so each sink re-receives at most the messages
/// it had not yet acknowledged.
pub proof fn lemma_no_repeated_first_attempt(d: Dispatcher, i: int, a: int, b: int)
    requires
        d.wf(),
        0 <= i < d.sinks@.len(),
        0 <= a < b < d.order_log@[i].len(),
    ensures
        d.order_log@[i][a] != d.order_log@[i][b],
{
    assert(d.sink_wf(i));
}

/// Isolation law: a sink that never acknowledges the message at sequence `k`
/// holds the fully-acknowledged floor — and with it the checkpoint — at or
/// below `k`, while the window still lets every other sink run ahead, up to
/// the configured pending-window limit and no further.
pub proof fn lemma_failed_sink_bounds_checkpoint(d: Dispatcher, j: int, k: u64)
    requires
        d.wf(),
        0 <= j < d.sinks@.len(),
        d.sinks@[j].acked <= k,
    ensures
        d.base <= k,
        d.accepted() - d.base <= d.window_limit,
        forall|i: int|
            0 <= i < d.sinks@.len() ==> (#[trigger] d.sinks@[i]).acked <= d.base
                + d.window_limit,
{
    assert(d.sink_wf(j));
    assert forall|i: int|
        0 <= i < d.sinks@.len() implies (#[trigger] d.sinks@[i]).acked <= d.base
        + d.window_limit by {
        assert(d.sink_wf(i));
    }
}

} // verus!
