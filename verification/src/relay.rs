use vstd::prelude::*;

use crate::checkpoint::{CheckpointTracker, ResumePosition};
use crate::config::SinksConfig;
use crate::dispatch::{DeliveryVerdict, Dispatcher, SinkState};
use crate::mapper::{self, MappingError, OpKind, RawEvent};
use crate::message::Message;

verus! {

/// What one observed feed event became.
#[derive(Clone, Copy, PartialEq, Eq, Structural, Debug)]
pub enum ObserveOutcome {
    /// Mapped and admitted into the pending window for fan-out.
    Accepted,
    /// Malformed (no namespace, or no collection): skipped, the loop goes on.
    Skipped(MappingError),
    /// An administrative event: dropped by design, not an error.
    Dropped,
}

/// The consumption engine: maps each observed event, fans accepted messages
/// out through the dispatcher, and advances the checkpoint only once every
/// sink has acknowledged the corresponding message.
pub struct Relay {
    /// The configured sinks; index `i` is the dispatcher's sink `i`.
    pub sink_configs: Vec<SinksConfig>,
    pub dispatcher: Dispatcher,
    pub tracker: CheckpointTracker,
    /// Set when persisting a checkpoint failed: consumption must halt
    /// rather than drift ahead of durable state.
    pub paused: bool,
}

impl Relay {
    pub open spec fn wf(self) -> bool {
        &&& self.dispatcher.wf()
        &&& self.tracker.wf()
        &&& self.sink_configs@.len() == self.dispatcher.sinks@.len()
        &&& (self.dispatcher.window@.len() > 0 ==> (self.tracker.staged matches Option::Some(p)
            ==> p.value < self.dispatcher.window@[0].pos.value))
        &&& (self.dispatcher.sinks@.len() == 0 ==> self.dispatcher.window@.len() == 0)
    }

    /// A feed position strictly newer than everything this relay has seen.
    pub open spec fn fresh_pos(self, pos: ResumePosition) -> bool {
        &&& (self.tracker.staged matches Option::Some(p) ==> p.value < pos.value)
        &&& (self.dispatcher.window@.len() > 0 ==> self.dispatcher.window@.last().pos.value
            < pos.value)
    }

    /// Start the engine over the configured sinks, resuming from the
    /// position durable storage held at startup.
    pub fn new(
        sink_configs: Vec<SinksConfig>,
        window_limit: usize,
        max_attempts: u64,
        commit_every: u64,
        resume_from: Option<ResumePosition>,
    ) -> (r: Self)
        requires
            window_limit >= 1,
            max_attempts >= 1,
            commit_every >= 1,
        ensures
            r.wf(),
            !r.paused,
            r.sink_configs == sink_configs,
            r.tracker.committed == resume_from,
            r.tracker.staged == resume_from,
            r.dispatcher.base == 0,
            r.dispatcher.window@.len() == 0,
            r.dispatcher.sinks@.len() == sink_configs@.len(),
            r.dispatcher.window_limit == window_limit,
            r.dispatcher.max_attempts == max_attempts,
    {
        let n = sink_configs.len();
        Relay {
            sink_configs,
            dispatcher: Dispatcher::new(n, window_limit, max_attempts),
            tracker: CheckpointTracker::new(commit_every, resume_from),
            paused: false,
        }
    }

    /// Whether the loop may read and observe another feed event now: not
    /// paused, and the pending window applies no backpressure.
    pub fn can_observe(&self) -> (r: bool)
        requires
            self.wf(),
        ensures
            r == (!self.paused && self.dispatcher.window@.len() < self.dispatcher.window_limit
                && self.dispatcher.accepted() < u64::MAX),
    {
        !self.paused && self.dispatcher.can_accept()
    }

    /// Observe the next feed event at position `pos`. Data operations are
    /// mapped and admitted for fan-out; administrative events are dropped;
    /// malformed events are skipped — the loop continues either way. With no
    /// sinks configured nothing waits for acknowledgment, so the checkpoint
    /// is staged at once; otherwise only the pending window changes.
    pub fn observe_event(&mut self, ev: RawEvent, pos: ResumePosition) -> (o: ObserveOutcome)
        requires
            old(self).wf(),
            !old(self).paused,
            old(self).dispatcher.window@.len() < old(self).dispatcher.window_limit,
            old(self).dispatcher.accepted() < u64::MAX,
            old(self).fresh_pos(pos),
        ensures
            final(self).wf(),
            final(self).paused == old(self).paused,
            final(self).sink_configs == old(self).sink_configs,
            final(self).dispatcher.sinks == old(self).dispatcher.sinks,
            final(self).dispatcher.order_log == old(self).dispatcher.order_log,
            final(self).dispatcher.window_limit == old(self).dispatcher.window_limit,
            final(self).dispatcher.max_attempts == old(self).dispatcher.max_attempts,
            final(self).tracker.committed == old(self).tracker.committed,
            final(self).tracker.commit_every == old(self).tracker.commit_every,
            ev.op == OpKind::Other ==> o == ObserveOutcome::Dropped && final(self).dispatcher
                == old(self).dispatcher && final(self).tracker == old(self).tracker,
            ev.op != OpKind::Other && ev.ns is None ==> o == ObserveOutcome::Skipped(
                MappingError::MissingNamespace,
            ) && final(self).dispatcher == old(self).dispatcher && final(self).tracker == old(self).tracker,
            ev.op != OpKind::Other && ev.ns is Some && ev.ns->Some_0.coll is None ==> o
                == ObserveOutcome::Skipped(MappingError::MissingCollection) && final(self).dispatcher == old(self).dispatcher && final(self).tracker == old(self).tracker,
            ev.op != OpKind::Other && ev.ns is Some && ev.ns->Some_0.coll is Some && old(self).dispatcher.sinks@.len() == 0 ==> o == ObserveOutcome::Accepted && final(self).dispatcher.window@.len() == 0 && final(self).tracker.staged == Option::Some(pos),
            ev.op != OpKind::Other && ev.ns is Some && ev.ns->Some_0.coll is Some && old(self).dispatcher.sinks@.len() > 0 ==> final(self).tracker == old(self).tracker && final(self).dispatcher.base == old(self).dispatcher.base,
            ev.op != OpKind::Other && ev.ns is Some && ev.ns->Some_0.coll is Some && old(self).dispatcher.sinks@.len() > 0 ==> {
                let w = final(self).dispatcher.window@;
                &&& o == ObserveOutcome::Accepted
                &&& w.len() == old(self).dispatcher.window@.len() + 1
                &&& w =~= old(self).dispatcher.window@.push(w.last())
                &&& w.last().pos == pos
                &&& w.last().msg@.event == mapper::event_of_op(ev.op)
                &&& w.last().msg@.db == ev.ns->Some_0.db@
                &&& w.last().msg@.coll == ev.ns->Some_0.coll->Some_0@
                &&& w.last().msg@.id == ev.key@
                &&& (ev.op == OpKind::Delete ==> w.last().msg@.data is None)
                &&& (ev.op != OpKind::Delete ==> w.last().msg@.data == mapper::opt_doc_model(
                    ev.full_doc,
                ))
                &&& (ev.wf() ==> w.last().msg.wf())
            },
    {
        match mapper::map(ev) {
            Result::Err(e) => ObserveOutcome::Skipped(e),
            Result::Ok(Option::None) => ObserveOutcome::Dropped,
            Result::Ok(Option::Some(m)) => {
                let accepted = self.dispatcher.accept(m, pos);
                proof {
                    assert(accepted);
                }
                if self.sink_configs.len() == 0 {
                    let ghost pre = self.dispatcher;
                    proof {
                        assert(old(self).dispatcher.window@.len() == 0);
                        assert(pre.window@.len() == 1);
                    }
                    match self.dispatcher.collect_acked() {
                        Option::Some(p) => {
                            proof {
                                let k = self.dispatcher.base - pre.base;
                                assert(k >= 1);
                                assert(p == pre.window@[k - 1].pos);
                                assert(pre.window@.len() >= k);
                                assert(p == pos);
                                assert(old(self).tracker.staged matches Option::Some(q)
                                    ==> q.value < p.value);
                            }
                            self.tracker.advance(p);
                        },
                        Option::None => {
                            proof {
                                assert(self.dispatcher.window@.len() == 1);
                                assert(false);
                            }
                        },
                    }
                }
                ObserveOutcome::Accepted
            },
        }
    }

    /// If sink `i` is idle, healthy and behind, start a delivery attempt:
    /// the returned sequence is the message the caller must deliver to that
    /// sink now.
    pub fn poll_sink(&mut self, i: usize) -> (r: Option<u64>)
        requires
            old(self).wf(),
            i < old(self).sink_configs@.len(),
        ensures
            final(self).wf(),
            final(self).tracker == old(self).tracker,
            final(self).paused == old(self).paused,
            final(self).sink_configs == old(self).sink_configs,
            final(self).dispatcher.window == old(self).dispatcher.window,
            final(self).dispatcher.base == old(self).dispatcher.base,
            final(self).dispatcher.window_limit == old(self).dispatcher.window_limit,
            final(self).dispatcher.max_attempts == old(self).dispatcher.max_attempts,
            final(self).dispatcher.sinks@.len() == old(self).dispatcher.sinks@.len(),
            forall|j: int|
                0 <= j < old(self).dispatcher.sinks@.len() && j != i ==> final(self).dispatcher.sinks@[j] == old(self).dispatcher.sinks@[j] && final(self).dispatcher.order_log@[j] == old(self).dispatcher.order_log@[j],
            r is Some <==> (old(self).dispatcher.sinks@[i as int].inflight_attempts == 0 && !old(self).dispatcher.sinks@[i as int].degraded && old(self).dispatcher.sinks@[i as int].acked
                < old(self).dispatcher.accepted()),
            r matches Option::Some(seq) ==> seq == old(self).dispatcher.sinks@[i as int].acked
                && old(self).dispatcher.base <= seq < old(self).dispatcher.accepted() && ({
                let s = old(self).dispatcher.sinks@[i as int];
                final(self).dispatcher.sinks@[i as int] == (SinkState {
                    inflight_attempts: 1u64,
                    first_attempted: if s.first_attempted == s.acked {
                        (s.acked + 1) as u64
                    } else {
                        s.first_attempted
                    },
                    ..s
                })
            }),
            r is None ==> final(self).dispatcher.sinks == old(self).dispatcher.sinks && final(self).dispatcher.order_log == old(self).dispatcher.order_log,
    {
        proof {
            assert(old(self).dispatcher.sink_wf(i as int));
        }
        let r = self.dispatcher.poll_sink(i);
        proof {
            assert forall|j: int|
                0 <= j < old(self).dispatcher.sinks@.len() && j != i implies self.dispatcher.sinks@[j] == old(self).dispatcher.sinks@[j]
                && self.dispatcher.order_log@[j] == old(self).dispatcher.order_log@[j] by {
                assert(self.dispatcher.sinks@ == old(self).dispatcher.sinks@.update(
                    i as int,
                    self.dispatcher.sinks@[i as int],
                ));
            }
        }
        r
    }

    /// Read the pending message with sequence `seq`, to hand to a sink.
    pub fn message_for(&self, seq: u64) -> (m: &Message)
        requires
            self.wf(),
            self.dispatcher.base <= seq < self.dispatcher.accepted(),
        ensures
            m == &self.dispatcher.window@[seq - self.dispatcher.base].msg,
    {
        self.dispatcher.message_at(seq)
    }

    /// Record the outcome of sink `i`'s in-flight delivery attempt. On
    /// success, exactly the leading messages now acknowledged by every sink
    /// leave the window, and the checkpoint is staged at the position of the
    /// newest one removed — and at nothing newer: while anything stays
    /// pending, some sink still sits at the new window head. Failures
    /// schedule a retry until attempts are exhausted, then degrade the sink,
    /// isolating it from the others.
    pub fn delivery_result(&mut self, i: usize, ok: bool) -> (v: DeliveryVerdict)
        requires
            old(self).wf(),
            i < old(self).sink_configs@.len(),
            old(self).dispatcher.sinks@[i as int].inflight_attempts >= 1,
        ensures
            final(self).wf(),
            final(self).paused == old(self).paused,
            final(self).sink_configs == old(self).sink_configs,
            final(self).tracker.committed == old(self).tracker.committed,
            final(self).tracker.commit_every == old(self).tracker.commit_every,
            final(self).dispatcher.window_limit == old(self).dispatcher.window_limit,
            final(self).dispatcher.max_attempts == old(self).dispatcher.max_attempts,
            final(self).dispatcher.order_log == old(self).dispatcher.order_log,
            final(self).dispatcher.sinks@.len() == old(self).dispatcher.sinks@.len(),
            forall|j: int|
                0 <= j < old(self).dispatcher.sinks@.len() && j != i ==> final(self).dispatcher.sinks@[j] == old(self).dispatcher.sinks@[j],
            ({
                let s = old(self).dispatcher.sinks@[i as int];
                if ok {
                    v == DeliveryVerdict::Acked && final(self).dispatcher.sinks@[i as int] == (
                    SinkState { acked: (s.acked + 1) as u64, inflight_attempts: 0u64, ..s })
                } else if s.inflight_attempts < old(self).dispatcher.max_attempts {
                    v == DeliveryVerdict::RetryScheduled && final(self).dispatcher.sinks@[i as int] == (SinkState {
                        inflight_attempts: (s.inflight_attempts + 1) as u64,
                        ..s
                    })
                } else {
                    v == DeliveryVerdict::Degraded && final(self).dispatcher.sinks@[i as int]
                        == (SinkState { inflight_attempts: 0u64, degraded: true, ..s })
                }
            }),
            !ok ==> final(self).tracker == old(self).tracker && final(self).dispatcher.window
                == old(self).dispatcher.window && final(self).dispatcher.base == old(self).dispatcher.base,
            ok ==> final(self).dispatcher.base >= old(self).dispatcher.base && final(self).dispatcher.accepted() == old(self).dispatcher.accepted() && final(self).dispatcher.window@ =~= old(self).dispatcher.window@.skip(
                final(self).dispatcher.base - old(self).dispatcher.base,
            ),
            ok && final(self).dispatcher.base == old(self).dispatcher.base ==> final(self).tracker == old(self).tracker,
            ok && final(self).dispatcher.base > old(self).dispatcher.base ==> final(self).tracker.staged == Option::Some(
                old(self).dispatcher.window@[final(self).dispatcher.base - old(self).dispatcher.base - 1].pos,
            ),
            ok ==> (final(self).dispatcher.window@.len() > 0 ==> exists|j: int|
                0 <= j < final(self).dispatcher.sinks@.len() && (
                #[trigger] final(self).dispatcher.sinks@[j]).acked == final(self).dispatcher.base),
    {
        proof {
            assert(old(self).dispatcher.sink_wf(i as int));
        }
        let v = self.dispatcher.on_result(i, ok);
        if ok {
            let ghost pre = self.dispatcher;
            match self.dispatcher.collect_acked() {
                Option::Some(p) => {
                    proof {
                        let k = self.dispatcher.base - pre.base;
                        assert(k >= 1);
                        assert(p == pre.window@[k - 1].pos);
                        assert(pre.window@.len() >= k);
                        if k - 1 > 0 {
                            assert(pre.window@[0].pos.value < pre.window@[k - 1].pos.value);
                        }
                        assert(old(self).tracker.staged matches Option::Some(q) ==> q.value
                            < p.value);
                        if self.dispatcher.window@.len() > 0 {
                            assert(self.dispatcher.window@[0] == pre.window@[k]);
                            assert(pre.window@[k - 1].pos.value < pre.window@[k].pos.value);
                        }
                    }
                    self.tracker.advance(p);
                },
                Option::None => {},
            }
        }
        v
    }

    /// Whether the checkpoint cadence says a commit is due now.
    pub fn commit_due(&self) -> (r: bool)
        requires
            self.wf(),
        ensures
            r == (self.tracker.pending_events >= self.tracker.commit_every && self.tracker.staged
                != self.tracker.committed),
    {
        self.tracker.commit_due()
    }

    /// Hand the newest fully-acknowledged position to durable storage; the
    /// caller must persist it, and report `persist_failed` if that fails.
    /// On a clean shutdown this is called last, so the durable position is
    /// the last fully-acknowledged message — never one still in flight.
    pub fn commit_checkpoint(&mut self) -> (r: Option<ResumePosition>)
        requires
            old(self).wf(),
        ensures
            final(self).wf(),
            final(self).dispatcher == old(self).dispatcher,
            final(self).sink_configs == old(self).sink_configs,
            final(self).paused == old(self).paused,
            final(self).tracker.committed == old(self).tracker.staged,
            final(self).tracker.staged == old(self).tracker.staged,
            old(self).tracker.staged == old(self).tracker.committed ==> r is None,
            old(self).tracker.staged != old(self).tracker.committed ==> r == old(self).tracker.staged,
    {
        self.tracker.commit()
    }

    /// Persisting the last commit failed: halt consumption rather than
    /// silently drift ahead of durable state.
    pub fn persist_failed(&mut self)
        requires
            old(self).wf(),
        ensures
            final(self).wf(),
            final(self).paused,
            final(self).dispatcher == old(self).dispatcher,
            final(self).tracker == old(self).tracker,
            final(self).sink_configs == old(self).sink_configs,
    {
        self.paused = true;
    }

    /// A health probe for sink `i` resolved; a healthy answer restores a
    /// degraded sink.
    pub fn probe_result(&mut self, i: usize, healthy: bool)
        requires
            old(self).wf(),
            i < old(self).sink_configs@.len(),
        ensures
            final(self).wf(),
            final(self).tracker == old(self).tracker,
            final(self).paused == old(self).paused,
            final(self).sink_configs == old(self).sink_configs,
            final(self).dispatcher.window == old(self).dispatcher.window,
            final(self).dispatcher.base == old(self).dispatcher.base,
            final(self).dispatcher.window_limit == old(self).dispatcher.window_limit,
            final(self).dispatcher.max_attempts == old(self).dispatcher.max_attempts,
            final(self).dispatcher.order_log == old(self).dispatcher.order_log,
            final(self).dispatcher.sinks@.len() == old(self).dispatcher.sinks@.len(),
            forall|j: int|
                0 <= j < old(self).dispatcher.sinks@.len() && j != i ==> final(self).dispatcher.sinks@[j] == old(self).dispatcher.sinks@[j],
            final(self).dispatcher.sinks@[i as int] == (SinkState {
                degraded: old(self).dispatcher.sinks@[i as int].degraded && !healthy,
                ..old(self).dispatcher.sinks@[i as int]
            }),
    {
        self.dispatcher.probe_result(i, healthy)
    }

    /// The position a restarted process resumes the feed from: the last
    /// committed checkpoint.
    pub fn resume_position(&self) -> (r: Option<ResumePosition>)
        requires
            self.wf(),
        ensures
            r == self.tracker.committed,
    {
        self.tracker.load()
    }
}

/// Restart safety law: every message still pending — not yet acknowledged by
/// every sink — sits at a feed position strictly after the committed
/// checkpoint. Resuming from the committed position therefore re-reads
/// exactly the unacknowledged suffix: no gap, and only messages a sink may
/// already have seen can be delivered again (at-least-once, never a loss).
pub proof fn lemma_restart_no_gap(r: Relay, k: int)
    requires
        r.wf(),
        0 <= k < r.dispatcher.window@.len(),
    ensures
        r.tracker.committed matches Option::Some(c) ==> c.value
            < r.dispatcher.window@[k].pos.value,
{
    if k > 0 {
        assert(r.dispatcher.window@[0].pos.value < r.dispatcher.window@[k].pos.value);
    }
}

} // verus!
