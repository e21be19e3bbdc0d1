use vstd::prelude::*;

verus! {

/// An opaque, totally ordered token from the source feed: everything up to
/// and including this point has been observed. Held as the plain value the
/// tracker compares; the source's own token travels with it in the caller.
#[derive(Clone, Copy, PartialEq, Eq, Structural, Debug)]
pub struct ResumePosition {
    pub value: u64,
}

/// Order on optional positions: absence precedes every position.
pub open spec fn pos_le(a: Option<ResumePosition>, b: Option<ResumePosition>) -> bool {
    match a {
        Option::None => true,
        Option::Some(pa) => match b {
            Option::None => false,
            Option::Some(pb) => pa.value <= pb.value,
        },
    }
}

/// Records the most recent feed position that is safe to resume from.
///
/// `staged` is the newest position every sink has acknowledged; `committed`
/// is the newest position handed to durable storage. The committed position
/// never runs ahead of the staged one, so a restart never skips an
/// unacknowledged event.
pub struct CheckpointTracker {
    /// Newest position handed out for durable persistence.
    pub committed: Option<ResumePosition>,
    /// Newest fully-acknowledged position, not yet necessarily durable.
    pub staged: Option<ResumePosition>,
    /// Events acknowledged since the last commit.
    pub pending_events: u64,
    /// Cadence bound: a commit is due after this many acknowledged events.
    pub commit_every: u64,
}

impl CheckpointTracker {
    pub open spec fn wf(self) -> bool {
        &&& pos_le(self.committed, self.staged)
        &&& self.commit_every >= 1
        &&& self.pending_events <= self.commit_every
    }

    /// Start a tracker, resuming from the position durable storage held at
    /// startup (absent on a first run).
    pub fn new(commit_every: u64, resume_from: Option<ResumePosition>) -> (t: Self)
        requires
            commit_every >= 1,
        ensures
            t.wf(),
            t.committed == resume_from,
            t.staged == resume_from,
            t.pending_events == 0,
            t.commit_every == commit_every,
    {
        CheckpointTracker {
            committed: resume_from,
            staged: resume_from,
            pending_events: 0,
            commit_every,
        }
    }

    /// The position a restarted process must resume the feed from.
    pub fn load(&self) -> (r: Option<ResumePosition>)
        ensures
            r == self.committed,
    {
        self.committed
    }

    /// Record that every sink has acknowledged the message at `pos`. Must
    /// only be called once the dispatcher confirms full acknowledgment, and
    /// positions arrive in feed order, so `pos` is newer than the staged one.
    pub fn advance(&mut self, pos: ResumePosition)
        requires
            old(self).wf(),
            old(self).staged matches Option::Some(p) ==> p.value < pos.value,
        ensures
            final(self).wf(),
            final(self).staged == Option::Some(pos),
            final(self).committed == old(self).committed,
            final(self).commit_every == old(self).commit_every,
            final(self).pending_events == (if old(self).pending_events < old(self).commit_every {
                old(self).pending_events + 1
            } else {
                old(self).pending_events as int
            }),
    {
        self.staged = Option::Some(pos);
        if self.pending_events < self.commit_every {
            self.pending_events = self.pending_events + 1;
        }
    }

    /// Whether the cadence bound says a commit is due now.
    pub fn commit_due(&self) -> (r: bool)
        ensures
            r == (self.pending_events >= self.commit_every && self.staged != self.committed),
    {
        let differ = match (&self.staged, &self.committed) {
            (Option::Some(s), Option::Some(c)) => s.value != c.value,
            (Option::None, Option::None) => false,
            _ => true,
        };
        self.pending_events >= self.commit_every && differ
    }

    /// Hand the staged position to durable storage. Returns the position the
    /// caller must persist now, or nothing when durable state is already
    /// current. The caller must pause processing if persisting it fails.
    pub fn commit(&mut self) -> (r: Option<ResumePosition>)
        requires
            old(self).wf(),
        ensures
            final(self).wf(),
            final(self).committed == old(self).staged,
            final(self).staged == old(self).staged,
            final(self).commit_every == old(self).commit_every,
            final(self).pending_events == 0,
            old(self).staged == old(self).committed ==> r is None,
            old(self).staged != old(self).committed ==> r == old(self).staged,
    {
        let due = match (&self.staged, &self.committed) {
            (Option::Some(s), Option::Some(c)) => s.value != c.value,
            (Option::None, Option::None) => false,
            _ => true,
        };
        self.pending_events = 0;
        if due {
            self.committed = self.staged;
            self.staged
        } else {
            Option::None
        }
    }
}

/// The committed (durable) position never runs ahead of the newest position
/// every sink has acknowledged: restarting from it skips nothing.
pub proof fn lemma_committed_not_ahead(t: CheckpointTracker)
    requires
        t.wf(),
    ensures
        pos_le(t.committed, t.staged),
{
}

} // verus!
