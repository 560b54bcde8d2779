//! When a torrent announces to its trackers, and with which event.

use vstd::prelude::*;

use crate::tracker::Event;

verus! {

/// What a torrent knows when it considers announcing.
#[derive(Clone, Copy, Debug, PartialEq, Eq, Structural)]
pub struct AnnounceState {
    /// Whether the `started` announce was sent.
    pub started_sent: bool,
    /// Whether the `completed` announce was sent.
    pub completed_sent: bool,
    /// Seconds since the last announce.
    pub since_last_secs: u64,
    /// The interval the tracker asked for, or the configured one.
    pub interval_secs: u64,
}

/// What the torrent's situation is at this tick.
#[derive(Clone, Copy, Debug, PartialEq, Eq, Structural)]
pub enum Moment {
    /// A periodic tick, with the number of pieces still missing.
    Tick { missing_pieces: usize },
    /// The torrent is shutting down.
    Shutdown,
}

/// Whether to announce now, and with which event (`None` inside means a
/// periodic announce without an event).
#[derive(Clone, Copy, Debug, PartialEq, Eq, Structural)]
pub enum AnnounceDecision {
    Wait,
    Announce(Option<Event>),
}

/// The announce due: `started` first; `stopped` on shutdown; `completed`
/// the first time no piece is missing; otherwise a periodic announce once
/// the interval has passed.
pub open spec fn due(s: AnnounceState, m: Moment) -> AnnounceDecision {
    match m {
        Moment::Shutdown => AnnounceDecision::Announce(Some(Event::Stopped)),
        Moment::Tick { missing_pieces } => if !s.started_sent {
            AnnounceDecision::Announce(Some(Event::Started))
        } else if missing_pieces == 0 && !s.completed_sent {
            AnnounceDecision::Announce(Some(Event::Completed))
        } else if s.since_last_secs >= s.interval_secs {
            AnnounceDecision::Announce(None)
        } else {
            AnnounceDecision::Wait
        },
    }
}

impl AnnounceState {
    /// The state of a torrent that has not announced yet.
    pub fn new(interval_secs: u64) -> (r: Self)
        ensures
            !r.started_sent && !r.completed_sent,
            r.since_last_secs == 0,
            r.interval_secs == interval_secs,
    {
        AnnounceState { started_sent: false, completed_sent: false, since_last_secs: 0, interval_secs }
    }

    /// Decides whether to announce at `m`, and records the announce made.
    pub fn decide(&mut self, m: Moment) -> (r: AnnounceDecision)
        ensures
            r == due(*old(self), m),
            r is Wait ==> *final(self) == *old(self),
            r matches AnnounceDecision::Announce(e) ==> {
                &&& final(self).since_last_secs == 0
                &&& final(self).started_sent == (old(self).started_sent || e == Some(Event::Started))
                &&& final(self).completed_sent == (old(self).completed_sent || e == Some(Event::Completed))
                &&& final(self).interval_secs == old(self).interval_secs
            },
    {
        let r = match m {
            Moment::Shutdown => AnnounceDecision::Announce(Some(Event::Stopped)),
            Moment::Tick { missing_pieces } => {
                if !self.started_sent {
                    AnnounceDecision::Announce(Some(Event::Started))
                } else if missing_pieces == 0 && !self.completed_sent {
                    AnnounceDecision::Announce(Some(Event::Completed))
                } else if self.since_last_secs >= self.interval_secs {
                    AnnounceDecision::Announce(None)
                } else {
                    AnnounceDecision::Wait
                }
            },
        };
        match r {
            AnnounceDecision::Announce(e) => {
                self.since_last_secs = 0;
                match e {
                    Some(Event::Started) => self.started_sent = true,
                    Some(Event::Completed) => self.completed_sent = true,
                    _ => {},
                }
            },
            AnnounceDecision::Wait => {},
        }
        r
    }

    /// Counts `secs` more seconds since the last announce, saturating.
    pub fn elapse(&mut self, secs: u64)
        ensures
            final(self).since_last_secs == if old(self).since_last_secs + secs > u64::MAX {
                u64::MAX as int
            } else {
                old(self).since_last_secs + secs
            },
            final(self).started_sent == old(self).started_sent,
            final(self).completed_sent == old(self).completed_sent,
            final(self).interval_secs == old(self).interval_secs,
    {
        if secs > u64::MAX - self.since_last_secs {
            self.since_last_secs = u64::MAX;
        } else {
            self.since_last_secs = self.since_last_secs + secs;
        }
    }

    /// Takes the interval from a tracker's response, when it gives one.
    pub fn set_interval(&mut self, interval_secs: Option<u64>)
        ensures
            final(self).interval_secs == match interval_secs {
                Some(i) => i,
                None => old(self).interval_secs,
            },
            final(self).started_sent == old(self).started_sent,
            final(self).completed_sent == old(self).completed_sent,
            final(self).since_last_secs == old(self).since_last_secs,
    {
        if let Some(i) = interval_secs {
            self.interval_secs = i;
        }
    }
}

} // verus!
