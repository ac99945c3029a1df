//! Tracker announces: when, with what, and what the answer changes.

use crate::addr::PeerAddr;
use crate::metainfo::InfoHash;
use crate::session::peer_mgr::PeerId;
use crate::time::{Nanos, SECOND};
use vstd::prelude::*;

verus! {

/// What an announce tells the tracker.
#[derive(Clone, Copy, Debug, PartialEq, Eq, Structural)]
pub enum AnnounceEvent {
    /// Nothing in particular: a regular announce.
    Regular,
    /// The download started.
    Started,
    /// The download is complete.
    Completed,
    /// The torrent was stopped.
    Stopped,
}

/// An announce.
#[derive(Clone, Copy)]
pub struct AnnounceRequest {
    pub info_hash: InfoHash,
    pub peer_id: PeerId,
    pub port: u16,
    pub downloaded: u64,
    pub uploaded: u64,
    pub left: u64,
    pub event: AnnounceEvent,
    pub ip: Option<u32>,
    pub ipv6: Option<u128>,
}

/// The answer to an announce.
pub struct AnnounceResponse {
    /// Seconds to the next announce.
    pub interval: u32,
    /// Seconds to wait at least.
    pub min_interval: Option<u32>,
    /// Seeds.
    pub complete: u32,
    /// Leechers.
    pub incomplete: u32,
    /// Peers of the torrent.
    pub peers: Vec<PeerAddr>,
}

/// When the tracker was and will be told.
#[derive(Clone, Copy, Debug, PartialEq, Eq, Structural)]
pub struct AnnounceState {
    /// Next announce time; none before the first announce.
    pub next_announce: Option<Nanos>,
    /// Whether the first announce succeeded.
    pub has_announced: bool,
    /// Whether the completion was announced.
    pub announced_completed: bool,
}

/// The announce that is due, if any: the first one says that the download
/// started. Without a tracker there is none.
pub open spec fn due(s: AnnounceState, has_tracker: bool, now: Nanos) -> Option<AnnounceEvent> {
    if !has_tracker || (s.next_announce matches Some(t) && now < t) {
        None
    } else if s.has_announced {
        Some(AnnounceEvent::Regular)
    } else {
        Some(AnnounceEvent::Started)
    }
}

/// The seconds to the next announce: the minimum, where the tracker gives one.
pub open spec fn interval_secs(r: AnnounceResponse) -> u32 {
    match r.min_interval {
        Some(m) => m,
        None => r.interval,
    }
}

/// The state once the announce that was due succeeded.
pub open spec fn after_mark(s: AnnounceState) -> AnnounceState {
    AnnounceState { has_announced: true, ..s }
}

/// The state after the tracker answered at `now`.
pub open spec fn after_success(s: AnnounceState, r: AnnounceResponse, now: Nanos) -> AnnounceState {
    AnnounceState { next_announce: Some((now + interval_secs(r) * SECOND) as u64), ..s }
}

/// The state after an announce failed at `now`.
pub open spec fn after_failure(s: AnnounceState, fallback: Nanos, now: Nanos) -> AnnounceState {
    AnnounceState { next_announce: Some((now + fallback) as u64), ..s }
}

impl AnnounceState {
    /// Nothing was announced.
    pub fn new() -> (s: AnnounceState)
        ensures
            s == (AnnounceState {
                next_announce: None,
                has_announced: false,
                announced_completed: false,
            }),
    {
        AnnounceState { next_announce: None, has_announced: false, announced_completed: false }
    }

    /// The announce that is due, if any.
    pub fn announce_if_needed(&self, has_tracker: bool, now: Nanos) -> (r: Option<AnnounceEvent>)
        ensures
            r == due(*self, has_tracker, now),
    {
        if !has_tracker {
            return None;
        }
        if let Some(t) = self.next_announce {
            if now < t {
                return None;
            }
        }
        if self.has_announced {
            Some(AnnounceEvent::Regular)
        } else {
            Some(AnnounceEvent::Started)
        }
    }

    /// Remember that the announce that was due succeeded.
    pub fn mark_announced(&mut self)
        ensures
            *final(self) == (AnnounceState { has_announced: true, ..*old(self) }),
            *final(self) == after_mark(*old(self)),
    {
        self.has_announced = true;
    }

    /// Schedule the next announce by the answer of the tracker. Returns the
    /// time until then.
    pub fn succeeded(&mut self, resp: &AnnounceResponse, now: Nanos) -> (wait: Nanos)
        requires
            now + interval_secs(*resp) * SECOND <= u64::MAX,
        ensures
            wait == interval_secs(*resp) * SECOND,
            resp.min_interval matches Some(m) ==> wait == m * 1_000_000_000,
            resp.min_interval is None ==> wait == resp.interval * 1_000_000_000,
            final(self).next_announce == Some((now + wait) as u64),
            *final(self) == after_success(*old(self), *resp, now),
            *final(self) == (AnnounceState {
                next_announce: Some((now + interval_secs(*resp) * SECOND) as u64),
                ..*old(self)
            }),
    {
        let secs: u32 = match resp.min_interval {
            Some(m) => m,
            None => resp.interval,
        };
        let wait: Nanos = secs as u64 * SECOND;
        self.next_announce = Some(now + wait);
        wait
    }

    /// Schedule the next announce after a failure.
    pub fn failed(&mut self, fallback: Nanos, now: Nanos)
        requires
            now + fallback <= u64::MAX,
        ensures
            *final(self) == (AnnounceState {
                next_announce: Some((now + fallback) as u64),
                ..*old(self)
            }),
            *final(self) == after_failure(*old(self), fallback, now),
    {
        self.next_announce = Some(now + fallback);
    }
}

/// The bytes that are left of a torrent when so many are there.
pub open spec fn bytes_left(total_size: u64, complete: u64) -> u64 {
    if complete < total_size {
        (total_size - complete) as u64
    } else {
        0
    }
}

/// The bytes that are left of a torrent when so many are there.
pub fn left(total_size: u64, complete: u64) -> (n: u64)
    ensures
        n == bytes_left(total_size, complete),
        complete <= total_size ==> n + complete == total_size,
        complete >= total_size ==> n == 0,
{
    total_size.saturating_sub(complete)
}

/// What is there and what is left make up the torrent; nothing is left once
/// everything is there, and what is left only shrinks.
pub proof fn law_left(total_size: u64, complete: u64, more: u64)
    ensures
        complete <= total_size ==> bytes_left(total_size, complete) + complete == total_size,
        complete >= total_size ==> bytes_left(total_size, complete) == 0,
        bytes_left(total_size, 0) == total_size,
        complete <= more ==> bytes_left(total_size, more) <= bytes_left(total_size, complete),
{
}

/// Before the first announce one is due at once, and it says that the download
/// started, until an announce succeeded; afterwards announces are regular. One
/// that the tracker answered puts the next one off by the minimum that the
/// tracker asks for, or else by its interval, to the second.
pub proof fn law_first_announce(s: AnnounceState, r: AnnounceResponse, now: Nanos)
    ensures
        s.next_announce is None ==> due(s, true, now) is Some,
        due(s, true, now) matches Some(e) ==> (e == AnnounceEvent::Started <==> !s.has_announced)
            && (e == AnnounceEvent::Regular <==> s.has_announced),
        r.min_interval matches Some(m) ==> interval_secs(r) == m,
        r.min_interval is None ==> interval_secs(r) == r.interval,
{
}

/// After an announce nothing is due until the time it set, and something is
/// from then on.
pub proof fn law_next_announce(s: AnnounceState, at: Nanos, now: Nanos)
    requires
        s.next_announce == Some(at),
    ensures
        due(s, true, now) is Some <==> now >= at,
        due(s, false, now) is None,
        s.has_announced ==> due(s, true, now) != Some(AnnounceEvent::Started),
{
}

/// An announce that succeeded is followed by a regular one, not before the time
/// that the tracker asked for and from then on. One that failed is repeated after
/// the fallback, and still says that the download started if none has succeeded.
pub proof fn law_announce_cycle(
    s: AnnounceState,
    r: AnnounceResponse,
    fallback: Nanos,
    now: Nanos,
    later: Nanos,
)
    requires
        now + r.interval * 1_000_000_000 <= u64::MAX,
        r.min_interval matches Some(m) ==> now + m * 1_000_000_000 <= u64::MAX,
        now + fallback <= u64::MAX,
    ensures
        ({
            let t = after_success(after_mark(s), r, now);
            let secs = if let Some(m) = r.min_interval {
                m
            } else {
                r.interval
            };
            &&& later < now + secs * 1_000_000_000 ==> due(t, true, later) is None
            &&& later >= now + secs * 1_000_000_000 ==> due(t, true, later) == Some(
                AnnounceEvent::Regular,
            )
            &&& t.announced_completed == s.announced_completed
        }),
        ({
            let u = after_failure(s, fallback, now);
            &&& later < now + fallback ==> due(u, true, later) is None
            &&& later >= now + fallback ==> due(u, true, later) == Some(
                if s.has_announced {
                    AnnounceEvent::Regular
                } else {
                    AnnounceEvent::Started
                },
            )
            &&& u.announced_completed == s.announced_completed
        }),
{
}

} // verus!
