//! One tracked interval of work.

use vstd::prelude::*;

verus! {

/// One interval of work under a tag. While `end` is `None` the session is
/// running.
#[derive(Debug)]
pub struct Session {
    /// The label under which the time is counted.
    pub tag: String,
    /// When the work began, in seconds since the epoch.
    pub start: i64,
    /// When it ended, once it has.
    pub end: Option<i64>,
}

/// A session as a mathematical value.
pub struct SessionView {
    pub tag: Seq<char>,
    pub start: int,
    pub end: Option<int>,
}

impl SessionView {
    /// Whether the session is still running.
    pub open spec fn is_active(self) -> bool {
        self.end is None
    }

    /// The length of a completed session in seconds: negative where the end
    /// was recorded before the start.
    pub open spec fn duration(self) -> Option<int> {
        match self.end {
            Some(end) => Some(end - self.start),
            None => None,
        }
    }

    /// This session, ended at `now`.
    pub open spec fn ended_at(self, now: int) -> SessionView {
        SessionView { tag: self.tag, start: self.start, end: Some(now) }
    }
}

impl View for Session {
    type V = SessionView;

    open spec fn view(&self) -> SessionView {
        SessionView {
            tag: self.tag@,
            start: self.start as int,
            end: match self.end {
                Some(end) => Some(end as int),
                None => None,
            },
        }
    }
}

/// The sessions of a log as mathematical values, in the log's order.
pub open spec fn views(log: Seq<Session>) -> Seq<SessionView> {
    Seq::new(log.len(), |i: int| log[i]@)
}

impl Clone for Session {
    fn clone(&self) -> (copy: Session)
        ensures
            copy == *self,
    {
        Session { tag: self.tag.clone(), start: self.start, end: self.end }
    }
}

impl Session {
    /// A session that starts running at `now`.
    pub fn begin(tag: String, now: i64) -> (session: Session)
        ensures
            session@ == (SessionView { tag: tag@, start: now as int, end: None }),
    {
        Session { tag, start: now, end: None }
    }

    /// Whether the session is still running.
    pub fn is_active(&self) -> (active: bool)
        ensures
            active == self@.is_active(),
    {
        self.end.is_none()
    }

    /// The length of a completed session in seconds, `None` while it runs.
    /// The result is wide enough for any two timestamps.
    pub fn duration(&self) -> (seconds: Option<i128>)
        ensures
            seconds is Some <==> self@.duration() is Some,
            seconds matches Some(d) ==> self@.duration() == Some(d as int),
    {
        match self.end {
            Some(end) => Some(end as i128 - self.start as i128),
            None => None,
        }
    }

    /// The seconds from the session's start to `now`.
    pub fn elapsed(&self, now: i64) -> (seconds: i128)
        ensures
            seconds == now - self.start,
    {
        now as i128 - self.start as i128
    }
}

} // verus!
