//! The session log and the transitions of its single running session.
//!
//! A log holds its sessions in the order in which they were added. At most one
//! of them is running. `start` opens a session where none runs, `stop` closes
//! the running one, `reset` discards it, and `log_manual` adds a session that
//! is already complete.

use crate::session::{views, Session, SessionView};
use vstd::prelude::*;

verus! {

/// Why an operation on the log was refused.
#[derive(Clone, Copy, Debug, PartialEq, Eq, Structural)]
pub enum StoreError {
    /// `start`, while a session is running.
    AlreadyRunning,
    /// `stop` or `reset`, while none is.
    NoActiveSession,
    /// `log_manual`, with an amount that is not above zero.
    InvalidHours,
    /// Stored sessions of which more than one is running.
    CorruptData,
}

/// An amount of hours logged by hand, in the two forms the log reads.
#[derive(Clone, Copy, Debug)]
pub struct Hours {
    /// Whether the amount is above zero.
    pub positive: bool,
    /// The amount in seconds, rounded to a whole number.
    pub seconds: i64,
}

impl Hours {
    /// Whether the log takes this amount: it is above zero, and does not
    /// round to a negative number of seconds.
    pub open spec fn accepted(self) -> bool {
        self.positive && self.seconds >= 0
    }
}

/// Whether some session of `log` is running.
pub open spec fn has_active(log: Seq<SessionView>) -> bool {
    exists|i: int| 0 <= i < log.len() && (#[trigger] log[i]).is_active()
}

/// Whether no two sessions of `log` are running.
pub open spec fn at_most_one_active(log: Seq<SessionView>) -> bool {
    forall|i: int, j: int|
        0 <= i < j < log.len() ==> !((#[trigger] log[i]).is_active() && (#[trigger] log[j]).is_active())
}

/// The number of running sessions of `log`.
pub open spec fn active_count(log: Seq<SessionView>) -> nat
    decreases log.len(),
{
    if log.len() == 0 {
        0
    } else {
        active_count(log.drop_last()) + if log.last().is_active() {
            1nat
        } else {
            0nat
        }
    }
}

/// Whether `i` is the place of the first running session of `log`.
pub open spec fn is_first_active(log: Seq<SessionView>, i: int) -> bool {
    &&& 0 <= i < log.len()
    &&& log[i].is_active()
    &&& forall|j: int| 0 <= j < i ==> !(#[trigger] log[j]).is_active()
}

/// The place of the running session of `log`; of the first, should there be
/// several. Meaningful where [`has_active`] holds.
pub open spec fn active_index(log: Seq<SessionView>) -> int {
    choose|i: int| is_first_active(log, i)
}

/// The log after `start`: one more session, running since `now`, unless one
/// was running already.
pub open spec fn started(log: Seq<SessionView>, tag: Seq<char>, now: int) -> Seq<SessionView> {
    if has_active(log) {
        log
    } else {
        log.push(SessionView { tag, start: now, end: None })
    }
}

/// The log after `stop`: its running session ended at `now`, where it has one.
pub open spec fn stopped(log: Seq<SessionView>, now: int) -> Seq<SessionView> {
    if has_active(log) {
        log.update(active_index(log), log[active_index(log)].ended_at(now))
    } else {
        log
    }
}

/// The log after `reset`: without its running session, where it has one.
pub open spec fn discarded(log: Seq<SessionView>) -> Seq<SessionView> {
    if has_active(log) {
        log.remove(active_index(log))
    } else {
        log
    }
}

/// The log after `log_manual`: one more session, which ends at `now` and is
/// as long as `hours`, unless the amount is refused.
pub open spec fn logged(log: Seq<SessionView>, tag: Seq<char>, hours: Hours, now: int) -> Seq<
    SessionView,
> {
    if hours.accepted() {
        log.push(SessionView { tag, start: now - hours.seconds, end: Some(now) })
    } else {
        log
    }
}

/// The first running session is where `active_index` points.
pub proof fn lemma_active_index_is(log: Seq<SessionView>, i: int)
    requires
        is_first_active(log, i),
    ensures
        has_active(log),
        active_index(log) == i,
{
    let k = active_index(log);
    assert(is_first_active(log, k));
    if k < i {
        assert(!log[k].is_active());
    }
    if i < k {
        assert(!log[i].is_active());
    }
}

/// A log with a running session has a first one.
pub proof fn lemma_active_index_found(log: Seq<SessionView>)
    requires
        has_active(log),
    ensures
        is_first_active(log, active_index(log)),
{
    let k = choose|i: int| 0 <= i < log.len() && (#[trigger] log[i]).is_active();
    lemma_first_active_before(log, k);
}

proof fn lemma_first_active_before(log: Seq<SessionView>, k: int)
    requires
        0 <= k < log.len(),
        log[k].is_active(),
    ensures
        is_first_active(log, active_index(log)),
    decreases k,
{
    if forall|j: int| 0 <= j < k ==> !(#[trigger] log[j]).is_active() {
        assert(is_first_active(log, k));
    } else {
        let j = choose|j: int| 0 <= j < k && (#[trigger] log[j]).is_active();
        lemma_first_active_before(log, j);
    }
}

proof fn lemma_views_push(log: Seq<Session>, session: Session)
    ensures
        views(log.push(session)) == views(log).push(session@),
{
    assert(views(log.push(session)) =~= views(log).push(session@));
}

proof fn lemma_views_remove(log: Seq<Session>, i: int)
    requires
        0 <= i < log.len(),
    ensures
        views(log.remove(i)) == views(log).remove(i),
{
    assert(views(log.remove(i)) =~= views(log).remove(i));
}

proof fn lemma_views_insert(log: Seq<Session>, i: int, session: Session)
    requires
        0 <= i <= log.len(),
    ensures
        views(log.insert(i, session)) == views(log).insert(i, session@),
{
    assert(views(log.insert(i, session)) =~= views(log).insert(i, session@));
}

/// The sessions of a work log, of which at most one is running.
#[derive(Debug)]
pub struct SessionStore {
    sessions: Vec<Session>,
}

impl View for SessionStore {
    type V = Seq<SessionView>;

    closed spec fn view(&self) -> Seq<SessionView> {
        views(self.sessions@)
    }
}

/// What `status` tells of the running session.
#[derive(Debug)]
pub struct Status {
    /// The running session.
    pub session: Session,
    /// The seconds it has been running.
    pub elapsed: i128,
}

impl SessionStore {
    #[verifier::type_invariant]
    spec fn single_active(self) -> bool {
        at_most_one_active(views(self.sessions@))
    }

    /// An empty log.
    pub fn new() -> (store: SessionStore)
        ensures
            store@ == Seq::<SessionView>::empty(),
    {
        let store = SessionStore { sessions: Vec::new() };
        assert(store@ =~= Seq::<SessionView>::empty());
        store
    }

    /// A log of the given sessions, in their order. Sessions of which more
    /// than one is running are no log.
    pub fn from_sessions(sessions: Vec<Session>) -> (loaded: Result<SessionStore, StoreError>)
        ensures
            loaded is Ok <==> at_most_one_active(views(sessions@)),
            loaded matches Ok(store) ==> store@ == views(sessions@),
            loaded matches Err(e) ==> e == StoreError::CorruptData,
    {
        let ghost log = views(sessions@);
        let mut seen: bool = false;
        let mut i: usize = 0;
        while i < sessions.len()
            invariant
                i <= sessions.len(),
                log == views(sessions@),
                forall|a: int, b: int|
                    0 <= a < b < i ==> !((#[trigger] log[a]).is_active() && (#[trigger] log[b]).is_active()),
                seen <==> exists|a: int| 0 <= a < i && (#[trigger] log[a]).is_active(),
            decreases sessions.len() - i,
        {
            if sessions[i].is_active() {
                if seen {
                    proof {
                        let a = choose|a: int| 0 <= a < i && (#[trigger] log[a]).is_active();
                        assert(log[a].is_active() && log[i as int].is_active());
                    }
                    return Err(StoreError::CorruptData);
                }
                assert(log[i as int].is_active());
                seen = true;
            }
            i += 1;
        }
        Ok(SessionStore { sessions })
    }

    /// The log's sessions, in the order in which they were added.
    pub fn sessions(&self) -> (sessions: &Vec<Session>)
        ensures
            views(sessions@) == self@,
            at_most_one_active(self@),
    {
        proof {
            use_type_invariant(self);
        }
        &self.sessions
    }

    /// Gives the sessions up, in the order in which they were added.
    pub fn into_sessions(self) -> (sessions: Vec<Session>)
        ensures
            views(sessions@) == self@,
            at_most_one_active(self@),
    {
        proof {
            use_type_invariant(&self);
        }
        self.sessions
    }

    fn find_active(&self) -> (found: Option<usize>)
        ensures
            found is Some <==> has_active(self@),
            found matches Some(i) ==> is_first_active(self@, i as int) && i as int == active_index(
                self@,
            ),
    {
        let ghost log = self@;
        let mut i: usize = 0;
        while i < self.sessions.len()
            invariant
                i <= self.sessions.len(),
                log == views(self.sessions@),
                forall|j: int| 0 <= j < i ==> !(#[trigger] log[j]).is_active(),
            decreases self.sessions.len() - i,
        {
            if self.sessions[i].is_active() {
                proof {
                    lemma_active_index_is(log, i as int);
                }
                return Some(i);
            }
            i += 1;
        }
        None
    }

    /// Moves the sessions out, leaving an empty log behind, so that they can
    /// be changed and put back as a whole.
    fn take_sessions(&mut self) -> (sessions: Vec<Session>)
        ensures
            views(sessions@) == old(self)@,
            at_most_one_active(old(self)@),
    {
        proof {
            use_type_invariant(&*self);
        }
        let mut sessions: Vec<Session> = Vec::new();
        assert(views(sessions@) =~= Seq::<SessionView>::empty());
        std::mem::swap(&mut self.sessions, &mut sessions);
        sessions
    }

    /// Opens a session under `tag` that runs from `now`, and returns it.
    /// Refused with `AlreadyRunning`, and the log left as it is, while a
    /// session is running.
    pub fn start(&mut self, tag: String, now: i64) -> (outcome: Result<Session, StoreError>)
        ensures
            final(self)@ == started(old(self)@, tag@, now as int),
            at_most_one_active(final(self)@),
            outcome is Ok <==> !has_active(old(self)@),
            outcome matches Ok(session) ==> session@ == (SessionView {
                tag: tag@,
                start: now as int,
                end: None,
            }),
            outcome matches Err(e) ==> e == StoreError::AlreadyRunning,
    {
        proof {
            use_type_invariant(&*self);
        }
        match self.find_active() {
            Some(_) => Err(StoreError::AlreadyRunning),
            None => {
                let session = Session::begin(tag, now);
                let copy = session.clone();
                let mut sessions = self.take_sessions();
                proof {
                    lemma_views_push(sessions@, session);
                    lemma_started_keeps_single_active(old(self)@, tag@, now as int);
                }
                sessions.push(session);
                self.sessions = sessions;
                Ok(copy)
            },
        }
    }

    /// Ends the running session at `now`, and returns it as it then stands.
    /// Refused with `NoActiveSession`, and the log left as it is, while no
    /// session is running.
    pub fn stop(&mut self, now: i64) -> (outcome: Result<Session, StoreError>)
        ensures
            final(self)@ == stopped(old(self)@, now as int),
            at_most_one_active(final(self)@),
            outcome is Ok <==> has_active(old(self)@),
            outcome is Ok ==> is_first_active(old(self)@, active_index(old(self)@)),
            outcome matches Ok(session) ==> session@ == old(self)@[active_index(
                old(self)@,
            )].ended_at(now as int),
            outcome matches Err(e) ==> e == StoreError::NoActiveSession,
    {
        proof {
            use_type_invariant(&*self);
        }
        match self.find_active() {
            None => Err(StoreError::NoActiveSession),
            Some(i) => {
                let mut sessions = self.take_sessions();
                let ghost before = sessions@;
                let mut session = sessions.remove(i);
                session.end = Some(now);
                let copy = session.clone();
                proof {
                    lemma_views_remove(before, i as int);
                    lemma_views_insert(before.remove(i as int), i as int, session);
                    assert(views(before).remove(i as int).insert(i as int, session@) =~= views(
                        before,
                    ).update(i as int, session@));
                    lemma_stopped_keeps_single_active(old(self)@, now as int);
                }
                sessions.insert(i, session);
                self.sessions = sessions;
                Ok(copy)
            },
        }
    }

    /// The running session and the seconds it has run at `now`, or `None`
    /// while no session is running. The log is not changed.
    pub fn status(&self, now: i64) -> (status: Option<Status>)
        ensures
            status is Some <==> has_active(self@),
            status is Some ==> is_first_active(self@, active_index(self@)),
            status matches Some(s) ==> s.session@ == self@[active_index(self@)] && s.elapsed == now
                - s.session.start,
    {
        match self.find_active() {
            None => None,
            Some(i) => {
                let session = self.sessions[i].clone();
                let elapsed = session.elapsed(now);
                Some(Status { session, elapsed })
            },
        }
    }

    /// Discards the running session, leaving no trace of it, and returns it.
    /// Refused with `NoActiveSession`, and the log left as it is, while no
    /// session is running.
    pub fn reset(&mut self) -> (outcome: Result<Session, StoreError>)
        ensures
            final(self)@ == discarded(old(self)@),
            at_most_one_active(final(self)@),
            outcome is Ok <==> has_active(old(self)@),
            outcome is Ok ==> is_first_active(old(self)@, active_index(old(self)@)),
            outcome matches Ok(session) ==> session@ == old(self)@[active_index(old(self)@)],
            outcome matches Err(e) ==> e == StoreError::NoActiveSession,
    {
        proof {
            use_type_invariant(&*self);
        }
        match self.find_active() {
            None => Err(StoreError::NoActiveSession),
            Some(i) => {
                let mut sessions = self.take_sessions();
                proof {
                    lemma_views_remove(sessions@, i as int);
                    lemma_discarded_keeps_single_active(old(self)@);
                }
                let session = sessions.remove(i);
                self.sessions = sessions;
                Ok(session)
            },
        }
    }

    /// Adds a completed session under `tag` that ends at `now` and is as long
    /// as `hours`, and returns it. Refused with `InvalidHours`, and the log
    /// left as it is, unless the amount is above zero.
    pub fn log_manual(&mut self, tag: String, hours: Hours, now: i64) -> (outcome: Result<
        Session,
        StoreError,
    >)
        requires
            hours.accepted() ==> now - hours.seconds >= i64::MIN,
        ensures
            final(self)@ == logged(old(self)@, tag@, hours, now as int),
            at_most_one_active(final(self)@),
            active_count(final(self)@) == active_count(old(self)@),
            outcome is Ok <==> hours.accepted(),
            outcome matches Ok(session) ==> session@ == (SessionView {
                tag: tag@,
                start: now - hours.seconds,
                end: Some(now as int),
            }),
            outcome matches Err(e) ==> e == StoreError::InvalidHours,
    {
        proof {
            use_type_invariant(&*self);
        }
        proof {
            lemma_logged_keeps_running_count(self@, tag@, hours, now as int);
        }
        if !hours.positive || hours.seconds < 0 {
            return Err(StoreError::InvalidHours);
        }
        let session = Session { tag, start: now - hours.seconds, end: Some(now) };
        let copy = session.clone();
        let mut sessions = self.take_sessions();
        proof {
            lemma_views_push(sessions@, session);
            lemma_logged_keeps_single_active(old(self)@, tag@, hours, now as int);
        }
        sessions.push(session);
        self.sessions = sessions;
        Ok(copy)
    }
}

/// `start` leaves at most one session running.
pub proof fn lemma_started_keeps_single_active(log: Seq<SessionView>, tag: Seq<char>, now: int)
    requires
        at_most_one_active(log),
    ensures
        at_most_one_active(started(log, tag, now)),
        has_active(started(log, tag, now)),
{
    let after = started(log, tag, now);
    if !has_active(log) {
        assert(after[log.len() as int].is_active());
        assert forall|i: int, j: int| 0 <= i < j < after.len() implies !((#[trigger] after[i]).is_active()
            && (#[trigger] after[j]).is_active()) by {
            assert(after[i] == log[i]);
        }
    }
}

/// `stop` leaves no session running.
pub proof fn lemma_stopped_keeps_single_active(log: Seq<SessionView>, now: int)
    requires
        at_most_one_active(log),
    ensures
        at_most_one_active(stopped(log, now)),
        !has_active(stopped(log, now)),
{
    let after = stopped(log, now);
    if has_active(log) {
        lemma_active_index_found(log);
        let k = active_index(log);
        assert forall|i: int| 0 <= i < after.len() implies !(#[trigger] after[i]).is_active() by {
            if i != k {
                assert(after[i] == log[i]);
                assert(log[k].is_active());
            }
        }
    } else {
        assert forall|i: int| 0 <= i < after.len() implies !(#[trigger] after[i]).is_active() by {
            assert(after[i] == log[i]);
        }
    }
}

/// `reset` leaves no session running.
pub proof fn lemma_discarded_keeps_single_active(log: Seq<SessionView>)
    requires
        at_most_one_active(log),
    ensures
        at_most_one_active(discarded(log)),
        !has_active(discarded(log)),
{
    let after = discarded(log);
    if has_active(log) {
        lemma_active_index_found(log);
        let k = active_index(log);
        assert forall|i: int| 0 <= i < after.len() implies !(#[trigger] after[i]).is_active() by {
            assert(log[k].is_active());
            if i < k {
                assert(after[i] == log[i]);
            } else {
                assert(after[i] == log[i + 1]);
            }
        }
    } else {
        assert forall|i: int| 0 <= i < after.len() implies !(#[trigger] after[i]).is_active() by {
            assert(after[i] == log[i]);
        }
    }
}

/// `log_manual` adds no running session.
pub proof fn lemma_logged_keeps_single_active(
    log: Seq<SessionView>,
    tag: Seq<char>,
    hours: Hours,
    now: int,
)
    requires
        at_most_one_active(log),
    ensures
        at_most_one_active(logged(log, tag, hours, now)),
        has_active(logged(log, tag, hours, now)) == has_active(log),
{
    let after = logged(log, tag, hours, now);
    if hours.accepted() {
        assert forall|i: int, j: int| 0 <= i < j < after.len() implies !((#[trigger] after[i]).is_active()
            && (#[trigger] after[j]).is_active()) by {
            assert(!after[log.len() as int].is_active());
            if j < log.len() {
                assert(after[i] == log[i] && after[j] == log[j]);
            }
        }
        if has_active(log) {
            let k = choose|i: int| 0 <= i < log.len() && (#[trigger] log[i]).is_active();
            assert(after[k] == log[k]);
        }
        if has_active(after) {
            let k = choose|i: int| 0 <= i < after.len() && (#[trigger] after[i]).is_active();
            assert(k < log.len());
            assert(after[k] == log[k]);
        }
    }
}

/// No session runs exactly where the number of running sessions is zero.
pub proof fn lemma_none_running_is_count_zero(log: Seq<SessionView>)
    ensures
        has_active(log) <==> active_count(log) > 0,
    decreases log.len(),
{
    if log.len() > 0 {
        let shorter = log.drop_last();
        let last = log.len() - 1;
        lemma_none_running_is_count_zero(shorter);
        if has_active(shorter) {
            let k = choose|i: int| 0 <= i < shorter.len() && (#[trigger] shorter[i]).is_active();
            assert(log[k] == shorter[k]);
        }
        if log.last().is_active() {
            assert(log[last].is_active());
        }
        if has_active(log) {
            let k = choose|i: int| 0 <= i < log.len() && (#[trigger] log[i]).is_active();
            if k < last {
                assert(shorter[k] == log[k]);
            }
        }
    }
}

/// At most one session runs exactly where the number of running sessions is
/// at most one.
pub proof fn lemma_single_active_is_count(log: Seq<SessionView>)
    ensures
        at_most_one_active(log) <==> active_count(log) <= 1,
    decreases log.len(),
{
    if log.len() > 0 {
        let shorter = log.drop_last();
        let last = log.len() - 1;
        lemma_single_active_is_count(shorter);
        lemma_none_running_is_count_zero(shorter);
        if at_most_one_active(log) {
            assert forall|i: int, j: int| 0 <= i < j < shorter.len() implies !((
            #[trigger] shorter[i]).is_active() && (#[trigger] shorter[j]).is_active()) by {
                assert(shorter[i] == log[i] && shorter[j] == log[j]);
            }
            if log.last().is_active() && has_active(shorter) {
                let k = choose|i: int|
                    0 <= i < shorter.len() && (#[trigger] shorter[i]).is_active();
                assert(log[k] == shorter[k]);
                assert(log[k].is_active() && log[last].is_active());
            }
        }
        if active_count(log) <= 1 {
            assert forall|i: int, j: int| 0 <= i < j < log.len() implies !((
            #[trigger] log[i]).is_active() && (#[trigger] log[j]).is_active()) by {
                if j < last {
                    assert(shorter[i] == log[i] && shorter[j] == log[j]);
                } else if log[j].is_active() {
                    assert(shorter[i] == log[i]);
                }
            }
        }
    }
}

/// `log_manual` neither opens a session nor ends the running one: as many
/// sessions run after it as before, whatever the log and the amount.
pub proof fn lemma_logged_keeps_running_count(
    log: Seq<SessionView>,
    tag: Seq<char>,
    hours: Hours,
    now: int,
)
    ensures
        active_count(logged(log, tag, hours, now)) == active_count(log),
{
    let after = logged(log, tag, hours, now);
    if hours.accepted() {
        assert(after.drop_last() =~= log);
        assert(!after.last().is_active());
    }
}

/// One operation on the log, with the time at which it is made.
pub enum Operation {
    Start { tag: Seq<char>, now: int },
    Stop { now: int },
    Status { now: int },
    Reset,
    LogManual { tag: Seq<char>, hours: Hours, now: int },
}

/// The log after one operation; the log itself where the operation is
/// refused or only reads.
pub open spec fn applied(log: Seq<SessionView>, operation: Operation) -> Seq<SessionView> {
    match operation {
        Operation::Start { tag, now } => started(log, tag, now),
        Operation::Stop { now } => stopped(log, now),
        Operation::Status { now } => log,
        Operation::Reset => discarded(log),
        Operation::LogManual { tag, hours, now } => logged(log, tag, hours, now),
    }
}

/// The log after a run of operations, made one after the other.
pub open spec fn applied_all(log: Seq<SessionView>, operations: Seq<Operation>) -> Seq<
    SessionView,
>
    decreases operations.len(),
{
    if operations.len() == 0 {
        log
    } else {
        applied(applied_all(log, operations.drop_last()), operations.last())
    }
}

/// Whatever operations are made on a log, and in whatever order, at most one
/// of its sessions is running afterwards.
pub proof fn lemma_single_active_always(log: Seq<SessionView>, operations: Seq<Operation>)
    requires
        at_most_one_active(log),
    ensures
        at_most_one_active(applied_all(log, operations)),
        active_count(applied_all(log, operations)) <= 1,
    decreases operations.len(),
{
    lemma_single_active_is_count(log);
    lemma_single_active_is_count(applied_all(log, operations));
    if operations.len() > 0 {
        lemma_single_active_always(log, operations.drop_last());
        let before = applied_all(log, operations.drop_last());
        match operations.last() {
            Operation::Start { tag, now } => lemma_started_keeps_single_active(before, tag, now),
            Operation::Stop { now } => lemma_stopped_keeps_single_active(before, now),
            Operation::Status { now } => {},
            Operation::Reset => lemma_discarded_keeps_single_active(before),
            Operation::LogManual { tag, hours, now } => lemma_logged_keeps_single_active(
                before,
                tag,
                hours,
                now,
            ),
        }
    }
}

/// After a `start`, taken or refused, a session is running: a `start` that
/// follows it directly is refused and leaves the log as the first left it.
pub proof fn lemma_start_after_start_is_refused(
    log: Seq<SessionView>,
    first_tag: Seq<char>,
    first_now: int,
    second_tag: Seq<char>,
    second_now: int,
)
    ensures
        has_active(started(log, first_tag, first_now)),
        started(started(log, first_tag, first_now), second_tag, second_now) == started(
            log,
            first_tag,
            first_now,
        ),
{
    let after = started(log, first_tag, first_now);
    if !has_active(log) {
        assert(after[log.len() as int].is_active());
    }
}

/// Without a running session, `stop` and `reset` leave the log as it is.
pub proof fn lemma_nothing_to_stop(log: Seq<SessionView>, now: int)
    requires
        !has_active(log),
    ensures
        stopped(log, now) == log,
        discarded(log) == log,
{
}

/// `reset` after a `start` that was taken gives back the log as it was before
/// the `start`.
pub proof fn lemma_reset_undoes_start(log: Seq<SessionView>, tag: Seq<char>, now: int)
    requires
        !has_active(log),
    ensures
        discarded(started(log, tag, now)) == log,
{
    let after = started(log, tag, now);
    let last = log.len() as int;
    assert(after[last].is_active());
    assert forall|j: int| 0 <= j < last implies !(#[trigger] after[j]).is_active() by {
        assert(after[j] == log[j]);
    }
    lemma_active_index_is(after, last);
    assert(after.remove(last) =~= log);
}

/// An amount of hours that is not above zero is refused, and the log left as
/// it is.
pub proof fn lemma_refused_hours_change_nothing(
    log: Seq<SessionView>,
    tag: Seq<char>,
    hours: Hours,
    now: int,
)
    requires
        !hours.positive,
    ensures
        !hours.accepted(),
        logged(log, tag, hours, now) == log,
{
}

} // verus!
