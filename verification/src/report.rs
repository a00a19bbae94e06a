//! Per-tag totals of the completed sessions of a period.
//!
//! A completed session counts toward a period when its start or its end lies
//! in it, and then with its whole length: a session that spans the border of
//! two periods counts in both.

use crate::calendar::{epoch_day, in_period, representable, Period};
use crate::session::{views, Session, SessionView};
use crate::store::{logged, Hours};
use vstd::prelude::*;

verus! {

/// A tag and the seconds counted under it.
#[derive(Debug)]
pub struct TagTotal {
    pub tag: String,
    pub seconds: i128,
}

/// A tag's total as a mathematical value.
pub struct TagTotalView {
    pub tag: Seq<char>,
    pub seconds: int,
}

impl View for TagTotal {
    type V = TagTotalView;

    open spec fn view(&self) -> TagTotalView {
        TagTotalView { tag: self.tag@, seconds: self.seconds as int }
    }
}

/// Totals as mathematical values, in their order.
pub open spec fn total_views(totals: Seq<TagTotal>) -> Seq<TagTotalView> {
    Seq::new(totals.len(), |i: int| totals[i]@)
}

/// Whether `session` counts toward the period of kind `period` around `now`:
/// it is complete, and its start or its end lies in the period.
pub open spec fn counted(session: SessionView, period: Period, now: int) -> bool {
    match session.end {
        Some(end) => in_period(session.start, period, now) || in_period(end, period, now),
        None => false,
    }
}

/// Whether `session` counts toward the period, and under `tag`.
pub open spec fn counted_under(
    session: SessionView,
    tag: Seq<char>,
    period: Period,
    now: int,
) -> bool {
    session.tag == tag && counted(session, period, now)
}

/// The seconds that `session` adds to the total of `tag`: its length where
/// it counts under that tag, and nothing otherwise.
pub open spec fn credit(session: SessionView, tag: Seq<char>, period: Period, now: int) -> int {
    if counted_under(session, tag, period, now) {
        session.end->0 - session.start
    } else {
        0
    }
}

/// The seconds counted under `tag` over the whole of `log`.
pub open spec fn tag_total(log: Seq<SessionView>, tag: Seq<char>, period: Period, now: int) -> int
    decreases log.len(),
{
    if log.len() == 0 {
        0
    } else {
        tag_total(log.drop_last(), tag, period, now) + credit(log.last(), tag, period, now)
    }
}

/// Whether some session of `log` counts under `tag`.
pub open spec fn tag_counted(
    log: Seq<SessionView>,
    tag: Seq<char>,
    period: Period,
    now: int,
) -> bool {
    exists|i: int| 0 <= i < log.len() && counted_under(#[trigger] log[i], tag, period, now)
}

/// Whether no session of `log` counts toward the period.
pub open spec fn nothing_counted(log: Seq<SessionView>, period: Period, now: int) -> bool {
    forall|i: int| 0 <= i < log.len() ==> !counted(#[trigger] log[i], period, now)
}

/// Whether a session counts under `first` at a place of `log` up to which
/// none counts under `second`: the tag `first` entered the count earlier.
pub open spec fn counted_before(
    log: Seq<SessionView>,
    first: Seq<char>,
    second: Seq<char>,
    period: Period,
    now: int,
) -> bool {
    exists|i: int|
        0 <= i < log.len() && counted_under(#[trigger] log[i], first, period, now) && (forall|
            k: int,
        |
            0 <= k <= i ==> !counted_under(#[trigger] log[k], second, period, now))
}

/// Whether `tag` has an entry among `totals`.
pub open spec fn listed(totals: Seq<TagTotalView>, tag: Seq<char>) -> bool {
    exists|a: int| 0 <= a < totals.len() && (#[trigger] totals[a]).tag == tag
}

/// Whether `totals` holds one entry for each tag under which a session of
/// `log` counts, no other entry, and with each tag the seconds counted under
/// it.
pub open spec fn covers(
    totals: Seq<TagTotalView>,
    log: Seq<SessionView>,
    period: Period,
    now: int,
) -> bool {
    &&& forall|a: int, b: int|
        0 <= a < b < totals.len() ==> (#[trigger] totals[a]).tag != (#[trigger] totals[b]).tag
    &&& forall|a: int|
        0 <= a < totals.len() ==> tag_counted(log, (#[trigger] totals[a]).tag, period, now)
            && totals[a].seconds == tag_total(log, totals[a].tag, period, now)
    &&& forall|tag: Seq<char>| #[trigger] tag_counted(log, tag, period, now) ==> listed(totals, tag)
}

/// Whether `totals` is the aggregate of `log` over the period: the entries
/// that [`covers`] asks for, in the order in which their tags entered the
/// count.
pub open spec fn is_aggregate(
    totals: Seq<TagTotalView>,
    log: Seq<SessionView>,
    period: Period,
    now: int,
) -> bool {
    &&& covers(totals, log, period, now)
    &&& forall|a: int, b: int|
        0 <= a < b < totals.len() ==> counted_before(
            log,
            (#[trigger] totals[a]).tag,
            (#[trigger] totals[b]).tag,
            period,
            now,
        )
}

/// Whether `ranked` is the report of `log` over the period: the entries that
/// [`covers`] asks for, the larger total first, and of two equal totals first
/// the one whose tag entered the count earlier.
pub open spec fn is_report(
    ranked: Seq<TagTotalView>,
    log: Seq<SessionView>,
    period: Period,
    now: int,
) -> bool {
    &&& covers(ranked, log, period, now)
    &&& forall|a: int, b: int|
        0 <= a < b < ranked.len() ==> (#[trigger] ranked[a]).seconds >= (#[trigger] ranked[b]).seconds
    &&& forall|a: int, b: int|
        0 <= a < b < ranked.len() && (#[trigger] ranked[a]).seconds == (#[trigger] ranked[b]).seconds
            ==> counted_before(log, ranked[a].tag, ranked[b].tag, period, now)
}

proof fn lemma_total_step(log: Seq<SessionView>, i: int, tag: Seq<char>, period: Period, now: int)
    requires
        0 <= i < log.len(),
    ensures
        tag_total(log.take(i + 1), tag, period, now) == tag_total(log.take(i), tag, period, now)
            + credit(log[i], tag, period, now),
{
    let longer = log.take(i + 1);
    assert(longer.drop_last() =~= log.take(i));
    assert(longer.last() == log[i]);
}

proof fn lemma_counted_step(log: Seq<SessionView>, i: int, tag: Seq<char>, period: Period, now: int)
    requires
        0 <= i < log.len(),
    ensures
        tag_counted(log.take(i + 1), tag, period, now) == (tag_counted(
            log.take(i),
            tag,
            period,
            now,
        ) || counted_under(log[i], tag, period, now)),
{
    let shorter = log.take(i);
    let longer = log.take(i + 1);
    if tag_counted(shorter, tag, period, now) {
        let j = choose|j: int|
            0 <= j < shorter.len() && counted_under(#[trigger] shorter[j], tag, period, now);
        assert(longer[j] == shorter[j]);
    }
    if counted_under(log[i], tag, period, now) {
        assert(longer[i] == log[i]);
    }
    if tag_counted(longer, tag, period, now) {
        let j = choose|j: int|
            0 <= j < longer.len() && counted_under(#[trigger] longer[j], tag, period, now);
        if j < i {
            assert(shorter[j] == longer[j]);
        } else {
            assert(longer[j] == log[i]);
        }
    }
}

proof fn lemma_before_step(
    log: Seq<SessionView>,
    i: int,
    first: Seq<char>,
    second: Seq<char>,
    period: Period,
    now: int,
)
    requires
        0 <= i < log.len(),
        counted_before(log.take(i), first, second, period, now),
    ensures
        counted_before(log.take(i + 1), first, second, period, now),
{
    let shorter = log.take(i);
    let longer = log.take(i + 1);
    let j = choose|j: int|
        0 <= j < shorter.len() && counted_under(#[trigger] shorter[j], first, period, now) && (
        forall|k: int| 0 <= k <= j ==> !counted_under(#[trigger] shorter[k], second, period, now));
    assert(longer[j] == shorter[j]);
    assert forall|k: int| 0 <= k <= j implies !counted_under(
        #[trigger] longer[k],
        second,
        period,
        now,
    ) by {
        assert(longer[k] == shorter[k]);
    }
}

proof fn lemma_before_newcomer(
    log: Seq<SessionView>,
    first: Seq<char>,
    second: Seq<char>,
    period: Period,
    now: int,
)
    requires
        tag_counted(log, first, period, now),
        !tag_counted(log, second, period, now),
    ensures
        counted_before(log, first, second, period, now),
{
    let j = choose|j: int| 0 <= j < log.len() && counted_under(#[trigger] log[j], first, period, now);
    assert(counted_under(log[j], first, period, now));
}

/// A session that does not count leaves the aggregate as it is.
proof fn lemma_aggregate_skip(
    totals: Seq<TagTotalView>,
    log: Seq<SessionView>,
    i: int,
    period: Period,
    now: int,
)
    requires
        0 <= i < log.len(),
        is_aggregate(totals, log.take(i), period, now),
        !counted(log[i], period, now),
    ensures
        is_aggregate(totals, log.take(i + 1), period, now),
{
    let shorter = log.take(i);
    let longer = log.take(i + 1);
    assert forall|a: int| 0 <= a < totals.len() implies tag_counted(
        longer,
        (#[trigger] totals[a]).tag,
        period,
        now,
    ) && totals[a].seconds == tag_total(longer, totals[a].tag, period, now) by {
        lemma_total_step(log, i, totals[a].tag, period, now);
        lemma_counted_step(log, i, totals[a].tag, period, now);
    }
    assert forall|tag: Seq<char>| #[trigger] tag_counted(longer, tag, period, now) implies listed(
        totals,
        tag,
    ) by {
        lemma_counted_step(log, i, tag, period, now);
        assert(tag_counted(shorter, tag, period, now));
    }
    assert forall|a: int, b: int| 0 <= a < b < totals.len() implies counted_before(
        longer,
        (#[trigger] totals[a]).tag,
        (#[trigger] totals[b]).tag,
        period,
        now,
    ) by {
        lemma_before_step(log, i, totals[a].tag, totals[b].tag, period, now);
    }
}

/// A session that counts under a listed tag adds its length to that entry.
proof fn lemma_aggregate_add(
    totals: Seq<TagTotalView>,
    log: Seq<SessionView>,
    i: int,
    at: int,
    period: Period,
    now: int,
)
    requires
        0 <= i < log.len(),
        is_aggregate(totals, log.take(i), period, now),
        counted(log[i], period, now),
        0 <= at < totals.len(),
        totals[at].tag == log[i].tag,
    ensures
        is_aggregate(
            totals.update(
                at,
                TagTotalView {
                    tag: totals[at].tag,
                    seconds: totals[at].seconds + (log[i].end->0 - log[i].start),
                },
            ),
            log.take(i + 1),
            period,
            now,
        ),
{
    let shorter = log.take(i);
    let longer = log.take(i + 1);
    let after = totals.update(
        at,
        TagTotalView {
            tag: totals[at].tag,
            seconds: totals[at].seconds + (log[i].end->0 - log[i].start),
        },
    );
    assert forall|a: int| 0 <= a < after.len() implies (#[trigger] after[a]).tag == totals[a].tag by {}
    assert forall|a: int, b: int| 0 <= a < b < after.len() implies (#[trigger] after[a]).tag != (
    #[trigger] after[b]).tag by {
        assert(totals[a].tag != totals[b].tag);
    }
    assert forall|a: int| 0 <= a < after.len() implies tag_counted(
        longer,
        (#[trigger] after[a]).tag,
        period,
        now,
    ) && after[a].seconds == tag_total(longer, after[a].tag, period, now) by {
        lemma_total_step(log, i, totals[a].tag, period, now);
        lemma_counted_step(log, i, totals[a].tag, period, now);
        if a != at {
            assert(totals[a].tag != totals[at].tag);
        }
    }
    assert forall|tag: Seq<char>| #[trigger] tag_counted(longer, tag, period, now) implies listed(
        after,
        tag,
    ) by {
        lemma_counted_step(log, i, tag, period, now);
        if tag_counted(shorter, tag, period, now) {
            assert(listed(totals, tag));
            let a = choose|a: int| 0 <= a < totals.len() && (#[trigger] totals[a]).tag == tag;
            assert(after[a].tag == tag);
        } else {
            assert(after[at].tag == tag);
        }
    }
    assert forall|a: int, b: int| 0 <= a < b < after.len() implies counted_before(
        longer,
        (#[trigger] after[a]).tag,
        (#[trigger] after[b]).tag,
        period,
        now,
    ) by {
        assert(counted_before(shorter, totals[a].tag, totals[b].tag, period, now));
        lemma_before_step(log, i, totals[a].tag, totals[b].tag, period, now);
    }
}

/// A session that counts under a tag not yet listed adds an entry at the end.
proof fn lemma_aggregate_new(
    totals: Seq<TagTotalView>,
    log: Seq<SessionView>,
    i: int,
    period: Period,
    now: int,
)
    requires
        0 <= i < log.len(),
        is_aggregate(totals, log.take(i), period, now),
        counted(log[i], period, now),
        !listed(totals, log[i].tag),
    ensures
        is_aggregate(
            totals.push(
                TagTotalView { tag: log[i].tag, seconds: log[i].end->0 - log[i].start },
            ),
            log.take(i + 1),
            period,
            now,
        ),
{
    let shorter = log.take(i);
    let longer = log.take(i + 1);
    let tag = log[i].tag;
    let last = totals.len() as int;
    let after = totals.push(TagTotalView { tag, seconds: log[i].end->0 - log[i].start });
    assert(!tag_counted(shorter, tag, period, now));
    lemma_zero_total(shorter, tag, period, now);
    assert forall|a: int, b: int| 0 <= a < b < after.len() implies (#[trigger] after[a]).tag != (
    #[trigger] after[b]).tag by {
        if b < last {
            assert(after[a] == totals[a] && after[b] == totals[b]);
        } else {
            assert(after[a] == totals[a]);
        }
    }
    assert forall|a: int| 0 <= a < after.len() implies tag_counted(
        longer,
        (#[trigger] after[a]).tag,
        period,
        now,
    ) && after[a].seconds == tag_total(longer, after[a].tag, period, now) by {
        lemma_total_step(log, i, after[a].tag, period, now);
        lemma_counted_step(log, i, after[a].tag, period, now);
        if a < last {
            assert(after[a] == totals[a]);
        }
    }
    assert forall|t: Seq<char>| #[trigger] tag_counted(longer, t, period, now) implies listed(
        after,
        t,
    ) by {
        lemma_counted_step(log, i, t, period, now);
        if tag_counted(shorter, t, period, now) {
            assert(listed(totals, t));
            let a = choose|a: int| 0 <= a < totals.len() && (#[trigger] totals[a]).tag == t;
            assert(after[a] == totals[a]);
        } else {
            assert(after[last].tag == t);
        }
    }
    assert forall|a: int, b: int| 0 <= a < b < after.len() implies counted_before(
        longer,
        (#[trigger] after[a]).tag,
        (#[trigger] after[b]).tag,
        period,
        now,
    ) by {
        assert(after[a] == totals[a]);
        if b < last {
            assert(after[b] == totals[b]);
            assert(counted_before(shorter, totals[a].tag, totals[b].tag, period, now));
        } else {
            lemma_before_newcomer(shorter, totals[a].tag, tag, period, now);
        }
        lemma_before_step(log, i, after[a].tag, after[b].tag, period, now);
    }
}

/// A tag under which nothing counts has a total of zero.
proof fn lemma_zero_total(log: Seq<SessionView>, tag: Seq<char>, period: Period, now: int)
    requires
        !tag_counted(log, tag, period, now),
    ensures
        tag_total(log, tag, period, now) == 0,
    decreases log.len(),
{
    if log.len() > 0 {
        let shorter = log.drop_last();
        assert(!counted_under(log[log.len() - 1], tag, period, now));
        assert forall|j: int| 0 <= j < shorter.len() implies !counted_under(
            #[trigger] shorter[j],
            tag,
            period,
            now,
        ) by {
            assert(shorter[j] == log[j]);
        }
        lemma_zero_total(shorter, tag, period, now);
    }
}

fn find_tag(totals: &Vec<TagTotal>, tag: &String) -> (found: Option<usize>)
    ensures
        found is Some <==> listed(total_views(totals@), tag@),
        found matches Some(a) ==> a < totals.len() && totals[a as int].tag@ == tag@,
{
    let ghost entries = total_views(totals@);
    let mut a: usize = 0;
    while a < totals.len()
        invariant
            a <= totals.len(),
            entries == total_views(totals@),
            forall|b: int| 0 <= b < a ==> (#[trigger] entries[b]).tag != tag@,
        decreases totals.len() - a,
    {
        if totals[a].tag == *tag {
            assert(entries[a as int].tag == tag@);
            return Some(a);
        }
        a += 1;
    }
    None
}

/// The seconds counted under each tag over the period of kind `period`
/// around `now`, one entry for each tag under which a session of `sessions`
/// counts, in the order in which the tags entered the count.
pub fn aggregate(sessions: &Vec<Session>, period: Period, now: i64) -> (totals: Vec<TagTotal>)
    requires
        representable(now as int),
        sessions.len() <= i64::MAX,
    ensures
        is_aggregate(total_views(totals@), views(sessions@), period, now as int),
{
    let ghost log = views(sessions@);
    let mut totals: Vec<TagTotal> = Vec::new();
    let mut i: usize = 0;
    assert(is_aggregate(total_views(totals@), log.take(0), period, now as int)) by {
        assert(total_views(totals@).len() == 0);
        assert(log.take(0).len() == 0);
    }
    while i < sessions.len()
        invariant
            i <= sessions.len(),
            sessions.len() <= i64::MAX,
            representable(now as int),
            log == views(sessions@),
            is_aggregate(total_views(totals@), log.take(i as int), period, now as int),
            forall|a: int|
                0 <= a < totals.len() ==> -i * 0x1_0000_0000_0000_0000 <= (#[trigger] totals[a]).seconds
                    <= i * 0x1_0000_0000_0000_0000,
        decreases sessions.len() - i,
    {
        let ghost before = total_views(totals@);
        let session = &sessions[i];
        assert(log[i as int] == session@);
        let counts = match session.end {
            Some(end) => period.contains(session.start, now) || period.contains(end, now),
            None => false,
        };
        if counts {
            let end: i64 = session.end.unwrap();
            let seconds: i128 = end as i128 - session.start as i128;
            match find_tag(&totals, &session.tag) {
                Some(at) => {
                    let sum: i128 = totals[at].seconds + seconds;
                    let entry = TagTotal { tag: session.tag.clone(), seconds: sum };
                    proof {
                        lemma_aggregate_add(before, log, i as int, at as int, period, now as int);
                        assert(total_views(totals@.update(at as int, entry)) =~= before.update(
                            at as int,
                            entry@,
                        ));
                    }
                    totals.set(at, entry);
                },
                None => {
                    let entry = TagTotal { tag: session.tag.clone(), seconds };
                    proof {
                        lemma_aggregate_new(before, log, i as int, period, now as int);
                        assert(total_views(totals@.push(entry)) =~= before.push(entry@));
                    }
                    totals.push(entry);
                },
            }
        } else {
            proof {
                lemma_aggregate_skip(before, log, i as int, period, now as int);
            }
        }
        i += 1;
    }
    assert(log.take(i as int) =~= log);
    totals
}

/// Whether `origin` names the place `x`.
spec fn placed(origin: Seq<int>, x: int) -> bool {
    exists|a: int| 0 <= a < origin.len() && #[trigger] origin[a] == x
}

/// Whether `ranked` holds the first `done` entries of `totals`, each once and
/// `origin` telling from which place, the larger total first, and of two
/// equal totals first the one that stood earlier in `totals`.
spec fn ranks(
    ranked: Seq<TagTotalView>,
    totals: Seq<TagTotalView>,
    origin: Seq<int>,
    done: int,
) -> bool {
    &&& ranked.len() == done
    &&& origin.len() == done
    &&& forall|a: int|
        0 <= a < done ==> 0 <= (#[trigger] origin[a]) < done && ranked[a] == totals[origin[a]]
    &&& forall|x: int| 0 <= x < done ==> #[trigger] placed(origin, x)
    &&& forall|a: int, b: int|
        0 <= a < b < done ==> (#[trigger] ranked[a]).seconds >= (#[trigger] ranked[b]).seconds
    &&& forall|a: int, b: int|
        0 <= a < b < done && ranked[a].seconds == ranked[b].seconds ==> (#[trigger] origin[a]) < (
        #[trigger] origin[b])
}

proof fn lemma_ranks_insert(
    ranked: Seq<TagTotalView>,
    totals: Seq<TagTotalView>,
    origin: Seq<int>,
    done: int,
    at: int,
)
    requires
        0 <= done < totals.len(),
        ranks(ranked, totals, origin, done),
        0 <= at <= done,
        forall|a: int| 0 <= a < at ==> (#[trigger] ranked[a]).seconds >= totals[done].seconds,
        at < done ==> ranked[at].seconds < totals[done].seconds,
    ensures
        ranks(ranked.insert(at, totals[done]), totals, origin.insert(at, done), done + 1),
{
    let longer = ranked.insert(at, totals[done]);
    let places = origin.insert(at, done);
    assert forall|a: int| 0 <= a < done + 1 implies 0 <= (#[trigger] places[a]) < done + 1
        && longer[a] == totals[places[a]] by {
        if a < at {
            assert(places[a] == origin[a]);
        } else if a > at {
            assert(places[a] == origin[a - 1]);
        }
    }
    assert forall|x: int| 0 <= x < done + 1 implies #[trigger] placed(places, x) by {
        if x == done {
            assert(places[at] == x);
        } else {
            assert(placed(origin, x));
            let a = choose|a: int| 0 <= a < origin.len() && #[trigger] origin[a] == x;
            if a < at {
                assert(places[a] == x);
            } else {
                assert(places[a + 1] == origin[a]);
            }
        }
    }
    assert forall|a: int, b: int| 0 <= a < b < done + 1 implies (#[trigger] longer[a]).seconds >= (
    #[trigger] longer[b]).seconds by {
        if b < at {
            assert(longer[a] == ranked[a] && longer[b] == ranked[b]);
        } else if b == at {
            assert(longer[a] == ranked[a] && longer[b] == totals[done]);
        } else if a < at {
            assert(longer[a] == ranked[a] && longer[b] == ranked[b - 1]);
        } else if a == at {
            assert(longer[a] == totals[done] && longer[b] == ranked[b - 1]);
            if at < b - 1 {
                assert(ranked[at].seconds >= ranked[b - 1].seconds);
            }
        } else {
            assert(longer[a] == ranked[a - 1] && longer[b] == ranked[b - 1]);
        }
    }
    assert forall|a: int, b: int|
        0 <= a < b < done + 1 && longer[a].seconds == longer[b].seconds implies (
    #[trigger] places[a]) < (#[trigger] places[b]) by {
        if b < at {
            assert(places[a] == origin[a] && places[b] == origin[b]);
            assert(longer[a] == ranked[a] && longer[b] == ranked[b]);
        } else if b == at {
            assert(places[a] == origin[a]);
        } else if a < at {
            assert(places[a] == origin[a] && places[b] == origin[b - 1]);
            assert(longer[a] == ranked[a] && longer[b] == ranked[b - 1]);
        } else if a == at {
            assert(longer[a] == totals[done] && longer[b] == ranked[b - 1]);
            if at < b - 1 {
                assert(ranked[at].seconds >= ranked[b - 1].seconds);
            }
        } else {
            assert(places[a] == origin[a - 1] && places[b] == origin[b - 1]);
            assert(longer[a] == ranked[a - 1] && longer[b] == ranked[b - 1]);
        }
    }
}

/// What is ranked from an aggregate is the report.
proof fn lemma_ranked_aggregate_is_report(
    ranked: Seq<TagTotalView>,
    totals: Seq<TagTotalView>,
    origin: Seq<int>,
    log: Seq<SessionView>,
    period: Period,
    now: int,
)
    requires
        is_aggregate(totals, log, period, now),
        ranks(ranked, totals, origin, totals.len() as int),
    ensures
        is_report(ranked, log, period, now),
{
    assert forall|a: int, b: int| 0 <= a < b < ranked.len() implies (#[trigger] ranked[a]).tag != (
    #[trigger] ranked[b]).tag by {
        let x = origin[a];
        let y = origin[b];
        assert(x != y);
        if x < y {
            assert(totals[x].tag != totals[y].tag);
        } else {
            assert(totals[y].tag != totals[x].tag);
        }
    }
    assert forall|a: int| 0 <= a < ranked.len() implies tag_counted(
        log,
        (#[trigger] ranked[a]).tag,
        period,
        now,
    ) && ranked[a].seconds == tag_total(log, ranked[a].tag, period, now) by {
        let x = origin[a];
        assert(ranked[a] == totals[x]);
    }
    assert forall|tag: Seq<char>| #[trigger] tag_counted(log, tag, period, now) implies listed(
        ranked,
        tag,
    ) by {
        assert(listed(totals, tag));
        let x = choose|x: int| 0 <= x < totals.len() && (#[trigger] totals[x]).tag == tag;
        assert(placed(origin, x));
        let a = choose|a: int| 0 <= a < origin.len() && #[trigger] origin[a] == x;
        assert(ranked[a].tag == tag);
    }
    assert forall|a: int, b: int|
        0 <= a < b < ranked.len() && (#[trigger] ranked[a]).seconds == (
        #[trigger] ranked[b]).seconds implies counted_before(
        log,
        ranked[a].tag,
        ranked[b].tag,
        period,
        now,
    ) by {
        let x = origin[a];
        let y = origin[b];
        assert(x < y);
        assert(counted_before(log, totals[x].tag, totals[y].tag, period, now));
    }
}

/// Orders `totals` for a report: the larger total first, equal totals in the
/// order in which they stand. `origin` tells where each entry stood.
fn rank(totals: &Vec<TagTotal>) -> (out: (Vec<TagTotal>, Ghost<Seq<int>>))
    ensures
        ranks(total_views(out.0@), total_views(totals@), out.1@, totals.len() as int),
{
    let ghost entries = total_views(totals@);
    let mut ranked: Vec<TagTotal> = Vec::new();
    let ghost mut origin: Seq<int> = Seq::empty();
    let mut done: usize = 0;
    while done < totals.len()
        invariant
            done <= totals.len(),
            entries == total_views(totals@),
            ranks(total_views(ranked@), entries, origin, done as int),
        decreases totals.len() - done,
    {
        let ghost before = total_views(ranked@);
        let entry = TagTotal { tag: totals[done].tag.clone(), seconds: totals[done].seconds };
        assert(entry@ == entries[done as int]);
        let mut at: usize = 0;
        while at < ranked.len() && ranked[at].seconds >= entry.seconds
            invariant
                at <= ranked.len(),
                before == total_views(ranked@),
                forall|a: int| 0 <= a < at ==> (#[trigger] before[a]).seconds >= entry.seconds,
            decreases ranked.len() - at,
        {
            at += 1;
        }
        proof {
            if at < ranked.len() {
                assert(before[at as int].seconds == ranked[at as int].seconds);
            }
            lemma_ranks_insert(before, entries, origin, done as int, at as int);
            assert(total_views(ranked@.insert(at as int, entry)) =~= before.insert(
                at as int,
                entry@,
            ));
            origin = origin.insert(at as int, done as int);
        }
        ranked.insert(at, entry);
        done += 1;
    }
    (ranked, Ghost(origin))
}

/// The report over the period of kind `period` around `now`: each tag under
/// which a session of `sessions` counts with the seconds counted under it,
/// the larger total first. `None` says that no session counts, which is not a
/// report of totals that are zero.
pub fn report(sessions: &Vec<Session>, period: Period, now: i64) -> (ranked: Option<Vec<TagTotal>>)
    requires
        representable(now as int),
        sessions.len() <= i64::MAX,
    ensures
        ranked is None <==> nothing_counted(views(sessions@), period, now as int),
        ranked matches Some(entries) ==> entries.len() > 0 && is_report(
            total_views(entries@),
            views(sessions@),
            period,
            now as int,
        ),
{
    let ghost log = views(sessions@);
    let totals = aggregate(sessions, period, now);
    let ghost entries = total_views(totals@);
    if totals.len() == 0 {
        proof {
            assert forall|i: int| 0 <= i < log.len() implies !counted(
                #[trigger] log[i],
                period,
                now as int,
            ) by {
                if counted(log[i], period, now as int) {
                    assert(counted_under(log[i], log[i].tag, period, now as int));
                    assert(tag_counted(log, log[i].tag, period, now as int));
                    assert(listed(entries, log[i].tag));
                }
            }
        }
        return None;
    }
    let (ranked, Ghost(origin)) = rank(&totals);
    proof {
        lemma_ranked_aggregate_is_report(
            total_views(ranked@),
            entries,
            origin,
            log,
            period,
            now as int,
        );
        assert(tag_counted(log, entries[0].tag, period, now as int));
    }
    Some(ranked)
}

/// Hours logged by hand count at once: in each period around the moment of
/// logging, the tag is counted, and its total has grown by the amount.
pub proof fn lemma_logged_hours_are_counted(
    log: Seq<SessionView>,
    tag: Seq<char>,
    hours: Hours,
    period: Period,
    now: int,
)
    requires
        hours.accepted(),
        representable(now),
    ensures
        tag_counted(logged(log, tag, hours, now), tag, period, now),
        tag_total(logged(log, tag, hours, now), tag, period, now) == tag_total(
            log,
            tag,
            period,
            now,
        ) + hours.seconds,
{
    let after = logged(log, tag, hours, now);
    assert(after.drop_last() =~= log);
    assert(in_period(now, period, now));
    assert(counted_under(after[log.len() as int], tag, period, now));
}

/// A completed session counts in every period that holds its start and in
/// every period that holds its end, each time with its whole length.
pub proof fn lemma_counted_at_both_ends(
    session: SessionView,
    period: Period,
    start_now: int,
    end_now: int,
)
    requires
        session.end is Some,
        in_period(session.start, period, start_now),
        in_period(session.end->0, period, end_now),
    ensures
        counted(session, period, start_now),
        counted(session, period, end_now),
        credit(session, session.tag, period, start_now) == session.end->0 - session.start,
        credit(session, session.tag, period, end_now) == session.end->0 - session.start,
{
}

/// A session that began yesterday and ended today counts toward both days,
/// each time with its whole length.
pub proof fn lemma_overnight_session_counts_twice(
    session: SessionView,
    yesterday: int,
    today: int,
)
    requires
        session.end is Some,
        representable(session.start),
        representable(session.end->0),
        epoch_day(yesterday) + 1 == epoch_day(today),
        epoch_day(session.start) == epoch_day(yesterday),
        epoch_day(session.end->0) == epoch_day(today),
    ensures
        counted(session, Period::Daily, yesterday),
        counted(session, Period::Daily, today),
        credit(session, session.tag, Period::Daily, yesterday) == session.end->0 - session.start,
        credit(session, session.tag, Period::Daily, today) == session.end->0 - session.start,
{
}

/// Whether `x` stands before `y` in a listing: by the larger total where
/// `by_total` asks for it and the totals differ, and else by the tag that
/// entered the count earlier.
spec fn goes_first(
    x: TagTotalView,
    y: TagTotalView,
    by_total: bool,
    log: Seq<SessionView>,
    period: Period,
    now: int,
) -> bool {
    if by_total && x.seconds != y.seconds {
        x.seconds > y.seconds
    } else {
        counted_before(log, x.tag, y.tag, period, now)
    }
}

/// Whether `entries` is what [`covers`] asks for, in the order of
/// [`goes_first`].
spec fn is_listing(
    entries: Seq<TagTotalView>,
    by_total: bool,
    log: Seq<SessionView>,
    period: Period,
    now: int,
) -> bool {
    &&& covers(entries, log, period, now)
    &&& forall|i: int, j: int|
        0 <= i < j < entries.len() ==> goes_first(
            #[trigger] entries[i],
            #[trigger] entries[j],
            by_total,
            log,
            period,
            now,
        )
}

/// Of two tags, at most one entered the count before the other.
proof fn lemma_not_both_before(
    log: Seq<SessionView>,
    x: Seq<char>,
    y: Seq<char>,
    period: Period,
    now: int,
)
    requires
        counted_before(log, x, y, period, now),
    ensures
        !counted_before(log, y, x, period, now),
{
    if counted_before(log, y, x, period, now) {
        let i = choose|i: int|
            0 <= i < log.len() && counted_under(#[trigger] log[i], x, period, now) && (forall|
                k: int,
            |
                0 <= k <= i ==> !counted_under(#[trigger] log[k], y, period, now));
        let j = choose|j: int|
            0 <= j < log.len() && counted_under(#[trigger] log[j], y, period, now) && (forall|
                k: int,
            |
                0 <= k <= j ==> !counted_under(#[trigger] log[k], x, period, now));
        if i <= j {
            assert(!counted_under(log[i], x, period, now));
        } else {
            assert(!counted_under(log[j], y, period, now));
        }
    }
}

/// Two listings of one log in one order agree at each place of the first.
proof fn lemma_listings_agree(
    a: Seq<TagTotalView>,
    b: Seq<TagTotalView>,
    by_total: bool,
    log: Seq<SessionView>,
    period: Period,
    now: int,
    i: int,
)
    requires
        is_listing(a, by_total, log, period, now),
        is_listing(b, by_total, log, period, now),
        0 <= i < a.len(),
    ensures
        i < b.len(),
        a[i] == b[i],
    decreases i,
{
    let tag = a[i].tag;
    assert(tag_counted(log, tag, period, now));
    assert(listed(b, tag));
    let q = choose|q: int| 0 <= q < b.len() && (#[trigger] b[q]).tag == tag;
    if q < i {
        lemma_listings_agree(a, b, by_total, log, period, now, q);
        assert(a[q].tag != a[i].tag);
    }
    let other = b[i].tag;
    assert(tag_counted(log, other, period, now));
    assert(listed(a, other));
    let p = choose|p: int| 0 <= p < a.len() && (#[trigger] a[p]).tag == other;
    if p < i {
        lemma_listings_agree(a, b, by_total, log, period, now, p);
        assert(b[p].tag != b[i].tag);
    }
    if q > i {
        assert(b[i].tag != b[q].tag);
        assert(p > i);
        assert(goes_first(b[i], b[q], by_total, log, period, now));
        assert(goes_first(a[i], a[p], by_total, log, period, now));
        assert(a[i].seconds == b[q].seconds);
        assert(a[p].seconds == b[i].seconds);
        if !(by_total && a[i].seconds != a[p].seconds) {
            lemma_not_both_before(log, tag, other, period, now);
        }
    }
    assert(a[i].seconds == b[i].seconds);
}

proof fn lemma_listing_is_unique(
    a: Seq<TagTotalView>,
    b: Seq<TagTotalView>,
    by_total: bool,
    log: Seq<SessionView>,
    period: Period,
    now: int,
)
    requires
        is_listing(a, by_total, log, period, now),
        is_listing(b, by_total, log, period, now),
    ensures
        a == b,
{
    if a.len() > 0 {
        lemma_listings_agree(a, b, by_total, log, period, now, a.len() - 1);
    }
    if b.len() > 0 {
        lemma_listings_agree(b, a, by_total, log, period, now, b.len() - 1);
    }
    assert forall|i: int| 0 <= i < a.len() implies a[i] == b[i] by {
        lemma_listings_agree(a, b, by_total, log, period, now, i);
    }
    assert(a =~= b);
}

/// A log has one aggregate over a period: [`is_aggregate`] settles each
/// entry and its place.
pub proof fn lemma_aggregate_is_unique(
    a: Seq<TagTotalView>,
    b: Seq<TagTotalView>,
    log: Seq<SessionView>,
    period: Period,
    now: int,
)
    requires
        is_aggregate(a, log, period, now),
        is_aggregate(b, log, period, now),
    ensures
        a == b,
{
    lemma_listing_is_unique(a, b, false, log, period, now);
}

/// A log has one report over a period: [`is_report`] settles each entry and
/// its place, ties too.
pub proof fn lemma_report_is_unique(
    a: Seq<TagTotalView>,
    b: Seq<TagTotalView>,
    log: Seq<SessionView>,
    period: Period,
    now: int,
)
    requires
        is_report(a, log, period, now),
        is_report(b, log, period, now),
    ensures
        a == b,
{
    lemma_listing_is_unique(a, b, true, log, period, now);
}

} // verus!
