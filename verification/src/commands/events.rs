//! Reading events from the log.

use vstd::prelude::*;
use crate::ident::new_id;
use crate::shift_db::ShiftDb;
use crate::task_event::{EventView, TaskEvent};
use crate::task_session::{SessionView, TaskSession};
use crate::task_state::TaskState;
use crate::text::{contains_text, same_text};

verus! {

/// Why events could not be read or summed up.
#[derive(Debug, PartialEq, Eq)]
pub enum Error {
    /// Never returned; kept for callers that name it.
    A,
    /// A session that had started and not stopped was started again.
    Restarted,
}

/// Which events to read.
#[derive(Debug)]
pub struct Opts {
    /// Only events strictly after this time.
    pub from: Option<i64>,
    /// Only events strictly before this time.
    pub to: Option<i64>,
    /// At most this many events, the newest ones.
    pub count: Option<usize>,
    /// Only events of these tasks; empty for all tasks.
    pub tasks: Vec<String>,
}

impl Default for Opts {
    fn default() -> (r: Self)
        ensures
            r.from is None,
            r.to is None,
            r.count is None,
            r.tasks@.len() == 0,
    {
        Opts { from: None, to: None, count: None, tasks: Vec::new() }
    }
}

/// Whether an event lies strictly inside the window from `from` to `to`,
/// where a missing bound leaves that side open, and belongs to one of
/// `names`, where no names means any task.
pub open spec fn passes(
    e: EventView,
    from: Option<i64>,
    to: Option<i64>,
    names: Seq<Seq<char>>,
) -> bool {
    &&& from matches Some(t) ==> e.time > t
    &&& to matches Some(t) ==> e.time < t
    &&& names.len() == 0 || names.contains(e.name)
}

/// The predicate [`passes`] for a given window and given names.
pub open spec fn passing(from: Option<i64>, to: Option<i64>, names: Seq<Seq<char>>) -> spec_fn(
    EventView,
) -> bool {
    |e: EventView| passes(e, from, to, names)
}

/// The first `cap` elements of `all`, or all of them where there are fewer
/// or no cap is set.
pub open spec fn capped<A>(all: Seq<A>, cap: Option<usize>) -> Seq<A> {
    match cap {
        Some(n) => if n < all.len() {
            all.take(n as int)
        } else {
            all
        },
        None => all,
    }
}

/// A filter keeps of a prefix a prefix of what it keeps of the whole.
pub proof fn lemma_filter_of_prefix<A>(s: Seq<A>, i: int, pred: spec_fn(A) -> bool)
    requires
        0 <= i <= s.len(),
    ensures
        s.take(i).filter(pred).len() <= s.filter(pred).len(),
        s.filter(pred).take(s.take(i).filter(pred).len() as int) == s.take(i).filter(pred),
{
    let head = s.take(i);
    let tail = s.skip(i);
    assert(head + tail =~= s);
    Seq::filter_distributes_over_add(head, tail, pred);
    assert((head.filter(pred) + tail.filter(pred)).take(head.filter(pred).len() as int)
        =~= head.filter(pred));
}

/// Whether `e` passes the filter of the given window and names.
pub fn event_passes(e: &TaskEvent, from: Option<i64>, to: Option<i64>, names: &Vec<String>) -> (r:
    bool)
    ensures
        r == passes(e@, from, to, names.deep_view()),
{
    let after_from: bool = match from {
        Some(t) => e.time > t,
        None => true,
    };
    let before_to: bool = match to {
        Some(t) => e.time < t,
        None => true,
    };
    after_from && before_to && (names.len() == 0 || contains_text(names, e.name.as_str()))
}

/// The events of `events` that pass the filter, in their order, and no
/// more than `cap` of them where a cap is set.
pub fn filter_events(
    events: &Vec<TaskEvent>,
    from: Option<i64>,
    to: Option<i64>,
    names: &Vec<String>,
    cap: Option<usize>,
) -> (r: Vec<TaskEvent>)
    ensures
        r.deep_view() == capped(
            events.deep_view().filter(passing(from, to, names.deep_view())),
            cap,
        ),
{
    let ghost all = events.deep_view();
    let ghost wanted = passing(from, to, names.deep_view());
    let limit: usize = match cap {
        Some(n) => n,
        None => events.len(),
    };
    let mut out: Vec<TaskEvent> = Vec::new();
    let mut i: usize = 0;
    assert(all.take(0) =~= Seq::<EventView>::empty());
    assert(out.deep_view() =~= all.take(0).filter(wanted)) by {
        reveal(Seq::filter);
    }
    while i < events.len() && out.len() < limit
        invariant
            i <= events.len(),
            all == events.deep_view(),
            wanted == passing(from, to, names.deep_view()),
            out.deep_view() == all.take(i as int).filter(wanted),
            out.len() <= limit,
        decreases events.len() - i,
    {
        let e = &events[i];
        proof {
            assert(all.take(i as int).push(all[i as int]) =~= all.take(i + 1));
            all.take(i as int).lemma_filter_push(all[i as int], wanted);
            assert(all[i as int] == e@);
        }
        if event_passes(e, from, to, names) {
            let ghost before = out.deep_view();
            out.push(e.clone());
            assert(out.deep_view() =~= before.push(e@));
        }
        i += 1;
    }
    proof {
        lemma_filter_of_prefix(all, i as int, wanted);
        all.lemma_filter_len(wanted);
        if i == events.len() {
            assert(all.take(i as int) =~= all);
        }
    }
    out
}

/// The events of the log that pass the filter of `opts`, newest first, and
/// no more than `opts.count` of them where a count is set.
pub fn events(s: &ShiftDb, opts: &Opts) -> (r: Result<Vec<TaskEvent>, Error>)
    ensures
        r matches Ok(found) && found.deep_view() == capped(
            s@.filter(passing(opts.from, opts.to, opts.tasks.deep_view())),
            opts.count,
        ),
{
    let found = filter_events(s.events(), opts.from, opts.to, &opts.tasks, opts.count);
    Ok(found)
}

/// The window over which events are summed up.
#[derive(Debug)]
pub struct EventStatOpts {
    /// Where the window begins: the time given to the start of a session
    /// that was running before the first event read.
    pub from: i64,
    /// Where the window ends: the time given to the stop of a session that
    /// is still running after the last event read.
    pub to: i64,
}

impl Default for EventStatOpts {
    fn default() -> (r: Self)
        ensures
            r.from == 0,
            r.to == 0,
    {
        EventStatOpts { from: 0, to: 0 }
    }
}

/// A session as a run of events shows it, with a note on each end that the
/// run does not show.
#[derive(Debug, PartialEq, Eq)]
pub struct ClippedSession {
    /// The events that were read, oldest first.
    pub session: TaskSession,
    /// The session was stopped without any earlier event of it being read.
    pub starts_before: bool,
    /// No stop of the session was read.
    pub ends_after: bool,
}

/// A [`ClippedSession`] over a session view.
pub struct ClippedView {
    pub session: SessionView,
    pub starts_before: bool,
    pub ends_after: bool,
}

impl View for ClippedSession {
    type V = ClippedView;

    open spec fn view(&self) -> ClippedView {
        ClippedView {
            session: self.session@,
            starts_before: self.starts_before,
            ends_after: self.ends_after,
        }
    }
}

impl DeepView for ClippedSession {
    type V = ClippedView;

    open spec fn deep_view(&self) -> ClippedView {
        self@
    }
}

/// The session that `e` opens in a tally.
pub open spec fn opened_by(e: EventView, starts_before: bool) -> ClippedView {
    ClippedView {
        session: SessionView { id: e.session, name: e.name, events: seq![e] },
        starts_before,
        ends_after: false,
    }
}

/// The session `c` with `e` as its newest event.
pub open spec fn extended_by(c: ClippedView, e: EventView) -> ClippedView {
    ClippedView {
        session: SessionView {
            id: c.session.id,
            name: c.session.name,
            events: c.session.events.push(e),
        },
        starts_before: c.starts_before,
        ends_after: c.ends_after,
    }
}

/// The session `c`, noted as not stopped.
pub open spec fn left_open(c: ClippedView) -> ClippedView {
    ClippedView { session: c.session, starts_before: c.starts_before, ends_after: true }
}

/// Whether `p` is the first position in `sessions` of a session with the
/// identifier `id`.
pub open spec fn is_first_with_id(sessions: Seq<ClippedView>, id: Seq<char>, p: int) -> bool {
    &&& 0 <= p < sessions.len()
    &&& sessions[p].session.id == id
    &&& forall|k: int| 0 <= k < p ==> (#[trigger] sessions[k]).session.id != id
}

/// Whether `sessions` holds a session with the identifier `id`.
pub open spec fn has_partial(sessions: Seq<ClippedView>, id: Seq<char>) -> bool {
    exists|p: int| is_first_with_id(sessions, id, p)
}

/// The first position in `sessions` of a session with the identifier `id`.
pub open spec fn first_with_id(sessions: Seq<ClippedView>, id: Seq<char>) -> int {
    choose|p: int| is_first_with_id(sessions, id, p)
}

/// The sessions met while reading events oldest first: those still
/// running, and those that were stopped, in the order of their stops.
pub struct Tally {
    pub partial: Seq<ClippedView>,
    pub done: Seq<ClippedView>,
}

/// The tally after one more event, or `None` where the event starts a
/// session that is running.
///
/// A start opens a session. A pause or a resumption joins its session and
/// opens one where none is running. A stop ends its session, whose place
/// among the running ones the last of them takes; where none is running,
/// the stop stands for a session that started before the events read.
pub open spec fn tally_step(t: Tally, e: EventView) -> Option<Tally> {
    let known = has_partial(t.partial, e.session);
    let p = first_with_id(t.partial, e.session);
    match e.state {
        TaskState::Started => if known {
            None
        } else {
            Some(Tally { partial: t.partial.push(opened_by(e, false)), done: t.done })
        },
        TaskState::Paused | TaskState::Resumed => if known {
            Some(
                Tally { partial: t.partial.update(p, extended_by(t.partial[p], e)), done: t.done },
            )
        } else {
            Some(Tally { partial: t.partial.push(opened_by(e, false)), done: t.done })
        },
        TaskState::Stopped => if known {
            Some(
                Tally {
                    partial: t.partial.update(p, t.partial.last()).drop_last(),
                    done: t.done.push(extended_by(t.partial[p], e)),
                },
            )
        } else {
            Some(Tally { partial: t.partial, done: t.done.push(opened_by(e, true)) })
        },
    }
}

/// The tally of `events`, which are read in their order, oldest first.
pub open spec fn tally(events: Seq<EventView>) -> Option<Tally>
    decreases events.len(),
{
    if events.len() == 0 {
        Some(Tally { partial: Seq::empty(), done: Seq::empty() })
    } else {
        match tally(events.drop_last()) {
            Some(t) => tally_step(t, events.last()),
            None => None,
        }
    }
}

/// The sessions of a tally: the stopped ones, then the running ones from
/// the last to the first, each noted as not stopped.
pub open spec fn closed_off(t: Tally) -> Seq<ClippedView> {
    t.done + Seq::new(t.partial.len(), |i: int| left_open(t.partial[t.partial.len() - 1 - i]))
}

/// The sessions that `events`, given newest first, show: see
/// [`tally_step`] and [`closed_off`].
pub open spec fn window_spec(events: Seq<EventView>) -> Option<Seq<ClippedView>> {
    match tally(events.reverse()) {
        Some(t) => Some(closed_off(t)),
        None => None,
    }
}

/// Once reading has failed, reading on does not mend it.
pub proof fn lemma_tally_fails_for_good(events: Seq<EventView>, k: int)
    requires
        0 <= k <= events.len(),
        tally(events.take(k)) is None,
    ensures
        tally(events) is None,
    decreases events.len() - k,
{
    if k < events.len() {
        assert(events.take(k + 1).drop_last() =~= events.take(k));
        lemma_tally_fails_for_good(events, k + 1);
    } else {
        assert(events.take(k) =~= events);
    }
}

/// The first position in `partial` of a session with the identifier `id`.
fn find_partial(partial: &Vec<ClippedSession>, id: &str) -> (r: Option<usize>)
    ensures
        match r {
            Some(p) => is_first_with_id(partial.deep_view(), id@, p as int) && first_with_id(
                partial.deep_view(),
                id@,
            ) == p,
            None => !has_partial(partial.deep_view(), id@),
        },
{
    let ghost all = partial.deep_view();
    let mut p: usize = 0;
    while p < partial.len()
        invariant
            p <= partial.len(),
            all == partial.deep_view(),
            forall|k: int| 0 <= k < p ==> (#[trigger] all[k]).session.id != id@,
        decreases partial.len() - p,
    {
        if same_text(partial[p].session.id.as_str(), id) {
            assert(all[p as int].session.id == id@);
            assert(is_first_with_id(all, id@, p as int));
            let ghost q = first_with_id(all, id@);
            assert(is_first_with_id(all, id@, q));
            assert(q == p) by {
                if q < p {
                    assert(all[q].session.id != id@);
                }
                if p < q {
                    assert(all[p as int].session.id != id@);
                }
            }
            return Some(p);
        }
        p += 1;
    }
    assert forall|q: int| !is_first_with_id(all, id@, q) by {
        if 0 <= q < all.len() {
            assert(all[q].session.id != id@);
        }
    }
    None
}

/// The session that `e` opens.
fn open_with(e: &TaskEvent, starts_before: bool) -> (r: ClippedSession)
    ensures
        r@ == opened_by(e@, starts_before),
{
    let mut events: Vec<TaskEvent> = Vec::new();
    events.push(e.clone());
    assert(events.deep_view() =~= seq![e@]);
    ClippedSession {
        session: TaskSession { id: e.session.clone(), name: e.name.clone(), events },
        starts_before,
        ends_after: false,
    }
}

/// The session `c` with `e` as its newest event.
fn extend_with(c: ClippedSession, e: &TaskEvent) -> (r: ClippedSession)
    ensures
        r@ == extended_by(c@, e@),
{
    let ghost before = c.session.events.deep_view();
    let mut c = c;
    c.session.events.push(e.clone());
    assert(c.session.events.deep_view() =~= before.push(e@));
    c
}

/// Groups events, given newest first, into the sessions they show, with a
/// note on each session whose start or stop is not among them.
///
/// The events are read oldest first and sessions are told apart by their
/// identifier alone. The result lists the sessions that were stopped, in
/// the order of their stops, and then those still running. Fails where a
/// running session is started again.
pub fn window_sessions(events: &Vec<TaskEvent>) -> (r: Result<Vec<ClippedSession>, Error>)
    ensures
        match r {
            Ok(found) => window_spec(events.deep_view()) == Some(found.deep_view()),
            Err(Error::Restarted) => window_spec(events.deep_view()) is None,
            Err(Error::A) => false,
        },
{
    let ghost oldest = events.deep_view().reverse();
    let n: usize = events.len();
    let mut partial: Vec<ClippedSession> = Vec::new();
    let mut done: Vec<ClippedSession> = Vec::new();
    let mut k: usize = 0;
    assert(oldest.take(0) =~= Seq::<EventView>::empty());
    assert(partial.deep_view() =~= Seq::<ClippedView>::empty());
    assert(done.deep_view() =~= Seq::<ClippedView>::empty());
    while k < n
        invariant
            k <= n,
            n == events.len(),
            oldest == events.deep_view().reverse(),
            tally(oldest.take(k as int)) == Some(
                Tally { partial: partial.deep_view(), done: done.deep_view() },
            ),
        decreases n - k,
    {
        let e = &events[n - 1 - k];
        let ghost t = Tally { partial: partial.deep_view(), done: done.deep_view() };
        proof {
            assert(oldest.take(k + 1).drop_last() =~= oldest.take(k as int));
            assert(oldest.take(k + 1).last() == e@);
            assert(tally(oldest.take(k + 1)) == tally_step(t, e@));
        }
        let found = find_partial(&partial, e.session.as_str());
        match e.state {
            TaskState::Started => {
                match found {
                    Some(_) => {
                        proof {
                            lemma_tally_fails_for_good(oldest, k + 1);
                        }
                        return Err(Error::Restarted);
                    },
                    None => {
                        partial.push(open_with(e, false));
                        assert(partial.deep_view() =~= t.partial.push(opened_by(e@, false)));
                    },
                }
            },
            TaskState::Paused | TaskState::Resumed => {
                match found {
                    Some(p) => {
                        let c = partial.remove(p);
                        let longer = extend_with(c, e);
                        partial.insert(p, longer);
                        assert(partial.deep_view() =~= t.partial.update(
                            p as int,
                            extended_by(t.partial[p as int], e@),
                        ));
                    },
                    None => {
                        partial.push(open_with(e, false));
                        assert(partial.deep_view() =~= t.partial.push(opened_by(e@, false)));
                    },
                }
            },
            TaskState::Stopped => {
                match found {
                    Some(p) => {
                        let c = partial.swap_remove(p);
                        assert(partial.deep_view() =~= t.partial.update(
                            p as int,
                            t.partial.last(),
                        ).drop_last());
                        done.push(extend_with(c, e));
                        assert(done.deep_view() =~= t.done.push(
                            extended_by(t.partial[p as int], e@),
                        ));
                    },
                    None => {
                        done.push(open_with(e, true));
                        assert(done.deep_view() =~= t.done.push(opened_by(e@, true)));
                    },
                }
            },
        }
        k += 1;
    }
    assert(oldest.take(n as int) =~= oldest);
    let ghost t = Tally { partial: partial.deep_view(), done: done.deep_view() };
    let ghost m = t.partial.len();
    while partial.len() > 0
        invariant
            partial.len() <= m,
            m == t.partial.len(),
            forall|j: int| 0 <= j < partial.len() ==> (#[trigger] partial[j])@ == t.partial[j],
            done.len() == t.done.len() + (m - partial.len()),
            forall|j: int| 0 <= j < t.done.len() ==> (#[trigger] done[j])@ == t.done[j],
            forall|j: int|
                t.done.len() <= j < done.len() ==> (#[trigger] done[j])@ == left_open(
                    t.partial[m - 1 - (j - t.done.len())],
                ),
        decreases partial.len(),
    {
        match partial.pop() {
            Some(c) => {
                let c = ClippedSession {
                    session: c.session,
                    starts_before: c.starts_before,
                    ends_after: true,
                };
                done.push(c);
            },
            None => {},
        }
    }
    assert(done.deep_view() =~= closed_off(t));
    Ok(done)
}

/// Whether `e` is an event of kind `state` at `time` in session `id`;
/// about what names it and its task nothing is said.
pub open spec fn made_up(e: EventView, state: TaskState, time: i64, id: Seq<char>) -> bool {
    e.state == state && e.time == time && e.session == id
}

/// Whether `s` is the clipped session `c` made whole: with a start at
/// `from` as its oldest event where `c` starts before what was read, and a
/// stop at `to` as its newest where `c` has no stop.
pub open spec fn made_whole(c: ClippedView, from: i64, to: i64, s: SessionView) -> bool {
    let lead: int = if c.starts_before { 1 } else { 0 };
    let tail: int = if c.ends_after { 1 } else { 0 };
    &&& s.id == c.session.id
    &&& s.name == c.session.name
    &&& s.events.len() == lead + c.session.events.len() + tail
    &&& s.events.subrange(lead, lead + c.session.events.len()) == c.session.events
    &&& c.starts_before ==> made_up(s.events[0], TaskState::Started, from, s.id)
    &&& c.ends_after ==> made_up(s.events.last(), TaskState::Stopped, to, s.id)
}

/// Whether `sessions` are the clipped sessions `clipped`, each made whole.
pub open spec fn all_made_whole(
    clipped: Seq<ClippedView>,
    from: i64,
    to: i64,
    sessions: Seq<SessionView>,
) -> bool {
    &&& sessions.len() == clipped.len()
    &&& forall|k: int|
        0 <= k < clipped.len() ==> made_whole(
            #[trigger] clipped[k],
            from,
            to,
            sessions[k],
        )
}

/// The session `c` made whole for the window from `from` to `to`. The
/// events that are made up carry fresh identifiers, also for a name.
pub fn make_whole(c: &ClippedSession, from: i64, to: i64) -> (r: TaskSession)
    ensures
        made_whole(c@, from, to, r@),
{
    let mut events: Vec<TaskEvent> = Vec::new();
    if c.starts_before {
        events.push(
            TaskEvent::new(new_id(), Some(c.session.id.clone()), Some(from), TaskState::Started),
        );
    }
    let lead: usize = events.len();
    let inner = &c.session.events;
    let mut i: usize = 0;
    while i < inner.len()
        invariant
            i <= inner.len(),
            lead <= 1,
            lead == (if c.starts_before { 1int } else { 0int }),
            inner == &c.session.events,
            events.len() == lead + i,
            c.starts_before ==> made_up(events[0]@, TaskState::Started, from, c.session.id@),
            forall|k: int| lead <= k < lead + i ==> (#[trigger] events[k])@ == inner[k - lead]@,
        decreases inner.len() - i,
    {
        events.push(inner[i].clone());
        i += 1;
    }
    if c.ends_after {
        events.push(
            TaskEvent::new(new_id(), Some(c.session.id.clone()), Some(to), TaskState::Stopped),
        );
    }
    let r = TaskSession { id: c.session.id.clone(), name: c.session.name.clone(), events };
    assert(r@.events.subrange(lead as int, lead + c@.session.events.len()) =~= c@.session.events);
    r
}

/// Sums up `events`, given newest first, as whole sessions within the
/// window of `opts`.
///
/// The events are grouped as [`window_sessions`] says. A session that was
/// stopped without an earlier event being read gets a start at the
/// beginning of the window; one that is still running gets a stop at its
/// end. Each session holds its events oldest first. Fails where a running
/// session is started again.
pub fn event_stats(events: Vec<TaskEvent>, opts: &EventStatOpts) -> (r: Result<
    Vec<TaskSession>,
    Error,
>)
    ensures
        match r {
            Ok(sessions) => window_spec(events.deep_view()) matches Some(clipped)
                && all_made_whole(clipped, opts.from, opts.to, sessions.deep_view()),
            Err(Error::Restarted) => window_spec(events.deep_view()) is None,
            Err(Error::A) => false,
        },
{
    let clipped = match window_sessions(&events) {
        Ok(clipped) => clipped,
        Err(e) => {
            return Err(e);
        },
    };
    let mut out: Vec<TaskSession> = Vec::new();
    let mut k: usize = 0;
    while k < clipped.len()
        invariant
            k <= clipped.len(),
            out.len() == k,
            forall|j: int|
                0 <= j < k ==> made_whole(
                    #[trigger] clipped.deep_view()[j],
                    opts.from,
                    opts.to,
                    out.deep_view()[j],
                ),
        decreases clipped.len() - k,
    {
        let whole = make_whole(&clipped[k], opts.from, opts.to);
        out.push(whole);
        k += 1;
    }
    Ok(out)
}

} // verus!
