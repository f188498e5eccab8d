//! Sessions: the events of one run of a task, and what they add up to.

use vstd::prelude::*;
use crate::clock::now;
use crate::task_event::{copy_events, EventView, TaskEvent};
use crate::task_state::{is_legal_step, is_running, legal_step, TaskState};

verus! {

/// One continuous run of a task, rebuilt from the log. `events` holds the
/// session's events oldest first: its timeline.
#[derive(Debug, PartialEq, Eq)]
pub struct TaskSession {
    pub id: String,
    pub name: String,
    pub events: Vec<TaskEvent>,
}

/// A session with its texts as sequences of characters.
pub struct SessionView {
    pub id: Seq<char>,
    pub name: Seq<char>,
    /// Oldest first, as in [`TaskSession`].
    pub events: Seq<EventView>,
}

impl View for TaskSession {
    type V = SessionView;

    open spec fn view(&self) -> SessionView {
        SessionView { id: self.id@, name: self.name@, events: self.events.deep_view() }
    }
}

impl DeepView for TaskSession {
    type V = SessionView;

    open spec fn deep_view(&self) -> SessionView {
        self@
    }
}

impl Clone for TaskSession {
    fn clone(&self) -> (r: Self)
        ensures
            r@ == self@,
    {
        TaskSession {
            id: self.id.clone(),
            name: self.name.clone(),
            events: copy_events(&self.events),
        }
    }
}

/// The elapsed and paused time of a session, in nanoseconds.
#[derive(Debug, Clone, Copy, PartialEq, Eq, Structural)]
pub struct SessionTimes {
    pub elapsed: i128,
    pub paused: i128,
}

/// A span of time as it is shown: whole hours, and the whole minutes
/// beyond them.
#[derive(Debug, Clone, Copy, PartialEq, Eq, Structural)]
pub struct HoursMinutes {
    pub hours: i128,
    pub minutes: i128,
}

/// What a line about a session shows.
#[derive(Debug, Clone, Copy, PartialEq, Eq)]
pub struct SessionSummary {
    /// The state of the newest event.
    pub state: TaskState,
    /// Elapsed time.
    pub elapsed: HoursMinutes,
    /// Paused time; none where the session was never paused for any time.
    pub paused: Option<HoursMinutes>,
}

/// A span of nanoseconds as it is shown, both parts counted towards zero.
pub open spec fn shown(span: int) -> HoursMinutes {
    HoursMinutes { hours: whole_hours(span) as i128, minutes: odd_minutes(span) as i128 }
}

/// The summary of `timeline` in state `state` as of `now`.
pub open spec fn summary_of(
    timeline: Seq<EventView>,
    state: TaskState,
    now: i64,
) -> SessionSummary {
    SessionSummary {
        state,
        elapsed: shown(elapsed_at(timeline, now)),
        paused: if paused_at(timeline, now) == 0 {
            None
        } else {
            Some(shown(paused_at(timeline, now)))
        },
    }
}

/// The events of a session do not form a legal timeline, so no duration can
/// be read from them.
#[derive(Debug, Clone, Copy, PartialEq, Eq, Structural)]
pub struct CorruptSession {
    /// Position, counted from the oldest event, of the first event that may
    /// not stand where it does.
    pub at: usize,
}

/// Whether the event at `i + 1` may follow the event at `i`: the kinds
/// agree with the rules, and time does not run backwards.
pub open spec fn step_ok(timeline: Seq<EventView>, i: int) -> bool {
    legal_step(timeline[i].state, timeline[i + 1].state) && timeline[i].time <= timeline[i
        + 1].time
}

/// Whether the event at position `i` may stand there.
pub open spec fn event_ok(timeline: Seq<EventView>, i: int) -> bool {
    if i == 0 {
        timeline[0].state == TaskState::Started
    } else {
        step_ok(timeline, i - 1)
    }
}

/// A legal timeline, oldest event first: it opens with `Started`, every
/// event may follow the one before it, and so a `Stopped` can only be last.
pub open spec fn valid_timeline(timeline: Seq<EventView>) -> bool {
    forall|i: int| 0 <= i < timeline.len() ==> #[trigger] event_ok(timeline, i)
}

/// Time between the last two events of `timeline` if the earlier of them
/// satisfies `counts`, else nothing.
pub open spec fn last_interval(
    timeline: Seq<EventView>,
    counts: spec_fn(TaskState) -> bool,
) -> int {
    let n = timeline.len() as int;
    if n >= 2 && counts(timeline[n - 2].state) {
        timeline[n - 1].time - timeline[n - 2].time
    } else {
        0
    }
}

/// Sum of the intervals between neighbouring events whose earlier event
/// satisfies `counts`.
pub open spec fn closed_time(timeline: Seq<EventView>, counts: spec_fn(TaskState) -> bool) -> int
    decreases timeline.len(),
{
    if timeline.len() < 2 {
        0
    } else {
        closed_time(timeline.drop_last(), counts) + last_interval(timeline, counts)
    }
}

/// Time from the newest event to `now` if that event satisfies `counts`.
pub open spec fn open_time(
    timeline: Seq<EventView>,
    counts: spec_fn(TaskState) -> bool,
    now: i64,
) -> int {
    if timeline.len() > 0 && counts(timeline.last().state) {
        now - timeline.last().time
    } else {
        0
    }
}

/// Whether a session in this state is on a break.
pub open spec fn is_break(state: TaskState) -> bool {
    state == TaskState::Paused
}

/// Time worked: every interval that begins with `Started` or `Resumed`,
/// the one still open at `now` included.
pub open spec fn elapsed_at(timeline: Seq<EventView>, now: i64) -> int {
    closed_time(timeline, |s: TaskState| is_running(s)) + open_time(
        timeline,
        |s: TaskState| is_running(s),
        now,
    )
}

/// Time on break: every interval that begins with `Paused`, the one still
/// open at `now` included.
pub open spec fn paused_at(timeline: Seq<EventView>, now: i64) -> int {
    closed_time(timeline, |s: TaskState| is_break(s)) + open_time(
        timeline,
        |s: TaskState| is_break(s),
        now,
    )
}

impl SessionView {
    /// A session is ongoing while none of its events is a stop.
    pub open spec fn is_ongoing(self) -> bool {
        forall|i: int| 0 <= i < self.events.len() ==> (#[trigger] self.events[i]).state
            != TaskState::Stopped
    }

    /// A session is paused when its newest event is a pause.
    pub open spec fn is_paused(self) -> bool {
        self.events.len() > 0 && self.events.last().state == TaskState::Paused
    }

    /// The state of the newest event; a session without events counts as
    /// stopped.
    pub open spec fn state(self) -> TaskState {
        if self.events.len() > 0 {
            self.events.last().state
        } else {
            TaskState::Stopped
        }
    }
}

/// Whether `at` is the first position of `timeline` whose event may not
/// stand there.
pub open spec fn first_fault(timeline: Seq<EventView>, at: int) -> bool {
    &&& 0 <= at < timeline.len()
    &&& !event_ok(timeline, at)
    &&& forall|i: int| 0 <= i < at ==> #[trigger] event_ok(timeline, i)
}

/// Whether `times` are the elapsed and the paused time of `timeline` as of
/// `now`.
pub open spec fn times_at(timeline: Seq<EventView>, now: i64, times: SessionTimes) -> bool {
    times.elapsed == elapsed_at(timeline, now) && times.paused == paused_at(timeline, now)
}

/// Whether `times` are the elapsed and the paused time of `timeline` as of
/// some moment.
pub open spec fn times_at_some_moment(timeline: Seq<EventView>, times: SessionTimes) -> bool {
    exists|now: i64| #[trigger] times_at(timeline, now, times)
}

/// Whole hours in a span of nanoseconds, counted towards zero.
pub open spec fn whole_hours(span: int) -> int {
    if span >= 0 {
        span / 3_600_000_000_000
    } else {
        -((-span) / 3_600_000_000_000)
    }
}

/// Whole minutes beyond the last whole hour in a span of nanoseconds,
/// counted towards zero; negative for a negative span.
pub open spec fn odd_minutes(span: int) -> int {
    if span >= 0 {
        (span / 60_000_000_000) % 60
    } else {
        -(((-span) / 60_000_000_000) % 60)
    }
}

/// In a legal timeline the intervals counted as work and those counted as
/// break are each non-negative and together span the time from the first
/// event to the last.
pub proof fn lemma_closed_times(timeline: Seq<EventView>)
    requires
        valid_timeline(timeline),
        timeline.len() > 0,
    ensures
        0 <= closed_time(timeline, |s: TaskState| is_running(s)),
        0 <= closed_time(timeline, |s: TaskState| is_break(s)),
        closed_time(timeline, |s: TaskState| is_running(s)) + closed_time(
            timeline,
            |s: TaskState| is_break(s),
        ) == timeline.last().time - timeline[0].time,
    decreases timeline.len(),
{
    let n = timeline.len() as int;
    if n >= 2 {
        let rest = timeline.drop_last();
        assert forall|i: int| 0 <= i < rest.len() implies #[trigger] event_ok(rest, i) by {
            assert(event_ok(timeline, i));
        }
        lemma_closed_times(rest);
        assert(event_ok(timeline, n - 1));
    }
}

impl TaskSession {
    /// Whether the newest event is a pause.
    pub fn is_paused(&self) -> (r: bool)
        ensures
            r == self@.is_paused(),
    {
        let n: usize = self.events.len();
        n > 0 && self.events[n - 1].state == TaskState::Paused
    }

    /// The state of the newest event, `Stopped` if there is none.
    pub fn state(&self) -> (r: TaskState)
        ensures
            r == self@.state(),
    {
        let n: usize = self.events.len();
        if n > 0 {
            self.events[n - 1].state
        } else {
            TaskState::Stopped
        }
    }

    /// Whether no event of the session is a stop.
    pub fn is_ongoing(&self) -> (r: bool)
        ensures
            r == self@.is_ongoing(),
    {
        let mut i: usize = 0;
        while i < self.events.len()
            invariant
                i <= self.events.len(),
                forall|k: int| 0 <= k < i ==> (#[trigger] self@.events[k]).state
                    != TaskState::Stopped,
            decreases self.events.len() - i,
        {
            if self.events[i].state == TaskState::Stopped {
                assert(self@.events[i as int].state == TaskState::Stopped);
                return false;
            }
            i += 1;
        }
        true
    }

    /// Elapsed and paused time of the session as of the clock's reading.
    /// See [`TaskSession::get_times_at`].
    pub fn get_times(&self) -> (r: Result<SessionTimes, CorruptSession>)
        ensures
            match r {
                Ok(times) => valid_timeline(self@.events) && times_at_some_moment(
                    self@.events,
                    times,
                ),
                Err(e) => first_fault(self@.events, e.at as int),
            },
    {
        let now = now();
        let r = self.get_times_at(now);
        proof {
            if r is Ok {
                assert(times_at(self@.events, now, r->Ok_0));
            }
        }
        r
    }

    /// What a line about the session shows as of `now`: its state, its
    /// elapsed time, and its paused time unless that is nothing.
    pub fn summary_at(&self, now: i64) -> (r: Result<SessionSummary, CorruptSession>)
        ensures
            match r {
                Ok(summary) => valid_timeline(self@.events) && summary == summary_of(
                    self@.events,
                    self@.state(),
                    now,
                ),
                Err(e) => first_fault(self@.events, e.at as int),
            },
    {
        let times = match self.get_times_at(now) {
            Ok(times) => times,
            Err(e) => {
                return Err(e);
            },
        };
        let paused: Option<HoursMinutes> = if times.paused == 0 {
            None
        } else {
            Some(times.paused_hours_minutes())
        };
        Ok(SessionSummary { state: self.state(), elapsed: times.elapsed_hours_minutes(), paused })
    }

    /// What a line about the session shows as of the clock's reading.
    pub fn summary(&self) -> (r: Result<SessionSummary, CorruptSession>)
        ensures
            match r {
                Ok(summary) => valid_timeline(self@.events) && exists|now: i64|
                    summary == #[trigger] summary_of(self@.events, self@.state(), now),
                Err(e) => first_fault(self@.events, e.at as int),
            },
    {
        self.summary_at(now())
    }

    /// Elapsed and paused time of the session as of `now`.
    ///
    /// Time after `Started` or `Resumed` counts as elapsed, time after
    /// `Paused` as paused; the interval after the newest event runs to `now`
    /// unless that event is a stop. A session whose events are no legal
    /// timeline has no durations: the error names the first event that is
    /// out of place.
    pub fn get_times_at(&self, now: i64) -> (r: Result<SessionTimes, CorruptSession>)
        ensures
            match r {
                Ok(times) => valid_timeline(self@.events) && times_at(
                    self@.events,
                    now,
                    times,
                ),
                Err(e) => first_fault(self@.events, e.at as int),
            },
    {
        let n: usize = self.events.len();
        let ghost timeline = self@.events;
        let ghost running = |s: TaskState| is_running(s);
        let ghost on_break = |s: TaskState| is_break(s);
        if n == 0 {
            return Ok(SessionTimes { elapsed: 0, paused: 0 });
        }
        if self.events[0].state != TaskState::Started {
            assert(!event_ok(timeline, 0));
            return Err(CorruptSession { at: 0 });
        }
        let mut elapsed: i128 = 0;
        let mut paused: i128 = 0;
        let mut k: usize = 1;
        assert(event_ok(timeline, 0));
        while k < n
            invariant
                1 <= k <= n,
                n == self.events.len(),
                timeline == self@.events,
                running == (|s: TaskState| is_running(s)),
                on_break == (|s: TaskState| is_break(s)),
                forall|i: int| 0 <= i < k ==> #[trigger] event_ok(timeline, i),
                elapsed == closed_time(timeline.take(k as int), running),
                paused == closed_time(timeline.take(k as int), on_break),
                0 <= elapsed,
                0 <= paused,
                elapsed + paused == timeline[k - 1].time - timeline[0].time,
            decreases n - k,
        {
            let prev = &self.events[k - 1];
            let next = &self.events[k];
            assert(prev@ == timeline[k - 1]);
            assert(next@ == timeline[k as int]);
            if !is_legal_step(prev.state, next.state) || prev.time > next.time {
                assert(!event_ok(timeline, k as int));
                return Err(CorruptSession { at: k });
            }
            assert(event_ok(timeline, k as int));
            let gap: i128 = next.time as i128 - prev.time as i128;
            proof {
                let longer = timeline.take(k + 1);
                assert(longer.drop_last() =~= timeline.take(k as int));
                assert(longer[k - 1] == timeline[k - 1]);
                assert(longer[k as int] == timeline[k as int]);
            }
            if prev.state == TaskState::Paused {
                paused = paused + gap;
            } else {
                elapsed = elapsed + gap;
            }
            k += 1;
        }
        assert(timeline.take(n as int) =~= timeline);
        let last = &self.events[n - 1];
        assert(last@ == timeline.last());
        let rest: i128 = now as i128 - last.time as i128;
        match last.state {
            TaskState::Started | TaskState::Resumed => {
                elapsed = elapsed + rest;
            },
            TaskState::Paused => {
                paused = paused + rest;
            },
            TaskState::Stopped => {},
        }
        Ok(SessionTimes { elapsed, paused })
    }
}

impl SessionTimes {
    /// The elapsed time as whole hours and the whole minutes beyond them.
    pub fn elapsed_hours_minutes(&self) -> (r: HoursMinutes)
        ensures
            r == shown(self.elapsed as int),
    {
        hours_minutes(self.elapsed)
    }

    /// The paused time as whole hours and the whole minutes beyond them.
    pub fn paused_hours_minutes(&self) -> (r: HoursMinutes)
        ensures
            r == shown(self.paused as int),
    {
        hours_minutes(self.paused)
    }
}

/// The size of a negative span divided by `unit`, rounded down.
fn size_in_units(span: i128, unit: i128) -> (r: i128)
    requires
        span < 0,
        unit > 1,
    ensures
        r == (-span) / (unit as int),
        0 <= r <= i128::MAX,
{
    let below: i128 = -(span + 1);
    let whole: i128 = below / unit;
    let left: i128 = below % unit;
    assert(below == whole * unit + left && 0 <= left < unit) by (nonlinear_arith)
        requires
            whole == below / unit,
            left == below % unit,
            unit > 1,
            below >= 0,
    ;
    if left == unit - 1 {
        assert((below + 1) / (unit as int) == whole + 1) by (nonlinear_arith)
            requires
                below == whole * unit + left,
                left == unit - 1,
                unit > 1,
        ;
        assert(whole < below) by (nonlinear_arith)
            requires
                below == whole * unit + left,
                left == unit - 1,
                unit > 1,
                whole >= 0,
        ;
        whole + 1
    } else {
        assert((below + 1) / (unit as int) == whole) by (nonlinear_arith)
            requires
                below == whole * unit + left,
                0 <= left < unit - 1,
                unit > 1,
        ;
        whole
    }
}

/// A span of nanoseconds as whole hours and the whole minutes beyond them,
/// both counted towards zero.
pub fn hours_minutes(span: i128) -> (r: HoursMinutes)
    ensures
        r == shown(span as int),
{
    if span >= 0 {
        HoursMinutes { hours: span / 3_600_000_000_000, minutes: (span / 60_000_000_000) % 60 }
    } else {
        let hours: i128 = size_in_units(span, 3_600_000_000_000);
        let minutes: i128 = size_in_units(span, 60_000_000_000);
        HoursMinutes { hours: -hours, minutes: -(minutes % 60) }
    }
}

} // verus!
