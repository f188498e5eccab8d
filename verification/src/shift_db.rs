//! The event log.

use vstd::prelude::*;
use crate::reconstruct::{ongoing, ongoing_sessions};
use crate::task_event::{EventView, TaskEvent};
use crate::task_session::TaskSession;
use crate::task_state::TaskState;

verus! {

/// The predicate "strictly later than `t`".
pub open spec fn later_than(t: i64) -> spec_fn(EventView) -> bool {
    |e: EventView| e.time > t
}

/// The predicate "not later than `t`".
pub open spec fn not_later_than(t: i64) -> spec_fn(EventView) -> bool {
    |e: EventView| e.time <= t
}

/// The predicate "at another time than `t`".
pub open spec fn not_at(t: i64) -> spec_fn(EventView) -> bool {
    |e: EventView| e.time != t
}

/// The order in which every query reads the log: newest event first.
pub open spec fn newest_first(log: Seq<EventView>) -> bool {
    forall|i: int, j: int| 0 <= i <= j < log.len() ==> log[i].time >= log[j].time
}

/// No two events share an identifier.
pub open spec fn distinct_ids(log: Seq<EventView>) -> bool {
    forall|i: int, j: int| 0 <= i < j < log.len() ==> log[i].id != log[j].id
}

/// What holds of every log.
pub open spec fn log_wf(log: Seq<EventView>) -> bool {
    newest_first(log) && distinct_ids(log)
}

/// Whether some event of `log` is named `id`.
pub open spec fn has_id(log: Seq<EventView>, id: Seq<char>) -> bool {
    exists|i: int| 0 <= i < log.len() && (#[trigger] log[i]).id == id
}

/// The log after `e` was recorded: `e` stands behind every later event and
/// before every event that is not later, those of its own time included.
pub open spec fn log_insert(log: Seq<EventView>, e: EventView) -> Seq<EventView> {
    log.filter(later_than(e.time)).push(e) + log.filter(not_later_than(e.time))
}

/// The log without the events of its newest timestamp.
pub open spec fn log_undo(log: Seq<EventView>) -> Seq<EventView> {
    if log.len() == 0 {
        log
    } else {
        log.filter(not_at(log[0].time))
    }
}

/// The log after each of `events` was recorded, the first of them first.
pub open spec fn insert_all(log: Seq<EventView>, events: Seq<EventView>) -> Seq<EventView>
    decreases events.len(),
{
    if events.len() == 0 {
        log
    } else {
        log_insert(insert_all(log, events.drop_last()), events.last())
    }
}

/// How many of `events`, taken in order, `log` accepts before it refuses
/// one: an event is refused when its identifier is in the log already or
/// was recorded with an earlier event of the run.
pub open spec fn accepted(log: Seq<EventView>, events: Seq<EventView>) -> nat
    decreases events.len(),
{
    if events.len() == 0 || has_id(log, events[0].id) {
        0
    } else {
        1 + accepted(log_insert(log, events[0]), events.skip(1))
    }
}

/// The event `old` with a new name, state and time. What says which event
/// it is, and of which session, stays.
pub open spec fn revised(
    old: EventView,
    name: Seq<char>,
    state: TaskState,
    time: i64,
) -> EventView {
    EventView { id: old.id, name, session: old.session, state, time }
}

/// Whether `after` is `before` with the event named `id` given a new name,
/// state and time, and moved to where its new time puts it.
pub open spec fn log_revised(
    before: Seq<EventView>,
    after: Seq<EventView>,
    id: Seq<char>,
    name: Seq<char>,
    state: TaskState,
    time: i64,
) -> bool {
    exists|i: int|
        0 <= i < before.len() && (#[trigger] before[i]).id == id && after == log_insert(
            before.remove(i),
            revised(before[i], name, state, time),
        )
}

/// A filter keeps a sequence whole when every element passes.
pub proof fn lemma_filter_keeps_all<A>(s: Seq<A>, pred: spec_fn(A) -> bool)
    requires
        forall|i: int| 0 <= i < s.len() ==> pred(#[trigger] s[i]),
    ensures
        s.filter(pred) == s,
    decreases s.len(),
{
    reveal(Seq::filter);
    if s.len() > 0 {
        lemma_filter_keeps_all(s.drop_last(), pred);
        assert(s.drop_last().push(s.last()) =~= s);
    }
}

/// A filter that the first `p` elements pass and no other keeps exactly
/// those.
pub proof fn lemma_filter_prefix<A>(s: Seq<A>, p: int, pred: spec_fn(A) -> bool)
    requires
        0 <= p <= s.len(),
        forall|i: int| 0 <= i < p ==> pred(#[trigger] s[i]),
        forall|i: int| p <= i < s.len() ==> !pred(#[trigger] s[i]),
    ensures
        s.filter(pred) == s.take(p),
{
    let head = s.take(p);
    let tail = s.skip(p);
    assert(head + tail =~= s);
    Seq::filter_distributes_over_add(head, tail, pred);
    lemma_filter_keeps_all(head, pred);
    tail.lemma_all_neg_filter_empty(pred);
    assert(head + tail.filter(pred) =~= head);
}

/// A filter that all but the first `p` elements pass keeps exactly those.
pub proof fn lemma_filter_suffix<A>(s: Seq<A>, p: int, pred: spec_fn(A) -> bool)
    requires
        0 <= p <= s.len(),
        forall|i: int| 0 <= i < p ==> !pred(#[trigger] s[i]),
        forall|i: int| p <= i < s.len() ==> pred(#[trigger] s[i]),
    ensures
        s.filter(pred) == s.skip(p),
{
    let head = s.take(p);
    let tail = s.skip(p);
    assert(head + tail =~= s);
    Seq::filter_distributes_over_add(head, tail, pred);
    lemma_filter_keeps_all(tail, pred);
    head.lemma_all_neg_filter_empty(pred);
    assert(head.filter(pred) + tail =~= tail);
}

/// Recording an event in a log read newest first puts it at the first
/// position whose event is not later.
pub proof fn lemma_insert_at(log: Seq<EventView>, e: EventView, p: int)
    requires
        newest_first(log),
        0 <= p <= log.len(),
        forall|i: int| 0 <= i < p ==> (#[trigger] log[i]).time > e.time,
        forall|i: int| p <= i < log.len() ==> (#[trigger] log[i]).time <= e.time,
    ensures
        log_insert(log, e) == log.insert(p, e),
{
    lemma_filter_prefix(log, p, later_than(e.time));
    lemma_filter_suffix(log, p, not_later_than(e.time));
    assert(log.take(p).push(e) + log.skip(p) =~= log.insert(p, e));
}

/// Recording an event keeps a log well formed, provided its identifier is
/// new.
pub proof fn lemma_insert_wf(log: Seq<EventView>, e: EventView, p: int)
    requires
        log_wf(log),
        !has_id(log, e.id),
        0 <= p <= log.len(),
        forall|i: int| 0 <= i < p ==> (#[trigger] log[i]).time > e.time,
        forall|i: int| p <= i < log.len() ==> (#[trigger] log[i]).time <= e.time,
    ensures
        log_wf(log.insert(p, e)),
{
    let after = log.insert(p, e);
    assert forall|i: int, j: int| 0 <= i <= j < after.len() implies after[i].time
        >= after[j].time by {
        let a = if i < p { i } else { i - 1 };
        let b = if j < p { j } else { j - 1 };
        if i != p && j != p {
            assert(log[a].time >= log[b].time);
        } else if i == p && j != p {
            assert(log[b].time <= e.time);
        } else if j == p && i != p {
            assert(log[a].time > e.time);
        }
    }
    assert forall|i: int, j: int| 0 <= i < j < after.len() implies after[i].id != after[j].id by {
        let a = if i < p { i } else { i - 1 };
        let b = if j < p { j } else { j - 1 };
        if i != p && j != p {
            assert(log[a].id != log[b].id);
        } else if i == p {
            assert(log[b].id != e.id);
        } else {
            assert(log[a].id != e.id);
        }
    }
}

/// The events of a task-time log, newest first. No two events share an
/// identifier.
pub struct ShiftDb {
    events: Vec<TaskEvent>,
}

/// Why the log refused an event.
#[derive(Debug, Clone, Copy, PartialEq, Eq, Structural)]
pub enum StorageError {
    /// The log already holds an event of that identifier.
    DuplicateId,
}

impl View for ShiftDb {
    type V = Seq<EventView>;

    closed spec fn view(&self) -> Seq<EventView> {
        self.events.deep_view()
    }
}

impl ShiftDb {
    #[verifier::type_invariant]
    spec fn inv(self) -> bool {
        log_wf(self.events.deep_view())
    }

    /// An empty log.
    pub fn new() -> (r: Self)
        ensures
            r@ == Seq::<EventView>::empty(),
    {
        let r = ShiftDb { events: Vec::new() };
        assert(r.events.deep_view() =~= Seq::<EventView>::empty());
        r
    }

    /// The events, newest first.
    pub fn events(&self) -> (r: &Vec<TaskEvent>)
        ensures
            r.deep_view() == self@,
            log_wf(self@),
    {
        proof {
            use_type_invariant(self);
        }
        &self.events
    }

    /// Where the event named `id` stands in the log, if it holds one.
    pub fn position_of(&self, id: &str) -> (r: Option<usize>)
        ensures
            match r {
                Some(i) => i < self@.len() && self@[i as int].id == id@,
                None => !has_id(self@, id@),
            },
    {
        let mut i: usize = 0;
        while i < self.events.len()
            invariant
                i <= self.events.len(),
                forall|k: int| 0 <= k < i ==> (#[trigger] self@[k]).id != id@,
            decreases self.events.len() - i,
        {
            if crate::text::same_text(self.events[i].id.as_str(), id) {
                assert(self@[i as int].id == id@);
                return Some(i);
            }
            i += 1;
        }
        None
    }

    /// Whether the log holds an event named `id`.
    pub fn contains_id(&self, id: &str) -> (r: bool)
        ensures
            r == has_id(self@, id@),
    {
        self.position_of(id).is_some()
    }

    /// Records `event`. The log refuses an identifier it already holds and
    /// is then left as it was.
    pub fn append(&mut self, event: TaskEvent) -> (r: Result<(), StorageError>)
        ensures
            match r {
                Ok(()) => !has_id(old(self)@, event.id@) && final(self)@ == log_insert(
                    old(self)@,
                    event@,
                ),
                Err(StorageError::DuplicateId) => has_id(old(self)@, event.id@) && final(self)@
                    == old(self)@,
            },
    {
        proof {
            use_type_invariant(&*self);
        }
        if self.contains_id(event.id.as_str()) {
            return Err(StorageError::DuplicateId);
        }
        let mut p: usize = 0;
        while p < self.events.len() && self.events[p].time > event.time
            invariant
                p <= self.events.len(),
                forall|i: int| 0 <= i < p ==> (#[trigger] self@[i]).time > event.time,
            decreases self.events.len() - p,
        {
            p += 1;
        }
        proof {
            let log = self@;
            assert forall|i: int| p <= i < log.len() implies (#[trigger] log[i]).time
                <= event.time by {
                assert(log[p as int].time >= log[i].time);
            }
            lemma_insert_at(log, event@, p as int);
            lemma_insert_wf(log, event@, p as int);
        }
        let ghost before = self@;
        let mut events: Vec<TaskEvent> = Vec::new();
        assert(events.deep_view() =~= Seq::<EventView>::empty());
        core::mem::swap(&mut self.events, &mut events);
        events.insert(p, event);
        assert(events.deep_view() =~= before.insert(p as int, event@));
        self.events = events;
        Ok(())
    }

    /// Records `events` one after another and stops at the first that the
    /// log refuses, which it hands back. The events before it stay
    /// recorded.
    pub fn record(&mut self, events: &Vec<TaskEvent>) -> (r: Result<(), TaskEvent>)
        ensures
            final(self)@ == insert_all(
                old(self)@,
                events.deep_view().take(accepted(old(self)@, events.deep_view()) as int),
            ),
            match r {
                Ok(()) => accepted(old(self)@, events.deep_view()) == events.len(),
                Err(refused) => {
                    &&& has_id(final(self)@, refused.id@)
                    &&& accepted(old(self)@, events.deep_view()) < events.len()
                    &&& refused@ == events.deep_view()[accepted(
                        old(self)@,
                        events.deep_view(),
                    ) as int]
                },
            },
    {
        let ghost all = events.deep_view();
        let ghost before = self@;
        let mut i: usize = 0;
        assert(all.skip(0) =~= all);
        while i < events.len()
            invariant
                i <= events.len(),
                all == events.deep_view(),
                before == old(self)@,
                self@ == insert_all(before, all.take(i as int)),
                accepted(before, all) == i + accepted(self@, all.skip(i as int)),
            decreases events.len() - i,
        {
            let ghost current = self@;
            proof {
                assert(all.skip(i as int)[0] == all[i as int]);
                assert(all.skip(i as int).skip(1) =~= all.skip(i + 1));
                assert(all.take(i + 1).drop_last() =~= all.take(i as int));
                assert(all.take(i + 1).last() == all[i as int]);
            }
            let event = events[i].clone();
            assert(event@ == all[i as int]);
            match self.append(event) {
                Ok(()) => {},
                Err(StorageError::DuplicateId) => {
                    let refused = events[i].clone();
                    assert(refused@ == all[i as int]);
                    assert(accepted(current, all.skip(i as int)) == 0);
                    return Err(refused);
                },
            }
            i += 1;
        }
        proof {
            assert(all.skip(events.len() as int).len() == 0);
        }
        Ok(())
    }

    /// Removes every event that carries the newest timestamp of the log and
    /// says how many there were. An empty log stays empty.
    pub fn delete_latest(&mut self) -> (r: usize)
        ensures
            final(self)@ == log_undo(old(self)@),
            r == old(self)@.len() - final(self)@.len(),
    {
        proof {
            use_type_invariant(&*self);
        }
        let n: usize = self.events.len();
        if n == 0 {
            return 0;
        }
        let newest: i64 = self.events[0].time;
        let mut k: usize = 1;
        while k < n && self.events[k].time == newest
            invariant
                1 <= k <= n,
                n == self.events.len(),
                newest == self@[0].time,
                forall|i: int| 0 <= i < k ==> (#[trigger] self@[i]).time == newest,
            decreases n - k,
        {
            k += 1;
        }
        let ghost before = self@;
        proof {
            assert forall|i: int| k <= i < before.len() implies (#[trigger] before[i]).time
                != newest by {
                assert(before[k as int].time >= before[i].time);
                assert(before[0].time >= before[k as int].time);
            }
            assert forall|i: int| 0 <= i < k implies !not_at(newest)(#[trigger] before[i]) by {}
            assert forall|i: int| k <= i < before.len() implies not_at(newest)(
                #[trigger] before[i],
            ) by {}
            lemma_filter_suffix(before, k as int, not_at(newest));
        }
        let mut events: Vec<TaskEvent> = Vec::new();
        assert(events.deep_view() =~= Seq::<EventView>::empty());
        core::mem::swap(&mut self.events, &mut events);
        let rest = events.split_off(k);
        assert(rest.deep_view() =~= before.skip(k as int));
        self.events = rest;
        k
    }

    /// Gives the event named `id` a new name, state and time. Returns
    /// whether the log holds such an event; if not, nothing changes.
    pub fn revise(&mut self, id: &str, name: String, state: TaskState, time: i64) -> (r: bool)
        ensures
            r == has_id(old(self)@, id@),
            r ==> log_revised(old(self)@, final(self)@, id@, name@, state, time),
            !r ==> final(self)@ == old(self)@,
    {
        proof {
            use_type_invariant(&*self);
        }
        let ghost before = self@;
        let i: usize = match self.position_of(id) {
            Some(i) => i,
            None => {
                return false;
            },
        };
        let mut events: Vec<TaskEvent> = Vec::new();
        assert(events.deep_view() =~= Seq::<EventView>::empty());
        core::mem::swap(&mut self.events, &mut events);
        let old_event = events.remove(i);
        let ghost rest = before.remove(i as int);
        assert(events.deep_view() =~= rest);
        let event = TaskEvent { id: old_event.id, name, session: old_event.session, state, time };
        assert(event@ == revised(before[i as int], name@, state, time));
        let mut p: usize = 0;
        while p < events.len() && events[p].time > time
            invariant
                p <= events.len(),
                rest == events.deep_view(),
                forall|k: int| 0 <= k < p ==> (#[trigger] rest[k]).time > time,
            decreases events.len() - p,
        {
            p += 1;
        }
        proof {
            assert forall|a: int, b: int| 0 <= a <= b < rest.len() implies rest[a].time
                >= rest[b].time by {
                let a2 = if a < i { a } else { a + 1 };
                let b2 = if b < i { b } else { b + 1 };
                assert(before[a2].time >= before[b2].time);
            }
            assert forall|a: int, b: int| 0 <= a < b < rest.len() implies rest[a].id
                != rest[b].id by {
                let a2 = if a < i { a } else { a + 1 };
                let b2 = if b < i { b } else { b + 1 };
                assert(before[a2].id != before[b2].id);
            }
            assert(!has_id(rest, event@.id)) by {
                if has_id(rest, event@.id) {
                    let k = choose|k: int| 0 <= k < rest.len() && (#[trigger] rest[k]).id == id@;
                    let k2 = if k < i { k } else { k + 1 };
                    assert(before[k2].id == before[i as int].id);
                    if k2 < i {
                        assert(before[k2].id != before[i as int].id);
                    } else {
                        assert(before[i as int].id != before[k2].id);
                    }
                }
            }
            assert forall|k: int| p <= k < rest.len() implies (#[trigger] rest[k]).time <= time by {
                assert(rest[p as int].time >= rest[k].time);
            }
            lemma_insert_at(rest, event@, p as int);
            lemma_insert_wf(rest, event@, p as int);
        }
        events.insert(p, event);
        assert(events.deep_view() =~= rest.insert(p as int, event@));
        self.events = events;
        true
    }

    /// The ongoing sessions: those without a stop, the one whose newest
    /// event is oldest first, each with its events oldest first.
    pub fn ongoing_sessions(&self) -> (r: Vec<TaskSession>)
        ensures
            r.deep_view() == ongoing_sessions(self@),
    {
        ongoing(&self.events)
    }
}

} // verus!
