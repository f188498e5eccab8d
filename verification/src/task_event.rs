//! The immutable facts of the log.

use vstd::prelude::*;
use crate::clock::time_or_now;
use crate::ident::new_id;
use crate::task_state::TaskState;

verus! {

/// One recorded fact: task `name`, in session `session`, entered `state` at
/// `time` (nanoseconds since the Unix epoch). `id` names the event itself.
#[derive(Debug, PartialEq, Eq)]
pub struct TaskEvent {
    pub id: String,
    pub name: String,
    pub session: String,
    pub state: TaskState,
    pub time: i64,
}

/// What an event says, with its texts as sequences of characters.
pub struct EventView {
    pub id: Seq<char>,
    pub name: Seq<char>,
    pub session: Seq<char>,
    pub state: TaskState,
    pub time: i64,
}

impl View for TaskEvent {
    type V = EventView;

    open spec fn view(&self) -> EventView {
        EventView {
            id: self.id@,
            name: self.name@,
            session: self.session@,
            state: self.state,
            time: self.time,
        }
    }
}

impl DeepView for TaskEvent {
    type V = EventView;

    open spec fn deep_view(&self) -> EventView {
        self@
    }
}

impl Clone for TaskEvent {
    fn clone(&self) -> (r: Self)
        ensures
            r == *self,
    {
        TaskEvent {
            id: self.id.clone(),
            name: self.name.clone(),
            session: self.session.clone(),
            state: self.state,
            time: self.time,
        }
    }
}

impl TaskEvent {
    /// A new event under a fresh identifier: in the given session, or the
    /// first of a fresh session; at the given time, or now.
    pub fn new(name: String, session: Option<String>, time: Option<i64>, state: TaskState) -> (r:
        Self)
        ensures
            r.name == name,
            r.state == state,
            session matches Some(id) ==> r.session == id,
            time matches Some(t) ==> r.time == t,
    {
        let session = match session {
            Some(id) => id,
            None => new_id(),
        };
        TaskEvent { id: new_id(), name, session, state, time: time_or_now(time) }
    }

    /// The last eight characters of the identifier, by which an event is
    /// shown; none where the identifier is shorter.
    pub fn short_id(&self) -> (r: Option<String>)
        ensures
            match r {
                Some(tail) => self.id@.len() >= 8 && tail@ == self.id@.subrange(
                    self.id@.len() - 8,
                    self.id@.len() as int,
                ),
                None => self.id@.len() < 8,
            },
    {
        let id = self.id.as_str();
        let length: usize = id.unicode_len();
        if length < 8 {
            None
        } else {
            Some(id.substring_char(length - 8, length).to_owned())
        }
    }

    /// Builds an event from its five parts.
    pub fn from_parts(id: String, name: String, session: String, state: TaskState, time: i64) -> (r:
        Self)
        ensures
            r.id == id,
            r.name == name,
            r.session == session,
            r.state == state,
            r.time == time,
    {
        TaskEvent { id, name, session, state, time }
    }
}

/// A copy of each event of `events`, in the same order.
pub fn copy_events(events: &Vec<TaskEvent>) -> (r: Vec<TaskEvent>)
    ensures
        r@ == events@,
{
    let mut out: Vec<TaskEvent> = Vec::new();
    let mut i: usize = 0;
    while i < events.len()
        invariant
            i <= events.len(),
            out@ == events@.take(i as int),
        decreases events.len() - i,
    {
        out.push(events[i].clone());
        assert(events@.take(i as int).push(events@[i as int]) =~= events@.take(i + 1));
        i += 1;
    }
    assert(events@.take(events.len() as int) =~= events@);
    out
}

} // verus!
