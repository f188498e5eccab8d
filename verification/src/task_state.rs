//! The four kinds of event and the rules that say which may follow which.

use vstd::prelude::*;

verus! {

/// The kind of fact an event records about a task.
#[derive(Debug, Clone, Copy, PartialEq, Eq, Structural)]
pub enum TaskState {
    Started,
    Stopped,
    Paused,
    Resumed,
}

/// What a user may ask of a task.
#[derive(Debug, Clone, Copy, PartialEq, Eq, Structural)]
pub enum Command {
    Start,
    Pause,
    Resume,
    Stop,
}

/// Why a command does not apply in the current state of a task.
#[derive(Debug, Clone, Copy, PartialEq, Eq, Structural)]
pub enum Rejection {
    /// The task has no open session.
    NoSessions,
    /// The task already has an open session.
    AlreadyOngoing,
    /// The session is running, so there is nothing to resume.
    AlreadyRunning,
    /// The session is paused already.
    AlreadyPaused,
}

/// The state a command leads to from `current`, or the reason it is refused.
/// `None` stands for a task without any session yet; a stopped session counts
/// the same, since a stop is final.
pub open spec fn transition_spec(current: Option<TaskState>, command: Command) -> Result<
    TaskState,
    Rejection,
> {
    match current {
        None | Some(TaskState::Stopped) => match command {
            Command::Start => Ok(TaskState::Started),
            _ => Err(Rejection::NoSessions),
        },
        Some(TaskState::Started) | Some(TaskState::Resumed) => match command {
            Command::Start => Err(Rejection::AlreadyOngoing),
            Command::Pause => Ok(TaskState::Paused),
            Command::Resume => Err(Rejection::AlreadyRunning),
            Command::Stop => Ok(TaskState::Stopped),
        },
        Some(TaskState::Paused) => match command {
            Command::Start => Err(Rejection::AlreadyOngoing),
            Command::Pause => Err(Rejection::AlreadyPaused),
            Command::Resume => Ok(TaskState::Resumed),
            Command::Stop => Ok(TaskState::Stopped),
        },
    }
}

/// Whether an event of kind `next` may directly follow one of kind `prev`
/// within one session.
pub open spec fn legal_step(prev: TaskState, next: TaskState) -> bool {
    match prev {
        TaskState::Started | TaskState::Resumed => next == TaskState::Paused || next
            == TaskState::Stopped,
        TaskState::Paused => next == TaskState::Resumed || next == TaskState::Stopped,
        TaskState::Stopped => false,
    }
}

/// Whether time spent after an event of this kind counts as work.
pub open spec fn is_running(state: TaskState) -> bool {
    state == TaskState::Started || state == TaskState::Resumed
}

/// The text under which a state is stored and shown.
pub open spec fn state_tag(state: TaskState) -> Seq<char> {
    match state {
        TaskState::Started => "Started"@,
        TaskState::Stopped => "Stopped"@,
        TaskState::Paused => "Paused"@,
        TaskState::Resumed => "Resumed"@,
    }
}

/// Applies the transition table.
pub fn transition(current: Option<TaskState>, command: Command) -> (r: Result<TaskState, Rejection>)
    ensures
        r == transition_spec(current, command),
{
    match current {
        None | Some(TaskState::Stopped) => match command {
            Command::Start => Ok(TaskState::Started),
            _ => Err(Rejection::NoSessions),
        },
        Some(TaskState::Started) | Some(TaskState::Resumed) => match command {
            Command::Start => Err(Rejection::AlreadyOngoing),
            Command::Pause => Ok(TaskState::Paused),
            Command::Resume => Err(Rejection::AlreadyRunning),
            Command::Stop => Ok(TaskState::Stopped),
        },
        Some(TaskState::Paused) => match command {
            Command::Start => Err(Rejection::AlreadyOngoing),
            Command::Pause => Err(Rejection::AlreadyPaused),
            Command::Resume => Ok(TaskState::Resumed),
            Command::Stop => Ok(TaskState::Stopped),
        },
    }
}

/// Decides whether `next` may follow `prev` inside a session.
pub fn is_legal_step(prev: TaskState, next: TaskState) -> (r: bool)
    ensures
        r == legal_step(prev, next),
{
    match prev {
        TaskState::Started | TaskState::Resumed => next == TaskState::Paused || next
            == TaskState::Stopped,
        TaskState::Paused => next == TaskState::Resumed || next == TaskState::Stopped,
        TaskState::Stopped => false,
    }
}

/// One event may follow another exactly when some command other than
/// `Start` leads from the first state to the second.
pub proof fn law_legal_steps_are_transitions(prev: TaskState, next: TaskState)
    ensures
        legal_step(prev, next) <==> exists|c: Command|
            c != Command::Start && #[trigger] transition_spec(Some(prev), c) == Ok::<
                TaskState,
                Rejection,
            >(next),
{
    if legal_step(prev, next) {
        let c = match next {
            TaskState::Paused => Command::Pause,
            TaskState::Resumed => Command::Resume,
            _ => Command::Stop,
        };
        assert(c != Command::Start && transition_spec(Some(prev), c) == Ok::<TaskState, Rejection>(
            next,
        ));
    }
}

impl TaskState {
    /// The state's tag, as a fresh string.
    pub fn tag(&self) -> (r: String)
        ensures
            r@ == state_tag(*self),
    {
        match self {
            TaskState::Started => "Started".to_string(),
            TaskState::Stopped => "Stopped".to_string(),
            TaskState::Paused => "Paused".to_string(),
            TaskState::Resumed => "Resumed".to_string(),
        }
    }

    /// Reads a tag back. Any other text is no state.
    pub fn from_tag(text: &str) -> (r: Option<TaskState>)
        ensures
            match r {
                Some(state) => text@ == state_tag(state),
                None => forall|state: TaskState| text@ != #[trigger] state_tag(state),
            },
    {
        if crate::text::same_text(text, "Started") {
            Some(TaskState::Started)
        } else if crate::text::same_text(text, "Stopped") {
            Some(TaskState::Stopped)
        } else if crate::text::same_text(text, "Paused") {
            Some(TaskState::Paused)
        } else if crate::text::same_text(text, "Resumed") {
            Some(TaskState::Resumed)
        } else {
            None
        }
    }
}

/// No two states share a tag.
pub proof fn law_tags_tell_states_apart(a: TaskState, b: TaskState)
    ensures
        state_tag(a) == state_tag(b) ==> a == b,
{
    reveal_strlit("Started");
    reveal_strlit("Stopped");
    reveal_strlit("Paused");
    reveal_strlit("Resumed");
    if state_tag(a) == state_tag(b) && a != b {
        assert(state_tag(a)[0] == state_tag(b)[0]);
        assert(state_tag(a)[2] == state_tag(b)[2]);
        assert(state_tag(a).len() == state_tag(b).len());
    }
}

} // verus!
