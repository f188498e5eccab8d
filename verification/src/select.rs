//! Choosing the sessions a command applies to.

use vstd::prelude::*;
use crate::task_session::{SessionView, TaskSession};
use crate::text::{ends_with, is_suffix, same_text};

verus! {

/// What a selector picks among the candidate sessions.
#[derive(Debug, PartialEq, Eq)]
pub enum Selection {
    /// The sessions to act on: one, or all candidates.
    Targets(Vec<TaskSession>),
    /// No candidate fits.
    Nothing,
    /// Several candidates fit and the selector does not say which.
    Ambiguous(Vec<TaskSession>),
}

/// A [`Selection`] over session views.
pub enum SelectionView {
    Targets(Seq<SessionView>),
    Nothing,
    Ambiguous(Seq<SessionView>),
}

impl View for Selection {
    type V = SelectionView;

    open spec fn view(&self) -> SelectionView {
        match self {
            Selection::Targets(sessions) => SelectionView::Targets(sessions.deep_view()),
            Selection::Nothing => SelectionView::Nothing,
            Selection::Ambiguous(sessions) => SelectionView::Ambiguous(sessions.deep_view()),
        }
    }
}

/// An identifier names a session by the task's name, in full, or by the end
/// of the session's own identifier.
pub open spec fn identifies(identifier: Seq<char>, session: SessionView) -> bool {
    session.name == identifier || is_suffix(identifier, session.id)
}

/// The predicate "is named by `identifier`".
pub open spec fn identified_by(identifier: Seq<char>) -> spec_fn(SessionView) -> bool {
    |session: SessionView| identifies(identifier, session)
}

/// The outcome of a selector on `candidates`.
///
/// With an identifier, the candidates it names are taken: none is nothing,
/// one is the target, more are ambiguous whatever `all` says. Without one,
/// a single candidate is the target, and several are targets only if `all`
/// is set.
pub open spec fn select_spec(
    candidates: Seq<SessionView>,
    identifier: Option<Seq<char>>,
    all: bool,
) -> SelectionView {
    match identifier {
        Some(text) => {
            let named = candidates.filter(identified_by(text));
            if named.len() == 0 {
                SelectionView::Nothing
            } else if named.len() == 1 {
                SelectionView::Targets(named)
            } else {
                SelectionView::Ambiguous(named)
            }
        },
        None => {
            if candidates.len() == 0 {
                SelectionView::Nothing
            } else if candidates.len() == 1 || all {
                SelectionView::Targets(candidates)
            } else {
                SelectionView::Ambiguous(candidates)
            }
        },
    }
}

/// The candidates that `identifier` names, in their order.
pub fn named_by(candidates: &Vec<TaskSession>, identifier: &str) -> (r: Vec<TaskSession>)
    ensures
        r.deep_view() == candidates.deep_view().filter(identified_by(identifier@)),
{
    let ghost all = candidates.deep_view();
    let ghost wanted = identified_by(identifier@);
    let mut out: Vec<TaskSession> = Vec::new();
    let mut i: usize = 0;
    assert(all.take(0) =~= Seq::<SessionView>::empty());
    assert(out.deep_view() =~= all.take(0).filter(wanted)) by {
        reveal(Seq::filter);
    }
    while i < candidates.len()
        invariant
            i <= candidates.len(),
            all == candidates.deep_view(),
            wanted == identified_by(identifier@),
            out.deep_view() == all.take(i as int).filter(wanted),
        decreases candidates.len() - i,
    {
        let session = &candidates[i];
        proof {
            assert(all.take(i as int).push(all[i as int]) =~= all.take(i + 1));
            all.take(i as int).lemma_filter_push(all[i as int], wanted);
            assert(all[i as int] == session@);
        }
        if same_text(session.name.as_str(), identifier) || ends_with(
            session.id.as_str(),
            identifier,
        ) {
            let ghost before = out.deep_view();
            let copy = session.clone();
            out.push(copy);
            assert(out.deep_view() =~= before.push(session@));
        }
        i += 1;
    }
    assert(all.take(candidates.len() as int) =~= all);
    out
}

/// Resolves a selector against the candidate sessions.
pub fn select(candidates: Vec<TaskSession>, identifier: &Option<String>, all: bool) -> (r:
    Selection)
    ensures
        r@ == select_spec(candidates.deep_view(), identifier.deep_view(), all),
{
    match identifier {
        Some(text) => {
            let named = named_by(&candidates, text.as_str());
            if named.len() == 0 {
                Selection::Nothing
            } else if named.len() == 1 {
                Selection::Targets(named)
            } else {
                Selection::Ambiguous(named)
            }
        },
        None => {
            if candidates.len() == 0 {
                Selection::Nothing
            } else if candidates.len() == 1 || all {
                Selection::Targets(candidates)
            } else {
                Selection::Ambiguous(candidates)
            }
        },
    }
}

} // verus!
