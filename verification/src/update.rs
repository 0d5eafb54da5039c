//! The stream of results that the engine publishes.

use vstd::prelude::*;

use crate::observation::Endpoint;
use crate::result::{ResultEntry, ResultView};
use crate::session::{Session, SessionId, SessionView};

verus! {

#[derive(Debug)]
pub enum Update {
    /// A method reported, and the entry was appended to its session's results.
    Result {
        session: SessionId,
        /// Who opened the session.
        initiator: Endpoint,
        entry: ResultEntry,
    },
    /// A session is over, and every method that it fired has reported.
    Finalized(Session),
}

/// What an [`Update`] holds.
pub ghost enum UpdateView {
    Result { session: SessionId, initiator: Endpoint, entry: ResultView },
    Finalized(SessionView),
}

impl View for Update {
    type V = UpdateView;

    open spec fn view(&self) -> UpdateView {
        match self {
            Update::Result { session, initiator, entry } => UpdateView::Result {
                session: *session,
                initiator: *initiator,
                entry: entry@,
            },
            Update::Finalized(session) => UpdateView::Finalized(session@),
        }
    }
}

/// What a list of updates holds.
pub open spec fn update_views(list: Seq<Update>) -> Seq<UpdateView> {
    Seq::new(list.len(), |i: int| list[i]@)
}

} // verus!
