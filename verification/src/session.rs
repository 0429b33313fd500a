//! The per-connection session: control-message dispatch and the delete
//! flow.
//!
//! The session keeps the root path and the client's current directory. It
//! turns each inbound control message into the action the connection loop
//! must take: forward a navigation request to the scan task, start a
//! delete operation, or reveal a path in the host's file manager. The
//! delete flow is a small state machine raced against a fixed timeout: a
//! quick removal sends only `Deleting{Finished}`, a slow one sends
//! `Deleting{Deleting}` when the timeout fires and `Deleting{Finished}`
//! once the removal ends; the `Finished` event comes unconditionally,
//! whether or not the removal succeeded.

use vstd::prelude::*;
use crate::api::{ControlMessage, ControlMessageView, DeletingStatus, EventMessage, EventMessageView};
use crate::paths::{clone_path, join_path};
use crate::scan::ThreadControlMessage;

verus! {

/// How far a delete operation has come.
#[derive(Clone, Copy, Debug, PartialEq, Eq, Structural)]
pub enum DeletePhase {
    /// The removal is running and the timeout has not fired.
    Running,
    /// The timeout fired first; the client has been told the delete is in
    /// progress.
    Notified,
    /// The removal has completed and the client has been told.
    Done,
}

/// One delete operation in flight.
pub struct DeleteOp {
    /// The path the client asked to delete, relative to the root.
    pub path: Vec<String>,
    /// The absolute path handed to the filesystem removal.
    pub full_path: Vec<String>,
    /// How far the operation has come.
    pub phase: DeletePhase,
}

impl DeleteOp {
    /// The timeout fired. If the removal is still running, the client is
    /// told once that the delete is in progress; a timeout that fires
    /// after completion or twice changes nothing.
    pub fn on_timeout(&mut self) -> (r: Option<EventMessage>)
        ensures
            final(self).path == old(self).path,
            final(self).full_path == old(self).full_path,
            old(self).phase == DeletePhase::Running ==> {
                &&& final(self).phase == DeletePhase::Notified
                &&& r.deep_view() == Some(
                    EventMessageView::Deleting {
                        path: old(self).path.deep_view(),
                        status: DeletingStatus::Deleting,
                    },
                )
            },
            old(self).phase != DeletePhase::Running ==> {
                &&& final(self).phase == old(self).phase
                &&& r.deep_view() == None::<EventMessageView>
            },
    {
        match self.phase {
            DeletePhase::Running => {
                self.phase = DeletePhase::Notified;
                Some(
                    EventMessage::Deleting {
                        path: self.path.clone(),
                        status: DeletingStatus::Deleting,
                    },
                )
            },
            _ => None,
        }
    }

    /// The removal completed, successfully or not. The client is told
    /// exactly once that the delete is finished.
    pub fn on_complete(&mut self) -> (r: EventMessage)
        requires
            old(self).phase != DeletePhase::Done,
        ensures
            final(self).path == old(self).path,
            final(self).full_path == old(self).full_path,
            final(self).phase == DeletePhase::Done,
            r@ == (EventMessageView::Deleting {
                path: old(self).path.deep_view(),
                status: DeletingStatus::Finished,
            }),
    {
        self.phase = DeletePhase::Done;
        EventMessage::Deleting { path: self.path.clone(), status: DeletingStatus::Finished }
    }
}

/// The action a control message asks the connection loop to take.
pub enum HandlerAction {
    /// Hand this request to the scan task.
    Navigate(ThreadControlMessage),
    /// Remove `full_path` from disk, racing the delete timeout, and drive
    /// the operation's events.
    Delete(DeleteOp),
    /// Show `full_path` in the host's file manager.
    Reveal { full_path: Vec<String> },
}

/// The per-connection session state.
pub struct WebsocketHandler {
    /// The scan root, as path segments.
    pub root_path: Vec<String>,
    /// The directory the client is looking at, relative to the root.
    pub current_dir: Vec<String>,
}

impl WebsocketHandler {
    /// A session that starts at the root.
    pub fn new(root_path: Vec<String>) -> (h: WebsocketHandler)
        ensures
            h.root_path == root_path,
            h.current_dir.deep_view() == Seq::<Seq<char>>::empty(),
    {
        let h = WebsocketHandler { root_path, current_dir: Vec::new() };
        proof {
            assert(h.current_dir.deep_view() =~= Seq::<Seq<char>>::empty());
        }
        h
    }

    /// Records the new current directory and builds the navigation request
    /// for the scan task.
    pub fn change_dir(&mut self, path: Vec<String>) -> (m: ThreadControlMessage)
        ensures
            final(self).root_path == old(self).root_path,
            final(self).current_dir@ == path@,
            final(self).current_dir.deep_view() == path.deep_view(),
            m matches ThreadControlMessage::ChangeDirectory(p) && p == path,
    {
        self.current_dir = clone_path(&path);
        ThreadControlMessage::ChangeDirectory(path)
    }

    /// Re-issues the current directory as if freshly navigated, so the
    /// client's listing is rebuilt; used after a delete completes.
    pub fn refresh(&mut self) -> (m: ThreadControlMessage)
        ensures
            final(self).root_path == old(self).root_path,
            final(self).current_dir@ == old(self).current_dir@,
            m matches ThreadControlMessage::ChangeDirectory(p) && p@ == old(
                self,
            ).current_dir@,
    {
        let path = clone_path(&self.current_dir);
        self.change_dir(path)
    }

    /// Dispatches one inbound control message: a navigation updates the
    /// current directory and goes to the scan task; a delete starts a
    /// delete operation on the absolute path; a reveal names the absolute
    /// path to show. Reveal failures are the caller's to log; no event
    /// reaches the client for them.
    pub fn handle_message(&mut self, msg: ControlMessage) -> (a: HandlerAction)
        ensures
            final(self).root_path == old(self).root_path,
            msg@ matches ControlMessageView::ChangeDirectory { path } ==> {
                &&& final(self).current_dir.deep_view() == path
                &&& a matches HandlerAction::Navigate(
                    ThreadControlMessage::ChangeDirectory(p),
                ) && p.deep_view() == path
            },
            msg@ matches ControlMessageView::Delete { path } ==> {
                &&& *final(self) == *old(self)
                &&& a matches HandlerAction::Delete(op) && op.path.deep_view() == path
                    && op.full_path.deep_view() == old(self).root_path.deep_view() + path
                    && op.phase == DeletePhase::Running
            },
            msg@ matches ControlMessageView::Reveal { path } ==> {
                &&& *final(self) == *old(self)
                &&& a matches HandlerAction::Reveal { full_path } && full_path.deep_view()
                    == old(self).root_path.deep_view() + path
            },
    {
        match msg {
            ControlMessage::ChangeDirectory { path } => {
                let m = self.change_dir(path);
                HandlerAction::Navigate(m)
            },
            ControlMessage::Delete { path } => {
                let full_path = join_path(&self.root_path, &path);
                HandlerAction::Delete(
                    DeleteOp { path, full_path, phase: DeletePhase::Running },
                )
            },
            ControlMessage::Reveal { path } => {
                let full_path = join_path(&self.root_path, &path);
                HandlerAction::Reveal { full_path }
            },
        }
    }
}

} // verus!
