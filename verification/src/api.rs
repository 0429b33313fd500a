//! The messages exchanged with a connected client.
//!
//! `ControlMessage` is what the client sends (navigate, delete, reveal);
//! `EventMessage` is what the engine sends back (directory listings, size
//! updates, deletion progress). The view types state the same data over
//! mathematical sequences, and every contract in the engine speaks of
//! those views.

use vstd::prelude::*;

verus! {

/// The scan status of a directory: not reached yet, currently being
/// scanned, or completely scanned.
#[derive(Clone, Copy, Debug, PartialEq, Eq, Structural)]
pub enum UpdatingStatus {
    Idle,
    Updating,
    Finished,
}

/// The progress of a delete operation as reported to the client.
#[derive(Clone, Copy, Debug, PartialEq, Eq, Structural)]
pub enum DeletingStatus {
    Deleting,
    Finished,
}

/// One row of a directory listing: a file with its exact size, or a
/// directory with the size and status the aggregation tree knows so far.
#[derive(Clone, Debug, PartialEq, Eq)]
pub enum Entry {
    File { path: Vec<String>, size: u64 },
    Directory { path: Vec<String>, size: u64, updating: UpdatingStatus },
}

/// The mathematical value of an `Entry`: paths become sequences of
/// segment character sequences.
pub enum EntryView {
    File { path: Seq<Seq<char>>, size: u64 },
    Directory { path: Seq<Seq<char>>, size: u64, updating: UpdatingStatus },
}

impl View for Entry {
    type V = EntryView;

    open spec fn view(&self) -> EntryView {
        match self {
            Entry::File { path, size } => EntryView::File {
                path: path.deep_view(),
                size: *size,
            },
            Entry::Directory { path, size, updating } => EntryView::Directory {
                path: path.deep_view(),
                size: *size,
                updating: *updating,
            },
        }
    }
}

impl EntryView {
    /// The path of the entry, whichever variant it is.
    pub open spec fn path(self) -> Seq<Seq<char>> {
        match self {
            EntryView::File { path, .. } => path,
            EntryView::Directory { path, .. } => path,
        }
    }
}

/// An event sent to the client.
#[derive(Clone, Debug, PartialEq, Eq)]
pub enum EventMessage {
    /// The full listing of the directory the client navigated to.
    DirectoryChange {
        current_directory: Entry,
        entries: Vec<Entry>,
        breadcrumb_entries: Vec<Entry>,
        available_space: u64,
    },
    /// A new aggregated size for one directory; the entry is always a
    /// directory entry.
    SizeUpdate { entry: Entry },
    /// Progress of a delete operation.
    Deleting { path: Vec<String>, status: DeletingStatus },
}

/// The mathematical value of an `EventMessage`.
pub enum EventMessageView {
    DirectoryChange {
        current_directory: EntryView,
        entries: Seq<EntryView>,
        breadcrumb_entries: Seq<EntryView>,
        available_space: u64,
    },
    SizeUpdate { entry: EntryView },
    Deleting { path: Seq<Seq<char>>, status: DeletingStatus },
}

impl View for EventMessage {
    type V = EventMessageView;

    open spec fn view(&self) -> EventMessageView {
        match self {
            EventMessage::DirectoryChange {
                current_directory,
                entries,
                breadcrumb_entries,
                available_space,
            } => EventMessageView::DirectoryChange {
                current_directory: current_directory@,
                entries: entries.deep_view(),
                breadcrumb_entries: breadcrumb_entries.deep_view(),
                available_space: *available_space,
            },
            EventMessage::SizeUpdate { entry } => EventMessageView::SizeUpdate {
                entry: entry@,
            },
            EventMessage::Deleting { path, status } => EventMessageView::Deleting {
                path: path.deep_view(),
                status: *status,
            },
        }
    }
}

impl DeepView for Entry {
    type V = EntryView;

    open spec fn deep_view(&self) -> EntryView {
        self.view()
    }
}

impl DeepView for EventMessage {
    type V = EventMessageView;

    open spec fn deep_view(&self) -> EventMessageView {
        self.view()
    }
}

/// A command received from the client.
#[derive(Clone, Debug, PartialEq, Eq)]
pub enum ControlMessage {
    ChangeDirectory { path: Vec<String> },
    Delete { path: Vec<String> },
    Reveal { path: Vec<String> },
}

/// The mathematical value of a `ControlMessage`.
pub enum ControlMessageView {
    ChangeDirectory { path: Seq<Seq<char>> },
    Delete { path: Seq<Seq<char>> },
    Reveal { path: Seq<Seq<char>> },
}

impl View for ControlMessage {
    type V = ControlMessageView;

    open spec fn view(&self) -> ControlMessageView {
        match self {
            ControlMessage::ChangeDirectory { path } => ControlMessageView::ChangeDirectory {
                path: path.deep_view(),
            },
            ControlMessage::Delete { path } => ControlMessageView::Delete {
                path: path.deep_view(),
            },
            ControlMessage::Reveal { path } => ControlMessageView::Reveal {
                path: path.deep_view(),
            },
        }
    }
}

} // verus!
