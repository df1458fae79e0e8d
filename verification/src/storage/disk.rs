//! What a tree asks of the disk.
//!
//! The tree itself holds bytes. Whatever it changes, it says what has to be
//! done on disk for it, in order; the program around it performs these actions
//! one after the other. Because they are a list, it can be said what a crash
//! between any two of them leaves behind.

use vstd::prelude::*;

verus! {

/// One thing to do on disk.
#[derive(Debug, Clone, PartialEq, Eq)]
pub enum DiskAction {
    /// Write a table file, and force it down to the device.
    WriteTable { name: String, bytes: Vec<u8> },
    /// Replace the manifest atomically: the commit point.
    StoreManifest { text: String },
    /// Cut the log off behind its first bytes.
    TruncateLog { length: u64 },
    /// Append bytes to the log.
    AppendLog { bytes: Vec<u8> },
    /// Force the log down to the device.
    SyncLog,
    /// Replace the log by an empty one.
    ResetLog,
    /// Remove a table file, if it is still there.
    RemoveTable { name: String },
}

/// What an action is.
#[verifier::ext_equal]
pub enum ActionView {
    WriteTable { name: Seq<char>, bytes: Seq<u8> },
    StoreManifest { text: Seq<char> },
    TruncateLog { length: nat },
    AppendLog { bytes: Seq<u8> },
    SyncLog,
    ResetLog,
    RemoveTable { name: Seq<char> },
}

impl View for DiskAction {
    type V = ActionView;

    open spec fn view(&self) -> ActionView {
        match self {
            DiskAction::WriteTable { name, bytes } => ActionView::WriteTable {
                name: name@,
                bytes: bytes@,
            },
            DiskAction::StoreManifest { text } => ActionView::StoreManifest { text: text@ },
            DiskAction::TruncateLog { length } => ActionView::TruncateLog {
                length: *length as nat,
            },
            DiskAction::AppendLog { bytes } => ActionView::AppendLog { bytes: bytes@ },
            DiskAction::SyncLog => ActionView::SyncLog,
            DiskAction::ResetLog => ActionView::ResetLog,
            DiskAction::RemoveTable { name } => ActionView::RemoveTable { name: name@ },
        }
    }
}

/// The content of a list of actions.
pub open spec fn actions_of(actions: Seq<DiskAction>) -> Seq<ActionView> {
    Seq::new(actions.len(), |i: int| actions[i]@)
}

/// What is on disk.
#[verifier::ext_equal]
pub struct DiskView {
    /// The table files by name.
    pub tables: Map<Seq<char>, Seq<u8>>,
    /// The manifest, once there is one.
    pub manifest: Option<Seq<char>>,
    /// The log.
    pub log: Seq<u8>,
}

/// The disk after an action.
pub open spec fn perform(disk: DiskView, action: ActionView) -> DiskView {
    match action {
        ActionView::WriteTable { name, bytes } => DiskView {
            tables: disk.tables.insert(name, bytes),
            ..disk
        },
        ActionView::StoreManifest { text } => DiskView { manifest: Some(text), ..disk },
        ActionView::TruncateLog { length } => DiskView {
            log: disk.log.take(length as int),
            ..disk
        },
        ActionView::AppendLog { bytes } => DiskView { log: disk.log + bytes, ..disk },
        ActionView::SyncLog => disk,
        ActionView::ResetLog => DiskView { log: Seq::empty(), ..disk },
        ActionView::RemoveTable { name } => DiskView { tables: disk.tables.remove(name), ..disk },
    }
}

/// The disk after actions, one after the other.
pub open spec fn perform_all(disk: DiskView, actions: Seq<ActionView>) -> DiskView
    decreases actions.len(),
{
    if actions.len() == 0 {
        disk
    } else {
        perform(perform_all(disk, actions.drop_last()), actions.last())
    }
}

/// Actions in two stretches.
pub proof fn lemma_perform_concat(disk: DiskView, a: Seq<ActionView>, b: Seq<ActionView>)
    ensures
        perform_all(disk, a + b) == perform_all(perform_all(disk, a), b),
    decreases b.len(),
{
    if b.len() == 0 {
        assert(a + b =~= a);
    } else {
        assert((a + b).drop_last() =~= a + b.drop_last());
        lemma_perform_concat(disk, a, b.drop_last());
    }
}

} // verus!
