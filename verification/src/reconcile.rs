//! The reconciliation rules, as mathematics.
//!
//! Given the server's and the local calendar as they stand and the checkpoint
//! of the last successful pass, the rules decide for every identity what has
//! to happen, and with that what both calendars hold afterwards. The server
//! wins every conflict, whatever the clocks of the two replicas say.

use vstd::prelude::*;
use crate::calendar::CalendarView;
use crate::item::{ItemId, TaskView};
use crate::report::{Action, AppliedChange, ConflictView, Resolution};
use crate::timestamp::Timestamp;

verus! {

/// What the rules decide for one identity.
#[derive(Clone, Copy, Debug, PartialEq, Eq, Structural)]
pub enum Verdict {
    /// Nothing to do: neither side touched the item, or both hold the same
    /// version, or neither holds it.
    Settled,
    /// Only the server changed the item: its version goes to the local side.
    Pull,
    /// Only the local side changed the item: its version goes to the server.
    Push,
    /// The server deleted the item and the local side left it alone: it is
    /// deleted locally.
    DeleteLocally,
    /// The local side deleted the item and the server left it alone: it is
    /// deleted on the server.
    DeleteRemotely,
    /// Both sides changed the item, differently: the server's version
    /// replaces the local one.
    ConflictBothModified,
    /// The local side deleted the item and the server changed it: the
    /// server's version comes back to the local side.
    ConflictDeletedLocally,
    /// The server deleted the item and the local side changed it: it is
    /// deleted locally all the same.
    ConflictDeletedRemotely,
}

impl Verdict {
    /// The change that carries the verdict out, if it asks for one.
    pub open spec fn spec_action(self) -> Option<Action> {
        match self {
            Verdict::Settled => None,
            Verdict::Pull => Some(Action::Pulled),
            Verdict::Push => Some(Action::Pushed),
            Verdict::DeleteLocally => Some(Action::DeletedLocally),
            Verdict::DeleteRemotely => Some(Action::DeletedRemotely),
            Verdict::ConflictBothModified => Some(Action::Pulled),
            Verdict::ConflictDeletedLocally => Some(Action::Pulled),
            Verdict::ConflictDeletedRemotely => Some(Action::DeletedLocally),
        }
    }

    /// How the conflict is settled, if the verdict is one.
    pub open spec fn spec_resolution(self) -> Option<Resolution> {
        match self {
            Verdict::ConflictBothModified => Some(Resolution::ServerVersionKept),
            Verdict::ConflictDeletedLocally => Some(Resolution::ServerVersionKept),
            Verdict::ConflictDeletedRemotely => Some(Resolution::ServerDeletionKept),
            _ => None,
        }
    }

    /// The change that carries the verdict out, if it asks for one.
    #[verifier::when_used_as_spec(spec_action)]
    pub fn action(self) -> (a: Option<Action>)
        ensures
            a == self.spec_action(),
    {
        match self {
            Verdict::Settled => None,
            Verdict::Pull => Some(Action::Pulled),
            Verdict::Push => Some(Action::Pushed),
            Verdict::DeleteLocally => Some(Action::DeletedLocally),
            Verdict::DeleteRemotely => Some(Action::DeletedRemotely),
            Verdict::ConflictBothModified => Some(Action::Pulled),
            Verdict::ConflictDeletedLocally => Some(Action::Pulled),
            Verdict::ConflictDeletedRemotely => Some(Action::DeletedLocally),
        }
    }

    /// How the conflict is settled, if the verdict is one.
    #[verifier::when_used_as_spec(spec_resolution)]
    pub fn resolution(self) -> (r: Option<Resolution>)
        ensures
            r == self.spec_resolution(),
    {
        match self {
            Verdict::ConflictBothModified => Some(Resolution::ServerVersionKept),
            Verdict::ConflictDeletedLocally => Some(Resolution::ServerVersionKept),
            Verdict::ConflictDeletedRemotely => Some(Resolution::ServerDeletionKept),
            _ => None,
        }
    }
}

/// The verdict on one identity, from the two calendars as they stand before
/// the pass and the checkpoint.
pub open spec fn verdict(
    remote: CalendarView,
    local: CalendarView,
    since: Option<Timestamp>,
    id: ItemId,
) -> Verdict {
    if remote.modified_since(since).contains(id) {
        if local.items.dom().contains(id) && local.items[id] == remote.items[id] {
            Verdict::Settled
        } else if local.modified_since(since).contains(id) {
            Verdict::ConflictBothModified
        } else if local.deleted_since(since).contains(id) {
            Verdict::ConflictDeletedLocally
        } else {
            Verdict::Pull
        }
    } else if remote.deleted_since(since).contains(id) {
        if local.modified_since(since).contains(id) {
            Verdict::ConflictDeletedRemotely
        } else if local.items.dom().contains(id) {
            Verdict::DeleteLocally
        } else {
            Verdict::Settled
        }
    } else if local.modified_since(since).contains(id) {
        Verdict::Push
    } else if local.deleted_since(since).contains(id) && remote.items.dom().contains(id) {
        Verdict::DeleteRemotely
    } else {
        Verdict::Settled
    }
}

/// The item under an identity, if the map has one.
pub open spec fn item_at(items: Map<ItemId, TaskView>, id: ItemId) -> Option<TaskView> {
    if items.dom().contains(id) {
        Some(items[id])
    } else {
        None
    }
}

/// The items of the local calendar after the pass.
pub open spec fn reconciled_local_items(
    remote: CalendarView,
    local: CalendarView,
    since: Option<Timestamp>,
) -> Map<ItemId, TaskView> {
    Map::new(
        |id: ItemId|
            match verdict(remote, local, since, id).action() {
                Some(Action::Pulled) => true,
                Some(Action::DeletedLocally) => false,
                _ => local.items.dom().contains(id),
            },
        |id: ItemId|
            match verdict(remote, local, since, id).action() {
                Some(Action::Pulled) => remote.items[id],
                _ => local.items[id],
            },
    )
}

/// The items of the server's calendar after the pass.
pub open spec fn reconciled_remote_items(
    remote: CalendarView,
    local: CalendarView,
    since: Option<Timestamp>,
) -> Map<ItemId, TaskView> {
    Map::new(
        |id: ItemId|
            match verdict(remote, local, since, id).action() {
                Some(Action::Pushed) => true,
                Some(Action::DeletedRemotely) => false,
                _ => remote.items.dom().contains(id),
            },
        |id: ItemId|
            match verdict(remote, local, since, id).action() {
                Some(Action::Pushed) => local.items[id],
                _ => remote.items[id],
            },
    )
}

/// The local calendar after the pass: its items are reconciled, and the
/// deletions it remembered are forgotten, for the server has seen them all.
pub open spec fn reconciled_local(
    remote: CalendarView,
    local: CalendarView,
    since: Option<Timestamp>,
) -> CalendarView {
    CalendarView {
        items: reconciled_local_items(remote, local, since),
        deleted: Map::empty(),
        ..local
    }
}

/// The server's calendar after the pass.
pub open spec fn reconciled_remote(
    remote: CalendarView,
    local: CalendarView,
    since: Option<Timestamp>,
) -> CalendarView {
    CalendarView {
        items: reconciled_remote_items(remote, local, since),
        deleted: Map::empty(),
        ..remote
    }
}

/// The change that the pass reports for an identity, if it changes anything.
pub open spec fn expected_change(
    remote: CalendarView,
    local: CalendarView,
    since: Option<Timestamp>,
    id: ItemId,
) -> Option<AppliedChange> {
    match verdict(remote, local, since, id).action() {
        Some(action) => Some(AppliedChange { id, action }),
        None => None,
    }
}

/// The conflict that the pass reports for an identity, if there is one: both
/// versions as they stood before the pass, and the resolution.
pub open spec fn expected_conflict(
    remote: CalendarView,
    local: CalendarView,
    since: Option<Timestamp>,
    id: ItemId,
) -> Option<ConflictView> {
    match verdict(remote, local, since, id).resolution() {
        Some(resolution) => Some(
            ConflictView {
                id,
                local: item_at(local.items, id),
                remote: item_at(remote.items, id),
                resolution,
            },
        ),
        None => None,
    }
}

/// Whether a checkpoint is no earlier than another. No checkpoint at all is
/// earlier than any.
pub open spec fn not_earlier(later: Option<Timestamp>, earlier: Option<Timestamp>) -> bool {
    match earlier {
        None => true,
        Some(e) => match later {
            Some(l) => l.millis >= e.millis,
            None => false,
        },
    }
}

/// The server wins: an item that both sides modified since the checkpoint is,
/// after the pass, on both sides what the server had. Neither version's
/// timestamp plays a part.
pub proof fn law_server_wins(
    remote: CalendarView,
    local: CalendarView,
    since: Option<Timestamp>,
    id: ItemId,
)
    requires
        remote.well_formed(),
        local.well_formed(),
        remote.modified_since(since).contains(id),
        local.modified_since(since).contains(id),
    ensures
        item_at(reconciled_local(remote, local, since).items, id) == Some(remote.items[id]),
        item_at(reconciled_remote(remote, local, since).items, id) == Some(remote.items[id]),
{
}

/// Deletions propagate: an item that one side deleted since the checkpoint
/// and the other side did not modify is, after the pass, on neither side.
pub proof fn law_deletion_propagates(
    remote: CalendarView,
    local: CalendarView,
    since: Option<Timestamp>,
    id: ItemId,
)
    requires
        remote.well_formed(),
        local.well_formed(),
        (remote.deleted_since(since).contains(id) && !local.modified_since(since).contains(id))
            || (local.deleted_since(since).contains(id) && !remote.modified_since(since).contains(
            id,
        )),
    ensures
        !reconciled_local(remote, local, since).items.dom().contains(id),
        !reconciled_remote(remote, local, since).items.dom().contains(id),
{
}

/// Disjoint edits are kept: an item that exactly one side modified since the
/// checkpoint, and that the other side did not delete, is after the pass on
/// both sides, in the modified version.
pub proof fn law_disjoint_edits_kept(
    remote: CalendarView,
    local: CalendarView,
    since: Option<Timestamp>,
    id: ItemId,
)
    requires
        remote.well_formed(),
        local.well_formed(),
        remote.modified_since(since).contains(id) != local.modified_since(since).contains(id),
        !remote.deleted_since(since).contains(id),
        !local.deleted_since(since).contains(id),
    ensures
        ({
            let modified = if remote.modified_since(since).contains(id) {
                remote.items[id]
            } else {
                local.items[id]
            };
            &&& item_at(reconciled_local(remote, local, since).items, id) == Some(modified)
            &&& item_at(reconciled_remote(remote, local, since).items, id) == Some(modified)
        }),
{
}

/// A second pass changes nothing: once a pair of calendars is reconciled,
/// reconciling it again, against the same checkpoint or a later one, finds
/// every identity settled and leaves both calendars as they are.
pub proof fn law_second_pass_changes_nothing(
    remote: CalendarView,
    local: CalendarView,
    since: Option<Timestamp>,
    again: Option<Timestamp>,
)
    requires
        remote.well_formed(),
        local.well_formed(),
        not_earlier(again, since),
    ensures
        ({
            let remote1 = reconciled_remote(remote, local, since);
            let local1 = reconciled_local(remote, local, since);
            &&& forall|id: ItemId| verdict(remote1, local1, again, id) == Verdict::Settled
            &&& reconciled_remote(remote1, local1, again) == remote1
            &&& reconciled_local(remote1, local1, again) == local1
        }),
{
    let remote1 = reconciled_remote(remote, local, since);
    let local1 = reconciled_local(remote, local, since);
    assert forall|id: ItemId| verdict(remote1, local1, again, id) == Verdict::Settled by {
        let v = verdict(remote, local, since, id);
        assert(remote1.items.dom().contains(id) ==> remote1.items[id] == (if v == Verdict::Push {
            local.items[id]
        } else {
            remote.items[id]
        }));
    }
    assert(reconciled_remote(remote1, local1, again).items =~= remote1.items);
    assert(reconciled_local(remote1, local1, again).items =~= local1.items);
}

} // verus!
