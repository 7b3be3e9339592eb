//! What a reconciliation pass tells its caller.

use vstd::prelude::*;
use crate::calendar::DuplicateIdentity;
use crate::item::{Item, ItemId, TaskView};

verus! {

/// One of the two replicas that a pass reconciles.
#[derive(Clone, Copy, Debug, PartialEq, Eq, Structural)]
pub enum Replica {
    /// The remote, authoritative source.
    Server,
    /// The local cache.
    Local,
}

/// What a pass did with one item.
#[derive(Clone, Copy, Debug, PartialEq, Eq, Structural)]
pub enum Action {
    /// The server's version was copied to the local calendar.
    Pulled,
    /// The local version was copied to the server's calendar.
    Pushed,
    /// The item was removed from the local calendar.
    DeletedLocally,
    /// The item was removed from the server's calendar.
    DeletedRemotely,
}

/// A change that a pass applied.
#[derive(Clone, Copy, Debug, PartialEq, Eq, Structural)]
pub struct AppliedChange {
    pub id: ItemId,
    pub action: Action,
}

/// How a conflict was settled. The server always wins; what differs is
/// whether it had changed the item or deleted it.
#[derive(Clone, Copy, Debug, PartialEq, Eq, Structural)]
pub enum Resolution {
    /// The server's version replaced what the local calendar had.
    ServerVersionKept,
    /// The server's deletion was carried out locally.
    ServerDeletionKept,
}

/// A conflict as a mathematical value.
pub struct ConflictView {
    pub id: ItemId,
    pub local: Option<TaskView>,
    pub remote: Option<TaskView>,
    pub resolution: Resolution,
}

/// An item that both replicas touched since the last checkpoint: the two
/// versions as they stood before the pass (`None` where the replica no longer
/// had the item), and how the conflict was settled.
#[derive(Debug)]
pub struct Conflict {
    pub id: ItemId,
    pub local: Option<Item>,
    pub remote: Option<Item>,
    pub resolution: Resolution,
}

/// The value of an optional item.
pub open spec fn item_option_view(o: Option<Item>) -> Option<TaskView> {
    match o {
        Some(it) => Some(it@),
        None => None,
    }
}

impl View for Conflict {
    type V = ConflictView;

    open spec fn view(&self) -> ConflictView {
        ConflictView {
            id: self.id,
            local: item_option_view(self.local),
            remote: item_option_view(self.remote),
            resolution: self.resolution,
        }
    }
}

/// The values of a sequence of conflicts.
pub open spec fn conflict_views(conflicts: Seq<Conflict>) -> Seq<ConflictView> {
    conflicts.map_values(|c: Conflict| c@)
}

/// The report on one pair of calendars, as a mathematical value.
pub struct CalendarReportView {
    pub url: Seq<char>,
    pub conflicts: Seq<ConflictView>,
    pub changes: Seq<AppliedChange>,
    pub duplicates: Seq<DuplicateIdentity>,
}

/// What a pass found and did in one pair of calendars.
#[derive(Debug)]
pub struct CalendarReport {
    /// The URL of the server's calendar, which the local one shares.
    pub url: String,
    /// The conflicts met, one entry for each item in conflict.
    pub conflicts: Vec<Conflict>,
    /// The changes applied, one entry for each item changed.
    pub changes: Vec<AppliedChange>,
    /// The items that a calendar refused because it already held their
    /// identity. The reconciliation rules never lead to one.
    pub duplicates: Vec<DuplicateIdentity>,
}

impl View for CalendarReport {
    type V = CalendarReportView;

    open spec fn view(&self) -> CalendarReportView {
        CalendarReportView {
            url: self.url@,
            conflicts: conflict_views(self.conflicts@),
            changes: self.changes@,
            duplicates: self.duplicates@,
        }
    }
}

/// A calendar without a counterpart, as a mathematical value.
pub struct CollectionNotPairedView {
    pub url: Seq<char>,
    pub missing_on: Replica,
}

/// A calendar that only one replica has. A pass reports it and leaves it as
/// it is.
#[derive(Debug)]
pub struct CollectionNotPaired {
    pub url: String,
    /// The replica that has no calendar with this URL.
    pub missing_on: Replica,
}

impl View for CollectionNotPaired {
    type V = CollectionNotPairedView;

    open spec fn view(&self) -> CollectionNotPairedView {
        CollectionNotPairedView { url: self.url@, missing_on: self.missing_on }
    }
}

/// The values of a sequence of reports on pairs of calendars.
pub open spec fn calendar_report_views(reports: Seq<CalendarReport>) -> Seq<CalendarReportView> {
    reports.map_values(|r: CalendarReport| r@)
}

/// The values of a sequence of calendars without a counterpart.
pub open spec fn not_paired_views(entries: Seq<CollectionNotPaired>) -> Seq<
    CollectionNotPairedView,
> {
    entries.map_values(|e: CollectionNotPaired| e@)
}

/// The report on a pass, as a mathematical value.
pub struct SyncReportView {
    pub calendars: Seq<CalendarReportView>,
    pub not_paired: Seq<CollectionNotPairedView>,
}

/// What a whole pass found and did. A pass that succeeds may still have met
/// conflicts and calendars without a counterpart: they are all here.
#[derive(Debug)]
pub struct SyncReport {
    /// One report for each pair of calendars that was reconciled.
    pub calendars: Vec<CalendarReport>,
    /// The calendars that only one replica has.
    pub not_paired: Vec<CollectionNotPaired>,
}

impl View for SyncReport {
    type V = SyncReportView;

    open spec fn view(&self) -> SyncReportView {
        SyncReportView {
            calendars: calendar_report_views(self.calendars@),
            not_paired: not_paired_views(self.not_paired@),
        }
    }
}

} // verus!
