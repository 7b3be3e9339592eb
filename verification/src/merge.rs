//! Reconciling one pair of calendars.

use vstd::prelude::*;
use crate::calendar::{lists_exactly, Calendar, CalendarView};
use crate::item::{ids_of, views_of, views_of_refs, Item, ItemId, TaskView};
use crate::provider::{
    absorbed, identities, lemma_absorbed_fresh, move_to_calendar, refused, remove_from_calendar,
};
use crate::reconcile::{
    expected_change, expected_conflict, reconciled_local, reconciled_local_items,
    reconciled_remote, reconciled_remote_items, verdict, Verdict,
};
use crate::report::{
    conflict_views, Action, AppliedChange, CalendarReport, CalendarReportView, Conflict,
    ConflictView,
};
use crate::sequences::{lemma_joined, lemma_push_contains, lemma_take_next};
use crate::timestamp::Timestamp;

verus! {

/// Whether a report on a pair of calendars says what the rules did to the
/// pair, no more and no less: one change for each identity that was changed,
/// one conflict for each identity in conflict, and no duplicate.
pub open spec fn reports_exactly(
    report: CalendarReportView,
    remote: CalendarView,
    local: CalendarView,
    since: Option<Timestamp>,
) -> bool {
    &&& report.url == remote.url
    &&& forall|i: int, j: int|
        0 <= i < j < report.changes.len() ==> (#[trigger] report.changes[i]).id != (
        #[trigger] report.changes[j]).id
    &&& forall|c: AppliedChange| #[trigger]
        report.changes.contains(c) <==> expected_change(remote, local, since, c.id) == Some(c)
    &&& forall|i: int, j: int|
        0 <= i < j < report.conflicts.len() ==> (#[trigger] report.conflicts[i]).id != (
        #[trigger] report.conflicts[j]).id
    &&& forall|c: ConflictView| #[trigger]
        report.conflicts.contains(c) <==> expected_conflict(remote, local, since, c.id) == Some(c)
    &&& report.duplicates.len() == 0
}

/// One change of the given kind for each identity.
spec fn changes_of(ids: Seq<ItemId>, action: Action) -> Seq<AppliedChange> {
    ids.map_values(|id: ItemId| AppliedChange { id, action })
}

fn was_deleted_since(calendar: &Calendar, since: Option<Timestamp>, id: &ItemId) -> (r: bool)
    requires
        calendar.well_formed(),
    ensures
        r == calendar@.deleted_since(since).contains(*id),
{
    match since {
        Some(t) => match calendar.deletion_time(id) {
            Some(d) => d.is_after(&t),
            None => false,
        },
        None => false,
    }
}

/// Decides what has to happen to one identity of a pair of calendars.
pub fn classify(remote: &Calendar, local: &Calendar, since: Option<Timestamp>, id: &ItemId) -> (v:
    Verdict)
    requires
        remote.well_formed(),
        local.well_formed(),
    ensures
        v == verdict(remote@, local@, since, *id),
{
    let remote_item = remote.get_item_by_id(id);
    let local_item = local.get_item_by_id(id);
    let remote_modified = match remote_item {
        Some(x) => x.last_modified().is_since(since),
        None => false,
    };
    let local_modified = match local_item {
        Some(y) => y.last_modified().is_since(since),
        None => false,
    };
    if remote_modified {
        let same = match remote_item {
            Some(x) => match local_item {
                Some(y) => y.same_as(x),
                None => false,
            },
            None => false,
        };
        if same {
            Verdict::Settled
        } else if local_modified {
            Verdict::ConflictBothModified
        } else if was_deleted_since(local, since, id) {
            Verdict::ConflictDeletedLocally
        } else {
            Verdict::Pull
        }
    } else if was_deleted_since(remote, since, id) {
        if local_modified {
            Verdict::ConflictDeletedRemotely
        } else if local_item.is_some() {
            Verdict::DeleteLocally
        } else {
            Verdict::Settled
        }
    } else if local_modified {
        Verdict::Push
    } else if was_deleted_since(local, since, id) && remote_item.is_some() {
        Verdict::DeleteRemotely
    } else {
        Verdict::Settled
    }
}

/// The candidates on which the verdict asks for the given change.
fn select(
    remote: &Calendar,
    local: &Calendar,
    since: Option<Timestamp>,
    candidates: &Vec<ItemId>,
    action: Action,
) -> (r: Vec<ItemId>)
    requires
        remote.well_formed(),
        local.well_formed(),
        candidates@.no_duplicates(),
    ensures
        r@.no_duplicates(),
        forall|id: ItemId|
            r@.contains(id) <==> (candidates@.contains(id) && verdict(
                remote@,
                local@,
                since,
                id,
            ).action() == Some(action)),
{
    let mut out: Vec<ItemId> = Vec::new();
    let mut i: usize = 0;
    proof {
        assert(candidates@.take(0) =~= Seq::<ItemId>::empty());
    }
    while i < candidates.len()
        invariant
            i <= candidates@.len(),
            remote.well_formed(),
            local.well_formed(),
            candidates@.no_duplicates(),
            out@.no_duplicates(),
            forall|id: ItemId|
                out@.contains(id) <==> (candidates@.take(i as int).contains(id) && verdict(
                    remote@,
                    local@,
                    since,
                    id,
                ).action() == Some(action)),
        decreases candidates@.len() - i,
    {
        let id = candidates[i];
        let v = classify(remote, local, since, &id);
        proof {
            lemma_take_next(candidates@, i as int);
            lemma_push_contains(out@, id);
        }
        let wanted = match v.action() {
            Some(a) => a == action,
            None => false,
        };
        let ghost before = out@;
        if wanted {
            out.push(id);
        }
        proof {
            assert(wanted == (verdict(remote@, local@, since, id).action() == Some(action)));
            assert(!before.contains(id));
            assert(out@ == if wanted { before.push(id) } else { before });
            assert forall|x: ItemId|
                out@.contains(x) <==> (candidates@.take(i + 1).contains(x) && verdict(
                    remote@,
                    local@,
                    since,
                    x,
                ).action() == Some(action)) by {
                assert(before.push(id).contains(x) <==> (before.contains(x) || x == id));
                assert(candidates@.take(i + 1).contains(x) <==> (candidates@.take(
                    i as int,
                ).contains(x) || x == id));
            }
        }
        i = i + 1;
    }
    proof {
        assert(candidates@.take(candidates@.len() as int) =~= candidates@);
    }
    out
}

/// The identities of the items, in their order.
fn identities_of(items: &Vec<&Item>) -> (r: Vec<ItemId>)
    ensures
        r@ == ids_of(views_of_refs(items@)),
{
    let mut out: Vec<ItemId> = Vec::new();
    let mut i: usize = 0;
    while i < items.len()
        invariant
            i <= items@.len(),
            out@ =~= ids_of(views_of_refs(items@.take(i as int))),
        decreases items@.len() - i,
    {
        out.push(*items[i].id());
        i = i + 1;
    }
    proof {
        assert(items@.take(items@.len() as int) =~= items@);
    }
    out
}

/// Copies of the items that a calendar holds under the given identities.
fn copies(calendar: &Calendar, ids: &Vec<ItemId>) -> (r: Vec<Item>)
    requires
        calendar.well_formed(),
        forall|i: int| 0 <= i < ids@.len() ==> calendar@.items.dom().contains(#[trigger] ids@[i]),
    ensures
        r@.len() == ids@.len(),
        forall|i: int| 0 <= i < r@.len() ==> (#[trigger] r@[i])@ == calendar@.items[ids@[i]],
{
    let mut out: Vec<Item> = Vec::new();
    let mut i: usize = 0;
    while i < ids.len()
        invariant
            i <= ids@.len(),
            calendar.well_formed(),
            forall|i: int|
                0 <= i < ids@.len() ==> calendar@.items.dom().contains(#[trigger] ids@[i]),
            out@.len() == i,
            forall|j: int| 0 <= j < i ==> (#[trigger] out@[j])@ == calendar@.items[ids@[j]],
        decreases ids@.len() - i,
    {
        proof {
            assert(calendar@.items.dom().contains(ids@[i as int]));
        }
        match calendar.get_item_by_id(&ids[i]) {
            Some(it) => {
                out.push(it.clone());
            },
            None => {},
        }
        i = i + 1;
    }
    out
}

/// Records one change of the given kind for each identity.
fn record_changes(changes: &mut Vec<AppliedChange>, ids: &Vec<ItemId>, action: Action)
    ensures
        final(changes)@ == old(changes)@ + changes_of(ids@, action),
{
    let mut i: usize = 0;
    while i < ids.len()
        invariant
            i <= ids@.len(),
            changes@ =~= old(changes)@ + changes_of(ids@.take(i as int), action),
        decreases ids@.len() - i,
    {
        changes.push(AppliedChange { id: ids[i], action });
        i = i + 1;
    }
    proof {
        assert(ids@.take(ids@.len() as int) =~= ids@);
    }
}

fn copy_of(item: Option<&Item>) -> (r: Option<Item>)
    ensures
        match item {
            Some(it) => r.is_some() && r.unwrap()@ == it@,
            None => r.is_none(),
        },
{
    match item {
        Some(it) => Some(it.clone()),
        None => None,
    }
}

/// The conflicts among the given identities, with both versions as the
/// calendars hold them.
fn conflicts_among(
    remote: &Calendar,
    local: &Calendar,
    since: Option<Timestamp>,
    ids: &Vec<ItemId>,
) -> (r: Vec<Conflict>)
    requires
        remote.well_formed(),
        local.well_formed(),
        ids@.no_duplicates(),
    ensures
        forall|i: int, j: int|
            0 <= i < j < r@.len() ==> (#[trigger] r@[i]).id != (#[trigger] r@[j]).id,
        forall|c: ConflictView|
            conflict_views(r@).contains(c) <==> (ids@.contains(c.id)
                && expected_conflict(remote@, local@, since, c.id) == Some(c)),
{
    let mut out: Vec<Conflict> = Vec::new();
    let mut i: usize = 0;
    proof {
        assert(ids@.take(0) =~= Seq::<ItemId>::empty());
        assert(conflict_views(out@) =~= Seq::<ConflictView>::empty());
    }
    while i < ids.len()
        invariant
            i <= ids@.len(),
            remote.well_formed(),
            local.well_formed(),
            ids@.no_duplicates(),
            forall|k: int, l: int|
                0 <= k < l < out@.len() ==> (#[trigger] out@[k]).id != (#[trigger] out@[l]).id,
            forall|k: int| 0 <= k < out@.len() ==> ids@.take(i as int).contains((#[trigger] out@[k]).id),
            forall|c: ConflictView|
                conflict_views(out@).contains(c) <==> (ids@.take(i as int).contains(
                    c.id,
                ) && expected_conflict(remote@, local@, since, c.id) == Some(c)),
        decreases ids@.len() - i,
    {
        let id = ids[i];
        let v = classify(remote, local, since, &id);
        let ghost before = conflict_views(out@);
        proof {
            lemma_take_next(ids@, i as int);
        }
        match v.resolution() {
            Some(resolution) => {
                let conflict = Conflict {
                    id,
                    local: copy_of(local.get_item_by_id(&id)),
                    remote: copy_of(remote.get_item_by_id(&id)),
                    resolution,
                };
                proof {
                    assert(Some(conflict@) == expected_conflict(remote@, local@, since, id));
                    lemma_push_contains(before, conflict@);
                }
                out.push(conflict);
                proof {
                    assert(conflict_views(out@) =~= before.push(conflict@));
                }
            },
            None => {},
        }
        proof {
            let found = expected_conflict(remote@, local@, since, id);
            assert(conflict_views(out@) == match found {
                Some(cv) => before.push(cv),
                None => before,
            });
            assert forall|c: ConflictView|
                conflict_views(out@).contains(c) <==> (ids@.take(i + 1).contains(c.id)
                    && expected_conflict(remote@, local@, since, c.id) == Some(c)) by {
                assert(ids@.take(i + 1).contains(c.id) <==> (ids@.take(i as int).contains(c.id)
                    || c.id == id));
                assert(before.contains(c) <==> (ids@.take(i as int).contains(c.id)
                    && expected_conflict(remote@, local@, since, c.id) == Some(c)));
                if found is Some {
                    assert(before.push(found.unwrap()).contains(c) <==> (before.contains(c) || c
                        == found.unwrap()));
                }
            }
            assert forall|k: int| 0 <= k < out@.len() implies ids@.take(i + 1).contains(
                (#[trigger] out@[k]).id,
            ) by {
                if k < before.len() {
                    assert(ids@.take(i as int).contains(out@[k].id));
                }
            }
        }
        i = i + 1;
    }
    proof {
        assert(ids@.take(ids@.len() as int) =~= ids@);
    }
    out
}

/// The identities of both vectors, those of the first one first.
fn joined(first: &Vec<ItemId>, second: &Vec<ItemId>) -> (r: Vec<ItemId>)
    ensures
        r@ == first@ + second@,
{
    let mut out = first.clone();
    let mut tail = second.clone();
    assert(out@ =~= first@);
    assert(tail@ =~= second@);
    out.append(&mut tail);
    out
}

/// Whether the sequence holds exactly the identities on which the verdict
/// asks for the given change, each of them once.
spec fn selects(
    ids: Seq<ItemId>,
    remote: CalendarView,
    local: CalendarView,
    since: Option<Timestamp>,
    action: Action,
) -> bool {
    &&& ids.no_duplicates()
    &&& forall|id: ItemId|
        ids.contains(id) <==> verdict(remote, local, since, id).action() == Some(action)
}

proof fn lemma_listed_identities(items: Seq<&Item>, m: Map<ItemId, TaskView>)
    requires
        lists_exactly(views_of_refs(items), m),
    ensures
        ids_of(views_of_refs(items)).no_duplicates(),
        forall|id: ItemId| ids_of(views_of_refs(items)).contains(id) <==> m.dom().contains(id),
{
    let s = views_of_refs(items);
    let ids = ids_of(s);
    assert forall|i: int, j: int| 0 <= i < ids.len() && 0 <= j < ids.len() && i != j implies ids[i]
        != ids[j] by {
        if i < j {
            assert(s[i].id != s[j].id);
        } else {
            assert(s[j].id != s[i].id);
        }
    }
    assert forall|id: ItemId| ids.contains(id) <==> m.dom().contains(id) by {
        if ids.contains(id) {
            let k = choose|k: int| 0 <= k < ids.len() && ids[k] == id;
            assert(s[k].id == id);
        }
        if m.dom().contains(id) {
            let k = choose|k: int| 0 <= k < s.len() && (#[trigger] s[k]).id == id;
            assert(ids[k] == id);
        }
    }
}

/// The four lists of changes, one after the other, report each change once.
proof fn lemma_changes(
    remote: CalendarView,
    local: CalendarView,
    since: Option<Timestamp>,
    pulled: Seq<ItemId>,
    dropped_locally: Seq<ItemId>,
    pushed: Seq<ItemId>,
    dropped_remotely: Seq<ItemId>,
)
    requires
        selects(pulled, remote, local, since, Action::Pulled),
        selects(dropped_locally, remote, local, since, Action::DeletedLocally),
        selects(pushed, remote, local, since, Action::Pushed),
        selects(dropped_remotely, remote, local, since, Action::DeletedRemotely),
    ensures
        ({
            let changes = changes_of(pulled, Action::Pulled) + changes_of(
                dropped_locally,
                Action::DeletedLocally,
            ) + changes_of(pushed, Action::Pushed) + changes_of(
                dropped_remotely,
                Action::DeletedRemotely,
            );
            &&& forall|i: int, j: int|
                0 <= i < j < changes.len() ==> (#[trigger] changes[i]).id != (
                #[trigger] changes[j]).id
            &&& forall|c: AppliedChange| #[trigger]
                changes.contains(c) <==> expected_change(remote, local, since, c.id) == Some(c)
        }),
{
    let a = changes_of(pulled, Action::Pulled);
    let b = changes_of(dropped_locally, Action::DeletedLocally);
    let c = changes_of(pushed, Action::Pushed);
    let d = changes_of(dropped_remotely, Action::DeletedRemotely);
    let changes = a + b + c + d;
    assert forall|k: int| 0 <= k < changes.len() implies expected_change(
        remote,
        local,
        since,
        (#[trigger] changes[k]).id,
    ) == Some(changes[k]) by {
        if k < a.len() {
            assert(pulled.contains(pulled[k]));
        } else if k < a.len() + b.len() {
            assert(dropped_locally.contains(dropped_locally[k - a.len()]));
        } else if k < a.len() + b.len() + c.len() {
            assert(pushed.contains(pushed[k - a.len() - b.len()]));
        } else {
            assert(dropped_remotely.contains(dropped_remotely[k - a.len() - b.len() - c.len()]));
        }
    }
    assert forall|i: int, j: int| 0 <= i < j < changes.len() implies (#[trigger] changes[i]).id != (
    #[trigger] changes[j]).id by {
        if changes[i].id == changes[j].id {
            assert(changes[i] == changes[j]);
            if j < a.len() {
                assert(pulled[i] != pulled[j]);
            } else if i >= a.len() && j < a.len() + b.len() {
                assert(dropped_locally[i - a.len()] != dropped_locally[j - a.len()]);
            } else if i >= a.len() + b.len() && j < a.len() + b.len() + c.len() {
                assert(pushed[i - a.len() - b.len()] != pushed[j - a.len() - b.len()]);
            } else if i >= a.len() + b.len() + c.len() {
                assert(dropped_remotely[i - a.len() - b.len() - c.len()] != dropped_remotely[j
                    - a.len() - b.len() - c.len()]);
            }
        }
    }
    assert forall|x: AppliedChange| #[trigger]
        changes.contains(x) <==> expected_change(remote, local, since, x.id) == Some(x) by {
        if changes.contains(x) {
            let k = choose|k: int| 0 <= k < changes.len() && changes[k] == x;
            assert(expected_change(remote, local, since, changes[k].id) == Some(changes[k]));
        }
        if expected_change(remote, local, since, x.id) == Some(x) {
            assert(verdict(remote, local, since, x.id).action() == Some(x.action));
            if x.action == Action::Pulled {
                assert(pulled.contains(x.id));
                let k = choose|k: int| 0 <= k < pulled.len() && pulled[k] == x.id;
                assert(changes[k] == x);
            } else if x.action == Action::DeletedLocally {
                assert(dropped_locally.contains(x.id));
                let k = choose|k: int|
                    0 <= k < dropped_locally.len() && dropped_locally[k] == x.id;
                assert(changes[a.len() + k] == x);
            } else if x.action == Action::Pushed {
                assert(pushed.contains(x.id));
                let k = choose|k: int| 0 <= k < pushed.len() && pushed[k] == x.id;
                assert(changes[a.len() + b.len() + k] == x);
            } else {
                assert(dropped_remotely.contains(x.id));
                let k = choose|k: int|
                    0 <= k < dropped_remotely.len() && dropped_remotely[k] == x.id;
                assert(changes[a.len() + b.len() + c.len() + k] == x);
            }
        }
    }
}

/// Taking out of the local calendar what the server changed or deleted, and
/// adding the server's versions, gives the local items that the rules ask for.
proof fn lemma_local_outcome(
    remote: CalendarView,
    local: CalendarView,
    since: Option<Timestamp>,
    pulled: Seq<ItemId>,
    dropped_locally: Seq<ItemId>,
    versions: Seq<TaskView>,
)
    requires
        remote.well_formed(),
        local.well_formed(),
        selects(pulled, remote, local, since, Action::Pulled),
        selects(dropped_locally, remote, local, since, Action::DeletedLocally),
        versions.len() == pulled.len(),
        forall|i: int|
            0 <= i < versions.len() ==> remote.items.dom().contains(pulled[i])
                && #[trigger] versions[i] == remote.items[pulled[i]],
    ensures
        absorbed(local.items.remove_keys((pulled + dropped_locally).to_set()), versions)
            == reconciled_local_items(remote, local, since),
        refused(local.items.remove_keys((pulled + dropped_locally).to_set()), versions).len() == 0,
{
    let taken = (pulled + dropped_locally).to_set();
    let m = local.items.remove_keys(taken);
    lemma_joined(pulled, dropped_locally);
    assert forall|i: int| 0 <= i < versions.len() implies (#[trigger] versions[i]).id
        == pulled[i] by {
        assert(pulled.contains(pulled[i]));
    }
    assert forall|i: int| 0 <= i < versions.len() implies !m.dom().contains(
        (#[trigger] versions[i]).id,
    ) by {
        assert(pulled.contains(pulled[i]));
    }
    assert forall|i: int, j: int| 0 <= i < j < versions.len() implies (#[trigger] versions[i]).id
        != (#[trigger] versions[j]).id by {
        assert(pulled[i] != pulled[j]);
    }
    lemma_absorbed_fresh(m, versions);
    let got = absorbed(m, versions);
    let want = reconciled_local_items(remote, local, since);
    assert forall|id: ItemId| identities(versions).contains(id) <==> pulled.contains(id) by {
        if identities(versions).contains(id) {
            let i = choose|i: int| 0 <= i < versions.len() && (#[trigger] versions[i]).id == id;
            assert(pulled[i] == id);
        }
        if pulled.contains(id) {
            let i = choose|i: int| 0 <= i < pulled.len() && pulled[i] == id;
            assert(versions[i].id == id);
        }
    }
    assert forall|id: ItemId| got.dom().contains(id) <==> want.dom().contains(id) by {
        let a = verdict(remote, local, since, id).action();
        assert(pulled.contains(id) <==> a == Some(Action::Pulled));
        assert(dropped_locally.contains(id) <==> a == Some(Action::DeletedLocally));
        assert(taken.contains(id) <==> (pulled + dropped_locally).contains(id));
        assert(m.dom().contains(id) <==> (local.items.dom().contains(id) && !taken.contains(id)));
        assert(got.dom().contains(id) <==> (m.dom().contains(id) || identities(versions).contains(
            id,
        )));
    }
    assert forall|id: ItemId| got.dom().contains(id) implies got[id] == want[id] by {
        let a = verdict(remote, local, since, id).action();
        assert(pulled.contains(id) <==> a == Some(Action::Pulled));
        if pulled.contains(id) {
            let i = choose|i: int| 0 <= i < pulled.len() && pulled[i] == id;
            assert(versions[i].id == id);
            assert(got[versions[i].id] == versions[i]);
        } else {
            assert(m.dom().contains(id));
        }
    }
    assert(got =~= want);
}

/// Taking out of the server's calendar what the local side changed or
/// deleted, and adding the local versions, gives the server's items that the
/// rules ask for.
proof fn lemma_remote_outcome(
    remote: CalendarView,
    local: CalendarView,
    since: Option<Timestamp>,
    pushed: Seq<ItemId>,
    dropped_remotely: Seq<ItemId>,
    versions: Seq<TaskView>,
)
    requires
        remote.well_formed(),
        local.well_formed(),
        selects(pushed, remote, local, since, Action::Pushed),
        selects(dropped_remotely, remote, local, since, Action::DeletedRemotely),
        versions.len() == pushed.len(),
        forall|i: int|
            0 <= i < versions.len() ==> local.items.dom().contains(pushed[i])
                && #[trigger] versions[i] == local.items[pushed[i]],
    ensures
        absorbed(remote.items.remove_keys((pushed + dropped_remotely).to_set()), versions)
            == reconciled_remote_items(remote, local, since),
        refused(remote.items.remove_keys((pushed + dropped_remotely).to_set()), versions).len()
            == 0,
{
    let taken = (pushed + dropped_remotely).to_set();
    let m = remote.items.remove_keys(taken);
    lemma_joined(pushed, dropped_remotely);
    assert forall|i: int| 0 <= i < versions.len() implies (#[trigger] versions[i]).id
        == pushed[i] by {
        assert(pushed.contains(pushed[i]));
    }
    assert forall|i: int| 0 <= i < versions.len() implies !m.dom().contains(
        (#[trigger] versions[i]).id,
    ) by {
        assert(pushed.contains(pushed[i]));
    }
    assert forall|i: int, j: int| 0 <= i < j < versions.len() implies (#[trigger] versions[i]).id
        != (#[trigger] versions[j]).id by {
        assert(pushed[i] != pushed[j]);
    }
    lemma_absorbed_fresh(m, versions);
    let got = absorbed(m, versions);
    let want = reconciled_remote_items(remote, local, since);
    assert forall|id: ItemId| identities(versions).contains(id) <==> pushed.contains(id) by {
        if identities(versions).contains(id) {
            let i = choose|i: int| 0 <= i < versions.len() && (#[trigger] versions[i]).id == id;
            assert(pushed[i] == id);
        }
        if pushed.contains(id) {
            let i = choose|i: int| 0 <= i < pushed.len() && pushed[i] == id;
            assert(versions[i].id == id);
        }
    }
    assert forall|id: ItemId| got.dom().contains(id) <==> want.dom().contains(id) by {
        let a = verdict(remote, local, since, id).action();
        assert(pushed.contains(id) <==> a == Some(Action::Pushed));
        assert(dropped_remotely.contains(id) <==> a == Some(Action::DeletedRemotely));
        assert(taken.contains(id) <==> (pushed + dropped_remotely).contains(id));
        assert(m.dom().contains(id) <==> (remote.items.dom().contains(id) && !taken.contains(id)));
        assert(got.dom().contains(id) <==> (m.dom().contains(id) || identities(versions).contains(
            id,
        )));
    }
    assert forall|id: ItemId| got.dom().contains(id) implies got[id] == want[id] by {
        let a = verdict(remote, local, since, id).action();
        assert(pushed.contains(id) <==> a == Some(Action::Pushed));
        if pushed.contains(id) {
            let i = choose|i: int| 0 <= i < pushed.len() && pushed[i] == id;
            assert(versions[i].id == id);
            assert(got[versions[i].id] == versions[i]);
        } else {
            assert(m.dom().contains(id));
        }
    }
    assert(got =~= want);
}

/// Reconciles one pair of calendars against the checkpoint `since` of the
/// last successful pass (`None` on a first pass).
///
/// Both calendars are read first, and every verdict is reached before
/// anything is changed. Then the local calendar receives what the server
/// changed and loses what the server deleted, and after that the server
/// receives what only the local side changed and loses what only the local
/// side deleted. Where both sides touched an item, the server wins, and the
/// conflict is reported. Both calendars forget the deletions they
/// remembered: the other side has seen them all.
pub fn sync_calendars(
    remote: &mut Calendar,
    local: &mut Calendar,
    since: Option<Timestamp>,
) -> (report: CalendarReport)
    requires
        old(remote).well_formed(),
        old(local).well_formed(),
    ensures
        final(remote).well_formed(),
        final(local).well_formed(),
        final(remote)@ == reconciled_remote(old(remote)@, old(local)@, since),
        final(local)@ == reconciled_local(old(remote)@, old(local)@, since),
        reports_exactly(report@, old(remote)@, old(local)@, since),
{
    let ghost r0 = remote@;
    let ghost l0 = local@;
    proof {
        remote.lemma_view_well_formed();
        local.lemma_view_well_formed();
    }
    // What either side changed and deleted since the checkpoint.
    let remote_changed = remote.get_tasks_modified_since(since);
    let local_changed = local.get_tasks_modified_since(since);
    let remote_modified = identities_of(&remote_changed);
    let local_modified = identities_of(&local_changed);
    let remote_deleted = match since {
        Some(t) => remote.get_items_deleted_since(t),
        None => Vec::new(),
    };
    let local_deleted = match since {
        Some(t) => local.get_items_deleted_since(t),
        None => Vec::new(),
    };
    proof {
        lemma_listed_identities(remote_changed@, r0.items.restrict(r0.modified_since(since)));
        lemma_listed_identities(local_changed@, l0.items.restrict(l0.modified_since(since)));
    }
    // The verdicts, while both calendars are as they were.
    let pulled = select(remote, local, since, &remote_modified, Action::Pulled);
    let dropped_locally = select(remote, local, since, &remote_deleted, Action::DeletedLocally);
    let pushed = select(remote, local, since, &local_modified, Action::Pushed);
    let dropped_remotely = select(remote, local, since, &local_deleted, Action::DeletedRemotely);
    proof {
        assert forall|id: ItemId|
            verdict(r0, l0, since, id).action() == Some(
                Action::Pulled,
            ) implies remote_modified@.contains(id) by {
            assert(r0.items.restrict(r0.modified_since(since)).dom().contains(id));
        }
        assert forall|id: ItemId|
            verdict(r0, l0, since, id).action() == Some(
                Action::Pushed,
            ) implies local_modified@.contains(id) by {
            assert(l0.items.restrict(l0.modified_since(since)).dom().contains(id));
        }
        assert(selects(pulled@, r0, l0, since, Action::Pulled));
        assert(selects(dropped_locally@, r0, l0, since, Action::DeletedLocally));
        assert(selects(pushed@, r0, l0, since, Action::Pushed));
        assert(selects(dropped_remotely@, r0, l0, since, Action::DeletedRemotely));
        lemma_joined(pulled@, dropped_locally@);
        lemma_joined(pushed@, dropped_remotely@);
    }
    let touched_locally = joined(&pulled, &dropped_locally);
    let touched_remotely = joined(&pushed, &dropped_remotely);

    // The report.
    let mut changes: Vec<AppliedChange> = Vec::new();
    record_changes(&mut changes, &pulled, Action::Pulled);
    record_changes(&mut changes, &dropped_locally, Action::DeletedLocally);
    record_changes(&mut changes, &pushed, Action::Pushed);
    record_changes(&mut changes, &dropped_remotely, Action::DeletedRemotely);
    let conflicts = conflicts_among(remote, local, since, &touched_locally);
    let url = remote.url().clone();
    proof {
        lemma_changes(r0, l0, since, pulled@, dropped_locally@, pushed@, dropped_remotely@);
        assert(changes@ =~= changes_of(pulled@, Action::Pulled) + changes_of(
            dropped_locally@,
            Action::DeletedLocally,
        ) + changes_of(pushed@, Action::Pushed) + changes_of(
            dropped_remotely@,
            Action::DeletedRemotely,
        ));
        let listed = conflict_views(conflicts@);
        assert forall|c: ConflictView| #[trigger]
            listed.contains(c) <==> expected_conflict(r0, l0, since, c.id) == Some(c) by {
            if expected_conflict(r0, l0, since, c.id) == Some(c) {
                assert(pulled@.contains(c.id) || dropped_locally@.contains(c.id));
                assert(touched_locally@.contains(c.id));
            }
        }
    }

    // The versions that change sides.
    proof {
        assert forall|i: int| 0 <= i < pulled@.len() implies r0.items.dom().contains(
            #[trigger] pulled@[i],
        ) by {
            assert(pulled@.contains(pulled@[i]));
        }
        assert forall|i: int| 0 <= i < pushed@.len() implies l0.items.dom().contains(
            #[trigger] pushed@[i],
        ) by {
            assert(pushed@.contains(pushed@[i]));
        }
    }
    let mut to_add_to_local = copies(remote, &pulled);
    let mut to_add_to_remote = copies(local, &pushed);
    let ghost pulled_versions = views_of(to_add_to_local@);
    let ghost pushed_versions = views_of(to_add_to_remote@);
    proof {
        lemma_local_outcome(r0, l0, since, pulled@, dropped_locally@, pulled_versions);
        lemma_remote_outcome(r0, l0, since, pushed@, dropped_remotely@, pushed_versions);
    }

    // The changes themselves.
    remove_from_calendar(&touched_locally, local);
    let mut duplicates = move_to_calendar(&mut to_add_to_local, local);
    local.forget_deleted();
    remove_from_calendar(&touched_remotely, remote);
    let mut more = move_to_calendar(&mut to_add_to_remote, remote);
    remote.forget_deleted();
    duplicates.append(&mut more);
    CalendarReport { url, conflicts, changes, duplicates }
}

} // verus!
