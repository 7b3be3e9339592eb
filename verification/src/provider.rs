//! The engine that reconciles two data sources.

use vstd::prelude::*;
use crate::calendar::{Calendar, CalendarView, DuplicateIdentity};
use crate::item::{views_of, Item, ItemId, TaskView};
use crate::merge::{reports_exactly, sync_calendars};
use crate::reconcile::{
    item_at, law_deletion_propagates, law_disjoint_edits_kept, law_second_pass_changes_nothing,
    law_server_wins, not_earlier, reconciled_local, reconciled_remote, verdict, Verdict,
};
use crate::report::{
    CollectionNotPaired, CollectionNotPairedView, Replica, SyncReport, SyncReportView,
};
use crate::sequences::lemma_push_contains;
use crate::timestamp::{clock_now, Timestamp};
use crate::traits::{lists_calendars, CalDavSource, Reach, SourceError, SyncSlave};

verus! {

/// Why a pass failed as a whole.
#[derive(Debug)]
pub enum SyncError {
    /// A replica could not list its calendars. Nothing was changed.
    SourceUnreachable { replica: Replica, cause: SourceError },
}

/// Whether a pass failed because the given replica could not list its
/// calendars, and says so in the replica's words.
pub open spec fn failed_on(
    r: Result<SyncReport, SyncError>,
    on: Replica,
    message: Seq<char>,
) -> bool {
    r matches Err(SyncError::SourceUnreachable { replica, cause }) && replica == on
        && cause.message@ == message
}

/// What a provider holds, as a mathematical value: the calendars of both
/// replicas by URL, and the checkpoint.
pub struct ProviderView {
    pub server: Map<Seq<char>, CalendarView>,
    pub local: Map<Seq<char>, CalendarView>,
    pub last_sync: Option<Timestamp>,
}

impl ProviderView {
    /// Every calendar is well formed and filed under its own URL.
    pub open spec fn well_formed(self) -> bool {
        &&& forall|url: Seq<char>| #[trigger]
            self.server.dom().contains(url) ==> self.server[url].well_formed()
                && self.server[url].url == url
        &&& forall|url: Seq<char>| #[trigger]
            self.local.dom().contains(url) ==> self.local[url].well_formed() && self.local[url].url
                == url
    }

    /// Whether both replicas hold a calendar under the URL.
    pub open spec fn paired(self, url: Seq<char>) -> bool {
        self.server.dom().contains(url) && self.local.dom().contains(url)
    }
}

/// What a provider holds after a successful pass that started at `start`:
/// every pair of calendars is reconciled against the old checkpoint, every
/// calendar without a counterpart is as it was, and the checkpoint is the
/// start of the pass, or the old checkpoint if that is later.
pub open spec fn pass(v: ProviderView, start: Timestamp) -> ProviderView {
    ProviderView {
        server: Map::new(
            |url: Seq<char>| v.server.dom().contains(url),
            |url: Seq<char>|
                if v.paired(url) {
                    reconciled_remote(v.server[url], v.local[url], v.last_sync)
                } else {
                    v.server[url]
                },
        ),
        local: Map::new(
            |url: Seq<char>| v.local.dom().contains(url),
            |url: Seq<char>|
                if v.paired(url) {
                    reconciled_local(v.server[url], v.local[url], v.last_sync)
                } else {
                    v.local[url]
                },
        ),
        last_sync: Some(start.advance(v.last_sync)),
    }
}

/// Whether the entry names a calendar that the given replica lacks and the
/// other one has.
pub open spec fn is_not_paired(v: ProviderView, e: CollectionNotPairedView) -> bool {
    match e.missing_on {
        Replica::Local => v.server.dom().contains(e.url) && !v.local.dom().contains(e.url),
        Replica::Server => v.local.dom().contains(e.url) && !v.server.dom().contains(e.url),
    }
}

/// Whether a report says what a pass found in what the provider held: one
/// exact report for each pair of calendars, and one entry for each calendar
/// without a counterpart.
pub open spec fn reports_pass(report: SyncReportView, v: ProviderView) -> bool {
    &&& forall|i: int, j: int|
        0 <= i < j < report.calendars.len() ==> (#[trigger] report.calendars[i]).url != (
        #[trigger] report.calendars[j]).url
    &&& forall|i: int|
        0 <= i < report.calendars.len() ==> v.paired((#[trigger] report.calendars[i]).url)
            && reports_exactly(
            report.calendars[i],
            v.server[report.calendars[i].url],
            v.local[report.calendars[i].url],
            v.last_sync,
        )
    &&& forall|url: Seq<char>| #[trigger]
        v.paired(url) ==> exists|i: int|
            0 <= i < report.calendars.len() && (#[trigger] report.calendars[i]).url == url
    &&& report.not_paired.no_duplicates()
    &&& forall|e: CollectionNotPairedView| #[trigger]
        report.not_paired.contains(e) <==> is_not_paired(v, e)
}

/// How a pass that started at `start` may end: with a report, the pairs
/// reconciled and the checkpoint advanced; or with an error, and nothing
/// changed.
pub open spec fn pass_outcome(
    before: ProviderView,
    start: Timestamp,
    after: ProviderView,
    r: Result<SyncReport, SyncError>,
) -> bool {
    match r {
        Ok(report) => after == pass(before, start) && reports_pass(report@, before),
        Err(_) => after == before,
    }
}

/// The server wins: an item that both replicas modified since the
/// checkpoint is, after a pass, on both replicas what the server had,
/// whichever of the two versions carries the later timestamp.
pub proof fn law_sync_server_wins(v: ProviderView, start: Timestamp, url: Seq<char>, id: ItemId)
    requires
        v.well_formed(),
        v.paired(url),
        v.server[url].modified_since(v.last_sync).contains(id),
        v.local[url].modified_since(v.last_sync).contains(id),
    ensures
        item_at(pass(v, start).local[url].items, id) == Some(v.server[url].items[id]),
        item_at(pass(v, start).server[url].items, id) == Some(v.server[url].items[id]),
{
    law_server_wins(v.server[url], v.local[url], v.last_sync, id);
}

/// Deletions propagate: an item that one replica deleted since the
/// checkpoint and the other did not modify is, after a pass, on neither.
pub proof fn law_sync_propagates_deletions(
    v: ProviderView,
    start: Timestamp,
    url: Seq<char>,
    id: ItemId,
)
    requires
        v.well_formed(),
        v.paired(url),
        (v.server[url].deleted_since(v.last_sync).contains(id) && !v.local[url].modified_since(
            v.last_sync,
        ).contains(id)) || (v.local[url].deleted_since(v.last_sync).contains(id)
            && !v.server[url].modified_since(v.last_sync).contains(id)),
    ensures
        !pass(v, start).local[url].items.dom().contains(id),
        !pass(v, start).server[url].items.dom().contains(id),
{
    law_deletion_propagates(v.server[url], v.local[url], v.last_sync, id);
}

/// Disjoint edits are not lost: an item that exactly one replica modified
/// since the checkpoint, and that the other did not delete, is after a pass
/// on both replicas, in the modified version.
pub proof fn law_sync_keeps_disjoint_edits(
    v: ProviderView,
    start: Timestamp,
    url: Seq<char>,
    id: ItemId,
)
    requires
        v.well_formed(),
        v.paired(url),
        v.server[url].modified_since(v.last_sync).contains(id) != v.local[url].modified_since(
            v.last_sync,
        ).contains(id),
        !v.server[url].deleted_since(v.last_sync).contains(id),
        !v.local[url].deleted_since(v.last_sync).contains(id),
    ensures
        ({
            let modified = if v.server[url].modified_since(v.last_sync).contains(id) {
                v.server[url].items[id]
            } else {
                v.local[url].items[id]
            };
            &&& item_at(pass(v, start).local[url].items, id) == Some(modified)
            &&& item_at(pass(v, start).server[url].items, id) == Some(modified)
        }),
{
    law_disjoint_edits_kept(v.server[url], v.local[url], v.last_sync, id);
}

/// A second pass changes nothing: after a successful pass, another one,
/// whenever it starts, finds every item of every pair settled and leaves
/// the calendars of both replicas as they are.
pub proof fn law_sync_is_idempotent(v: ProviderView, first: Timestamp, second: Timestamp)
    requires
        v.well_formed(),
    ensures
        pass(pass(v, first), second).server == pass(v, first).server,
        pass(pass(v, first), second).local == pass(v, first).local,
        forall|url: Seq<char>, id: ItemId|
            pass(v, first).paired(url) ==> #[trigger] verdict(
                pass(v, first).server[url],
                pass(v, first).local[url],
                pass(v, first).last_sync,
                id,
            ) == Verdict::Settled,
{
    let once = pass(v, first);
    let twice = pass(once, second);
    assert forall|url: Seq<char>| v.paired(url) implies ({
        &&& reconciled_remote(once.server[url], once.local[url], once.last_sync)
            == once.server[url]
        &&& reconciled_local(once.server[url], once.local[url], once.last_sync) == once.local[url]
        &&& forall|id: ItemId|
            verdict(once.server[url], once.local[url], once.last_sync, id) == Verdict::Settled
    }) by {
        assert(v.server.dom().contains(url));
        assert(v.local.dom().contains(url));
        law_second_pass_changes_nothing(v.server[url], v.local[url], v.last_sync, once.last_sync);
    }
    assert forall|url: Seq<char>| once.server.dom().contains(url) implies twice.server[url]
        == once.server[url] by {
        if v.paired(url) {
        }
    }
    assert forall|url: Seq<char>| once.local.dom().contains(url) implies twice.local[url]
        == once.local[url] by {
        if v.paired(url) {
        }
    }
    assert(twice.server =~= once.server);
    assert(twice.local =~= once.local);
    assert forall|url: Seq<char>, id: ItemId| once.paired(url) implies #[trigger] verdict(
        once.server[url],
        once.local[url],
        once.last_sync,
        id,
    ) == Verdict::Settled by {
        assert(v.paired(url));
    }
}

/// The checkpoint only moves forward: after a successful pass it is no
/// earlier than before, and it is the start of the pass whenever that is no
/// earlier than the old checkpoint.
pub proof fn law_checkpoint_is_monotonic(v: ProviderView, start: Timestamp)
    ensures
        not_earlier(pass(v, start).last_sync, v.last_sync),
        not_earlier(Some(start), v.last_sync) ==> pass(v, start).last_sync == Some(start),
        pass(v, start).last_sync == Some(start) || pass(v, start).last_sync == v.last_sync,
{
}

/// A data source that combines two others, usually a server and a local
/// cache, and reconciles them.
pub struct Provider<S, L> where S: CalDavSource, L: CalDavSource + SyncSlave {
    /// The remote server.
    server: S,
    /// The local cache.
    local: L,
}

impl<S, L> View for Provider<S, L> where S: CalDavSource, L: CalDavSource + SyncSlave {
    type V = ProviderView;

    closed spec fn view(&self) -> ProviderView {
        ProviderView {
            server: self.server.calendars(),
            local: self.local.calendars(),
            last_sync: self.local.last_sync(),
        }
    }
}

/// The URLs of the calendars, in their order.
fn urls_of(list: &Vec<Calendar>) -> (r: Vec<String>)
    ensures
        r@.len() == list@.len(),
        forall|i: int| 0 <= i < r@.len() ==> (#[trigger] r@[i])@ == list@[i]@.url,
{
    let mut out: Vec<String> = Vec::new();
    let mut i: usize = 0;
    while i < list.len()
        invariant
            i <= list@.len(),
            out@.len() == i,
            forall|j: int| 0 <= j < i ==> (#[trigger] out@[j])@ == list@[j]@.url,
        decreases list@.len() - i,
    {
        out.push(list[i].url().clone());
        i = i + 1;
    }
    out
}

/// The server's calendars once those in `done` are reconciled with their
/// local counterparts.
spec fn server_after(v: ProviderView, done: Set<Seq<char>>) -> Map<Seq<char>, CalendarView> {
    Map::new(
        |url: Seq<char>| v.server.dom().contains(url),
        |url: Seq<char>|
            if done.contains(url) && v.local.dom().contains(url) {
                reconciled_remote(v.server[url], v.local[url], v.last_sync)
            } else {
                v.server[url]
            },
    )
}

/// The local calendars once those in `done` are reconciled with the server's.
spec fn local_after(v: ProviderView, done: Set<Seq<char>>) -> Map<Seq<char>, CalendarView> {
    Map::new(
        |url: Seq<char>| v.local.dom().contains(url),
        |url: Seq<char>|
            if done.contains(url) && v.server.dom().contains(url) {
                reconciled_local(v.server[url], v.local[url], v.last_sync)
            } else {
                v.local[url]
            },
    )
}

/// The URLs listed before position `upto`.
spec fn listed_before(urls: Seq<String>, upto: int) -> Set<Seq<char>> {
    Set::new(|url: Seq<char>| exists|j: int| 0 <= j < upto && (#[trigger] urls[j])@ == url)
}

/// Whether the URLs are those of the calendars in the map, each of them once.
spec fn lists_urls(urls: Seq<String>, held: Map<Seq<char>, CalendarView>) -> bool {
    &&& forall|i: int, j: int| 0 <= i < j < urls.len() ==> (#[trigger] urls[i])@ != (#[trigger] urls[j])@
    &&& held.dom() =~= listed_before(urls, urls.len() as int)
}

impl<S, L> Provider<S, L> where S: CalDavSource, L: CalDavSource + SyncSlave {
    /// Both sources are well formed.
    pub closed spec fn well_formed(&self) -> bool {
        self.server.well_formed() && self.local.well_formed()
    }

    /// What listing the calendars of the given replica is sure to end in.
    pub closed spec fn reach(&self, replica: Replica) -> Reach {
        match replica {
            Replica::Server => self.server.reach(),
            Replica::Local => self.local.reach(),
        }
    }

    /// Whether a pass ends as the reach of the replicas says it must. Where
    /// both are sure to list their calendars, it succeeds. Where one is sure
    /// not to, it fails on that one, with that replica's message; the server
    /// is asked first. And an error never names a replica that is sure to
    /// list its calendars.
    pub open spec fn answers_to_reach(&self, r: Result<SyncReport, SyncError>) -> bool {
        &&& self.reach(Replica::Server) is Reachable && self.reach(Replica::Local) is Reachable
            ==> r is Ok
        &&& self.reach(Replica::Server) matches Reach::Unreachable { message } ==> failed_on(
            r,
            Replica::Server,
            message,
        )
        &&& self.reach(Replica::Server) is Reachable ==> (self.reach(
            Replica::Local,
        ) matches Reach::Unreachable { message } ==> failed_on(r, Replica::Local, message))
        &&& r matches Err(SyncError::SourceUnreachable { replica, .. }) ==> self.reach(replica)
            !is Reachable && (replica == Replica::Local ==> self.reach(Replica::Server)
            !is Unreachable)
    }

    /// Whether the provider is as sure as it was of what listing the
    /// calendars of either replica ends in.
    pub open spec fn same_reach(&self, before: &Self) -> bool {
        &&& self.reach(Replica::Server) == before.reach(Replica::Server)
        &&& self.reach(Replica::Local) == before.reach(Replica::Local)
    }

    /// A provider for the two sources.
    pub fn new(server: S, local: L) -> (p: Self)
        requires
            server.well_formed(),
            local.well_formed(),
        ensures
            p.well_formed(),
            p.reach(Replica::Server) == server.reach(),
            p.reach(Replica::Local) == local.reach(),
            p@ == (ProviderView {
                server: server.calendars(),
                local: local.calendars(),
                last_sync: local.last_sync(),
            }),
    {
        Self { server, local }
    }

    /// The remote server.
    pub fn server(&self) -> (s: &S)
        ensures
            self.well_formed() ==> s.well_formed(),
            s.calendars() == self@.server,
            s.reach() == self.reach(Replica::Server),
    {
        &self.server
    }

    /// The local cache.
    pub fn local(&self) -> (l: &L)
        ensures
            self.well_formed() ==> l.well_formed(),
            l.calendars() == self@.local,
            l.last_sync() == self@.last_sync,
            l.reach() == self.reach(Replica::Local),
    {
        &self.local
    }

    /// The last time the local source was synced.
    pub fn last_sync_timestamp(&self) -> (t: Option<Timestamp>)
        requires
            self.well_formed(),
        ensures
            t == self@.last_sync,
    {
        self.local.get_last_sync()
    }

    /// Reconciles each of the server's calendars with its local counterpart,
    /// and notes those that have none.
    fn sync_pairs(&mut self, urls: &Vec<String>, since: Option<Timestamp>, report: &mut SyncReport)
        requires
            old(self).well_formed(),
            lists_urls(urls@, old(self)@.server),
            since == old(self)@.last_sync,
            old(report)@.calendars.len() == 0,
            old(report)@.not_paired.len() == 0,
        ensures
            final(self).well_formed(),
            final(self).same_reach(old(self)),
            final(self)@.server == server_after(old(self)@, old(self)@.server.dom()),
            final(self)@.local == local_after(old(self)@, old(self)@.server.dom()),
            reports_pairs(final(report)@, old(self)@, old(self)@.server.dom()),
    {
        let ghost v = self@;
        let mut i: usize = 0;
        proof {
            assert(listed_before(urls@, 0) =~= Set::<Seq<char>>::empty());
            assert(self.server.calendars() =~= server_after(v, listed_before(urls@, 0)));
            assert(self.local.calendars() =~= local_after(v, listed_before(urls@, 0)));
        }
        while i < urls.len()
            invariant
                i <= urls@.len(),
                self.well_formed(),
                self.same_reach(old(self)),
                lists_urls(urls@, v.server),
                since == v.last_sync,
                self.server.calendars() == server_after(v, listed_before(urls@, i as int)),
                self.local.calendars() == local_after(v, listed_before(urls@, i as int)),
                reports_pairs(report@, v, listed_before(urls@, i as int)),
            decreases urls@.len() - i,
        {
            let url = &urls[i];
            let ghost done = listed_before(urls@, i as int);
            let ghost next = listed_before(urls@, i + 1);
            let ghost server_before = self.server.calendars();
            let ghost local_before = self.local.calendars();
            let ghost calendars_before = report@.calendars;
            let ghost not_paired_before = report@.not_paired;
            proof {
                lemma_listed_next(urls@, i as int);
            }
            match self.local.get_calendar_mut(url) {
                Some(cal_local) => {
                    match self.server.get_calendar_mut(url) {
                        Some(cal_server) => {
                            let pair_report = sync_calendars(cal_server, cal_local, since);
                            let ghost entry = pair_report@;
                            report.calendars.push(pair_report);
                            proof {
                                assert(report@.calendars =~= calendars_before.push(entry));
                                assert(report@.not_paired =~= not_paired_before);
                                assert(entry.url == url@);
                                assert(v.paired(url@));
                                let listed = report@.calendars;
                                assert forall|k: int, l: int|
                                    0 <= k < l < listed.len() implies (#[trigger] listed[k]).url != (
                                #[trigger] listed[l]).url by {
                                    if l == calendars_before.len() {
                                        assert(done.contains(calendars_before[k].url));
                                    } else {
                                        assert(calendars_before[k].url != calendars_before[l].url);
                                    }
                                }
                                assert forall|u: Seq<char>| #[trigger]
                                    next.contains(u) && v.paired(u) implies exists|k: int|
                                    0 <= k < listed.len() && (#[trigger] listed[k]).url == u by {
                                    if u == url@ {
                                        assert(listed[calendars_before.len() as int].url == u);
                                    } else {
                                        assert(done.contains(u));
                                        let k = choose|k: int|
                                            0 <= k < calendars_before.len() && (
                                            #[trigger] calendars_before[k]).url == u;
                                        assert(listed[k].url == u);
                                    }
                                }
                                assert(reports_pairs(report@, v, next));
                            }
                        },
                        None => {
                            // The URL comes from the server's own list.
                            proof {
                                assert(v.server.dom().contains(url@));
                                assert(server_before.dom().contains(url@));
                            }
                        },
                    }
                },
                None => {
                    let entry = CollectionNotPaired { url: url.clone(), missing_on: Replica::Local };
                    let ghost e = entry@;
                    proof {
                        lemma_push_contains(not_paired_before, e);
                    }
                    report.not_paired.push(entry);
                    proof {
                        assert(report@.not_paired =~= not_paired_before.push(e));
                        assert(report@.calendars =~= calendars_before);
                        assert(e.url == url@ && e.missing_on == Replica::Local);
                        assert(v.server.dom().contains(url@));
                        assert(!v.local.dom().contains(url@));
                        assert(is_not_paired(v, e));
                        assert(!not_paired_before.contains(e));
                        let listed = report@.calendars;
                        assert forall|u: Seq<char>| #[trigger]
                            next.contains(u) && v.paired(u) implies exists|k: int|
                            0 <= k < listed.len() && (#[trigger] listed[k]).url == u by {
                            assert(done.contains(u));
                        }
                        assert forall|x: CollectionNotPairedView| #[trigger]
                            report@.not_paired.contains(x) <==> (x.missing_on == Replica::Local
                                && next.contains(x.url) && is_not_paired(v, x)) by {
                            assert(not_paired_before.push(e).contains(x) <==> (
                            not_paired_before.contains(x) || x == e));
                            assert(not_paired_before.contains(x) <==> (x.missing_on
                                == Replica::Local && done.contains(x.url) && is_not_paired(v, x)));
                        }
                        assert(reports_pairs(report@, v, next));
                    }
                },
            }
            proof {
                assert(self.server.calendars() =~= server_after(v, next));
                assert(self.local.calendars() =~= local_after(v, next));
            }
            i = i + 1;
        }
    }

    /// Notes the local calendars that the server has no counterpart for.
    fn note_missing_on_server(&self, urls: &Vec<String>, report: &mut SyncReport)
        requires
            self.well_formed(),
            lists_urls(urls@, self@.local),
            old(report)@.not_paired.no_duplicates(),
            forall|e: CollectionNotPairedView| #[trigger]
                old(report)@.not_paired.contains(e) ==> e.missing_on == Replica::Local,
        ensures
            final(report)@.calendars == old(report)@.calendars,
            final(report)@.not_paired.no_duplicates(),
            forall|e: CollectionNotPairedView| #[trigger]
                final(report)@.not_paired.contains(e) <==> (old(report)@.not_paired.contains(e) || (
                e.missing_on == Replica::Server && is_not_paired(self@, e))),
    {
        let mut i: usize = 0;
        proof {
            assert(listed_before(urls@, 0) =~= Set::<Seq<char>>::empty());
        }
        while i < urls.len()
            invariant
                i <= urls@.len(),
                self.well_formed(),
                lists_urls(urls@, self@.local),
                report@.calendars == old(report)@.calendars,
                report@.not_paired.no_duplicates(),
                forall|e: CollectionNotPairedView| #[trigger]
                    old(report)@.not_paired.contains(e) ==> e.missing_on == Replica::Local,
                forall|e: CollectionNotPairedView| #[trigger]
                    report@.not_paired.contains(e) <==> (old(report)@.not_paired.contains(e) || (
                    e.missing_on == Replica::Server && listed_before(urls@, i as int).contains(
                        e.url,
                    ) && is_not_paired(self@, e))),
            decreases urls@.len() - i,
        {
            let url = &urls[i];
            let ghost done = listed_before(urls@, i as int);
            let ghost next = listed_before(urls@, i + 1);
            let ghost calendars_before = report@.calendars;
            let ghost not_paired_before = report@.not_paired;
            proof {
                lemma_listed_next(urls@, i as int);
            }
            if self.server.get_calendar(url).is_none() {
                let entry = CollectionNotPaired { url: url.clone(), missing_on: Replica::Server };
                let ghost e = entry@;
                proof {
                    lemma_push_contains(not_paired_before, e);
                    assert(!not_paired_before.contains(e));
                }
                report.not_paired.push(entry);
                proof {
                    assert(report@.not_paired =~= not_paired_before.push(e));
                    assert(report@.calendars =~= calendars_before);
                    assert(is_not_paired(self@, e));
                }
            }
            proof {
                assert forall|x: CollectionNotPairedView| #[trigger]
                    report@.not_paired.contains(x) <==> (old(report)@.not_paired.contains(x) || (
                    x.missing_on == Replica::Server && next.contains(x.url) && is_not_paired(
                        self@,
                        x,
                    ))) by {
                    assert(not_paired_before.contains(x) <==> (old(report)@.not_paired.contains(x)
                        || (x.missing_on == Replica::Server && done.contains(x.url)
                        && is_not_paired(self@, x))));
                }
            }
            i = i + 1;
        }
    }

    /// Runs one pass that counts as started at `start`.
    ///
    /// Both replicas list their calendars first; if one of them cannot, the
    /// pass fails and nothing is changed. Then every calendar of the server
    /// is reconciled with the local calendar of the same URL, against the
    /// checkpoint as it was when the pass began. A calendar that only one
    /// replica has is reported and left as it is; it does not hold the
    /// checkpoint back. At last the checkpoint moves to `start`, unless it is
    /// already later: it never goes back.
    pub fn sync_at(&mut self, start: Timestamp) -> (r: Result<SyncReport, SyncError>)
        requires
            old(self).well_formed(),
        ensures
            final(self).well_formed(),
            final(self).same_reach(old(self)),
            pass_outcome(old(self)@, start, final(self)@, r),
            old(self).answers_to_reach(r),
    {
        let ghost v = self@;
        let last_sync = self.local.get_last_sync();
        let server_urls = match self.server.get_calendars() {
            Ok(list) => {
                let urls = urls_of(list);
                proof {
                    lemma_lists_urls(list@, urls@, v.server);
                }
                urls
            },
            Err(cause) => {
                return Err(SyncError::SourceUnreachable { replica: Replica::Server, cause });
            },
        };
        let local_urls = match self.local.get_calendars() {
            Ok(list) => {
                let urls = urls_of(list);
                proof {
                    lemma_lists_urls(list@, urls@, v.local);
                }
                urls
            },
            Err(cause) => {
                return Err(SyncError::SourceUnreachable { replica: Replica::Local, cause });
            },
        };
        let mut report = SyncReport { calendars: Vec::new(), not_paired: Vec::new() };
        self.sync_pairs(&server_urls, last_sync, &mut report);
        let ghost paired_report = report@;
        proof {
            assert(self@.local.dom() =~= v.local.dom());
            assert(self@.server.dom() =~= v.server.dom());
            assert(self@.server =~= pass(v, start).server);
            assert(self@.local =~= pass(v, start).local);
        }
        self.note_missing_on_server(&local_urls, &mut report);
        self.local.update_last_sync(start.advance(last_sync));
        proof {
            assert forall|e: CollectionNotPairedView| #[trigger]
                report@.not_paired.contains(e) <==> is_not_paired(v, e) by {
                assert(paired_report.not_paired.contains(e) <==> (e.missing_on == Replica::Local
                    && v.server.dom().contains(e.url) && is_not_paired(v, e)));
            }
            assert(reports_pass(report@, v));
        }
        Ok(report)
    }

    /// Runs one pass, started now.
    ///
    /// The clock is read once, before anything else: that reading is the
    /// start of the pass, and what the checkpoint moves to. The rest is
    /// [`Provider::sync_at`].
    pub fn sync(&mut self) -> (r: Result<SyncReport, SyncError>)
        requires
            old(self).well_formed(),
        ensures
            final(self).well_formed(),
            final(self).same_reach(old(self)),
            exists|start: Timestamp| pass_outcome(old(self)@, start, final(self)@, r),
            old(self).answers_to_reach(r),
    {
        let start = clock_now();
        self.sync_at(start)
    }
}

/// One more URL listed: it was not listed before, and it is the only one
/// that is new.
proof fn lemma_listed_next(urls: Seq<String>, i: int)
    requires
        0 <= i < urls.len(),
        forall|a: int, b: int| 0 <= a < b < urls.len() ==> (#[trigger] urls[a])@ != (#[trigger] urls[b])@,
    ensures
        listed_before(urls, urls.len() as int).contains(urls[i]@),
        !listed_before(urls, i).contains(urls[i]@),
        forall|u: Seq<char>|
            listed_before(urls, i + 1).contains(u) <==> (listed_before(urls, i).contains(u) || u
                == urls[i]@),
{
    let done = listed_before(urls, i);
    let next = listed_before(urls, i + 1);
    if done.contains(urls[i]@) {
        let j = choose|j: int| 0 <= j < i && (#[trigger] urls[j])@ == urls[i]@;
        assert(urls[j]@ != urls[i]@);
    }
    assert forall|u: Seq<char>| next.contains(u) <==> (done.contains(u) || u == urls[i]@) by {
        if next.contains(u) {
            let j = choose|j: int| 0 <= j < i + 1 && (#[trigger] urls[j])@ == u;
            if j < i {
                assert(done.contains(u));
            }
        }
        if done.contains(u) {
            let j = choose|j: int| 0 <= j < i && (#[trigger] urls[j])@ == u;
            assert(next.contains(u));
        }
        assert(next.contains(urls[i]@));
    }
}

proof fn lemma_lists_urls(
    list: Seq<Calendar>,
    urls: Seq<String>,
    held: Map<Seq<char>, CalendarView>,
)
    requires
        lists_calendars(list, held),
        urls.len() == list.len(),
        forall|i: int| 0 <= i < urls.len() ==> (#[trigger] urls[i])@ == list[i]@.url,
    ensures
        lists_urls(urls, held),
{
    assert forall|i: int, j: int| 0 <= i < j < urls.len() implies (#[trigger] urls[i])@ != (
    #[trigger] urls[j])@ by {
        assert(list[i]@.url != list[j]@.url);
    }
    let all = listed_before(urls, urls.len() as int);
    assert forall|u: Seq<char>| held.dom().contains(u) <==> all.contains(u) by {
        if held.dom().contains(u) {
            let i = choose|i: int| 0 <= i < list.len() && (#[trigger] list[i])@.url == u;
            assert(urls[i]@ == u);
        }
        if all.contains(u) {
            let j = choose|j: int| 0 <= j < urls.len() && (#[trigger] urls[j])@ == u;
            assert(held.dom().contains(list[j]@.url));
        }
    }
}

/// Whether a report covers the server's calendars in `done`: one exact report
/// for each of them that has a local counterpart, and one entry for each that
/// has none.
spec fn reports_pairs(report: SyncReportView, v: ProviderView, done: Set<Seq<char>>) -> bool {
    &&& forall|i: int, j: int|
        0 <= i < j < report.calendars.len() ==> (#[trigger] report.calendars[i]).url != (
        #[trigger] report.calendars[j]).url
    &&& forall|i: int|
        0 <= i < report.calendars.len() ==> done.contains((#[trigger] report.calendars[i]).url)
            && v.paired(report.calendars[i].url) && reports_exactly(
            report.calendars[i],
            v.server[report.calendars[i].url],
            v.local[report.calendars[i].url],
            v.last_sync,
        )
    &&& forall|url: Seq<char>| #[trigger]
        done.contains(url) && v.paired(url) ==> exists|i: int|
            0 <= i < report.calendars.len() && (#[trigger] report.calendars[i]).url == url
    &&& report.not_paired.no_duplicates()
    &&& forall|e: CollectionNotPairedView| #[trigger]
        report.not_paired.contains(e) <==> (e.missing_on == Replica::Local && done.contains(e.url)
            && is_not_paired(v, e))
}

/// The identities of a sequence of items, as a set.
pub open spec fn identities(s: Seq<TaskView>) -> Set<ItemId> {
    Set::new(|id: ItemId| exists|i: int| 0 <= i < s.len() && (#[trigger] s[i]).id == id)
}

/// The map that results from adding the items of a sequence to a map one
/// after the other, each unless the map by then holds its identity.
pub open spec fn absorbed(m: Map<ItemId, TaskView>, s: Seq<TaskView>) -> Map<ItemId, TaskView>
    decreases s.len(),
{
    if s.len() == 0 {
        m
    } else {
        let before = absorbed(m, s.drop_last());
        if before.dom().contains(s.last().id) {
            before
        } else {
            before.insert(s.last().id, s.last())
        }
    }
}

/// The items of the sequence that `absorbed` leaves out, in their order.
pub open spec fn refused(m: Map<ItemId, TaskView>, s: Seq<TaskView>) -> Seq<DuplicateIdentity>
    decreases s.len(),
{
    if s.len() == 0 {
        Seq::empty()
    } else {
        let before = absorbed(m, s.drop_last());
        if before.dom().contains(s.last().id) {
            refused(m, s.drop_last()).push(DuplicateIdentity { id: s.last().id })
        } else {
            refused(m, s.drop_last())
        }
    }
}

/// Items with identities that are new to the map and differ from one another
/// are all absorbed: the result holds each of them and, besides, what the map
/// held.
pub proof fn lemma_absorbed_fresh(m: Map<ItemId, TaskView>, s: Seq<TaskView>)
    requires
        forall|i: int| 0 <= i < s.len() ==> !m.dom().contains((#[trigger] s[i]).id),
        forall|i: int, j: int| 0 <= i < j < s.len() ==> (#[trigger] s[i]).id != (#[trigger] s[j]).id,
    ensures
        absorbed(m, s).dom() =~= m.dom().union(identities(s)),
        forall|i: int| 0 <= i < s.len() ==> absorbed(m, s)[(#[trigger] s[i]).id] == s[i],
        forall|id: ItemId| #[trigger] m.dom().contains(id) ==> absorbed(m, s)[id] == m[id],
        refused(m, s) =~= Seq::<DuplicateIdentity>::empty(),
    decreases s.len(),
{
    if s.len() > 0 {
        let t = s.drop_last();
        lemma_absorbed_fresh(m, t);
        let before = absorbed(m, t);
        let x = s.last();
        assert(s[s.len() - 1] == x);
        if before.dom().contains(x.id) {
            assert(identities(t).contains(x.id));
            let i = choose|i: int| 0 <= i < t.len() && (#[trigger] t[i]).id == x.id;
            assert(s[i].id != s[s.len() - 1].id);
        }
        assert forall|id: ItemId| identities(s).contains(id) <==> (identities(t).contains(id) || id
            == x.id) by {
            if identities(s).contains(id) {
                let i = choose|i: int| 0 <= i < s.len() && (#[trigger] s[i]).id == id;
                if i < t.len() {
                    assert(t[i].id == id);
                }
            }
            if identities(t).contains(id) {
                let i = choose|i: int| 0 <= i < t.len() && (#[trigger] t[i]).id == id;
                assert(s[i].id == id);
            }
        }
        assert forall|i: int| 0 <= i < s.len() implies absorbed(m, s)[(#[trigger] s[i]).id]
            == s[i] by {
            if i < t.len() {
                assert(t[i] == s[i]);
                assert(s[i].id != s[s.len() - 1].id);
            }
        }
    } else {
        assert(identities(s) =~= Set::<ItemId>::empty());
    }
}

/// Removes the items with the given identities from a calendar. Nothing is
/// remembered of the removal: the calendar's deletion marks stay as they are.
pub fn remove_from_calendar(ids: &Vec<ItemId>, calendar: &mut Calendar)
    requires
        old(calendar).well_formed(),
    ensures
        final(calendar).well_formed(),
        final(calendar)@ == (CalendarView {
            items: old(calendar)@.items.remove_keys(ids@.to_set()),
            ..old(calendar)@
        }),
{
    let mut i: usize = 0;
    proof {
        assert(ids@.take(0).to_set() =~= Set::<ItemId>::empty());
        assert(calendar@.items.remove_keys(ids@.take(0).to_set()) =~= calendar@.items);
    }
    while i < ids.len()
        invariant
            i <= ids@.len(),
            calendar.well_formed(),
            calendar@ == (CalendarView {
                items: old(calendar)@.items.remove_keys(ids@.take(i as int).to_set()),
                ..old(calendar)@
            }),
        decreases ids@.len() - i,
    {
        let ghost before = calendar@.items;
        let _ = calendar.take_item(&ids[i]);
        proof {
            let done = ids@.take(i as int);
            let next = ids@.take(i + 1);
            assert forall|id: ItemId| next.to_set().contains(id) <==> (done.to_set().contains(id)
                || id == ids@[i as int]) by {
                if next.contains(id) {
                    let k = choose|k: int| 0 <= k < next.len() && next[k] == id;
                    if k < i {
                        assert(done[k] == id);
                    }
                }
                if done.contains(id) {
                    let k = choose|k: int| 0 <= k < done.len() && done[k] == id;
                    assert(next[k] == id);
                }
                assert(next[i as int] == ids@[i as int]);
            }
            assert(before.remove(ids@[i as int]) =~= old(calendar)@.items.remove_keys(
                next.to_set(),
            ));
            assert(calendar@.items =~= before.remove(ids@[i as int]));
        }
        i = i + 1;
    }
    proof {
        assert(ids@.take(ids@.len() as int) =~= ids@);
    }
}

/// Moves the items into a calendar, in their order, and leaves the vector
/// empty. An item whose identity the calendar holds by the time its turn
/// comes is not added: it is dropped and returned as a duplicate. A deletion
/// mark that the calendar kept for one of the identities is dropped.
pub fn move_to_calendar(items: &mut Vec<Item>, calendar: &mut Calendar) -> (duplicates: Vec<
    DuplicateIdentity,
>)
    requires
        old(calendar).well_formed(),
    ensures
        final(items)@.len() == 0,
        final(calendar).well_formed(),
        final(calendar)@ == (CalendarView {
            items: absorbed(old(calendar)@.items, views_of(old(items)@)),
            deleted: old(calendar)@.deleted.remove_keys(
                identities(views_of(old(items)@)),
            ),
            ..old(calendar)@
        }),
        duplicates@ == refused(old(calendar)@.items, views_of(old(items)@)),
{
    let ghost all = views_of(items@);
    let ghost m0 = calendar@.items;
    let ghost d0 = calendar@.deleted;
    let ghost mut k: int = 0;
    let mut duplicates: Vec<DuplicateIdentity> = Vec::new();
    proof {
        assert(all.take(0) =~= Seq::<TaskView>::empty());
        assert(identities(all.take(0)) =~= Set::<ItemId>::empty());
        assert(d0.remove_keys(identities(all.take(0))) =~= d0);
        calendar.lemma_view_well_formed();
    }
    while items.len() > 0
        invariant
            0 <= k <= all.len(),
            views_of(items@) =~= all.skip(k),
            calendar.well_formed(),
            calendar@ == (CalendarView {
                items: absorbed(m0, all.take(k)),
                deleted: d0.remove_keys(identities(all.take(k))),
                ..old(calendar)@
            }),
            duplicates@ == refused(m0, all.take(k)),
            forall|id: ItemId| !(#[trigger] m0.dom().contains(id) && d0.dom().contains(id)),
        decreases items@.len(),
    {
        let ghost rest = views_of(items@);
        let ghost held = items@;
        let item = items.remove(0);
        proof {
            assert(rest.len() == held.len());
            assert(all.skip(k).len() == all.len() - k);
            assert(item@ == rest[0]);
            assert(all.skip(k)[0] == all[k]);
            assert(rest[0] == all[k]);
            assert forall|j: int| 0 <= j < items@.len() implies (#[trigger] items@[j])@ == all.skip(
                k + 1,
            )[j] by {
                assert(items@[j] == held[j + 1]);
                assert(rest[j + 1] == held[j + 1]@);
                assert(all.skip(k)[j + 1] == all[k + j + 1]);
            }
            assert(views_of(items@) =~= all.skip(k + 1));
            let done = all.take(k);
            let next = all.take(k + 1);
            assert(next.drop_last() =~= done);
            assert(next.last() == all[k]);
            assert forall|id: ItemId| identities(next).contains(id) <==> (identities(
                done,
            ).contains(id) || id == all[k].id) by {
                if identities(next).contains(id) {
                    let j = choose|j: int| 0 <= j < next.len() && (#[trigger] next[j]).id == id;
                    if j < k {
                        assert(done[j].id == id);
                    }
                }
                if identities(done).contains(id) {
                    let j = choose|j: int| 0 <= j < done.len() && (#[trigger] done[j]).id == id;
                    assert(next[j].id == id);
                }
                assert(next[k].id == all[k].id);
            }
            calendar.lemma_view_well_formed();
        }
        let ghost marks = calendar@.deleted;
        match calendar.add_item(item) {
            Ok(_) => {
                proof {
                    assert(marks.remove(all[k].id) =~= d0.remove_keys(identities(all.take(k + 1))));
                }
            },
            Err(e) => {
                duplicates.push(e);
                proof {
                    assert(marks =~= d0.remove_keys(identities(all.take(k + 1))));
                }
            },
        }
        proof {
            k = k + 1;
        }
    }
    proof {
        assert(all.take(k) =~= all);
    }
    duplicates
}

} // verus!
