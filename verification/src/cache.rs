//! A data source that holds its calendars in memory.

use vstd::prelude::*;
use crate::assoc::{
    as_map, distinct_keys, has_key, key_index, lemma_empty, lemma_entry, lemma_push, lemma_update,
};
use crate::calendar::{Calendar, CalendarView};
use crate::timestamp::Timestamp;
use crate::traits::{is_listing, lists_calendars, CalDavSource, Reach, SourceError, SyncSlave};

verus! {

/// A replica as it is held in memory: its calendars, no two under one URL,
/// and the checkpoint of the last successful pass; or, where the replica
/// could not be reached, the failure that was met. It can stand on either
/// side of a provider.
#[derive(Debug)]
pub struct Cache {
    calendars: Vec<Calendar>,
    last_sync: Option<Timestamp>,
    failure: Option<String>,
}

spec fn calendar_entries(calendars: Seq<Calendar>) -> Seq<(Seq<char>, CalendarView)> {
    calendars.map_values(|c: Calendar| (c@.url, c@))
}

/// A list of well-formed calendars, no two under one URL, shows exactly the
/// map that it stands for.
proof fn lemma_listing(list: Seq<Calendar>)
    requires
        is_listing(list),
    ensures
        distinct_keys(calendar_entries(list)),
        lists_calendars(list, as_map(calendar_entries(list))),
{
    let e = calendar_entries(list);
    let held = as_map(e);
    assert forall|i: int, j: int| 0 <= i < j < e.len() implies (#[trigger] e[i]).0 != (
    #[trigger] e[j]).0 by {
        assert(list[i]@.url != list[j]@.url);
    }
    assert forall|i: int| 0 <= i < list.len() implies (#[trigger] list[i]).well_formed()
        && held.dom().contains(list[i]@.url) && held[list[i]@.url] == list[i]@ by {
        lemma_entry(e, i);
    }
    assert forall|url: Seq<char>| #[trigger] held.dom().contains(url) implies exists|i: int|
        0 <= i < list.len() && (#[trigger] list[i])@.url == url by {
        let i = key_index(e, url);
        assert(list[i]@.url == url);
    }
}

impl Cache {
    /// A source without calendars and without a checkpoint.
    pub fn new() -> (c: Cache)
        ensures
            c.well_formed(),
            c.reach() is Reachable,
            c.calendars() == Map::<Seq<char>, CalendarView>::empty(),
            c.last_sync() == None::<Timestamp>,
    {
        let c = Cache { calendars: Vec::new(), last_sync: None, failure: None };
        proof {
            lemma_empty(calendar_entries(c.calendars@));
        }
        c
    }

    /// A replica that could not be reached: it holds no calendars, and
    /// listing them fails with the given message.
    pub fn offline(message: String) -> (c: Cache)
        ensures
            c.well_formed(),
            c.reach() == (Reach::Unreachable { message: message@ }),
            c.calendars() == Map::<Seq<char>, CalendarView>::empty(),
            c.last_sync() == None::<Timestamp>,
    {
        let c = Cache { calendars: Vec::new(), last_sync: None, failure: Some(message) };
        proof {
            lemma_empty(calendar_entries(c.calendars@));
        }
        c
    }

    fn find(&self, url: &String) -> (r: Option<usize>)
        ensures
            match r {
                Some(i) => i < self.calendars@.len() && self.calendars@[i as int]@.url == url@,
                None => !has_key(calendar_entries(self.calendars@), url@),
            },
    {
        let mut i: usize = 0;
        while i < self.calendars.len()
            invariant
                i <= self.calendars@.len(),
                forall|j: int| 0 <= j < i ==> (#[trigger] self.calendars@[j])@.url != url@,
            decreases self.calendars@.len() - i,
        {
            if *self.calendars[i].url() == *url {
                return Some(i);
            }
            i = i + 1;
        }
        proof {
            let e = calendar_entries(self.calendars@);
            assert forall|j: int| 0 <= j < e.len() implies (#[trigger] e[j]).0 != url@ by {
                assert(self.calendars@[j]@.url != url@);
            }
        }
        None
    }

    /// Checks the source: whether it is well formed. A source that was built
    /// and changed through its own methods, each of them called as its
    /// contract asks, always is.
    pub fn validate(&self) -> (ok: bool)
        ensures
            ok == self.well_formed(),
    {
        let mut i: usize = 0;
        while i < self.calendars.len()
            invariant
                i <= self.calendars@.len(),
                is_listing(self.calendars@.take(i as int)),
            decreases self.calendars@.len() - i,
        {
            if !self.calendars[i].validate() {
                return false;
            }
            let mut j: usize = 0;
            while j < i
                invariant
                    j <= i < self.calendars@.len(),
                    forall|k: int|
                        0 <= k < j ==> (#[trigger] self.calendars@[k])@.url
                            != self.calendars@[i as int]@.url,
                decreases i - j,
            {
                if *self.calendars[j].url() == *self.calendars[i].url() {
                    return false;
                }
                j = j + 1;
            }
            proof {
                let next = self.calendars@.take(i + 1);
                let done = self.calendars@.take(i as int);
                assert forall|a: int| 0 <= a < next.len() implies (#[trigger] next[a]).well_formed() by {
                    if a < i {
                        assert(done[a].well_formed());
                    }
                }
                assert forall|a: int, b: int| 0 <= a < b < next.len() implies (#[trigger] next[a])@.url
                    != (#[trigger] next[b])@.url by {
                    if b < i {
                        assert(done[a]@.url != done[b]@.url);
                    }
                }
            }
            i = i + 1;
        }
        proof {
            assert(self.calendars@.take(self.calendars@.len() as int) =~= self.calendars@);
        }
        true
    }

    /// Adds a calendar, unless the source already holds one under the same
    /// URL. Returns whether the calendar was added.
    pub fn add_calendar(&mut self, calendar: Calendar) -> (added: bool)
        requires
            old(self).well_formed(),
            calendar.well_formed(),
        ensures
            final(self).well_formed(),
            final(self).last_sync() == old(self).last_sync(),
            final(self).reach() == old(self).reach(),
            added == !old(self).calendars().dom().contains(calendar@.url),
            added ==> final(self).calendars() == old(self).calendars().insert(
                calendar@.url,
                calendar@,
            ),
            !added ==> final(self).calendars() == old(self).calendars(),
    {
        match self.find(calendar.url()) {
            Some(i) => {
                proof {
                    lemma_entry(calendar_entries(self.calendars@), i as int);
                }
                false
            },
            None => {
                let ghost held = self.calendars@;
                let ghost e0 = calendar_entries(held);
                let ghost entry = (calendar@.url, calendar@);
                self.calendars.push(calendar);
                proof {
                    lemma_listing(held);
                    lemma_push(e0, entry);
                    let e1 = calendar_entries(self.calendars@);
                    assert(e1 =~= e0.push(entry));
                    assert forall|i: int, j: int|
                        0 <= i < j < self.calendars@.len() implies (#[trigger] self.calendars@[i])@.url
                        != (#[trigger] self.calendars@[j])@.url by {
                        assert(e1[i].0 != e1[j].0);
                    }
                }
                true
            },
        }
    }
}

impl CalDavSource for Cache {
    closed spec fn well_formed(&self) -> bool {
        is_listing(self.calendars@)
    }

    closed spec fn calendars(&self) -> Map<Seq<char>, CalendarView> {
        as_map(calendar_entries(self.calendars@))
    }

    closed spec fn reach(&self) -> Reach {
        match self.failure {
            Some(message) => Reach::Unreachable { message: message@ },
            None => Reach::Reachable,
        }
    }

    fn get_calendars(&self) -> (r: Result<&Vec<Calendar>, SourceError>) {
        match &self.failure {
            Some(message) => {
                return Err(SourceError { message: message.clone() });
            },
            None => {},
        }
        proof {
            lemma_listing(self.calendars@);
        }
        Ok(&self.calendars)
    }

    fn get_calendars_mut(&mut self) -> (r: Result<&mut Vec<Calendar>, SourceError>) {
        match &self.failure {
            Some(message) => {
                return Err(SourceError { message: message.clone() });
            },
            None => {},
        }
        proof {
            lemma_listing(self.calendars@);
            assert forall|x: Seq<Calendar>| #[trigger] is_listing(x) implies distinct_keys(
                calendar_entries(x),
            ) && lists_calendars(x, as_map(calendar_entries(x))) by {
                lemma_listing(x);
            }
        }
        Ok(&mut self.calendars)
    }

    fn get_calendar(&self, url: &String) -> (r: Option<&Calendar>) {
        match self.find(url) {
            Some(i) => {
                proof {
                    lemma_entry(calendar_entries(self.calendars@), i as int);
                }
                Some(&self.calendars[i])
            },
            None => None,
        }
    }

    fn get_calendar_mut(&mut self, url: &String) -> (r: Option<&mut Calendar>) {
        match self.find(url) {
            Some(i) => {
                let ghost e0 = calendar_entries(self.calendars@);
                let ghost held = self.calendars@;
                proof {
                    lemma_entry(e0, i as int);
                    assert forall|x: Calendar| x.well_formed() && x@.url == url@ implies ({
                        let next = #[trigger] held.update(i as int, x);
                        &&& distinct_keys(calendar_entries(next))
                        &&& forall|j: int| 0 <= j < next.len() ==> (#[trigger] next[j]).well_formed()
                        &&& as_map(calendar_entries(next)) == as_map(e0).insert(url@, x@)
                    }) by {
                        let next = held.update(i as int, x);
                        lemma_update(e0, i as int, x@);
                        assert(calendar_entries(next) =~= e0.update(i as int, (e0[i as int].0, x@)));
                        assert forall|j: int| 0 <= j < next.len() implies (
                        #[trigger] next[j]).well_formed() by {
                            if j != i {
                                assert(held[j].well_formed());
                            }
                        }
                    }
                }
                let c = &mut self.calendars[i];
                Some(c)
            },
            None => None,
        }
    }
}

impl SyncSlave for Cache {
    closed spec fn last_sync(&self) -> Option<Timestamp> {
        self.last_sync
    }

    fn get_last_sync(&self) -> (r: Option<Timestamp>) {
        self.last_sync
    }

    fn update_last_sync(&mut self, timepoint: Timestamp) {
        self.last_sync = Some(timepoint);
    }
}

} // verus!
