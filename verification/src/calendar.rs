//! Calendars: keyed collections of items that remember what was deleted.

use vstd::prelude::*;
use crate::assoc::{
    as_map, distinct_keys, has_key, key_index, lemma_empty, lemma_entry, lemma_push, lemma_remove,
    lemma_update,
};
use crate::item::{task_views, views_of_refs, Item, ItemId, Task, TaskView};
use crate::timestamp::Timestamp;

verus! {

/// The kinds of component that a calendar accepts.
#[derive(Clone, Copy, Debug, PartialEq, Eq, Structural)]
pub struct SupportedComponents {
    pub event: bool,
    pub todo: bool,
}

impl SupportedComponents {
    /// Tasks only.
    pub fn todo() -> (c: SupportedComponents)
        ensures
            c == (SupportedComponents { event: false, todo: true }),
    {
        SupportedComponents { event: false, todo: true }
    }

    /// Events only.
    pub fn event() -> (c: SupportedComponents)
        ensures
            c == (SupportedComponents { event: true, todo: false }),
    {
        SupportedComponents { event: true, todo: false }
    }
}

/// The mark that a deleted item leaves behind: its identity and the time of
/// the deletion.
#[derive(Clone, Copy, Debug, PartialEq, Eq, Structural)]
pub struct Tombstone {
    pub id: ItemId,
    pub deleted_at: Timestamp,
}

/// An attempt to add an item whose identity the calendar already holds.
#[derive(Clone, Copy, Debug, PartialEq, Eq, Structural)]
pub struct DuplicateIdentity {
    pub id: ItemId,
}

/// What a calendar is, as a mathematical value: its attributes, its items by
/// identity, and the deletion time of each identity that was deleted from it
/// and is still remembered.
pub struct CalendarView {
    pub name: Seq<char>,
    pub url: Seq<char>,
    pub supported_components: SupportedComponents,
    pub items: Map<ItemId, TaskView>,
    pub deleted: Map<ItemId, Timestamp>,
}

impl CalendarView {
    /// Every item is filed under its own identity, and no identity is both
    /// present and marked as deleted.
    pub open spec fn well_formed(self) -> bool {
        &&& forall|id: ItemId| #[trigger] self.items.dom().contains(id) ==> self.items[id].id == id
        &&& forall|id: ItemId|
            !(#[trigger] self.items.dom().contains(id) && self.deleted.dom().contains(id))
    }

    /// The identities of the items modified strictly after `since`; of all
    /// items when there is no bound.
    pub open spec fn modified_since(self, since: Option<Timestamp>) -> Set<ItemId> {
        Set::new(
            |id: ItemId|
                self.items.dom().contains(id) && self.items[id].last_modified.is_since(since),
        )
    }

    /// The identities deleted strictly after `since`; none when there is no
    /// bound.
    pub open spec fn deleted_since(self, since: Option<Timestamp>) -> Set<ItemId> {
        match since {
            Some(t) => Set::new(
                |id: ItemId| self.deleted.dom().contains(id) && self.deleted[id].millis > t.millis,
            ),
            None => Set::empty(),
        }
    }
}

/// Whether a sequence lists the values of a map, each of them once.
pub open spec fn lists_exactly(s: Seq<TaskView>, m: Map<ItemId, TaskView>) -> bool {
    &&& forall|i: int|
        0 <= i < s.len() ==> m.dom().contains((#[trigger] s[i]).id) && m[s[i].id] == s[i]
    &&& forall|i: int, j: int|
        0 <= i < j < s.len() ==> (#[trigger] s[i]).id != (#[trigger] s[j]).id
    &&& forall|id: ItemId| #[trigger]
        m.dom().contains(id) ==> exists|i: int| 0 <= i < s.len() && (#[trigger] s[i]).id == id
}

/// A calendar: one list of items on one replica.
#[derive(Debug)]
pub struct Calendar {
    name: String,
    url: String,
    supported_components: SupportedComponents,
    items: Vec<Item>,
    deleted: Vec<Tombstone>,
}

spec fn item_entries(items: Seq<Item>) -> Seq<(ItemId, TaskView)> {
    items.map_values(|it: Item| (it@.id, it@))
}

spec fn mark_entries(marks: Seq<Tombstone>) -> Seq<(ItemId, Timestamp)> {
    marks.map_values(|m: Tombstone| (m.id, m.deleted_at))
}

impl View for Calendar {
    type V = CalendarView;

    closed spec fn view(&self) -> CalendarView {
        CalendarView {
            name: self.name@,
            url: self.url@,
            supported_components: self.supported_components,
            items: as_map(item_entries(self.items@)),
            deleted: as_map(mark_entries(self.deleted@)),
        }
    }
}

impl Clone for Calendar {
    fn clone(&self) -> (r: Calendar)
        ensures
            r@ == self@,
            self.well_formed() ==> r.well_formed(),
    {
        let mut items: Vec<Item> = Vec::new();
        let mut i: usize = 0;
        while i < self.items.len()
            invariant
                i <= self.items@.len(),
                items@.len() == i,
                forall|j: int| 0 <= j < i ==> (#[trigger] items@[j])@ == self.items@[j]@,
            decreases self.items@.len() - i,
        {
            items.push(self.items[i].clone());
            i = i + 1;
        }
        let r = Calendar {
            name: self.name.clone(),
            url: self.url.clone(),
            supported_components: self.supported_components,
            items,
            deleted: self.deleted.clone(),
        };
        proof {
            assert(item_entries(r.items@) =~= item_entries(self.items@));
            assert(r.deleted@ =~= self.deleted@);
        }
        r
    }
}

impl Calendar {
    /// No identity occurs twice among the items or among the deletion marks,
    /// and none occurs in both.
    pub closed spec fn well_formed(&self) -> bool {
        &&& distinct_keys(item_entries(self.items@))
        &&& distinct_keys(mark_entries(self.deleted@))
        &&& forall|k: ItemId|
            !(has_key(item_entries(self.items@), k) && has_key(mark_entries(self.deleted@), k))
    }

    /// A well-formed calendar stands for a well-formed value.
    pub proof fn lemma_view_well_formed(&self)
        requires
            self.well_formed(),
        ensures
            self@.well_formed(),
    {
        let ie = item_entries(self.items@);
        assert forall|id: ItemId| #[trigger] self@.items.dom().contains(id) implies self@.items[id].id
            == id by {
            let i = key_index(ie, id);
            lemma_entry(ie, i);
        }
    }

    /// An empty calendar.
    pub fn new(name: String, url: String, supported_components: SupportedComponents) -> (c:
        Calendar)
        ensures
            c.well_formed(),
            c@ == (CalendarView {
                name: name@,
                url: url@,
                supported_components,
                items: Map::empty(),
                deleted: Map::empty(),
            }),
    {
        let c = Calendar {
            name,
            url,
            supported_components,
            items: Vec::new(),
            deleted: Vec::new(),
        };
        proof {
            lemma_empty(item_entries(c.items@));
            lemma_empty(mark_entries(c.deleted@));
        }
        c
    }

    /// The display name.
    pub fn name(&self) -> (name: String)
        ensures
            name@ == self@.name,
    {
        self.name.clone()
    }

    /// The URL that identifies the calendar on both replicas.
    pub fn url(&self) -> (url: &String)
        ensures
            url@ == self@.url,
    {
        &self.url
    }

    /// The kinds of component that the calendar accepts.
    pub fn supported_components(&self) -> (c: SupportedComponents)
        ensures
            c == self@.supported_components,
    {
        self.supported_components
    }

    fn find_item(&self, id: &ItemId) -> (r: Option<usize>)
        ensures
            match r {
                Some(i) => i < self.items@.len() && self.items@[i as int]@.id == *id,
                None => !has_key(item_entries(self.items@), *id),
            },
    {
        let mut i: usize = 0;
        while i < self.items.len()
            invariant
                i <= self.items@.len(),
                forall|j: int| 0 <= j < i ==> (#[trigger] self.items@[j])@.id != *id,
            decreases self.items@.len() - i,
        {
            if *self.items[i].id() == *id {
                return Some(i);
            }
            i = i + 1;
        }
        proof {
            let ie = item_entries(self.items@);
            assert forall|j: int| 0 <= j < ie.len() implies (#[trigger] ie[j]).0 != *id by {
                assert(self.items@[j]@.id != *id);
            }
        }
        None
    }

    fn find_mark(&self, id: &ItemId) -> (r: Option<usize>)
        ensures
            match r {
                Some(i) => i < self.deleted@.len() && self.deleted@[i as int].id == *id,
                None => !has_key(mark_entries(self.deleted@), *id),
            },
    {
        let mut i: usize = 0;
        while i < self.deleted.len()
            invariant
                i <= self.deleted@.len(),
                forall|j: int| 0 <= j < i ==> (#[trigger] self.deleted@[j]).id != *id,
            decreases self.deleted@.len() - i,
        {
            if self.deleted[i].id == *id {
                return Some(i);
            }
            i = i + 1;
        }
        proof {
            let me = mark_entries(self.deleted@);
            assert forall|j: int| 0 <= j < me.len() implies (#[trigger] me[j]).0 != *id by {
                assert(self.deleted@[j].id != *id);
            }
        }
        None
    }

    /// The item with the given identity, if the calendar holds one.
    pub fn get_item_by_id(&self, id: &ItemId) -> (r: Option<&Item>)
        requires
            self.well_formed(),
        ensures
            match r {
                Some(it) => self@.items.dom().contains(*id) && it@ == self@.items[*id],
                None => !self@.items.dom().contains(*id),
            },
    {
        match self.find_item(id) {
            Some(i) => {
                proof {
                    lemma_entry(item_entries(self.items@), i as int);
                }
                Some(&self.items[i])
            },
            None => None,
        }
    }

    /// When the given identity was deleted, if the calendar remembers it.
    pub fn deletion_time(&self, id: &ItemId) -> (r: Option<Timestamp>)
        requires
            self.well_formed(),
        ensures
            match r {
                Some(t) => self@.deleted.dom().contains(*id) && t == self@.deleted[*id],
                None => !self@.deleted.dom().contains(*id),
            },
    {
        match self.find_mark(id) {
            Some(i) => {
                proof {
                    lemma_entry(mark_entries(self.deleted@), i as int);
                }
                Some(self.deleted[i].deleted_at)
            },
            None => None,
        }
    }

    /// Adds an item. An identity that the calendar already holds is refused
    /// and nothing changes. A deletion mark for the identity is dropped: the
    /// item is there again.
    pub fn add_item(&mut self, item: Item) -> (r: Result<(), DuplicateIdentity>)
        requires
            old(self).well_formed(),
        ensures
            final(self).well_formed(),
            match r {
                Ok(_) => ({
                    &&& !old(self)@.items.dom().contains(item@.id)
                    &&& final(self)@ == (CalendarView {
                        items: old(self)@.items.insert(item@.id, item@),
                        deleted: old(self)@.deleted.remove(item@.id),
                        ..old(self)@
                    })
                }),
                Err(e) => ({
                    &&& old(self)@.items.dom().contains(item@.id)
                    &&& e.id == item@.id
                    &&& final(self)@ == old(self)@
                }),
            },
    {
        let id = *item.id();
        match self.find_item(&id) {
            Some(i) => {
                proof {
                    lemma_entry(item_entries(self.items@), i as int);
                }
                Err(DuplicateIdentity { id })
            },
            None => {
                let ghost me0 = mark_entries(self.deleted@);
                let ghost ie0 = item_entries(self.items@);
                match self.find_mark(&id) {
                    Some(j) => {
                        self.deleted.remove(j);
                        proof {
                            lemma_remove(me0, j as int);
                            assert(mark_entries(self.deleted@) =~= me0.remove(j as int));
                        }
                    },
                    None => {
                        proof {
                            assert(as_map(me0).remove(id) =~= as_map(me0));
                        }
                    },
                }
                let ghost entry = (item@.id, item@);
                self.items.push(item);
                proof {
                    lemma_push(ie0, entry);
                    assert(item_entries(self.items@) =~= ie0.push(entry));
                    let me1 = mark_entries(self.deleted@);
                    assert forall|k: ItemId| !(has_key(item_entries(self.items@), k) && has_key(
                        me1,
                        k,
                    )) by {
                        assert(as_map(me1).dom().contains(k) == has_key(me1, k));
                        assert(as_map(me0).dom().contains(k) == has_key(me0, k));
                        assert(as_map(ie0.push(entry)).dom().contains(k) == has_key(
                            ie0.push(entry),
                            k,
                        ));
                        assert(as_map(ie0).dom().contains(k) == has_key(ie0, k));
                    }
                }
                Ok(())
            },
        }
    }

    /// Deletes an item at time `at` and remembers the deletion. Returns
    /// whether an item was removed; deleting an absent identity changes
    /// nothing.
    pub fn delete_item(&mut self, id: &ItemId, at: Timestamp) -> (removed: bool)
        requires
            old(self).well_formed(),
        ensures
            final(self).well_formed(),
            removed == old(self)@.items.dom().contains(*id),
            removed ==> final(self)@ == (CalendarView {
                items: old(self)@.items.remove(*id),
                deleted: old(self)@.deleted.insert(*id, at),
                ..old(self)@
            }),
            !removed ==> final(self)@ == old(self)@,
    {
        match self.find_item(id) {
            Some(i) => {
                let ghost me0 = mark_entries(self.deleted@);
                let ghost ie0 = item_entries(self.items@);
                let _ = self.items.remove(i);
                self.deleted.push(Tombstone { id: *id, deleted_at: at });
                proof {
                    lemma_entry(ie0, i as int);
                    lemma_remove(ie0, i as int);
                    assert(item_entries(self.items@) =~= ie0.remove(i as int));
                    lemma_push(me0, (*id, at));
                    assert(mark_entries(self.deleted@) =~= me0.push((*id, at)));
                    let ie1 = item_entries(self.items@);
                    let me1 = mark_entries(self.deleted@);
                    assert forall|k: ItemId| !(has_key(ie1, k) && has_key(me1, k)) by {
                        assert(as_map(me1).dom().contains(k) == has_key(me1, k));
                        assert(as_map(me0).dom().contains(k) == has_key(me0, k));
                        assert(as_map(ie1).dom().contains(k) == has_key(ie1, k));
                        assert(as_map(ie0).dom().contains(k) == has_key(ie0, k));
                    }
                }
                true
            },
            None => false,
        }
    }

    /// Takes an item out of the calendar without remembering a deletion.
    pub fn take_item(&mut self, id: &ItemId) -> (r: Option<Item>)
        requires
            old(self).well_formed(),
        ensures
            final(self).well_formed(),
            match r {
                Some(it) => ({
                    &&& old(self)@.items.dom().contains(*id)
                    &&& it@ == old(self)@.items[*id]
                    &&& final(self)@ == (CalendarView {
                        items: old(self)@.items.remove(*id),
                        ..old(self)@
                    })
                }),
                None => !old(self)@.items.dom().contains(*id) && final(self)@ == old(self)@,
            },
    {
        match self.find_item(id) {
            Some(i) => {
                let ghost ie0 = item_entries(self.items@);
                let it = self.items.remove(i);
                proof {
                    lemma_entry(ie0, i as int);
                    lemma_remove(ie0, i as int);
                    assert(item_entries(self.items@) =~= ie0.remove(i as int));
                    let ie1 = item_entries(self.items@);
                    let me = mark_entries(self.deleted@);
                    assert forall|k: ItemId| !(has_key(ie1, k) && has_key(me, k)) by {
                        assert(as_map(ie1).dom().contains(k) == has_key(ie1, k));
                        assert(as_map(ie0).dom().contains(k) == has_key(ie0, k));
                    }
                }
                Some(it)
            },
            None => None,
        }
    }

    /// Forgets every deletion mark.
    pub fn forget_deleted(&mut self)
        requires
            old(self).well_formed(),
        ensures
            final(self).well_formed(),
            final(self)@ == (CalendarView { deleted: Map::empty(), ..old(self)@ }),
    {
        self.deleted = Vec::new();
        proof {
            lemma_empty(mark_entries(self.deleted@));
        }
    }

    /// The item with the given identity, for changing it in place.
    ///
    /// The calendar files the item under the identity it was asked for: a
    /// caller that leaves the identity as it is gets the calendar back well
    /// formed, with the changed item in the old one's place.
    pub fn get_item_by_id_mut(&mut self, id: &ItemId) -> (r: Option<&mut Item>)
        requires
            old(self).well_formed(),
        ensures
            match r {
                Some(it) => ({
                    &&& old(self)@.items.dom().contains(*id)
                    &&& it@ == old(self)@.items[*id]
                    &&& final(it)@.id == *id ==> ({
                        &&& final(self).well_formed()
                        &&& final(self)@ == (CalendarView {
                            items: old(self)@.items.insert(*id, final(it)@),
                            ..old(self)@
                        })
                    })
                }),
                None => ({
                    &&& !old(self)@.items.dom().contains(*id)
                    &&& final(self).well_formed()
                    &&& final(self)@ == old(self)@
                }),
            },
    {
        match self.find_item(id) {
            Some(i) => {
                let ghost ie0 = item_entries(self.items@);
                let ghost me0 = mark_entries(self.deleted@);
                let ghost items0 = self.items@;
                proof {
                    lemma_entry(ie0, i as int);
                    assert forall|x: Item| x@.id == *id implies ({
                        let ie1 = item_entries(#[trigger] items0.update(i as int, x));
                        &&& distinct_keys(ie1)
                        &&& forall|k: ItemId| !(has_key(ie1, k) && has_key(me0, k))
                        &&& as_map(ie1) == as_map(ie0).insert(*id, x@)
                    }) by {
                        let ie1 = item_entries(items0.update(i as int, x));
                        lemma_update(ie0, i as int, x@);
                        assert(ie1 =~= ie0.update(i as int, (ie0[i as int].0, x@)));
                        assert forall|k: ItemId| !(has_key(ie1, k) && has_key(me0, k)) by {
                            assert(as_map(ie1).dom().contains(k) == has_key(ie1, k));
                            assert(as_map(ie0).dom().contains(k) == has_key(ie0, k));
                        }
                    }
                }
                let it = &mut self.items[i];
                Some(it)
            },
            None => None,
        }
    }

    /// The tasks of the calendar, each of them once, in no particular order.
    pub fn tasks(&self) -> (r: Vec<&Task>)
        requires
            self.well_formed(),
        ensures
            lists_exactly(task_views(r@), self@.items),
    {
        let mut out: Vec<&Task> = Vec::new();
        let mut i: usize = 0;
        while i < self.items.len()
            invariant
                i <= self.items@.len(),
                out@.len() == i,
                forall|j: int| 0 <= j < i ==> (#[trigger] out@[j])@ == self.items@[j]@,
            decreases self.items@.len() - i,
        {
            out.push(self.items[i].unwrap_task());
            i = i + 1;
        }
        proof {
            let ie = item_entries(self.items@);
            let s = task_views(out@);
            assert forall|k: int| 0 <= k < s.len() implies self@.items.dom().contains(
                (#[trigger] s[k]).id,
            ) && self@.items[s[k].id] == s[k] by {
                lemma_entry(ie, k);
            }
            assert forall|k: int, l: int| 0 <= k < l < s.len() implies (#[trigger] s[k]).id != (
            #[trigger] s[l]).id by {
                assert(ie[k].0 != ie[l].0);
            }
            assert forall|id: ItemId| #[trigger] self@.items.dom().contains(id) implies exists|
                k: int,
            |
                0 <= k < s.len() && (#[trigger] s[k]).id == id by {
                let k = key_index(ie, id);
                assert(s[k].id == id);
            }
        }
        out
    }

    /// The items modified strictly after `since`, each of them once; all
    /// items when there is no bound.
    pub fn get_tasks_modified_since(&self, since: Option<Timestamp>) -> (r: Vec<&Item>)
        requires
            self.well_formed(),
        ensures
            lists_exactly(views_of_refs(r@), self@.items.restrict(self@.modified_since(since))),
    {
        let mut out: Vec<&Item> = Vec::new();
        let ghost mut src: Seq<int> = Seq::empty();
        let mut i: usize = 0;
        while i < self.items.len()
            invariant
                i <= self.items@.len(),
                src.len() == out@.len(),
                forall|k: int|
                    0 <= k < src.len() ==> 0 <= (#[trigger] src[k]) < i && out@[k]@
                        == self.items@[src[k]]@ && self.items@[src[k]]@.last_modified.is_since(
                        since,
                    ),
                forall|k: int, l: int|
                    0 <= k < l < src.len() ==> (#[trigger] src[k]) < (#[trigger] src[l]),
                forall|j: int|
                    0 <= j < i && (#[trigger] self.items@[j])@.last_modified.is_since(since)
                        ==> exists|k: int| 0 <= k < src.len() && (#[trigger] src[k]) == j,
            decreases self.items@.len() - i,
        {
            let ghost src0 = src;
            if self.items[i].last_modified().is_since(since) {
                out.push(&self.items[i]);
                proof {
                    src = src.push(i as int);
                    assert(src[src0.len() as int] == i);
                }
            }
            proof {
                assert forall|j: int|
                    0 <= j < i + 1 && (#[trigger] self.items@[j])@.last_modified.is_since(
                        since,
                    ) implies exists|k: int| 0 <= k < src.len() && (#[trigger] src[k]) == j by {
                    if j < i {
                        let k = choose|k: int| 0 <= k < src0.len() && (#[trigger] src0[k]) == j;
                        assert(src[k] == j);
                    }
                }
            }
            i = i + 1;
        }
        proof {
            let ie = item_entries(self.items@);
            let s = views_of_refs(out@);
            let m = self@.items.restrict(self@.modified_since(since));
            assert forall|k: int| 0 <= k < s.len() implies m.dom().contains((#[trigger] s[k]).id)
                && m[s[k].id] == s[k] by {
                lemma_entry(ie, src[k]);
            }
            assert forall|k: int, l: int| 0 <= k < l < s.len() implies (#[trigger] s[k]).id != (
            #[trigger] s[l]).id by {
                assert(src[k] < src[l]);
                assert(ie[src[k]].0 != ie[src[l]].0);
            }
            assert forall|id: ItemId| #[trigger] m.dom().contains(id) implies exists|k: int|
                0 <= k < s.len() && (#[trigger] s[k]).id == id by {
                let j = key_index(ie, id);
                lemma_entry(ie, j);
                assert(self.items@[j]@.last_modified.is_since(since));
                let k = choose|k: int| 0 <= k < src.len() && (#[trigger] src[k]) == j;
                assert(s[k].id == id);
            }
        }
        out
    }

    /// The identities deleted strictly after `since`, each of them once.
    pub fn get_items_deleted_since(&self, since: Timestamp) -> (r: Vec<ItemId>)
        requires
            self.well_formed(),
        ensures
            r@.no_duplicates(),
            forall|id: ItemId| r@.contains(id) <==> self@.deleted_since(Some(since)).contains(id),
    {
        let mut out: Vec<ItemId> = Vec::new();
        let ghost mut src: Seq<int> = Seq::empty();
        let mut i: usize = 0;
        while i < self.deleted.len()
            invariant
                i <= self.deleted@.len(),
                src.len() == out@.len(),
                forall|k: int|
                    0 <= k < src.len() ==> 0 <= (#[trigger] src[k]) < i && out@[k]
                        == self.deleted@[src[k]].id && self.deleted@[src[k]].deleted_at.millis
                        > since.millis,
                forall|k: int, l: int|
                    0 <= k < l < src.len() ==> (#[trigger] src[k]) < (#[trigger] src[l]),
                forall|j: int|
                    0 <= j < i && (#[trigger] self.deleted@[j]).deleted_at.millis > since.millis
                        ==> exists|k: int| 0 <= k < src.len() && (#[trigger] src[k]) == j,
            decreases self.deleted@.len() - i,
        {
            let ghost src0 = src;
            if self.deleted[i].deleted_at.is_after(&since) {
                out.push(self.deleted[i].id);
                proof {
                    src = src.push(i as int);
                    assert(src[src0.len() as int] == i);
                }
            }
            proof {
                assert forall|j: int|
                    0 <= j < i + 1 && (#[trigger] self.deleted@[j]).deleted_at.millis
                        > since.millis implies exists|k: int|
                    0 <= k < src.len() && (#[trigger] src[k]) == j by {
                    if j < i {
                        let k = choose|k: int| 0 <= k < src0.len() && (#[trigger] src0[k]) == j;
                        assert(src[k] == j);
                    }
                }
            }
            i = i + 1;
        }
        proof {
            let me = mark_entries(self.deleted@);
            let d = self@.deleted_since(Some(since));
            assert forall|k: int, l: int| 0 <= k < out@.len() && 0 <= l < out@.len() && k
                != l implies out@[k] != out@[l] by {
                if k < l {
                    assert(src[k] < src[l]);
                    assert(me[src[k]].0 != me[src[l]].0);
                } else {
                    assert(src[l] < src[k]);
                    assert(me[src[l]].0 != me[src[k]].0);
                }
            }
            assert forall|id: ItemId| out@.contains(id) <==> d.contains(id) by {
                if out@.contains(id) {
                    let k = choose|k: int| 0 <= k < out@.len() && out@[k] == id;
                    lemma_entry(me, src[k]);
                }
                if d.contains(id) {
                    let j = key_index(me, id);
                    lemma_entry(me, j);
                    assert(self.deleted@[j].deleted_at.millis > since.millis);
                    let k = choose|k: int| 0 <= k < src.len() && (#[trigger] src[k]) == j;
                    assert(out@[k] == id);
                }
            }
        }
        out
    }

    /// Whether no item before position `upto` has the identity.
    fn is_new_item(&self, upto: usize, id: &ItemId) -> (r: bool)
        requires
            upto <= self.items@.len(),
        ensures
            r == (forall|j: int| 0 <= j < upto ==> (#[trigger] self.items@[j])@.id != *id),
    {
        let mut j: usize = 0;
        while j < upto
            invariant
                j <= upto <= self.items@.len(),
                forall|k: int| 0 <= k < j ==> (#[trigger] self.items@[k])@.id != *id,
            decreases upto - j,
        {
            if *self.items[j].id() == *id {
                return false;
            }
            j = j + 1;
        }
        true
    }

    /// Whether no deletion mark before position `upto` has the identity.
    fn is_new_mark(&self, upto: usize, id: &ItemId) -> (r: bool)
        requires
            upto <= self.deleted@.len(),
        ensures
            r == (forall|j: int| 0 <= j < upto ==> (#[trigger] self.deleted@[j]).id != *id),
    {
        let mut j: usize = 0;
        while j < upto
            invariant
                j <= upto <= self.deleted@.len(),
                forall|k: int| 0 <= k < j ==> (#[trigger] self.deleted@[k]).id != *id,
            decreases upto - j,
        {
            if self.deleted[j].id == *id {
                return false;
            }
            j = j + 1;
        }
        true
    }

    /// Checks the calendar: whether it is well formed. A calendar that was
    /// built and changed through its own methods, each of them called on a
    /// well-formed calendar, always is. One whose items were replaced through
    /// [`Calendar::get_item_by_id_mut`] by items of another identity may not be.
    pub fn validate(&self) -> (ok: bool)
        ensures
            ok == self.well_formed(),
    {
        let ghost ie = item_entries(self.items@);
        let ghost me = mark_entries(self.deleted@);
        let mut i: usize = 0;
        while i < self.items.len()
            invariant
                i <= self.items@.len(),
                ie == item_entries(self.items@),
                me == mark_entries(self.deleted@),
                forall|a: int, b: int| 0 <= a < b < i ==> (#[trigger] ie[a]).0 != (#[trigger] ie[b]).0,
                forall|a: int| 0 <= a < i ==> !has_key(me, (#[trigger] ie[a]).0),
            decreases self.items@.len() - i,
        {
            let id = *self.items[i].id();
            if !self.is_new_item(i, &id) {
                proof {
                    let j = choose|j: int| 0 <= j < i && (#[trigger] self.items@[j])@.id == id;
                    assert(ie[j].0 == ie[i as int].0);
                }
                return false;
            }
            match self.find_mark(&id) {
                Some(j) => {
                    proof {
                        assert(ie[i as int].0 == id);
                        assert(me[j as int].0 == id);
                        assert(has_key(ie, id) && has_key(me, id));
                    }
                    return false;
                },
                None => {},
            }
            i = i + 1;
        }
        let mut k: usize = 0;
        while k < self.deleted.len()
            invariant
                k <= self.deleted@.len(),
                ie == item_entries(self.items@),
                me == mark_entries(self.deleted@),
                distinct_keys(ie),
                forall|a: int| 0 <= a < ie.len() ==> !has_key(me, (#[trigger] ie[a]).0),
                forall|a: int, b: int| 0 <= a < b < k ==> (#[trigger] me[a]).0 != (#[trigger] me[b]).0,
            decreases self.deleted@.len() - k,
        {
            let id = self.deleted[k].id;
            if !self.is_new_mark(k, &id) {
                proof {
                    let j = choose|j: int| 0 <= j < k && (#[trigger] self.deleted@[j]).id == id;
                    assert(me[j].0 == me[k as int].0);
                }
                return false;
            }
            k = k + 1;
        }
        proof {
            assert forall|x: ItemId| !(has_key(ie, x) && has_key(me, x)) by {
                if has_key(ie, x) {
                    let a = key_index(ie, x);
                    assert(!has_key(me, ie[a].0));
                }
            }
        }
        true
    }
}

} // verus!
