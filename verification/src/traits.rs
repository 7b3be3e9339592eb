//! What the engine asks of a data source.

use vstd::prelude::*;
use crate::calendar::{Calendar, CalendarView};
use crate::timestamp::Timestamp;

verus! {

/// The failure of a data source, in the source's own words.
#[derive(Debug)]
pub struct SourceError {
    pub message: String,
}

/// What listing the calendars of a source is sure to end in.
pub enum Reach {
    /// The source cannot know: listing may succeed or fail.
    Unknown,
    /// Listing succeeds.
    Reachable,
    /// Listing fails, with this message.
    Unreachable { message: Seq<char> },
}

/// Whether the answer to listing the calendars is what the reach of the
/// source said it would be.
pub open spec fn answers_to<T>(reach: Reach, r: Result<T, SourceError>) -> bool {
    match reach {
        Reach::Unknown => true,
        Reach::Reachable => r is Ok,
        Reach::Unreachable { message } => r matches Err(e) && e.message@ == message,
    }
}

/// Whether a list of calendars shows what a source holds: every calendar of
/// the source once, under its own URL, and well formed.
pub open spec fn lists_calendars(list: Seq<Calendar>, held: Map<Seq<char>, CalendarView>) -> bool {
    &&& forall|i: int|
        0 <= i < list.len() ==> (#[trigger] list[i]).well_formed() && held.dom().contains(
            list[i]@.url,
        ) && held[list[i]@.url] == list[i]@
    &&& forall|i: int, j: int|
        0 <= i < j < list.len() ==> (#[trigger] list[i])@.url != (#[trigger] list[j])@.url
    &&& forall|url: Seq<char>| #[trigger]
        held.dom().contains(url) ==> exists|i: int|
            0 <= i < list.len() && (#[trigger] list[i])@.url == url
}

/// Whether a list could be all that a source holds: well-formed calendars, no
/// two of them under one URL.
pub open spec fn is_listing(list: Seq<Calendar>) -> bool {
    &&& forall|i: int| 0 <= i < list.len() ==> (#[trigger] list[i]).well_formed()
    &&& forall|i: int, j: int|
        0 <= i < j < list.len() ==> (#[trigger] list[i])@.url != (#[trigger] list[j])@.url
}

/// A replica: a source of calendars that the engine can read and change.
///
/// Listing the calendars may take long and may fail. Looking one up by its
/// URL does neither: it answers from what the source holds.
pub trait CalDavSource {
    /// What the source promises of itself between two calls.
    spec fn well_formed(&self) -> bool;

    /// The calendars that the source holds, by URL.
    spec fn calendars(&self) -> Map<Seq<char>, CalendarView>;

    /// What listing the calendars is sure to end in, if the source can know.
    spec fn reach(&self) -> Reach;

    /// The calendars that the source holds.
    fn get_calendars(&self) -> (r: Result<&Vec<Calendar>, SourceError>)
        requires
            self.well_formed(),
        ensures
            answers_to(self.reach(), r),
            r matches Ok(list) ==> lists_calendars(list@, self.calendars()),
    ;

    /// The calendars that the source holds, for changing them in place.
    ///
    /// The source takes the list back as its calendars: a caller that leaves
    /// it a list of well-formed calendars, no two under one URL, finds the
    /// source well formed and holding exactly those.
    fn get_calendars_mut(&mut self) -> (r: Result<&mut Vec<Calendar>, SourceError>)
        requires
            old(self).well_formed(),
        ensures
            answers_to(old(self).reach(), r),
            match r {
                Ok(list) => ({
                    &&& lists_calendars(list@, old(self).calendars())
                    &&& is_listing(final(list)@) ==> ({
                        &&& final(self).well_formed()
                        &&& final(self).reach() == old(self).reach()
                        &&& lists_calendars(final(list)@, final(self).calendars())
                    })
                }),
                Err(_) => ({
                    &&& final(self).well_formed()
                    &&& final(self).reach() == old(self).reach()
                    &&& final(self).calendars() == old(self).calendars()
                }),
            },
    ;

    /// The calendar with the given URL, if the source holds one.
    fn get_calendar(&self, url: &String) -> (r: Option<&Calendar>)
        requires
            self.well_formed(),
        ensures
            match r {
                Some(c) => ({
                    &&& self.calendars().dom().contains(url@)
                    &&& c@ == self.calendars()[url@]
                    &&& c.well_formed()
                }),
                None => !self.calendars().dom().contains(url@),
            },
    ;

    /// The calendar with the given URL, for changing it in place.
    ///
    /// The source files the calendar under the URL it was asked for: a caller
    /// that hands it back well formed and under the same URL finds the source
    /// well formed, with the changed calendar in the old one's place.
    fn get_calendar_mut(&mut self, url: &String) -> (r: Option<&mut Calendar>)
        requires
            old(self).well_formed(),
        ensures
            match r {
                Some(c) => ({
                    &&& old(self).calendars().dom().contains(url@)
                    &&& c@ == old(self).calendars()[url@]
                    &&& c@.url == url@
                    &&& c.well_formed()
                    &&& final(c).well_formed() && final(c)@.url == url@ ==> ({
                        &&& final(self).well_formed()
                        &&& final(self).reach() == old(self).reach()
                        &&& final(self).calendars() == old(self).calendars().insert(
                            url@,
                            final(c)@,
                        )
                    })
                }),
                None => ({
                    &&& !old(self).calendars().dom().contains(url@)
                    &&& final(self).well_formed()
                    &&& final(self).reach() == old(self).reach()
                    &&& final(self).calendars() == old(self).calendars()
                }),
            },
    ;
}

/// A replica that keeps the checkpoint: the time of the last successful pass.
pub trait SyncSlave: CalDavSource {
    /// The checkpoint that the source keeps, if a pass ever succeeded.
    spec fn last_sync(&self) -> Option<Timestamp>;

    /// The checkpoint.
    fn get_last_sync(&self) -> (r: Option<Timestamp>)
        requires
            self.well_formed(),
        ensures
            r == self.last_sync(),
    ;

    /// Sets the checkpoint. The calendars stay as they are. It is the
    /// engine that sees to it that the checkpoint only moves forward.
    fn update_last_sync(&mut self, timepoint: Timestamp)
        requires
            old(self).well_formed(),
        ensures
            final(self).well_formed(),
            final(self).last_sync() == Some(timepoint),
            final(self).calendars() == old(self).calendars(),
            final(self).reach() == old(self).reach(),
    ;
}

} // verus!
