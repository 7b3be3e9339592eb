//! Two-way reconciliation of task calendars.
//!
//! A [`Provider`] owns two data sources, a remote server and a local cache,
//! and brings their calendars to one consistent state: it pairs the calendars
//! by URL, works out from the last checkpoint which items each side changed or
//! deleted, settles conflicts in favour of the server, applies the changes to
//! both sides and advances the checkpoint.
//!
//! Every function in this crate is verified against its contract. The only
//! thing taken on trust is the system clock.

pub mod timestamp;
pub mod item;
mod assoc;
mod sequences;
pub mod calendar;
pub mod report;
pub mod reconcile;
pub mod merge;
pub mod traits;
pub mod cache;
pub mod provider;

pub use crate::cache::Cache;
pub use crate::calendar::{Calendar, SupportedComponents};
pub use crate::item::{Item, ItemId, Task};
pub use crate::provider::{Provider, SyncError};
pub use crate::report::SyncReport;
pub use crate::timestamp::Timestamp;
pub use crate::traits::{CalDavSource, SyncSlave};
