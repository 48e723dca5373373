//! Order-resolution engine for a small manufacturing execution pipeline.
//!
//! The engine reacts to "new order" events: it reconstructs the space of
//! possible production recipes for the ordered piece, selects a production
//! path through that space, and numbers a full bill-of-materials batch.
//! All I/O (the backing store and the notification transport) lives outside
//! this crate; the functions here are pure and fully specified.

use vstd::prelude::*;

pub mod bom;
pub mod digits;
pub mod orders;
pub mod payload;
pub mod resolver;
pub mod text;

use crate::text::str_eq;

verus! {

/// The named notification topics that the resolution loop subscribes to.
///
/// A channel name outside the fixed set maps to `Unknown`, which the loop
/// tolerates (logged by the caller, never fatal), so that new topics can be
/// added without breaking old consumers.
#[derive(Clone, Copy, Debug, PartialEq, Eq, Structural)]
pub enum NotificationChannel {
    NewOrder,
    NewBomEntry,
    Unknown,
}

/// Which channel a wire-level channel name means.
pub open spec fn channel_of_name(s: Seq<char>) -> NotificationChannel {
    if s == "new_order"@ {
        NotificationChannel::NewOrder
    } else if s == "new_bom_entry"@ {
        NotificationChannel::NewBomEntry
    } else {
        NotificationChannel::Unknown
    }
}

impl NotificationChannel {
    /// The exact wire string of this channel; `Unknown` has none of its
    /// own.
    pub fn as_str(&self) -> (r: &'static str)
        ensures
            *self == NotificationChannel::NewOrder ==> r@ == "new_order"@,
            *self == NotificationChannel::NewBomEntry ==> r@ == "new_bom_entry"@,
            *self == NotificationChannel::Unknown ==> r@ == "unknown"@,
    {
        match self {
            NotificationChannel::NewOrder => "new_order",
            NotificationChannel::NewBomEntry => "new_bom_entry",
            NotificationChannel::Unknown => "unknown",
        }
    }

    /// Maps a wire-level channel name onto the fixed set; any unrecognized
    /// name is `Unknown`.
    pub fn from_name(s: &str) -> (r: NotificationChannel)
        ensures
            r == channel_of_name(s@),
    {
        if str_eq(s, "new_order") {
            NotificationChannel::NewOrder
        } else if str_eq(s, "new_bom_entry") {
            NotificationChannel::NewBomEntry
        } else {
            NotificationChannel::Unknown
        }
    }

    /// Every channel the resolution loop subscribes to, by its wire
    /// string.
    pub fn all_names() -> (r: Vec<&'static str>)
        ensures
            r@.len() == 2,
            r@[0]@ == "new_order"@,
            r@[1]@ == "new_bom_entry"@,
    {
        let mut names: Vec<&'static str> = Vec::new();
        names.push("new_order");
        names.push("new_bom_entry");
        names
    }
}

} // verus!
