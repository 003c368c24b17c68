//! The logic of a launcher for a text-menu picker: a persisted mapping from
//! display names to targets, its staleness check, the filters over it, the
//! menu it feeds, and the decision of how a chosen name is started.

pub mod cache;
pub mod dispatch;
pub mod freshness;
pub mod menu;
pub mod scan;
pub mod text;
