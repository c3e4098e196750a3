//! A General Transit Feed Specification bundle held in memory, the queries
//! it answers, and the replay of one service day as an ordered stream of
//! events.
//!
//! A feed is loaded from the texts of its seven files by [`gtfs_load`]: the
//! rows come from the `csv` crate's reader, the columns are bound by name
//! once for each file, and every row becomes a typed record. The [`Feed`]
//! that comes out does not change any more. It answers by key, by agency
//! and by day, and [`simulate_events`] tells the events of an agency on a
//! day in the order of time.
//!
//! Every function of the crate is verified against its contract but for the
//! one that calls the `csv` crate, whose contract names what the reader
//! finds and says no more of it.

pub mod bounds;
pub mod describe;
pub mod events;
pub mod feed;
pub mod message;
pub mod model;
pub mod query;
pub mod reader;
pub mod records;
pub mod replay;
pub mod schema;
pub mod seqs;
pub mod sort;
pub mod stream;
pub mod table;
pub mod text;
pub mod value;

pub use events::{Event, ScheduleError};
pub use feed::{gtfs_load, load_tables, Feed, FeedFiles, Tables};
pub use replay::simulate_events;
pub use table::{Column, FileKind, LoadError};
