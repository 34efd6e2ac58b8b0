//! Analytics over a listening history: rankings by time window, a genre trend
//! series, first-appearance timelines, an artist co-occurrence graph, and the
//! packed wire form of adjacency lists.

pub mod text;
pub mod table;
pub mod packing;
pub mod time;
pub mod keys;
pub mod entry;
pub mod counts;
pub mod ranking;
pub mod windows;
pub mod timeline;
pub mod genre_history;
pub mod pairs;
pub mod relationships;
pub mod accumulators;
pub mod directory;
pub mod sorting;
pub mod snapshot;

pub use directory::{Artist, Track};
pub use entry::{parse_genres, CsvRecord, ListeningEntry, RowField};
pub use genre_history::GenreBucket;
pub use packing::{pack_artist_relationships, EncodingContractViolation};
pub use snapshot::{
    get_csv_data, load_csv_data, CsvData, CsvStore, MalformedRow, SnapshotNotReady,
};
pub use table::{KeyedTable, Tally};
pub use time::Timestamp;
