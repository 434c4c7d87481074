//! A volume-wide file-name index for NTFS volumes: decoding of USN change
//! journal records, an FRN-keyed entry store with path reconstruction, a
//! substring search index, the journal tailer's update rules and a snapshot
//! format for persisting the index.

mod bytes;
pub mod record;
pub mod store;
pub mod paths;
pub mod index;
pub mod search;
pub mod journal;
pub mod enumerate;
pub mod persist;

pub use enumerate::{check_anchor, EnumStep, IndexError};
pub use index::MftIndex;
pub use journal::{FileChange, TailStep};
pub use record::{decode_records, UsnRecord};
pub use store::FileEntry;
