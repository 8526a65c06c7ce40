//! Routing of sequencing-read records into output groups by the value of a
//! two-byte tag, with groups defined by allow-lists of tag values.

pub mod record;
pub mod subsetter;
pub mod batch;
pub mod laws;
pub mod ledger;

pub use record::{get_tag_value, tag_table_of, TagEntry, TagError, TagPayload, TagRecord};
pub use subsetter::{ListError, Subsetter};
pub use batch::effective_workers;
pub use ledger::OutputLedger;
