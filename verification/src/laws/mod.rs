//! What holds of the database as a whole.

pub mod coherence;
pub mod writes;
pub mod soundness;
pub mod scans;
pub mod levels;
pub mod jobs;
pub mod compaction;
pub mod files;
pub mod installs;
pub mod recovery;
pub mod crashes;
pub mod runs;
pub mod pacing;
pub mod durability;
pub mod outputs;
pub mod order;
pub mod layouts;
pub mod filters;
pub mod lookups;
pub mod answers;
pub mod opening;
pub mod merging;
pub mod operations;
pub mod storage;
