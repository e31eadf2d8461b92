//! Tracks the status of backup resources observed in a cluster and derives
//! gauge metrics from them, rendered into a line-oriented exposition text,
//! together with a staleness-based health predicate for the refresh loop.

pub mod clock;
pub mod metrics;
pub mod watch;
pub mod cache;
pub mod crd;
pub mod health;

pub use crd::Backup;
pub use crd::BackupCondition;
pub use crd::BackupSpec;
pub use crd::BackupStatus;
pub use crd::MariaDbRef;
