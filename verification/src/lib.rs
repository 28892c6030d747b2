//! A verified scan-and-process engine: a single-threaded directory-tree
//! collection phase produces a work list, a pool of workers drains it through a
//! pluggable classifier, and the outcomes are tallied into counters and a log,
//! optionally followed by a confirmation-gated bulk follow-up action.

pub mod archive;
pub mod collect;
pub mod counters;
pub mod gate;
pub mod log;
pub mod logname;
pub mod outcome;
pub mod pool;
pub mod pull;
pub mod queue;
pub mod strutil;
