//! Core of a DAG-based Byzantine fault-tolerant consensus node.
//!
//! Authorities repeatedly propose blocks that reference the blocks of other
//! authorities. The modules below cover the committee and its stake
//! thresholds, the threshold clock, the block store with its ordered log of
//! typed entries, block formation, vote aggregation, the leader commit
//! rule, and what a node decides when it sends and asks for blocks.

pub mod aggregator;
pub mod block_handler;
pub mod block_manager;
pub mod block_store;
pub mod codec;
pub mod commit_interpreter;
pub mod commit_observer;
pub mod committee;
pub mod committer;
pub mod consensus;
pub mod dag;
pub mod epoch_close;
pub mod sorting;
pub mod state;
pub mod synchronizer;
pub mod threshold_clock;
pub mod types;
pub mod wal;
pub mod wal_format;

