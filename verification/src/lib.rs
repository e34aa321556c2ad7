//! A resumable, multi-connection download library.
//!
//! The library holds the decisions of a download: how a file is probed, cut into chunks, split while
//! it runs, retried, resumed, limited, spread over several sources, and queued among other
//! downloads. It does no input or output of its own. Whoever drives a download performs the requests
//! and the writes, and hands their outcomes in; times are passed in nanoseconds, and speeds are in
//! thousandths of a byte per second.

pub mod chunk;
pub mod concurrency;
pub mod conduct;
pub mod config;
pub mod conservation;
pub mod delivery;
pub mod downloader;
pub mod lane;
pub mod ledger;
pub mod limiter;
pub mod lineup;
pub mod monitor;
pub mod occupancy;
pub mod oversight;
pub mod path;
pub mod patience;
pub mod queue;
pub mod resource;
pub mod resume;
pub mod retry;
pub mod roster;
pub mod source;
pub mod speed;
pub mod standing;
pub mod state;
pub mod task;
pub mod text;
pub mod trace;
pub mod types;
pub mod util;
pub mod writer;

pub use config::RuntimeConfig;
pub use downloader::{DownloadBuilder, Downloader};
pub use lane::{LaneCandidate, LaneHealth, LaneModel, LaneScheduler};
pub use queue::{QueueError, QueueState};
pub use resume::{hash_bytes, metadata_path_for, ResumeMetadata, DEFAULT_SEGMENT_SIZE};
pub use source::{MultiSourceConfig, ProxyConfig, SourceConfig};
pub use task::{Task, TaskId, TaskSnapshot, TaskState};
pub use types::{ChunkId, DownloadCmd, DownloadError, DownloadInfo, Result};
