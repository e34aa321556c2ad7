//! The types that the parts of a download exchange: errors, commands and progress reports.

use crate::text::push_text;
use vstd::prelude::*;

verus! {

/// Identifies one ranged request (a chunk) of a download.
pub type ChunkId = u64;

/// The library's result type.
pub type Result<T> = std::result::Result<T, DownloadError>;

/// Everything that can go wrong with a download. Errors of the network, the file system and the
/// runtime are carried as their text.
#[derive(Debug, Clone, PartialEq, Eq)]
pub enum DownloadError {
    /// A network request failed.
    Request(String),
    /// A file operation failed.
    Io(String),
    /// A background task panicked or was aborted.
    Join(String),
    /// The server tells no file size.
    MissingContentLength,
    /// No configured source can serve the file.
    NoAvailableSources,
    /// A resume ledger exists, but the file that it describes does not.
    ResumeTargetMissing(String),
    /// The resume ledger cannot be used.
    ResumeMetadata(String),
    /// A chunk failed for good.
    PermanentFailure(String),
    /// A setting is out of range.
    InvalidArgument(String),
}

/// What `DownloadError::message` writes.
pub open spec fn error_text(e: DownloadError) -> Seq<char> {
    match e {
        DownloadError::Request(t) => "网络请求失败: "@ + t@,
        DownloadError::Io(t) => "文件 I/O 错误: "@ + t@,
        DownloadError::Join(t) => "并发任务执行失败: "@ + t@,
        DownloadError::MissingContentLength => "无法从服务器响应头中获取文件大小 (Content-Length)"@,
        DownloadError::NoAvailableSources => "没有可用的下载源"@,
        DownloadError::ResumeTargetMissing(t) => "断点续传元数据存在，但目标文件不存在: "@ + t@,
        DownloadError::ResumeMetadata(t) => "断点续传元数据无效: "@ + t@,
        DownloadError::PermanentFailure(t) => "下载失败，已达重试上限: "@ + t@,
        DownloadError::InvalidArgument(t) => "无效参数: "@ + t@,
    }
}

/// `head` followed by `tail`, as a string of its own.
pub fn joined(head: &str, tail: &str) -> (r: String)
    ensures
        r@ == head@ + tail@,
{
    let mut out: String = String::new();
    push_text(&mut out, head);
    push_text(&mut out, tail);
    assert(out@ =~= head@ + tail@);
    out
}

impl DownloadError {
    /// The message shown to users.
    pub fn message(&self) -> (r: String)
        ensures
            r@ == error_text(*self),
    {
        match self {
            DownloadError::Request(t) => joined("网络请求失败: ", t.as_str()),
            DownloadError::Io(t) => joined("文件 I/O 错误: ", t.as_str()),
            DownloadError::Join(t) => joined("并发任务执行失败: ", t.as_str()),
            DownloadError::MissingContentLength => {
                "无法从服务器响应头中获取文件大小 (Content-Length)".to_owned()
            },
            DownloadError::NoAvailableSources => "没有可用的下载源".to_owned(),
            DownloadError::ResumeTargetMissing(t) => {
                joined("断点续传元数据存在，但目标文件不存在: ", t.as_str())
            },
            DownloadError::ResumeMetadata(t) => joined("断点续传元数据无效: ", t.as_str()),
            DownloadError::PermanentFailure(t) => joined("下载失败，已达重试上限: ", t.as_str()),
            DownloadError::InvalidArgument(t) => joined("无效参数: ", t.as_str()),
        }
    }
}

/// Commands to the parts of a download.
#[derive(Debug, Clone, PartialEq, Eq)]
pub enum DownloadCmd {
    /// Write `data` at `offset`; for the file writer.
    WriteFile { offset: u64, data: Vec<u8> },
    /// Hand half of what is left of a chunk to a new chunk.
    BisectDownload { id: ChunkId },
    /// Hand most of what is left of a stalled chunk to a new chunk.
    BisectDownloadSkewed { id: ChunkId },
    /// Give up a chunk's connection; what is left of its range is retried.
    TerminateChunk { id: ChunkId },
    /// Stop everything.
    TerminateAll,
}

/// Progress and state reports. Speeds are in thousandths of a byte per second.
///
/// Chunk status codes: 0 downloading, 1 retrying, 2 waiting for a retry, 3 waiting for a delayed
/// retry, 4 complete, 5 failed.
#[derive(Debug, Clone, PartialEq, Eq)]
#[non_exhaustive]
pub enum DownloadInfo {
    /// Bytes that a chunk has received so far.
    ChunkProgress { id: ChunkId, start_byte: u64, end_byte: u64, downloaded: u64 },
    /// The whole download, with one entry per chunk: id, size, bytes received, speed, status.
    MonitorUpdate {
        total_size: u64,
        total_downloaded: u64,
        total_speed: u64,
        chunk_details: Vec<(ChunkId, u64, u64, u64, u8)>,
    },
    /// A chunk has received its whole range.
    DownloadComplete(ChunkId),
    /// A chunk failed; `start..=end` is what it has not received.
    ChunkFailed { id: ChunkId, start: u64, end: u64, error: String },
    /// A chunk gave `new_start..=new_end` away.
    ChunkBisected { original_id: ChunkId, new_start: u64, new_end: u64 },
    /// A chunk's status code changed.
    ChunkStatusChanged { id: ChunkId, status: u8, message: Option<String> },
}

/// A report in mathematical terms.
pub enum InfoView {
    ChunkProgress { id: ChunkId, start_byte: u64, end_byte: u64, downloaded: u64 },
    MonitorUpdate {
        total_size: u64,
        total_downloaded: u64,
        total_speed: u64,
        chunk_details: Seq<(ChunkId, u64, u64, u64, u8)>,
    },
    DownloadComplete { id: ChunkId },
    ChunkFailed { id: ChunkId, start: u64, end: u64, error: Seq<char> },
    ChunkBisected { original_id: ChunkId, new_start: u64, new_end: u64 },
    ChunkStatusChanged { id: ChunkId, status: u8, message: Option<Seq<char>> },
}

impl View for DownloadInfo {
    type V = InfoView;

    open spec fn view(&self) -> InfoView {
        match *self {
            DownloadInfo::ChunkProgress { id, start_byte, end_byte, downloaded } =>
                InfoView::ChunkProgress { id, start_byte, end_byte, downloaded },
            DownloadInfo::MonitorUpdate {
                total_size,
                total_downloaded,
                total_speed,
                chunk_details,
            } => InfoView::MonitorUpdate {
                total_size,
                total_downloaded,
                total_speed,
                chunk_details: chunk_details@,
            },
            DownloadInfo::DownloadComplete(id) => InfoView::DownloadComplete { id },
            DownloadInfo::ChunkFailed { id, start, end, error } => InfoView::ChunkFailed {
                id,
                start,
                end,
                error: error@,
            },
            DownloadInfo::ChunkBisected { original_id, new_start, new_end } =>
                InfoView::ChunkBisected { original_id, new_start, new_end },
            DownloadInfo::ChunkStatusChanged { id, status, message } =>
                InfoView::ChunkStatusChanged {
                id,
                status,
                message: match message {
                    Some(m) => Some(m@),
                    None => None,
                },
            },
        }
    }
}

impl DownloadInfo {
    /// Bytes received in all; 0 for every report but `MonitorUpdate`.
    pub fn downloaded_bytes(&self) -> (r: u64)
        ensures
            r == (match *self {
                DownloadInfo::MonitorUpdate { total_downloaded, .. } => total_downloaded,
                _ => 0,
            }),
    {
        match self {
            DownloadInfo::MonitorUpdate { total_downloaded, .. } => *total_downloaded,
            _ => 0,
        }
    }

    /// The file's size; 0 for every report but `MonitorUpdate`.
    pub fn total_bytes(&self) -> (r: u64)
        ensures
            r == (match *self {
                DownloadInfo::MonitorUpdate { total_size, .. } => total_size,
                _ => 0,
            }),
    {
        match self {
            DownloadInfo::MonitorUpdate { total_size, .. } => *total_size,
            _ => 0,
        }
    }

    /// Whether a `MonitorUpdate` shows a complete download; false for every other report. With size
    /// 0 only an empty file is complete: a stream of unknown size that has delivered bytes is not.
    pub fn is_complete(&self) -> (r: bool)
        ensures
            r == (match *self {
                DownloadInfo::MonitorUpdate { total_size, total_downloaded, .. } => if total_size
                    == 0 {
                    total_downloaded == 0
                } else {
                    total_downloaded >= total_size
                },
                _ => false,
            }),
    {
        match self {
            DownloadInfo::MonitorUpdate { total_size, total_downloaded, .. } => if *total_size
                == 0 {
                *total_downloaded == 0
            } else {
                *total_downloaded >= *total_size
            },
            _ => false,
        }
    }
}

/// The text of an error ends with what is known of it.
pub proof fn law_error_texts_end_with_their_detail(e: DownloadError)
    ensures
        ({
            let detail = match e {
                DownloadError::Request(t) => t@,
                DownloadError::Io(t) => t@,
                DownloadError::Join(t) => t@,
                DownloadError::ResumeTargetMissing(t) => t@,
                DownloadError::ResumeMetadata(t) => t@,
                DownloadError::PermanentFailure(t) => t@,
                DownloadError::InvalidArgument(t) => t@,
                _ => Seq::empty(),
            };
            let text = error_text(e);
            text.len() >= detail.len() && text.skip(text.len() - detail.len()) == detail
        }),
{
    let text = error_text(e);
    match e {
        DownloadError::Request(t) => {
            assert(text.skip(text.len() - t@.len()) =~= t@);
        },
        DownloadError::Io(t) => {
            assert(text.skip(text.len() - t@.len()) =~= t@);
        },
        DownloadError::Join(t) => {
            assert(text.skip(text.len() - t@.len()) =~= t@);
        },
        DownloadError::ResumeTargetMissing(t) => {
            assert(text.skip(text.len() - t@.len()) =~= t@);
        },
        DownloadError::ResumeMetadata(t) => {
            assert(text.skip(text.len() - t@.len()) =~= t@);
        },
        DownloadError::PermanentFailure(t) => {
            assert(text.skip(text.len() - t@.len()) =~= t@);
        },
        DownloadError::InvalidArgument(t) => {
            assert(text.skip(text.len() - t@.len()) =~= t@);
        },
        _ => {
            assert(text.skip(text.len() as int) =~= Seq::empty());
        },
    }
}

} // verus!
