//! View-facing state records around the report preview and token counting.

use vstd::prelude::*;

use crate::report::ReportOptions;

verus! {

/// Where a token count for the previewed report stands.
#[derive(Debug, Clone, PartialEq, Eq)]
pub enum TokenStatus {
    /// No preview to count.
    NotApplicable,
    /// Not counting right now.
    Idle,
    /// A count is underway.
    Loading,
    /// The count arrived.
    Ready { total_tokens: i64, cached_tokens: Option<i64> },
    /// Counting failed.
    Error(String),
}

/// A file left out of the report preview, and why.
#[derive(Debug, Clone)]
pub struct PreviewExclusion {
    pub path: String,
    pub reason: String,
}

/// Everything the report preview pane shows: what it was built from, its
/// text with line ranges, and the token count status.
#[derive(Debug, Clone)]
pub struct ReportPreviewState {
    pub last_options: ReportOptions,
    pub selection_fingerprint: u64,
    pub selected_files: usize,
    pub included_files: usize,
    pub total_characters: usize,
    pub preview_text: String,
    pub preview_lines: Vec<(usize, usize)>,
    pub excluded_files: Vec<PreviewExclusion>,
    pub token_status: TokenStatus,
    pub pending_job_id: Option<u64>,
}

/// One file handed to the token-counting worker.
#[derive(Debug, Clone)]
pub struct TokenWorkItem {
    pub id: usize,
    pub path: Vec<u8>,
    pub is_binary: bool,
}

/// What the token worker does with one work item: skip it, or read and
/// count it, caching the content when allowed. Binary files, a zero count
/// limit, and oversized files are skipped.
pub fn plan_token_work(
    item: &TokenWorkItem,
    file_size: u64,
    max_cache_size: u64,
    max_count_size: u64,
) -> (r: Option<bool>)
    ensures
        r is Some <==> (!item.is_binary && max_count_size > 0 && file_size <= max_count_size),
        r is Some ==> r->0 == (max_cache_size > 0 && file_size <= max_cache_size),
{
    if item.is_binary {
        return None;
    }
    if max_count_size == 0 {
        return None;
    }
    if file_size > max_count_size {
        return None;
    }
    Some(max_cache_size > 0 && file_size <= max_cache_size)
}

} // verus!
