//! The client-side download loop's decisions.
//!
//! A file is fetched block by block over the tunnel. The transport (HTTP,
//! the local file, the checksum run) is the caller's; what block to ask for
//! next, when the file is complete, and when a failed checksum warrants a
//! restart is decided here.

use vstd::prelude::*;

verus! {

/// The block size one download request asks for, in bytes.
pub const DOWNLOAD_BLOCK_SIZE: u64 = 65536;

/// How many failed whole-file checksums are tolerated before giving up.
pub const MAX_CHECKSUM_RETRIES: u64 = 3;

/// How many blocks cover a file: the quotient, rounded up.
pub fn block_count(file_size: u64, block_size: u64) -> (r: u64)
    requires
        block_size > 0,
    ensures
        r == if file_size % block_size == 0 {
            (file_size / block_size) as int
        } else {
            file_size / block_size + 1
        },
{
    let count = file_size / block_size;
    proof {
        assert(count * block_size + file_size % block_size == file_size) by (nonlinear_arith)
            requires
                block_size > 0,
                count == file_size / block_size,
        ;
    }
    if count * block_size < file_size {
        proof {
            assert(count <= count * block_size) by (nonlinear_arith)
                requires
                    block_size >= 1,
                    count >= 0,
            ;
        }
        count + 1
    } else {
        count
    }
}

/// Where one download stands: the next block to ask for, how much has been
/// written, and how many checksum retries are left.
pub struct DownloadState {
    pub block_idx: u64,
    pub downloaded_size: u64,
    pub err_times: u64,
    pub block_count: u64,
}

impl DownloadState {
    /// A download about to ask for its first block.
    pub fn begin(block_count: u64) -> (r: DownloadState)
        ensures
            r.block_idx == 0,
            r.downloaded_size == 0,
            r.err_times == MAX_CHECKSUM_RETRIES,
            r.block_count == block_count,
    {
        DownloadState {
            block_idx: 0,
            downloaded_size: 0,
            err_times: MAX_CHECKSUM_RETRIES,
            block_count,
        }
    }

    /// Whether another block remains to be asked for.
    pub fn more_blocks(&self) -> (r: bool)
        ensures
            r == (self.block_idx < self.block_count),
    {
        self.block_idx < self.block_count
    }
}

/// What the download loop does after one block's reply.
#[derive(Debug, Clone, Copy, PartialEq, Eq, Structural)]
pub enum DownloadAction {
    /// Ask for the next block.
    Proceed,
    /// A short block arrived and the whole file's checksum matched: done.
    Finished,
    /// A short block arrived but the checksum did not match: start the
    /// file over.
    Restart,
    /// The checksum failed with no retries left: give up.
    Abort,
}

/// Advances one download after a block of `data_size` bytes arrived and,
/// where the block was short (the file's tail), the whole-file checksum
/// came back as `checksum_ok`. A non-empty block is accounted as written at
/// the old offset; a short block ends the file: a good checksum finishes,
/// a bad one spends a retry and starts the file over until none is left.
pub fn download_step(
    st: DownloadState,
    data_size: u64,
    block_size: u64,
    checksum_ok: bool,
) -> (r: (DownloadState, DownloadAction))
    requires
        block_size > 0,
        data_size <= block_size,
        st.downloaded_size + data_size <= u64::MAX,
        st.block_idx < st.block_count,
        st.err_times >= 1,
    ensures
        data_size == block_size ==> r.1 == DownloadAction::Proceed && r.0.block_idx == st.block_idx
            + 1 && r.0.downloaded_size == st.downloaded_size + data_size,
        data_size < block_size && checksum_ok ==> r.1 == DownloadAction::Finished,
        data_size < block_size && !checksum_ok && st.err_times > 1 ==> r.1
            == DownloadAction::Restart && r.0.block_idx == 0 && r.0.downloaded_size == 0
            && r.0.err_times == st.err_times - 1,
        data_size < block_size && !checksum_ok && st.err_times == 1 ==> r.1
            == DownloadAction::Abort,
        r.0.block_count == st.block_count,
{
    let mut next = st;
    if data_size > 0 {
        next.downloaded_size = next.downloaded_size + data_size;
        next.block_idx = next.block_idx + 1;
    }
    if data_size < block_size {
        if checksum_ok {
            (next, DownloadAction::Finished)
        } else {
            next.err_times = next.err_times - 1;
            if next.err_times > 0 {
                next.block_idx = 0;
                next.downloaded_size = 0;
                (next, DownloadAction::Restart)
            } else {
                (next, DownloadAction::Abort)
            }
        }
    } else {
        (next, DownloadAction::Proceed)
    }
}

} // verus!
