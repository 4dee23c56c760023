//! The client binary's command line, as plain data.
//!
//! The argument parsing itself lives with the binary; these are the values
//! it hands over.

use vstd::prelude::*;

verus! {

/// The parsed client command line.
#[derive(Debug)]
pub struct Cli {
    pub command: Option<Command>,
}

/// One client subcommand.
#[derive(Debug)]
pub enum Command {
    /// Store the connection settings locally.
    SetLocalConfig { share_key: String, save_path: String, tunnel_host: String, password: Option<
        String,
    > },
    /// Show the stored settings.
    ShowLocalConfig { names: Option<Vec<String>> },
    /// Ask the content server for its configuration.
    ReadServerConfig {},
    /// List a directory page of the share.
    ReadDirItem { dir_path: String, take_size: usize, skip_size: usize, format: String, download: bool },
    /// Ask for one file's information.
    ReadFileInfo { file_path: String },
    /// Fetch one block of a file.
    DownloadFile { file_path: String, block_size: usize, block_idx: usize },
}

} // verus!
