//! The content-server binary's command line, as plain data.
//!
//! The argument parsing itself lives with the binary; these are the values
//! it hands over.

use vstd::prelude::*;

verus! {

/// The parsed content-server command line.
#[derive(Debug)]
pub struct Cli {
    pub command: Commands,
}

/// One content-server subcommand.
#[derive(Debug)]
pub enum Commands {
    /// Store the serving settings locally.
    SetConfig { path: String, tunnel_host: String, password: Option<String> },
    /// Show the stored settings.
    ShowConfig { names: Option<Vec<String>> },
    /// Connect to the broker and serve.
    Start {},
    /// Stop serving.
    Stop {},
    /// Restart serving.
    Restart {},
}

} // verus!
