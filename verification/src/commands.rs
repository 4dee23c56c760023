//! The command and reply envelopes the tunnel carries, and the share-rooted
//! paths they name.
//!
//! The broker itself treats these as opaque payload; the content server and
//! the client speak them. An [`FtPath`] is a path split into the share's
//! root and a relative part, so that a client can name files without
//! knowing where the share lives on the serving machine.

use vstd::prelude::*;
use vstd::string::{StrSliceExecFns, StringExecFns};

use crate::util::{join_spec, replace_all, trim_start_char_spec, trim_start_seq_spec};

verus! {

/// One request envelope: a version and a command.
#[derive(Debug)]
pub struct WebSocketCommand {
    pub version: u16,
    pub command: Command,
}

/// The request envelope as the HTTP API names it.
pub type ApiCommand = WebSocketCommand;

/// A path split into the share's root and a path relative to it.
#[derive(Debug, Clone)]
pub struct FtPath {
    pub root: String,
    pub relative_path: String,
}

impl FtPath {
    /// A path from a root and an already relative part; leading separators
    /// on the relative part are dropped.
    pub fn new_relative(root: String, relative_path: String) -> (r: FtPath)
        ensures
            r.root@ == root@,
            r.relative_path@ == trim_start_char_spec(relative_path@, '/'),
    {
        let trimmed = crate::util::str_trim_start_char(relative_path.as_str(), '/');
        let relative_path = String::from_str(trimmed);
        FtPath { root, relative_path }
    }

    /// A path from a root and an absolute path: every occurrence of the
    /// root is cut out of the absolute path, and the rest is taken as
    /// relative.
    pub fn new_absolute(root: String, absolute_path: String) -> (r: FtPath)
        ensures
            r.root@ == root@,
            r.relative_path@ == trim_start_char_spec(
                replace_all(absolute_path@, root@, Seq::empty()),
                '/',
            ),
    {
        let cut = crate::util::str_replace(absolute_path.as_str(), root.as_str(), "");
        proof {
            reveal_strlit("");
            assert(""@ =~= Seq::<char>::empty());
        }
        Self::new_relative(root, cut)
    }

    /// A sibling path from the same root and a new relative part.
    pub fn create_relative(&self, relative_path: String) -> (r: FtPath)
        ensures
            r.root@ == self.root@,
            r.relative_path@ == trim_start_char_spec(relative_path@, '/'),
    {
        Self::new_relative(self.root.clone(), relative_path)
    }

    /// A sibling path from the same root and an absolute path.
    pub fn create_absolute(&self, absolute_path: String) -> (r: FtPath)
        ensures
            r.root@ == self.root@,
            r.relative_path@ == trim_start_char_spec(
                replace_all(absolute_path@, self.root@, Seq::empty()),
                '/',
            ),
    {
        Self::new_absolute(self.root.clone(), absolute_path)
    }

    /// The full path: the relative part, less any leading separators,
    /// joined under the root.
    pub fn full_path(&self) -> (r: String)
        ensures
            r@ == join_spec(self.root@, trim_start_char_spec(self.relative_path@, '/')),
    {
        let trimmed = crate::util::str_trim_start_char(self.relative_path.as_str(), '/');
        crate::util::path_join(self.root.as_str(), trimmed)
    }

    /// The relative part.
    pub fn path(&self) -> (r: String)
        ensures
            r@ == self.relative_path@,
    {
        self.relative_path.clone()
    }

    /// Moves the path under another root, keeping the relative part.
    pub fn reset_root(&mut self, root: &str)
        ensures
            final(self).root@ == root@,
            final(self).relative_path == old(self).relative_path,
    {
        self.root = String::from_str(root);
    }

    /// Cuts every leading copy of a root off the relative part.
    pub fn replace_root_path(&mut self, new_root: &str)
        ensures
            final(self).root == old(self).root,
            final(self).relative_path@ == trim_start_seq_spec(
                old(self).relative_path@,
                new_root@,
            ),
    {
        let trimmed = crate::util::str_trim_start_seq(self.relative_path.as_str(), new_root);
        let trimmed = String::from_str(trimmed);
        self.relative_path = trimmed;
    }

    /// The root.
    pub fn root_path(&self) -> (r: &String)
        ensures
            r@ == self.root@,
    {
        &self.root
    }

    /// Whether the full path points at anything on this machine's
    /// filesystem.
    pub fn exists_on_disk(&self) -> bool {
        path_exists(self.full_path().as_str())
    }
}

/// Relies on `std::path::Path::exists`: asks the filesystem whether the
/// path points at anything. The answer depends on the disk; nothing is
/// promised of it.
#[verifier::external_body]
fn path_exists(p: &str) -> bool {
    std::path::Path::new(p).exists()
}

/// One filesystem command of the tunnel's API.
#[derive(Debug)]
pub enum Command {
    ReadConfig {},
    ReadDirItem { dir_path: FtPath, take_size: usize, skip_size: usize },
    ReadFileInfo { file_path: FtPath },
    ReadPathInfo { path: FtPath, take_size: usize, skip_size: usize },
    DownloadFile { file_path: FtPath, block_idx: usize, block_size: usize },
    ModifiedFile { path: FtPath, m_type: ModfiedType },
}

/// One reply envelope: a version, a status, and the reply data.
#[derive(Debug)]
pub struct CommandMessage {
    pub version: u16,
    pub status: u16,
    pub data: CommandData,
}

/// One directory entry, with its path and what is known about it.
#[derive(Debug, Clone)]
pub struct DirItem {
    pub path: FtPath,
    pub info: DirItemInfo,
}

impl DirItem {
    /// The entry's path.
    pub fn path(&self) -> (r: &FtPath)
        ensures
            *r == self.path,
    {
        &self.path
    }
}

/// What is known about one directory entry.
#[derive(Debug, Clone)]
pub enum DirItemInfo {
    Dir { modified_at: u64, created_at: u64, item_count: u64 },
    File { modified_at: u64, created_at: u64, file_size: u64, chksum: String },
}

/// The data part of one reply envelope.
#[derive(Debug)]
pub enum CommandData {
    ReadConfig { path: String },
    ReadDirItem { items: Vec<DirItem>, total: usize, taked_size: usize },
    ReadFileInfo { item: DirItem },
    DownloadFile { data: Vec<u8>, data_size: usize },
    ModifiedFile { path: String, m_type: ModfiedType },
    Error { message: String },
}

/// Which aspect of a file a change notice speaks of.
#[derive(Debug, Clone, Copy, PartialEq, Eq, Structural)]
pub enum ModfiedType {
    Meta,
    Content,
}

/// How many entries a paged directory listing has handed out once this
/// page is taken: the whole window, or the total when the window passes
/// its end.
pub fn taked_size(take_size: usize, skip_size: usize, total: usize) -> (r: usize)
    requires
        take_size + skip_size <= usize::MAX,
    ensures
        r == if take_size + skip_size <= total {
            take_size + skip_size
        } else {
            total as int
        },
{
    let window = take_size + skip_size;
    if window <= total {
        window
    } else {
        total
    }
}

/// The reply to a configuration read: the share is always presented as
/// rooted at `/`.
pub fn reply_read_config(version: u16) -> (r: CommandMessage)
    ensures
        r.version == version,
        r.status == 0,
        r.data matches CommandData::ReadConfig { path } && path@ == "/"@,
{
    CommandMessage {
        version,
        status: 0,
        data: CommandData::ReadConfig { path: String::from_str("/") },
    }
}

/// The reply to a directory listing: the entries of the requested page,
/// the total, and how far the listing has advanced.
pub fn reply_read_dir(
    version: u16,
    items: Vec<DirItem>,
    total: usize,
    take_size: usize,
    skip_size: usize,
) -> (r: CommandMessage)
    requires
        take_size + skip_size <= usize::MAX,
    ensures
        r.version == version,
        r.status == 0,
        r.data matches CommandData::ReadDirItem { items: out, total: t, taked_size: k } && out
            == items && t == total && k == if take_size + skip_size <= total {
            take_size + skip_size
        } else {
            total as int
        },
{
    let taked = taked_size(take_size, skip_size, total);
    CommandMessage {
        version,
        status: 0,
        data: CommandData::ReadDirItem { items, total, taked_size: taked },
    }
}

/// The reply to a file information request.
pub fn reply_read_file(version: u16, item: DirItem) -> (r: CommandMessage)
    ensures
        r.version == version,
        r.status == 0,
        r.data matches CommandData::ReadFileInfo { item: out } && out == item,
{
    CommandMessage { version, status: 0, data: CommandData::ReadFileInfo { item } }
}

/// The reply to a block download: the block's bytes and their count.
pub fn reply_download(version: u16, data: Vec<u8>) -> (r: CommandMessage)
    ensures
        r.version == version,
        r.status == 0,
        r.data matches CommandData::DownloadFile { data: out, data_size: n } && out == data && n
            == data@.len(),
{
    let data_size = data.len();
    CommandMessage { version, status: 0, data: CommandData::DownloadFile { data, data_size } }
}

/// An error reply with the given status and message.
pub fn reply_error(version: u16, status: u16, message: String) -> (r: CommandMessage)
    ensures
        r.version == version,
        r.status == status,
        r.data matches CommandData::Error { message: m } && m == message,
{
    CommandMessage { version, status, data: CommandData::Error { message } }
}

/// Builds one listing entry from the path the serving machine saw: the
/// entry is keyed relative to the serving root, then presented under the
/// root the client asked with, with what is known about it attached.
pub fn build_item(path: &str, root: &str, org_root: &str, info: DirItemInfo) -> (r: DirItem)
    ensures
        r.info == info,
        r.path.root@ == org_root@,
        r.path.relative_path@ == trim_start_seq_spec(
            trim_start_char_spec(path@, '/'),
            root@,
        ),
{
    let mut item_path = FtPath::new_absolute(String::new(), String::from_str(path));
    item_path.replace_root_path(root);
    item_path.reset_root(org_root);
    DirItem { path: item_path, info }
}

} // verus!
