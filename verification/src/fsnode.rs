//! Plain metadata records for a filesystem layered on the store:
//! inodes, directory listings, and mount arguments. The layer that
//! reads and writes them lives with the caller; these are the data
//! shapes it persists through a `Tree`.

use vstd::prelude::*;

verus! {

/// The inode type tag of a regular file.
pub const INODE_TYPE_FILE: u8 = 0;

/// The inode type tag of a directory.
pub const INODE_TYPE_DIR: u8 = 1;

/// One entry of a directory listing.
#[derive(Debug)]
pub struct DirEntry {
    pub name: String,
    pub etype: u8,
    pub ino: u64,
}

/// A directory listing.
#[derive(Debug)]
pub struct Dir {
    pub entries: Vec<DirEntry>,
}

impl Dir {
    /// An empty directory.
    pub fn new() -> (r: Dir)
        ensures
            r.entries@.len() == 0,
    {
        Dir { entries: Vec::new() }
    }
}

/// An inode's stat record: inode number, modification time in
/// seconds, size, and type tag.
#[derive(Debug)]
pub struct Stat {
    pub i: u64,
    pub m: u64,
    pub s: u64,
    pub t: u8,
}

impl Stat {
    /// A fresh file stat: empty, typed as a file, modified at
    /// `now_secs` (the caller supplies the clock reading).
    pub fn new_file(i: u64, now_secs: u64) -> (r: Stat)
        ensures
            r.i == i,
            r.m == now_secs,
            r.s == 0,
            r.t == INODE_TYPE_FILE,
    {
        Stat { i, m: now_secs, s: 0, t: INODE_TYPE_FILE }
    }

    /// A fresh directory stat: empty, typed as a directory, modified
    /// at `now_secs` (the caller supplies the clock reading).
    pub fn new_dir(i: u64, now_secs: u64) -> (r: Stat)
        ensures
            r.i == i,
            r.m == now_secs,
            r.s == 0,
            r.t == INODE_TYPE_DIR,
    {
        Stat { i, m: now_secs, s: 0, t: INODE_TYPE_DIR }
    }
}

/// An inode: its number, its path, and its stat record.
#[derive(Debug)]
pub struct Inode {
    pub ino: u64,
    pub path: String,
    pub stat: Stat,
}

impl Inode {
    /// A fresh file inode at `path`.
    pub fn new_file(i: u64, path: &str, now_secs: u64) -> (r: Inode)
        ensures
            r.ino == i,
            r.path@ == path@,
            r.stat.i == i,
            r.stat.m == now_secs,
            r.stat.s == 0,
            r.stat.t == INODE_TYPE_FILE,
    {
        Inode { ino: i, path: path.to_owned(), stat: Stat::new_file(i, now_secs) }
    }

    /// A fresh directory inode at `path`.
    pub fn new_dir(i: u64, path: &str, now_secs: u64) -> (r: Inode)
        ensures
            r.ino == i,
            r.path@ == path@,
            r.stat.i == i,
            r.stat.m == now_secs,
            r.stat.s == 0,
            r.stat.t == INODE_TYPE_DIR,
    {
        Inode { ino: i, path: path.to_owned(), stat: Stat::new_dir(i, now_secs) }
    }
}

/// How a filesystem over the store is mounted: read-only or not, and
/// at which version.
#[derive(Debug, Clone)]
pub struct FileSystemArgs {
    pub read_only: bool,
    pub version: u16,
}

} // verus!
