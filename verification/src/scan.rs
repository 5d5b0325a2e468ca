//! What the scanner makes of the metadata that the filesystem reports.
//!
//! Symlinks are not followed.

use vstd::prelude::*;

use crate::exclude::{ExcludeSet, Level};
use crate::model::{EType, Ext};
use crate::num::low32;
use crate::sink::Stat;

verus! {

pub struct ScanOptions {
    /// Capture mtime/uid/gid/mode into `Ext` for every entry.
    pub extended: bool,
    /// Patterns of entries to leave out.
    pub exclude: ExcludeSet,
}

impl Default for ScanOptions {
    fn default() -> (r: Self)
        ensures
            !r.extended,
            r.exclude.wf(),
            r.exclude.root@ == (Level { leaf: Seq::empty(), branch: Seq::empty() }),
            r.exclude.root_unanchored@ == (Level { leaf: Seq::empty(), branch: Seq::empty() }),
    {
        ScanOptions { extended: false, exclude: ExcludeSet::new() }
    }
}

/// Metadata of a file as the filesystem reports it.
#[derive(Copy, Clone, Debug)]
pub struct Metadata {
    pub is_dir: bool,
    pub is_file: bool,
    pub size: u64,
    pub blocks: u64,
    pub dev: u64,
    pub ino: u64,
    pub nlink: u64,
    pub mtime: i64,
    pub uid: u32,
    pub gid: u32,
    pub mode: u32,
}

/// The entry type that goes with metadata.
pub open spec fn etype_of(m: Metadata) -> EType {
    if m.is_dir {
        EType::Dir
    } else if !m.is_file {
        EType::NonReg
    } else if m.nlink > 1 {
        EType::Link
    } else {
        EType::Reg
    }
}

/// The extended metadata to capture. Times before the epoch count as the
/// epoch, and of the mode the lowest 16 bits count.
pub open spec fn ext_of(m: Metadata) -> Ext {
    Ext {
        mtime: Some(
            if m.mtime < 0 {
                0
            } else {
                m.mtime as u64
            },
        ),
        uid: Some(m.uid),
        gid: Some(m.gid),
        mode: Some((m.mode % 0x1_0000) as u16),
    }
}

/// What the sink is told of an entry.
pub open spec fn stat_of(r: Stat, m: Metadata, extended: bool) -> bool {
    &&& r.etype == etype_of(m)
    &&& r.size == m.size
    &&& r.blocks == m.blocks
    &&& r.dev == m.dev
    &&& r.ino == m.ino
    &&& r.nlink == low32(m.nlink)
    &&& r.ext == if extended {
        ext_of(m)
    } else {
        Ext { mtime: None, uid: None, gid: None, mode: None }
    }
}

/// What the sink is told of an entry.
pub fn stat_from_metadata(m: &Metadata, extended: bool) -> (r: Stat)
    ensures
        stat_of(r, *m, extended),
        r.etype is Dir <==> m.is_dir,
        r.etype is Link <==> !m.is_dir && m.is_file && m.nlink > 1,
        r.etype is Reg <==> !m.is_dir && m.is_file && m.nlink <= 1,
        r.etype is NonReg <==> !m.is_dir && !m.is_file,
        r.size == m.size,
        r.blocks == m.blocks,
        r.dev == m.dev,
        r.ino == m.ino,
        r.nlink == m.nlink % 0x1_0000_0000,
        extended ==> r.ext.uid == Some(m.uid) && r.ext.gid == Some(m.gid),
        extended ==> r.ext.mode is Some && r.ext.mode->0 == m.mode % 0x1_0000,
        extended ==> r.ext.mtime is Some && (m.mtime >= 0 ==> r.ext.mtime->0 == m.mtime),
        extended && m.mtime < 0 ==> r.ext.mtime == Some(0u64),
        !extended ==> r.ext.mtime is None && r.ext.mode is None,
        !extended ==> r.ext.uid is None && r.ext.gid is None,
{
    let etype = if m.is_dir {
        EType::Dir
    } else if m.nlink > 1 && m.is_file {
        EType::Link
    } else if !m.is_file {
        EType::NonReg
    } else {
        EType::Reg
    };
    let ext = if extended {
        let mtime: u64 = if m.mtime < 0 {
            0
        } else {
            m.mtime as u64
        };
        Ext {
            mtime: Some(mtime),
            uid: Some(m.uid),
            gid: Some(m.gid),
            mode: Some((m.mode % 0x1_0000) as u16),
        }
    } else {
        Ext::default()
    };
    Stat {
        etype,
        size: m.size,
        blocks: m.blocks,
        dev: m.dev,
        ino: m.ino,
        nlink: (m.nlink % 0x1_0000_0000) as u32,
        ext,
    }
}

/// The scan target: what the sink is told of it, or why it cannot be scanned.
pub fn scan_root(path: &str, m: &Metadata, extended: bool) -> (r: Result<Stat, String>)
    ensures
        r is Ok <==> m.is_dir,
        r is Ok ==> stat_of(r->Ok_0, *m, extended) && r->Ok_0.etype is Dir,
        r is Ok ==> {
            let stat = r->Ok_0;
            &&& stat.size == m.size
            &&& stat.blocks == m.blocks
            &&& stat.dev == m.dev
            &&& stat.ino == m.ino
            &&& stat.nlink == m.nlink % 0x1_0000_0000
        },
        r is Err ==> r->Err_0@ == "scan target is not a directory: "@ + path@,
{
    if m.is_dir {
        Ok(stat_from_metadata(m, extended))
    } else {
        Err(not_a_directory(path))
    }
}

/// The message for a scan target that is not a directory.
pub fn not_a_directory(path: &str) -> (r: String)
    ensures
        r@ == "scan target is not a directory: "@ + path@,
{
    "scan target is not a directory: ".to_owned().concat(path)
}

} // verus!
