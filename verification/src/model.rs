//! Core data model for the scanned filesystem tree.
//!
//! Nodes live in an arena (`Vec<Node>`) and refer to each other by `u32`
//! indices. Children of a directory form a singly linked list: the directory
//! holds the first child in `sub`, and each child holds its next sibling in
//! `next`.

use std::collections::{HashMap, HashSet};
use vstd::prelude::*;

use crate::shape::{ancestors, has_line, id_at, line_of, parents, step_at};
use crate::text::{ends_in, ends_with};

verus! {

broadcast use vstd::std_specs::hash::group_hash_axioms;

/// Index into [`Tree::nodes`]. `EntryId::none()` represents a null reference.
#[derive(Copy, Clone, Debug, PartialEq, Eq, Hash, Structural)]
pub struct EntryId(pub u32);

impl EntryId {
    /// The null reference.
    #[verifier::allow_in_spec]
    pub fn none() -> EntryId
        returns
            EntryId(u32::MAX),
    {
        EntryId(u32::MAX)
    }

    pub fn is_none(self) -> (r: bool)
        ensures
            r == (self == EntryId::none()),
    {
        self == EntryId::none()
    }

    pub fn index(self) -> (r: usize)
        ensures
            r == self.0,
    {
        self.0 as usize
    }
}

impl Default for EntryId {
    fn default() -> (r: Self)
        ensures
            r == EntryId::none(),
    {
        EntryId::none()
    }
}

/// Entry type tag.
#[derive(Copy, Clone, Debug, PartialEq, Eq, Structural)]
pub enum EType {
    Dir,
    Reg,
    NonReg,
    Link,
    Error,
    Pattern,
    OtherFs,
    KernFs,
}

impl EType {
    /// Numeric value of the tag in the ncdu binary export. Must stay stable.
    pub fn code(self) -> (r: i8)
        ensures
            r == match self {
                EType::Dir => 0int,
                EType::Reg => 1,
                EType::NonReg => 2,
                EType::Link => 3,
                EType::Error => -1,
                EType::Pattern => -2,
                EType::OtherFs => -3,
                EType::KernFs => -4,
            },
    {
        match self {
            EType::Dir => 0,
            EType::Reg => 1,
            EType::NonReg => 2,
            EType::Link => 3,
            EType::Error => -1,
            EType::Pattern => -2,
            EType::OtherFs => -3,
            EType::KernFs => -4,
        }
    }

    /// Reduces extended types back to the three storable kinds.
    pub fn base(self) -> (r: EType)
        ensures
            r == (if self == EType::Dir || self == EType::Link {
                self
            } else {
                EType::Reg
            }),
    {
        match self {
            EType::Dir | EType::Link => self,
            _ => EType::Reg,
        }
    }

    /// Whether this entry should be displayed as a directory in the browser.
    pub fn is_directory(self) -> (r: bool)
        ensures
            r == (self == EType::Dir || self == EType::OtherFs || self == EType::KernFs),
    {
        matches!(self, EType::Dir | EType::OtherFs | EType::KernFs)
    }

    /// Marker types: entries that stand for something the scan did not record.
    pub open spec fn is_special(self) -> bool {
        self is Error || self is Pattern || self is OtherFs || self is KernFs
    }
}

impl Default for EType {
    fn default() -> (r: Self)
        ensures
            r == EType::Reg,
    {
        EType::Reg
    }
}

/// Compressed device-id. Saturates at `u32::MAX - 1`.
pub type DevId = u32;

/// Optional extended metadata.
#[derive(Copy, Clone, Debug, PartialEq, Eq)]
pub struct Ext {
    pub mtime: Option<u64>,
    pub uid: Option<u32>,
    pub gid: Option<u32>,
    pub mode: Option<u16>,
}

impl Ext {
    pub open spec fn none(self) -> bool {
        self.mtime is None && self.uid is None && self.gid is None && self.mode is None
    }

    pub fn is_empty(&self) -> (r: bool)
        ensures
            r == self.none(),
    {
        self.mtime.is_none() && self.uid.is_none() && self.gid.is_none() && self.mode.is_none()
    }
}

impl Default for Ext {
    fn default() -> (r: Self)
        ensures
            r.none(),
    {
        Ext { mtime: None, uid: None, gid: None, mode: None }
    }
}

/// Fields shared by every node kind.
#[derive(Clone, Debug)]
pub struct EntryCommon {
    pub name: String,
    pub etype: EType,
    /// Apparent size in bytes.
    pub size: u64,
    /// On-disk size in 512-byte blocks.
    pub blocks: u64,
    pub ext: Option<Ext>,
    /// Next sibling in parent's child list. `EntryId::none()` = end.
    pub next: EntryId,
}

impl EntryCommon {
    pub fn new(name: &str, etype: EType) -> (r: Self)
        ensures
            r.name@ == name@,
            r.etype == etype,
            r.size == 0,
            r.blocks == 0,
            r.ext is None,
            r.next == EntryId::none(),
    {
        Self {
            name: name.to_owned(),
            etype,
            size: 0,
            blocks: 0,
            ext: None,
            next: EntryId::none(),
        }
    }
}

/// Directory-specific data.
#[derive(Clone, Debug)]
pub struct DirData {
    /// First child in this directory. `EntryId::none()` = empty.
    pub sub: EntryId,
    /// Parent directory. `EntryId::none()` only valid for the root.
    pub parent: EntryId,
    /// Bytes in shared hardlinks that still have refs outside this dir.
    pub shared_size: u64,
    /// 512-byte blocks in shared hardlinks (see `shared_size`).
    pub shared_blocks: u64,
    /// Total item count including all descendants.
    pub items: u32,
    pub dev: DevId,
    /// Scan error encountered on this directory itself.
    pub err: bool,
    /// Scan error encountered in some descendant.
    pub suberr: bool,
}

impl DirData {
    pub open spec fn blank() -> DirData {
        DirData {
            sub: EntryId::none(),
            parent: EntryId::none(),
            shared_size: 0,
            shared_blocks: 0,
            items: 0,
            dev: 0,
            err: false,
            suberr: false,
        }
    }
}

impl Default for DirData {
    fn default() -> (r: Self)
        ensures
            r == DirData::blank(),
    {
        DirData {
            sub: EntryId::none(),
            parent: EntryId::none(),
            shared_size: 0,
            shared_blocks: 0,
            items: 0,
            dev: 0,
            err: false,
            suberr: false,
        }
    }
}

/// Hardlinked-file-specific data. Files with `nlink > 1` become `Link` nodes
/// and participate in the global inode table.
#[derive(Clone, Debug)]
pub struct LinkData {
    pub parent: EntryId,
    /// Circular linked-list of every Link with the same (dev,ino).
    pub next_link: EntryId,
    pub prev_link: EntryId,
    pub ino: u64,
    /// Whether this inode has been counted toward parent dir sizes.
    pub counted: bool,
    /// Reported `nlink` from the filesystem. `0` = unknown (old JSON dumps).
    pub nlink: u32,
}

impl LinkData {
    pub open spec fn blank() -> LinkData {
        LinkData {
            parent: EntryId::none(),
            next_link: EntryId::none(),
            prev_link: EntryId::none(),
            ino: 0,
            counted: false,
            nlink: 0,
        }
    }
}

impl Default for LinkData {
    fn default() -> (r: Self)
        ensures
            r == LinkData::blank(),
    {
        LinkData {
            parent: EntryId::none(),
            next_link: EntryId::none(),
            prev_link: EntryId::none(),
            ino: 0,
            counted: false,
            nlink: 0,
        }
    }
}

/// Discriminator over node kinds. `File` carries no extra data beyond `EntryCommon`.
#[derive(Clone, Debug)]
pub enum NodeKind {
    Dir(DirData),
    Link(LinkData),
    File,
}

#[derive(Clone, Debug)]
pub struct Node {
    pub common: EntryCommon,
    pub kind: NodeKind,
}

impl Node {
    pub fn as_dir(&self) -> (r: Option<&DirData>)
        ensures
            match self.kind {
                NodeKind::Dir(d) => r == Some(&d),
                _ => r is None,
            },
    {
        if let NodeKind::Dir(d) = &self.kind {
            Some(d)
        } else {
            None
        }
    }

    pub fn as_dir_mut(&mut self) -> (r: Option<&mut DirData>)
        ensures
            match r {
                Some(d) => {
                    &&& old(self).kind == NodeKind::Dir(*d)
                    &&& final(self).kind == NodeKind::Dir(*final(d))
                    &&& final(self).common == old(self).common
                },
                None => {
                    &&& !(old(self).kind is Dir)
                    &&& *final(self) == *old(self)
                },
            },
    {
        if let NodeKind::Dir(d) = &mut self.kind {
            Some(d)
        } else {
            None
        }
    }

    pub fn as_link(&self) -> (r: Option<&LinkData>)
        ensures
            match self.kind {
                NodeKind::Link(l) => r == Some(&l),
                _ => r is None,
            },
    {
        if let NodeKind::Link(l) = &self.kind {
            Some(l)
        } else {
            None
        }
    }

    pub fn as_link_mut(&mut self) -> (r: Option<&mut LinkData>)
        ensures
            match r {
                Some(l) => {
                    &&& old(self).kind == NodeKind::Link(*l)
                    &&& final(self).kind == NodeKind::Link(*final(l))
                    &&& final(self).common == old(self).common
                },
                None => {
                    &&& !(old(self).kind is Link)
                    &&& *final(self) == *old(self)
                },
            },
    {
        if let NodeKind::Link(l) = &mut self.kind {
            Some(l)
        } else {
            None
        }
    }

    pub fn has_err(&self) -> (r: bool)
        ensures
            r == match self.kind {
                NodeKind::Dir(d) => d.err || d.suberr,
                _ => self.common.etype == EType::Error,
            },
    {
        match &self.kind {
            NodeKind::Dir(d) => d.err || d.suberr,
            _ => self.common.etype == EType::Error,
        }
    }
}

/// The id that the device at position `i` of the table goes by.
pub open spec fn device_slot(i: int) -> int {
    if i < u32::MAX - 1 {
        i
    } else {
        u32::MAX - 1
    }
}

/// The device behind an id.
pub open spec fn device(devices: Seq<u64>, id: DevId) -> Option<u64> {
    if id < devices.len() {
        Some(devices[id as int])
    } else {
        None
    }
}

/// The table once `dev` has been looked up in it.
pub open spec fn listed(devices: Seq<u64>, dev: u64) -> Seq<u64> {
    if devices.contains(dev) {
        devices
    } else {
        devices.push(dev)
    }
}

/// Deduplicated device-id table. Real `st_dev` values are 64-bit but a scan
/// typically touches only a handful of devices, so they are compressed to a
/// [`DevId`].
#[derive(Debug)]
pub struct Devices {
    /// Devices in the order in which they were first seen.
    pub list: Vec<u64>,
    /// The id of each listed device.
    pub lookup: HashMap<u64, DevId>,
}

/// The devices of the table, in the order in which they were first seen.
impl View for Devices {
    type V = Seq<u64>;

    open spec fn view(&self) -> Seq<u64> {
        self.list@
    }
}

impl Devices {
    /// No device is listed twice, and the hash index names exactly the listed
    /// devices, each by its id.
    pub open spec fn wf(&self) -> bool {
        &&& self.list@.no_duplicates()
        &&& forall|dev: u64| #[trigger]
            self.lookup@.contains_key(dev) <==> self.list@.contains(dev)
        &&& forall|i: int|
            0 <= i < self.list@.len() ==> self.lookup@[#[trigger] self.list@[i]] == device_slot(i)
    }

    /// The id of `dev`, which is added to the table if it is new.
    pub fn get_id(&mut self, dev: u64) -> (id: DevId)
        requires
            old(self).wf(),
        ensures
            final(self).wf(),
            final(self)@ == listed(old(self)@, dev),
            final(self)@.contains(dev),
            final(self)@.no_duplicates(),
            id == device_slot(final(self)@.index_of(dev)),
            final(self)@.len() < u32::MAX ==> device(final(self)@, id) == Some(dev),
    {
        if let Some(id) = self.lookup.get(&dev) {
            let id: DevId = *id;
            proof {
                let i = self.list@.index_of(dev);
                assert(self.lookup@[self.list@[i]] == device_slot(i));
            }
            return id;
        }
        let ghost before = self.list@;
        let len: usize = self.list.len();
        let id: DevId = if len < (u32::MAX - 1) as usize {
            len as DevId
        } else {
            u32::MAX - 1
        };
        self.list.push(dev);
        self.lookup.insert(dev, id);
        proof {
            let now = self.list@;
            assert(now[now.len() - 1] == dev);
            assert forall|d: u64| #[trigger] now.contains(d) <==> before.contains(d) || d == dev by {
                if before.contains(d) {
                    assert(now[before.index_of(d)] == d);
                }
                if now.contains(d) && d != dev {
                    assert(before[now.index_of(d)] == d);
                }
            }
            assert forall|i: int, j: int|
                0 <= i < now.len() && 0 <= j < now.len() && i != j implies now[i] != now[j] by {
                if i == now.len() - 1 {
                    assert(before.contains(now[j]));
                } else if j == now.len() - 1 {
                    assert(before.contains(now[i]));
                }
            }
            assert forall|i: int| 0 <= i < now.len() implies self.lookup@[#[trigger] now[i]]
                == device_slot(i) by {
                if i < before.len() {
                    assert(before[i] == now[i]);
                    assert(before.contains(now[i]));
                }
            }
            assert(now.index_of(dev) == now.len() - 1);
        }
        id
    }

    pub fn get(&self, id: DevId) -> (r: Option<u64>)
        ensures
            r == device(self@, id),
    {
        let i: usize = id as usize;
        if i < self.list.len() {
            Some(self.list[i])
        } else {
            None
        }
    }
}

impl Default for Devices {
    fn default() -> (r: Self)
        ensures
            r.wf(),
            r@.len() == 0,
    {
        Devices { list: Vec::new(), lookup: HashMap::new() }
    }
}

/// The number that an inode goes by in the table: its device's id and its own
/// number.
pub open spec fn inode_key(dev: DevId, ino: u64) -> u128 {
    (dev * 0x1_0000_0000_0000_0000 + ino) as u128
}

/// Inodes of different devices or with different numbers have different keys.
pub proof fn inode_keys_differ(d1: DevId, i1: u64, d2: DevId, i2: u64)
    ensures
        inode_key(d1, i1) == inode_key(d2, i2) ==> d1 == d2 && i1 == i2,
{
}

/// The table once a Link of an inode has been entered. The first one stays.
pub open spec fn with_link(map: Map<u128, EntryId>, key: u128, id: EntryId) -> Map<u128, EntryId> {
    if map.contains_key(key) {
        map
    } else {
        map.insert(key, id)
    }
}

/// Inode bookkeeping for hardlink counting.
#[derive(Debug)]
pub struct Inodes {
    /// `(dev, ino) -> arbitrary Link node in that inode's circular list`, by
    /// the key of the pair. The device is that of the directory that the Link
    /// is in.
    pub map: HashMap<u128, EntryId>,
    /// Links not yet folded into parent-dir totals.
    pub uncounted: HashSet<EntryId>,
    /// Once `uncounted` grows past `map.len() / 8`, it is dropped and `map`
    /// is walked directly.
    pub uncounted_full: bool,
}

impl Inodes {
    /// Nothing is known of inodes.
    pub open spec fn unused(&self) -> bool {
        &&& self.map@ == Map::<u128, EntryId>::empty()
        &&& self.all_counted()
    }

    /// No Link waits to be folded into the totals.
    pub open spec fn all_counted(&self) -> bool {
        &&& self.uncounted@ == Set::<EntryId>::empty()
        &&& !self.uncounted_full
    }

    /// The key of an inode.
    pub fn key(dev: DevId, ino: u64) -> (r: u128)
        ensures
            r == inode_key(dev, ino),
    {
        dev as u128 * 0x1_0000_0000_0000_0000 + ino as u128
    }

    /// Enters a Link of an inode. The table names the first one of each inode.
    pub fn enter(&mut self, dev: DevId, ino: u64, id: EntryId)
        ensures
            final(self).map@ == with_link(old(self).map@, inode_key(dev, ino), id),
            final(self).uncounted@ == old(self).uncounted@,
            final(self).uncounted_full == old(self).uncounted_full,
    {
        let key: u128 = Self::key(dev, ino);
        if !self.map.contains_key(&key) {
            self.map.insert(key, id);
        }
    }
}

impl Default for Inodes {
    fn default() -> (r: Self)
        ensures
            r.unused(),
    {
        Inodes { map: HashMap::new(), uncounted: HashSet::new(), uncounted_full: false }
    }
}

/// Owns every node in the scanned tree.
#[derive(Debug)]
pub struct Tree {
    pub nodes: Vec<Node>,
    pub root: EntryId,
    pub devices: Devices,
    pub inodes: Inodes,
}

/// What a freshly created node holds.
pub open spec fn fresh_node(n: Node, etype: EType, name: Seq<char>) -> bool {
    &&& n.common.name@ == name
    &&& n.common.etype == etype
    &&& n.common.size == 0
    &&& n.common.blocks == 0
    &&& n.common.ext is None
    &&& n.common.next == EntryId::none()
    &&& n.kind == match etype {
        EType::Dir => NodeKind::Dir(DirData::blank()),
        EType::Link => NodeKind::Link(LinkData::blank()),
        _ => NodeKind::File,
    }
}

impl Default for Tree {
    fn default() -> (r: Self)
        ensures
            r.nodes@.len() == 0,
            r.root == EntryId::none(),
            r.devices.wf(),
            r.devices@.len() == 0,
            r.inodes.unused(),
    {
        Tree {
            nodes: Vec::new(),
            root: EntryId::none(),
            devices: Devices::default(),
            inodes: Inodes::default(),
        }
    }
}

impl Tree {
    pub fn new() -> (r: Self)
        ensures
            r.nodes@.len() == 0,
            r.root == EntryId::none(),
            r.devices.wf(),
            r.devices@.len() == 0,
            r.inodes.unused(),
    {
        Self::default()
    }

    /// Allocates a new node and returns its id.
    pub fn create(&mut self, etype: EType, name: &str) -> (id: EntryId)
        ensures
            id == EntryId(old(self).nodes@.len() as u32),
            final(self).nodes@.len() == old(self).nodes@.len() + 1,
            final(self).nodes@ == old(self).nodes@.push(final(self).nodes@.last()),
            fresh_node(final(self).nodes@.last(), etype, name@),
            final(self).root == old(self).root,
            final(self).devices == old(self).devices,
            final(self).inodes == old(self).inodes,
    {
        let common = EntryCommon::new(name, etype);
        let kind = match etype {
            EType::Dir => NodeKind::Dir(DirData::default()),
            EType::Link => NodeKind::Link(LinkData::default()),
            _ => NodeKind::File,
        };
        let id = EntryId(self.nodes.len() as u32);
        self.nodes.push(Node { common, kind });
        id
    }

    pub fn get(&self, id: EntryId) -> (r: &Node)
        requires
            id.0 < self.nodes@.len(),
        ensures
            *r == self.nodes@[id.0 as int],
    {
        &self.nodes[id.index()]
    }

    pub fn get_mut(&mut self, id: EntryId) -> (r: &mut Node)
        requires
            id.0 < old(self).nodes@.len(),
        ensures
            *r == old(self).nodes@[id.0 as int],
            final(self).nodes@ == old(self).nodes@.update(id.0 as int, *final(r)),
            final(self).root == old(self).root,
            final(self).devices == old(self).devices,
            final(self).inodes == old(self).inodes,
    {
        &mut self.nodes[id.index()]
    }

    /// Walks parent links and writes the full path into `out`. If `with_root`
    /// is false, the root's own name is omitted.
    pub fn fmt_path(&self, id: EntryId, with_root: bool, out: &mut String)
        requires
            has_line(self.nodes@, id, true),
        ensures
            final(out)@ == path_text(
                old(out)@,
                path_names(self.nodes@, line_of(self.nodes@, id, true), with_root),
            ),
    {
        let ghost line = line_of(self.nodes@, id, true);
        let ghost kept: int = if with_root || line.len() == 0 {
            line.len() as int
        } else {
            line.len() - 1
        };
        let mut components: Vec<EntryId> = Vec::new();
        let mut cur = id;
        let ghost mut k: int = 0;
        proof {
            assert(ancestors(self.nodes@, id, line, true));
        }
        while !cur.is_none()
            invariant
                ancestors(self.nodes@, id, line, true),
                0 <= k <= line.len(),
                cur == id_at(line, k),
                kept == (if with_root || line.len() == 0 {
                    line.len() as int
                } else {
                    line.len() - 1
                }),
                components@ == line.take(if k < kept {
                    k
                } else {
                    kept
                }),
            decreases line.len() - k,
        {
            proof {
                assert(step_at(parents(self.nodes@, true), line, k));
            }
            let node = self.get(cur);
            let parent = match &node.kind {
                NodeKind::Dir(d) => d.parent,
                NodeKind::Link(l) => l.parent,
                NodeKind::File => EntryId::none(),
            };
            proof {
                if k + 1 < line.len() {
                    assert(step_at(parents(self.nodes@, true), line, k + 1));
                }
            }
            if with_root || !parent.is_none() {
                components.push(cur);
            }
            cur = parent;
            proof {
                k = k + 1;
            }
        }
        let ghost before = out@;
        let ghost names = path_names(self.nodes@, line, with_root);
        let mut left: usize = components.len();
        proof {
            if k < line.len() {
                assert(step_at(parents(self.nodes@, true), line, k));
            }
            assert(components@ == line.take(kept));
            assert(names.take(0) =~= Seq::<Seq<char>>::empty());
        }
        while left > 0
            invariant
                ancestors(self.nodes@, id, line, true),
                0 <= kept <= line.len(),
                components@ == line.take(kept),
                names == path_names(self.nodes@, line, with_root),
                names.len() == kept,
                left <= components@.len(),
                out@ == path_text(before, names.take(kept - left)),
            decreases left,
        {
            left -= 1;
            proof {
                assert(step_at(parents(self.nodes@, true), line, left as int));
                assert(components@[left as int] == line[left as int]);
                let done = names.take(kept - left);
                assert(done.drop_last() =~= names.take(kept - left - 1));
                assert(done.last() == self.nodes@[line[left as int].0 as int].common.name@);
            }
            if left + 1 != components.len() && !ends_with(out.as_str(), '/') {
                out.push('/');
            }
            out.append(self.get(components[left]).common.name.as_str());
        }
        proof {
            assert(names.take(kept) =~= names);
        }
    }
}

/// The names along a line of ancestors, topmost first. Without `with_root` the
/// topmost one is left out.
pub open spec fn path_names(nodes: Seq<Node>, line: Seq<EntryId>, with_root: bool) -> Seq<
    Seq<char>,
> {
    let kept = if with_root || line.len() == 0 {
        line.len()
    } else {
        (line.len() - 1) as nat
    };
    Seq::new(kept, |i: int| nodes[line[kept - 1 - i].0 as int].common.name@)
}

/// `start` and then the names, with a slash between two names where none is
/// there yet.
pub open spec fn path_text(start: Seq<char>, names: Seq<Seq<char>>) -> Seq<char>
    decreases names.len(),
{
    if names.len() == 0 {
        start
    } else {
        let front = path_text(start, names.drop_last());
        if names.len() > 1 && !ends_in(front, '/') {
            front.push('/') + names.last()
        } else {
            front + names.last()
        }
    }
}

/// The id of a device, once it has been looked up in the table.
pub open spec fn device_id(devices: Seq<u64>, dev: u64) -> int {
    device_slot(listed(devices, dev).index_of(dev))
}

/// Looking up a device and then its id gives the device back, and looking it
/// up again gives the same id and adds nothing. It holds of every table that
/// has not run out of ids.
pub proof fn device_ids_lead_back(devices: Seq<u64>, dev: u64)
    requires
        devices.no_duplicates(),
        devices.len() < u32::MAX - 1,
    ensures
        device(listed(devices, dev), device_id(devices, dev) as u32) == Some(dev),
        listed(listed(devices, dev), dev) == listed(devices, dev),
        device_id(listed(devices, dev), dev) == device_id(devices, dev),
{
    let l = listed(devices, dev);
    if !devices.contains(dev) {
        assert(l[devices.len() as int] == dev);
    }
    assert(l.contains(dev));
    assert(0 <= l.index_of(dev) < l.len());
}

/// Looking up one device changes the id of no other: what is in the table
/// keeps its id.
pub proof fn device_ids_are_stable(devices: Seq<u64>, dev: u64, other: u64)
    requires
        devices.no_duplicates(),
        devices.contains(dev),
    ensures
        listed(devices, other).no_duplicates(),
        listed(devices, other).contains(dev),
        device_id(listed(devices, other), dev) == device_id(devices, dev),
        forall|id: DevId|
            id < devices.len() ==> #[trigger] device(listed(devices, other), id) == device(
                devices,
                id,
            ),
{
    let l = listed(devices, other);
    let i = devices.index_of(dev);
    assert(devices[i] == dev);
    assert(l[i] == dev);
    assert forall|x: int, y: int| 0 <= x < l.len() && 0 <= y < l.len() && x != y implies l[x]
        != l[y] by {
        if !devices.contains(other) {
            if x == devices.len() {
                assert(devices.contains(l[y]));
            } else if y == devices.len() {
                assert(devices.contains(l[x]));
            }
        }
    }
    let j = l.index_of(dev);
    assert(l[j] == dev);
    assert(i == j);
}

/// Different devices have different ids, as long as the table has not run out
/// of them.
pub proof fn device_ids_differ(devices: Seq<u64>, a: u64, b: u64)
    requires
        devices.no_duplicates(),
        devices.len() < u32::MAX - 1,
        devices.contains(a),
        devices.contains(b),
        a != b,
    ensures
        device_id(devices, a) != device_id(devices, b),
{
    assert(devices[devices.index_of(a)] == a);
    assert(devices[devices.index_of(b)] == b);
}

} // verus!
