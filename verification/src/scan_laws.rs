//! What a scan records, from the metadata of the filesystem to the totals.

use vstd::prelude::*;

use crate::arena::{link_in_place, link_key, registered};
use crate::model::{inode_keys_differ, listed, with_link, EType, EntryId, Ext, Node, NodeKind};
use crate::scan::{stat_of, Metadata};
use crate::scan_parallel::{
    all_blocks, all_bytes, any_troubled, blocks, bytes, count, counts, recorded, recorded_all,
    troubled, Find, Walked, WalkedDir,
};
use crate::shape::{
    children, devices_of, devices_of_all, lemma_devices_push, Detail, Entry, Head,
};
use crate::sink::{
    flushed, hang, has_trouble, nothing_in, stat_node, tally, with_child_totals, with_err,
    with_suberr, with_totals, Gathered, Stat,
};

verus! {

/// The sink is told what the filesystem reports: the sizes, the device, the
/// inode and the low bits of the number of links as they are, of a directory as
/// of anything else.
pub proof fn stats_keep_the_metadata(r: Stat, m: Metadata, extended: bool)
    requires
        stat_of(r, m, extended),
    ensures
        r.size == m.size,
        r.blocks == m.blocks,
        r.dev == m.dev,
        r.ino == m.ino,
        m.nlink <= u32::MAX ==> r.nlink == m.nlink,
        r.nlink == m.nlink % 0x1_0000_0000,
{
}

/// The type of an entry: directories are directories whatever else they are,
/// of the rest only regular files have links, and only where there is more than
/// one.
pub proof fn types_follow_the_metadata(r: Stat, m: Metadata, extended: bool)
    requires
        stat_of(r, m, extended),
    ensures
        r.etype == EType::Dir <==> m.is_dir,
        r.etype == EType::NonReg <==> !m.is_dir && !m.is_file,
        r.etype == EType::Link <==> !m.is_dir && m.is_file && m.nlink > 1,
        r.etype == EType::Reg <==> !m.is_dir && m.is_file && m.nlink <= 1,
{
}

/// Extended metadata is captured where it is asked for, and nowhere else.
pub proof fn extended_metadata_is_captured(r: Stat, m: Metadata, extended: bool)
    requires
        stat_of(r, m, extended),
    ensures
        extended ==> r.ext.uid == Some(m.uid),
        extended ==> r.ext.gid == Some(m.gid),
        extended ==> r.ext.mode == Some((m.mode % 0x1_0000) as u16),
        extended && m.mtime >= 0 ==> r.ext.mtime == Some(m.mtime as u64),
        extended && m.mtime < 0 ==> r.ext.mtime == Some(0u64),
        !extended ==> r.ext == (Ext { mtime: None, uid: None, gid: None, mode: None }),
{
}

/// Two entries with the same metadata are told alike.
pub proof fn stats_depend_on_the_metadata(a: Stat, b: Stat, m: Metadata, extended: bool)
    requires
        stat_of(a, m, extended),
        stat_of(b, m, extended),
    ensures
        a == b,
{
}

/// A file is recorded with its name, its type and its sizes, whatever the
/// number of its links, and an entry that the scan did not record with its name
/// and nothing else.
pub proof fn files_are_recorded_as_found(name: Seq<char>, stat: Stat, mark: EType)
    ensures
        ({
            let e = recorded(Find::File { name, stat });
            &&& e.head.name == name
            &&& e.head.etype == stat.etype
            &&& e.head.size == stat.size
            &&& e.head.blocks == stat.blocks
            &&& e.head.ext is Some <==> stat.ext.mtime is Some || stat.ext.uid is Some
                || stat.ext.gid is Some || stat.ext.mode is Some
            &&& e.head.ext is Some ==> e.head.ext->0 == stat.ext
            &&& e.head.detail is Link <==> stat.etype == EType::Link
            &&& e.head.detail is Link ==> e.head.detail->ino == stat.ino && e.head.detail->nlink
                == stat.nlink
            &&& !(e.head.detail is Dir)
            &&& e.children.len() == 0
        }),
        ({
            let e = recorded(Find::Special { name, etype: mark });
            &&& e.head.name == name
            &&& e.head.etype == mark
            &&& e.head.size == 0
            &&& e.head.blocks == 0
            &&& e.head.ext is None
            &&& e.head.detail is File
            &&& e.children.len() == 0
        }),
{
}

/// A node holds what the sink was told: the name, the sizes as they are, the
/// extended metadata where there is any, and of a Link its inode.
pub proof fn nodes_keep_the_stat(
    n: Node,
    etype: EType,
    name: Seq<char>,
    stat: Stat,
    dev: u32,
    parent: EntryId,
)
    requires
        stat_node(n, etype, name, stat, dev, parent),
    ensures
        n.common.name@ == name,
        n.common.etype == etype,
        n.common.size == stat.size,
        n.common.blocks == stat.blocks,
        n.common.ext is Some <==> stat.ext.mtime is Some || stat.ext.uid is Some
            || stat.ext.gid is Some || stat.ext.mode is Some,
        n.common.ext is Some ==> n.common.ext->0 == stat.ext,
        n.kind is Dir <==> etype == EType::Dir,
        n.kind is Link <==> etype == EType::Link,
        n.kind matches NodeKind::Dir(d) ==> {
            &&& d.dev == dev
            &&& d.parent == parent
            &&& d.items == 0
            &&& !d.err
            &&& !d.suberr
        },
        n.kind matches NodeKind::Link(l) ==> {
            &&& l.ino == stat.ino
            &&& l.nlink == stat.nlink
            &&& l.parent == parent
            &&& !l.counted
        },
{
}

/// A handle gathers the sizes of every entry that is added, whatever it is,
/// counts it, and takes note of an error. Where totals are not kept nothing is
/// gathered.
pub proof fn handles_gather_every_entry(d: Gathered, size: u64, on_disk: u64, err: bool)
    requires
        d.items < u32::MAX,
    ensures
        ({
            let g = tally(d, true, on_disk, size, err);
            &&& g.id == d.id
            &&& d.blocks + on_disk <= u64::MAX ==> g.blocks == d.blocks + on_disk
            &&& d.blocks + on_disk > u64::MAX ==> g.blocks == u64::MAX
            &&& d.size + size <= u64::MAX ==> g.size == d.size + size
            &&& d.size + size > u64::MAX ==> g.size == u64::MAX
            &&& g.items == d.items + 1
            &&& g.suberr <==> d.suberr || err
        }),
        tally(d, false, on_disk, size, err) == d,
        ({
            let g = nothing_in(d.id);
            g.id == d.id && g.blocks == 0 && g.size == 0 && g.items == 0 && !g.suberr
        }),
{
}

/// Finalizing adds what was gathered below a directory to what the directory
/// takes by itself, and hands it on to the directory above.
pub proof fn finalizing_hands_totals_on(n: Node, d: Gathered, p: Gathered, err: bool)
    requires
        n.kind is Dir,
    ensures
        ({
            let m = with_totals(n, d);
            let blocks = n.common.blocks + d.blocks;
            let size = n.common.size + d.size;
            let items = n.kind->Dir_0.items + d.items;
            &&& m.common.blocks == (if blocks <= u64::MAX {
                blocks
            } else {
                u64::MAX as int
            })
            &&& m.common.size == (if size <= u64::MAX {
                size
            } else {
                u64::MAX as int
            })
            &&& m.common.name == n.common.name
            &&& m.common.etype == n.common.etype
            &&& m.common.ext == n.common.ext
            &&& m.common.next == n.common.next
            &&& m.kind is Dir
            &&& m.kind->Dir_0.items == (if items <= u32::MAX {
                items
            } else {
                u32::MAX as int
            })
            &&& m.kind->Dir_0.err == n.kind->Dir_0.err
            &&& m.kind->Dir_0.suberr == n.kind->Dir_0.suberr
            &&& m.kind->Dir_0.sub == n.kind->Dir_0.sub
            &&& m.kind->Dir_0.parent == n.kind->Dir_0.parent
            &&& m.kind->Dir_0.dev == n.kind->Dir_0.dev
        }),
        ({
            let q = with_child_totals(p, d, err);
            &&& q.id == p.id
            &&& p.blocks + d.blocks <= u64::MAX ==> q.blocks == p.blocks + d.blocks
            &&& p.blocks + d.blocks > u64::MAX ==> q.blocks == u64::MAX
            &&& p.size + d.size <= u64::MAX ==> q.size == p.size + d.size
            &&& p.size + d.size > u64::MAX ==> q.size == u64::MAX
            &&& p.items + d.items <= u32::MAX ==> q.items == p.items + d.items
            &&& p.items + d.items > u32::MAX ==> q.items == u32::MAX
            &&& q.suberr <==> p.suberr || err
        }),
{
}

/// A mark changes nothing but itself.
pub proof fn marks_change_nothing_else(n: Node)
    requires
        n.kind is Dir,
    ensures
        with_err(n).common == n.common,
        with_err(n).kind is Dir,
        with_err(n).kind->Dir_0.err,
        with_err(n).kind->Dir_0.suberr == n.kind->Dir_0.suberr,
        with_err(n).kind->Dir_0.items == n.kind->Dir_0.items,
        with_err(n).kind->Dir_0.sub == n.kind->Dir_0.sub,
        with_suberr(n).common == n.common,
        with_suberr(n).kind is Dir,
        with_suberr(n).kind->Dir_0.suberr,
        with_suberr(n).kind->Dir_0.err == n.kind->Dir_0.err,
        with_suberr(n).kind->Dir_0.items == n.kind->Dir_0.items,
        with_suberr(n).kind->Dir_0.sub == n.kind->Dir_0.sub,
{
}

/// Linking an entry into a directory changes links and nothing else: whatever
/// an entry says of itself stays.
pub proof fn linking_changes_only_links(nodes: Seq<Node>, dir: EntryId, child: EntryId, i: int)
    requires
        0 <= i < nodes.len(),
        dir.0 < nodes.len(),
        children(nodes, dir).len() > 0 ==> children(nodes, dir).last().0 < nodes.len(),
    ensures
        ({
            let a = nodes[i];
            let b = hang(nodes, dir, child)[i];
            &&& hang(nodes, dir, child).len() == nodes.len()
            &&& b.common.name == a.common.name
            &&& b.common.etype == a.common.etype
            &&& b.common.size == a.common.size
            &&& b.common.blocks == a.common.blocks
            &&& b.common.ext == a.common.ext
            &&& a.kind is Dir <==> b.kind is Dir
            &&& !(a.kind is Dir) ==> b.kind == a.kind
            &&& a.kind is Dir ==> {
                &&& b.kind->Dir_0.parent == a.kind->Dir_0.parent
                &&& b.kind->Dir_0.items == a.kind->Dir_0.items
                &&& b.kind->Dir_0.dev == a.kind->Dir_0.dev
                &&& b.kind->Dir_0.err == a.kind->Dir_0.err
                &&& b.kind->Dir_0.suberr == a.kind->Dir_0.suberr
            }
        }),
{
}

/// Entering a Link into the inode table changes nothing where its inode is
/// known, and adds it where it is not.
pub proof fn first_links_stay_in_the_table(
    map: Map<u128, EntryId>,
    key: u128,
    id: EntryId,
    other: u128,
)
    ensures
        ({
            let m = with_link(map, key, id);
            &&& m.contains_key(key)
            &&& map.contains_key(key) ==> m[key] == map[key]
            &&& !map.contains_key(key) ==> m[key] == id
            &&& other != key ==> (m.contains_key(other) <==> map.contains_key(other))
            &&& other != key && map.contains_key(other) ==> m[other] == map[other]
        }),
{
}

/// Finalizing a directory changes its own totals, and the mark of the one above
/// if there was trouble. No other entry changes.
pub proof fn finalizing_touches_two_nodes(nodes: Seq<Node>, d: Gathered, p: Gathered, i: int)
    requires
        d.id.0 < nodes.len(),
        p.id.0 < nodes.len(),
        p.id != d.id,
        0 <= i < nodes.len(),
    ensures
        ({
            let alone = flushed(nodes, d, None);
            let into = flushed(nodes, d, Some(p));
            let trouble = d.suberr || (nodes[d.id.0 as int].kind is Dir && nodes[
                d.id.0 as int
            ].kind->Dir_0.err);
            &&& alone.len() == nodes.len()
            &&& into.len() == nodes.len()
            &&& i == d.id.0 ==> alone[i] == with_totals(nodes[i], d) && into[i] == alone[i]
            &&& i != d.id.0 ==> alone[i] == nodes[i]
            &&& i == p.id.0 && trouble ==> into[i] == with_suberr(nodes[i])
            &&& i == p.id.0 && !trouble ==> into[i] == nodes[i]
            &&& i != d.id.0 && i != p.id.0 ==> into[i] == nodes[i]
        }),
{
}

/// The inode table names a Link of every inode that has one: the first, of the
/// same number and in a directory of the same device.
pub proof fn the_table_names_a_link_of_every_inode(
    nodes: Seq<Node>,
    map: Map<u128, EntryId>,
    i: int,
)
    requires
        registered(nodes, map),
        0 <= i < nodes.len(),
        nodes[i].kind is Link,
        nodes[i].kind->Link_0.parent != EntryId::none(),
    ensures
        ({
            let l = nodes[i].kind->Link_0;
            let dir = nodes[l.parent.0 as int];
            let key = (dir.kind->Dir_0.dev * 0x1_0000_0000_0000_0000 + l.ino) as u128;
            let first = map[key];
            &&& dir.kind is Dir
            &&& map.contains_key(key)
            &&& first.0 <= i
            &&& nodes[first.0 as int].kind is Link
            &&& nodes[first.0 as int].kind->Link_0.ino == l.ino
            &&& ({
                let other = nodes[nodes[first.0 as int].kind->Link_0.parent.0 as int];
                other.kind is Dir && other.kind->Dir_0.dev == dir.kind->Dir_0.dev
            })
        }),
{
    let l = nodes[i].kind->Link_0;
    assert(link_in_place(nodes, i));
    let key = link_key(nodes, i)->0;
    assert(map.contains_key(key));
    let first = map[key];
    assert(link_key(nodes, first.0 as int) == Some(key));
    let k = nodes[first.0 as int].kind->Link_0;
    inode_keys_differ(
        nodes[l.parent.0 as int].kind->Dir_0.dev,
        l.ino,
        nodes[k.parent.0 as int].kind->Dir_0.dev,
        k.ino,
    );
}

/// Trouble goes up by one step: a directory hands on the mark exactly if it
/// could not be read, or if there was an error in it.
pub proof fn trouble_is_handed_on(n: Node, d: Gathered)
    requires
        n.kind is Dir,
    ensures
        has_trouble(n, d) <==> d.suberr || n.kind->Dir_0.err,
{
}

/// What was walked is what was found: nothing of it is lost.
pub proof fn walks_are_finds(w: Walked, d: WalkedDir)
    ensures
        w matches Walked::File { name, stat } ==> w@ == (Find::File { name: name@, stat }),
        w matches Walked::Special { name, etype } ==> w@ == (Find::Special { name: name@, etype }),
        w matches Walked::Dir(sub) ==> w@ == (*sub)@,
        d@ is Dir,
        d@->Dir_name == d.name@,
        d@->Dir_stat == d.stat,
        d@->read_error == d.read_error,
        d@->children.len() == d.children@.len(),
        forall|i: int| 0 <= i < d.children@.len() ==> #[trigger] d@->children[i] == d.children@[i]@,
{
}

/// A find counts itself and all that was found in it.
pub proof fn finds_count_themselves(
    name: Seq<char>,
    stat: Stat,
    etype: EType,
    children: Seq<Find>,
    read_error: bool,
    more: Find,
)
    ensures
        count(Find::File { name, stat }) == 1,
        count(Find::Special { name, etype }) == 1,
        count(Find::Dir { name, stat, children: Seq::empty(), read_error }) == 1,
        count(Find::Dir { name, stat, children: children.push(more), read_error }) == count(
            Find::Dir { name, stat, children, read_error },
        ) + count(more),
{
    lemma_sums_before(children, more, children.len());
    assert(children.push(more)[children.len() as int] == more);
    assert(counts(Seq::<Find>::empty(), 0) == 0);
}

/// Devices are listed as directories are met: a directory before what is in it,
/// and each device once.
pub proof fn devices_are_listed_as_they_are_met(
    known: Seq<u64>,
    head: Head,
    children: Seq<Entry>,
    more: Entry,
)
    ensures
        ({
            let none = devices_of(known, Entry { head, children: Seq::empty() });
            &&& !(head.detail is Dir) ==> none == known
            &&& head.detail is Dir && known.contains(head.detail->dev) ==> none == known
            &&& head.detail is Dir && !known.contains(head.detail->dev) ==> none == known.push(
                head.detail->dev,
            )
        }),
        devices_of(known, Entry { head, children: children.push(more) }) == devices_of(
            devices_of(known, Entry { head, children }),
            more,
        ),
{
    let own = match head.detail {
        Detail::Dir { dev, .. } => listed(known, dev),
        _ => known,
    };
    lemma_devices_push(own, children, more);
    assert(devices_of_all(own, Seq::<Entry>::empty(), 0) == own);
}

/// A directory with nothing in it takes what it takes by itself, and counts
/// nothing.
pub proof fn empty_directories_count_themselves(name: Seq<char>, stat: Stat, read_error: bool)
    ensures
        ({
            let e = recorded(Find::Dir { name, stat, children: Seq::empty(), read_error });
            &&& e.head.name == name
            &&& e.head.etype == EType::Dir
            &&& e.head.size == stat.size
            &&& e.head.blocks == stat.blocks
            &&& e.children.len() == 0
            &&& e.head.detail is Dir
            &&& e.head.detail->items == 0
            &&& e.head.detail->dev == stat.dev
            &&& e.head.detail->err == read_error
            &&& !e.head.detail->suberr
        }),
{
}

/// One more find in a directory adds its blocks, its size and the number of
/// its entries to those of the directory, marks the directory if there was
/// trouble with it, and comes last. The rest stays as it is.
pub proof fn finds_add_to_their_directory(
    name: Seq<char>,
    stat: Stat,
    children: Seq<Find>,
    read_error: bool,
    more: Find,
)
    requires
        more is File ==> more->File_stat.etype != EType::Error,
        count(Find::Dir { name, stat, children: children.push(more), read_error }) <= u32::MAX,
    ensures
        ({
            let a = recorded(Find::Dir { name, stat, children, read_error });
            let b = recorded(Find::Dir { name, stat, children: children.push(more), read_error });
            let c = recorded(more);
            let blocks = a.head.blocks + c.head.blocks;
            let size = a.head.size + c.head.size;
            let below: int = if c.head.detail is Dir {
                c.head.detail->items as int
            } else {
                0
            };
            let items = a.head.detail->items + 1 + below;
            &&& b.head.name == name
            &&& b.head.etype == EType::Dir
            &&& b.head.ext == a.head.ext
            &&& b.head.detail is Dir
            &&& b.head.detail->dev == stat.dev
            &&& b.head.detail->err == read_error
            &&& b.head.blocks == (if blocks <= u64::MAX {
                blocks
            } else {
                u64::MAX as int
            })
            &&& b.head.size == (if size <= u64::MAX {
                size
            } else {
                u64::MAX as int
            })
            &&& b.head.detail->items == items
            &&& b.head.detail->suberr == (a.head.detail->suberr || c.head.etype == EType::Error || (
            c.head.detail is Dir && (c.head.detail->err || c.head.detail->suberr)))
            &&& b.children == a.children.push(c)
        }),
{
    let all = children.push(more);
    let n = children.len();
    lemma_sums_before(children, more, n);
    assert(all[n as int] == more);
    assert(all_blocks(all, all.len()) == all_blocks(children, n) + blocks(more));
    assert(all_bytes(all, all.len()) == all_bytes(children, n) + bytes(more));
    assert(counts(all, all.len()) == counts(children, n) + count(more));
    assert(any_troubled(all, all.len()) == (any_troubled(children, n) || troubled(more)));
    assert(count(Find::Dir { name, stat, children: all, read_error }) == 1 + counts(
        all,
        all.len(),
    ));
    assert(recorded_all(all) =~= recorded_all(
        children,
    ).push(recorded(more)));
}

proof fn lemma_sums_before(fs: Seq<Find>, more: Find, n: nat)
    requires
        n <= fs.len(),
    ensures
        all_blocks(fs.push(more), n) == all_blocks(
            fs,
            n,
        ),
        all_bytes(fs.push(more), n) == all_bytes(fs, n),
        counts(fs.push(more), n) == counts(fs, n),
        any_troubled(fs.push(more), n) == any_troubled(
            fs,
            n,
        ),
    decreases n,
{
    if n > 0 {
        lemma_sums_before(fs, more, (n - 1) as nat);
    }
}

} // verus!
