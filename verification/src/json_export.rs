//! JSON export of a [`Tree`] in ncdu v2 wire format.
//!
//! The dump is the array `[1,2,{header},root]`. A directory is an array whose
//! first item describes the directory itself and whose other items are its
//! children; any other entry is an object.

use vstd::prelude::*;

use crate::json::{
    doc_text, items_text, lemma_items_push, members_text, separator, write_number_member,
    write_quoted_member, write_text_member, write_true_member, Doc,
};
use crate::model::{EType, EntryId, NodeKind, Tree};
use crate::num::{capped, capped_product};
use crate::shape::{
    entries_of, entry_of, head_of, id_at, linked, nexts, step_at, tops, Detail, Entry, Head, Shape,
};
use crate::text::{decimal_string, put};

verus! {

pub struct ExportOptions {
    pub extended: bool,
    pub program_name: String,
    pub program_version: String,
    /// Override the unix timestamp written into the header. `None` = wall clock.
    pub timestamp: Option<u64>,
}

impl Default for ExportOptions {
    fn default() -> (r: Self)
        ensures
            !r.extended,
            r.program_name@ == "ncdu-rs"@,
            r.program_version@ == "0.1.0"@,
            r.timestamp is None,
    {
        ExportOptions {
            extended: false,
            program_name: "ncdu-rs".to_owned(),
            program_version: "0.1.0".to_owned(),
            timestamp: None,
        }
    }
}

/// Why a tree could not be exported.
#[derive(Copy, Clone, Debug, PartialEq, Eq, Structural)]
pub enum ExportError {
    /// The root of a dump must be a directory.
    NotADirectory,
}

/// The members of an object, with one more where `present` says so.
pub open spec fn with_member(
    members: Seq<(Seq<char>, Doc)>,
    present: bool,
    key: Seq<char>,
    value: Doc,
) -> Seq<(Seq<char>, Doc)> {
    if present {
        members.push((key, value))
    } else {
        members
    }
}

/// The members that describe an entry, but for a directory's read error.
#[verifier::opaque]
pub open spec fn head_members(h: Head, parent_dev: u64, extended: bool) -> Seq<(Seq<char>, Doc)> {
    let m = seq![("name"@, Doc::Text(h.name))];
    match h.etype {
        EType::Error => m.push(("read_error"@, Doc::Bool(true))),
        EType::OtherFs => m.push(("excluded"@, Doc::Quoted("otherfs"@))),
        EType::KernFs => m.push(("excluded"@, Doc::Quoted("kernfs"@))),
        EType::Pattern => m.push(("excluded"@, Doc::Quoted("pattern"@))),
        _ => {
            let m = with_member(m, h.size > 0, "asize"@, Doc::Number(h.size));
            let m = with_member(
                m,
                h.blocks > 0,
                "dsize"@,
                Doc::Number(capped((h.blocks * 512) as nat)),
            );
            let m = match h.detail {
                Detail::Dir { dev, .. } => with_member(
                    m,
                    dev != parent_dev,
                    "dev"@,
                    Doc::Number(dev),
                ),
                Detail::Link { ino, nlink } => m.push(("ino"@, Doc::Number(ino))).push(
                    ("hlnkc"@, Doc::Bool(true)),
                ).push(("nlink"@, Doc::Number(nlink as u64))),
                Detail::File => with_member(
                    m,
                    h.etype is NonReg,
                    "notreg"@,
                    Doc::Bool(true),
                ),
            };
            match h.ext {
                Some(x) if extended => {
                    let m = match x.uid {
                        Some(n) => m.push(("uid"@, Doc::Number(n as u64))),
                        None => m,
                    };
                    let m = match x.gid {
                        Some(n) => m.push(("gid"@, Doc::Number(n as u64))),
                        None => m,
                    };
                    let m = match x.mode {
                        Some(n) => m.push(("mode"@, Doc::Number(n as u64))),
                        None => m,
                    };
                    match x.mtime {
                        Some(n) => m.push(("mtime"@, Doc::Number(n))),
                        None => m,
                    }
                },
                _ => m,
            }
        },
    }
}

/// The object that describes a directory.
pub open spec fn dir_object(h: Head, parent_dev: u64, extended: bool) -> Doc {
    Doc::Object(
        with_member(
            head_members(h, parent_dev, extended),
            h.detail->err,
            "read_error"@,
            Doc::Bool(true),
        ),
    )
}

/// The JSON text of an entry in a directory on device `parent_dev`.
pub open spec fn entry_doc(e: Entry, parent_dev: u64, extended: bool) -> Doc
    decreases e,
{
    match e.head.detail {
        Detail::Dir { dev, .. } => Doc::Array(
            seq![dir_object(e.head, parent_dev, extended)] + entry_docs(
                e.children,
                dev,
                extended,
            ),
        ),
        _ => Doc::Object(head_members(e.head, parent_dev, extended)),
    }
}

/// The JSON texts of the entries of a directory on device `dev`.
pub open spec fn entry_docs(children: Seq<Entry>, dev: u64, extended: bool) -> Seq<Doc>
    decreases children,
{
    Seq::new(
        children.len(),
        |i: int|
            if 0 <= i < children.len() {
                entry_doc(children[i], dev, extended)
            } else {
                arbitrary()
            },
    )
}

/// The first three items of a dump.
pub open spec fn preamble(name: Seq<char>, version: Seq<char>, timestamp: u64) -> Seq<Doc> {
    seq![
        Doc::Number(1),
        Doc::Number(2),
        Doc::Object(
            seq![
                ("progname"@, Doc::Quoted(name)),
                ("progver"@, Doc::Quoted(version)),
                ("timestamp"@, Doc::Number(timestamp)),
            ],
        ),
    ]
}

/// A whole dump. The root always states its device, since `u64::MAX` is no
/// device number.
pub open spec fn dump(
    root: Option<Entry>,
    name: Seq<char>,
    version: Seq<char>,
    timestamp: u64,
    extended: bool,
) -> Doc {
    match root {
        Some(e) => Doc::Array(
            preamble(name, version, timestamp).push(entry_doc(e, u64::MAX, extended)),
        ),
        None => Doc::Array(preamble(name, version, timestamp)),
    }
}

/// `SystemTime::elapsed` of the epoch: the whole seconds since then, or `None`
/// where the clock stands before it. Nothing is claimed of the time that the
/// clock shows.
#[verifier::external_body]
fn seconds_since_epoch() -> (r: Option<u64>) {
    std::time::UNIX_EPOCH.elapsed().ok().map(|d| d.as_secs())
}

/// Appends a dump of the tree below `root`. Without a timestamp in `opts` the
/// header carries the current time.
pub fn export_tree(
    tree: &Tree,
    root: EntryId,
    out: &mut Vec<u8>,
    opts: &ExportOptions,
) -> (r: Result<(), ExportError>)
    requires
        root == EntryId::none() || tree.has_entry(root),
    ensures
        exists|ts: u64|
            {
                &&& opts.timestamp is Some ==> ts == opts.timestamp->0
                &&& #[trigger] exported(tree, root, ts, old(out)@, final(out)@, opts, r)
            },
{
    let ts: u64 = match opts.timestamp {
        Some(ts) => ts,
        None => match seconds_since_epoch() {
            Some(now) => now,
            None => 0,
        },
    };
    export_tree_at(tree, root, ts, out, opts)
}

/// What an export leaves in `out`, and what it returns.
pub open spec fn exported(
    tree: &Tree,
    root: EntryId,
    timestamp: u64,
    before: Seq<u8>,
    after: Seq<u8>,
    opts: &ExportOptions,
    r: Result<(), ExportError>,
) -> bool {
    let name = opts.program_name@;
    let version = opts.program_version@;
    if root == EntryId::none() {
        &&& r is Ok
        &&& after == before + doc_text(dump(None, name, version, timestamp, opts.extended)) + seq![
            0x0au8,
        ]
    } else if tree.nodes@[root.0 as int].kind is Dir {
        &&& r is Ok
        &&& after == before + doc_text(
            dump(Some(tree.entry(root)), name, version, timestamp, opts.extended),
        ) + seq![0x0au8]
    } else {
        &&& r == Err::<(), ExportError>(ExportError::NotADirectory)
        &&& after == before + seq![0x5bu8] + items_text(preamble(name, version, timestamp))
    }
}

/// Appends a dump of the tree below `root`, with `timestamp` in the header.
/// Where `root` is not a directory, the dump breaks off after the header.
pub fn export_tree_at(
    tree: &Tree,
    root: EntryId,
    timestamp: u64,
    out: &mut Vec<u8>,
    opts: &ExportOptions,
) -> (r: Result<(), ExportError>)
    requires
        root == EntryId::none() || tree.has_entry(root),
    ensures
        exported(tree, root, timestamp, old(out)@, final(out)@, opts, r),
{
    let ghost before = out@;
    let ghost name = opts.program_name@;
    let ghost version = opts.program_version@;
    out.push(0x5b);
    write_preamble(out, opts, timestamp);
    let ghost start = before + seq![0x5bu8];
    let ghost items = preamble(name, version, timestamp);
    proof {
        assert(out@ =~= start + items_text(items));
    }
    if !root.is_none() {
        let ghost shape = crate::shape::shape_at(tree.nodes@, root);
        let ghost doc = entry_doc(tree.entry(root), u64::MAX, opts.extended);
        match write_dir(tree, root, u64::MAX, out, opts.extended, Ghost(shape)) {
            Ok(()) => {},
            Err(e) => {
                return Err(e);
            },
        }
        proof {
            lemma_items_push(items, doc);
            assert(out@ =~= start + items_text(items.push(doc)));
        }
    }
    out.push(0x5d);
    out.push(0x0a);
    proof {
        if root == EntryId::none() {
            assert(out@ =~= before + doc_text(dump(None, name, version, timestamp, opts.extended))
                + seq![0x0au8]);
        } else {
            assert(out@ =~= before + doc_text(
                dump(Some(tree.entry(root)), name, version, timestamp, opts.extended),
            ) + seq![0x0au8]);
        }
    }
    Ok(())
}

fn write_preamble(out: &mut Vec<u8>, opts: &ExportOptions, timestamp: u64)
    ensures
        final(out)@ == old(out)@ + items_text(
            preamble(opts.program_name@, opts.program_version@, timestamp),
        ),
{
    let ghost before = out@;
    put(out, decimal_string(1).as_str());
    out.push(0x2c);
    put(out, decimal_string(2).as_str());
    out.push(0x2c);
    out.push(0x7b);
    let ghost start = out@;
    let ghost m0 = Seq::<(Seq<char>, Doc)>::empty();
    let ghost m1 = m0.push(("progname"@, Doc::Quoted(opts.program_name@)));
    let ghost m2 = m1.push(("progver"@, Doc::Quoted(opts.program_version@)));
    let ghost m3 = m2.push(("timestamp"@, Doc::Number(timestamp)));
    proof {
        assert(out@ =~= start + members_text(m0));
    }
    write_quoted_member(
        out,
        true,
        "progname",
        opts.program_name.as_str(),
        Ghost(start),
        Ghost(m0),
    );
    write_quoted_member(
        out,
        false,
        "progver",
        opts.program_version.as_str(),
        Ghost(start),
        Ghost(m1),
    );
    write_number_member(out, "timestamp", timestamp, Ghost(start), Ghost(m2));
    out.push(0x7d);
    proof {
        let items = preamble(opts.program_name@, opts.program_version@, timestamp);
        let i0 = Seq::<Doc>::empty();
        let i1 = i0.push(Doc::Number(1));
        let i2 = i1.push(Doc::Number(2));
        assert(items[2] == Doc::Object(m3)) by {
            assert(items[2]->Object_0 =~= m3);
        }
        assert(items =~= i2.push(Doc::Object(m3)));
        lemma_items_push(i0, Doc::Number(1));
        lemma_items_push(i1, Doc::Number(2));
        lemma_items_push(i2, Doc::Object(m3));
        assert(out@ =~= before + items_text(items));
    }
}

/// Appends a directory with all that is below it, as a further item of an
/// array.
pub(crate) fn write_dir(
    tree: &Tree,
    id: EntryId,
    parent_dev: u64,
    out: &mut Vec<u8>,
    extended: bool,
    Ghost(shape): Ghost<Shape>,
) -> (r: Result<(), ExportError>)
    requires
        shape.id == id,
        linked(tree.nodes@, shape),
    ensures
        match r {
            Ok(()) => {
                &&& tree.nodes@[id.0 as int].kind is Dir
                &&& final(out)@ == old(out)@ + seq![0x2cu8, 0x0a] + doc_text(
                    entry_doc(
                        entry_of(tree.nodes@, tree.devices@, shape),
                        parent_dev,
                        extended,
                    ),
                )
            },
            Err(e) => {
                &&& !(tree.nodes@[id.0 as int].kind is Dir)
                &&& e == ExportError::NotADirectory
                &&& final(out)@ == old(out)@
            },
        },
    decreases shape, 1int,
{
    let dir = match tree.get(id).as_dir() {
        Some(dir) => dir,
        None => {
            return Err(ExportError::NotADirectory);
        },
    };
    let own_dev: u64 = match tree.devices.get(dir.dev) {
        Some(dev) => dev,
        None => 0,
    };
    let ghost entry = entry_of(tree.nodes@, tree.devices@, shape);
    let ghost head = dir_object(entry.head, parent_dev, extended);
    let ghost before = out@;
    out.push(0x2c);
    out.push(0x0a);
    out.push(0x5b);
    let ghost start = out@;
    write_dir_object(tree, id, parent_dev, out, extended);
    proof {
        lemma_items_push(Seq::empty(), head);
        assert(Seq::<Doc>::empty().push(head) =~= seq![head]);
    }
    write_children(tree, id, own_dev, out, extended, Ghost(shape), Ghost(start), Ghost(head));
    out.push(0x5d);
    proof {
        lemma_dir_text(entry, parent_dev, extended);
        assert(start =~= before + seq![0x2cu8, 0x0a] + seq![0x5bu8]);
        assert(out@ =~= before + seq![0x2cu8, 0x0a] + doc_text(
            entry_doc(entry, parent_dev, extended),
        ));
    }
    Ok(())
}

proof fn lemma_dir_text(e: Entry, parent_dev: u64, extended: bool)
    requires
        e.head.detail is Dir,
    ensures
        doc_text(entry_doc(e, parent_dev, extended)) == seq![0x5bu8] + items_text(
            seq![dir_object(e.head, parent_dev, extended)] + entry_docs(
                e.children,
                e.head.detail->dev,
                extended,
            ),
        ) + seq![0x5du8],
{
}

/// Appends the object that describes a directory.
fn write_dir_object(
    tree: &Tree,
    id: EntryId,
    parent_dev: u64,
    out: &mut Vec<u8>,
    extended: bool,
)
    requires
        id.0 < tree.nodes@.len(),
        tree.nodes@[id.0 as int].kind is Dir,
    ensures
        final(out)@ == old(out)@ + doc_text(
            dir_object(
                head_of(tree.nodes@[id.0 as int], tree.devices@),
                parent_dev,
                extended,
            ),
        ),
{
    let ghost before = out@;
    let ghost head = head_of(tree.nodes@[id.0 as int], tree.devices@);
    let ghost start = out@ + seq![0x7bu8];
    let ghost mut members = head_members(head, parent_dev, extended);
    write_entry_object(tree, id, parent_dev, out, extended);
    proof {
        assert(members.len() > 0) by {
            reveal(head_members);
        }
    }
    if let NodeKind::Dir(d) = &tree.get(id).kind {
        if d.err {
            write_true_member(out, "read_error", Ghost(start), Ghost(members));
            proof {
                members = members.push(("read_error"@, Doc::Bool(true)));
            }
        }
    }
    out.push(0x7d);
    proof {
        assert(dir_object(head, parent_dev, extended) == Doc::Object(members));
        assert(out@ =~= before + doc_text(Doc::Object(members)));
    }
}

/// Appends the children of a directory, each with all that is below it, after
/// the object that describes the directory.
fn write_children(
    tree: &Tree,
    id: EntryId,
    dev: u64,
    out: &mut Vec<u8>,
    extended: bool,
    Ghost(shape): Ghost<Shape>,
    Ghost(before): Ghost<Seq<u8>>,
    Ghost(head): Ghost<Doc>,
)
    requires
        shape.id == id,
        linked(tree.nodes@, shape),
        tree.nodes@[id.0 as int].kind is Dir,
        head is Object,
        old(out)@ == before + items_text(seq![head]),
    ensures
        final(out)@ == before + items_text(
            seq![head] + entry_docs(
                entries_of(tree.nodes@, tree.devices@, shape.kids),
                dev,
                extended,
            ),
        ),
    decreases shape, 0int,
{
    let ghost nodes = tree.nodes@;
    let ghost devices = tree.devices@;
    let ghost children = entries_of(nodes, devices, shape.kids);
    let ghost docs = entry_docs(children, dev, extended);
    let ghost mut k: int = 0;
    proof {
        assert(seq![head] =~= seq![head] + docs.take(0));
    }
    let mut child: EntryId = match &tree.get(id).kind {
        NodeKind::Dir(d) => d.sub,
        _ => EntryId::none(),
    };
    while !child.is_none()
        invariant
            0 <= k <= shape.kids.len(),
            nodes == tree.nodes@,
            devices == tree.devices@,
            linked(nodes, shape),
            children == entries_of(nodes, devices, shape.kids),
            head is Object,
            docs == entry_docs(children, dev, extended),
            child == id_at(tops(shape.kids), k),
            out@ == before + items_text(seq![head] + docs.take(k)),
        decreases shape.kids.len() - k,
    {
        let ghost sofar = seq![head] + docs.take(k);
        let ghost now = out@;
        proof {
            assert(step_at(nexts(nodes), tops(shape.kids), k));
            assert(linked(nodes, shape.kids[k]));
            assert(children[k] == entry_of(nodes, devices, shape.kids[k]));
            assert(docs[k] == entry_doc(children[k], dev, extended));
        }
        let node = tree.get(child);
        match &node.kind {
            NodeKind::Dir(_) => {
                let r = write_dir(tree, child, dev, out, extended, Ghost(shape.kids[k]));
            },
            _ => {
                out.push(0x2c);
                out.push(0x0a);
                write_entry_object(tree, child, dev, out, extended);
                out.push(0x7d);
                proof {
                    assert(out@ =~= now + seq![0x2cu8, 0x0a] + doc_text(docs[k]));
                }
            },
        }
        proof {
            assert(out@ == now + seq![0x2cu8, 0x0a] + doc_text(docs[k]));
            lemma_items_push(sofar, docs[k]);
            assert(sofar.push(docs[k]) =~= seq![head] + docs.take(k + 1));
            assert(sofar.last() is Array || sofar.last() is Object) by {
                if k > 0 {
                    assert(sofar.last() == docs[k - 1]);
                    assert(docs[k - 1] == entry_doc(children[k - 1], dev, extended));
                }
            }
            assert(separator(sofar.last()) =~= seq![0x2cu8, 0x0a]);
            assert(out@ =~= before + items_text(seq![head] + docs.take(k + 1)));
            k = k + 1;
        }
        child = node.common.next;
    }
    proof {
        if k < shape.kids.len() {
            assert(step_at(nexts(nodes), tops(shape.kids), k));
        }
        assert(docs.take(k) =~= docs);
    }
}

/// Appends the opening of an entry object: `{"name":"..","asize":N,...`
/// without the closing brace. The caller appends extra members, then `}`.
pub(crate) fn write_entry_object(
    tree: &Tree,
    id: EntryId,
    parent_dev: u64,
    out: &mut Vec<u8>,
    extended: bool,
)
    requires
        id.0 < tree.nodes@.len(),
    ensures
        final(out)@ == old(out)@ + seq![0x7bu8] + members_text(
            head_members(
                head_of(tree.nodes@[id.0 as int], tree.devices@),
                parent_dev,
                extended,
            ),
        ),
{
    let node = tree.get(id);
    let common = &node.common;
    let ghost h = head_of(*node, tree.devices@);
    let ghost start = out@ + seq![0x7bu8];
    let ghost mut m: Seq<(Seq<char>, Doc)> = Seq::empty();
    reveal(head_members);
    out.push(0x7b);
    proof {
        assert(out@ =~= start + members_text(m));
    }
    write_text_member(out, true, "name", common.name.as_str(), Ghost(start), Ghost(m));
    proof {
        m = m.push(("name"@, Doc::Text(h.name)));
        assert(m =~= seq![("name"@, Doc::Text(h.name))]);
    }
    match common.etype {
        EType::Error => {
            write_true_member(out, "read_error", Ghost(start), Ghost(m));
            return;
        },
        EType::OtherFs => {
            write_quoted_member(out, false, "excluded", "otherfs", Ghost(start), Ghost(m));
            return;
        },
        EType::KernFs => {
            write_quoted_member(out, false, "excluded", "kernfs", Ghost(start), Ghost(m));
            return;
        },
        EType::Pattern => {
            write_quoted_member(out, false, "excluded", "pattern", Ghost(start), Ghost(m));
            return;
        },
        _ => {},
    }
    if common.size > 0 {
        write_number_member(out, "asize", common.size, Ghost(start), Ghost(m));
        proof {
            m = m.push(("asize"@, Doc::Number(h.size)));
        }
    }
    if common.blocks > 0 {
        let bytes: u64 = capped_product(common.blocks, 512);
        write_number_member(out, "dsize", bytes, Ghost(start), Ghost(m));
        proof {
            m = m.push(("dsize"@, Doc::Number(bytes)));
        }
    }
    match &node.kind {
        NodeKind::Dir(d) => {
            let dev: u64 = match tree.devices.get(d.dev) {
                Some(dev) => dev,
                None => 0,
            };
            if dev != parent_dev {
                write_number_member(out, "dev", dev, Ghost(start), Ghost(m));
                proof {
                    m = m.push(("dev"@, Doc::Number(dev)));
                }
            }
        },
        NodeKind::Link(l) => {
            write_number_member(out, "ino", l.ino, Ghost(start), Ghost(m));
            proof {
                m = m.push(("ino"@, Doc::Number(l.ino)));
            }
            write_true_member(out, "hlnkc", Ghost(start), Ghost(m));
            proof {
                m = m.push(("hlnkc"@, Doc::Bool(true)));
            }
            write_number_member(out, "nlink", l.nlink as u64, Ghost(start), Ghost(m));
            proof {
                m = m.push(("nlink"@, Doc::Number(l.nlink as u64)));
            }
        },
        NodeKind::File => {
            if common.etype == EType::NonReg {
                write_true_member(out, "notreg", Ghost(start), Ghost(m));
                proof {
                    m = m.push(("notreg"@, Doc::Bool(true)));
                }
            }
        },
    }
    if extended {
        if let Some(ext) = &common.ext {
            if let Some(uid) = ext.uid {
                write_number_member(out, "uid", uid as u64, Ghost(start), Ghost(m));
                proof {
                    m = m.push(("uid"@, Doc::Number(uid as u64)));
                }
            }
            if let Some(gid) = ext.gid {
                write_number_member(out, "gid", gid as u64, Ghost(start), Ghost(m));
                proof {
                    m = m.push(("gid"@, Doc::Number(gid as u64)));
                }
            }
            if let Some(mode) = ext.mode {
                write_number_member(out, "mode", mode as u64, Ghost(start), Ghost(m));
                proof {
                    m = m.push(("mode"@, Doc::Number(mode as u64)));
                }
            }
            if let Some(mtime) = ext.mtime {
                write_number_member(out, "mtime", mtime, Ghost(start), Ghost(m));
                proof {
                    m = m.push(("mtime"@, Doc::Number(mtime)));
                }
            }
        }
    }
}

} // verus!
