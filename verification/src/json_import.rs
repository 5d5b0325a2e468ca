//! JSON import of an ncdu v2 dump into a [`Tree`].
//!
//! File names are read as UTF-8. Siblings keep the order of the dump.

use vstd::prelude::*;

use crate::json::Doc;
use crate::json_value::{
    doc_value, find_flag, find_number, find_text, flag_field, json_items, number_field, object_view,
    parsed_json, read_json, scalar_notation, scalar_text, spells, text_field, Json, JsonView,
};
use crate::arena::{
    all_spare_unset, lemma_enter_inode, lemma_push_inode, lemma_same_inodes, link_in_place,
    link_key, same_inodes, spare_unset,
};
use crate::model::{listed, DevId, DirData, EType, EntryId, Ext, Node, NodeKind, Tree};
use crate::num::{capped, capped32, capped_sum, low16, low32};
use crate::rings::{all_untied, bare, lemma_bare_shape, ringed, tie_all, untied};
use crate::shape::{
    adopted, any_trouble_in, child_of, devices_of, devices_of_all, entries_of, entry_of,
    entry_size, entry_sizes, first_child, head_of, id_at, lemma_adopt, lemma_devices_push,
    lemma_entries_push, lemma_flat_preorder, lemma_frame, lemma_leaf, lemma_more_devices,
    lemma_shape_at, lemma_sizes_monotone, linked, nexts, owned, preorder, shape_size, sizes,
    step_at, tops, trouble_in, with_kid, Detail, Entry, Head, Shape,
};
use crate::text::{decimal, decimal_string, same_text};

verus! {

/// Why a dump could not be imported.
#[derive(Debug)]
pub enum ImportError {
    /// The text is not JSON.
    Syntax(String),
    NotAnArray,
    /// The top-level array lacks a part; it has this many elements.
    TooFewElements(u64),
    MajorNotANumber,
    WrongMajor(u64),
    /// There are more entries than ids.
    TooManyEntries,
    /// A directory without an object that describes it.
    EmptyArray,
    InfoNotAnObject,
    /// The notation of a value that stands in place of an entry.
    NotAnEntry(String),
    MissingName,
}

/// Why a dump could not be imported.
pub enum ImportFault {
    Syntax(Seq<char>),
    NotAnArray,
    TooFewElements(u64),
    MajorNotANumber,
    WrongMajor(u64),
    TooManyEntries,
    EmptyArray,
    InfoNotAnObject,
    NotAnEntry(Seq<char>),
    MissingName,
}

impl View for ImportError {
    type V = ImportFault;

    open spec fn view(&self) -> ImportFault {
        match self {
            ImportError::Syntax(s) => ImportFault::Syntax(s@),
            ImportError::NotAnArray => ImportFault::NotAnArray,
            ImportError::TooFewElements(n) => ImportFault::TooFewElements(*n),
            ImportError::MajorNotANumber => ImportFault::MajorNotANumber,
            ImportError::WrongMajor(n) => ImportFault::WrongMajor(*n),
            ImportError::TooManyEntries => ImportFault::TooManyEntries,
            ImportError::EmptyArray => ImportFault::EmptyArray,
            ImportError::InfoNotAnObject => ImportFault::InfoNotAnObject,
            ImportError::NotAnEntry(s) => ImportFault::NotAnEntry(s@),
            ImportError::MissingName => ImportFault::MissingName,
        }
    }
}

/// What an import error says.
pub open spec fn fault_text(f: ImportFault) -> Seq<char> {
    match f {
        ImportFault::Syntax(s) => s,
        ImportFault::NotAnArray => "expected top-level array"@,
        ImportFault::TooFewElements(n) => "expected [major, minor, metadata, root, ...] — got "@
            + decimal(n as nat) + " elements"@,
        ImportFault::MajorNotANumber => "major version must be a number"@,
        ImportFault::WrongMajor(n) => "incompatible major format version: "@ + decimal(n as nat),
        ImportFault::TooManyEntries => "too many entries"@,
        ImportFault::EmptyArray =>
            "empty array — directory entry requires at least an info object"@,
        ImportFault::InfoNotAnObject => "first array element must be an object"@,
        ImportFault::NotAnEntry(s) => "expected object or array, got "@ + s,
        ImportFault::MissingName => "missing or non-string \"name\" field"@,
    }
}

impl ImportError {
    /// The message for the user.
    pub fn message(&self) -> (r: String)
        ensures
            r@ == fault_text(self@),
    {
        match self {
            ImportError::Syntax(s) => s.clone(),
            ImportError::NotAnArray => "expected top-level array".to_owned(),
            ImportError::TooFewElements(n) =>
                "expected [major, minor, metadata, root, ...] — got ".to_owned().concat(
                decimal_string(*n).as_str(),
            ).concat(" elements"),
            ImportError::MajorNotANumber => "major version must be a number".to_owned(),
            ImportError::WrongMajor(n) => "incompatible major format version: ".to_owned().concat(
                decimal_string(*n).as_str(),
            ),
            ImportError::TooManyEntries => "too many entries".to_owned(),
            ImportError::EmptyArray =>
                "empty array — directory entry requires at least an info object".to_owned(),
            ImportError::InfoNotAnObject => "first array element must be an object".to_owned(),
            ImportError::NotAnEntry(s) => "expected object or array, got ".to_owned().concat(
                s.as_str(),
            ),
            ImportError::MissingName => "missing or non-string \"name\" field".to_owned(),
        }
    }
}

pub open spec fn number_or(n: Option<u64>, default: u64) -> u64 {
    match n {
        Some(n) => n,
        None => default,
    }
}

/// The type of an entry, by the members of its object.
pub open spec fn info_etype(m: Map<Seq<char>, JsonView>, is_dir: bool) -> EType {
    let links = low32(number_or(number_field(m, "nlink"@), 0));
    if is_dir {
        EType::Dir
    } else if let Some(reason) = text_field(m, "excluded"@) {
        if reason == "otherfs"@ || reason == "othfs"@ {
            EType::OtherFs
        } else if reason == "kernfs"@ {
            EType::KernFs
        } else {
            EType::Pattern
        }
    } else if flag_field(m, "read_error"@) {
        EType::Error
    } else if flag_field(m, "hlnkc"@) || (links > 1 && number_field(m, "ino"@) is Some) {
        EType::Link
    } else if flag_field(m, "notreg"@) {
        EType::NonReg
    } else {
        EType::Reg
    }
}

/// The extended metadata of an entry, by the members of its object.
pub open spec fn info_ext(m: Map<Seq<char>, JsonView>) -> Option<Ext> {
    let ext = Ext {
        mtime: number_field(m, "mtime"@),
        uid: match number_field(m, "uid"@) {
            Some(n) => Some(low32(n)),
            None => None,
        },
        gid: match number_field(m, "gid"@) {
            Some(n) => Some(low32(n)),
            None => None,
        },
        mode: match number_field(m, "mode"@) {
            Some(n) => Some(low16(n)),
            None => None,
        },
    };
    if ext.none() {
        None
    } else {
        Some(ext)
    }
}

/// The device of a directory, which is its parent's unless stated.
pub open spec fn info_dev(m: Map<Seq<char>, JsonView>, parent_dev: u64) -> u64 {
    number_or(number_field(m, "dev"@), parent_dev)
}

/// What an object says of its entry. `items` is the number of entries below it,
/// and `suberr` whether there was a scan error among them.
#[verifier::opaque]
pub open spec fn info_head(
    m: Map<Seq<char>, JsonView>,
    is_dir: bool,
    parent_dev: u64,
    items: u32,
    suberr: bool,
) -> Head {
    let etype = info_etype(m, is_dir);
    Head {
        name: text_field(m, "name"@)->0,
        etype,
        size: number_or(number_field(m, "asize"@), 0),
        blocks: number_or(number_field(m, "dsize"@), 0) / 512,
        ext: info_ext(m),
        detail: match etype {
            EType::Dir => Detail::Dir {
                items,
                dev: info_dev(m, parent_dev),
                err: flag_field(m, "read_error"@),
                suberr,
            },
            EType::Link => Detail::Link {
                ino: number_or(number_field(m, "ino"@), 0),
                nlink: low32(number_or(number_field(m, "nlink"@), 0)),
            },
            _ => Detail::File,
        },
    }
}

/// The same directory with something else below it.
spec fn with_below(h: Head, items: u32, suberr: bool) -> Head {
    Head {
        detail: match h.detail {
            Detail::Dir { dev, err, .. } => Detail::Dir { items, dev, err, suberr },
            d => d,
        },
        ..h
    }
}

proof fn lemma_info_below(m: Map<Seq<char>, JsonView>, parent_dev: u64, items: u32, suberr: bool)
    ensures
        info_head(m, true, parent_dev, items, suberr) == with_below(
            info_head(m, true, parent_dev, 0, false),
            items,
            suberr,
        ),
{
    reveal(info_head);
}

/// The entry that a value describes: a directory, if it is an array.
pub open spec fn item_entry(v: JsonView, parent_dev: u64) -> Result<Entry, ImportFault>
    decreases v, 0nat,
{
    match v {
        JsonView::Array(items) => if items.len() == 0 {
            Err(ImportFault::EmptyArray)
        } else {
            match items[0] {
                JsonView::Object(m) => if text_field(m, "name"@) is None {
                    Err(ImportFault::MissingName)
                } else {
                    match item_entries(items, items.len(), info_dev(m, parent_dev)) {
                        Ok(children) => Ok(
                            Entry {
                                head: info_head(
                                    m,
                                    true,
                                    parent_dev,
                                    capped32(entry_sizes(children, children.len())),
                                    any_trouble_in(children, children.len()),
                                ),
                                children,
                            },
                        ),
                        Err(f) => Err(f),
                    }
                },
                _ => Err(ImportFault::InfoNotAnObject),
            }
        },
        JsonView::Object(m) => if text_field(m, "name"@) is None {
            Err(ImportFault::MissingName)
        } else {
            Ok(Entry { head: info_head(m, false, parent_dev, 0, false), children: Seq::empty() })
        },
        _ => Err(ImportFault::NotAnEntry(scalar_notation(v))),
    }
}

/// The entries that the items of a directory describe, but for the first item
/// and for those from the `n`-th on. The first fault counts.
pub open spec fn item_entries(items: Seq<JsonView>, n: nat, dev: u64) -> Result<
    Seq<Entry>,
    ImportFault,
>
    decreases items, n,
{
    if n <= 1 || n > items.len() {
        Ok(Seq::empty())
    } else {
        match item_entries(items, (n - 1) as nat, dev) {
            Ok(entries) => match item_entry(items[n - 1], dev) {
                Ok(e) => Ok(entries.push(e)),
                Err(f) => Err(f),
            },
            Err(f) => Err(f),
        }
    }
}

/// The number of entries that a value describes.
pub open spec fn entry_count(v: JsonView) -> nat
    decreases v, 0nat,
{
    match v {
        JsonView::Array(items) => 1 + entry_counts(items, items.len()),
        _ => 1,
    }
}

/// The number of entries that the items of a directory describe, but for the
/// first item and for those from the `n`-th on.
pub open spec fn entry_counts(items: Seq<JsonView>, n: nat) -> nat
    decreases items, n,
{
    if n <= 1 || n > items.len() {
        0
    } else {
        entry_counts(items, (n - 1) as nat) + entry_count(items[n - 1])
    }
}

/// The number of entries that a value describes.
pub fn count_entries(v: &Json) -> (r: u64)
    ensures
        r == capped(entry_count(v@)),
    decreases v,
{
    match v {
        Json::Array(items) => {
            let ghost views = json_items(items@);
            let mut n: u64 = 0;
            let mut i: usize = 1;
            while i < items.len()
                invariant
                    1 <= i,
                    items@.len() > 0 ==> i <= items@.len(),
                    views == json_items(items@),
                    *v == Json::Array(*items),
                    n == capped(entry_counts(views, i as nat)),
                decreases items@.len() - i,
            {
                proof {
                    assert(decreases_to!(v => v->Array_0));
                    assert(decreases_to!(v->Array_0 => v->Array_0@));
                    assert(decreases_to!(v->Array_0@ => v->Array_0@[i as int]));
                    assert(views[i as int] == items@[i as int]@);
                }
                n = capped_sum(n, count_entries(&items[i]));
                i += 1;
            }
            proof {
                assert(entry_counts(views, i as nat) == entry_counts(views, views.len()));
            }
            capped_sum(1, n)
        },
        _ => 1,
    }
}

fn find_etype(obj: &Vec<(String, Json)>, is_dir: bool) -> (r: EType)
    ensures
        r == info_etype(object_view(obj@), is_dir),
{
    let nlink: u32 = find_low32(obj, "nlink");
    let ino = find_number(obj, "ino");
    if is_dir {
        EType::Dir
    } else if let Some(reason) = find_text(obj, "excluded") {
        if same_text(reason, "otherfs") || same_text(reason, "othfs") {
            EType::OtherFs
        } else if same_text(reason, "kernfs") {
            EType::KernFs
        } else {
            EType::Pattern
        }
    } else if find_flag(obj, "read_error") {
        EType::Error
    } else if find_flag(obj, "hlnkc") || (nlink > 1 && ino.is_some()) {
        EType::Link
    } else if find_flag(obj, "notreg") {
        EType::NonReg
    } else {
        EType::Reg
    }
}

fn find_or(obj: &Vec<(String, Json)>, key: &str, default: u64) -> (r: u64)
    ensures
        r == number_or(number_field(object_view(obj@), key@), default),
{
    match find_number(obj, key) {
        Some(n) => n,
        None => default,
    }
}

fn find_low32(obj: &Vec<(String, Json)>, key: &str) -> (r: u32)
    ensures
        r == low32(number_or(number_field(object_view(obj@), key@), 0)),
{
    (find_or(obj, key, 0) % 0x1_0000_0000) as u32
}

fn find_ext(obj: &Vec<(String, Json)>) -> (r: Option<Ext>)
    ensures
        r == info_ext(object_view(obj@)),
{
    let mut ext = Ext::default();
    if let Some(n) = find_number(obj, "uid") {
        ext.uid = Some((n % 0x1_0000_0000) as u32);
    }
    if let Some(n) = find_number(obj, "gid") {
        ext.gid = Some((n % 0x1_0000_0000) as u32);
    }
    if let Some(n) = find_number(obj, "mode") {
        ext.mode = Some((n % 0x1_0000) as u16);
    }
    ext.mtime = find_number(obj, "mtime");
    if ext.is_empty() {
        None
    } else {
        Some(ext)
    }
}

/// Appends a node with what an object says of its entry.
fn add_info(
    obj: &Vec<(String, Json)>,
    is_dir: bool,
    tree: &mut Tree,
    parent_dev: u64,
) -> (r: Option<EntryId>)
    requires
        old(tree).devices_ok(),
        old(tree).inodes_ok(),
        all_spare_unset(old(tree).nodes@),
        all_untied(old(tree).nodes@),
        old(tree).nodes@.len() < u32::MAX,
    ensures
        match r {
            Some(id) => {
                let node = final(tree).nodes@.last();
                &&& text_field(object_view(obj@), "name"@) is Some
                &&& id == EntryId(old(tree).nodes@.len() as u32)
                &&& final(tree).devices_ok()
                &&& old(tree).devices@.is_prefix_of(final(tree).devices@)
                &&& final(tree).devices@ == (if is_dir {
                    listed(old(tree).devices@, info_dev(object_view(obj@), parent_dev))
                } else {
                    old(tree).devices@
                })
                &&& final(tree).nodes@ == old(tree).nodes@.push(node)
                &&& head_of(node, final(tree).devices@) == info_head(
                    object_view(obj@),
                    is_dir,
                    parent_dev,
                    0,
                    false,
                )
                &&& node.common.next == EntryId::none()
                &&& first_child(node) == EntryId::none()
                &&& child_of(node, EntryId::none())
                &&& final(tree).root == old(tree).root
                &&& final(tree).inodes_ok()
                &&& all_spare_unset(final(tree).nodes@)
                &&& all_untied(final(tree).nodes@)
            },
            None => text_field(object_view(obj@), "name"@) is None,
        },
{
    reveal(info_head);
    let ghost before = tree.nodes@;
    let ghost known = tree.devices@;
    let name = match find_text(obj, "name") {
        Some(name) => name,
        None => {
            return None;
        },
    };
    let etype = find_etype(obj, is_dir);
    let id = tree.create(etype, name.as_str());
    let size: u64 = find_or(obj, "asize", 0);
    let blocks: u64 = find_or(obj, "dsize", 0) / 512;
    let ext = find_ext(obj);
    let read_error = find_flag(obj, "read_error");
    let ino: u64 = find_or(obj, "ino", 0);
    let nlink: u32 = find_low32(obj, "nlink");
    let mut dev_id: u32 = 0;
    if let NodeKind::Dir(_) = &tree.get(id).kind {
        let dev: u64 = find_or(obj, "dev", parent_dev);
        dev_id = tree.devices.get_id(dev);
        proof {
            assert(known.is_prefix_of(tree.devices@));
            assert(dev_id == tree.devices@.index_of(dev));
        }
    }
    let node = tree.get_mut(id);
    node.common.size = size;
    node.common.blocks = blocks;
    node.common.ext = ext;
    match &mut node.kind {
        NodeKind::Dir(d) => {
            d.err = read_error;
            d.dev = dev_id;
        },
        NodeKind::Link(l) => {
            l.ino = ino;
            l.nlink = nlink;
        },
        NodeKind::File => {},
    }
    proof {
        let node = tree.nodes@.last();
        assert(tree.nodes@ =~= before.push(node));
        lemma_push_inode(before, node, tree.inodes.map@);
        assert forall|i: int| 0 <= i < tree.nodes@.len() implies spare_unset(
            #[trigger] tree.nodes@[i],
        ) && untied(tree.nodes@[i]) == tree.nodes@[i] by {
            if i < before.len() {
                assert(tree.nodes@[i] == before[i]);
            }
        }
        assert forall|i: int| 0 <= i < tree.nodes@.len() implies ((
        #[trigger] tree.nodes@[i]).kind matches NodeKind::Dir(d) ==> d.dev
            < tree.devices@.len()) by {
            if i < before.len() {
                assert(tree.nodes@[i] == before[i]);
            }
        }
    }
    Some(id)
}

/// The nodes from `n0.len()` on are the subtree `s`, and nothing else has
/// changed but for new devices.
spec fn grown(n0: Seq<Node>, d0: Seq<u64>, tree: Tree, s: Shape) -> bool {
    let top = tree.nodes@[n0.len() as int];
    &&& tree.devices_ok()
    &&& tree.inodes_ok()
    &&& all_spare_unset(tree.nodes@)
    &&& all_untied(tree.nodes@)
    &&& d0.is_prefix_of(tree.devices@)
    &&& n0.is_prefix_of(tree.nodes@)
    &&& tree.nodes@.len() == n0.len() + shape_size(s)
    &&& linked(tree.nodes@, s)
    &&& owned(tree.nodes@, s)
    &&& preorder(s, n0.len() as int)
    &&& top.common.next == EntryId::none()
    &&& child_of(top, EntryId::none())
}

/// The number of entries below a node, as far as it says.
spec fn items_of(n: Node) -> u32 {
    match n.kind {
        NodeKind::Dir(d) => d.items,
        _ => 0,
    }
}

/// A scan error lies on the node or below it, as far as it says.
spec fn trouble_of(n: Node) -> bool {
    match n.kind {
        NodeKind::Dir(d) => d.err || d.suberr,
        _ => n.common.etype is Error,
    }
}

/// Links the subtree at `child` as the last child of the directory at `id`,
/// whose last child so far is `last`, and counts it.
fn adopt(
    tree: &mut Tree,
    id: EntryId,
    last: EntryId,
    child: EntryId,
    Ghost(s): Ghost<Shape>,
    Ghost(kid): Ghost<Shape>,
)
    requires
        linked(old(tree).nodes@, s),
        owned(old(tree).nodes@, s),
        preorder(s, id.0 as int),
        linked(old(tree).nodes@, kid),
        owned(old(tree).nodes@, kid),
        preorder(kid, child.0 as int),
        child == kid.id,
        id == s.id,
        last == id_at(tops(s.kids), s.kids.len() - 1),
        child.0 == id.0 + shape_size(s),
        child.0 + shape_size(kid) == old(tree).nodes@.len(),
        old(tree).nodes@.len() <= u32::MAX,
        old(tree).nodes@[child.0 as int].common.next == EntryId::none(),
        child_of(old(tree).nodes@[child.0 as int], EntryId::none()),
        old(tree).nodes@[id.0 as int].kind is Dir,
        old(tree).devices_ok(),
        old(tree).inodes_ok(),
        all_spare_unset(old(tree).nodes@),
        all_untied(old(tree).nodes@),
    ensures
        adopted(old(tree).nodes@, final(tree).nodes@, s, kid),
        final(tree).nodes@.len() == old(tree).nodes@.len(),
        forall|i: int|
            0 <= i < id.0 ==> final(tree).nodes@[i] == #[trigger] old(tree).nodes@[i],
        takes_in(
            old(tree).nodes@[id.0 as int],
            final(tree).nodes@[id.0 as int],
            old(tree).nodes@[child.0 as int],
        ),
        final(tree).devices_ok(),
        final(tree).inodes_ok(),
        all_spare_unset(final(tree).nodes@),
        all_untied(final(tree).nodes@),
        final(tree).devices == old(tree).devices,
        final(tree).root == old(tree).root,
{
    let ghost a = tree.nodes@;
    proof {
        if s.kids.len() > 0 {
            let n = s.kids.len();
            lemma_sizes_monotone(s.kids, (n - 1) as nat, n);
            assert(preorder(s.kids[n - 1], id.0 + 1 + sizes(s.kids, (n - 1) as nat)));
            assert(linked(a, s.kids[n - 1]));
            assert(id.0 < last.0 < child.0);
        }
    }
    let trouble = tree.get(child).has_err();
    let inside: u32 = match &tree.get(child).kind {
        NodeKind::Dir(d) => d.items,
        _ => 0,
    };
    let mut ino: Option<u64> = None;
    match &mut tree.get_mut(child).kind {
        NodeKind::Dir(d) => {
            d.parent = id;
        },
        NodeKind::Link(l) => {
            l.parent = id;
            ino = Some(l.ino);
        },
        NodeKind::File => {},
    }
    let mut dev: DevId = 0;
    if let Some(d) = tree.get_mut(id).as_dir_mut() {
        if last.is_none() {
            d.sub = child;
        }
        d.items = d.items.saturating_add(1).saturating_add(inside);
        if trouble {
            d.suberr = true;
        }
        dev = d.dev;
    }
    if !last.is_none() {
        tree.get_mut(last).common.next = child;
    }
    let ghost table = tree.inodes.map@;
    if let Some(ino) = ino {
        tree.inodes.enter(dev, ino, child);
    }
    proof {
        let b = tree.nodes@;
        assert(first_child(b[id.0 as int]) == (if s.kids.len() == 0 {
            child
        } else {
            first_child(a[id.0 as int])
        }));
        assert forall|i: int| 0 <= i < b.len() implies ((#[trigger] b[i]).kind matches NodeKind::Dir(
            d,
        ) ==> d.dev < tree.devices@.len()) by {
            assert(a[i].kind matches NodeKind::Dir(d) ==> d.dev < tree.devices@.len());
        }
        assert forall|i: int| 0 <= i < b.len() implies spare_unset(#[trigger] b[i]) && untied(b[i])
            == b[i] by {
            assert(spare_unset(a[i]) && untied(a[i]) == a[i]);
        }
        if let NodeKind::Link(l) = a[child.0 as int].kind {
            assert(kid.kids.len() == 0) by {
                if kid.kids.len() > 0 {
                    assert(step_at(nexts(a), tops(kid.kids), 0));
                }
            }
            assert(shape_size(kid) == 1);
            assert(link_key(a, a.len() - 1) is None);
            assert(same_inodes(a.drop_last(), b.drop_last())) by {
                assert forall|i: int| 0 <= i < a.len() - 1 implies match (
                #[trigger] b.drop_last()[i]).kind {
                    NodeKind::Dir(d) => a.drop_last()[i].kind matches NodeKind::Dir(e) && d.dev
                        == e.dev,
                    NodeKind::Link(l) => a.drop_last()[i].kind matches NodeKind::Link(k)
                        && l.parent == k.parent && l.ino == k.ino,
                    NodeKind::File => a.drop_last()[i].kind is File,
                } by {
                    assert(b.drop_last()[i] == b[i]);
                    assert(a.drop_last()[i] == a[i]);
                }
            }
            assert forall|i: int| 0 <= i < a.len() - 1 implies ((
            #[trigger] a[i]).kind matches NodeKind::Link(l) ==> l.parent.0 != a.len() - 1) by {
                assert(link_in_place(a, i));
            }
            lemma_enter_inode(a, b, id, l.ino, table);
        } else {
            assert(same_inodes(a, b));
            lemma_same_inodes(a, b, table);
        }
    }
}

/// The two nodes differ in the links to children and in that the second one
/// counts a child more, with all that is below it.
spec fn takes_in(a: Node, b: Node, kid: Node) -> bool {
    &&& a.common == b.common
    &&& a.kind is Dir
    &&& b.kind is Dir
    &&& b.kind->Dir_0 == DirData {
        sub: b.kind->Dir_0.sub,
        items: capped32((a.kind->Dir_0.items + 1 + items_of(kid)) as nat),
        suberr: a.kind->Dir_0.suberr || trouble_of(kid),
        ..a.kind->Dir_0
    }
}

/// Appends the subtree that a value describes.
fn parse_item(v: &Json, tree: &mut Tree, parent_dev: u64) -> (r: (
    Result<EntryId, ImportError>,
    Ghost<Shape>,
))
    requires
        old(tree).devices_ok(),
        old(tree).inodes_ok(),
        all_spare_unset(old(tree).nodes@),
        all_untied(old(tree).nodes@),
        old(tree).nodes@.len() + entry_count(v@) <= u32::MAX,
    ensures
        match r.0 {
            Ok(id) => {
                let s = r.1@;
                let e = entry_of(final(tree).nodes@, final(tree).devices@, s);
                &&& id == s.id
                &&& item_entry(v@, parent_dev) == Ok::<Entry, ImportFault>(e)
                &&& final(tree).devices@ == devices_of(old(tree).devices@, e)
                &&& grown(old(tree).nodes@, old(tree).devices@, *final(tree), s)
                &&& shape_size(s) <= entry_count(v@)
                &&& final(tree).root == old(tree).root
            },
            Err(f) => item_entry(v@, parent_dev) == Err::<Entry, ImportFault>(f@),
        },
    decreases v, 0nat,
{
    let ghost n0 = tree.nodes@;
    let ghost d0 = tree.devices@;
    let ghost none = Shape { id: EntryId::none(), kids: Seq::empty() };
    match v {
        Json::Object(obj) => match add_info(obj, false, tree, parent_dev) {
            Some(id) => {
                let ghost s = Shape { id, kids: Seq::empty() };
                proof {
                    lemma_leaf(tree.nodes@, s);
                    assert(entries_of(tree.nodes@, tree.devices@, s.kids) =~= Seq::<Entry>::empty());
                }
                (Ok(id), Ghost(s))
            },
            None => (Err(ImportError::MissingName), Ghost(none)),
        },
        Json::Array(items) => {
            if items.len() == 0 {
                return (Err(ImportError::EmptyArray), Ghost(none));
            }
            let ghost views = json_items(items@);
            proof {
                assert(views[0] == items@[0]@);
            }
            let obj = match &items[0] {
                Json::Object(obj) => obj,
                _ => {
                    return (Err(ImportError::InfoNotAnObject), Ghost(none));
                },
            };
            let ghost m = object_view(obj@);
            let id = match add_info(obj, true, tree, parent_dev) {
                Some(id) => id,
                None => {
                    return (Err(ImportError::MissingName), Ghost(none));
                },
            };
            let dev: u64 = find_or(obj, "dev", parent_dev);
            let ghost mut s = Shape { id, kids: Seq::empty() };
            let ghost head = info_head(m, true, parent_dev, 0, false);
            proof {
                assert(with_below(head, 0, false) == head && head.detail is Dir && head.detail->dev
                    == dev) by {
                    reveal(info_head);
                }
                lemma_leaf(tree.nodes@, s);
                assert(entries_of(tree.nodes@, tree.devices@, s.kids) =~= Seq::<Entry>::empty());
            }
            let mut last: EntryId = EntryId::none();
            let mut i: usize = 1;
            while i < items.len()
                invariant
                    1 <= i <= items@.len(),
                    v@ == JsonView::Array(views),
                    views == json_items(items@),
                    *v == Json::Array(*items),
                    views.len() > 0,
                    views[0] == JsonView::Object(m),
                    text_field(m, "name"@) is Some,
                    dev == info_dev(m, parent_dev),
                    n0.len() + entry_count(v@) <= u32::MAX,
                    grown(n0, d0, *tree, s),
                    s.id == id,
                    id.0 == n0.len(),
                    last == id_at(tops(s.kids), s.kids.len() - 1),
                    shape_size(s) <= 1 + entry_counts(views, i as nat),
                    s.kids.len() <= entry_counts(views, i as nat),
                    item_entries(views, i as nat, dev) == Ok::<Seq<Entry>, ImportFault>(
                        entries_of(tree.nodes@, tree.devices@, s.kids),
                    ),
                    tree.devices@ == devices_of_all(
                        listed(d0, dev),
                        entries_of(tree.nodes@, tree.devices@, s.kids),
                        s.kids.len(),
                    ),
                    head.detail is Dir,
                    head.detail->dev == dev,
                    tree.nodes@[id.0 as int].kind is Dir,
                    head_of(tree.nodes@[id.0 as int], tree.devices@) == with_below(
                        head,
                        capped32(
                            entry_sizes(
                                entries_of(tree.nodes@, tree.devices@, s.kids),
                                s.kids.len(),
                            ),
                        ),
                        any_trouble_in(
                            entries_of(tree.nodes@, tree.devices@, s.kids),
                            s.kids.len(),
                        ),
                    ),
                    tree.root == old(tree).root,
                decreases items@.len() - i,
            {
                proof {
                    assert(decreases_to!(v => v->Array_0));
                    assert(decreases_to!(v->Array_0 => v->Array_0@));
                    assert(decreases_to!(v->Array_0@ => v->Array_0@[i as int]));
                    assert(views[i as int] == items@[i as int]@);
                    lemma_counts_monotone(views, i as nat, views.len());
                }
                let ghost kids_before = entries_of(tree.nodes@, tree.devices@, s.kids);
                let (r, Ghost(kid)) = parse_child(
                    &items[i],
                    tree,
                    dev,
                    id,
                    last,
                    Ghost(n0),
                    Ghost(d0),
                    Ghost(s),
                );
                let child = match r {
                    Ok(child) => child,
                    Err(e) => {
                        proof {
                            lemma_first_fault(views, i as nat, views.len(), dev);
                        }
                        return (Err(e), Ghost(none));
                    },
                };
                proof {
                    let t = with_kid(s, kid);
                    assert(tops(t.kids)[t.kids.len() - 1] == child);
                    let e = item_entry(views[i as int], dev)->Ok_0;
                    lemma_devices_push(listed(d0, dev), kids_before, e);
                    lemma_entries_push(kids_before, e);
                    s = t;
                }
                last = child;
                i += 1;
            }
            proof {
                let entries = entries_of(tree.nodes@, tree.devices@, s.kids);
                lemma_info_below(
                    m,
                    parent_dev,
                    capped32(entry_sizes(entries, entries.len())),
                    any_trouble_in(entries, entries.len()),
                );
            }
            (Ok(id), Ghost(s))
        },
        _ => (Err(ImportError::NotAnEntry(scalar_text(v))), Ghost(none)),
    }
}

/// Appends the subtree that a value describes, as the last child of the
/// directory at `id`, whose last child so far is `last`.
fn parse_child(
    v: &Json,
    tree: &mut Tree,
    dev: u64,
    id: EntryId,
    last: EntryId,
    Ghost(n0): Ghost<Seq<Node>>,
    Ghost(d0): Ghost<Seq<u64>>,
    Ghost(s): Ghost<Shape>,
) -> (r: (Result<EntryId, ImportError>, Ghost<Shape>))
    requires
        grown(n0, d0, *old(tree), s),
        s.id == id,
        id.0 == n0.len(),
        old(tree).nodes@.len() + entry_count(v@) <= u32::MAX,
        last == id_at(tops(s.kids), s.kids.len() - 1),
        old(tree).nodes@[id.0 as int].kind is Dir,
    ensures
        match r.0 {
            Ok(child) => {
                let kid = r.1@;
                let t = with_kid(s, kid);
                let nodes = final(tree).nodes@;
                let devices = final(tree).devices@;
                &&& child == kid.id
                &&& item_entry(v@, dev) is Ok
                &&& devices == devices_of(old(tree).devices@, item_entry(v@, dev)->Ok_0)
                &&& grown(n0, d0, *final(tree), t)
                &&& shape_size(t) <= shape_size(s) + entry_count(v@)
                &&& entries_of(nodes, devices, t.kids) == entries_of(
                    old(tree).nodes@,
                    old(tree).devices@,
                    s.kids,
                ).push(item_entry(v@, dev)->Ok_0)
                &&& nodes[id.0 as int].kind is Dir
                &&& ({
                    let before = old(tree).nodes@[id.0 as int];
                    let e = item_entry(v@, dev)->Ok_0;
                    head_of(nodes[id.0 as int], devices) == with_below(
                        head_of(before, old(tree).devices@),
                        capped32((before.kind->Dir_0.items + entry_size(e)) as nat),
                        before.kind->Dir_0.suberr || trouble_in(e),
                    )
                })
                &&& final(tree).root == old(tree).root
            },
            Err(f) => item_entry(v@, dev) == Err::<Entry, ImportFault>(f@),
        },
    decreases v, 1nat,
{
    let ghost n1 = tree.nodes@;
    let ghost d1 = tree.devices@;
    let (r, Ghost(kid)) = parse_item(v, tree, dev);
    let child = match r {
        Ok(child) => child,
        Err(e) => {
            return (Err(e), Ghost(kid));
        },
    };
    let ghost n2 = tree.nodes@;
    let ghost d2 = tree.devices@;
    proof {
        assert forall|i: int| 0 <= i < n1.len() implies n2[i] == #[trigger] n1[i] by {}
        lemma_frame(n1, n2, s, id.0 as int);
        lemma_more_devices(n1, d1, d2, s);
        assert(entry_of(n2, d2, s) == entry_of(n1, d1, s));
    }
    adopt(tree, id, last, child, Ghost(s), Ghost(kid));
    proof {
        lemma_item_counts(v@, dev);
        assert(item_entry(v@, dev)->Ok_0.head == head_of(n2[child.0 as int], d2));
        lemma_adopt(n2, tree.nodes@, s, kid);
        assert(entries_of(tree.nodes@, d2, with_kid(s, kid).kids) == entries_of(
            n2,
            d2,
            s.kids,
        ).push(entry_of(n2, d2, kid)));
        assert forall|i: int| 0 <= i < n0.len() implies tree.nodes@[i] == #[trigger] n0[i] by {
            assert(n2[i] == n1[i]);
        }
    }
    (Ok(child), Ghost(kid))
}

/// An entry that was read counts what is below it.
proof fn lemma_item_counts(v: JsonView, dev: u64)
    requires
        item_entry(v, dev) is Ok,
    ensures
        ({
            let e = item_entry(v, dev)->Ok_0;
            match e.head.detail {
                Detail::Dir { items, .. } => items == capped32(
                    entry_sizes(e.children, e.children.len()),
                ),
                _ => entry_size(e) == 1,
            }
        }),
{
    reveal(info_head);
}

proof fn lemma_counts_monotone(items: Seq<JsonView>, i: nat, n: nat)
    requires
        1 <= i < n <= items.len(),
    ensures
        entry_counts(items, i) + entry_count(items[i as int]) <= entry_counts(items, n),
    decreases n,
{
    if i + 1 < n {
        lemma_counts_monotone(items, i, (n - 1) as nat);
    }
}

proof fn lemma_first_fault(items: Seq<JsonView>, i: nat, n: nat, dev: u64)
    requires
        1 <= i < n <= items.len(),
        item_entries(items, i, dev) is Ok,
        item_entry(items[i as int], dev) is Err,
    ensures
        item_entries(items, n, dev) == Err::<Seq<Entry>, ImportFault>(
            item_entry(items[i as int], dev)->Err_0,
        ),
    decreases n,
{
    if i + 1 < n {
        lemma_first_fault(items, i, (n - 1) as nat, dev);
    }
}

/// The tree that a dump describes, as a value.
pub open spec fn import_outcome(v: JsonView) -> Result<Entry, ImportFault> {
    match v {
        JsonView::Array(items) => if items.len() < 4 {
            Err(ImportFault::TooFewElements(items.len() as u64))
        } else {
            match items[0] {
                JsonView::Number(Some(major), _) => if major != 1 {
                    Err(ImportFault::WrongMajor(major))
                } else if entry_count(items[3]) > u32::MAX {
                    Err(ImportFault::TooManyEntries)
                } else {
                    item_entry(items[3], u64::MAX)
                },
                _ => Err(ImportFault::MajorNotANumber),
            }
        },
        _ => Err(ImportFault::NotAnArray),
    }
}

/// What an import returned, as a value.
pub open spec fn outcome(r: Result<Tree, ImportError>) -> Result<Entry, ImportFault> {
    match r {
        Ok(tree) => Ok(tree.entry(tree.root)),
        Err(e) => Err(e@),
    }
}

/// The tree that a dump describes. Minor version and metadata are ignored.
pub fn tree_from_json(v: &Json) -> (r: Result<Tree, ImportError>)
    ensures
        outcome(r) == import_outcome(v@),
        r is Ok ==> r->Ok_0.proper() && r->Ok_0.devices_ok() && r->Ok_0.in_sequence(),
        r is Ok ==> r->Ok_0.inodes_ok() && ringed(r->Ok_0.nodes@),
        r is Ok ==> all_spare_unset(r->Ok_0.nodes@),
{
    let items = match v {
        Json::Array(items) => items,
        _ => {
            return Err(ImportError::NotAnArray);
        },
    };
    let ghost views = json_items(items@);
    if items.len() < 4 {
        return Err(ImportError::TooFewElements(items.len() as u64));
    }
    proof {
        assert(views[0] == items@[0]@);
        assert(views[3] == items@[3]@);
    }
    let major: u64 = match &items[0] {
        Json::Number(Some(major), _) => *major,
        _ => {
            return Err(ImportError::MajorNotANumber);
        },
    };
    if major != 1 {
        return Err(ImportError::WrongMajor(major));
    }
    if count_entries(&items[3]) > u32::MAX as u64 {
        return Err(ImportError::TooManyEntries);
    }
    let mut tree = Tree::new();
    proof {
        assert(tree.devices@ =~= Seq::<u64>::empty());
    }
    let (r, Ghost(s)) = parse_item(&items[3], &mut tree, u64::MAX);
    match r {
        Ok(root) => {
            tree.root = root;
            let ghost parsed = tree.nodes@;
            tie_all(&mut tree);
            proof {
                lemma_bare_shape(tree.nodes@, tree.devices@, s);
                lemma_same_inodes(parsed, tree.nodes@, tree.inodes.map@);
                assert forall|i: int| 0 <= i < tree.nodes@.len() implies {
                    &&& spare_unset(#[trigger] tree.nodes@[i])
                    &&& tree.nodes@[i].kind matches NodeKind::Dir(d) ==> d.dev
                        < tree.devices@.len()
                } by {
                    assert(bare(tree.nodes@)[i] == untied(tree.nodes@[i]));
                    assert(spare_unset(parsed[i]));
                }
                lemma_shape_at(tree.nodes@, s);
                lemma_flat_preorder(s, 0);
            }
            Ok(tree)
        },
        Err(e) => Err(e),
    }
}

/// What an import of a text gives, by what the JSON parser made of the text.
pub open spec fn import_of(parsed: Result<JsonView, Seq<char>>) -> Result<Entry, ImportFault> {
    match parsed {
        Ok(v) => import_outcome(v),
        Err(message) => Err(ImportFault::Syntax(message)),
    }
}

/// The tree that the text of a dump describes.
pub fn import_tree(bytes: &[u8]) -> (r: Result<Tree, ImportError>)
    ensures
        outcome(r) == import_of(parsed_json(bytes@)),
        forall|d: Doc| #[trigger]
            spells(bytes@, d) ==> outcome(r) == import_outcome(doc_value(d)),
        r is Ok ==> r->Ok_0.proper() && r->Ok_0.devices_ok() && r->Ok_0.in_sequence(),
        r is Ok ==> r->Ok_0.inodes_ok() && ringed(r->Ok_0.nodes@),
        r is Ok ==> all_spare_unset(r->Ok_0.nodes@),
{
    match read_json(bytes) {
        Ok(v) => tree_from_json(&v),
        Err(message) => Err(ImportError::Syntax(message)),
    }
}

} // verus!
