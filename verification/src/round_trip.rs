//! What an import gives back of an export.

use vstd::prelude::*;

use crate::json::{doc_text, Doc};
use crate::json_export::{
    dir_object, dump, entry_doc, entry_docs, exported, head_members, preamble, with_member,
    ExportOptions,
};
use crate::json_import::{
    entry_count, entry_counts, import_outcome, info_dev, info_etype, info_ext, info_head,
    item_entries, item_entry, ImportFault,
};
use crate::json_value::{
    depth_limit, doc_members, doc_value, doc_values, field, flag_field, names, number_field,
    object_of, plain, readable, spells, text_field, JsonView,
};
use crate::model::{EType, EntryId, Ext, Tree};
use crate::num::{capped, capped32};
use crate::scan_parallel::{
    all_blocks, any_troubled, blocks, count, counts, recorded, recorded_all, troubled, well_typed,
    Find,
};
use crate::shape::{
    any_trouble_in, entry_size, entry_sizes, has_shape, shape_at, trouble_in, Detail, Entry, Head,
};

verus! {

/// The names of the members that describe an entry, in the order in which they
/// are written.
pub open spec fn keys() -> Seq<Seq<char>> {
    seq![
        "name"@,
        "read_error"@,
        "excluded"@,
        "asize"@,
        "dsize"@,
        "dev"@,
        "ino"@,
        "hlnkc"@,
        "nlink"@,
        "notreg"@,
        "uid"@,
        "gid"@,
        "mode"@,
        "mtime"@,
    ]
}

/// The place of a name among [`keys`].
pub open spec fn rank(key: Seq<char>) -> int {
    keys().index_of(key)
}

pub proof fn lemma_keys()
    ensures
        rank("name"@) == 0 && plain("name"@),
        rank("read_error"@) == 1 && plain("read_error"@),
        rank("excluded"@) == 2 && plain("excluded"@),
        rank("asize"@) == 3 && plain("asize"@),
        rank("dsize"@) == 4 && plain("dsize"@),
        rank("dev"@) == 5 && plain("dev"@),
        rank("ino"@) == 6 && plain("ino"@),
        rank("hlnkc"@) == 7 && plain("hlnkc"@),
        rank("nlink"@) == 8 && plain("nlink"@),
        rank("notreg"@) == 9 && plain("notreg"@),
        rank("uid"@) == 10 && plain("uid"@),
        rank("gid"@) == 11 && plain("gid"@),
        rank("mode"@) == 12 && plain("mode"@),
        rank("mtime"@) == 13 && plain("mtime"@),
{
    reveal_strlit("name");
    reveal_strlit("read_error");
    reveal_strlit("excluded");
    reveal_strlit("asize");
    reveal_strlit("dsize");
    reveal_strlit("dev");
    reveal_strlit("ino");
    reveal_strlit("hlnkc");
    reveal_strlit("nlink");
    reveal_strlit("notreg");
    reveal_strlit("uid");
    reveal_strlit("gid");
    reveal_strlit("mode");
    reveal_strlit("mtime");
    let k = keys();
    assert(k.len() == 14);
    assert(k[0][0] == 'n' && k[0].len() == 4);
    assert(k[1].len() == 10);
    assert(k[2].len() == 8);
    assert(k[3][0] == 'a' && k[3].len() == 5);
    assert(k[4][0] == 'd' && k[4].len() == 5);
    assert(k[5][0] == 'd' && k[5].len() == 3);
    assert(k[6][0] == 'i' && k[6].len() == 3);
    assert(k[7][0] == 'h' && k[7].len() == 5);
    assert(k[8][0] == 'n' && k[8].len() == 5);
    assert(k[9].len() == 6);
    assert(k[10][0] == 'u' && k[10].len() == 3);
    assert(k[11][0] == 'g' && k[11].len() == 3);
    assert(k[12][0] == 'm' && k[12].len() == 4);
    assert(k[13][0] == 'm' && k[13].len() == 5);
    assert(k.no_duplicates());
    assert forall|i: int| 0 <= i < 14 implies rank(#[trigger] k[i]) == i by {
        assert(k.contains(k[i]));
        assert(k[rank(k[i])] == k[i]);
    }
    assert(plain(k[0]) && plain(k[1]) && plain(k[2]) && plain(k[3]) && plain(k[4]));
    assert(plain(k[5]) && plain(k[6]) && plain(k[7]) && plain(k[8]) && plain(k[9]));
    assert(plain(k[10]) && plain(k[11]) && plain(k[12]) && plain(k[13]));
}

/// The members as the importer sees them.
spec fn seen(members: Seq<(Seq<char>, Doc)>) -> Map<Seq<char>, JsonView> {
    object_of(doc_members(members))
}

/// The members follow the JSON grammar, and none has a value with parts.
spec fn flat_object(members: Seq<(Seq<char>, Doc)>) -> bool {
    &&& names(members).no_duplicates()
    &&& forall|i: int|
        0 <= i < members.len() ==> {
            &&& seen(members).contains_key((#[trigger] members[i]).0)
            &&& plain(members[i].0)
            &&& readable(members[i].1, 0)
        }
}

proof fn lemma_scalar_readable(d: Doc, depth: nat)
    requires
        readable(d, 0),
    ensures
        readable(d, depth),
{
    match d {
        Doc::Array(_) => {},
        Doc::Object(_) => {},
        _ => {},
    }
}

proof fn lemma_flat_readable(members: Seq<(Seq<char>, Doc)>, depth: nat)
    requires
        flat_object(members),
        depth > 0,
    ensures
        readable(Doc::Object(members), depth),
{
    assert forall|i: int| 0 <= i < members.len() implies {
        &&& plain((#[trigger] members[i]).0)
        &&& readable(members[i].1, (depth - 1) as nat)
    } by {
        lemma_scalar_readable(members[i].1, (depth - 1) as nat);
    }
}

proof fn lemma_push(members: Seq<(Seq<char>, Doc)>, key: Seq<char>, d: Doc)
    requires
        flat_object(members),
        !seen(members).contains_key(key),
        plain(key),
        readable(d, 0),
    ensures
        flat_object(members.push((key, d))),
        seen(members.push((key, d))) == seen(members).insert(key, doc_value(d)),
{
    let more = members.push((key, d));
    assert(doc_members(more).drop_last() =~= doc_members(members));
    assert(doc_members(more).last() == (key, doc_value(d)));
    assert forall|i: int| 0 <= i < more.len() implies {
        &&& seen(more).contains_key((#[trigger] more[i]).0)
        &&& plain(more[i].0)
        &&& readable(more[i].1, 0)
    } by {
        if i < members.len() {
            assert(more[i] == members[i]);
        }
    }
    assert forall|i: int, j: int|
        0 <= i < more.len() && 0 <= j < more.len() && i != j implies names(more)[i]
        != names(more)[j] by {
        if i < members.len() && j < members.len() {
            assert(names(more)[i] == names(members)[i]);
            assert(names(more)[j] == names(members)[j]);
        } else if i < members.len() {
            assert(seen(members).contains_key(members[i].0));
        } else {
            assert(seen(members).contains_key(members[j].0));
        }
    }
}

proof fn lemma_with_member(members: Seq<(Seq<char>, Doc)>, present: bool, key: Seq<char>, d: Doc)
    requires
        flat_object(members),
        !seen(members).contains_key(key),
        plain(key),
        readable(d, 0),
    ensures
        flat_object(with_member(members, present, key, d)),
        seen(with_member(members, present, key, d)) == (if present {
            seen(members).insert(key, doc_value(d))
        } else {
            seen(members)
        }),
{
    if present {
        lemma_push(members, key, d);
    }
}

/// The value of a number that is there or not.
spec fn number_if(present: bool, n: u64) -> Option<u64> {
    if present {
        Some(n)
    } else {
        None
    }
}

/// What the importer sees of the extended metadata that an export writes.
spec fn ext_seen(o: Map<Seq<char>, JsonView>, ext: Option<Ext>) -> bool {
    &&& number_field(o, "uid"@) == match ext {
        Some(x) => match x.uid {
            Some(n) => Some(n as u64),
            None => None,
        },
        None => None,
    }
    &&& number_field(o, "gid"@) == match ext {
        Some(x) => match x.gid {
            Some(n) => Some(n as u64),
            None => None,
        },
        None => None,
    }
    &&& number_field(o, "mode"@) == match ext {
        Some(x) => match x.mode {
            Some(n) => Some(n as u64),
            None => None,
        },
        None => None,
    }
    &&& number_field(o, "mtime"@) == match ext {
        Some(x) => x.mtime,
        None => None,
    }
}

/// The extended metadata that an export writes.
spec fn exported_ext(ext: Option<Ext>, extended: bool) -> Option<Ext> {
    if extended {
        ext
    } else {
        None
    }
}

/// What the importer sees of the members that describe an entry.
spec fn head_seen(
    o: Map<Seq<char>, JsonView>,
    h: Head,
    parent_dev: u64,
    extended: bool,
) -> bool {
    let special = h.etype.is_special();
    &&& text_field(o, "name"@) == Some(h.name)
    &&& number_field(o, "asize"@) == number_if(!special && h.size > 0, h.size)
    &&& number_field(o, "dsize"@) == number_if(
        !special && h.blocks > 0,
        capped((h.blocks * 512) as nat),
    )
    &&& number_field(o, "dev"@) == match h.detail {
        Detail::Dir { dev, .. } => number_if(!special && dev != parent_dev, dev),
        _ => None,
    }
    &&& number_field(o, "ino"@) == match h.detail {
        Detail::Link { ino, .. } => number_if(!special, ino),
        _ => None,
    }
    &&& number_field(o, "nlink"@) == match h.detail {
        Detail::Link { nlink, .. } => number_if(!special, nlink as u64),
        _ => None,
    }
    &&& flag_field(o, "hlnkc"@) == (!special && h.detail is Link)
    &&& flag_field(o, "notreg"@) == (!special && h.detail is File && h.etype is NonReg)
    &&& flag_field(o, "read_error"@) == (h.etype is Error)
    &&& o.contains_key("read_error"@) == (h.etype is Error)
    &&& text_field(o, "excluded"@) == match h.etype {
        EType::OtherFs => Some("otherfs"@),
        EType::KernFs => Some("kernfs"@),
        EType::Pattern => Some("pattern"@),
        _ => None,
    }
    &&& ext_seen(
        o,
        if special {
            None
        } else {
            exported_ext(h.ext, extended)
        },
    )
}

proof fn lemma_reasons()
    ensures
        plain("otherfs"@),
        plain("kernfs"@),
        plain("pattern"@),
        "pattern"@ != "otherfs"@,
        "pattern"@ != "othfs"@,
        "pattern"@ != "kernfs"@,
        "kernfs"@ != "otherfs"@,
        "kernfs"@ != "othfs"@,
{
    reveal_strlit("otherfs");
    reveal_strlit("othfs");
    reveal_strlit("kernfs");
    reveal_strlit("pattern");
    assert("pattern"@[0] == 'p');
    assert("otherfs"@[0] == 'o');
    assert("kernfs"@[0] == 'k');
    assert("othfs"@[0] == 'o');
}

#[verifier::rlimit(40)]
proof fn lemma_head_seen(h: Head, parent_dev: u64, extended: bool)
    ensures
        flat_object(head_members(h, parent_dev, extended)),
        head_seen(seen(head_members(h, parent_dev, extended)), h, parent_dev, extended),
{
    reveal(head_members);
    lemma_keys();
    lemma_reasons();
    let m0 = Seq::<(Seq<char>, Doc)>::empty();
    assert(flat_object(m0));
    assert(seen(m0) =~= Map::empty());
    lemma_push(m0, "name"@, Doc::Text(h.name));
    let m1 = m0.push(("name"@, Doc::Text(h.name)));
    assert(m1 =~= seq![("name"@, Doc::Text(h.name))]);
    let o1 = seen(m1);
    match h.etype {
        EType::Error => {
            lemma_push(m1, "read_error"@, Doc::Bool(true));
        },
        EType::OtherFs => {
            lemma_push(m1, "excluded"@, Doc::Quoted("otherfs"@));
        },
        EType::KernFs => {
            lemma_push(m1, "excluded"@, Doc::Quoted("kernfs"@));
        },
        EType::Pattern => {
            lemma_push(m1, "excluded"@, Doc::Quoted("pattern"@));
        },
        _ => {
            let bytes = capped((h.blocks * 512) as nat);
            lemma_with_member(m1, h.size > 0, "asize"@, Doc::Number(h.size));
            let m2 = with_member(m1, h.size > 0, "asize"@, Doc::Number(h.size));
            lemma_with_member(m2, h.blocks > 0, "dsize"@, Doc::Number(bytes));
            let m3 = with_member(m2, h.blocks > 0, "dsize"@, Doc::Number(bytes));
            let m4 = match h.detail {
                Detail::Dir { dev, .. } => {
                    lemma_with_member(m3, dev != parent_dev, "dev"@, Doc::Number(dev));
                    with_member(m3, dev != parent_dev, "dev"@, Doc::Number(dev))
                },
                Detail::Link { ino, nlink } => {
                    let l1 = m3.push(("ino"@, Doc::Number(ino)));
                    let l2 = l1.push(("hlnkc"@, Doc::Bool(true)));
                    lemma_push(m3, "ino"@, Doc::Number(ino));
                    lemma_push(l1, "hlnkc"@, Doc::Bool(true));
                    lemma_push(l2, "nlink"@, Doc::Number(nlink as u64));
                    l2.push(("nlink"@, Doc::Number(nlink as u64)))
                },
                Detail::File => {
                    lemma_with_member(m3, h.etype is NonReg, "notreg"@, Doc::Bool(true));
                    with_member(m3, h.etype is NonReg, "notreg"@, Doc::Bool(true))
                },
            };
            lemma_ext_seen(m4, exported_ext(h.ext, extended));
        },
    }
}

/// The members with those for extended metadata.
spec fn ext_members(m: Seq<(Seq<char>, Doc)>, ext: Option<Ext>) -> Seq<(Seq<char>, Doc)> {
    match ext {
        Some(x) => {
            let m = match x.uid {
                Some(n) => m.push(("uid"@, Doc::Number(n as u64))),
                None => m,
            };
            let m = match x.gid {
                Some(n) => m.push(("gid"@, Doc::Number(n as u64))),
                None => m,
            };
            let m = match x.mode {
                Some(n) => m.push(("mode"@, Doc::Number(n as u64))),
                None => m,
            };
            match x.mtime {
                Some(n) => m.push(("mtime"@, Doc::Number(n))),
                None => m,
            }
        },
        None => m,
    }
}

proof fn lemma_ext_seen(m: Seq<(Seq<char>, Doc)>, ext: Option<Ext>)
    requires
        flat_object(m),
        !seen(m).contains_key("uid"@),
        !seen(m).contains_key("gid"@),
        !seen(m).contains_key("mode"@),
        !seen(m).contains_key("mtime"@),
    ensures
        flat_object(ext_members(m, ext)),
        ext_seen(seen(ext_members(m, ext)), ext),
        forall|key: Seq<char>|
            rank(key) < rank("uid"@) ==> #[trigger] field(seen(ext_members(m, ext)), key) == field(
                seen(m),
                key,
            ),
{
    lemma_keys();
    if let Some(x) = ext {
        let m1 = match x.uid {
            Some(n) => {
                lemma_push(m, "uid"@, Doc::Number(n as u64));
                m.push(("uid"@, Doc::Number(n as u64)))
            },
            None => m,
        };
        let m2 = match x.gid {
            Some(n) => {
                lemma_push(m1, "gid"@, Doc::Number(n as u64));
                m1.push(("gid"@, Doc::Number(n as u64)))
            },
            None => m1,
        };
        let m3 = match x.mode {
            Some(n) => {
                lemma_push(m2, "mode"@, Doc::Number(n as u64));
                m2.push(("mode"@, Doc::Number(n as u64)))
            },
            None => m2,
        };
        if let Some(n) = x.mtime {
            lemma_push(m3, "mtime"@, Doc::Number(n));
        }
    }
}

/// The entry has the data that goes with its type.
pub open spec fn well_kinded(h: Head) -> bool {
    match h.etype {
        EType::Dir => h.detail is Dir,
        EType::Link => h.detail is Link,
        _ => h.detail is File,
    }
}

/// Every entry has the data that goes with its type, only directories have
/// children, and the size on disk of every entry fits a `u64` in bytes.
pub open spec fn portable(e: Entry) -> bool
    decreases e,
{
    &&& well_kinded(e.head)
    &&& e.head.detail is Dir || e.children.len() == 0
    &&& e.head.etype.is_special() || e.head.blocks * 512 <= u64::MAX
    &&& forall|i: int| 0 <= i < e.children.len() ==> portable(#[trigger] e.children[i])
}

/// At most `depth` arrays and objects lie within each other in the text of the
/// entry.
pub open spec fn within(e: Entry, depth: nat) -> bool
    decreases e,
{
    &&& depth > 0
    &&& e.head.detail is Dir ==> {
        &&& depth > 1
        &&& forall|i: int|
            0 <= i < e.children.len() ==> within(#[trigger] e.children[i], (depth - 1) as nat)
    }
}

/// What a dump keeps of an entry: of a marker its name and type, and extended
/// metadata only where it was asked for. A directory counts what is below it
/// anew, and takes note of errors among that.
pub open spec fn restored_head(h: Head, items: u32, suberr: bool, extended: bool) -> Head {
    if h.etype.is_special() {
        Head { size: 0, blocks: 0, ext: None, ..h }
    } else {
        Head {
            ext: match h.ext {
                Some(x) if extended && !x.none() => Some(x),
                _ => None,
            },
            detail: match h.detail {
                Detail::Dir { dev, err, .. } => Detail::Dir { items, dev, err, suberr },
                d => d,
            },
            ..h
        }
    }
}

/// What a dump keeps of a subtree.
pub open spec fn restored(e: Entry, extended: bool) -> Entry
    decreases e,
{
    let children = restored_all(e.children, extended);
    Entry {
        head: restored_head(
            e.head,
            capped32(entry_sizes(children, children.len())),
            any_trouble_in(children, children.len()),
            extended,
        ),
        children,
    }
}

/// What a dump keeps of a list of subtrees.
pub open spec fn restored_all(children: Seq<Entry>, extended: bool) -> Seq<Entry>
    decreases children,
{
    Seq::new(
        children.len(),
        |i: int|
            if 0 <= i < children.len() {
                restored(children[i], extended)
            } else {
                arbitrary()
            },
    )
}

/// The object of a directory, as the importer sees it.
proof fn lemma_dir_seen(h: Head, parent_dev: u64, extended: bool)
    requires
        well_kinded(h),
        h.detail is Dir,
        h.blocks * 512 <= u64::MAX,
    ensures
        ({
            let d = dir_object(h, parent_dev, extended);
            let o = seen(d->Object_0);
            &&& doc_value(d) == JsonView::Object(o)
            &&& forall|depth: nat| depth > 0 ==> #[trigger] readable(d, depth)
            &&& text_field(o, "name"@) is Some
            &&& info_dev(o, parent_dev) == h.detail->dev
            &&& forall|items: u32, suberr: bool| #[trigger]
                info_head(o, true, parent_dev, items, suberr) == restored_head(
                    h,
                    items,
                    suberr,
                    extended,
                )
        }),
{
    let m = head_members(h, parent_dev, extended);
    lemma_head_seen(h, parent_dev, extended);
    lemma_keys();
    lemma_with_member(m, h.detail->err, "read_error"@, Doc::Bool(true));
    let d = dir_object(h, parent_dev, extended);
    let o = seen(d->Object_0);
    assert forall|depth: nat| depth > 0 implies #[trigger] readable(d, depth) by {
        lemma_flat_readable(d->Object_0, depth);
    }
    assert(text_field(o, "name"@) == Some(h.name));
    assert(number_field(o, "asize"@) == number_field(seen(m), "asize"@));
    assert(number_field(o, "dsize"@) == number_field(seen(m), "dsize"@));
    assert(number_field(o, "dev"@) == number_field(seen(m), "dev"@));
    assert(number_field(o, "uid"@) == number_field(seen(m), "uid"@));
    assert(number_field(o, "gid"@) == number_field(seen(m), "gid"@));
    assert(number_field(o, "mode"@) == number_field(seen(m), "mode"@));
    assert(number_field(o, "mtime"@) == number_field(seen(m), "mtime"@));
    assert(flag_field(o, "read_error"@) == h.detail->err);
    assert(info_ext(o) == restored_head(h, 0, false, extended).ext);
    assert forall|items: u32, suberr: bool| #[trigger]
        info_head(o, true, parent_dev, items, suberr) == restored_head(
            h,
            items,
            suberr,
            extended,
        ) by {
        reveal(info_head);
    }
}

/// The object of an entry that is no directory, as the importer sees it.
proof fn lemma_file_seen(h: Head, parent_dev: u64, extended: bool)
    requires
        well_kinded(h),
        !(h.detail is Dir),
        h.etype.is_special() || h.blocks * 512 <= u64::MAX,
    ensures
        ({
            let m = head_members(h, parent_dev, extended);
            let o = seen(m);
            &&& forall|depth: nat| depth > 0 ==> #[trigger] readable(Doc::Object(m), depth)
            &&& text_field(o, "name"@) is Some
            &&& info_head(o, false, parent_dev, 0, false) == restored_head(h, 0, false, extended)
        }),
{
    let m = head_members(h, parent_dev, extended);
    let o = seen(m);
    lemma_head_seen(h, parent_dev, extended);
    lemma_reasons();
    assert forall|depth: nat| depth > 0 implies #[trigger] readable(Doc::Object(m), depth) by {
        lemma_flat_readable(m, depth);
    }
    assert(info_etype(o, false) == h.etype);
    assert(info_ext(o) == restored_head(h, 0, false, extended).ext);
    reveal(info_head);
}

/// The text of an entry is read as what a dump keeps of the entry.
proof fn lemma_entry_read(e: Entry, parent_dev: u64, extended: bool, depth: nat)
    requires
        portable(e),
        within(e, depth),
    ensures
        readable(entry_doc(e, parent_dev, extended), depth),
        item_entry(doc_value(entry_doc(e, parent_dev, extended)), parent_dev) == Ok::<
            Entry,
            ImportFault,
        >(restored(e, extended)),
        entry_count(doc_value(entry_doc(e, parent_dev, extended))) == entry_size(e),
    decreases e,
{
    let doc = entry_doc(e, parent_dev, extended);
    if e.head.detail is Dir {
        let dev = e.head.detail->dev;
        let head = dir_object(e.head, parent_dev, extended);
        let kids = entry_docs(e.children, dev, extended);
        let docs = seq![head] + kids;
        let views = doc_values(docs);
        assert(doc == Doc::Array(docs));
        lemma_dir_seen(e.head, parent_dev, extended);
        assert(views[0] == doc_value(head));
        assert forall|i: int| 0 <= i < e.children.len() implies {
            &&& readable(#[trigger] kids[i], (depth - 1) as nat)
            &&& views[i + 1] == doc_value(kids[i])
            &&& item_entry(views[i + 1], dev) == Ok::<Entry, ImportFault>(
                restored(e.children[i], extended),
            )
            &&& entry_count(views[i + 1]) == entry_size(e.children[i])
        } by {
            assert(docs[i + 1] == kids[i]);
            assert(kids[i] == entry_doc(e.children[i], dev, extended));
            lemma_entry_read(e.children[i], dev, extended, (depth - 1) as nat);
        }
        assert forall|i: int| 0 <= i < docs.len() implies readable(
            #[trigger] docs[i],
            (depth - 1) as nat,
        ) by {
            if i > 0 {
                assert(docs[i] == kids[i - 1]);
            }
        }
        lemma_items_read(e.children, views, views.len(), dev, extended);
        assert(restored_all(e.children, extended).take(e.children.len() as int) =~= restored_all(
            e.children,
            extended,
        ));
    } else {
        lemma_file_seen(e.head, parent_dev, extended);
        assert(restored_all(e.children, extended) =~= Seq::<Entry>::empty());
    }
}

proof fn lemma_items_read(
    children: Seq<Entry>,
    views: Seq<JsonView>,
    n: nat,
    dev: u64,
    extended: bool,
)
    requires
        views.len() == children.len() + 1,
        1 <= n <= views.len(),
        forall|i: int|
            1 <= i < views.len() ==> {
                &&& item_entry(#[trigger] views[i], dev) == Ok::<Entry, ImportFault>(
                    restored(children[i - 1], extended),
                )
                &&& entry_count(views[i]) == entry_size(children[i - 1])
            },
    ensures
        item_entries(views, n, dev) == Ok::<Seq<Entry>, ImportFault>(
            restored_all(children, extended).take(n - 1),
        ),
        entry_counts(views, n) == entry_sizes(children, (n - 1) as nat),
    decreases n,
{
    let all = restored_all(children, extended);
    if n == 1 {
        assert(all.take(0) =~= Seq::<Entry>::empty());
    } else {
        lemma_items_read(children, views, (n - 1) as nat, dev, extended);
        assert(item_entry(views[n - 1], dev) == Ok::<Entry, ImportFault>(
            restored(children[n - 2], extended),
        ));
        assert(all.take(n - 1) =~= all.take(n - 2).push(all[n - 2]));
    }
}

/// What a dump keeps of an entry has the same text.
proof fn lemma_same_text(e: Entry, parent_dev: u64, extended: bool)
    requires
        portable(e),
    ensures
        entry_doc(restored(e, extended), parent_dev, extended) == entry_doc(
            e,
            parent_dev,
            extended,
        ),
    decreases e,
{
    let r = restored(e, extended);
    assert(head_members(r.head, parent_dev, extended) == head_members(
        e.head,
        parent_dev,
        extended,
    )) by {
        reveal(head_members);
    }
    if e.head.detail is Dir {
        let dev = e.head.detail->dev;
        assert forall|i: int| 0 <= i < e.children.len() implies entry_docs(
            r.children,
            dev,
            extended,
        )[i] == entry_docs(e.children, dev, extended)[i] by {
            lemma_same_text(e.children[i], dev, extended);
        }
        assert(entry_docs(r.children, dev, extended) =~= entry_docs(e.children, dev, extended));
    }
}

/// A dump can be read back. The import gives what a dump keeps of the tree,
/// and that has the same dump: exporting, importing and exporting again writes
/// the same text. It holds of every tree whose sizes on disk fit a `u64` in
/// bytes, down to the nesting that the JSON parser follows, and of every
/// program name and version that need no escapes.
pub proof fn dump_round_trip(
    e: Entry,
    name: Seq<char>,
    version: Seq<char>,
    timestamp: u64,
    extended: bool,
)
    requires
        portable(e),
        e.head.detail is Dir,
        within(e, (depth_limit() - 1) as nat),
        entry_size(e) <= u32::MAX,
        plain(name),
        plain(version),
    ensures
        ({
            let d = dump(Some(e), name, version, timestamp, extended);
            &&& readable(d, depth_limit())
            &&& import_outcome(doc_value(d)) == Ok::<Entry, ImportFault>(restored(e, extended))
            &&& dump(Some(restored(e, extended)), name, version, timestamp, extended) == d
        }),
{
    let d = dump(Some(e), name, version, timestamp, extended);
    let depth = (depth_limit() - 1) as nat;
    let top = entry_doc(e, u64::MAX, extended);
    let items = preamble(name, version, timestamp).push(top);
    let views = doc_values(items);
    lemma_entry_read(e, u64::MAX, extended, depth);
    lemma_same_text(e, u64::MAX, extended);
    lemma_preamble_readable(name, version, timestamp, depth);
    assert(items[3] == top);
    assert(views[3] == doc_value(top));
    assert(views[0] == doc_value(Doc::Number(1))) by {
        assert(items[0] == Doc::Number(1));
    }
    assert forall|i: int| 0 <= i < items.len() implies readable(#[trigger] items[i], depth) by {
        if i < 3 {
            assert(items[i] == preamble(name, version, timestamp)[i]);
        }
    }
}

proof fn lemma_preamble_readable(name: Seq<char>, version: Seq<char>, timestamp: u64, depth: nat)
    requires
        plain(name),
        plain(version),
        depth > 1,
    ensures
        forall|i: int|
            0 <= i < 3 ==> readable(#[trigger] preamble(name, version, timestamp)[i], depth),
{
    reveal_strlit("progname");
    reveal_strlit("progver");
    reveal_strlit("timestamp");
    let members = seq![
        ("progname"@, Doc::Quoted(name)),
        ("progver"@, Doc::Quoted(version)),
        ("timestamp"@, Doc::Number(timestamp)),
    ];
    assert("progname"@.len() == 8);
    assert("progver"@.len() == 7);
    assert("timestamp"@.len() == 9);
    assert(names(members)[0] == "progname"@);
    assert(names(members)[1] == "progver"@);
    assert(names(members)[2] == "timestamp"@);
    assert(names(members).no_duplicates());
    assert(plain("progname"@));
    assert(plain("progver"@));
    assert(plain("timestamp"@));
    assert(readable(members[0].1, (depth - 1) as nat));
    assert(readable(members[1].1, (depth - 1) as nat));
    assert(readable(members[2].1, (depth - 1) as nat));
    assert(readable(Doc::Object(members), depth));
}

/// Every tree that a scan records can be exported and read back, as long as
/// its size on disk fits a `u64` in bytes.
pub proof fn scanned_trees_are_portable(f: Find)
    requires
        well_typed(f),
        blocks(f) * 512 <= u64::MAX,
    ensures
        portable(recorded(f)),
    decreases f,
{
    if let Find::Dir { children, .. } = f {
        let e = recorded(f);
        assert forall|i: int| 0 <= i < e.children.len() implies portable(
            #[trigger] e.children[i],
        ) by {
            lemma_share(children, i, children.len());
            scanned_trees_are_portable(children[i]);
        }
    }
}

proof fn lemma_share(fs: Seq<Find>, i: int, n: nat)
    requires
        0 <= i < n <= fs.len(),
    ensures
        blocks(fs[i]) <= all_blocks(fs, n),
    decreases n,
{
    if i < n - 1 {
        lemma_share(fs, i, (n - 1) as nat);
    }
}

/// No file that was found has the type of a marker.
pub open spec fn files_are_unmarked(f: Find) -> bool
    decreases f,
{
    match f {
        Find::File { stat, .. } => !stat.etype.is_special(),
        Find::Special { .. } => true,
        Find::Dir { children, .. } => forall|i: int|
            0 <= i < children.len() ==> files_are_unmarked(#[trigger] children[i]),
    }
}

/// A dump with extended metadata keeps all that a scan records.
pub proof fn dumps_keep_scans(f: Find)
    requires
        well_typed(f),
        files_are_unmarked(f),
        count(f) <= u32::MAX,
    ensures
        restored(recorded(f), true) == recorded(f),
        entry_size(recorded(f)) == count(f),
        trouble_in(recorded(f)) == troubled(f),
    decreases f, 0nat,
{
    let e = recorded(f);
    if let Find::Dir { children, .. } = f {
        lemma_keep_all(children, children.len());
        assert forall|i: int| 0 <= i < children.len() implies restored(
            #[trigger] e.children[i],
            true,
        ) == e.children[i] by {
            assert(well_typed(children[i]) && files_are_unmarked(children[i]));
            lemma_count_member(children, i, children.len());
            dumps_keep_scans(children[i]);
        }
        assert(restored_all(e.children, true) =~= e.children);
    } else {
        assert(restored_all(e.children, true) =~= e.children);
    }
}

proof fn lemma_keep_all(fs: Seq<Find>, n: nat)
    requires
        n <= fs.len(),
        forall|i: int|
            0 <= i < fs.len() ==> well_typed(#[trigger] fs[i]) && files_are_unmarked(fs[i]),
        counts(fs, n) < u32::MAX,
    ensures
        entry_sizes(recorded_all(fs), n) == counts(fs, n),
        any_trouble_in(recorded_all(fs), n) == any_troubled(fs, n),
    decreases fs, n,
{
    if n > 0 {
        lemma_keep_all(fs, (n - 1) as nat);
        assert(well_typed(fs[n - 1]));
        dumps_keep_scans(fs[n - 1]);
    }
}

proof fn lemma_count_member(fs: Seq<Find>, i: int, n: nat)
    requires
        0 <= i < n <= fs.len(),
    ensures
        count(fs[i]) <= counts(fs, n),
    decreases n,
{
    if i < n - 1 {
        lemma_count_member(fs, i, (n - 1) as nat);
    }
}

/// What [`export_tree_at`] writes, [`import_tree`] reads: the bytes spell the
/// dump of the tree, so the import succeeds and gives what a dump keeps of it.
///
/// [`export_tree_at`]: crate::json_export::export_tree_at
/// [`import_tree`]: crate::json_import::import_tree
pub proof fn exports_can_be_imported(
    tree: &Tree,
    root: EntryId,
    timestamp: u64,
    written: Seq<u8>,
    opts: &ExportOptions,
)
    requires
        root != EntryId::none(),
        tree.has_entry(root),
        tree.nodes@[root.0 as int].kind is Dir,
        exported(tree, root, timestamp, Seq::empty(), written, opts, Ok(())),
        portable(tree.entry(root)),
        within(tree.entry(root), (depth_limit() - 1) as nat),
        entry_size(tree.entry(root)) <= u32::MAX,
        plain(opts.program_name@),
        plain(opts.program_version@),
    ensures
        ({
            let e = tree.entry(root);
            let d = dump(
                Some(e),
                opts.program_name@,
                opts.program_version@,
                timestamp,
                opts.extended,
            );
            &&& spells(written, d)
            &&& import_outcome(doc_value(d)) == Ok::<Entry, ImportFault>(
                restored(e, opts.extended),
            )
        }),
{
    let e = tree.entry(root);
    let name = opts.program_name@;
    let version = opts.program_version@;
    let d = dump(Some(e), name, version, timestamp, opts.extended);
    assert(e.head.detail is Dir) by {
        let s = shape_at(tree.nodes@, root);
        assert(has_shape(tree.nodes@, root));
    }
    dump_round_trip(e, name, version, timestamp, opts.extended);
    assert(written =~= doc_text(d) + seq![0x0au8]);
}

} // verus!
