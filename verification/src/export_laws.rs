//! What an export writes of a tree.

use vstd::prelude::*;
use vstd::utf8::encode_utf8;

use crate::json::{
    doc_text, escape, escaped, items_text, lemma_items_push, lemma_members_push, Doc,
};
use crate::json_export::{
    dump, entry_doc, exported, head_members, with_member, ExportError, ExportOptions,
};
use crate::json_value::char_notation;
use crate::model::{EType, EntryId, Ext, Tree};
use crate::num::capped;
use crate::round_trip::{keys, lemma_keys, rank};
use crate::shape::{Detail, Entry, Head};
use crate::text::decimal;

verus! {

/// The value of the last member of that name.
pub open spec fn told(m: Seq<(Seq<char>, Doc)>, key: Seq<char>) -> Option<Doc>
    decreases m.len(),
{
    if m.len() == 0 {
        None
    } else if m.last().0 == key {
        Some(m.last().1)
    } else {
        told(m.drop_last(), key)
    }
}

/// The entry stands for something that the scan left out.
pub open spec fn left_out(h: Head) -> bool {
    h.etype == EType::Error || h.etype == EType::OtherFs || h.etype == EType::KernFs || h.etype
        == EType::Pattern
}

/// The value, where there is one to write.
pub open spec fn number_if(there: bool, n: int) -> Option<Doc> {
    if there {
        Some(Doc::Number(n as u64))
    } else {
        None
    }
}

pub open spec fn true_if(there: bool) -> Option<Doc> {
    if there {
        Some(Doc::Bool(true))
    } else {
        None
    }
}

/// No name comes before one of lower rank, and all ranks are below `r`.
spec fn ranked(m: Seq<(Seq<char>, Doc)>, r: int) -> bool {
    &&& forall|i: int| 0 <= i < m.len() ==> 0 <= rank((#[trigger] m[i]).0) < r
    &&& forall|i: int, j: int|
        0 <= i < j < m.len() ==> rank((#[trigger] m[i]).0) < rank((#[trigger] m[j]).0)
}

proof fn lemma_told_push(m: Seq<(Seq<char>, Doc)>, key: Seq<char>, d: Doc, r: int)
    requires
        ranked(m, r),
        r <= rank(key),
        0 <= rank(key),
    ensures
        told(m.push((key, d)), key) == Some(d),
        forall|other: Seq<char>|
            other != key ==> #[trigger] told(m.push((key, d)), other) == told(m, other),
        ranked(m.push((key, d)), rank(key) + 1),
{
    let more = m.push((key, d));
    assert(more.drop_last() =~= m);
    assert forall|i: int| 0 <= i < more.len() implies 0 <= rank((#[trigger] more[i]).0) < rank(key)
        + 1 by {
        if i < m.len() {
            assert(more[i] == m[i]);
        }
    }
    assert forall|i: int, j: int| 0 <= i < j < more.len() implies rank((#[trigger] more[i]).0)
        < rank((#[trigger] more[j]).0) by {
        assert(more[i] == m[i]);
        if j < m.len() {
            assert(more[j] == m[j]);
        }
    }
}

proof fn lemma_told_with(m: Seq<(Seq<char>, Doc)>, there: bool, key: Seq<char>, d: Doc, r: int)
    requires
        ranked(m, r),
        r <= rank(key),
        0 <= rank(key),
        told(m, key) is None,
    ensures
        told(with_member(m, there, key, d), key) == (if there {
            Some(d)
        } else {
            None
        }),
        forall|other: Seq<char>|
            other != key ==> #[trigger] told(with_member(m, there, key, d), other) == told(
                m,
                other,
            ),
        ranked(with_member(m, there, key, d), rank(key) + 1),
{
    if there {
        lemma_told_push(m, key, d, r);
    } else {
        assert forall|i: int| 0 <= i < m.len() implies 0 <= rank((#[trigger] m[i]).0) < rank(key)
            + 1 by {}
    }
}

proof fn lemma_wider(m: Seq<(Seq<char>, Doc)>, r: int, s: int)
    requires
        ranked(m, r),
        r <= s,
    ensures
        ranked(m, s),
{
}

proof fn lemma_untold(m: Seq<(Seq<char>, Doc)>, key: Seq<char>, r: int)
    requires
        ranked(m, r),
        r <= rank(key),
    ensures
        told(m, key) is None,
    decreases m.len(),
{
    if m.len() > 0 {
        assert(rank(m[m.len() - 1].0) < r);
        let front = m.drop_last();
        assert forall|i: int| 0 <= i < front.len() implies 0 <= rank((#[trigger] front[i]).0)
            < r by {
            assert(front[i] == m[i]);
        }
        assert forall|i: int, j: int| 0 <= i < j < front.len() implies rank(
            (#[trigger] front[i]).0,
        ) < rank((#[trigger] front[j]).0) by {
            assert(front[i] == m[i] && front[j] == m[j]);
        }
        lemma_untold(front, key, r);
    }
}

/// What the object of an entry says of it. An entry that the scan left out says
/// its name and why. Any other says its name, its apparent size and its size on
/// disk in bytes where there is any, a directory its device where it is another
/// than that of the directory above, a hardlink its inode and the number of its
/// links, and what is no regular file that it is none. Extended metadata is
/// written where it was asked for, as far as it is known.
#[verifier::rlimit(30)]
pub proof fn objects_say_what_entries_hold(h: Head, above: u64, extended: bool)
    ensures
        ({
            let m = head_members(h, above, extended);
            let full = !left_out(h);
            let on_disk: int = if h.blocks * 512 <= u64::MAX {
                h.blocks * 512
            } else {
                u64::MAX as int
            };
            &&& told(m, "name"@) == Some(Doc::Text(h.name))
            &&& told(m, "read_error"@) == true_if(h.etype == EType::Error)
            &&& h.etype == EType::OtherFs ==> told(m, "excluded"@) == Some(Doc::Quoted("otherfs"@))
            &&& h.etype == EType::KernFs ==> told(m, "excluded"@) == Some(Doc::Quoted("kernfs"@))
            &&& h.etype == EType::Pattern ==> told(m, "excluded"@) == Some(Doc::Quoted("pattern"@))
            &&& full || h.etype == EType::Error ==> told(m, "excluded"@) is None
            &&& told(m, "asize"@) == number_if(full && h.size > 0, h.size as int)
            &&& told(m, "dsize"@) == number_if(full && h.blocks > 0, on_disk)
            &&& told(m, "dev"@) == number_if(
                full && h.detail is Dir && h.detail->dev != above,
                h.detail->dev as int,
            )
            &&& told(m, "ino"@) == number_if(full && h.detail is Link, h.detail->ino as int)
            &&& told(m, "hlnkc"@) == true_if(full && h.detail is Link)
            &&& told(m, "nlink"@) == number_if(full && h.detail is Link, h.detail->nlink as int)
            &&& told(m, "notreg"@) == true_if(
                full && h.detail is File && h.etype == EType::NonReg,
            )
            &&& told(m, "uid"@) == number_if(
                full && extended && h.ext is Some && h.ext->0.uid is Some,
                h.ext->0.uid->0 as int,
            )
            &&& told(m, "gid"@) == number_if(
                full && extended && h.ext is Some && h.ext->0.gid is Some,
                h.ext->0.gid->0 as int,
            )
            &&& told(m, "mode"@) == number_if(
                full && extended && h.ext is Some && h.ext->0.mode is Some,
                h.ext->0.mode->0 as int,
            )
            &&& told(m, "mtime"@) == number_if(
                full && extended && h.ext is Some && h.ext->0.mtime is Some,
                h.ext->0.mtime->0 as int,
            )
        }),
        forall|i: int|
            0 <= i < head_members(h, above, extended).len() ==> 0 <= rank(
                (#[trigger] head_members(h, above, extended)[i]).0,
            ) < 14,
        forall|i: int, j: int|
            0 <= i < j < head_members(h, above, extended).len() ==> rank(
                (#[trigger] head_members(h, above, extended)[i]).0,
            ) < rank((#[trigger] head_members(h, above, extended)[j]).0),
{
    reveal(head_members);
    lemma_keys();
    lemma_name_told(h.name);
    let m1 = named(h.name);
    match h.etype {
        EType::Error => {
            lemma_told_push(m1, "read_error"@, Doc::Bool(true), 1);
        },
        EType::OtherFs => {
            lemma_told_push(m1, "excluded"@, Doc::Quoted("otherfs"@), 1);
        },
        EType::KernFs => {
            lemma_told_push(m1, "excluded"@, Doc::Quoted("kernfs"@), 1);
        },
        EType::Pattern => {
            lemma_told_push(m1, "excluded"@, Doc::Quoted("pattern"@), 1);
        },
        _ => {
            lemma_sizes_told(h);
            lemma_kind_told(h, above);
            let m = with_kind(h, above);
            if extended && h.ext is Some {
                lemma_ext_told(m, h.ext->0);
                assert(head_members(h, above, extended) == with_ext(m, h.ext->0));
            } else {
                lemma_untold(m, "uid"@, 10);
                lemma_untold(m, "gid"@, 10);
                lemma_untold(m, "mode"@, 10);
                lemma_untold(m, "mtime"@, 10);
                lemma_wider(m, 10, 14);
                assert(head_members(h, above, extended) == m);
            }
        },
    }
}

/// The members with the name alone.
spec fn named(name: Seq<char>) -> Seq<(Seq<char>, Doc)> {
    seq![("name"@, Doc::Text(name))]
}

proof fn lemma_name_told(name: Seq<char>)
    ensures
        told(named(name), "name"@) == Some(Doc::Text(name)),
        forall|key: Seq<char>| key != "name"@ ==> #[trigger] told(named(name), key) is None,
        ranked(named(name), 1),
{
    lemma_keys();
    let m0 = Seq::<(Seq<char>, Doc)>::empty();
    lemma_told_push(m0, "name"@, Doc::Text(name), 0);
    assert(m0.push(("name"@, Doc::Text(name))) =~= named(name));
    assert forall|key: Seq<char>| key != "name"@ implies (#[trigger] told(
        named(name),
        key,
    )) is None by {
        assert(told(m0, key) is None);
    }
}

/// The members with the name and the sizes.
spec fn with_sizes(h: Head) -> Seq<(Seq<char>, Doc)> {
    let m = with_member(named(h.name), h.size > 0, "asize"@, Doc::Number(h.size));
    with_member(m, h.blocks > 0, "dsize"@, Doc::Number(capped((h.blocks * 512) as nat)))
}

proof fn lemma_sizes_told(h: Head)
    ensures
        told(with_sizes(h), "name"@) == Some(Doc::Text(h.name)),
        told(with_sizes(h), "read_error"@) is None,
        told(with_sizes(h), "excluded"@) is None,
        told(with_sizes(h), "asize"@) == number_if(h.size > 0, h.size as int),
        told(with_sizes(h), "dsize"@) == number_if(
            h.blocks > 0,
            capped((h.blocks * 512) as nat) as int,
        ),
        ranked(with_sizes(h), 5),
{
    lemma_keys();
    lemma_name_told(h.name);
    let m1 = named(h.name);
    lemma_told_with(m1, h.size > 0, "asize"@, Doc::Number(h.size), 1);
    let m2 = with_member(m1, h.size > 0, "asize"@, Doc::Number(h.size));
    let bytes = capped((h.blocks * 512) as nat);
    lemma_told_with(m2, h.blocks > 0, "dsize"@, Doc::Number(bytes), 4);
}

/// The members with all but the extended metadata.
spec fn with_kind(h: Head, above: u64) -> Seq<(Seq<char>, Doc)> {
    let m = with_sizes(h);
    match h.detail {
        Detail::Dir { dev, .. } => with_member(m, dev != above, "dev"@, Doc::Number(dev)),
        Detail::Link { ino, nlink } => m.push(("ino"@, Doc::Number(ino))).push(
            ("hlnkc"@, Doc::Bool(true)),
        ).push(("nlink"@, Doc::Number(nlink as u64))),
        Detail::File => with_member(m, h.etype is NonReg, "notreg"@, Doc::Bool(true)),
    }
}

proof fn lemma_kind_told(h: Head, above: u64)
    ensures
        ({
            let m = with_kind(h, above);
            &&& told(m, "dev"@) == number_if(
                h.detail is Dir && h.detail->dev != above,
                h.detail->dev as int,
            )
            &&& told(m, "ino"@) == number_if(h.detail is Link, h.detail->ino as int)
            &&& told(m, "hlnkc"@) == true_if(h.detail is Link)
            &&& told(m, "nlink"@) == number_if(h.detail is Link, h.detail->nlink as int)
            &&& told(m, "notreg"@) == true_if(h.detail is File && h.etype is NonReg)
            &&& told(m, "name"@) == told(with_sizes(h), "name"@)
            &&& told(m, "read_error"@) == told(with_sizes(h), "read_error"@)
            &&& told(m, "excluded"@) == told(with_sizes(h), "excluded"@)
            &&& told(m, "asize"@) == told(with_sizes(h), "asize"@)
            &&& told(m, "dsize"@) == told(with_sizes(h), "dsize"@)
            &&& ranked(m, 10)
        }),
{
    lemma_keys();
    lemma_sizes_told(h);
    let m = with_sizes(h);
    lemma_untold(m, "dev"@, 5);
    lemma_untold(m, "ino"@, 5);
    lemma_untold(m, "hlnkc"@, 5);
    lemma_untold(m, "nlink"@, 5);
    lemma_untold(m, "notreg"@, 5);
    match h.detail {
        Detail::Dir { dev, .. } => {
            lemma_told_with(m, dev != above, "dev"@, Doc::Number(dev), 5);
            lemma_wider(with_kind(h, above), 6, 10);
        },
        Detail::Link { ino, nlink } => {
            let l1 = m.push(("ino"@, Doc::Number(ino)));
            let l2 = l1.push(("hlnkc"@, Doc::Bool(true)));
            lemma_told_push(m, "ino"@, Doc::Number(ino), 5);
            lemma_told_push(l1, "hlnkc"@, Doc::Bool(true), 7);
            lemma_told_push(l2, "nlink"@, Doc::Number(nlink as u64), 8);
            lemma_wider(with_kind(h, above), 9, 10);
        },
        Detail::File => {
            lemma_told_with(m, h.etype is NonReg, "notreg"@, Doc::Bool(true), 5);
        },
    }
}

spec fn number_pushed(m: Seq<(Seq<char>, Doc)>, key: Seq<char>, n: Option<u64>) -> Seq<
    (Seq<char>, Doc),
> {
    match n {
        Some(n) => m.push((key, Doc::Number(n))),
        None => m,
    }
}

proof fn lemma_number_pushed(m: Seq<(Seq<char>, Doc)>, key: Seq<char>, n: Option<u64>, r: int)
    requires
        ranked(m, r),
        r <= rank(key),
        0 <= rank(key),
    ensures
        told(number_pushed(m, key, n), key) == number_if(n is Some, n->0 as int),
        forall|other: Seq<char>|
            other != key ==> #[trigger] told(number_pushed(m, key, n), other) == told(m, other),
        ranked(number_pushed(m, key, n), rank(key) + 1),
{
    lemma_untold(m, key, r);
    match n {
        Some(n) => {
            lemma_told_push(m, key, Doc::Number(n), r);
        },
        None => {
            lemma_wider(m, r, rank(key) + 1);
        },
    }
}

spec fn wide32(n: Option<u32>) -> Option<u64> {
    match n {
        Some(n) => Some(n as u64),
        None => None,
    }
}

spec fn wide16(n: Option<u16>) -> Option<u64> {
    match n {
        Some(n) => Some(n as u64),
        None => None,
    }
}

/// The members with those for extended metadata.
spec fn with_ext(m: Seq<(Seq<char>, Doc)>, x: Ext) -> Seq<(Seq<char>, Doc)> {
    let m1 = number_pushed(m, "uid"@, wide32(x.uid));
    let m2 = number_pushed(m1, "gid"@, wide32(x.gid));
    let m3 = number_pushed(m2, "mode"@, wide16(x.mode));
    number_pushed(m3, "mtime"@, x.mtime)
}

proof fn lemma_ext_told(m: Seq<(Seq<char>, Doc)>, x: Ext)
    requires
        ranked(m, 10),
    ensures
        told(with_ext(m, x), "uid"@) == number_if(x.uid is Some, x.uid->0 as int),
        told(with_ext(m, x), "gid"@) == number_if(x.gid is Some, x.gid->0 as int),
        told(with_ext(m, x), "mode"@) == number_if(x.mode is Some, x.mode->0 as int),
        told(with_ext(m, x), "mtime"@) == number_if(x.mtime is Some, x.mtime->0 as int),
        forall|other: Seq<char>|
            other != "uid"@ && other != "gid"@ && other != "mode"@ && other != "mtime"@
                ==> #[trigger] told(with_ext(m, x), other) == told(m, other),
        ranked(with_ext(m, x), 14),
{
    lemma_keys();
    let m1 = number_pushed(m, "uid"@, wide32(x.uid));
    let m2 = number_pushed(m1, "gid"@, wide32(x.gid));
    let m3 = number_pushed(m2, "mode"@, wide16(x.mode));
    lemma_number_pushed(m, "uid"@, wide32(x.uid), 10);
    lemma_number_pushed(m1, "gid"@, wide32(x.gid), 11);
    lemma_number_pushed(m2, "mode"@, wide16(x.mode), 12);
    lemma_number_pushed(m3, "mtime"@, x.mtime, 13);
}

/// The order in which members are written.
pub proof fn members_have_a_fixed_order()
    ensures
        rank("name"@) == 0,
        rank("read_error"@) == 1,
        rank("excluded"@) == 2,
        rank("asize"@) == 3,
        rank("dsize"@) == 4,
        rank("dev"@) == 5,
        rank("ino"@) == 6,
        rank("hlnkc"@) == 7,
        rank("nlink"@) == 8,
        rank("notreg"@) == 9,
        rank("uid"@) == 10,
        rank("gid"@) == 11,
        rank("mode"@) == 12,
        rank("mtime"@) == 13,
        keys().len() == 14,
{
    lemma_keys();
}

/// A directory is written as an array of the object that describes it, with a
/// note at its end if the directory could not be read, and of its children in
/// their order. Anything else is written as an object.
pub proof fn directories_are_written_with_their_children(e: Entry, above: u64, extended: bool)
    ensures
        ({
            let d = entry_doc(e, above, extended);
            let m = head_members(e.head, above, extended);
            &&& !(e.head.detail is Dir) ==> d == Doc::Object(m)
            &&& e.head.detail is Dir ==> {
                &&& d is Array
                &&& d->Array_0.len() == 1 + e.children.len()
                &&& e.head.detail->err ==> d->Array_0[0] == Doc::Object(
                    m.push(("read_error"@, Doc::Bool(true))),
                )
                &&& !e.head.detail->err ==> d->Array_0[0] == Doc::Object(m)
                &&& forall|i: int|
                    0 <= i < e.children.len() ==> d->Array_0[i + 1] == entry_doc(
                        #[trigger] e.children[i],
                        e.head.detail->dev,
                        extended,
                    )
            }
        }),
{
}

/// A dump is an array of the two numbers of the format's version, of what
/// the program says of itself and of the tree. The tree states the device of its
/// root.
pub proof fn dumps_have_four_parts(
    root: Option<Entry>,
    name: Seq<char>,
    version: Seq<char>,
    timestamp: u64,
    extended: bool,
)
    ensures
        ({
            let d = dump(root, name, version, timestamp, extended);
            let items = d->Array_0;
            let about = items[2]->Object_0;
            &&& d is Array
            &&& items.len() == (if root is Some {
                4int
            } else {
                3
            })
            &&& items[0] == Doc::Number(1)
            &&& items[1] == Doc::Number(2)
            &&& items[2] is Object
            &&& about.len() == 3
            &&& about[0] == ("progname"@, Doc::Quoted(name))
            &&& about[1] == ("progver"@, Doc::Quoted(version))
            &&& about[2] == ("timestamp"@, Doc::Number(timestamp))
            &&& root matches Some(e) ==> items[3] == entry_doc(e, u64::MAX, extended)
        }),
{
}

/// An export appends to what is there, in any case, ends in a line break, and
/// succeeds exactly for a directory or for no tree at all.
pub proof fn exports_append(
    tree: &Tree,
    root: EntryId,
    timestamp: u64,
    before: Seq<u8>,
    after: Seq<u8>,
    opts: &ExportOptions,
    r: Result<(), ExportError>,
)
    requires
        exported(tree, root, timestamp, before, after, opts, r),
    ensures
        before.is_prefix_of(after),
        r is Ok <==> root == EntryId::none() || tree.nodes@[root.0 as int].kind is Dir,
        r is Ok ==> after.len() > before.len() && after.last() == 0x0a,
        r is Ok ==> after == before + doc_text(
            dump(
                if root == EntryId::none() {
                    None
                } else {
                    Some(tree.entry(root))
                },
                opts.program_name@,
                opts.program_version@,
                timestamp,
                opts.extended,
            ),
        ) + seq![0x0au8],
{
    assert(before =~= after.take(before.len() as int));
}

/// Numbers are written in decimal, truth values as words, and strings between
/// quotes.
pub proof fn scalars_are_written_as_json(n: u64, s: Seq<char>)
    ensures
        doc_text(Doc::Number(n)) == encode_utf8(decimal(n as nat)),
        doc_text(Doc::Bool(true)) == encode_utf8("true"@),
        doc_text(Doc::Bool(false)) == encode_utf8("false"@),
        doc_text(Doc::Quoted(s)) == seq![0x22u8] + encode_utf8(s) + seq![0x22u8],
        doc_text(Doc::Text(s)) == seq![0x22u8] + escaped(encode_utf8(s)) + seq![0x22u8],
{
}

/// The items of an array stand between brackets, with a comma between any two,
/// and a line break behind the comma where the item before it has parts.
pub proof fn arrays_are_written_item_by_item(items: Seq<Doc>, d: Doc)
    ensures
        doc_text(Doc::Array(Seq::empty())) == seq![0x5bu8, 0x5d],
        doc_text(Doc::Array(seq![d])) == seq![0x5bu8] + doc_text(d) + seq![0x5du8],
        items.len() > 0 ==> doc_text(Doc::Array(items.push(d))) == doc_text(
            Doc::Array(items),
        ).drop_last() + (if items.last() is Array || items.last() is Object {
            seq![0x2cu8, 0x0a]
        } else {
            seq![0x2cu8]
        }) + doc_text(d) + seq![0x5du8],
{
    lemma_items_push(Seq::empty(), d);
    assert(Seq::<Doc>::empty().push(d) =~= seq![d]);
    assert(doc_text(Doc::Array(Seq::empty())) =~= seq![0x5bu8, 0x5d]);
    if items.len() > 0 {
        lemma_items_push(items, d);
        let before = doc_text(Doc::Array(items));
        assert(before.drop_last() =~= seq![0x5bu8] + items_text(items));
        assert(doc_text(Doc::Array(items.push(d))) =~= before.drop_last() + (if items.last()
            is Array || items.last() is Object {
            seq![0x2cu8, 0x0a]
        } else {
            seq![0x2cu8]
        }) + doc_text(d) + seq![0x5du8]);
    }
}

/// The members of an object stand between braces, each with its name between
/// quotes and a colon, and with a comma between any two.
pub proof fn objects_are_written_member_by_member(
    members: Seq<(Seq<char>, Doc)>,
    key: Seq<char>,
    d: Doc,
)
    ensures
        doc_text(Doc::Object(Seq::empty())) == seq![0x7bu8, 0x7d],
        doc_text(Doc::Object(members.push((key, d)))) == doc_text(
            Doc::Object(members),
        ).drop_last() + (if members.len() > 0 {
            seq![0x2cu8]
        } else {
            seq![]
        }) + seq![0x22u8] + encode_utf8(key) + seq![0x22u8, 0x3a] + doc_text(d) + seq![0x7du8],
{
    lemma_members_push(members, key, d);
    assert(doc_text(Doc::Object(Seq::empty())) =~= seq![0x7bu8, 0x7d]);
    let before = doc_text(Doc::Object(members));
    assert(before.drop_last() =~= seq![0x7bu8] + crate::json::members_text(members));
    assert(doc_text(Doc::Object(members.push((key, d)))) =~= before.drop_last() + (if members.len()
        > 0 {
        seq![0x2cu8]
    } else {
        seq![]
    }) + seq![0x22u8] + encode_utf8(key) + seq![0x22u8, 0x3a] + doc_text(d) + seq![0x7du8]);
}

/// A string is escaped byte by byte, as any JSON writer does it: an ASCII
/// character is written as `serde_json` writes it, but for the delete character,
/// which is escaped too, and other bytes stay as they are.
pub proof fn bytes_are_escaped_as_in_json(bytes: Seq<u8>, b: u8)
    ensures
        escaped(Seq::<u8>::empty()).len() == 0,
        escaped(bytes.push(b)) == escaped(bytes) + escape(b),
        b >= 0x80 ==> escape(b) == seq![b],
        b == 0x7f ==> escape(b) == seq![0x5cu8, 0x75, 0x30, 0x30, 0x37, 0x66],
        b < 0x7f ==> escape(b).len() == char_notation(b as char).len(),
        b < 0x7f ==> forall|i: int|
            0 <= i < escape(b).len() ==> (#[trigger] escape(b)[i]) as char == char_notation(
                b as char,
            )[i],
        0x20 <= b < 0x7f && b != 0x22 && b != 0x5c ==> escape(b) == seq![b],
        b == 0x22 || b == 0x5c ==> escape(b) == seq![0x5cu8, b],
{
    assert(bytes.push(b).drop_last() =~= bytes);
    if b < 0x7f {
        let s = escape(b);
        let c = char_notation(b as char);
        assert forall|i: int| 0 <= i < s.len() implies (#[trigger] s[i]) as char == c[i] by {
            if b < 0x20 && s.len() == 6 {
                assert(i == 0 || i == 1 || i == 2 || i == 3 || i == 4 || i == 5);
            }
        }
    }
}

} // verus!
