//! What an import makes of a dump.

use vstd::prelude::*;

use crate::json_import::{
    entry_count, entry_counts, fault_text, import_of, import_outcome, info_dev, info_etype,
    info_ext, info_head, item_entries, item_entry, outcome, ImportError, ImportFault,
};
use crate::json_value::{
    field, flag_field, json_items, json_members, number_field, object_of, scalar_notation,
    text_field, Json, JsonView,
};
use crate::model::{EType, Node, NodeKind, Tree};
use crate::num::capped32;
use crate::shape::{
    any_trouble_in, entry_of, entry_size, entry_sizes, head_of, lemma_entries_push, shape_at,
    Entry, Head, Shape,
};
use crate::text::decimal;

verus! {

/// The minor version and the metadata are ignored, and so is what follows the
/// root: two dumps with the same major version and the same root give the same
/// outcome.
pub proof fn minor_version_and_metadata_are_ignored(a: Seq<JsonView>, b: Seq<JsonView>)
    requires
        a.len() >= 4,
        b.len() >= 4,
        a[0] == b[0],
        a[3] == b[3],
    ensures
        import_outcome(JsonView::Array(a)) == import_outcome(JsonView::Array(b)),
{
}

/// A dump of major version 1 is read whatever else it says of itself: the
/// outcome is that of its root. A dump of any other version is refused.
pub proof fn dumps_of_version_one_are_read(items: Seq<JsonView>, version: u64, notation: Seq<char>)
    requires
        items.len() >= 4,
        items[0] == JsonView::Number(Some(version), notation),
    ensures
        version == 1 && entry_count(items[3]) <= u32::MAX ==> import_outcome(JsonView::Array(items))
            == item_entry(items[3], u64::MAX),
        version == 1 && entry_count(items[3]) > u32::MAX ==> import_outcome(JsonView::Array(items))
            == Err::<Entry, ImportFault>(ImportFault::TooManyEntries),
        version != 1 ==> import_outcome(JsonView::Array(items)) == Err::<Entry, ImportFault>(
            ImportFault::WrongMajor(version),
        ),
{
}

/// What is no dump at all is refused: anything but an array, an array that
/// lacks a part, and one whose first item is no unsigned number.
pub proof fn other_values_are_refused(v: JsonView)
    ensures
        !(v is Array) ==> import_outcome(v) == Err::<Entry, ImportFault>(ImportFault::NotAnArray),
        v matches JsonView::Array(items) ==> {
            &&& items.len() < 4 ==> import_outcome(v) == Err::<Entry, ImportFault>(
                ImportFault::TooFewElements(items.len() as u64),
            )
            &&& items.len() >= 4 && !(items[0] is Number && items[0]->Number_0 is Some)
                ==> import_outcome(v) == Err::<Entry, ImportFault>(ImportFault::MajorNotANumber)
        },
{
}

/// A text that is no JSON is refused with what the parser says, and any other
/// is imported for the value that it stands for.
pub proof fn imports_follow_the_parser(message: Seq<char>, v: JsonView)
    ensures
        import_of(Err(message)) == Err::<Entry, ImportFault>(ImportFault::Syntax(message)),
        import_of(Ok(v)) == import_outcome(v),
{
}

/// An import returns the tree below its root, or the fault.
pub proof fn imports_return_tree_or_fault(tree: Tree, e: ImportError)
    ensures
        outcome(Ok(tree)) == Ok::<Entry, ImportFault>(
            entry_of(tree.nodes@, tree.devices@, shape_at(tree.nodes@, tree.root)),
        ),
        outcome(Err(e)) == Err::<Entry, ImportFault>(e@),
        e matches ImportError::Syntax(s) ==> e@ == ImportFault::Syntax(s@),
        e is NotAnArray ==> e@ is NotAnArray,
        e matches ImportError::TooFewElements(n) ==> e@ == ImportFault::TooFewElements(n),
        e is MajorNotANumber ==> e@ is MajorNotANumber,
        e matches ImportError::WrongMajor(n) ==> e@ == ImportFault::WrongMajor(n),
        e is TooManyEntries ==> e@ is TooManyEntries,
        e is EmptyArray ==> e@ is EmptyArray,
        e is InfoNotAnObject ==> e@ is InfoNotAnObject,
        e matches ImportError::NotAnEntry(s) ==> e@ == ImportFault::NotAnEntry(s@),
        e is MissingName ==> e@ is MissingName,
{
}

/// The member is there and is a string.
pub open spec fn says_text(m: Map<Seq<char>, JsonView>, key: Seq<char>) -> bool {
    m.contains_key(key) && m[key] is Text
}

/// The member is there and is an unsigned number.
pub open spec fn says_number(m: Map<Seq<char>, JsonView>, key: Seq<char>) -> bool {
    m.contains_key(key) && m[key] is Number && m[key]->Number_0 is Some
}

/// The number of a member, or zero.
pub open spec fn number_in(m: Map<Seq<char>, JsonView>, key: Seq<char>) -> u64 {
    if says_number(m, key) {
        m[key]->Number_0->0
    } else {
        0
    }
}

/// The member is there and is `true`.
pub open spec fn says_true(m: Map<Seq<char>, JsonView>, key: Seq<char>) -> bool {
    m.contains_key(key) && m[key] == JsonView::Bool(true)
}

/// Entries that cannot be read: what is neither an array nor an object, an
/// array with nothing in it or with something else than an object in front, and
/// an object without a name.
pub proof fn broken_entries_are_refused(v: JsonView, dev: u64)
    ensures
        !(v is Array) && !(v is Object) ==> item_entry(v, dev) == Err::<Entry, ImportFault>(
            ImportFault::NotAnEntry(scalar_notation(v)),
        ),
        v matches JsonView::Array(items) ==> {
            &&& items.len() == 0 ==> item_entry(v, dev) == Err::<Entry, ImportFault>(
                ImportFault::EmptyArray,
            )
            &&& items.len() > 0 && !(items[0] is Object) ==> item_entry(v, dev) == Err::<
                Entry,
                ImportFault,
            >(ImportFault::InfoNotAnObject)
            &&& items.len() > 0 && items[0] is Object && !says_text(items[0]->Object_0, "name"@)
                ==> item_entry(v, dev) == Err::<Entry, ImportFault>(ImportFault::MissingName)
        },
        v matches JsonView::Object(m) ==> (!says_text(m, "name"@) ==> item_entry(v, dev) == Err::<
            Entry,
            ImportFault,
        >(ImportFault::MissingName)),
{
}

/// What the members of an object say of its entry: the name, the apparent size,
/// the size on disk in blocks of 512 bytes, and the extended metadata as far as
/// there is any.
pub open spec fn tells(h: Head, m: Map<Seq<char>, JsonView>) -> bool {
    &&& h.name == m["name"@]->Text_0
    &&& h.size == number_in(m, "asize"@)
    &&& h.blocks == number_in(m, "dsize"@) / 512
    &&& h.ext is Some <==> says_number(m, "mtime"@) || says_number(m, "uid"@) || says_number(
        m,
        "gid"@,
    ) || says_number(m, "mode"@)
    &&& h.ext matches Some(x) ==> {
        &&& x.mtime is Some <==> says_number(m, "mtime"@)
        &&& x.mtime is Some ==> x.mtime->0 == number_in(m, "mtime"@)
        &&& x.uid is Some <==> says_number(m, "uid"@)
        &&& x.uid is Some ==> x.uid->0 == number_in(m, "uid"@) % 0x1_0000_0000
        &&& x.gid is Some <==> says_number(m, "gid"@)
        &&& x.gid is Some ==> x.gid->0 == number_in(m, "gid"@) % 0x1_0000_0000
        &&& x.mode is Some <==> says_number(m, "mode"@)
        &&& x.mode is Some ==> x.mode->0 == number_in(m, "mode"@) % 0x1_0000
    }
}

/// An object stands for an entry that is no directory, with what its members
/// say.
pub proof fn objects_stand_for_files(m: Map<Seq<char>, JsonView>, dev: u64)
    requires
        says_text(m, "name"@),
    ensures
        item_entry(JsonView::Object(m), dev) is Ok,
        ({
            let e = item_entry(JsonView::Object(m), dev)->Ok_0;
            &&& tells(e.head, m)
            &&& e.children.len() == 0
            &&& e.head.etype != EType::Dir
            &&& e.head.detail is Link <==> e.head.etype == EType::Link
            &&& e.head.detail is File <==> e.head.etype != EType::Link
            &&& e.head.detail is Link ==> {
                &&& e.head.detail->ino == number_in(m, "ino"@)
                &&& e.head.detail->nlink == number_in(m, "nlink"@) % 0x1_0000_0000
            }
        }),
{
    reveal(info_head);
}

/// The type of an entry that is no directory: what was left out of the scan
/// says why, then come errors, then hardlinks, then what is no regular file. All
/// the rest are regular files.
pub proof fn members_tell_the_type(m: Map<Seq<char>, JsonView>, dev: u64)
    requires
        says_text(m, "name"@),
    ensures
        ({
            let t = item_entry(JsonView::Object(m), dev)->Ok_0.head.etype;
            let left_out = says_text(m, "excluded"@);
            let why = m["excluded"@]->Text_0;
            let broken = says_true(m, "read_error"@);
            let link = says_true(m, "hlnkc"@) || (says_number(m, "ino"@) && number_in(m, "nlink"@)
                % 0x1_0000_0000 > 1);
            let special = says_true(m, "notreg"@);
            &&& left_out && (why == "otherfs"@ || why == "othfs"@) ==> t == EType::OtherFs
            &&& left_out && why != "otherfs"@ && why != "othfs"@ && why == "kernfs"@ ==> t
                == EType::KernFs
            &&& left_out && why != "otherfs"@ && why != "othfs"@ && why != "kernfs"@ ==> t
                == EType::Pattern
            &&& !left_out && broken ==> t == EType::Error
            &&& !left_out && !broken && link ==> t == EType::Link
            &&& !left_out && !broken && !link && special ==> t == EType::NonReg
            &&& !left_out && !broken && !link && !special ==> t == EType::Reg
        }),
{
    reveal(info_head);
}

/// The device of a directory that an object describes: what it says, or that of
/// the directory above.
pub open spec fn own_device(m: Map<Seq<char>, JsonView>, above: u64) -> u64 {
    if says_number(m, "dev"@) {
        m["dev"@]->Number_0->0
    } else {
        above
    }
}

proof fn lemma_items(items: Seq<JsonView>, n: nat, dev: u64)
    requires
        1 <= n <= items.len(),
    ensures
        item_entries(items, n, dev) is Ok <==> forall|i: int|
            1 <= i < n ==> item_entry(#[trigger] items[i], dev) is Ok,
        item_entries(items, n, dev) matches Ok(es) ==> {
            &&& es.len() == n - 1
            &&& forall|i: int|
                0 <= i < es.len() ==> item_entry(items[i + 1], dev) == Ok::<Entry, ImportFault>(
                    #[trigger] es[i],
                )
        },
        item_entries(items, n, dev) matches Err(f) ==> exists|k: int|
            1 <= k < n && item_entry(#[trigger] items[k], dev) == Err::<Entry, ImportFault>(f)
                && forall|i: int| 1 <= i < k ==> item_entry(#[trigger] items[i], dev) is Ok,
    decreases n,
{
    if n > 1 {
        let m = (n - 1) as nat;
        lemma_items(items, m, dev);
        assert(item_entry(items[m as int], dev) is Ok || item_entry(items[m as int], dev) is Err);
        if let Ok(front) = item_entries(items, m, dev) {
            if let Ok(e) = item_entry(items[m as int], dev) {
                let es = item_entries(items, n, dev)->Ok_0;
                assert(es == front.push(e));
                assert forall|i: int| 0 <= i < es.len() implies item_entry(items[i + 1], dev)
                    == Ok::<Entry, ImportFault>(#[trigger] es[i]) by {
                    if i < front.len() {
                        assert(es[i] == front[i]);
                    }
                }
            }
        }
    }
}

/// An array stands for a directory, which its first item describes, and holds
/// what the other items stand for, in their order. All of them have to be
/// readable, and what says nothing of its device is on that of the directory
/// above.
pub proof fn arrays_stand_for_directories(items: Seq<JsonView>, dev: u64)
    requires
        items.len() > 0,
        items[0] is Object,
        says_text(items[0]->Object_0, "name"@),
    ensures
        ({
            let m = items[0]->Object_0;
            let own = own_device(m, dev);
            let r = item_entry(JsonView::Array(items), dev);
            &&& r is Ok <==> forall|i: int|
                1 <= i < items.len() ==> item_entry(#[trigger] items[i], own) is Ok
            &&& r matches Ok(e) ==> {
                &&& tells(e.head, m)
                &&& e.head.etype == EType::Dir
                &&& e.head.detail is Dir
                &&& e.head.detail->dev == own
                &&& e.head.detail->err == says_true(m, "read_error"@)
                &&& e.children.len() == items.len() - 1
                &&& forall|i: int|
                    0 <= i < e.children.len() ==> item_entry(items[i + 1], own) == Ok::<
                        Entry,
                        ImportFault,
                    >(#[trigger] e.children[i])
            }
            &&& r matches Err(f) ==> exists|k: int|
                1 <= k < items.len() && item_entry(#[trigger] items[k], own) == Err::<
                    Entry,
                    ImportFault,
                >(f) && forall|i: int| 1 <= i < k ==> item_entry(#[trigger] items[i], own) is Ok
        }),
{
    reveal(info_head);
    let own = own_device(items[0]->Object_0, dev);
    lemma_items(items, items.len(), own);
}

/// A directory with nothing in it counts nothing.
pub proof fn empty_directories_count_nothing(m: Map<Seq<char>, JsonView>, dev: u64)
    requires
        says_text(m, "name"@),
    ensures
        ({
            let r = item_entry(JsonView::Array(seq![JsonView::Object(m)]), dev);
            &&& r is Ok
            &&& r->Ok_0.head.detail->items == 0
            &&& !r->Ok_0.head.detail->suberr
        }),
{
    reveal(info_head);
    let items = seq![JsonView::Object(m)];
    assert(items[0] == JsonView::Object(m));
    assert(item_entries(items, 1, own_device(m, dev)) == Ok::<Seq<Entry>, ImportFault>(
        Seq::empty(),
    ));
    let e = item_entry(JsonView::Array(items), dev)->Ok_0;
    assert(e.children.len() == 0);
}

/// One more item of a directory comes last in it, counts with all that is below
/// it, and marks the directory if there was an error on it or below it. Nothing
/// else of the directory changes.
pub proof fn items_add_to_their_directory(items: Seq<JsonView>, more: JsonView, dev: u64)
    requires
        items.len() > 0,
        item_entry(JsonView::Array(items), dev) is Ok,
        item_entry(JsonView::Array(items.push(more)), dev) is Ok,
    ensures
        ({
            let a = item_entry(JsonView::Array(items), dev)->Ok_0;
            let b = item_entry(JsonView::Array(items.push(more)), dev)->Ok_0;
            let c = item_entry(more, a.head.detail->dev)->Ok_0;
            let below: int = if c.head.detail is Dir {
                c.head.detail->items as int
            } else {
                0
            };
            let sum = a.head.detail->items + 1 + below;
            &&& item_entry(more, a.head.detail->dev) is Ok
            &&& b.children == a.children.push(c)
            &&& b.head.name == a.head.name
            &&& b.head.etype == a.head.etype
            &&& b.head.size == a.head.size
            &&& b.head.blocks == a.head.blocks
            &&& b.head.ext == a.head.ext
            &&& b.head.detail->dev == a.head.detail->dev
            &&& b.head.detail->err == a.head.detail->err
            &&& b.head.detail->items == (if sum <= u32::MAX {
                sum
            } else {
                u32::MAX as int
            })
            &&& b.head.detail->suberr == (a.head.detail->suberr || c.head.etype == EType::Error || (
            c.head.detail is Dir && (c.head.detail->err || c.head.detail->suberr)))
        }),
{
    reveal(info_head);
    let all = items.push(more);
    assert(all[0] == items[0]);
    let m = items[0]->Object_0;
    let own = own_device(m, dev);
    lemma_items_before(items, more, items.len(), own);
    let a = item_entry(JsonView::Array(items), dev)->Ok_0;
    let b = item_entry(JsonView::Array(all), dev)->Ok_0;
    assert(item_entries(all, all.len(), own) is Ok);
    assert(all[items.len() as int] == more);
    let c = item_entry(more, own)->Ok_0;
    assert(b.children == a.children.push(c));
    lemma_entries_push(a.children, c);
    lemma_counts(more, own);
}

proof fn lemma_items_before(items: Seq<JsonView>, more: JsonView, n: nat, dev: u64)
    requires
        n <= items.len(),
    ensures
        item_entries(items.push(more), n, dev) == item_entries(items, n, dev),
    decreases n,
{
    if n > 1 {
        lemma_items_before(items, more, (n - 1) as nat, dev);
    }
}

/// An entry that was read counts what is below it.
proof fn lemma_counts(v: JsonView, dev: u64)
    requires
        item_entry(v, dev) is Ok,
    ensures
        ({
            let e = item_entry(v, dev)->Ok_0;
            &&& e.head.detail is Dir ==> e.head.detail->items == capped32(
                entry_sizes(e.children, e.children.len()),
            )
            &&& !(e.head.detail is Dir) ==> entry_size(e) == 1
            &&& e.head.detail is Dir <==> e.head.etype is Dir
        }),
{
    reveal(info_head);
}

/// The two agree on every member that the format knows.
pub open spec fn same_members(a: Map<Seq<char>, JsonView>, b: Map<Seq<char>, JsonView>) -> bool {
    &&& same_member(a, b, "name"@)
    &&& same_member(a, b, "asize"@)
    &&& same_member(a, b, "dsize"@)
    &&& same_member(a, b, "dev"@)
    &&& same_member(a, b, "ino"@)
    &&& same_member(a, b, "nlink"@)
    &&& same_member(a, b, "hlnkc"@)
    &&& same_member(a, b, "notreg"@)
    &&& same_member(a, b, "read_error"@)
    &&& same_member(a, b, "excluded"@)
    &&& same_member(a, b, "uid"@)
    &&& same_member(a, b, "gid"@)
    &&& same_member(a, b, "mode"@)
    &&& same_member(a, b, "mtime"@)
}

proof fn lemma_same_member(a: Map<Seq<char>, JsonView>, b: Map<Seq<char>, JsonView>, key: Seq<char>)
    requires
        same_member(a, b, key),
    ensures
        number_field(a, key) == number_field(b, key),
        text_field(a, key) == text_field(b, key),
        flag_field(a, key) == flag_field(b, key),
{
    assert(field(a, key) == field(b, key));
}

proof fn lemma_same_info(
    a: Map<Seq<char>, JsonView>,
    b: Map<Seq<char>, JsonView>,
    is_dir: bool,
    dev: u64,
    items: u32,
    suberr: bool,
)
    requires
        same_members(a, b),
    ensures
        text_field(a, "name"@) == text_field(b, "name"@),
        info_dev(a, dev) == info_dev(b, dev),
        info_head(a, is_dir, dev, items, suberr) == info_head(b, is_dir, dev, items, suberr),
{
    reveal(info_head);
    lemma_same_member(a, b, "name"@);
    lemma_same_member(a, b, "asize"@);
    lemma_same_member(a, b, "dsize"@);
    lemma_same_member(a, b, "dev"@);
    lemma_same_member(a, b, "ino"@);
    lemma_same_member(a, b, "nlink"@);
    lemma_same_member(a, b, "hlnkc"@);
    lemma_same_member(a, b, "notreg"@);
    lemma_same_member(a, b, "read_error"@);
    lemma_same_member(a, b, "excluded"@);
    lemma_same_member(a, b, "uid"@);
    lemma_same_member(a, b, "gid"@);
    lemma_same_member(a, b, "mode"@);
    lemma_same_member(a, b, "mtime"@);
    assert(info_etype(a, is_dir) == info_etype(b, is_dir));
    assert(info_ext(a) == info_ext(b));
}

/// Members that the format does not know have no say: two objects that agree on
/// the members that it knows stand for the same entry, or describe the same
/// directory.
pub proof fn unknown_members_have_no_say(
    a: Map<Seq<char>, JsonView>,
    b: Map<Seq<char>, JsonView>,
    others: Seq<JsonView>,
    dev: u64,
)
    requires
        same_members(a, b),
    ensures
        item_entry(JsonView::Object(a), dev) == item_entry(JsonView::Object(b), dev),
        item_entry(JsonView::Array(seq![JsonView::Object(a)] + others), dev) == item_entry(
            JsonView::Array(seq![JsonView::Object(b)] + others),
            dev,
        ),
{
    let v = seq![JsonView::Object(a)] + others;
    let w = seq![JsonView::Object(b)] + others;
    assert(v[0] == JsonView::Object(a));
    assert(w[0] == JsonView::Object(b));
    lemma_same_info(a, b, false, dev, 0, false);
    let own = info_dev(a, dev);
    lemma_same_items(v, w, v.len(), own);
    if let Ok(children) = item_entries(v, v.len(), own) {
        lemma_same_info(
            a,
            b,
            true,
            dev,
            capped32(entry_sizes(children, children.len())),
            any_trouble_in(children, children.len()),
        );
    }
}

proof fn lemma_same_items(v: Seq<JsonView>, w: Seq<JsonView>, n: nat, dev: u64)
    requires
        n <= v.len(),
        v.len() == w.len(),
        forall|i: int| 1 <= i < v.len() ==> v[i] == #[trigger] w[i],
    ensures
        item_entries(v, n, dev) == item_entries(w, n, dev),
    decreases n,
{
    if n > 1 {
        lemma_same_items(v, w, (n - 1) as nat, dev);
        assert(v[n - 1] == w[n - 1]);
    }
}

/// Both have the member with the same value, or neither has it.
pub open spec fn same_member(
    a: Map<Seq<char>, JsonView>,
    b: Map<Seq<char>, JsonView>,
    key: Seq<char>,
) -> bool {
    &&& a.contains_key(key) <==> b.contains_key(key)
    &&& a.contains_key(key) ==> a[key] == b[key]
}

/// Of two members with one name the later one counts, and a member changes no
/// other.
pub proof fn later_members_count(
    members: Seq<(Seq<char>, JsonView)>,
    key: Seq<char>,
    v: JsonView,
    other: Seq<char>,
)
    ensures
        object_of(members.push((key, v))).contains_key(key),
        object_of(members.push((key, v)))[key] == v,
        other != key ==> same_member(object_of(members.push((key, v))), object_of(members), other),
        !object_of(Seq::<(Seq<char>, JsonView)>::empty()).contains_key(key),
{
    assert(members.push((key, v)).drop_last() =~= members);
}

/// A JSON value denotes its parts.
pub proof fn json_values_denote_their_parts(v: Json)
    ensures
        v is Null ==> v@ is Null,
        v matches Json::Bool(b) ==> v@ == JsonView::Bool(b),
        v matches Json::Number(n, notation) ==> v@ == JsonView::Number(n, notation@),
        v matches Json::Text(s) ==> v@ == JsonView::Text(s@),
        v matches Json::Array(items) ==> {
            &&& v@ is Array
            &&& v@->Array_0.len() == items@.len()
            &&& forall|i: int|
                0 <= i < items@.len() ==> #[trigger] v@->Array_0[i] == items@[i]@
        },
        v matches Json::Object(members) ==> {
            let pairs = json_members(members@);
            &&& v@ == JsonView::Object(object_of(pairs))
            &&& pairs.len() == members@.len()
            &&& forall|i: int|
                0 <= i < pairs.len() ==> #[trigger] pairs[i] == (members@[i].0@, members@[i].1@)
        },
{
    if let Json::Array(items) = v {
        let views = v@->Array_0;
        assert(v@ == JsonView::Array(json_items(items@)));
        assert forall|i: int| 0 <= i < items@.len() implies #[trigger] views[i] == items@[i]@ by {}
    }
}

/// A value counts as one entry, and an array as one more for each entry that its
/// other items count.
pub proof fn values_count_their_entries(v: JsonView, items: Seq<JsonView>, more: JsonView)
    ensures
        !(v is Array) ==> entry_count(v) == 1,
        items.len() <= 1 ==> entry_count(JsonView::Array(items)) == 1,
        items.len() > 0 ==> entry_count(JsonView::Array(items.push(more))) == entry_count(
            JsonView::Array(items),
        ) + entry_count(more),
{
    let all = items.push(more);
    lemma_counts_before(items, more, items.len());
    if items.len() > 0 {
        assert(all[items.len() as int] == more);
        assert(entry_counts(all, all.len()) == entry_counts(all, items.len()) + entry_count(more));
    }
}

proof fn lemma_counts_before(items: Seq<JsonView>, more: JsonView, n: nat)
    requires
        n <= items.len(),
    ensures
        entry_counts(items.push(more), n) == entry_counts(items, n),
    decreases n,
{
    if n > 1 {
        lemma_counts_before(items, more, (n - 1) as nat);
    }
}

/// The value of a node is what the node holds, and a directory id stands for
/// the device in the table.
pub proof fn heads_say_what_nodes_hold(n: Node, devices: Seq<u64>)
    ensures
        ({
            let h = head_of(n, devices);
            &&& h.name == n.common.name@
            &&& h.etype == n.common.etype
            &&& h.size == n.common.size
            &&& h.blocks == n.common.blocks
            &&& h.ext == n.common.ext
            &&& n.kind matches NodeKind::Dir(d) ==> {
                &&& h.detail is Dir
                &&& h.detail->items == d.items
                &&& h.detail->err == d.err
                &&& h.detail->suberr == d.suberr
                &&& d.dev < devices.len() ==> h.detail->dev == devices[d.dev as int]
            }
            &&& n.kind matches NodeKind::Link(l) ==> h.detail is Link && h.detail->ino == l.ino
                && h.detail->nlink == l.nlink
            &&& n.kind is File ==> h.detail is File
        }),
{
}

/// The value of a subtree has the values of the subtrees below it as children,
/// in their order.
pub proof fn entries_have_their_children(nodes: Seq<Node>, devices: Seq<u64>, s: Shape)
    ensures
        ({
            let e = entry_of(nodes, devices, s);
            &&& e.head == head_of(nodes[s.id.0 as int], devices)
            &&& e.children.len() == s.kids.len()
            &&& forall|i: int|
                0 <= i < s.kids.len() ==> #[trigger] e.children[i] == entry_of(
                    nodes,
                    devices,
                    s.kids[i],
                )
        }),
{
}

/// A value that stands in place of an entry is named as JSON writes it.
pub proof fn scalars_are_named_as_json_writes_them(n: Option<u64>, s: Seq<char>)
    ensures
        scalar_notation(JsonView::Null) == "null"@,
        scalar_notation(JsonView::Bool(true)) == "true"@,
        scalar_notation(JsonView::Bool(false)) == "false"@,
        scalar_notation(JsonView::Number(n, s)) == s,
        scalar_notation(JsonView::Text(s)).len() >= 2,
        scalar_notation(JsonView::Text(s))[0] == '"',
        scalar_notation(JsonView::Text(s)).last() == '"',
{
}

/// What an import says of an input that it refuses.
pub proof fn faults_say_what_is_wrong(s: Seq<char>, n: u64)
    ensures
        fault_text(ImportFault::Syntax(s)) == s,
        fault_text(ImportFault::NotAnArray) == "expected top-level array"@,
        fault_text(ImportFault::TooFewElements(n))
            == "expected [major, minor, metadata, root, ...] — got "@ + decimal(n as nat)
            + " elements"@,
        fault_text(ImportFault::MajorNotANumber) == "major version must be a number"@,
        fault_text(ImportFault::WrongMajor(n)) == "incompatible major format version: "@ + decimal(
            n as nat,
        ),
        fault_text(ImportFault::EmptyArray)
            == "empty array — directory entry requires at least an info object"@,
        fault_text(ImportFault::InfoNotAnObject) == "first array element must be an object"@,
        fault_text(ImportFault::NotAnEntry(s)) == "expected object or array, got "@ + s,
        fault_text(ImportFault::MissingName) == "missing or non-string \"name\" field"@,
{
}

} // verus!
