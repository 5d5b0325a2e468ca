//! JSON texts, and how they are written.
//!
//! [`Doc`] is a JSON text in the layout that the exporter writes: members of
//! an object in a fixed order, and a line break after each comma that follows
//! an array or an object.

use vstd::prelude::*;
use vstd::utf8::encode_utf8;

use crate::text::{decimal, decimal_string, put};

verus! {

/// A JSON text.
pub enum Doc {
    Number(u64),
    Bool(bool),
    /// A string, written with escapes.
    Text(Seq<char>),
    /// A string, written between quotes as it is.
    Quoted(Seq<char>),
    Array(Seq<Doc>),
    Object(Seq<(Seq<char>, Doc)>),
}

/// The lower-case hexadecimal digit of `d`.
pub open spec fn hex_digit(d: int) -> u8 {
    if d < 10 {
        (48 + d) as u8
    } else {
        (87 + d) as u8
    }
}

/// A byte of a string, as it stands in the text.
pub open spec fn escape(b: u8) -> Seq<u8> {
    if b >= 0x20 && b != 0x22 && b != 0x5c && b != 0x7f {
        seq![b]
    } else if b == 0x0a {
        seq![0x5cu8, 0x6e]
    } else if b == 0x0d {
        seq![0x5cu8, 0x72]
    } else if b == 0x08 {
        seq![0x5cu8, 0x62]
    } else if b == 0x09 {
        seq![0x5cu8, 0x74]
    } else if b == 0x0c {
        seq![0x5cu8, 0x66]
    } else if b == 0x5c || b == 0x22 {
        seq![0x5cu8, b]
    } else {
        seq![0x5cu8, 0x75, 0x30, 0x30, hex_digit(b as int / 16), hex_digit(b as int % 16)]
    }
}

/// The bytes of a string, each as it stands in the text.
pub open spec fn escaped(bytes: Seq<u8>) -> Seq<u8>
    decreases bytes.len(),
{
    if bytes.len() == 0 {
        seq![]
    } else {
        escaped(bytes.drop_last()) + escape(bytes.last())
    }
}

pub open spec fn quoted(bytes: Seq<u8>) -> Seq<u8> {
    seq![0x22u8] + bytes + seq![0x22u8]
}

/// The bytes of a JSON text.
pub open spec fn doc_text(d: Doc) -> Seq<u8>
    decreases d,
{
    match d {
        Doc::Number(n) => encode_utf8(decimal(n as nat)),
        Doc::Bool(b) => if b {
            encode_utf8("true"@)
        } else {
            encode_utf8("false"@)
        },
        Doc::Text(s) => quoted(escaped(encode_utf8(s))),
        Doc::Quoted(s) => quoted(encode_utf8(s)),
        Doc::Array(items) => seq![0x5bu8] + items_text(items) + seq![0x5du8],
        Doc::Object(members) => seq![0x7bu8] + members_text(members) + seq![0x7du8],
    }
}

/// What stands between an item of an array and the item after it.
pub open spec fn separator(before: Doc) -> Seq<u8> {
    if before is Array || before is Object {
        seq![0x2cu8, 0x0a]
    } else {
        seq![0x2cu8]
    }
}

/// The items of an array, with what separates them.
pub open spec fn items_text(items: Seq<Doc>) -> Seq<u8>
    decreases items,
{
    if items.len() == 0 {
        seq![]
    } else if items.len() == 1 {
        doc_text(items[0])
    } else {
        items_text(items.drop_last()) + separator(items[items.len() - 2]) + doc_text(items.last())
    }
}

/// The members of an object, with the commas between them.
pub open spec fn members_text(members: Seq<(Seq<char>, Doc)>) -> Seq<u8>
    decreases members,
{
    if members.len() == 0 {
        seq![]
    } else {
        members_text(members.drop_last()) + (if members.len() == 1 {
            seq![]
        } else {
            seq![0x2cu8]
        }) + quoted(encode_utf8(members.last().0)) + seq![0x3au8] + doc_text(members.last().1)
    }
}

pub proof fn lemma_items_push(items: Seq<Doc>, d: Doc)
    ensures
        items.len() > 0 ==> items_text(items.push(d)) == items_text(items) + separator(
            items.last(),
        ) + doc_text(d),
        items.len() == 0 ==> items_text(items.push(d)) == doc_text(d),
{
    assert(items.push(d).drop_last() =~= items);
}

pub proof fn lemma_members_push(members: Seq<(Seq<char>, Doc)>, key: Seq<char>, d: Doc)
    ensures
        members_text(members.push((key, d))) == members_text(members) + (if members.len() == 0 {
            seq![]
        } else {
            seq![0x2cu8]
        }) + quoted(encode_utf8(key)) + seq![0x3au8] + doc_text(d),
{
    assert(members.push((key, d)).drop_last() =~= members);
}

/// Appends the bytes of a string, escaped.
pub fn write_escaped(out: &mut Vec<u8>, bytes: &[u8])
    ensures
        final(out)@ == old(out)@ + escaped(bytes@),
{
    let ghost before = out@;
    let mut i: usize = 0;
    proof {
        assert(bytes@.take(0) =~= Seq::<u8>::empty());
        assert(out@ =~= before + escaped(bytes@.take(0)));
    }
    while i < bytes.len()
        invariant
            i <= bytes@.len(),
            out@ == before + escaped(bytes@.take(i as int)),
        decreases bytes@.len() - i,
    {
        let b: u8 = bytes[i];
        let ghost now = out@;
        if b >= 0x20 && b != 0x22 && b != 0x5c && b != 0x7f {
            out.push(b);
        } else {
            out.push(0x5c);
            if b == 0x0a {
                out.push(0x6e);
            } else if b == 0x0d {
                out.push(0x72);
            } else if b == 0x08 {
                out.push(0x62);
            } else if b == 0x09 {
                out.push(0x74);
            } else if b == 0x0c {
                out.push(0x66);
            } else if b == 0x5c || b == 0x22 {
                out.push(b);
            } else {
                out.push(0x75);
                out.push(0x30);
                out.push(0x30);
                out.push(hex(b / 16));
                out.push(hex(b % 16));
            }
        }
        i += 1;
        proof {
            assert(bytes@.take(i as int).drop_last() =~= bytes@.take(i - 1));
            assert(out@ =~= now + escape(b));
            assert(out@ =~= before + escaped(bytes@.take(i as int)));
        }
    }
    proof {
        assert(bytes@.take(bytes@.len() as int) =~= bytes@);
    }
}

fn hex(d: u8) -> (r: u8)
    requires
        d < 16,
    ensures
        r == hex_digit(d as int),
{
    if d < 10 {
        48 + d
    } else {
        87 + d
    }
}

/// Appends `"key":` to the members of an object.
fn write_key(out: &mut Vec<u8>, first: bool, key: &str)
    ensures
        final(out)@ == old(out)@ + (if first {
            seq![]
        } else {
            seq![0x2cu8]
        }) + quoted(encode_utf8(key@)) + seq![0x3au8],
{
    let ghost before = out@;
    if !first {
        out.push(0x2c);
    }
    out.push(0x22);
    put(out, key);
    out.push(0x22);
    out.push(0x3a);
    proof {
        assert(out@ =~= before + (if first {
            seq![]
        } else {
            seq![0x2cu8]
        }) + quoted(encode_utf8(key@)) + seq![0x3au8]);
    }
}

/// Appends a member with a number to an object that has `members` so far.
pub(crate) fn write_number_member(
    out: &mut Vec<u8>,
    key: &str,
    n: u64,
    Ghost(start): Ghost<Seq<u8>>,
    Ghost(members): Ghost<Seq<(Seq<char>, Doc)>>,
)
    requires
        members.len() > 0,
        old(out)@ == start + members_text(members),
    ensures
        final(out)@ == start + members_text(members.push((key@, Doc::Number(n)))),
{
    write_key(out, false, key);
    put(out, decimal_string(n).as_str());
    proof {
        lemma_members_push(members, key@, Doc::Number(n));
        assert(out@ =~= start + members_text(members.push((key@, Doc::Number(n)))));
    }
}

/// Appends a member with the value `true`.
pub(crate) fn write_true_member(
    out: &mut Vec<u8>,
    key: &str,
    Ghost(start): Ghost<Seq<u8>>,
    Ghost(members): Ghost<Seq<(Seq<char>, Doc)>>,
)
    requires
        members.len() > 0,
        old(out)@ == start + members_text(members),
    ensures
        final(out)@ == start + members_text(members.push((key@, Doc::Bool(true)))),
{
    write_key(out, false, key);
    put(out, "true");
    proof {
        lemma_members_push(members, key@, Doc::Bool(true));
        assert(out@ =~= start + members_text(members.push((key@, Doc::Bool(true)))));
    }
}

/// Appends a member with a string that is written as it is.
pub(crate) fn write_quoted_member(
    out: &mut Vec<u8>,
    first: bool,
    key: &str,
    value: &str,
    Ghost(start): Ghost<Seq<u8>>,
    Ghost(members): Ghost<Seq<(Seq<char>, Doc)>>,
)
    requires
        first == (members.len() == 0),
        old(out)@ == start + members_text(members),
    ensures
        final(out)@ == start + members_text(members.push((key@, Doc::Quoted(value@)))),
{
    write_key(out, first, key);
    out.push(0x22);
    put(out, value);
    out.push(0x22);
    proof {
        lemma_members_push(members, key@, Doc::Quoted(value@));
        assert(out@ =~= start + members_text(members.push((key@, Doc::Quoted(value@)))));
    }
}

/// Appends a member with a string that is written with escapes.
pub(crate) fn write_text_member(
    out: &mut Vec<u8>,
    first: bool,
    key: &str,
    value: &str,
    Ghost(start): Ghost<Seq<u8>>,
    Ghost(members): Ghost<Seq<(Seq<char>, Doc)>>,
)
    requires
        first == (members.len() == 0),
        old(out)@ == start + members_text(members),
    ensures
        final(out)@ == start + members_text(members.push((key@, Doc::Text(value@)))),
{
    write_key(out, first, key);
    out.push(0x22);
    write_escaped(out, value.as_bytes());
    out.push(0x22);
    proof {
        lemma_members_push(members, key@, Doc::Text(value@));
        assert(out@ =~= start + members_text(members.push((key@, Doc::Text(value@)))));
    }
}

/// Whatever bytes a string holds, in the text it shows no control characters,
/// and a backslash stands before each quote.
pub proof fn escaped_text_is_printable(bytes: Seq<u8>)
    ensures
        forall|i: int|
            0 <= i < escaped(bytes).len() ==> {
                &&& (#[trigger] escaped(bytes)[i]) >= 0x20
                &&& escaped(bytes)[i] != 0x7f
                &&& escaped(bytes)[i] == 0x22 ==> i > 0 && escaped(bytes)[i - 1] == 0x5c
            },
    decreases bytes.len(),
{
    if bytes.len() > 0 {
        let front = escaped(bytes.drop_last());
        let last = escape(bytes.last());
        let all = escaped(bytes);
        escaped_text_is_printable(bytes.drop_last());
        assert forall|i: int| 0 <= i < all.len() implies {
            &&& (#[trigger] all[i]) >= 0x20
            &&& all[i] != 0x7f
            &&& all[i] == 0x22 ==> i > 0 && all[i - 1] == 0x5c
        } by {
            if i < front.len() {
                assert(all[i] == front[i]);
                if i > 0 {
                    assert(all[i - 1] == front[i - 1]);
                }
            } else {
                assert(all[i] == last[i - front.len()]);
                if i > front.len() {
                    assert(all[i - 1] == last[i - 1 - front.len()]);
                }
            }
        }
    }
}

} // verus!
