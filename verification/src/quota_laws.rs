//! What is read from the project table and from a quota report.

use vstd::prelude::*;

use crate::text::{decimal, place_of};
use crate::xfs_quota::{
    all_digits, before_comment, digits_value, is_digit, is_white, lines, number, project_of,
    quota_leads_to, reported, table_row, trim, trim_back, trim_front, word_len, words, QuotaAction,
    QuotaEvent,
};

verus! {

/// Spaces, tabs and the characters that end a line are white space, no other
/// printable ASCII character is, and outside ASCII only those are that Unicode
/// says so of.
pub proof fn white_space_separates(c: char)
    ensures
        is_white(' ') && is_white('\t') && is_white('\n') && is_white('\r'),
        is_white('\u{b}') && is_white('\u{c}'),
        0x21 <= c as u32 <= 0x84 ==> !is_white(c),
        (c as u32) < 9 || 0xd < (c as u32) < 0x20 ==> !is_white(c),
        c as u32 == 0x85 || c as u32 == 0xa0 || c as u32 == 0x1680 || c as u32 == 0x3000
            ==> is_white(c),
        0x86 <= c as u32 <= 0x9f || 0xa1 <= c as u32 <= 0x167f ==> !is_white(c),
        0x1681 <= c as u32 <= 0x1fff ==> !is_white(c),
        0x2000 <= c as u32 <= 0x200a ==> is_white(c),
        0x200b <= c as u32 <= 0x2027 ==> !is_white(c),
        c as u32 == 0x2028 || c as u32 == 0x2029 ==> is_white(c),
        c as u32 == 0x202f || c as u32 == 0x205f ==> is_white(c),
        0x202a <= c as u32 <= 0x202e || 0x2030 <= c as u32 <= 0x205e ==> !is_white(c),
        0x2060 <= c as u32 <= 0x2fff ==> !is_white(c),
        c as u32 > 0x3000 ==> !is_white(c),
{
}

/// All characters are white space.
pub open spec fn blank(s: Seq<char>) -> bool {
    forall|i: int| 0 <= i < s.len() ==> is_white(#[trigger] s[i])
}

/// No character is white space, and there is one.
pub open spec fn solid(s: Seq<char>) -> bool {
    s.len() > 0 && forall|i: int| 0 <= i < s.len() ==> !is_white(#[trigger] s[i])
}

/// The text is at its end, or goes on with white space.
pub open spec fn breaks(s: Seq<char>) -> bool {
    s.len() == 0 || is_white(s[0])
}

proof fn lemma_trim_blank(gap: Seq<char>, s: Seq<char>)
    requires
        blank(gap),
        s.len() == 0 || !is_white(s[0]),
    ensures
        trim_front(gap + s) == s,
    decreases gap.len(),
{
    let all = gap + s;
    if gap.len() > 0 {
        assert(all[0] == gap[0]);
        assert(all.skip(1) =~= gap.skip(1) + s);
        assert forall|i: int| 0 <= i < gap.skip(1).len() implies is_white(
            #[trigger] gap.skip(1)[i],
        ) by {
            assert(gap.skip(1)[i] == gap[i + 1]);
        }
        lemma_trim_blank(gap.skip(1), s);
    } else {
        assert(all =~= s);
    }
}

proof fn lemma_trim_back_blank(s: Seq<char>, gap: Seq<char>)
    requires
        blank(gap),
        s.len() == 0 || !is_white(s.last()),
    ensures
        trim_back(s + gap) == s,
    decreases gap.len(),
{
    let all = s + gap;
    if gap.len() > 0 {
        assert(all.last() == gap.last());
        assert(is_white(gap[gap.len() - 1]));
        assert(all.drop_last() =~= s + gap.drop_last());
        assert forall|i: int| 0 <= i < gap.drop_last().len() implies is_white(
            #[trigger] gap.drop_last()[i],
        ) by {
            assert(gap.drop_last()[i] == gap[i]);
        }
        lemma_trim_back_blank(s, gap.drop_last());
    } else {
        assert(all =~= s);
    }
}

proof fn lemma_word_solid(word: Seq<char>, rest: Seq<char>)
    requires
        forall|i: int| 0 <= i < word.len() ==> !is_white(#[trigger] word[i]),
        breaks(rest),
    ensures
        word_len(word + rest) == word.len(),
    decreases word.len(),
{
    let all = word + rest;
    if word.len() > 0 {
        assert(all[0] == word[0]);
        assert(all.skip(1) =~= word.skip(1) + rest);
        assert forall|i: int| 0 <= i < word.skip(1).len() implies !is_white(
            #[trigger] word.skip(1)[i],
        ) by {
            assert(word.skip(1)[i] == word[i + 1]);
        }
        lemma_word_solid(word.skip(1), rest);
    } else {
        assert(all =~= rest);
    }
}

/// Words are what stands between white space: the first word of a text ends
/// where white space follows, and the other words are those of the rest.
pub proof fn words_stand_between_white_space(gap: Seq<char>, word: Seq<char>, rest: Seq<char>)
    requires
        blank(gap),
        solid(word),
        breaks(rest),
    ensures
        words(gap + word + rest) == seq![word] + words(rest),
        words(gap).len() == 0,
{
    let t = word + rest;
    assert(gap + word + rest =~= gap + t);
    assert(t[0] == word[0]);
    lemma_trim_blank(gap, t);
    lemma_word_solid(word, rest);
    assert(t.take(word.len() as int) =~= word);
    assert(t.skip(word.len() as int) =~= rest);
    lemma_trim_blank(gap, Seq::empty());
    assert(gap + Seq::<char>::empty() =~= gap);
}

/// Lines are what stands between line breaks. What follows the last break is a
/// line if there is anything.
pub proof fn lines_end_at_breaks(row: Seq<char>, rest: Seq<char>)
    requires
        !row.contains('\n'),
    ensures
        lines(row + seq!['\n'] + rest) == seq![row] + lines(rest),
        row.len() > 0 ==> lines(row) == seq![row],
        lines(Seq::<char>::empty()).len() == 0,
{
    let all = row + seq!['\n'] + rest;
    lemma_first_place(all, '\n', row.len() as int);
    assert(all.take(row.len() as int) =~= row);
    assert(all.skip(row.len() as int + 1) =~= rest);
    lemma_no_place(row, '\n', 0);
}

/// A character stands at its first place, and nowhere before.
proof fn lemma_first_place(s: Seq<char>, c: char, at: int)
    requires
        0 <= at < s.len(),
        s[at] == c,
        forall|i: int| 0 <= i < at ==> s[i] != c,
    ensures
        place_of(s, c, 0) == at,
{
    lemma_place_from(s, c, 0, at);
}

proof fn lemma_place_from(s: Seq<char>, c: char, from: int, at: int)
    requires
        0 <= from <= at < s.len(),
        s[at] == c,
        forall|i: int| from <= i < at ==> s[i] != c,
    ensures
        place_of(s, c, from) == at,
    decreases at - from,
{
    if from < at {
        lemma_place_from(s, c, from + 1, at);
    }
}

proof fn lemma_no_place(s: Seq<char>, c: char, from: int)
    requires
        0 <= from <= s.len(),
        !s.contains(c),
    ensures
        place_of(s, c, from) == s.len(),
    decreases s.len() - from,
{
    if from < s.len() {
        assert(s.contains(s[from]));
        lemma_no_place(s, c, from + 1);
    }
}

/// Whole lines before a text are lines before those of the text.
pub proof fn whole_lines_come_first(before: Seq<char>, text: Seq<char>)
    requires
        before.len() == 0 || before.last() == '\n',
    ensures
        lines(before + text) == lines(before) + lines(text),
    decreases before.len(),
{
    if before.len() == 0 {
        assert(before + text =~= text);
        assert(lines(before) + lines(text) =~= lines(text));
    } else {
        let i = place_of(before, '\n', 0);
        lemma_place_bounds(before, '\n', 0);
        assert(before.contains('\n')) by {
            assert(before[before.len() - 1] == '\n');
        }
        if i == before.len() {
            let k = before.len() - 1;
            assert(before[k] != '\n');
        }
        let row = before.take(i);
        let rest = before.skip(i + 1);
        assert(!row.contains('\n')) by {
            if row.contains('\n') {
                let k = choose|k: int| 0 <= k < row.len() && row[k] == '\n';
                assert(before[k] == '\n');
            }
        }
        assert(before =~= row + seq!['\n'] + rest);
        assert(before + text =~= row + seq!['\n'] + (rest + text));
        lines_end_at_breaks(row, rest);
        lines_end_at_breaks(row, rest + text);
        if rest.len() > 0 {
            assert(rest.last() == before.last());
        }
        whole_lines_come_first(rest, text);
        assert(lines(before + text) =~= lines(before) + lines(text));
    }
}

proof fn lemma_place_bounds(s: Seq<char>, c: char, from: int)
    requires
        0 <= from <= s.len(),
    ensures
        from <= place_of(s, c, from) <= s.len(),
        place_of(s, c, from) < s.len() ==> s[place_of(s, c, from)] == c,
        forall|i: int| from <= i < place_of(s, c, from) ==> s[i] != c,
    decreases s.len() - from,
{
    if from < s.len() && s[from] != c {
        lemma_place_bounds(s, c, from + 1);
    }
}

/// A number is written in decimal digits, without zeros in front, and the
/// digits stand for the number: each further digit counts ten times what stands
/// before it.
pub proof fn decimals_are_positional(n: nat, d: nat)
    requires
        d < 10,
    ensures
        decimal(d) == seq![('0' as u32 + d) as char],
        n > 0 ==> decimal(10 * n + d) == decimal(n).push(('0' as u32 + d) as char),
{
    if n > 0 {
        assert((10 * n + d) / 10 == n);
        assert((10 * n + d) % 10 == d);
    }
}

/// Each further digit counts ten times what the digits before it stand for.
pub proof fn digits_are_positional(s: Seq<char>, d: nat)
    requires
        d < 10,
    ensures
        digits_value(s.push(('0' as u32 + d) as char)) == 10 * digits_value(s) + d,
        digits_value(Seq::<char>::empty()) == 0,
{
    let c = ('0' as u32 + d) as char;
    assert(s.push(c).drop_last() =~= s);
    assert(c as u32 == 48 + d);
}

/// The digits of a number are read back as the number.
pub proof fn decimals_read_back(n: nat)
    ensures
        decimal(n).len() > 0,
        all_digits(decimal(n)),
        digits_value(decimal(n)) == n,
        n > 0 ==> decimal(n)[0] != '0',
    decreases n,
{
    if n < 10 {
        let s = seq![('0' as u32 + n) as char];
        assert(decimal(n) =~= s);
        assert(s =~= Seq::<char>::empty().push(s[0]));
        digits_are_positional(Seq::empty(), n);
    } else {
        let q = n / 10;
        let d = n % 10;
        decimals_read_back(q);
        decimals_are_positional(q, d);
        assert(10 * q + d == n);
        digits_are_positional(decimal(q), d);
        let all = decimal(n);
        let c = ('0' as u32 + d) as char;
        assert(all == decimal(q).push(c));
        assert forall|i: int| 0 <= i < all.len() implies is_digit(#[trigger] all[i]) by {
            if i < decimal(q).len() {
                assert(all[i] == decimal(q)[i]);
                assert(is_digit(decimal(q)[i]));
            }
        }
    }
}

/// A text denotes a number exactly if it is made of decimal digits, at least
/// one, with at most one plus sign before them, and the number is not above the
/// limit.
pub proof fn numbers_are_made_of_digits(s: Seq<char>, n: nat, max: u64)
    ensures
        n <= max ==> number(decimal(n), max) == Some(n as u64),
        n > max ==> number(decimal(n), max) is None,
        n <= max ==> number(seq!['+'] + decimal(n), max) == Some(n as u64),
        s.len() > 0 && (forall|i: int|
            0 <= i < s.len() ==> '0' <= (#[trigger] s[i]) <= '9') ==> number(
            s,
            max,
        ) == (if digits_value(s) <= max {
            Some(digits_value(s) as u64)
        } else {
            None
        }),
        number(s, max) is Some ==> {
            &&& s.len() > 0
            &&& s[0] == '+' ==> s.len() > 1
            &&& forall|i: int|
                0 < i < s.len() ==> '0' <= (#[trigger] s[i]) <= '9'
            &&& s[0] == '+' || '0' <= s[0] <= '9'
            &&& number(s, max)->0 <= max
        },
{
    decimals_read_back(n);
    let d = decimal(n);
    assert(is_digit(d[0]));
    assert((seq!['+'] + d).skip(1) =~= d);
    if s.len() > 0 && (forall|i: int|
        0 <= i < s.len() ==> '0' <= (#[trigger] s[i]) <= '9') {
        assert('0' <= s[0] <= '9');
        assert forall|i: int| 0 <= i < s.len() implies is_digit(#[trigger] s[i]) by {}
    }
    if number(s, max) is Some {
        if s[0] == '+' {
            assert forall|i: int| 0 < i < s.len() implies '0' <= (#[trigger] s[i]) <= '9' by {
                assert(is_digit(s.skip(1)[i - 1]));
            }
        } else {
            assert(is_digit(s[0]));
            assert forall|i: int| 0 < i < s.len() implies '0' <= (#[trigger] s[i]) <= '9' by {
                assert(is_digit(s[i]));
            }
        }
    }
}

/// The line is about another project, or about none: its first word is not the
/// hash sign and the id.
pub open spec fn about_another(row: Seq<char>, id: u32) -> bool {
    words(row).len() == 0 || words(row)[0] != seq!['#'] + decimal(id as nat)
}

proof fn lemma_skipped(front: Seq<Seq<char>>, rows: Seq<Seq<char>>, id: u32)
    requires
        forall|i: int| 0 <= i < front.len() ==> about_another(#[trigger] front[i], id),
    ensures
        reported(front + rows, id) == reported(rows, id),
    decreases front.len(),
{
    let all = front + rows;
    if front.len() == 0 {
        assert(all =~= rows);
    } else {
        assert(all[0] == front[0]);
        assert(about_another(front[0], id));
        assert(all.skip(1) =~= front.skip(1) + rows);
        assert forall|i: int| 0 <= i < front.skip(1).len() implies about_another(
            #[trigger] front.skip(1)[i],
            id,
        ) by {
            assert(front.skip(1)[i] == front[i + 1]);
        }
        lemma_skipped(front.skip(1), rows, id);
    }
}

/// Lines about other projects do not count: a report of nothing else gives
/// nothing, and before and after other lines they change nothing.
pub proof fn other_projects_do_not_count(front: Seq<Seq<char>>, rows: Seq<Seq<char>>, id: u32)
    requires
        forall|i: int| 0 <= i < front.len() ==> about_another(#[trigger] front[i], id),
    ensures
        reported(front + rows, id) == reported(rows, id),
        reported(front, id) is None,
{
    lemma_skipped(front, rows, id);
    lemma_skipped(front, Seq::empty(), id);
    assert(front + Seq::<Seq<char>>::empty() =~= front);
}

/// The usage of a project is the second word of its line: of the first line of
/// the report that starts with the hash sign and the id, the number behind it
/// counts units of 1024 bytes. Nothing else on that line has a say, nor has any
/// other line.
pub proof fn usage_is_the_second_word(
    before: Seq<char>,
    indent: Seq<char>,
    id: u32,
    gap: Seq<char>,
    used: u64,
    others: Seq<char>,
    after: Seq<char>,
)
    requires
        before.len() == 0 || before.last() == '\n',
        forall|i: int|
            0 <= i < lines(before).len() ==> about_another(#[trigger] lines(before)[i], id),
        blank(indent),
        blank(gap),
        gap.len() > 0,
        breaks(others),
        !indent.contains('\n'),
        !gap.contains('\n'),
        !others.contains('\n'),
        after.len() == 0 || after[0] == '\n',
    ensures
        ({
            let row = indent + seq!['#'] + decimal(id as nat) + gap + decimal(used as nat) + others;
            reported(lines(before + row + after), id) == Some(
                if used * 1024 <= u64::MAX {
                    (used * 1024) as u64
                } else {
                    u64::MAX
                },
            )
        }),
{
    let mark = seq!['#'] + decimal(id as nat);
    let amount = decimal(used as nat);
    let row = indent + seq!['#'] + decimal(id as nat) + gap + amount + others;
    let tail = gap + amount + others;
    decimals_read_back(id as nat);
    decimals_read_back(used as nat);
    lemma_digits_solid(decimal(id as nat));
    lemma_digits_solid(amount);
    assert(solid(mark)) by {
        assert forall|i: int| 0 <= i < mark.len() implies !is_white(#[trigger] mark[i]) by {
            if i > 0 {
                assert(mark[i] == decimal(id as nat)[i - 1]);
            }
        }
    }
    assert(tail[0] == gap[0]);
    assert(row =~= indent + mark + tail);
    words_stand_between_white_space(indent, mark, tail);
    words_stand_between_white_space(gap, amount, others);
    let w = words(row);
    assert(w[0] == mark);
    assert(w[1] == amount);
    numbers_are_made_of_digits(amount, used as nat, u64::MAX);
    lemma_row_in_text(before, row, after);
    let rest = lines(row + after).skip(1);
    assert(lines(before + row + after) =~= lines(before) + (seq![row] + rest));
    lemma_skipped(lines(before), seq![row] + rest, id);
    assert((seq![row] + rest)[0] == row);
}

proof fn lemma_digits_solid(s: Seq<char>)
    requires
        all_digits(s),
    ensures
        forall|i: int| 0 <= i < s.len() ==> !is_white(#[trigger] s[i]),
        !s.contains('\n'),
        !s.contains('#'),
        !s.contains(':'),
{
    assert forall|i: int| 0 <= i < s.len() implies !is_white(#[trigger] s[i]) && s[i] != '\n'
        && s[i] != '#' && s[i] != ':' by {
        assert(is_digit(s[i]));
    }
}

/// A line of a text, with whole lines before it.
proof fn lemma_row_in_text(before: Seq<char>, row: Seq<char>, after: Seq<char>)
    requires
        before.len() == 0 || before.last() == '\n',
        row.len() > 0,
        forall|i: int| 0 <= i < row.len() ==> row[i] != '\n',
        after.len() == 0 || after[0] == '\n',
    ensures
        lines(before + row + after) == lines(before) + lines(row + after),
        lines(row + after).len() > 0,
        lines(row + after) == seq![row] + lines(row + after).skip(1),
{
    assert(before + row + after =~= before + (row + after));
    whole_lines_come_first(before, row + after);
    assert(!row.contains('\n'));
    if after.len() == 0 {
        assert(row + after =~= row);
        lines_end_at_breaks(row, after);
    } else {
        assert(row + after =~= row + seq!['\n'] + after.skip(1));
        lines_end_at_breaks(row, after.skip(1));
    }
    assert(lines(row + after) =~= seq![row] + lines(row + after).skip(1));
}

/// The words behind the second one have no say: two reports whose lines agree
/// on their first two words state the same usage.
pub proof fn further_columns_have_no_say(a: Seq<Seq<char>>, b: Seq<Seq<char>>, id: u32)
    requires
        a.len() == b.len(),
        forall|i: int|
            0 <= i < a.len() ==> {
                let v = words(#[trigger] a[i]);
                let w = words(b[i]);
                &&& v.len() > 0 <==> w.len() > 0
                &&& v.len() > 1 <==> w.len() > 1
                &&& v.len() > 0 ==> v[0] == w[0]
                &&& v.len() > 1 ==> v[1] == w[1]
            },
    ensures
        reported(a, id) == reported(b, id),
    decreases a.len(),
{
    if a.len() > 0 {
        let v = words(a[0]);
        let w = words(b[0]);
        assert forall|i: int| 0 <= i < a.skip(1).len() implies {
            let v = words(#[trigger] a.skip(1)[i]);
            let w = words(b.skip(1)[i]);
            &&& v.len() > 0 <==> w.len() > 0
            &&& v.len() > 1 <==> w.len() > 1
            &&& v.len() > 0 ==> v[0] == w[0]
            &&& v.len() > 1 ==> v[1] == w[1]
        } by {
            assert(a.skip(1)[i] == a[i + 1]);
        }
        further_columns_have_no_say(a.skip(1), b.skip(1), id);
    }
}

/// The first line about the project decides: its second word, if it is a
/// number, counts units of 1024 bytes. Where it has no second word, or one that
/// is no number, the report states no usage.
pub proof fn first_line_of_a_project_decides(
    front: Seq<Seq<char>>,
    row: Seq<char>,
    back: Seq<Seq<char>>,
    id: u32,
)
    requires
        forall|i: int| 0 <= i < front.len() ==> about_another(#[trigger] front[i], id),
        words(row).len() > 0,
        words(row)[0] == seq!['#'] + decimal(id as nat),
    ensures
        words(row).len() == 1 ==> reported(front + (seq![row] + back), id) is None,
        words(row).len() > 1 && number(words(row)[1], u64::MAX) is None ==> reported(
            front + (seq![row] + back),
            id,
        ) is None,
        words(row).len() > 1 ==> (number(words(row)[1], u64::MAX) matches Some(n) ==> reported(
            front + (seq![row] + back),
            id,
        ) == Some(
            if n * 1024 <= u64::MAX {
                (n * 1024) as u64
            } else {
                u64::MAX
            },
        )),
{
    lemma_skipped(front, seq![row] + back, id);
    assert((seq![row] + back)[0] == row);
}

/// A line of the project table names an id and, behind the first colon, the
/// path of the project. White space around either does not count, nor does what
/// follows a hash sign.
pub proof fn table_lines_name_id_and_path(
    a: Seq<char>,
    id: u32,
    b: Seq<char>,
    c: Seq<char>,
    path: Seq<char>,
    d: Seq<char>,
    comment: Seq<char>,
)
    requires
        blank(a),
        blank(b),
        blank(c),
        blank(d),
        path.len() > 0,
        !path.contains('#'),
        !is_white(path[0]),
        !is_white(path.last()),
        comment.len() == 0 || comment[0] == '#',
    ensures
        table_row(a + decimal(id as nat) + b + seq![':'] + c + path + d + comment) == Some(
            (id as u64, path),
        ),
{
    let n = decimal(id as nat);
    let row = a + n + b + seq![':'] + c + path + d + comment;
    let front = a + n + b + seq![':'] + c + path + d;
    let s = n + b + seq![':'] + c + path;
    decimals_read_back(id as nat);
    lemma_digits_solid(n);
    assert forall|i: int| 0 <= i < front.len() implies #[trigger] front[i] != '#' by {
        let x = front[i];
        let k0 = a.len() as int;
        let k1 = k0 + n.len();
        let k2 = k1 + b.len();
        let k3 = k2 + 1 + c.len();
        let k4 = k3 + path.len();
        if i < k0 {
            assert(x == a[i]);
        } else if i < k1 {
            assert(x == n[i - k0]);
        } else if i < k2 {
            assert(x == b[i - k1]);
        } else if i == k2 {
            assert(x == ':');
        } else if i < k3 {
            assert(x == c[i - k2 - 1]);
        } else if i < k4 {
            assert(x == path[i - k3]);
            assert(path.contains(path[i - k3]));
        } else {
            assert(x == d[i - k4]);
        }
    }
    assert(before_comment(row) =~= front) by {
        if comment.len() > 0 {
            assert(row[front.len() as int] == '#');
            assert forall|i: int| 0 <= i < front.len() implies row[i] != '#' by {
                assert(row[i] == front[i]);
            }
            lemma_first_place(row, '#', front.len() as int);
        } else {
            assert(row =~= front);
            assert(!front.contains('#'));
            lemma_no_place(front, '#', 0);
        }
    }
    let t = s + d;
    assert(front =~= a + t);
    assert(t[0] == n[0]);
    lemma_trim_blank(a, t);
    assert(s.last() == path.last());
    lemma_trim_back_blank(s, d);
    assert(trim(front) == s);
    let at = (n.len() + b.len()) as int;
    assert(s[at] == ':');
    assert forall|i: int| 0 <= i < at implies s[i] != ':' by {
        if i < n.len() {
            assert(s[i] == n[i]);
        } else {
            assert(s[i] == b[i - n.len()]);
        }
    }
    lemma_first_place(s, ':', at);
    let left = s.take(at);
    assert(left =~= Seq::<char>::empty() + (n + b));
    assert((n + b)[0] == n[0]);
    lemma_trim_blank(Seq::empty(), n + b);
    lemma_trim_back_blank(n, b);
    assert(trim(left) == n);
    let right = s.skip(at + 1);
    assert(right =~= c + path);
    lemma_trim_blank(c, path);
    assert(path =~= path + Seq::<char>::empty());
    lemma_trim_back_blank(path, Seq::empty());
    numbers_are_made_of_digits(n, id as nat, u32::MAX as u64);
}

/// A line without a colon before the first hash sign names no project.
pub proof fn table_lines_need_a_colon(text: Seq<char>, comment: Seq<char>)
    requires
        !text.contains('#'),
        !text.contains(':'),
        comment.len() == 0 || comment[0] == '#',
    ensures
        table_row(text + comment) is None,
{
    let row = text + comment;
    assert(before_comment(row) =~= text) by {
        if comment.len() > 0 {
            assert forall|i: int| 0 <= i < text.len() implies row[i] != '#' by {
                assert(row[i] == text[i]);
                assert(text.contains(text[i]));
            }
            lemma_first_place(row, '#', text.len() as int);
        } else {
            assert(row =~= text);
            lemma_no_place(text, '#', 0);
        }
    }
    let s = trim(text);
    lemma_trim_within(text);
    assert(!s.contains(':')) by {
        if s.contains(':') {
            let i = choose|i: int| 0 <= i < s.len() && s[i] == ':';
            assert(s.contains(s[i]));
        }
    }
    lemma_no_place(s, ':', 0);
}

/// A line whose text before the first colon is no number of 32 bits names no
/// project.
pub proof fn table_lines_need_an_id(head: Seq<char>, rest: Seq<char>, comment: Seq<char>)
    requires
        !head.contains('#'),
        !head.contains(':'),
        !rest.contains('#'),
        comment.len() == 0 || comment[0] == '#',
        number(trim(head), u32::MAX as u64) is None,
    ensures
        table_row(head + seq![':'] + rest + comment) is None,
{
    let front = head + seq![':'] + rest;
    let row = front + comment;
    assert(row =~= head + seq![':'] + rest + comment);
    assert forall|i: int| 0 <= i < front.len() implies #[trigger] front[i] != '#' by {
        if i < head.len() {
            assert(head.contains(head[i]));
        } else if i > head.len() {
            assert(rest.contains(rest[i - head.len() - 1]));
        }
    }
    assert(before_comment(row) =~= front) by {
        if comment.len() > 0 {
            assert forall|i: int| 0 <= i < front.len() implies row[i] != '#' by {
                assert(row[i] == front[i]);
            }
            lemma_first_place(row, '#', front.len() as int);
        } else {
            assert(row =~= front);
            assert(!front.contains('#'));
            lemma_no_place(front, '#', 0);
        }
    }
    let left = trim_front(head);
    lemma_trim_before(head, seq![':'] + rest);
    assert(front =~= head + (seq![':'] + rest));
    lemma_trim_back_behind(left + seq![':'], rest);
    let s = trim(front);
    let right = trim_back(rest);
    assert(left + (seq![':'] + rest) =~= left + seq![':'] + rest);
    assert(s == left + seq![':'] + right);
    lemma_front_within(head);
    assert forall|i: int| 0 <= i < left.len() implies s[i] != ':' by {
        assert(left.contains(left[i]));
        assert(head.contains(left[i]));
    }
    assert(s[left.len() as int] == ':');
    lemma_first_place(s, ':', left.len() as int);
    assert(s.take(left.len() as int) =~= left);
    lemma_trim_front_twice(head);
}

proof fn lemma_trim_front_twice(s: Seq<char>)
    ensures
        trim_front(trim_front(s)) == trim_front(s),
    decreases s.len(),
{
    if s.len() > 0 && is_white(s[0]) {
        lemma_trim_front_twice(s.skip(1));
    }
}

/// White space in front is what stands before the first other character.
proof fn lemma_trim_before(s: Seq<char>, rest: Seq<char>)
    requires
        rest.len() > 0,
        !is_white(rest[0]),
    ensures
        trim_front(s + rest) == trim_front(s) + rest,
    decreases s.len(),
{
    let all = s + rest;
    if s.len() == 0 {
        assert(all =~= rest);
        assert(trim_front(s) + rest =~= rest);
    } else if is_white(s[0]) {
        assert(all[0] == s[0]);
        assert(all.skip(1) =~= s.skip(1) + rest);
        lemma_trim_before(s.skip(1), rest);
    } else {
        assert(all[0] == s[0]);
    }
}

/// White space at the end is what stands behind the last other character.
proof fn lemma_trim_back_behind(s: Seq<char>, rest: Seq<char>)
    requires
        s.len() > 0,
        !is_white(s.last()),
    ensures
        trim_back(s + rest) == s + trim_back(rest),
    decreases rest.len(),
{
    let all = s + rest;
    if rest.len() == 0 {
        assert(all =~= s);
        assert(s + trim_back(rest) =~= s);
    } else if is_white(rest.last()) {
        assert(all.last() == rest.last());
        assert(all.drop_last() =~= s + rest.drop_last());
        lemma_trim_back_behind(s, rest.drop_last());
    } else {
        assert(all.last() == rest.last());
    }
}

/// Trimming leaves only characters of the text.
proof fn lemma_trim_within(s: Seq<char>)
    ensures
        forall|c: char| #[trigger] trim(s).contains(c) ==> s.contains(c),
{
    lemma_front_within(s);
    lemma_back_within(trim_front(s));
}

proof fn lemma_front_within(s: Seq<char>)
    ensures
        forall|c: char| #[trigger] trim_front(s).contains(c) ==> s.contains(c),
    decreases s.len(),
{
    if s.len() > 0 && is_white(s[0]) {
        lemma_front_within(s.skip(1));
        assert forall|c: char| #[trigger] trim_front(s).contains(c) implies s.contains(c) by {
            assert(trim_front(s.skip(1)).contains(c));
            assert(s.skip(1).contains(c));
            let i = choose|i: int| 0 <= i < s.skip(1).len() && s.skip(1)[i] == c;
            assert(s[i + 1] == c);
        }
    }
}

proof fn lemma_back_within(s: Seq<char>)
    ensures
        forall|c: char| #[trigger] trim_back(s).contains(c) ==> s.contains(c),
    decreases s.len(),
{
    if s.len() > 0 && is_white(s.last()) {
        lemma_back_within(s.drop_last());
        assert forall|c: char| #[trigger] trim_back(s).contains(c) implies s.contains(c) by {
            assert(trim_back(s.drop_last()).contains(c));
            assert(s.drop_last().contains(c));
            let i = choose|i: int| 0 <= i < s.drop_last().len() && s.drop_last()[i] == c;
            assert(s[i] == c);
        }
    }
}

/// The first line that maps a project to the path decides. Lines for other
/// paths, and lines that name no project, are passed over.
pub proof fn first_project_of_a_path_counts(
    front: Seq<Seq<char>>,
    row: Seq<char>,
    back: Seq<Seq<char>>,
    path: Seq<char>,
    id: u32,
)
    requires
        forall|i: int|
            0 <= i < front.len() ==> table_row(#[trigger] front[i]) is None || (table_row(
                front[i],
            )->0).1 != path,
    ensures
        table_row(row) == Some((id as u64, path)) ==> project_of(front + (seq![row] + back), path)
            == Some(id),
        project_of(front, path) is None,
    decreases front.len(),
{
    let all = front + (seq![row] + back);
    if front.len() == 0 {
        assert(all[0] == row);
    } else {
        assert(all[0] == front[0]);
        assert(all.skip(1) =~= front.skip(1) + (seq![row] + back));
        assert forall|i: int| 0 <= i < front.skip(1).len() implies table_row(
            #[trigger] front.skip(1)[i],
        ) is None || (table_row(front.skip(1)[i])->0).1 != path by {
            assert(front.skip(1)[i] == front[i + 1]);
        }
        first_project_of_a_path_counts(front.skip(1), row, back, path, id);
    }
}

/// The fast-path goes on only on XFS, only for a project of the path, and only
/// with what a command that succeeded printed.
pub proof fn fast_path_takes_every_step(event: QuotaEvent, r: QuotaAction)
    requires
        quota_leads_to(event, r),
    ensures
        event matches QuotaEvent::Filesystem(kind) ==> {
            &&& kind == 0x58465342 ==> r is ReadProjects
            &&& kind != 0x58465342 ==> r == QuotaAction::Done(None)
        },
        event matches QuotaEvent::Projects(text, target) ==> {
            &&& text is None ==> r == QuotaAction::Done(None)
            &&& text is Some && project_of(lines(text->0@), target@) is None ==> r
                == QuotaAction::Done(None)
            &&& text is Some && project_of(lines(text->0@), target@) is Some ==> {
                &&& r is RunReport
                &&& Some(r->RunReport_0) == project_of(lines(text->0@), target@)
                &&& r->RunReport_1@ == "report -np "@ + decimal(r->RunReport_0 as nat)
            }
        },
        event matches QuotaEvent::Report(id, output) ==> {
            &&& output is None ==> r == QuotaAction::Done(None)
            &&& output is Some && !(output->0).0 ==> r == QuotaAction::Done(None)
            &&& output is Some && (output->0).0 ==> r == QuotaAction::Done(
                reported(lines((output->0).1@), id),
            )
        },
{
}

} // verus!
