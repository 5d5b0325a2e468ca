//! XFS project-quota fast-path.
//!
//! When a directory has an XFS project quota applied, the kernel already
//! tracks total bytes used in O(1). [`try_quota_total`] says what to ask the
//! system next, and reads what it answers: the type of the filesystem, the
//! project table and the report of `xfs_quota`.
//!
//! Whatever cannot be read is reported as `None`, so that the caller can fall
//! back to a walk.

use vstd::prelude::*;

use crate::num::{capped, capped_product};
use crate::text::{
    chars_of, decimal, decimal_string, find_char, lemma_place_cut, place_of, text_between,
};

verus! {

/// Filesystem type that `statfs` reports for XFS.
pub const XFS_SUPER_MAGIC: i64 = 0x58465342;

/// Characters with the Unicode property `White_Space`.
pub open spec fn is_white(c: char) -> bool {
    ||| 0x9 <= c as u32 <= 0xd
    ||| c as u32 == 0x20
    ||| c as u32 == 0x85
    ||| c as u32 == 0xa0
    ||| c as u32 == 0x1680
    ||| 0x2000 <= c as u32 <= 0x200a
    ||| c as u32 == 0x2028
    ||| c as u32 == 0x2029
    ||| c as u32 == 0x202f
    ||| c as u32 == 0x205f
    ||| c as u32 == 0x3000
}

fn white(c: char) -> (r: bool)
    ensures
        r == is_white(c),
{
    let n: u32 = c as u32;
    (0x9 <= n && n <= 0xd) || n == 0x20 || n == 0x85 || n == 0xa0 || n == 0x1680 || (0x2000 <= n && n
        <= 0x200a) || n == 0x2028 || n == 0x2029 || n == 0x202f || n == 0x205f || n == 0x3000
}

/// The text without white space at its start.
pub open spec fn trim_front(s: Seq<char>) -> Seq<char>
    decreases s.len(),
{
    if s.len() > 0 && is_white(s[0]) {
        trim_front(s.skip(1))
    } else {
        s
    }
}

/// The text without white space at its end.
pub open spec fn trim_back(s: Seq<char>) -> Seq<char>
    decreases s.len(),
{
    if s.len() > 0 && is_white(s.last()) {
        trim_back(s.drop_last())
    } else {
        s
    }
}

/// The text without white space at either end.
pub open spec fn trim(s: Seq<char>) -> Seq<char> {
    trim_back(trim_front(s))
}

/// The number of characters before the first white space.
pub open spec fn word_len(s: Seq<char>) -> nat
    decreases s.len(),
{
    if s.len() > 0 && !is_white(s[0]) {
        1 + word_len(s.skip(1))
    } else {
        0
    }
}

/// Trimming leaves no more characters, and none of white space in front.
pub proof fn lemma_trim_front(s: Seq<char>)
    ensures
        trim_front(s).len() <= s.len(),
        trim_front(s).len() > 0 ==> !is_white(trim_front(s)[0]),
    decreases s.len(),
{
    if s.len() > 0 && is_white(s[0]) {
        lemma_trim_front(s.skip(1));
    }
}

/// A word has no more characters than the text.
pub proof fn lemma_word_len(s: Seq<char>)
    ensures
        word_len(s) <= s.len(),
    decreases s.len(),
{
    if s.len() > 0 && !is_white(s[0]) {
        lemma_word_len(s.skip(1));
    }
}

/// The words of a text: what stands between white space.
pub open spec fn words(s: Seq<char>) -> Seq<Seq<char>>
    decreases s.len(),
{
    let t = trim_front(s);
    let n = word_len(t) as int;
    if t.len() == 0 {
        Seq::empty()
    } else {
        proof {
            lemma_trim_front(s);
            lemma_word_len(t);
        }
        seq![t.take(n)] + words(t.skip(n))
    }
}

/// The lines of a text. The last one need not end in a line break. A carriage
/// return before the break counts as white space at the end of the line.
pub open spec fn lines(s: Seq<char>) -> Seq<Seq<char>>
    decreases s.len(),
{
    let i = place_of(s, '\n', 0);
    if s.len() == 0 {
        Seq::empty()
    } else if 0 <= i < s.len() {
        seq![s.take(i)] + lines(s.skip(i + 1))
    } else {
        seq![s]
    }
}

pub open spec fn is_digit(c: char) -> bool {
    '0' <= c <= '9'
}

pub open spec fn all_digits(s: Seq<char>) -> bool {
    forall|i: int| 0 <= i < s.len() ==> is_digit(#[trigger] s[i])
}

/// The number that decimal digits stand for.
pub open spec fn digits_value(s: Seq<char>) -> nat
    decreases s.len(),
{
    if s.len() == 0 {
        0
    } else {
        digits_value(s.drop_last()) * 10 + (s.last() as u32 - '0' as u32) as nat
    }
}

/// The number that a text denotes, if it is an unsigned decimal number of at
/// most `max`. A plus sign may stand before it.
pub open spec fn number(s: Seq<char>, max: u64) -> Option<u64> {
    let digits = if s.len() > 0 && s[0] == '+' {
        s.skip(1)
    } else {
        s
    };
    if digits.len() > 0 && all_digits(digits) && digits_value(digits) <= max {
        Some(digits_value(digits) as u64)
    } else {
        None
    }
}

proof fn lemma_digits_grow(s: Seq<char>, n: int)
    requires
        0 <= n <= s.len(),
    ensures
        digits_value(s.take(n)) <= digits_value(s) || !all_digits(s),
    decreases s.len() - n,
{
    if n < s.len() && all_digits(s) {
        assert(s.take(n + 1).drop_last() =~= s.take(n));
        assert(s.take(n + 1).last() == s[n]);
        assert(is_digit(s[n]));
        lemma_digits_grow(s, n + 1);
    } else {
        assert(s.take(s.len() as int) =~= s);
    }
}

/// Reads an unsigned decimal number of at most `max`.
fn parse_number(chars: &Vec<char>, from: usize, to: usize, max: u64) -> (r: Option<u64>)
    requires
        from <= to <= chars@.len(),
    ensures
        r == number(chars@.subrange(from as int, to as int), max),
{
    let ghost s = chars@.subrange(from as int, to as int);
    let mut start: usize = from;
    if from < to && chars[from] == '+' {
        start = from + 1;
    }
    let ghost digits = chars@.subrange(start as int, to as int);
    proof {
        if from < to {
            assert(s[0] == chars@[from as int]);
        }
        if start > from {
            assert(s.skip(1) =~= digits);
        }
    }
    if start == to {
        return None;
    }
    let mut value: u64 = 0;
    let mut i: usize = start;
    proof {
        assert(digits.take(0) =~= Seq::empty());
    }
    while i < to
        invariant
            start <= i <= to <= chars@.len(),
            digits == chars@.subrange(start as int, to as int),
            forall|j: int| 0 <= j < i - start ==> is_digit(#[trigger] digits[j]),
            value == digits_value(digits.take(i - start)),
            value <= max,
            start < to,
            number(chars@.subrange(from as int, to as int), max) == (if all_digits(digits)
                && digits_value(digits) <= max {
                Some(digits_value(digits) as u64)
            } else {
                None
            }),
        decreases to - i,
    {
        let c = chars[i];
        proof {
            assert(c == digits[i - start]);
            assert(digits.take(i - start + 1).drop_last() =~= digits.take(i - start));
            assert(digits.take(i - start + 1).last() == c);
        }
        if !('0' <= c && c <= '9') {
            return None;
        }
        let d: u64 = (c as u32 - '0' as u32) as u64;
        let bigger: u64 = match value.checked_mul(10) {
            Some(v) => match v.checked_add(d) {
                Some(v) => v,
                None => {
                    proof {
                        lemma_digits_grow(digits, i - start + 1);
                    }
                    return None;
                },
            },
            None => {
                proof {
                    lemma_digits_grow(digits, i - start + 1);
                }
                return None;
            },
        };
        if bigger > max {
            proof {
                lemma_digits_grow(digits, i - start + 1);
            }
            return None;
        }
        value = bigger;
        i += 1;
    }
    proof {
        assert(digits.take(digits.len() as int) =~= digits);
    }
    Some(value)
}

/// Where the white space at the start of a stretch ends.
fn skip_white(chars: &Vec<char>, from: usize, to: usize) -> (r: usize)
    requires
        from <= to <= chars@.len(),
    ensures
        from <= r <= to,
        chars@.subrange(r as int, to as int) == trim_front(
            chars@.subrange(from as int, to as int),
        ),
{
    let mut i: usize = from;
    while i < to && white(chars[i])
        invariant
            from <= i <= to <= chars@.len(),
            trim_front(chars@.subrange(i as int, to as int)) == trim_front(
                chars@.subrange(from as int, to as int),
            ),
        decreases to - i,
    {
        proof {
            let s = chars@.subrange(i as int, to as int);
            assert(s[0] == chars@[i as int]);
            assert(s.skip(1) =~= chars@.subrange(i + 1, to as int));
        }
        i += 1;
    }
    proof {
        let s = chars@.subrange(i as int, to as int);
        if i < to {
            assert(s[0] == chars@[i as int]);
        }
    }
    i
}

/// Where the white space at the end of a stretch starts.
fn drop_white(chars: &Vec<char>, from: usize, to: usize) -> (r: usize)
    requires
        from <= to <= chars@.len(),
    ensures
        from <= r <= to,
        chars@.subrange(from as int, r as int) == trim_back(
            chars@.subrange(from as int, to as int),
        ),
{
    let mut i: usize = to;
    while i > from && white(chars[i - 1])
        invariant
            from <= i <= to <= chars@.len(),
            trim_back(chars@.subrange(from as int, i as int)) == trim_back(
                chars@.subrange(from as int, to as int),
            ),
        decreases i,
    {
        proof {
            let s = chars@.subrange(from as int, i as int);
            assert(s.last() == chars@[i - 1]);
            assert(s.drop_last() =~= chars@.subrange(from as int, i - 1));
        }
        i -= 1;
    }
    proof {
        let s = chars@.subrange(from as int, i as int);
        if i > from {
            assert(s.last() == chars@[i - 1]);
        }
    }
    i
}

/// Where the word at the start of a stretch ends.
fn end_of_word(chars: &Vec<char>, from: usize, to: usize) -> (r: usize)
    requires
        from <= to <= chars@.len(),
    ensures
        from <= r <= to,
        r - from == word_len(chars@.subrange(from as int, to as int)),
{
    let mut i: usize = from;
    while i < to && !white(chars[i])
        invariant
            from <= i <= to <= chars@.len(),
            word_len(chars@.subrange(from as int, to as int)) == (i - from) + word_len(
                chars@.subrange(i as int, to as int),
            ),
        decreases to - i,
    {
        proof {
            let s = chars@.subrange(i as int, to as int);
            assert(s[0] == chars@[i as int]);
            assert(s.skip(1) =~= chars@.subrange(i + 1, to as int));
        }
        i += 1;
    }
    proof {
        let s = chars@.subrange(i as int, to as int);
        if i < to {
            assert(s[0] == chars@[i as int]);
        }
    }
    i
}

/// The first word of a stretch: where it starts and where it ends. Both are
/// the end of the stretch if it has no words.
fn first_word(chars: &Vec<char>, from: usize, to: usize) -> (r: (usize, usize))
    requires
        from <= to <= chars@.len(),
    ensures
        from <= r.0 <= r.1 <= to,
        ({
            let all = words(chars@.subrange(from as int, to as int));
            if r.0 < r.1 {
                all == seq![chars@.subrange(r.0 as int, r.1 as int)] + words(
                    chars@.subrange(r.1 as int, to as int),
                )
            } else {
                all.len() == 0
            }
        }),
{
    let ghost s = chars@.subrange(from as int, to as int);
    let a = skip_white(chars, from, to);
    let b = end_of_word(chars, a, to);
    proof {
        lemma_trim_front(s);
        let t = chars@.subrange(a as int, to as int);
        assert(t.take(b - a) =~= chars@.subrange(a as int, b as int));
        assert(t.skip(b - a) =~= chars@.subrange(b as int, to as int));
    }
    (a, b)
}

/// The notation of a project id in a report.
pub open spec fn project_mark(id: u32) -> Seq<char> {
    seq!['#'] + decimal(id as nat)
}

/// The usage that a report states for a project, in bytes: of the first line
/// whose first word marks the project the second word, which counts KiB. Every
/// other line is skipped.
pub open spec fn reported(rows: Seq<Seq<char>>, id: u32) -> Option<u64>
    decreases rows.len(),
{
    if rows.len() == 0 {
        None
    } else {
        let w = words(rows[0]);
        if w.len() == 0 || w[0] != project_mark(id) {
            reported(rows.skip(1), id)
        } else if w.len() < 2 {
            None
        } else {
            match number(w[1], u64::MAX) {
                Some(n) => Some(capped((n * 1024) as nat)),
                None => None,
            }
        }
    }
}

/// Picks the `Used` column for the matching `#<id>` row from
/// `xfs_quota report -np` output.
///
/// Sample input:
/// ```text
/// Project quota on /mnt/data (/dev/sda1)
///                                Blocks
/// Project ID       Used       Soft       Hard    Warn/Grace
/// ---------- --------------------------------------------------
/// #42            1234560          0          0     00 [--------]
/// ```
pub fn parse_xfs_quota_report(text: &str, project_id: u32) -> (r: Option<u64>)
    ensures
        r == reported(lines(text@), project_id),
{
    let chars = chars_of(text);
    let mark = "#".to_owned().concat(decimal_string(project_id as u64).as_str());
    proof {
        reveal_strlit("#");
        assert(mark@ =~= project_mark(project_id));
        assert(chars@.skip(0) =~= chars@);
    }
    let mut at: usize = 0;
    while at < chars.len()
        invariant
            at <= chars@.len(),
            mark@ == project_mark(project_id),
            reported(lines(text@), project_id) == reported(
                lines(chars@.skip(at as int)),
                project_id,
            ),
        decreases chars@.len() - at,
    {
        let end = find_char(&chars, '\n', at);
        let ghost rest = chars@.skip(at as int);
        let ghost row = chars@.subrange(at as int, end as int);
        proof {
            lemma_place_cut(chars@, '\n', at as int, chars@.len() as int);
            assert(rest =~= chars@.subrange(at as int, chars@.len() as int));
            assert(rest.take(end - at) =~= row);
            if end < chars@.len() {
                assert(rest.skip(end - at + 1) =~= chars@.skip(end + 1));
                assert(lines(rest) == seq![row] + lines(chars@.skip(end + 1)));
                assert(lines(rest).skip(1) =~= lines(chars@.skip(end + 1)));
            } else {
                assert(lines(rest) =~= seq![row]);
                assert(lines(rest).skip(1) =~= Seq::empty());
            }
            assert(lines(rest)[0] == row);
        }
        let (a, b) = first_word(&chars, at, end);
        if a < b && text_between(&chars, a, b) == mark {
            let (c, d) = first_word(&chars, b, end);
            if c == d {
                return None;
            }
            return match parse_number(&chars, c, d, u64::MAX) {
                Some(used_kib) => Some(capped_product(used_kib, 1024)),
                None => None,
            };
        }
        if end == chars.len() {
            proof {
                assert(reported(lines(rest).skip(1), project_id) is None);
            }
            return None;
        }
        at = end + 1;
    }
    None
}

/// The text before the first `#`.
pub open spec fn before_comment(s: Seq<char>) -> Seq<char> {
    s.take(place_of(s, '#', 0))
}

/// The project that a line of the project table maps to a path, as an id and
/// that path: what stands before and after the first colon.
pub open spec fn table_row(line: Seq<char>) -> Option<(u64, Seq<char>)> {
    let s = trim(before_comment(line));
    let i = place_of(s, ':', 0);
    if 0 <= i < s.len() {
        match number(trim(s.take(i)), u32::MAX as u64) {
            Some(id) => Some((id, trim(s.skip(i + 1)))),
            None => None,
        }
    } else {
        None
    }
}

/// The project of the first line that maps one to the path.
pub open spec fn project_of(rows: Seq<Seq<char>>, path: Seq<char>) -> Option<u32>
    decreases rows.len(),
{
    if rows.len() == 0 {
        None
    } else {
        match table_row(rows[0]) {
            Some((id, p)) if p == path => Some(id as u32),
            _ => project_of(rows.skip(1), path),
        }
    }
}

/// Where a stretch starts and ends without white space at either end.
fn trim_between(chars: &Vec<char>, from: usize, to: usize) -> (r: (usize, usize))
    requires
        from <= to <= chars@.len(),
    ensures
        from <= r.0 <= r.1 <= to,
        chars@.subrange(r.0 as int, r.1 as int) == trim(chars@.subrange(from as int, to as int)),
{
    let a = skip_white(chars, from, to);
    let b = drop_white(chars, a, to);
    (a, b)
}

/// Resolves a path to its XFS project id by the lines of `/etc/projects`.
/// Returns `None` if no entry matches.
pub fn project_id_in(projects: &str, target: &str) -> (r: Option<u32>)
    ensures
        r == project_of(lines(projects@), target@),
{
    let chars = chars_of(projects);
    let wanted = target.to_owned();
    let mut at: usize = 0;
    proof {
        assert(chars@.skip(0) =~= chars@);
    }
    while at < chars.len()
        invariant
            at <= chars@.len(),
            wanted@ == target@,
            project_of(lines(projects@), target@) == project_of(
                lines(chars@.skip(at as int)),
                target@,
            ),
        decreases chars@.len() - at,
    {
        let end = find_char(&chars, '\n', at);
        let ghost rest = chars@.skip(at as int);
        let ghost row = chars@.subrange(at as int, end as int);
        proof {
            lemma_place_cut(chars@, '\n', at as int, chars@.len() as int);
            assert(rest =~= chars@.subrange(at as int, chars@.len() as int));
            assert(rest.take(end - at) =~= row);
            if end < chars@.len() {
                assert(rest.skip(end - at + 1) =~= chars@.skip(end + 1));
                assert(lines(rest) == seq![row] + lines(chars@.skip(end + 1)));
                assert(lines(rest).skip(1) =~= lines(chars@.skip(end + 1)));
            } else {
                assert(lines(rest) =~= seq![row]);
                assert(lines(rest).skip(1) =~= Seq::empty());
            }
            assert(lines(rest)[0] == row);
        }
        if let Some((id, a, b)) = read_row(&chars, at, end) {
            if text_between(&chars, a, b) == wanted {
                return Some(id);
            }
        }
        if end == chars.len() {
            proof {
                assert(project_of(lines(rest).skip(1), target@) is None);
            }
            return None;
        }
        at = end + 1;
    }
    None
}

/// The project that a line of the project table maps to a path: its id, and
/// where the path starts and ends.
fn read_row(chars: &Vec<char>, from: usize, to: usize) -> (r: Option<(u32, usize, usize)>)
    requires
        from <= to <= chars@.len(),
    ensures
        table_row(chars@.subrange(from as int, to as int)) == match r {
            Some((id, a, b)) => Some((id as u64, chars@.subrange(a as int, b as int))),
            None => None,
        },
        r matches Some((_, a, b)) ==> a <= b <= chars@.len(),
{
    let ghost line = chars@.subrange(from as int, to as int);
    let mut hash = find_char(chars, '#', from);
    if hash > to {
        hash = to;
    }
    let (a, b) = trim_between(chars, from, hash);
    let ghost s = chars@.subrange(a as int, b as int);
    proof {
        lemma_place_cut(chars@, '#', from as int, to as int);
        assert(before_comment(line) =~= chars@.subrange(from as int, hash as int));
    }
    let colon = find_char(chars, ':', a);
    proof {
        lemma_place_cut(chars@, ':', a as int, b as int);
    }
    if colon >= b {
        return None;
    }
    let (c, d) = trim_between(chars, a, colon);
    let (e, f) = trim_between(chars, colon + 1, b);
    proof {
        assert(s.take(colon - a) =~= chars@.subrange(a as int, colon as int));
        assert(s.skip(colon - a + 1) =~= chars@.subrange(colon + 1, b as int));
    }
    match parse_number(chars, c, d, u32::MAX as u64) {
        Some(id) => Some((id as u32, e, f)),
        None => None,
    }
}

/// The command for `xfs_quota` that reports on a project.
pub fn report_command(project_id: u32) -> (r: String)
    ensures
        r@ == "report -np "@ + decimal(project_id as nat),
{
    "report -np ".to_owned().concat(decimal_string(project_id as u64).as_str())
}

/// What the fast-path gives: the usage that the report states, if the command
/// succeeded.
pub fn quota_from_report(succeeded: bool, report: &str, project_id: u32) -> (r: Option<u64>)
    ensures
        r == (if succeeded {
            reported(lines(report@), project_id)
        } else {
            None
        }),
{
    if succeeded {
        parse_xfs_quota_report(report, project_id)
    } else {
        None
    }
}

/// What the system answered.
pub enum QuotaEvent {
    /// The type of the filesystem that the path lives on, from `statfs`.
    Filesystem(i64),
    /// The text of `/etc/projects`, if there is that file, and the canonical
    /// path.
    Projects(Option<String>, String),
    /// For a project, whether `xfs_quota` succeeded and what it printed. `None`
    /// if it could not be run.
    Report(u32, Option<(bool, String)>),
}

/// What to do next.
pub enum QuotaAction {
    /// Read `/etc/projects` and resolve the path.
    ReadProjects,
    /// Run `xfs_quota` with this command for this project.
    RunReport(u32, String),
    /// The fast-path is through: the bytes used, or `None` if it is unusable.
    Done(Option<u64>),
}

/// What an answer leads to. Only XFS has project quotas, only a project of the
/// path can be reported on, and the report gives the bytes.
pub open spec fn quota_leads_to(event: QuotaEvent, r: QuotaAction) -> bool {
    match event {
        QuotaEvent::Filesystem(f_type) => if f_type == XFS_SUPER_MAGIC {
            r is ReadProjects
        } else {
            r == QuotaAction::Done(None)
        },
        QuotaEvent::Projects(text, target) => {
            let project = match text {
                Some(text) => project_of(lines(text@), target@),
                None => None,
            };
            match project {
                Some(id) => {
                    &&& r is RunReport
                    &&& r->RunReport_0 == id
                    &&& r->RunReport_1@ == "report -np "@ + decimal(id as nat)
                },
                None => r == QuotaAction::Done(None),
            }
        },
        QuotaEvent::Report(id, output) => r == QuotaAction::Done(
            match output {
                Some((true, text)) => reported(lines(text@), id),
                _ => None,
            },
        ),
    }
}

/// One step of the fast-path: check XFS, then the project mapping, then what
/// `xfs_quota` says. It starts with the type of the filesystem.
pub fn try_quota_total(event: QuotaEvent) -> (r: QuotaAction)
    ensures
        quota_leads_to(event, r),
{
    match event {
        QuotaEvent::Filesystem(f_type) => if f_type == XFS_SUPER_MAGIC {
            QuotaAction::ReadProjects
        } else {
            QuotaAction::Done(None)
        },
        QuotaEvent::Projects(text, target) => {
            let project = match text {
                Some(text) => project_id_in(text.as_str(), target.as_str()),
                None => None,
            };
            match project {
                Some(id) => QuotaAction::RunReport(id, report_command(id)),
                None => QuotaAction::Done(None),
            }
        },
        QuotaEvent::Report(id, output) => match output {
            Some((succeeded, text)) => QuotaAction::Done(
                quota_from_report(succeeded, text.as_str(), id),
            ),
            None => QuotaAction::Done(None),
        },
    }
}

} // verus!
