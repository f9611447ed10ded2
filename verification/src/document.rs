//! The document model: the lines of the input that carry content, each split
//! into its dotted key path and its value.
use vstd::prelude::*;
use vstd::utf8::*;
use vstd::string::StringSliceAdditionalSpecFns;
use crate::error::Span;
use crate::text::{
    is_white_space, lemma_trim_covers, lemma_trim_ends, byte_pos, char_len, char_len_utf8, find_char, find_from, lemma_byte_pos_step, lemma_byte_range, trim,
    trim_range, lemma_trim_bounds,
};

verus! {

/// A piece of the input: a range of character indices together with the
/// byte offsets of its ends in the input's UTF-8 encoding.
#[derive(Clone, Copy, Debug, PartialEq, Eq)]
pub struct Token {
    pub start: usize,
    pub end: usize,
    pub byte_start: usize,
    pub byte_end: usize,
}

/// The `key.path = value` content of a line.
#[derive(Clone, Debug)]
pub struct Pair {
    /// The components of the key, split on `.` and trimmed.
    pub keys: Vec<Token>,
    /// The trimmed text after the first `=`.
    pub value: Token,
}

/// A content line of the input.
#[derive(Clone, Debug)]
pub struct Entry {
    /// The whole line, without its line terminator.
    pub line: Token,
    /// `None` when the line holds no `=`.
    pub pair: Option<Pair>,
}

/// A parsed input: its characters, the byte offset of every character
/// boundary, its content lines in order, and what reported spans subtract
/// from the byte offsets of tokens.
pub struct Document {
    pub chars: Vec<char>,
    pub offsets: Vec<usize>,
    pub entries: Vec<Entry>,
    /// What reported spans subtract from the byte offsets of tokens (`span_shift_of`).
    pub span_shift: usize,
}

/// A line that is neither blank (after trimming) nor a `#` comment.
pub open spec fn is_content_line(s: Seq<char>, a: int, b: int) -> bool {
    &&& trim(s, a, b).0 < trim(s, a, b).1
    &&& !(a < b && s[a] == '#')
}

/// End of the line `[start, nl)` ended by the `\n` at `nl`: a `\r` right before it is dropped.
pub open spec fn line_end(s: Seq<char>, start: int, nl: int) -> int {
    if start < nl && s[nl - 1] == '\r' {
        nl - 1
    } else {
        nl
    }
}

/// The content lines of `s`, scanning from index `i` inside the line that starts at `start`.
/// Lines end at `\n` (or `\r\n`); the last line needs no terminator.
pub open spec fn content_lines_from(s: Seq<char>, start: int, i: int) -> Seq<(int, int)>
    decreases s.len() - i,
{
    if i >= s.len() {
        if start < s.len() && is_content_line(s, start, s.len() as int) {
            seq![(start, s.len() as int)]
        } else {
            seq![]
        }
    } else if s[i] == '\n' {
        let e = line_end(s, start, i);
        let rest = content_lines_from(s, i + 1, i + 1);
        if is_content_line(s, start, e) {
            seq![(start, e)] + rest
        } else {
            rest
        }
    } else {
        content_lines_from(s, start, i + 1)
    }
}

/// The content lines of `s`, in order, as character ranges.
pub open spec fn content_lines(s: Seq<char>) -> Seq<(int, int)> {
    content_lines_from(s, 0, 0)
}

/// The trimmed `sep`-separated pieces of `s[start..k]`, scanning from `i`.
pub open spec fn split_on(s: Seq<char>, sep: char, start: int, i: int, k: int) -> Seq<(int, int)>
    decreases k - i,
{
    if i >= k {
        seq![trim(s, start, k)]
    } else if s[i] == sep {
        seq![trim(s, start, i)] + split_on(s, sep, i + 1, i + 1, k)
    } else {
        split_on(s, sep, start, i + 1, k)
    }
}

/// The trimmed `.`-separated components of `s[start..k]`, scanning from `i`.
pub open spec fn split_keys(s: Seq<char>, start: int, i: int, k: int) -> Seq<(int, int)> {
    split_on(s, '.', start, i, k)
}

/// The key components and the value of the line `s[a..b]`, split at its first `=`.
pub open spec fn line_pair(s: Seq<char>, a: int, b: int) -> Option<(Seq<(int, int)>, (int, int))> {
    let eq = find_from(s, a, b, '=');
    if eq < b {
        Some((split_keys(s, a, a, eq), trim(s, eq + 1, b)))
    } else {
        None
    }
}

/// `t` stands for the characters `r` of `s`, with the byte offsets of its ends.
pub open spec fn token_at(s: Seq<char>, t: Token, r: (int, int)) -> bool {
    &&& t.start == r.0
    &&& t.end == r.1
    &&& t.byte_start == byte_pos(s, r.0)
    &&& t.byte_end == byte_pos(s, r.1)
}

pub open spec fn tokens_at(s: Seq<char>, ts: Seq<Token>, rs: Seq<(int, int)>) -> bool {
    &&& ts.len() == rs.len()
    &&& forall|k: int| 0 <= k < ts.len() ==> #[trigger] token_at(s, ts[k], rs[k])
}

/// `e` is the entry of the line `r` of `s`.
pub open spec fn entry_at(s: Seq<char>, e: Entry, r: (int, int)) -> bool {
    &&& token_at(s, e.line, r)
    &&& match line_pair(s, r.0, r.1) {
        None => e.pair is None,
        Some(kv) => match e.pair {
            Some(p) => tokens_at(s, p.keys@, kv.0) && token_at(s, p.value, kv.1),
            None => false,
        },
    }
}

/// The text of a token.
pub open spec fn token_text(s: Seq<char>, t: Token) -> Seq<char> {
    s.subrange(t.start as int, t.end as int)
}

/// The token lies inside the text and carries the byte offsets of its ends.
pub open spec fn token_in(s: Seq<char>, t: Token) -> bool {
    &&& t.start <= t.end <= s.len()
    &&& t.byte_start == byte_pos(s, t.start as int)
    &&& t.byte_end == byte_pos(s, t.end as int)
}

/// The token's byte offsets lie at or after the shift of reported spans.
pub open spec fn span_ok(doc: &Document, t: Token) -> bool {
    doc.span_shift <= t.byte_start <= t.byte_end
}

/// The span reported for a token: its byte offsets less the shift of reported spans.
pub open spec fn span_in(doc: &Document, t: Token) -> Span {
    Span { start: (t.byte_start - doc.span_shift) as usize, end: (t.byte_end - doc.span_shift) as usize }
}

/// Every token of the entry lies inside the text of `doc`, after the shift of reported spans.
pub open spec fn entry_in_doc(doc: &Document, e: Entry) -> bool {
    &&& token_in(doc.chars@, e.line)
    &&& span_ok(doc, e.line)
    &&& match e.pair {
        Some(p) => {
            &&& forall|k: int| 0 <= k < p.keys@.len() ==> #[trigger] token_in(doc.chars@, p.keys@[k])
            &&& forall|k: int| 0 <= k < p.keys@.len() ==> #[trigger] span_ok(doc, p.keys@[k])
            &&& token_in(doc.chars@, p.value)
            &&& span_ok(doc, p.value)
        },
        None => true,
    }
}

pub proof fn lemma_find_from_bounds(s: Seq<char>, i: int, hi: int, c: char)
    requires
        i <= hi,
    ensures
        i <= find_from(s, i, hi, c) <= hi,
    decreases hi - i,
{
    if i < hi && s[i] != c {
        lemma_find_from_bounds(s, i + 1, hi, c);
    }
}

pub proof fn lemma_split_on_bounds(s: Seq<char>, sep: char, start: int, i: int, k: int)
    requires
        start <= i <= k,
    ensures
        forall|j: int|
            0 <= j < split_on(s, sep, start, i, k).len() ==> start <= (#[trigger] split_on(
                s,
                sep,
                start,
                i,
                k,
            )[j]).0 <= split_on(s, sep, start, i, k)[j].1 <= k,
    decreases k - i,
{
    let r = split_on(s, sep, start, i, k);
    if i >= k {
        lemma_trim_bounds(s, start, k);
        assert(r == seq![trim(s, start, k)]);
    } else if s[i] == sep {
        lemma_trim_bounds(s, start, i);
        lemma_split_on_bounds(s, sep, i + 1, i + 1, k);
        let rest = split_on(s, sep, i + 1, i + 1, k);
        assert(r == seq![trim(s, start, i)] + rest);
        assert forall|j: int| 0 <= j < r.len() implies start <= (#[trigger] r[j]).0 <= r[j].1
            <= k by {
            if j > 0 {
                assert(r[j] == rest[j - 1]);
            }
        }
    } else {
        lemma_split_on_bounds(s, sep, start, i + 1, k);
        assert(r == split_on(s, sep, start, i + 1, k));
    }
}

pub proof fn lemma_content_lines_bounds(s: Seq<char>, start: int, i: int)
    requires
        0 <= start <= i <= s.len(),
    ensures
        forall|j: int|
            0 <= j < content_lines_from(s, start, i).len() ==> start <= (
            #[trigger] content_lines_from(s, start, i)[j]).0 <= content_lines_from(
                s,
                start,
                i,
            )[j].1 <= s.len(),
    decreases s.len() - i,
{
    let r = content_lines_from(s, start, i);
    if i >= s.len() {
        if start < s.len() && is_content_line(s, start, s.len() as int) {
            assert(r == seq![(start, s.len() as int)]);
        } else {
            assert(r == Seq::<(int, int)>::empty());
        }
    } else if s[i] == '\n' {
        lemma_content_lines_bounds(s, i + 1, i + 1);
        let rest = content_lines_from(s, i + 1, i + 1);
        let e = line_end(s, start, i);
        if is_content_line(s, start, e) {
            assert(r == seq![(start, e)] + rest);
            assert forall|j: int| 0 <= j < r.len() implies start <= (#[trigger] r[j]).0 <= r[j].1
                <= s.len() by {
                if j > 0 {
                    assert(r[j] == rest[j - 1]);
                }
            }
        } else {
            assert(r == rest);
        }
    } else {
        lemma_content_lines_bounds(s, start, i + 1);
        assert(r == content_lines_from(s, start, i + 1));
    }
}

/// The first content line scanned from `start` comes no later than any other.
pub proof fn lemma_content_lines_first(s: Seq<char>, start: int, i: int)
    requires
        0 <= start <= i <= s.len(),
    ensures
        forall|j: int|
            0 <= j < content_lines_from(s, start, i).len() ==> content_lines_from(s, start, i)[0].0
                <= (#[trigger] content_lines_from(s, start, i)[j]).0,
    decreases s.len() - i,
{
    let r = content_lines_from(s, start, i);
    if i >= s.len() {
        if start < s.len() && is_content_line(s, start, s.len() as int) {
            assert(r == seq![(start, s.len() as int)]);
        } else {
            assert(r == Seq::<(int, int)>::empty());
        }
    } else if s[i] == '\n' {
        lemma_content_lines_first(s, i + 1, i + 1);
        lemma_content_lines_bounds(s, i + 1, i + 1);
        let rest = content_lines_from(s, i + 1, i + 1);
        let e = line_end(s, start, i);
        if is_content_line(s, start, e) {
            assert(r == seq![(start, e)] + rest);
            assert forall|j: int| 0 <= j < r.len() implies r[0].0 <= (#[trigger] r[j]).0 by {
                if j > 0 {
                    assert(r[j] == rest[j - 1]);
                }
            }
        } else {
            assert(r == rest);
        }
    } else {
        lemma_content_lines_first(s, start, i + 1);
        assert(r == content_lines_from(s, start, i + 1));
    }
}

/// The byte offset at which a reading counts the first content line to begin:
/// the sum, over the leading lines that are empty or begin with `#`, of their
/// length in bytes without the line terminator, plus one each, scanning from
/// index `i` inside the line that starts at `start`. (A `\r` before the `\n`
/// is not counted, and a line of white space ends the leading lines.)
pub open spec fn lead_from(s: Seq<char>, start: int, i: int) -> int
    decreases s.len() - i,
{
    if i >= s.len() {
        if start < s.len() && s[start] == '#' {
            byte_pos(s, s.len() as int) - byte_pos(s, start) + 1
        } else {
            0
        }
    } else if s[i] == '\n' {
        let e = line_end(s, start, i);
        if e == start || s[start] == '#' {
            byte_pos(s, e) - byte_pos(s, start) + 1 + lead_from(s, i + 1, i + 1)
        } else {
            0
        }
    } else {
        lead_from(s, start, i + 1)
    }
}

/// The byte offset at which a reading of `s` counts its first content line to begin.
pub open spec fn lead_bytes(s: Seq<char>) -> int {
    lead_from(s, 0, 0)
}

/// What reported spans subtract from the byte offsets of tokens in `s`: the
/// distance between where the first content line begins and where a reading
/// counts it to begin.
pub open spec fn span_shift_of(s: Seq<char>) -> int {
    if content_lines(s).len() == 0 {
        0
    } else {
        byte_pos(s, content_lines(s)[0].0) - lead_bytes(s)
    }
}

pub proof fn lemma_lead_nonneg(s: Seq<char>, start: int, i: int)
    requires
        0 <= start <= i <= s.len(),
    ensures
        0 <= lead_from(s, start, i),
    decreases s.len() - i,
{
    if i >= s.len() {
        lemma_byte_range(s, start, s.len() as int);
    } else if s[i] == '\n' {
        let e = line_end(s, start, i);
        lemma_byte_range(s, start, e);
        lemma_lead_nonneg(s, i + 1, i + 1);
    } else {
        lemma_lead_nonneg(s, start, i + 1);
    }
}

/// The leading lines that a reading counts lie before the first content line,
/// and are counted with no more bytes than they have.
pub proof fn lemma_lead_before_content(s: Seq<char>, start: int, i: int)
    requires
        0 <= start <= i <= s.len(),
        content_lines_from(s, start, i).len() > 0,
    ensures
        lead_from(s, start, i) <= byte_pos(s, content_lines_from(s, start, i)[0].0) - byte_pos(
            s,
            start,
        ),
    decreases s.len() - i,
{
    let r = content_lines_from(s, start, i);
    lemma_content_lines_bounds(s, start, i);
    assert(start <= r[0].0 <= s.len());
    lemma_byte_range(s, start, r[0].0);
    if i >= s.len() {
    } else if s[i] == '\n' {
        let e = line_end(s, start, i);
        if !is_content_line(s, start, e) && (e == start || s[start] == '#') {
            let rest = content_lines_from(s, i + 1, i + 1);
            assert(r == rest);
            lemma_lead_before_content(s, i + 1, i + 1);
            lemma_byte_range(s, e, i);
            lemma_byte_pos_step(s, i);
            assert(char_len(s[i]) == 1);
        }
    } else {
        lemma_lead_before_content(s, start, i + 1);
    }
}

/// `r` is a whole content line of `s`: it starts at the start of the input or
/// after a `\n`, holds no `\n`, ends at the end of the input, at a `\n`, or at a
/// `\r` right before a `\n`, does not begin with `#`, and holds a character
/// that is not white space.
proof fn lemma_content_line_shape(s: Seq<char>, start: int, i: int)
    requires
        0 <= start <= i <= s.len(),
        start == 0 || s[start - 1] == '\n',
        forall|j: int| start <= j < i ==> s[j] != '\n',
    ensures
        forall|p: int|
            0 <= p < content_lines_from(s, start, i).len() ==> {
                let r = #[trigger] content_lines_from(s, start, i)[p];
                &&& start <= r.0 < r.1 <= s.len()
                &&& (r.0 == 0 || s[r.0 - 1] == '\n')
                &&& (forall|j: int| r.0 <= j < r.1 ==> s[j] != '\n')
                &&& (r.1 == s.len() || s[r.1] == '\n' || (s[r.1] == '\r' && r.1 + 1 < s.len() && s[r.1
                    + 1] == '\n'))
                &&& s[r.0] != '#'
                &&& exists|j: int| r.0 <= j < r.1 && !is_white_space(#[trigger] s[j])
            },
        forall|p: int, q: int|
            0 <= p < q < content_lines_from(s, start, i).len() ==> content_lines_from(s, start, i)[p].1
                < content_lines_from(s, start, i)[q].0,
    decreases s.len() - i,
{
    let r = content_lines_from(s, start, i);
    if i >= s.len() {
        if start < s.len() && is_content_line(s, start, s.len() as int) {
            assert(r == seq![(start, s.len() as int)]);
            lemma_trim_ends(s, start, s.len() as int);
            lemma_trim_bounds(s, start, s.len() as int);
            let t = trim(s, start, s.len() as int);
            assert(start <= t.0 < s.len() && !is_white_space(s[t.0]));
        } else {
            assert(r == Seq::<(int, int)>::empty());
        }
    } else if s[i] == '\n' {
        lemma_content_line_shape(s, i + 1, i + 1);
        lemma_content_lines_bounds(s, i + 1, i + 1);
        let rest = content_lines_from(s, i + 1, i + 1);
        let e = line_end(s, start, i);
        if is_content_line(s, start, e) {
            assert(r == seq![(start, e)] + rest);
            lemma_trim_ends(s, start, e);
            lemma_trim_bounds(s, start, e);
            let t = trim(s, start, e);
            assert(start <= t.0 < e && !is_white_space(s[t.0]));
            assert forall|p: int| 0 <= p < r.len() implies {
                let q = #[trigger] r[p];
                &&& start <= q.0 < q.1 <= s.len()
                &&& (q.0 == 0 || s[q.0 - 1] == '\n')
                &&& (forall|j: int| q.0 <= j < q.1 ==> s[j] != '\n')
                &&& (q.1 == s.len() || s[q.1] == '\n' || (s[q.1] == '\r' && q.1 + 1 < s.len() && s[q.1
                    + 1] == '\n'))
                &&& s[q.0] != '#'
                &&& exists|j: int| q.0 <= j < q.1 && !is_white_space(#[trigger] s[j])
            } by {
                if p > 0 {
                    assert(r[p] == rest[p - 1]);
                }
            }
            assert forall|p: int, q: int| 0 <= p < q < r.len() implies r[p].1 < r[q].0 by {
                assert(r[q] == rest[q - 1]);
                if p > 0 {
                    assert(r[p] == rest[p - 1]);
                }
            }
        } else {
            assert(r == rest);
        }
    } else {
        lemma_content_line_shape(s, start, i + 1);
        assert(r == content_lines_from(s, start, i + 1));
    }
}

/// Every whole line of `s` from `start` on that does not begin with `#` and
/// holds a character that is not white space is a content line.
proof fn lemma_content_lines_complete(s: Seq<char>, start: int, i: int, x: int, j: int)
    requires
        0 <= start <= i <= s.len(),
        forall|m: int| start <= m < i ==> s[m] != '\n',
        x == start || (i < x && s[x - 1] == '\n'),
        x <= j < s.len(),
        s[x] != '#',
        !is_white_space(s[j]),
        forall|m: int| x <= m <= j ==> s[m] != '\n',
    ensures
        exists|p: int|
            0 <= p < content_lines_from(s, start, i).len() && (#[trigger] content_lines_from(
                s,
                start,
                i,
            )[p]).0 == x,
    decreases s.len() - i,
{
    let r = content_lines_from(s, start, i);
    if i >= s.len() {
        lemma_trim_covers(s, start, s.len() as int, j);
        assert(is_content_line(s, start, s.len() as int));
        assert(r == seq![(start, s.len() as int)]);
        assert(r[0].0 == x);
    } else if s[i] == '\n' {
        let rest = content_lines_from(s, i + 1, i + 1);
        let e = line_end(s, start, i);
        if x == start {
            assert(j < i);
            if e < i {
                assert(s[i - 1] == '\r');
                assert(is_white_space(s[i - 1]));
                assert(j < e);
            }
            lemma_trim_covers(s, start, e, j);
            assert(is_content_line(s, start, e));
            assert(r == seq![(start, e)] + rest);
            assert(r[0].0 == x);
        } else {
            lemma_content_lines_complete(s, i + 1, i + 1, x, j);
            let p = choose|p: int| 0 <= p < rest.len() && (#[trigger] rest[p]).0 == x;
            if is_content_line(s, start, e) {
                assert(r == seq![(start, e)] + rest);
                assert(r[p + 1] == rest[p]);
            } else {
                assert(r == rest);
            }
        }
    } else {
        lemma_content_lines_complete(s, start, i + 1, x, j);
        assert(r == content_lines_from(s, start, i + 1));
    }
}

impl Document {
    /// Each entry splits its line at the first `=`: a line without `=` has no
    /// key path; otherwise its key components are the pieces of the text before
    /// the `=` split at `.` (one more than the dots there, each trimmed and free
    /// of dots, in order, covering every character that is neither a dot nor
    /// white space), and its value is the text after the `=`, trimmed.
    pub proof fn lemma_entries_split_at_first_eq(&self)
        requires
            self.wf(),
        ensures
            forall|k: int|
                0 <= k < self.entries@.len() ==> split_at_first_eq(
                    self.chars@,
                    (#[trigger] self.entries@[k]).line,
                    self.entries@[k].pair,
                ),
    {
        let s = self.chars@;
        lemma_content_lines_bounds(s, 0, 0);
        assert forall|k: int| 0 <= k < self.entries@.len() implies split_at_first_eq(
            s,
            (#[trigger] self.entries@[k]).line,
            self.entries@[k].pair,
        ) by {
            let r = content_lines(s)[k];
            assert(entry_at(s, self.entries@[k], r));
            lemma_entry_split(s, self.entries@[k], r);
        }
    }

    /// The entries of a document are its content lines, in order: the line of
    /// each entry is a whole line of the input (it starts at the start of the
    /// input or after a `\n` and runs to the end of the input, to a `\n`, or to a
    /// `\r` right before a `\n`), does not begin with `#`, and holds a character
    /// that is not white space; and every whole line of the input that does not
    /// begin with `#` and holds a character that is not white space is the line
    /// of an entry.
    pub proof fn lemma_entries_are_content_lines(&self)
        requires
            self.wf(),
        ensures
            forall|k: int|
                0 <= k < self.entries@.len() ==> {
                    let l = (#[trigger] self.entries@[k]).line;
                    let s = self.chars@;
                    &&& l.start < l.end <= s.len()
                    &&& (l.start == 0 || s[l.start - 1] == '\n')
                    &&& (forall|j: int| l.start <= j < l.end ==> s[j] != '\n')
                    &&& (l.end == s.len() || s[l.end as int] == '\n' || (s[l.end as int] == '\r' && l.end
                        + 1 < s.len() && s[l.end + 1] == '\n'))
                    &&& s[l.start as int] != '#'
                    &&& exists|j: int| l.start <= j < l.end && !is_white_space(#[trigger] s[j])
                },
            forall|k: int, m: int|
                0 <= k < m < self.entries@.len() ==> self.entries@[k].line.end < self.entries@[m].line.start,
            forall|x: int, j: int|
                (x == 0 || (0 < x && self.chars@[x - 1] == '\n')) && x <= j < self.chars@.len()
                    && #[trigger] self.chars@[x] != '#' && !is_white_space(#[trigger] self.chars@[j]) && (forall|m: int|
                    x <= m <= j ==> self.chars@[m] != '\n') ==> exists|k: int|
                    0 <= k < self.entries@.len() && (#[trigger] self.entries@[k]).line.start == x,
    {
        let s = self.chars@;
        let cl = content_lines(s);
        lemma_content_line_shape(s, 0, 0);
        assert forall|k: int| 0 <= k < self.entries@.len() implies #[trigger] token_at(
            s,
            self.entries@[k].line,
            cl[k],
        ) by {
            assert(entry_at(s, self.entries@[k], cl[k]));
        }
        assert forall|k: int| 0 <= k < self.entries@.len() implies {
            let l = (#[trigger] self.entries@[k]).line;
            &&& l.start < l.end <= s.len()
            &&& (l.start == 0 || s[l.start - 1] == '\n')
            &&& (forall|j: int| l.start <= j < l.end ==> s[j] != '\n')
            &&& (l.end == s.len() || s[l.end as int] == '\n' || (s[l.end as int] == '\r' && l.end + 1
                < s.len() && s[l.end + 1] == '\n'))
            &&& s[l.start as int] != '#'
            &&& exists|j: int| l.start <= j < l.end && !is_white_space(#[trigger] s[j])
        } by {
            assert(token_at(s, self.entries@[k].line, cl[k]));
            let r = cl[k];
            assert(exists|j: int| r.0 <= j < r.1 && !is_white_space(#[trigger] s[j]));
        }
        assert forall|k: int, m: int| 0 <= k < m < self.entries@.len() implies self.entries@[k].line.end
            < self.entries@[m].line.start by {
            assert(token_at(s, self.entries@[k].line, cl[k]));
            assert(token_at(s, self.entries@[m].line, cl[m]));
        }
        assert forall|x: int, j: int|
            (x == 0 || (0 < x && s[x - 1] == '\n')) && x <= j < s.len() && #[trigger] s[x] != '#'
                && !is_white_space(#[trigger] s[j]) && (forall|m: int| x <= m <= j ==> s[m] != '\n')
            implies exists|k: int|
            0 <= k < self.entries@.len() && (#[trigger] self.entries@[k]).line.start == x by {
            lemma_content_lines_complete(s, 0, 0, x, j);
            let p = choose|p: int| 0 <= p < cl.len() && (#[trigger] cl[p]).0 == x;
            assert(token_at(s, self.entries@[p].line, cl[p]));
        }
    }
}

/// The number of `c` in `s[i..k]`.
pub open spec fn count_char(s: Seq<char>, c: char, i: int, k: int) -> int
    decreases k - i,
{
    if i >= k {
        0
    } else {
        (if s[i] == c {
            1int
        } else {
            0int
        }) + count_char(s, c, i + 1, k)
    }
}

/// The pieces of `s[start..k]` split at `sep`, scanning from `i` with no `sep`
/// in `s[start..i]`: one more than the separators in `s[i..k]`, each inside
/// `[start, k]`, trimmed, and holding no separator.
pub proof fn lemma_split_on_pieces(s: Seq<char>, sep: char, start: int, i: int, k: int)
    requires
        0 <= start <= i <= k <= s.len(),
        forall|j: int| start <= j < i ==> s[j] != sep,
    ensures
        split_on(s, sep, start, i, k).len() == count_char(s, sep, i, k) + 1,
        forall|p: int|
            0 <= p < split_on(s, sep, start, i, k).len() ==> {
                let r = #[trigger] split_on(s, sep, start, i, k)[p];
                &&& start <= r.0 <= r.1 <= k
                &&& forall|j: int| r.0 <= j < r.1 ==> s[j] != sep
                &&& r.0 < r.1 ==> !is_white_space(s[r.0]) && !is_white_space(s[r.1 - 1])
            },
        forall|p: int, q: int|
            0 <= p < q < split_on(s, sep, start, i, k).len() ==> split_on(s, sep, start, i, k)[p].1
                <= split_on(s, sep, start, i, k)[q].0,
        forall|j: int|
            start <= j < k && s[j] != sep && !is_white_space(s[j]) ==> exists|p: int|
                0 <= p < split_on(s, sep, start, i, k).len() && (#[trigger] split_on(s, sep, start, i, k)[p]).0
                    <= j < split_on(s, sep, start, i, k)[p].1,
    decreases k - i,
{
    let r = split_on(s, sep, start, i, k);
    if i >= k {
        lemma_trim_bounds(s, start, k);
        lemma_trim_ends(s, start, k);
        assert(r == seq![trim(s, start, k)]);
        assert forall|p: int| 0 <= p < r.len() implies {
            let q = #[trigger] r[p];
            &&& start <= q.0 <= q.1 <= k
            &&& forall|j: int| q.0 <= j < q.1 ==> s[j] != sep
            &&& q.0 < q.1 ==> !is_white_space(s[q.0]) && !is_white_space(s[q.1 - 1])
        } by {
            assert(r[p] == trim(s, start, k));
        }
        assert forall|j: int| start <= j < k && s[j] != sep && !is_white_space(s[j]) implies exists|p: int|
            0 <= p < r.len() && (#[trigger] r[p]).0 <= j < r[p].1 by {
            lemma_trim_covers(s, start, k, j);
            assert(r[0] == trim(s, start, k));
        }
    } else if s[i] == sep {
        lemma_trim_bounds(s, start, i);
        lemma_trim_ends(s, start, i);
        lemma_split_on_pieces(s, sep, i + 1, i + 1, k);
        let rest = split_on(s, sep, i + 1, i + 1, k);
        assert(r == seq![trim(s, start, i)] + rest);
        assert forall|p: int| 0 <= p < r.len() implies {
            let q = #[trigger] r[p];
            &&& start <= q.0 <= q.1 <= k
            &&& forall|j: int| q.0 <= j < q.1 ==> s[j] != sep
            &&& q.0 < q.1 ==> !is_white_space(s[q.0]) && !is_white_space(s[q.1 - 1])
        } by {
            if p == 0 {
                assert(r[p] == trim(s, start, i));
            } else {
                assert(r[p] == rest[p - 1]);
            }
        }
        assert forall|p: int, q: int| 0 <= p < q < r.len() implies r[p].1 <= r[q].0 by {
            assert(r[q] == rest[q - 1]);
            assert(i + 1 <= rest[q - 1].0);
            if p == 0 {
                assert(r[p] == trim(s, start, i));
            } else {
                assert(r[p] == rest[p - 1]);
            }
        }
        assert forall|j: int| start <= j < k && s[j] != sep && !is_white_space(s[j]) implies exists|p: int|
            0 <= p < r.len() && (#[trigger] r[p]).0 <= j < r[p].1 by {
            if j < i {
                lemma_trim_covers(s, start, i, j);
                assert(r[0] == trim(s, start, i));
            } else {
                assert(j != i);
                let p = choose|p: int| 0 <= p < rest.len() && (#[trigger] rest[p]).0 <= j < rest[p].1;
                assert(r[p + 1] == rest[p]);
            }
        }
    } else {
        lemma_split_on_pieces(s, sep, start, i + 1, k);
    }
}

/// The pieces `ts` of `s[a..b]` split at `sep`: one more than the separators
/// there, each inside `[a, b]`, trimmed, holding no separator, in order, and
/// covering every character that is neither a separator nor white space.
pub open spec fn pieces_of(s: Seq<char>, ts: Seq<Token>, sep: char, a: int, b: int) -> bool {
    &&& ts.len() == count_char(s, sep, a, b) + 1
    &&& forall|c: int|
        0 <= c < ts.len() ==> {
            let t = #[trigger] ts[c];
            &&& a <= t.start <= t.end <= b
            &&& forall|j: int| t.start <= j < t.end ==> s[j] != sep
            &&& t.start < t.end ==> !is_white_space(s[t.start as int]) && !is_white_space(s[t.end - 1])
        }
    &&& forall|c: int, d: int| 0 <= c < d < ts.len() ==> ts[c].end <= ts[d].start
    &&& forall|j: int|
        a <= j < b && s[j] != sep && !is_white_space(s[j]) ==> exists|c: int|
            0 <= c < ts.len() && (#[trigger] ts[c]).start <= j < ts[c].end
}

/// The line `l` of `s` split at its first `=`: without `=` it has no key path;
/// otherwise the key components are the pieces of the text before the `=`
/// split at `.`, and the value is the text after it, trimmed.
pub open spec fn split_at_first_eq(s: Seq<char>, l: Token, pair: Option<Pair>) -> bool {
    match pair {
        None => forall|j: int| l.start <= j < l.end ==> s[j] != '=',
        Some(p) => exists|q: int|
            #![trigger s[q]]
            {
                &&& l.start <= q < l.end
                &&& s[q] == '='
                &&& (forall|j: int| l.start <= j < q ==> s[j] != '=')
                &&& pieces_of(s, p.keys@, '.', l.start as int, q)
                &&& q < p.value.start <= p.value.end <= l.end
                &&& (p.value.start < p.value.end ==> !is_white_space(s[p.value.start as int])
                    && !is_white_space(s[p.value.end - 1]))
                &&& (forall|j: int|
                    q < j < l.end && !is_white_space(s[j]) ==> p.value.start <= j < p.value.end)
            },
    }
}

proof fn lemma_find_from_first(s: Seq<char>, i: int, hi: int, c: char)
    requires
        i <= hi,
    ensures
        forall|j: int| i <= j < find_from(s, i, hi, c) ==> s[j] != c,
        find_from(s, i, hi, c) < hi ==> s[find_from(s, i, hi, c)] == c,
    decreases hi - i,
{
    if i < hi && s[i] != c {
        lemma_find_from_first(s, i + 1, hi, c);
    }
}

proof fn lemma_entry_split(s: Seq<char>, e: Entry, r: (int, int))
    requires
        0 <= r.0 <= r.1 <= s.len(),
        entry_at(s, e, r),
    ensures
        split_at_first_eq(s, e.line, e.pair),
{
    let eq = find_from(s, r.0, r.1, '=');
    lemma_find_from_bounds(s, r.0, r.1, '=');
    lemma_find_from_first(s, r.0, r.1, '=');
    match e.pair {
        None => {},
        Some(p) => {
            let kv = line_pair(s, r.0, r.1)->0;
            lemma_split_on_pieces(s, '.', r.0, r.0, eq);
            let parts = split_on(s, '.', r.0, r.0, eq);
            assert forall|c: int| 0 <= c < p.keys@.len() implies #[trigger] p.keys@[c].start == parts[c].0
                && p.keys@[c].end == parts[c].1 by {
                assert(token_at(s, p.keys@[c], kv.0[c]));
            }
            let ks = p.keys@;
            assert forall|c: int| 0 <= c < ks.len() implies {
                let t = #[trigger] ks[c];
                &&& r.0 <= t.start <= t.end <= eq
                &&& forall|j: int| t.start <= j < t.end ==> s[j] != '.'
                &&& t.start < t.end ==> !is_white_space(s[t.start as int]) && !is_white_space(s[t.end - 1])
            } by {
                assert(ks[c].start == parts[c].0 && ks[c].end == parts[c].1);
                assert(0 <= c < parts.len());
                let q = parts[c];
            }
            assert forall|c: int, d: int| 0 <= c < d < ks.len() implies ks[c].end <= ks[d].start by {
                assert(ks[c].end == parts[c].1);
                assert(ks[d].start == parts[d].0);
            }
            assert forall|j: int| r.0 <= j < eq && s[j] != '.' && !is_white_space(s[j]) implies exists|c: int|
                0 <= c < ks.len() && (#[trigger] ks[c]).start <= j < ks[c].end by {
                let c = choose|c: int| 0 <= c < parts.len() && (#[trigger] parts[c]).0 <= j < parts[c].1;
                assert(ks[c].start == parts[c].0 && ks[c].end == parts[c].1);
            }
            assert(pieces_of(s, ks, '.', r.0, eq));
            lemma_trim_bounds(s, eq + 1, r.1);
            lemma_trim_ends(s, eq + 1, r.1);
            assert forall|j: int| eq < j < r.1 && !is_white_space(s[j]) implies p.value.start <= j
                < p.value.end by {
                lemma_trim_covers(s, eq + 1, r.1, j);
            }
            assert(s[eq] == '=');
        },
    }
}

impl Document {
    /// Every entry of a well-formed document lies inside its text.
    pub proof fn lemma_entry_in_doc(&self, k: int)
        requires
            self.wf(),
            0 <= k < self.entries@.len(),
        ensures
            entry_in_doc(self, self.entries@[k]),
    {
        let s = self.chars@;
        lemma_content_lines_bounds(s, 0, 0);
        lemma_content_lines_first(s, 0, 0);
        lemma_lead_nonneg(s, 0, 0);
        let r = content_lines(s)[k];
        let first = content_lines(s)[0].0;
        let e = self.entries@[k];
        assert(entry_at(s, e, r));
        assert(first <= r.0);
        assert(self.span_shift <= byte_pos(s, first));
        // a token from `a` to `b` inside the line lies after the shift
        assert forall|a: int, b: int| r.0 <= a <= b <= s.len() implies self.span_shift <= #[trigger] byte_pos(s, a)
            && byte_pos(s, a) <= #[trigger] byte_pos(s, b) by {
            lemma_byte_range(s, first, a);
            lemma_byte_range(s, a, b);
        }
        match line_pair(s, r.0, r.1) {
            Some(kv) => {
                let eq = find_from(s, r.0, r.1, '=');
                lemma_find_from_bounds(s, r.0, r.1, '=');
                lemma_split_on_bounds(s, '.', r.0, r.0, eq);
                lemma_trim_bounds(s, eq + 1, r.1);
                let p = e.pair->0;
                assert forall|j: int| 0 <= j < p.keys@.len() implies #[trigger] token_in(
                    s,
                    p.keys@[j],
                ) by {
                    assert(token_at(s, p.keys@[j], kv.0[j]));
                }
                assert forall|j: int| 0 <= j < p.keys@.len() implies #[trigger] span_ok(
                    self,
                    p.keys@[j],
                ) by {
                    assert(token_at(s, p.keys@[j], kv.0[j]));
                    assert(byte_pos(s, kv.0[j].0) <= byte_pos(s, kv.0[j].1));
                }
                assert(byte_pos(s, kv.1.0) <= byte_pos(s, kv.1.1));
            },
            None => {},
        }
        assert(byte_pos(s, r.0) <= byte_pos(s, r.1));
    }

    /// The span reported for the token `t`.
    pub fn span(&self, t: Token) -> (r: Span)
        requires
            span_ok(self, t),
        ensures
            r == span_in(self, t),
    {
        Span { start: t.byte_start - self.span_shift, end: t.byte_end - self.span_shift }
    }

    /// Whether two tokens have the same text.
    pub fn same_text(&self, t1: Token, t2: Token) -> (r: bool)
        requires
            token_in(self.chars@, t1),
            token_in(self.chars@, t2),
        ensures
            r == (token_text(self.chars@, t1) == token_text(self.chars@, t2)),
    {
        if t1.end - t1.start != t2.end - t2.start {
            proof {
                assert(token_text(self.chars@, t1).len() != token_text(self.chars@, t2).len());
            }
            return false;
        }
        let n = t1.end - t1.start;
        let mut i: usize = 0;
        while i < n
            invariant
                token_in(self.chars@, t1),
                token_in(self.chars@, t2),
                n == t1.end - t1.start == t2.end - t2.start,
                i <= n,
                forall|j: int|
                    0 <= j < i ==> #[trigger] token_text(self.chars@, t1)[j] == token_text(
                        self.chars@,
                        t2,
                    )[j],
            decreases n - i,
        {
            if self.chars[t1.start + i] != self.chars[t2.start + i] {
                proof {
                    assert(token_text(self.chars@, t1)[i as int] != token_text(
                        self.chars@,
                        t2,
                    )[i as int]);
                }
                return false;
            }
            i += 1;
        }
        proof {
            assert(token_text(self.chars@, t1) =~= token_text(self.chars@, t2));
        }
        true
    }

    /// The characters of the input.
    pub open spec fn text(&self) -> Seq<char> {
        self.chars@
    }

    /// The entries are exactly the content lines of the text, in order, and
    /// the offsets are the byte positions of the character boundaries.
    pub open spec fn wf(&self) -> bool {
        &&& self.span_shift == span_shift_of(self.chars@)
        &&& self.offsets@.len() == self.chars@.len() + 1
        &&& forall|i: int|
            0 <= i <= self.chars@.len() ==> #[trigger] self.offsets@[i] == byte_pos(
                self.chars@,
                i,
            )
        &&& self.entries@.len() == content_lines(self.chars@).len()
        &&& forall|k: int|
            0 <= k < self.entries@.len() ==> #[trigger] entry_at(
                self.chars@,
                self.entries@[k],
                content_lines(self.chars@)[k],
            )
    }

    /// Reads `input` into its content lines.
    pub fn parse(input: &str) -> (doc: Document)
        ensures
            doc.wf(),
            doc.text() == input@,
    {
        let chars = chars_of(input);
        let bytes = input.as_bytes();
        let total = bytes.len();
        let offsets = byte_offsets(&chars, total);
        let entries = content_entries(&chars, &offsets);
        let span_shift = if entries.len() == 0 {
            0
        } else {
            let first = entries[0].line.start;
            proof {
                assert(entry_at(chars@, entries@[0], content_lines(chars@)[0]));
                lemma_content_lines_bounds(chars@, 0, 0);
            }
            offsets[first] - leading_bytes(&chars, &offsets)
        };
        Document { chars, offsets, entries, span_shift }
    }

    /// The text of the token `t`.
    pub fn token_string(&self, t: Token) -> (r: String)
        requires
            t.start <= t.end <= self.chars@.len(),
        ensures
            r@ == token_text(self.chars@, t),
    {
        let mut r = String::new();
        let mut i = t.start;
        while i < t.end
            invariant
                t.start <= i <= t.end <= self.chars@.len(),
                r@ == self.chars@.subrange(t.start as int, i as int),
            decreases t.end - i,
        {
            push_char(&mut r, self.chars[i]);
            assert(self.chars@.subrange(t.start as int, i + 1) =~= self.chars@.subrange(
                t.start as int,
                i as int,
            ).push(self.chars@[i as int]));
            i += 1;
        }
        r
    }
}

/// Wraps `String::push`: afterwards the string is the old one followed by `c`,
/// as the standard library documents it.
#[verifier::external_body]
fn push_char(s: &mut String, c: char)
    ensures
        final(s)@ == old(s)@.push(c),
{
    s.push(c);
}

/// Collects the characters of a string.
pub fn chars_of(s: &str) -> (v: Vec<char>)
    ensures
        v@ == s@,
{
    let mut v: Vec<char> = Vec::new();
    for c in it: s.chars()
        invariant
            v@ == it.seq().take(it.index() as int),
            it.seq() == s@,
    {
        v.push(c);
    }
    v
}

/// The byte offset of every character boundary of `chars`, whose encoding is `total` bytes long.
fn byte_offsets(chars: &Vec<char>, total: usize) -> (offsets: Vec<usize>)
    requires
        total == encode_utf8(chars@).len(),
    ensures
        offsets@.len() == chars@.len() + 1,
        forall|i: int| 0 <= i <= chars@.len() ==> #[trigger] offsets@[i] == byte_pos(chars@, i),
{
    let mut offsets: Vec<usize> = Vec::new();
    let mut acc: usize = 0;
    let mut i: usize = 0;
    assert(chars@.take(0) =~= Seq::<char>::empty());
    while i < chars.len()
        invariant
            i <= chars@.len(),
            total == encode_utf8(chars@).len(),
            acc == byte_pos(chars@, i as int),
            offsets@.len() == i,
            forall|j: int| 0 <= j < i ==> #[trigger] offsets@[j] == byte_pos(chars@, j),
        decreases chars@.len() - i,
    {
        offsets.push(acc);
        proof {
            lemma_byte_pos_step(chars@, i as int);
            lemma_byte_range(chars@, 0, i as int + 1);
        }
        acc = acc + char_len_utf8(chars[i]);
        i += 1;
    }
    offsets.push(acc);
    offsets
}

fn make_token(chars: &Vec<char>, offsets: &Vec<usize>, a: usize, b: usize) -> (t: Token)
    requires
        a <= b <= chars@.len(),
        offsets@.len() == chars@.len() + 1,
        forall|i: int| 0 <= i <= chars@.len() ==> #[trigger] offsets@[i] == byte_pos(chars@, i),
    ensures
        token_at(chars@, t, (a as int, b as int)),
{
    Token { start: a, end: b, byte_start: offsets[a], byte_end: offsets[b] }
}

/// The trimmed `sep`-separated pieces of `chars[a..eq]`.
pub(crate) fn split_tokens(chars: &Vec<char>, offsets: &Vec<usize>, sep: char, a: usize, eq: usize) -> (keys: Vec<
    Token,
>)
    requires
        a <= eq <= chars@.len(),
        offsets@.len() == chars@.len() + 1,
        forall|i: int| 0 <= i <= chars@.len() ==> #[trigger] offsets@[i] == byte_pos(chars@, i),
    ensures
        tokens_at(chars@, keys@, split_on(chars@, sep, a as int, a as int, eq as int)),
{
    let mut keys: Vec<Token> = Vec::new();
    let ghost mut acc: Seq<(int, int)> = seq![];
    let mut start = a;
    let mut i = a;
    while i < eq
        invariant
            a <= start <= i <= eq <= chars@.len(),
            offsets@.len() == chars@.len() + 1,
            forall|j: int|
                0 <= j <= chars@.len() ==> #[trigger] offsets@[j] == byte_pos(chars@, j),
            tokens_at(chars@, keys@, acc),
            split_on(chars@, sep, a as int, a as int, eq as int) == acc + split_on(
                chars@,
                sep,
                start as int,
                i as int,
                eq as int,
            ),
        decreases eq - i,
    {
        if chars[i] == sep {
            let (x, y) = trim_range(chars, start, i);
            let t = make_token(chars, offsets, x, y);
            let ghost prev = keys@;
            keys.push(t);
            proof {
                let rest = split_on(chars@, sep, i + 1, i + 1, eq as int);
                assert(split_on(chars@, sep, start as int, i as int, eq as int) == seq![
                    trim(chars@, start as int, i as int),
                ] + rest);
                assert(acc + (seq![trim(chars@, start as int, i as int)] + rest) =~= acc.push(
                    trim(chars@, start as int, i as int),
                ) + rest);
                acc = acc.push(trim(chars@, start as int, i as int));
                assert(tokens_at(chars@, keys@, acc)) by {
                    assert forall|k: int| 0 <= k < keys@.len() implies #[trigger] token_at(
                        chars@,
                        keys@[k],
                        acc[k],
                    ) by {
                        if k < keys@.len() - 1 {
                            assert(keys@[k] == prev[k]);
                        }
                    }
                }
            }
            start = i + 1;
        }
        i += 1;
    }
    let (x, y) = trim_range(chars, start, eq);
    let t = make_token(chars, offsets, x, y);
    keys.push(t);
    proof {
        assert(split_on(chars@, sep, start as int, eq as int, eq as int) == seq![
            trim(chars@, start as int, eq as int),
        ]);
        assert(acc + seq![trim(chars@, start as int, eq as int)] =~= acc.push(
            trim(chars@, start as int, eq as int),
        ));
        let fin = acc.push(trim(chars@, start as int, eq as int));
        assert forall|k: int| 0 <= k < keys@.len() implies #[trigger] token_at(
            chars@,
            keys@[k],
            fin[k],
        ) by {
            if k < keys@.len() - 1 {
                assert(token_at(chars@, keys@[k], acc[k]));
            }
        }
    }
    keys
}

/// The entry of the line `chars[a..b]`.
fn make_entry(chars: &Vec<char>, offsets: &Vec<usize>, a: usize, b: usize) -> (e: Entry)
    requires
        a <= b <= chars@.len(),
        offsets@.len() == chars@.len() + 1,
        forall|i: int| 0 <= i <= chars@.len() ==> #[trigger] offsets@[i] == byte_pos(chars@, i),
    ensures
        entry_at(chars@, e, (a as int, b as int)),
{
    let line = make_token(chars, offsets, a, b);
    let eq = find_char(chars, a, b, '=');
    if eq < b {
        let keys = split_tokens(chars, offsets, '.', a, eq);
        let (x, y) = trim_range(chars, eq + 1, b);
        let value = make_token(chars, offsets, x, y);
        Entry { line, pair: Some(Pair { keys, value }) }
    } else {
        Entry { line, pair: None }
    }
}

/// Whether `chars[a..b]` is a content line.
fn content_line(chars: &Vec<char>, a: usize, b: usize) -> (r: bool)
    requires
        a <= b <= chars@.len(),
    ensures
        r == is_content_line(chars@, a as int, b as int),
{
    let (x, y) = trim_range(chars, a, b);
    x < y && !(a < b && chars[a] == '#')
}

/// The byte offset at which a reading counts the first content line to begin.
fn leading_bytes(chars: &Vec<char>, offsets: &Vec<usize>) -> (r: usize)
    requires
        offsets@.len() == chars@.len() + 1,
        forall|i: int| 0 <= i <= chars@.len() ==> #[trigger] offsets@[i] == byte_pos(chars@, i),
        content_lines(chars@).len() > 0,
    ensures
        r == lead_bytes(chars@),
        r <= byte_pos(chars@, content_lines(chars@)[0].0),
{
    let ghost s = chars@;
    proof {
        lemma_lead_before_content(s, 0, 0);
        lemma_content_lines_bounds(s, 0, 0);
    }
    let ghost bound = byte_pos(s, content_lines(s)[0].0);
    assert(bound == offsets@[content_lines(s)[0].0]);
    let n = chars.len();
    let mut sum: usize = 0;
    let mut start: usize = 0;
    let mut i: usize = 0;
    while i < n
        invariant
            n == s.len(),
            chars@ == s,
            offsets@.len() == s.len() + 1,
            forall|j: int| 0 <= j <= s.len() ==> #[trigger] offsets@[j] == byte_pos(s, j),
            start <= i <= n,
            sum + lead_from(s, start as int, i as int) == lead_bytes(s),
            lead_bytes(s) <= bound,
            bound == byte_pos(s, content_lines(s)[0].0),
            content_lines(s).len() > 0,
            bound <= usize::MAX,
        decreases n - i,
    {
        if chars[i] == '\n' {
            let e = if start < i && chars[i - 1] == '\r' {
                i - 1
            } else {
                i
            };
            assert(e == line_end(s, start as int, i as int));
            if e == start || chars[start] == '#' {
                proof {
                    lemma_lead_nonneg(s, i + 1, i + 1);
                    lemma_byte_range(s, start as int, e as int);
                }
                sum = sum + (offsets[e] - offsets[start]) + 1;
                start = i + 1;
            } else {
                assert(lead_from(s, start as int, i as int) == 0);
                return sum;
            }
        }
        i += 1;
    }
    if start < n && chars[start] == '#' {
        proof {
            lemma_byte_range(s, start as int, n as int);
        }
        sum + (offsets[n] - offsets[start]) + 1
    } else {
        sum
    }
}

/// The entries of the content lines of `chars`.
fn content_entries(chars: &Vec<char>, offsets: &Vec<usize>) -> (entries: Vec<Entry>)
    requires
        offsets@.len() == chars@.len() + 1,
        forall|i: int| 0 <= i <= chars@.len() ==> #[trigger] offsets@[i] == byte_pos(chars@, i),
    ensures
        entries@.len() == content_lines(chars@).len(),
        forall|k: int|
            0 <= k < entries@.len() ==> #[trigger] entry_at(
                chars@,
                entries@[k],
                content_lines(chars@)[k],
            ),
{
    let n = chars.len();
    let mut entries: Vec<Entry> = Vec::new();
    let ghost mut acc: Seq<(int, int)> = seq![];
    let mut start: usize = 0;
    let mut i: usize = 0;
    while i < n
        invariant
            n == chars@.len(),
            start <= i <= n,
            offsets@.len() == chars@.len() + 1,
            forall|j: int|
                0 <= j <= chars@.len() ==> #[trigger] offsets@[j] == byte_pos(chars@, j),
            entries@.len() == acc.len(),
            forall|k: int|
                0 <= k < entries@.len() ==> #[trigger] entry_at(chars@, entries@[k], acc[k]),
            content_lines(chars@) == acc + content_lines_from(chars@, start as int, i as int),
        decreases n - i,
    {
        if chars[i] == '\n' {
            let e = if start < i && chars[i - 1] == '\r' {
                i - 1
            } else {
                i
            };
            assert(e == line_end(chars@, start as int, i as int));
            if content_line(chars, start, e) {
                let ent = make_entry(chars, offsets, start, e);
                entries.push(ent);
                proof {
                    let rest = content_lines_from(chars@, i + 1, i + 1);
                    assert(acc + (seq![(start as int, e as int)] + rest) =~= acc.push(
                        (start as int, e as int),
                    ) + rest);
                    acc = acc.push((start as int, e as int));
                }
            }
            start = i + 1;
        }
        i += 1;
    }
    if start < n && content_line(chars, start, n) {
        let ent = make_entry(chars, offsets, start, n);
        entries.push(ent);
        proof {
            assert(acc + seq![(start as int, n as int)] =~= acc.push((start as int, n as int)));
            acc = acc.push((start as int, n as int));
        }
    } else {
        assert(acc + Seq::<(int, int)>::empty() =~= acc);
    }
    entries
}

/// The byte span of every token of a document cuts out of the UTF-8 encoding
/// of the input exactly the encoding of the token's characters: slicing the
/// input at a token's byte offsets gives the token's text.
pub proof fn lemma_token_bytes(doc: &Document, input: &str, t: Token)
    requires
        doc.wf(),
        doc.text() == input@,
        token_in(doc.chars@, t),
    ensures
        0 <= t.byte_start <= t.byte_end <= input.spec_bytes().len(),
        input.spec_bytes().subrange(t.byte_start as int, t.byte_end as int) == encode_utf8(
            token_text(doc.chars@, t),
        ),
{
    lemma_byte_range(doc.chars@, t.start as int, t.end as int);
}

} // verus!
