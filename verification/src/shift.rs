//! Lines without content inserted into an input, at its start or between any
//! two of its lines: the entries are found again with the same texts, those
//! after the insertion moved by the length of the inserted lines, and their
//! byte offsets by the length of their encoding. Put before the input, lines
//! that are empty or begin with `#` leave reported spans moved by as much.
use vstd::prelude::*;
use vstd::utf8::*;
use crate::text::{
    byte_pos, find_from, skip_ws, skip_ws_back, trim, lemma_byte_pos_step, lemma_encode_utf8_concat,
    lemma_skip_ws_bounds,
    lemma_trim_bounds,
};
use crate::document::{
    Document, Entry, Token, lead_bytes, lead_from, content_lines, content_lines_from, entry_at, is_content_line, line_end,
    line_pair, split_on, token_at, token_text, lemma_content_lines_bounds, lemma_find_from_bounds,
    lemma_split_on_bounds,
};

verus! {

/// `s2` holds the characters `s1[lo..hi]` at the positions moved by `o`.
pub open spec fn agree(s1: Seq<char>, s2: Seq<char>, o: int, lo: int, hi: int) -> bool {
    &&& 0 <= lo <= hi <= s1.len()
    &&& 0 <= o
    &&& hi + o <= s2.len()
    &&& forall|i: int| lo <= i < hi ==> #[trigger] s1[i] == s2[i + o]
}

/// A range moved by `o`.
pub open spec fn shift_range(r: (int, int), o: int) -> (int, int) {
    (r.0 + o, r.1 + o)
}

/// Each range moved by `o`.
pub open spec fn shift_ranges(rs: Seq<(int, int)>, o: int) -> Seq<(int, int)> {
    rs.map_values(|r: (int, int)| shift_range(r, o))
}

proof fn lemma_skip_ws_shift(s1: Seq<char>, s2: Seq<char>, o: int, lo: int, hi: int, i: int)
    requires
        agree(s1, s2, o, lo, hi),
        lo <= i <= hi,
    ensures
        skip_ws(s2, i + o, hi + o) == skip_ws(s1, i, hi) + o,
    decreases hi - i,
{
    if i < hi {
        assert(s1[i] == s2[i + o]);
        lemma_skip_ws_shift(s1, s2, o, lo, hi, i + 1);
    }
}

proof fn lemma_skip_ws_back_shift(s1: Seq<char>, s2: Seq<char>, o: int, lo: int, hi: int, a: int, j: int)
    requires
        agree(s1, s2, o, lo, hi),
        lo <= a <= j <= hi,
    ensures
        skip_ws_back(s2, a + o, j + o) == skip_ws_back(s1, a, j) + o,
    decreases j - a,
{
    if a < j {
        assert(s1[j - 1] == s2[j - 1 + o]);
        lemma_skip_ws_back_shift(s1, s2, o, lo, hi, a, j - 1);
    }
}

proof fn lemma_trim_shift(s1: Seq<char>, s2: Seq<char>, o: int, lo: int, hi: int, a: int, b: int)
    requires
        agree(s1, s2, o, lo, hi),
        lo <= a <= b <= hi,
    ensures
        trim(s2, a + o, b + o) == shift_range(trim(s1, a, b), o),
{
    agree_narrow(s1, s2, o, lo, hi, a, b);
    lemma_skip_ws_shift(s1, s2, o, a, b, a);
    lemma_skip_ws_bounds(s1, a, b);
    lemma_skip_ws_back_shift(s1, s2, o, a, b, skip_ws(s1, a, b), b);
}

proof fn agree_narrow(s1: Seq<char>, s2: Seq<char>, o: int, lo: int, hi: int, a: int, b: int)
    requires
        agree(s1, s2, o, lo, hi),
        lo <= a <= b <= hi,
    ensures
        agree(s1, s2, o, a, b),
{
}

proof fn lemma_find_from_shift(s1: Seq<char>, s2: Seq<char>, o: int, lo: int, hi: int, i: int, k: int, c: char)
    requires
        agree(s1, s2, o, lo, hi),
        lo <= i <= k <= hi,
    ensures
        find_from(s2, i + o, k + o, c) == find_from(s1, i, k, c) + o,
    decreases k - i,
{
    if i < k {
        assert(s1[i] == s2[i + o]);
        lemma_find_from_shift(s1, s2, o, lo, hi, i + 1, k, c);
    }
}

proof fn lemma_split_on_shift(
    s1: Seq<char>,
    s2: Seq<char>,
    o: int,
    lo: int,
    hi: int,
    sep: char,
    start: int,
    i: int,
    k: int,
)
    requires
        agree(s1, s2, o, lo, hi),
        lo <= start <= i <= k <= hi,
    ensures
        split_on(s2, sep, start + o, i + o, k + o) == shift_ranges(split_on(s1, sep, start, i, k), o),
    decreases k - i,
{
    let r1 = split_on(s1, sep, start, i, k);
    if i >= k {
        lemma_trim_shift(s1, s2, o, lo, hi, start, k);
        assert(shift_ranges(r1, o) =~= seq![shift_range(trim(s1, start, k), o)]);
    } else {
        assert(s1[i] == s2[i + o]);
        if s1[i] == sep {
            lemma_trim_shift(s1, s2, o, lo, hi, start, i);
            lemma_split_on_shift(s1, s2, o, lo, hi, sep, i + 1, i + 1, k);
            let rest = split_on(s1, sep, i + 1, i + 1, k);
            assert(shift_ranges(seq![trim(s1, start, i)] + rest, o) =~= seq![
                shift_range(trim(s1, start, i), o),
            ] + shift_ranges(rest, o));
        } else {
            lemma_split_on_shift(s1, s2, o, lo, hi, sep, start, i + 1, k);
        }
    }
}

proof fn lemma_content_line_shift(s1: Seq<char>, s2: Seq<char>, o: int, lo: int, hi: int, a: int, b: int)
    requires
        agree(s1, s2, o, lo, hi),
        lo <= a <= b <= hi,
    ensures
        is_content_line(s2, a + o, b + o) == is_content_line(s1, a, b),
{
    lemma_trim_shift(s1, s2, o, lo, hi, a, b);
    if a < b {
        assert(s1[a] == s2[a + o]);
    }
}

/// The key ranges and value range of a line pair, moved by `o`.
pub open spec fn shift_pair(kv: Option<(Seq<(int, int)>, (int, int))>, o: int) -> Option<
    (Seq<(int, int)>, (int, int)),
> {
    match kv {
        Some(p) => Some((shift_ranges(p.0, o), shift_range(p.1, o))),
        None => None,
    }
}

proof fn lemma_line_pair_shift(s1: Seq<char>, s2: Seq<char>, o: int, lo: int, hi: int, a: int, b: int)
    requires
        agree(s1, s2, o, lo, hi),
        lo <= a <= b <= hi,
    ensures
        line_pair(s2, a + o, b + o) == shift_pair(line_pair(s1, a, b), o),
{
    lemma_find_from_shift(s1, s2, o, lo, hi, a, b, '=');
    let eq = find_from(s1, a, b, '=');
    lemma_find_from_bounds(s1, a, b, '=');
    if eq < b {
        lemma_split_on_shift(s1, s2, o, lo, hi, '.', a, a, eq);
        lemma_trim_shift(s1, s2, o, lo, hi, eq + 1, b);
    }
}

proof fn lemma_line_end_shift(s1: Seq<char>, s2: Seq<char>, o: int, lo: int, hi: int, start: int, nl: int)
    requires
        agree(s1, s2, o, lo, hi),
        lo <= start <= nl <= hi,
    ensures
        line_end(s2, start + o, nl + o) == line_end(s1, start, nl) + o,
{
    if start < nl {
        assert(s1[nl - 1] == s2[nl - 1 + o]);
    }
}

/// The content lines of `s2` from `start + o` on are those of `s1` from
/// `start` on, moved by `o`, where `s2` ends with `s1` moved by `o`.
proof fn lemma_content_lines_shift(s1: Seq<char>, s2: Seq<char>, o: int, start: int, i: int)
    requires
        agree(s1, s2, o, 0, s1.len() as int),
        s2.len() == s1.len() + o,
        0 <= start <= i <= s1.len(),
    ensures
        content_lines_from(s2, start + o, i + o) == shift_ranges(content_lines_from(s1, start, i), o),
    decreases s1.len() - i,
{
    let n1 = s1.len() as int;
    let r1 = content_lines_from(s1, start, i);
    if i >= n1 {
        lemma_content_line_shift(s1, s2, o, 0, n1, start, n1);
        assert(shift_ranges(r1, o) =~= content_lines_from(s2, start + o, i + o));
    } else {
        assert(s1[i] == s2[i + o]);
        if s1[i] == '\n' {
            lemma_line_end_shift(s1, s2, o, 0, n1, start, i);
            let e = line_end(s1, start, i);
            assert(start <= e <= i);
            lemma_content_line_shift(s1, s2, o, 0, n1, start, e);
            lemma_content_lines_shift(s1, s2, o, i + 1, i + 1);
            let rest = content_lines_from(s1, i + 1, i + 1);
            if is_content_line(s1, start, e) {
                assert(shift_ranges(seq![(start, e)] + rest, o) =~= seq![(start + o, e + o)]
                    + shift_ranges(rest, o));
            }
        } else {
            lemma_content_lines_shift(s1, s2, o, start, i + 1);
        }
    }
}

/// Inside a prefix `c` that ends with a line break, the content lines of `u`
/// are those of `c`, followed by those of `u` after `c`.
proof fn lemma_content_lines_prefix(c: Seq<char>, u: Seq<char>, start: int, i: int)
    requires
        c.len() > 0,
        c.last() == '\n',
        agree(c, u, 0, 0, c.len() as int),
        0 <= start <= i < c.len(),
    ensures
        content_lines_from(u, start, i) == content_lines_from(c, start, i) + content_lines_from(
            u,
            c.len() as int,
            c.len() as int,
        ),
    decreases c.len() - i,
{
    let n = c.len() as int;
    let tail = content_lines_from(u, n, n);
    assert(c[i] == u[i + 0]);
    if c[i] == '\n' {
        lemma_line_end_shift(c, u, 0, 0, n, start, i);
        let e = line_end(c, start, i);
        assert(start <= e <= i);
        lemma_content_line_shift(c, u, 0, 0, n, start, e);
        if i + 1 == n {
            assert(content_lines_from(c, n, n) =~= Seq::<(int, int)>::empty());
            if is_content_line(c, start, e) {
                assert(content_lines_from(c, start, i) =~= seq![(start, e)]);
                assert(content_lines_from(u, start, i) == seq![(start, e)] + tail);
            } else {
                assert(content_lines_from(c, start, i) =~= Seq::<(int, int)>::empty());
                assert(content_lines_from(c, start, i) + tail =~= tail);
            }
        } else {
            lemma_content_lines_prefix(c, u, i + 1, i + 1);
            let rest = content_lines_from(c, i + 1, i + 1);
            if is_content_line(c, start, e) {
                assert(seq![(start, e)] + (rest + tail) =~= (seq![(start, e)] + rest) + tail);
            }
        }
    } else {
        lemma_content_lines_prefix(c, u, start, i + 1);
    }
}

/// The byte offset of a position after a prefix `c` is that of the position
/// inside the rest, plus the length of the encoding of `c`.
pub proof fn lemma_byte_pos_prefix(c: Seq<char>, t: Seq<char>, i: int)
    requires
        0 <= i <= t.len(),
    ensures
        byte_pos(c + t, i + c.len()) == encode_utf8(c).len() + byte_pos(t, i),
{
    assert((c + t).take(i + c.len()) =~= c + t.take(i));
    lemma_encode_utf8_concat(c, t.take(i));
}

/// Lines without content (blank or `#` comments, each ended by a line break)
/// put before `t` leave its content lines as they are, moved by their length.
pub proof fn lemma_content_lines_after_comments(c: Seq<char>, t: Seq<char>)
    requires
        c.len() == 0 || c.last() == '\n',
        content_lines(c).len() == 0,
    ensures
        content_lines(c + t) == shift_ranges(content_lines(t), c.len() as int),
{
    let n = c.len() as int;
    let u = c + t;
    if n == 0 {
        assert(u =~= t);
        assert(shift_ranges(content_lines(t), 0) =~= content_lines(t));
    } else {
        assert(agree(c, u, 0, 0, n)) by {
            assert forall|i: int| 0 <= i < n implies #[trigger] c[i] == u[i + 0] by {}
        }
        lemma_content_lines_prefix(c, u, 0, 0);
        assert(agree(t, u, n, 0, t.len() as int)) by {
            assert forall|i: int| 0 <= i < t.len() implies #[trigger] t[i] == u[i + n] by {}
        }
        lemma_content_lines_shift(t, u, n, 0, 0);
        assert(content_lines(c) + content_lines_from(u, n, n) =~= content_lines_from(u, n, n));
    }
}

/// `t2` is `t1` moved by `n` characters and `m` bytes.
pub open spec fn token_moved(t1: Token, t2: Token, n: int, m: int) -> bool {
    &&& t2.start == t1.start + n
    &&& t2.end == t1.end + n
    &&& t2.byte_start == t1.byte_start + m
    &&& t2.byte_end == t1.byte_end + m
}

/// `e2` is `e1` with its line, keys and value moved by `n` characters and `m` bytes.
pub open spec fn entry_moved(e1: Entry, e2: Entry, n: int, m: int) -> bool {
    &&& token_moved(e1.line, e2.line, n, m)
    &&& match (e1.pair, e2.pair) {
        (None, None) => true,
        (Some(p1), Some(p2)) => {
            &&& p1.keys@.len() == p2.keys@.len()
            &&& forall|k: int| 0 <= k < p1.keys@.len() ==> #[trigger] token_moved(p1.keys@[k], p2.keys@[k], n, m)
            &&& token_moved(p1.value, p2.value, n, m)
        },
        _ => false,
    }
}

/// Two entries read alike: both have a key path or neither, with as many
/// components, and the line, each component and the value have the same texts.
pub open spec fn entry_reads_as(s1: Seq<char>, e1: Entry, s2: Seq<char>, e2: Entry) -> bool {
    &&& token_text(s2, e2.line) == token_text(s1, e1.line)
    &&& match (e1.pair, e2.pair) {
        (None, None) => true,
        (Some(p1), Some(p2)) => {
            &&& p1.keys@.len() == p2.keys@.len()
            &&& forall|k: int|
                0 <= k < p1.keys@.len() ==> #[trigger] token_text(s2, p2.keys@[k]) == token_text(
                    s1,
                    p1.keys@[k],
                )
            &&& token_text(s2, p2.value) == token_text(s1, p1.value)
        },
        _ => false,
    }
}

/// `d2` reads as `d1`: as many entries, each reading as the entry of `d1` at its index.
pub open spec fn doc_reads_as(d1: &Document, d2: &Document) -> bool {
    &&& d2.entries@.len() == d1.entries@.len()
    &&& forall|k: int|
        0 <= k < d1.entries@.len() ==> #[trigger] entry_reads_as(
            d1.chars@,
            d1.entries@[k],
            d2.chars@,
            d2.entries@[k],
        )
}

proof fn lemma_text_in(s1: Seq<char>, s2: Seq<char>, o: int, lo: int, hi: int, t1: Token, t2: Token)
    requires
        agree(s1, s2, o, lo, hi),
        lo <= t1.start <= t1.end <= hi,
        t2.start == t1.start + o,
        t2.end == t1.end + o,
    ensures
        token_text(s2, t2) == token_text(s1, t1),
{
    assert forall|j: int| 0 <= j < t1.end - t1.start implies #[trigger] token_text(s2, t2)[j] == token_text(
        s1,
        t1,
    )[j] by {
        assert(s1[t1.start + j] == s2[t1.start + j + o]);
    }
    assert(token_text(s2, t2) =~= token_text(s1, t1));
}

/// A token at `r` of `s1`, and one at `r` moved by `o` of `s2`, where `s2` holds
/// `s1[lo..hi]` moved by `o` and byte offsets there moved by `mb`.
proof fn lemma_token_at_moved_in(
    s1: Seq<char>,
    s2: Seq<char>,
    o: int,
    mb: int,
    lo: int,
    hi: int,
    t1: Token,
    t2: Token,
    r: (int, int),
)
    requires
        agree(s1, s2, o, lo, hi),
        lo <= r.0 <= r.1 <= hi,
        forall|x: int| lo <= x <= hi ==> byte_pos(s2, x + o) == #[trigger] byte_pos(s1, x) + mb,
        token_at(s1, t1, r),
        token_at(s2, t2, shift_range(r, o)),
    ensures
        token_moved(t1, t2, o, mb),
        token_text(s2, t2) == token_text(s1, t1),
{
    assert(byte_pos(s1, r.0) == byte_pos(s1, r.0));
    assert(byte_pos(s1, r.1) == byte_pos(s1, r.1));
    lemma_text_in(s1, s2, o, lo, hi, t1, t2);
}

/// An entry at `r` of `s1`, and one at `r` moved by `o` of `s2`, where `s2`
/// holds `s1[lo..hi]` moved by `o` and byte offsets there moved by `mb`: the
/// second is the first moved, and reads alike.
proof fn lemma_entry_moved_in(
    s1: Seq<char>,
    s2: Seq<char>,
    o: int,
    mb: int,
    lo: int,
    hi: int,
    e1: Entry,
    e2: Entry,
    r: (int, int),
)
    requires
        agree(s1, s2, o, lo, hi),
        lo <= r.0 <= r.1 <= hi,
        forall|x: int| lo <= x <= hi ==> byte_pos(s2, x + o) == #[trigger] byte_pos(s1, x) + mb,
        entry_at(s1, e1, r),
        entry_at(s2, e2, shift_range(r, o)),
    ensures
        entry_moved(e1, e2, o, mb),
        entry_reads_as(s1, e1, s2, e2),
{
    lemma_token_at_moved_in(s1, s2, o, mb, lo, hi, e1.line, e2.line, r);
    lemma_line_pair_shift(s1, s2, o, lo, hi, r.0, r.1);
    let eq = find_from(s1, r.0, r.1, '=');
    lemma_find_from_bounds(s1, r.0, r.1, '=');
    match line_pair(s1, r.0, r.1) {
        Some(kv) => {
            let p1 = e1.pair->0;
            let p2 = e2.pair->0;
            lemma_split_on_bounds(s1, '.', r.0, r.0, eq);
            lemma_trim_bounds(s1, eq + 1, r.1);
            assert forall|k: int| 0 <= k < p1.keys@.len() implies #[trigger] token_moved(
                p1.keys@[k],
                p2.keys@[k],
                o,
                mb,
            ) && token_text(s2, p2.keys@[k]) == token_text(s1, p1.keys@[k]) by {
                assert(token_at(s1, p1.keys@[k], kv.0[k]));
                assert(token_at(s2, p2.keys@[k], shift_ranges(kv.0, o)[k]));
                lemma_token_at_moved_in(s1, s2, o, mb, lo, hi, p1.keys@[k], p2.keys@[k], kv.0[k]);
            }
            assert forall|k: int| 0 <= k < p1.keys@.len() implies #[trigger] token_text(s2, p2.keys@[k])
                == token_text(s1, p1.keys@[k]) by {
                assert(token_moved(p1.keys@[k], p2.keys@[k], o, mb));
            }
            assert(p1.keys@.len() == kv.0.len());
            assert(p2.keys@.len() == shift_ranges(kv.0, o).len());
            lemma_token_at_moved_in(s1, s2, o, mb, lo, hi, p1.value, p2.value, kv.1);
        },
        None => {},
    }
}

proof fn lemma_entry_moved(c: Seq<char>, t: Seq<char>, e1: Entry, e2: Entry, r: (int, int))
    requires
        0 <= r.0 <= r.1 <= t.len(),
        entry_at(t, e1, r),
        entry_at(c + t, e2, shift_range(r, c.len() as int)),
    ensures
        entry_moved(e1, e2, c.len() as int, encode_utf8(c).len() as int),
        entry_reads_as(t, e1, c + t, e2),
{
    let n = c.len() as int;
    let u = c + t;
    assert(agree(t, u, n, 0, t.len() as int)) by {
        assert forall|i: int| 0 <= i < t.len() implies #[trigger] t[i] == u[i + n] by {}
    }
    assert forall|x: int| 0 <= x <= t.len() implies byte_pos(u, x + n) == #[trigger] byte_pos(t, x)
        + encode_utf8(c).len() by {
        lemma_byte_pos_prefix(c, t, x);
    }
    lemma_entry_moved_in(t, u, n, encode_utf8(c).len() as int, 0, t.len() as int, e1, e2, r);
}

/// Blank and comment lines, each ended by a line break, put before an input
/// change nothing of its entries but their places: every entry, with its keys
/// and value, is found again at the same index, moved by the number of
/// characters of those lines, and its byte offsets (so every error span) by
/// the length of their encoding.
pub proof fn lemma_comment_lines_move_entries(d1: &Document, d2: &Document, c: Seq<char>)
    requires
        d1.wf(),
        d2.wf(),
        d2.text() == c + d1.text(),
        c.len() == 0 || c.last() == '\n',
        content_lines(c).len() == 0,
    ensures
        d2.entries@.len() == d1.entries@.len(),
        forall|k: int|
            0 <= k < d1.entries@.len() ==> #[trigger] entry_moved(
                d1.entries@[k],
                d2.entries@[k],
                c.len() as int,
                encode_utf8(c).len() as int,
            ),
        doc_reads_as(d1, d2),
{
    let t = d1.chars@;
    lemma_content_lines_after_comments(c, t);
    lemma_content_lines_bounds(t, 0, 0);
    assert forall|k: int| 0 <= k < d1.entries@.len() implies #[trigger] entry_moved(
        d1.entries@[k],
        d2.entries@[k],
        c.len() as int,
        encode_utf8(c).len() as int,
    ) by {
        let r = content_lines(t)[k];
        assert(entry_at(t, d1.entries@[k], r));
        assert(content_lines(c + t)[k] == shift_range(r, c.len() as int));
        assert(entry_at(c + t, d2.entries@[k], content_lines(d2.chars@)[k]));
        lemma_entry_moved(c, t, d1.entries@[k], d2.entries@[k], r);
    }
    assert forall|k: int| 0 <= k < d1.entries@.len() implies #[trigger] entry_reads_as(
        d1.chars@,
        d1.entries@[k],
        d2.chars@,
        d2.entries@[k],
    ) by {
        let r = content_lines(t)[k];
        assert(entry_at(t, d1.entries@[k], r));
        assert(content_lines(c + t)[k] == shift_range(r, c.len() as int));
        assert(entry_at(c + t, d2.entries@[k], content_lines(d2.chars@)[k]));
        lemma_entry_moved(c, t, d1.entries@[k], d2.entries@[k], r);
    }
}

/// Lines without content (blank, or `#` comments), each ended by a line break,
/// inserted at the start of any line of an input (or, read the other way,
/// deleted from it) change nothing of how it reads: the document has as many
/// entries, each with the texts it had; those before the inserted lines keep
/// their places, and those after move by the number of characters of the
/// inserted lines and, in bytes, by the length of their encoding.
pub proof fn lemma_comment_lines_anywhere(
    d1: &Document,
    d2: &Document,
    a: Seq<char>,
    b: Seq<char>,
    c: Seq<char>,
)
    requires
        d1.wf(),
        d2.wf(),
        d1.text() == a + b,
        d2.text() == a + c + b,
        a.len() == 0 || a.last() == '\n',
        c.len() == 0 || c.last() == '\n',
        content_lines(c).len() == 0,
    ensures
        doc_reads_as(d1, d2),
        forall|k: int|
            0 <= k < d1.entries@.len() && k < content_lines(a).len() ==> #[trigger] entry_moved(
                d1.entries@[k],
                d2.entries@[k],
                0,
                0,
            ),
        forall|k: int|
            content_lines(a).len() <= k < d1.entries@.len() ==> #[trigger] entry_moved(
                d1.entries@[k],
                d2.entries@[k],
                c.len() as int,
                encode_utf8(c).len() as int,
            ),
{
    let na = a.len() as int;
    let n = c.len() as int;
    let m = encode_utf8(c).len() as int;
    let u1 = a + b;
    let u2 = a + c + b;
    if na == 0 {
        assert(u1 =~= b);
        assert(u2 =~= c + b);
        assert(content_lines(a) =~= Seq::<(int, int)>::empty());
        lemma_comment_lines_move_entries(d1, d2, c);
    } else {
        lemma_insert_content_lines(a, b, c);
        lemma_insert_agree(a, b, c);
        let ca = content_lines(a);
        assert forall|k: int| 0 <= k < d1.entries@.len() implies #[trigger] entry_reads_as(
            d1.chars@,
            d1.entries@[k],
            d2.chars@,
            d2.entries@[k],
        ) by {
            lemma_insert_entry(a, b, c, d1.entries@[k], d2.entries@[k], k);
        }
        assert forall|k: int| 0 <= k < d1.entries@.len() && k < ca.len() implies #[trigger] entry_moved(
            d1.entries@[k],
            d2.entries@[k],
            0,
            0,
        ) by {
            lemma_insert_entry(a, b, c, d1.entries@[k], d2.entries@[k], k);
        }
        assert forall|k: int| ca.len() <= k < d1.entries@.len() implies #[trigger] entry_moved(
            d1.entries@[k],
            d2.entries@[k],
            n,
            m,
        ) by {
            lemma_insert_entry(a, b, c, d1.entries@[k], d2.entries@[k], k);
        }
    }
}

/// Where the content lines of `a + b` and `a + c + b` stand, for `a` ended by
/// a line break and `c` made of lines without content.
proof fn lemma_insert_content_lines(a: Seq<char>, b: Seq<char>, c: Seq<char>)
    requires
        a.len() > 0,
        a.last() == '\n',
        c.len() == 0 || c.last() == '\n',
        content_lines(c).len() == 0,
    ensures
        content_lines(a + b) == content_lines(a) + shift_ranges(content_lines(b), a.len() as int),
        content_lines(a + c + b) == content_lines(a) + shift_ranges(
            shift_ranges(content_lines(b), c.len() as int),
            a.len() as int,
        ),
{
    let na = a.len() as int;
    let u1 = a + b;
    let u2 = a + c + b;
    let cb = c + b;
    assert(u2 =~= a + cb);
    assert(agree(a, u1, 0, 0, na)) by {
        assert forall|x: int| 0 <= x < na implies #[trigger] a[x] == u1[x + 0] by {}
    }
    assert(agree(a, u2, 0, 0, na)) by {
        assert forall|x: int| 0 <= x < na implies #[trigger] a[x] == u2[x + 0] by {}
    }
    lemma_content_lines_prefix(a, u1, 0, 0);
    lemma_content_lines_prefix(a, u2, 0, 0);
    assert(agree(b, u1, na, 0, b.len() as int)) by {
        assert forall|x: int| 0 <= x < b.len() implies #[trigger] b[x] == u1[x + na] by {}
    }
    assert(agree(cb, u2, na, 0, cb.len() as int)) by {
        assert forall|x: int| 0 <= x < cb.len() implies #[trigger] cb[x] == u2[x + na] by {}
    }
    lemma_content_lines_shift(b, u1, na, 0, 0);
    lemma_content_lines_shift(cb, u2, na, 0, 0);
    lemma_content_lines_after_comments(c, b);
}

/// `a + c + b` holds `a` in place and `b` moved past `c`, in characters and in bytes.
proof fn lemma_insert_agree(a: Seq<char>, b: Seq<char>, c: Seq<char>)
    ensures
        agree(a + b, a + c + b, 0, 0, a.len() as int),
        forall|x: int|
            0 <= x <= a.len() ==> byte_pos(a + c + b, x + 0) == #[trigger] byte_pos(a + b, x) + 0,
        agree(a + b, a + c + b, c.len() as int, a.len() as int, (a + b).len() as int),
        forall|x: int|
            a.len() <= x <= (a + b).len() ==> byte_pos(a + c + b, x + c.len()) == #[trigger] byte_pos(
                a + b,
                x,
            ) + encode_utf8(c).len(),
{
    let na = a.len() as int;
    let n = c.len() as int;
    let u1 = a + b;
    let u2 = a + c + b;
    assert(agree(u1, u2, 0, 0, na)) by {
        assert forall|x: int| 0 <= x < na implies #[trigger] u1[x] == u2[x + 0] by {}
    }
    assert forall|x: int| 0 <= x <= na implies byte_pos(u2, x + 0) == #[trigger] byte_pos(u1, x) + 0 by {
        assert(u1.take(x) =~= u2.take(x + 0));
    }
    assert(agree(u1, u2, n, na, u1.len() as int)) by {
        assert forall|x: int| na <= x < u1.len() implies #[trigger] u1[x] == u2[x + n] by {}
    }
    assert forall|x: int| na <= x <= u1.len() implies byte_pos(u2, x + n) == #[trigger] byte_pos(u1, x)
        + encode_utf8(c).len() by {
        let bt = b.take(x - na);
        assert(u1.take(x) =~= a + bt);
        assert(u2.take(x + n) =~= a + (c + bt));
        lemma_encode_utf8_concat(a, bt);
        lemma_encode_utf8_concat(a, c + bt);
        lemma_encode_utf8_concat(c, bt);
    }
}

/// The entry at index `k` of `a + b` and of `a + c + b`.
proof fn lemma_insert_entry(a: Seq<char>, b: Seq<char>, c: Seq<char>, e1: Entry, e2: Entry, k: int)
    requires
        a.len() > 0,
        a.last() == '\n',
        c.len() == 0 || c.last() == '\n',
        content_lines(c).len() == 0,
        0 <= k < content_lines(a + b).len(),
        entry_at(a + b, e1, content_lines(a + b)[k]),
        entry_at(a + c + b, e2, content_lines(a + c + b)[k]),
    ensures
        entry_reads_as(a + b, e1, a + c + b, e2),
        k < content_lines(a).len() ==> entry_moved(e1, e2, 0, 0),
        k >= content_lines(a).len() ==> entry_moved(e1, e2, c.len() as int, encode_utf8(c).len() as int),
{
    let na = a.len() as int;
    let n = c.len() as int;
    let m = encode_utf8(c).len() as int;
    let u1 = a + b;
    let u2 = a + c + b;
    lemma_insert_content_lines(a, b, c);
    lemma_insert_agree(a, b, c);
    lemma_content_lines_bounds(a, 0, 0);
    lemma_content_lines_bounds(b, 0, 0);
    let ca = content_lines(a);
    let cl_b = content_lines(b);
    if k < ca.len() {
        let r = ca[k];
        assert(content_lines(u1)[k] == r);
        assert(content_lines(u2)[k] == r);
        assert(shift_range(r, 0) == r);
        lemma_entry_moved_in(u1, u2, 0, 0, 0, na, e1, e2, r);
    } else {
        let rb = cl_b[k - ca.len()];
        let r1 = shift_range(rb, na);
        assert(content_lines(u1)[k] == r1);
        assert(content_lines(u2)[k] == shift_range(shift_range(rb, n), na));
        assert(shift_range(shift_range(rb, n), na) == shift_range(r1, n));
        lemma_entry_moved_in(u1, u2, n, m, na, u1.len() as int, e1, e2, r1);
    }
}

/// `s`, scanned from index `i` inside the line that starts at `start`, is made
/// of whole lines, each empty or beginning with `#`, each ended by a `\n` with
/// no `\r` before it.
pub open spec fn comment_block_from(s: Seq<char>, start: int, i: int) -> bool
    decreases s.len() - i,
{
    if i >= s.len() {
        start >= s.len()
    } else if s[i] == '\n' {
        &&& (i == start || s[start] == '#')
        &&& !(start < i && s[i - 1] == '\r')
        &&& comment_block_from(s, i + 1, i + 1)
    } else {
        comment_block_from(s, start, i + 1)
    }
}

/// `s` is made of whole lines, each empty or beginning with `#`, each ended by
/// a `\n` with no `\r` before it.
pub open spec fn comment_block(s: Seq<char>) -> bool {
    comment_block_from(s, 0, 0)
}

/// Such lines carry no content, and a non-empty block ends with a line break.
proof fn lemma_comment_block_lines(c: Seq<char>, start: int, i: int)
    requires
        0 <= start <= i <= c.len(),
        comment_block_from(c, start, i),
    ensures
        content_lines_from(c, start, i).len() == 0,
        start < c.len() ==> c.last() == '\n',
    decreases c.len() - i,
{
    if i < c.len() {
        if c[i] == '\n' {
            lemma_comment_block_lines(c, i + 1, i + 1);
            assert(line_end(c, start, i) == i);
            assert(!is_content_line(c, start, i));
        } else {
            lemma_comment_block_lines(c, start, i + 1);
        }
    }
}

/// Over `u`, which begins with the block `c`, a reading counts every line of
/// the block in full.
proof fn lemma_lead_over_block(c: Seq<char>, u: Seq<char>, start: int, i: int)
    requires
        agree(c, u, 0, 0, c.len() as int),
        0 <= start <= i <= c.len(),
        comment_block_from(c, start, i),
    ensures
        lead_from(u, start, i) == byte_pos(u, c.len() as int) - byte_pos(u, start) + lead_from(
            u,
            c.len() as int,
            c.len() as int,
        ),
    decreases c.len() - i,
{
    let n = c.len() as int;
    if i < n {
        assert(c[i] == u[i + 0]);
        if c[i] == '\n' {
            if start < i {
                assert(c[i - 1] == u[i - 1 + 0]);
            }
            assert(c[start] == u[start + 0]);
            assert(line_end(u, start, i) == i);
            lemma_lead_over_block(c, u, i + 1, i + 1);
            lemma_byte_pos_step(u, i);
        } else {
            lemma_lead_over_block(c, u, start, i + 1);
        }
    }
}

/// After the prefix `c`, a reading counts lines as it does without it.
proof fn lemma_lead_shift(c: Seq<char>, t: Seq<char>, start: int, i: int)
    requires
        0 <= start <= i <= t.len(),
    ensures
        lead_from(c + t, start + c.len(), i + c.len()) == lead_from(t, start, i),
    decreases t.len() - i,
{
    let n = c.len() as int;
    let u = c + t;
    lemma_byte_pos_prefix(c, t, start);
    if i >= t.len() {
        lemma_byte_pos_prefix(c, t, t.len() as int);
        if start < t.len() {
            assert(u[start + n] == t[start]);
        }
    } else {
        assert(u[i + n] == t[i]);
        if t[i] == '\n' {
            assert(agree(t, u, n, 0, t.len() as int)) by {
                assert forall|x: int| 0 <= x < t.len() implies #[trigger] t[x] == u[x + n] by {}
            }
            lemma_line_end_shift(t, u, n, 0, t.len() as int, start, i);
            let e = line_end(t, start, i);
            lemma_byte_pos_prefix(c, t, e);
            assert(u[start + n] == t[start]);
            lemma_lead_shift(c, t, i + 1, i + 1);
        } else {
            lemma_lead_shift(c, t, start, i + 1);
        }
    }
}

/// Lines each empty or beginning with `#`, each ended by a `\n` with no `\r`
/// before it, put before an input carry no content and leave the shift of
/// reported spans as it is: a reading counts them in full.
pub proof fn lemma_comment_block_keeps_shift(d1: &Document, d2: &Document, c: Seq<char>)
    requires
        d1.wf(),
        d2.wf(),
        d2.text() == c + d1.text(),
        comment_block(c),
    ensures
        content_lines(c).len() == 0,
        c.len() == 0 || c.last() == '\n',
        d2.span_shift == d1.span_shift,
{
    let t = d1.chars@;
    let u = c + t;
    let n = c.len() as int;
    lemma_comment_block_lines(c, 0, 0);
    assert(agree(c, u, 0, 0, n)) by {
        assert forall|x: int| 0 <= x < n implies #[trigger] c[x] == u[x + 0] by {}
    }
    lemma_lead_over_block(c, u, 0, 0);
    lemma_lead_shift(c, t, 0, 0);
    lemma_byte_pos_prefix(c, t, 0);
    assert(t.take(0) =~= Seq::<char>::empty());
    assert(u.take(0) =~= Seq::<char>::empty());
    assert(lead_bytes(u) == encode_utf8(c).len() + lead_bytes(t));
    lemma_content_lines_after_comments(c, t);
    if content_lines(t).len() > 0 {
        lemma_content_lines_bounds(t, 0, 0);
        let f = content_lines(t)[0].0;
        assert(content_lines(u)[0] == shift_range(content_lines(t)[0], n));
        lemma_byte_pos_prefix(c, t, f);
    }
}

} // verus!
