//! Reading a sequence: its elements are the lines whose key component at the
//! sequence's depth is an index; they may stand in any order, and a
//! `length` (or `num`) line may bound them.
use vstd::prelude::*;
use crate::atom::{decimal, integer_value, lemma_decimal_nonneg};
use crate::document::{Document, Entry, Token, span_in, token_in, token_text};
use crate::error::DeserializerError;
use crate::parser::{Parser, child_end, ident_of, key_count, scope_has, ident_in};
use crate::text::{all_digits, digits_only};
use std::collections::BTreeSet;
use vstd::std_specs::btree::spec_btree_keys_iter;
use vstd::std_specs::iter::IteratorSpec;

verus! {

/// ASCII lower case of a character; other characters are unchanged.
pub open spec fn ascii_lower(c: char) -> char {
    if 'A' <= c && c <= 'Z' {
        (((c as u32) + 32) as u8) as char
    } else {
        c
    }
}

/// `str::eq_ignore_ascii_case` between a text and a lower-case ASCII word.
pub open spec fn eq_ignore_case(t: Seq<char>, word: Seq<char>) -> bool {
    &&& t.len() == word.len()
    &&& forall|i: int| 0 <= i < t.len() ==> #[trigger] ascii_lower(t[i]) == word[i]
}

pub open spec fn length_word() -> Seq<char> {
    seq!['l', 'e', 'n', 'g', 't', 'h']
}

pub open spec fn num_word() -> Seq<char> {
    seq!['n', 'u', 'm']
}

/// The marker that closes a sequence and gives its length.
pub open spec fn is_seq_ender(t: Seq<char>) -> bool {
    eq_ignore_case(t, length_word()) || eq_ignore_case(t, num_word())
}

proof fn lemma_ascii_lower_is(c: char, l: char, u: char)
    requires
        'a' <= l <= 'z',
        u as u32 == l as u32 - 32,
    ensures
        ascii_lower(c) == l <==> (c == l || c == u),
{
    if 'A' <= c && c <= 'Z' {
        assert((((c as u32) + 32) as u8) as u32 == (c as u32) + 32);
    }
}

/// The length marker is `length` or `num`, each letter in either ASCII case,
/// and nothing else.
pub proof fn lemma_seq_ender_any_case(t: Seq<char>)
    ensures
        is_seq_ender(t) <==> {
            ||| (t.len() == 6 && (t[0] == 'l' || t[0] == 'L') && (t[1] == 'e' || t[1] == 'E') && (t[2]
                == 'n' || t[2] == 'N') && (t[3] == 'g' || t[3] == 'G') && (t[4] == 't' || t[4] == 'T')
                && (t[5] == 'h' || t[5] == 'H'))
            ||| (t.len() == 3 && (t[0] == 'n' || t[0] == 'N') && (t[1] == 'u' || t[1] == 'U') && (t[2]
                == 'm' || t[2] == 'M'))
        },
{
    if t.len() == 6 {
        lemma_ascii_lower_is(t[0], 'l', 'L');
        lemma_ascii_lower_is(t[1], 'e', 'E');
        lemma_ascii_lower_is(t[2], 'n', 'N');
        lemma_ascii_lower_is(t[3], 'g', 'G');
        lemma_ascii_lower_is(t[4], 't', 'T');
        lemma_ascii_lower_is(t[5], 'h', 'H');
        let w = length_word();
        if eq_ignore_case(t, w) {
            assert(ascii_lower(t[0]) == w[0] && ascii_lower(t[1]) == w[1] && ascii_lower(t[2]) == w[2]);
            assert(ascii_lower(t[3]) == w[3] && ascii_lower(t[4]) == w[4] && ascii_lower(t[5]) == w[5]);
        }
        if (t[0] == 'l' || t[0] == 'L') && (t[1] == 'e' || t[1] == 'E') && (t[2] == 'n' || t[2] == 'N')
            && (t[3] == 'g' || t[3] == 'G') && (t[4] == 't' || t[4] == 'T') && (t[5] == 'h' || t[5]
            == 'H') {
            assert forall|i: int| 0 <= i < t.len() implies #[trigger] ascii_lower(t[i]) == w[i] by {
                if i == 0 {
                } else if i == 1 {
                } else if i == 2 {
                } else if i == 3 {
                } else if i == 4 {
                } else {
                }
            }
        }
    } else if t.len() == 3 {
        lemma_ascii_lower_is(t[0], 'n', 'N');
        lemma_ascii_lower_is(t[1], 'u', 'U');
        lemma_ascii_lower_is(t[2], 'm', 'M');
        let w = num_word();
        if eq_ignore_case(t, w) {
            assert(ascii_lower(t[0]) == w[0] && ascii_lower(t[1]) == w[1] && ascii_lower(t[2]) == w[2]);
        }
        if (t[0] == 'n' || t[0] == 'N') && (t[1] == 'u' || t[1] == 'U') && (t[2] == 'm' || t[2] == 'M') {
            assert forall|i: int| 0 <= i < t.len() implies #[trigger] ascii_lower(t[i]) == w[i] by {
                if i == 0 {
                } else if i == 1 {
                } else {
                }
            }
        }
    }
}

/// The token names an element of a sequence: it consists of digits only.
pub open spec fn is_index(doc: &Document, t: Token) -> bool {
    all_digits(doc.chars@, t.start as int, t.end as int)
}

/// The index an index token denotes.
pub open spec fn index_of(doc: &Document, t: Token) -> int {
    decimal(doc.chars@, t.start as int, t.end as int)
}

/// A line at depth `d` can be read as a sequence line without an arithmetic
/// fault: its name is not made of digits, or it is a non-empty number below `i64::MAX`.
pub open spec fn ident_ok(doc: &Document, e: Entry, d: int) -> bool {
    match ident_of(e, d) {
        None => true,
        Some(t) => !is_index(doc, t) || (t.start < t.end && index_of(doc, t) < i64::MAX),
    }
}

/// `m` is the least member of `s` that is at least `lo`.
pub open spec fn is_least_at_least(s: Set<int>, lo: int, m: int) -> bool {
    &&& s.contains(m)
    &&& m >= lo
    &&& forall|x: int| s.contains(x) && x >= lo ==> m <= x
}

/// The least member of `s` that is at least `lo`, when there is one.
#[verifier::opaque]
pub open spec fn least_at_least(s: Set<int>, lo: int) -> Option<int> {
    if exists|m: int| is_least_at_least(s, lo, m) {
        Some(choose|m: int| is_least_at_least(s, lo, m))
    } else {
        None
    }
}

/// `x` is below the length, when a length is known.
pub open spec fn below_length(len: Option<i64>, x: int) -> bool {
    match len {
        Some(l) => x < l,
        None => true,
    }
}

/// The first position at or after `i` of `lines` that is not an index line inside `scopes`.
pub open spec fn index_run_from(doc: &Document, lines: Seq<usize>, scopes: Seq<usize>, i: int) -> int
    decreases lines.len() - i,
{
    if scope_has(doc, lines, scopes, i) && ident_in(doc, lines, scopes, i) is Some && is_index(
        doc,
        ident_in(doc, lines, scopes, i)->0,
    ) {
        index_run_from(doc, lines, scopes, i + 1)
    } else {
        i
    }
}

/// The first position at or after `i` of `lines` that is not an index line inside
/// `scopes` with an index other than `want`.
pub open spec fn index_search_from(
    doc: &Document,
    lines: Seq<usize>,
    scopes: Seq<usize>,
    i: int,
    want: int,
) -> int
    decreases lines.len() - i,
{
    if scope_has(doc, lines, scopes, i) && ident_in(doc, lines, scopes, i) is Some && is_index(
        doc,
        ident_in(doc, lines, scopes, i)->0,
    ) && index_of(doc, ident_in(doc, lines, scopes, i)->0) != want {
        index_search_from(doc, lines, scopes, i + 1, want)
    } else {
        i
    }
}

impl<'d> Parser<'d> {
    /// The first position at or after `i` that is not an index line of the current scope.
    pub open spec fn index_run_end(&self, i: int) -> int {
        index_run_from(self.doc, self.lines@, self.scopes@, i)
    }

    /// The indices named by the lines at positions `[from, to)`.
    pub open spec fn indices_between(&self, from: int, to: int) -> Set<int> {
        Set::new(
            |x: int|
                exists|i: int| from <= i < to && index_of(self.doc, self.ident_at(i)->0) == x,
        )
    }

    /// Every index line that a scan from the cursor reads, up to the first line
    /// of the scope that is not an index line, reads without fault.
    pub open spec fn run_idents_ok(&self) -> bool {
        forall|i: int|
            self.pos <= i < self.index_run_end(self.pos as int) ==> #[trigger] ident_ok(
                self.doc,
                self.entry(i),
                self.depth(),
            )
    }

    /// The length that the marker line at position `i` gives: its value one level
    /// deeper, read as an `i64`.
    pub open spec fn length_at(&self, i: int) -> Option<i64> {
        let e = self.entry(i);
        if e.pair is Some && key_count(e) >= self.depth() + 1 {
            let t = ident_of(e, self.depth() + 1)->0;
            match integer_value(self.doc.chars@, t.start as int, t.end as int) {
                Some(v) => if i64::MIN <= v <= i64::MAX {
                    Some(v as i64)
                } else {
                    None
                },
                None => None,
            }
        } else {
            None
        }
    }
}

impl<'d> Parser<'d> {
    /// The length a scan from the cursor finds: that of the line ending the run
    /// of index lines, when that line is still in the scope.
    pub open spec fn scanned_length(&self) -> Option<i64> {
        let j = self.index_run_end(self.pos as int);
        if self.in_scope(j) {
            self.length_at(j)
        } else {
            None
        }
    }
}

/// The run of index lines from `i` on ends at or after `i`, and a line before its
/// end is an index line of the scope.
pub proof fn lemma_index_run(p: &Parser, i: int)
    ensures
        i <= p.index_run_end(i),
        i < p.index_run_end(i) ==> {
            &&& p.in_scope(i)
            &&& p.ident_at(i) is Some
            &&& is_index(p.doc, p.ident_at(i)->0)
            &&& p.index_run_end(i) == p.index_run_end(i + 1)
        },
        p.in_scope(i) && p.ident_at(i) is Some && is_index(p.doc, p.ident_at(i)->0) ==> i < p.index_run_end(i),
        i <= p.lines@.len() ==> p.index_run_end(i) <= p.lines@.len(),
    decreases p.lines@.len() - i,
{
    if p.in_scope(i) && p.ident_at(i) is Some && is_index(p.doc, p.ident_at(i)->0) {
        lemma_index_run(p, i + 1);
    }
}

/// State of a sequence being read from a parser.
pub struct SeqParser {
    /// The lines read so far (entry indices).
    pub read_lines: Vec<usize>,
    /// The indices seen so far.
    pub read_indices: BTreeSet<i64>,
    /// The length the marker line gave, if it was read.
    pub read_length: Option<i64>,
    /// The next index expected.
    pub index: i64,
    /// The scopes of the parser the sequence is read from.
    pub scopes: Vec<usize>,
}

fn copy_vec(v: &Vec<usize>) -> (r: Vec<usize>)
    ensures
        r@ == v@,
{
    let mut r: Vec<usize> = Vec::new();
    let mut i: usize = 0;
    while i < v.len()
        invariant
            i <= v@.len(),
            r@ == v@.take(i as int),
        decreases v@.len() - i,
    {
        r.push(v[i]);
        assert(v@.take(i + 1) =~= v@.take(i as int).push(v@[i as int]));
        i += 1;
    }
    assert(v@.take(v@.len() as int) =~= v@);
    r
}

/// `str::eq_ignore_ascii_case` between the text of `t` and a lower-case ASCII word.
fn token_eq_ignore_case(doc: &Document, t: Token, word: &str) -> (r: bool)
    requires
        token_in(doc.chars@, t),
    ensures
        r == eq_ignore_case(token_text(doc.chars@, t), word@),
{
    let n = word.unicode_len();
    if t.end - t.start != n {
        return false;
    }
    let mut i: usize = 0;
    while i < n
        invariant
            token_in(doc.chars@, t),
            n == word@.len() == t.end - t.start,
            i <= n,
            forall|j: int|
                0 <= j < i ==> #[trigger] ascii_lower(token_text(doc.chars@, t)[j]) == word@[j],
        decreases n - i,
    {
        let c = doc.chars[t.start + i];
        let lc = if 'A' <= c && c <= 'Z' {
            (((c as u32) + 32) as u8) as char
        } else {
            c
        };
        assert(token_text(doc.chars@, t)[i as int] == c);
        assert(lc == ascii_lower(c));
        let w = word.get_char(i);
        if lc != w {
            assert(ascii_lower(token_text(doc.chars@, t)[i as int]) != word@[i as int]);
            return false;
        }
        i += 1;
    }
    true
}

/// Whether the text of `t` is the sequence's length marker.
fn is_ender(doc: &Document, t: Token) -> (r: bool)
    requires
        token_in(doc.chars@, t),
    ensures
        r == is_seq_ender(token_text(doc.chars@, t)),
{
    proof {
        reveal_strlit("length");
        reveal_strlit("num");
        assert("length"@ =~= length_word());
        assert("num"@ =~= num_word());
    }
    token_eq_ignore_case(doc, t, "length") || token_eq_ignore_case(doc, t, "num")
}

/// The index an index token denotes.
fn index_value(doc: &Document, t: Token) -> (v: i64)
    requires
        token_in(doc.chars@, t),
        is_index(doc, t),
        t.start < t.end,
        index_of(doc, t) < i64::MAX,
    ensures
        v == index_of(doc, t),
        0 <= v < i64::MAX,
{
    proof {
        lemma_decimal_nonneg(doc.chars@, t.start as int, t.end as int);
    }
    match crate::atom::digits_value(&doc.chars, t.start, t.end) {
        Some(m) => m as i64,
        None => 0,
    }
}

impl SeqParser {
    /// The indices seen so far, as a set.
    pub open spec fn index_set(&self) -> Set<int> {
        Set::new(|x: int| i64::MIN <= x <= i64::MAX && self.read_indices@.contains(x as i64))
    }

    /// The recorded indices are below `i64::MAX`, and the lines read are
    /// entries of `doc` whose names read without fault.
    pub open spec fn wf_in(&self, doc: &Document) -> bool {
        &&& doc.wf()
        &&& 0 <= self.index
        &&& forall|v: i64| #[trigger] self.read_indices@.contains(v) ==> 0 <= v < i64::MAX
        &&& forall|k: int|
            0 <= k < self.read_lines@.len() ==> #[trigger] self.read_lines@[k]
                < doc.entries@.len()
        &&& forall|k: int|
            0 <= k < self.read_lines@.len() ==> #[trigger] ident_ok(
                doc,
                doc.entries@[self.read_lines@[k] as int],
                self.scopes@.len() as int,
            )
        &&& forall|k: int|
            0 <= k < self.scopes@.len() ==> #[trigger] self.scopes@[k] <= doc.entries@.len()
    }

    pub open spec fn wf<'d>(&self, de: Parser<'d>) -> bool {
        &&& de.wf()
        &&& de.scopes@ == self.scopes@
        &&& self.wf_in(de.doc)
    }

    /// A sequence read from the cursor of `de`.
    pub fn new(de: &Parser) -> (s: SeqParser)
        requires
            de.wf(),
        ensures
            s.wf(*de),
            s.read_lines@.len() == 0,
            s.read_indices@ == Set::<i64>::empty(),
            s.read_length is None,
            s.index == 0,
    {
        SeqParser {
            read_lines: Vec::new(),
            read_indices: BTreeSet::new(),
            read_length: None,
            index: 0,
            scopes: copy_vec(&de.scopes),
        }
    }
}

/// What the least member at least `lo` is.
pub proof fn lemma_least_at_least(s: Set<int>, lo: int)
    ensures
        least_at_least(s, lo) matches Some(m) ==> is_least_at_least(s, lo, m),
        least_at_least(s, lo) is None ==> forall|m: int| !is_least_at_least(s, lo, m),
{
    reveal(least_at_least);
}

impl SeqParser {
    /// The recorded indices lie in `[0, i64::MAX)`.
    pub proof fn lemma_index_set_range(&self, doc: &Document)
        requires
            self.wf_in(doc),
        ensures
            forall|x: int| self.index_set().contains(x) ==> 0 <= x < i64::MAX,
    {
        assert forall|x: int| self.index_set().contains(x) implies 0 <= x < i64::MAX by {
            assert(self.read_indices@.contains(x as i64));
        }
    }

    /// Whether `v` was seen.
    fn contains(&self, v: i64) -> (r: bool)
        ensures
            r == self.index_set().contains(v as int),
    {
        broadcast use vstd::std_specs::btree::group_btree_axioms;
        self.read_indices.contains(&v)
    }

    /// Records the index `v`.
    fn insert(&mut self, v: i64)
        requires
            0 <= v < i64::MAX,
            forall|x: i64| #[trigger] old(self).read_indices@.contains(x) ==> 0 <= x < i64::MAX,
        ensures
            final(self).index_set() == old(self).index_set().insert(v as int),
            forall|x: i64| #[trigger] final(self).read_indices@.contains(x) ==> 0 <= x < i64::MAX,
            final(self).read_lines == old(self).read_lines,
            final(self).read_length == old(self).read_length,
            final(self).index == old(self).index,
            final(self).scopes == old(self).scopes,
    {
        broadcast use vstd::std_specs::btree::group_btree_axioms;
        self.read_indices.insert(v);
        assert(self.index_set() =~= old(self).index_set().insert(v as int));
    }

    /// The least index seen that is at least `lo`.
    fn least_from(&self, lo: i64) -> (r: Option<i64>)
        ensures
            match r {
                Some(m) => least_at_least(self.index_set(), lo as int) == Some(m as int),
                None => least_at_least(self.index_set(), lo as int) is None,
            },
    {
        broadcast use vstd::std_specs::btree::group_btree_axioms;
        reveal(least_at_least);
        let ghost q = spec_btree_keys_iter(&self.read_indices).remaining();
        let mut best: Option<i64> = None;
        for x in it: self.read_indices.iter()
            invariant
                it.seq() == q,
                match best {
                    Some(m) => {
                        &&& self.read_indices@.contains(m)
                        &&& m >= lo
                        &&& forall|j: int| 0 <= j < it.index() && *q[j] >= lo ==> m <= *q[j]
                    },
                    None => forall|j: int| 0 <= j < it.index() ==> *q[j] < lo,
                },
        {
            let v = *x;
            if v >= lo {
                match best {
                    Some(m) => {
                        if v < m {
                            best = Some(v);
                        }
                    },
                    None => {
                        best = Some(v);
                    },
                }
            }
        }
        proof {
            let s = self.index_set();
            assert(q.unref().to_set() == self.read_indices@);
            assert forall|x: int| s.contains(x) implies exists|j: int| 0 <= j < q.len() && *q[j] == x by {
                let v = x as i64;
                assert(q.unref().to_set().contains(v));
                assert(q.unref().contains(v));
                let j = choose|j: int| 0 <= j < q.unref().len() && q.unref()[j] == v;
            }
            match best {
                Some(m) => {
                    assert forall|x: int| s.contains(x) && x >= lo implies m <= x by {
                        let j = choose|j: int| 0 <= j < q.len() && *q[j] == x;
                    }
                    assert(is_least_at_least(s, lo as int, m as int));
                    let c = choose|c: int| is_least_at_least(s, lo as int, c);
                    assert(c == m);
                },
                None => {
                    assert forall|x: int| !(s.contains(x) && x >= lo) by {
                        if s.contains(x) {
                            let j = choose|j: int| 0 <= j < q.len() && *q[j] == x;
                        }
                    }
                    assert(!exists|m: int| is_least_at_least(s, lo as int, m));
                },
            }
        }
        best
    }
}

impl SeqParser {
    /// Reads the rest of the sequence's lines from the cursor of `de`: every
    /// index line is recorded; a length marker line gives the length and ends
    /// the reading; any other line is an error. `Ok(false)` when no line is
    /// left and none was read before: the sequence is empty.
    pub fn scan<'d>(&mut self, de: &mut Parser<'d>) -> (r: Result<bool, DeserializerError>)
        requires
            old(self).wf(*old(de)),
            old(de).run_idents_ok(),
        ensures
            if old(de).finished() && old(self).read_lines@.len() == 0 {
                r == Ok::<bool, DeserializerError>(false) && *final(self) == *old(self) && *final(de) == *old(de)
            } else if old(de).in_scope(old(de).index_run_end(old(de).pos as int)) && old(de).ident_at(old(de).index_run_end(old(de).pos as int)) is None {
                r == Err::<bool, DeserializerError>(DeserializerError::ExpectedValueNode)
            } else if old(de).in_scope(old(de).index_run_end(old(de).pos as int)) && !is_seq_ender(
                token_text(old(de).doc.chars@, old(de).ident_at(old(de).index_run_end(old(de).pos as int))->0),
            ) {
                r == Err::<bool, DeserializerError>(DeserializerError::ExpectedSequenece {
                    unexpected: span_in(old(de).doc, old(de).ident_at(old(de).index_run_end(old(de).pos as int))->0),
                })
            } else {
                &&& r == Ok::<bool, DeserializerError>(true)
                &&& final(self).wf(*final(de))
                &&& final(de).doc == old(de).doc
                &&& final(de).lines == old(de).lines
                &&& final(de).scopes@ == old(de).scopes@
                &&& final(de).deser_any_col == old(de).deser_any_col
                &&& final(self).index == old(self).index
                &&& final(self).scopes == old(self).scopes
                &&& final(self).index_set() == old(self).index_set() + old(de).indices_between(
                    old(de).pos as int,
                    old(de).index_run_end(old(de).pos as int),
                )
                &&& if old(de).in_scope(old(de).index_run_end(old(de).pos as int)) {
                    &&& final(de).pos == child_end(
                        old(de).doc,
                        old(de).lines@,
                        old(de).lines@[old(de).index_run_end(old(de).pos as int)] as int,
                        old(de).depth(),
                        old(de).index_run_end(old(de).pos as int),
                    )
                    &&& final(self).read_lines@ == old(self).read_lines@ + old(de).lines@.subrange(
                        old(de).pos as int,
                        old(de).index_run_end(old(de).pos as int) + 1,
                    )
                    &&& final(self).read_length == old(de).length_at(old(de).index_run_end(old(de).pos as int))
                } else {
                    &&& final(de).pos == old(de).index_run_end(old(de).pos as int)
                    &&& final(self).read_lines@ == old(self).read_lines@ + old(de).lines@.subrange(
                        old(de).pos as int,
                        old(de).index_run_end(old(de).pos as int),
                    )
                    &&& final(self).read_length == old(self).read_length
                }
            },
    {
        if de.is_finished() && self.read_lines.len() == 0 {
            return Ok(false);
        }
        let ghost p0 = *de;
        let ghost s0 = *self;
        let ghost j = p0.index_run_end(p0.pos as int);
        proof {
            lemma_index_run(&p0, p0.pos as int);
            assert(p0.lines@.subrange(p0.pos as int, p0.pos as int) =~= Seq::<usize>::empty());
            assert(s0.read_lines@ + p0.lines@.subrange(p0.pos as int, p0.pos as int) =~= s0.read_lines@);
            assert(p0.indices_between(p0.pos as int, p0.pos as int) =~= Set::<int>::empty());
            assert(s0.index_set() + Set::<int>::empty() =~= s0.index_set());
        }
        loop
            invariant
                s0.wf(p0),
                *old(de) == p0,
                *old(self) == s0,
                !(p0.finished() && s0.read_lines@.len() == 0),
                p0.run_idents_ok(),
                de.pos <= j,
                j == p0.index_run_end(p0.pos as int),
                de.doc == p0.doc,
                de.lines == p0.lines,
                de.scopes@ == p0.scopes@,
                de.deser_any_col == p0.deser_any_col,
                de.wf(),
                p0.pos <= de.pos,
                p0.index_run_end(de.pos as int) == j,
                forall|m: int| p0.pos <= m < de.pos ==> #[trigger] p0.in_scope(m),
                self.wf(*de),
                self.index == s0.index,
                self.scopes == s0.scopes,
                self.read_length == s0.read_length,
                self.read_lines@ == s0.read_lines@ + p0.lines@.subrange(p0.pos as int, de.pos as int),
                self.index_set() == s0.index_set() + p0.indices_between(p0.pos as int, de.pos as int),
            decreases de.lines@.len() - de.pos,
        {
            let ghost pi = de.pos as int;
            assert(p0.in_scope(pi) == de.in_scope(pi));
            assert(de.entry(pi) == p0.entry(pi));
            assert(de.ident_at(pi) == p0.ident_at(pi));
            if de.is_finished() {
                assert(!p0.in_scope(pi));
                assert(p0.index_run_end(pi) == pi);
                assert(j == pi);
                assert(!p0.in_scope(j));
                assert(*old(de) == p0);
                return Ok(true);
            }
            proof {
                lemma_index_run(&p0, pi);
                if pi < j {
                    assert(ident_ok(p0.doc, p0.entry(pi), p0.depth()));
                } else {
                    assert(p0.in_scope(pi));
                    assert(!(p0.ident_at(pi) is Some && is_index(p0.doc, p0.ident_at(pi)->0)));
                    assert(ident_ok(p0.doc, p0.entry(pi), p0.depth()));
                }
                de.doc.lemma_entry_in_doc(de.lines@[pi] as int);
            }
            let e = de.lines[de.pos];
            let ghost prev = self.read_lines@;
            self.read_lines.push(e);
            proof {
                assert(self.read_lines@ =~= s0.read_lines@ + p0.lines@.subrange(p0.pos as int, pi + 1));
                assert forall|k: int| 0 <= k < self.read_lines@.len() implies #[trigger] ident_ok(
                    de.doc,
                    de.doc.entries@[self.read_lines@[k] as int],
                    self.scopes@.len() as int,
                ) by {
                    if k < prev.len() {
                        assert(self.read_lines@[k] == prev[k]);
                    }
                }
                assert(self.wf(*de));
            }
            let ident = match de.value() {
                Ok(t) => t,
                Err(err) => {
                    assert(p0.ident_at(pi) is None);
                    assert(p0.index_run_end(pi) == pi);
                    assert(j == pi);
                    assert(*old(de) == p0);
                    return Err(err);
                },
            };
            proof {
                let p = p0.entry(pi).pair->0;
                if p.keys@.len() > p0.depth() {
                    assert(token_in(de.doc.chars@, p.keys@[p0.depth()]));
                }
            }
            if digits_only(&de.doc.chars, ident.start, ident.end) {
                let v = index_value(de.doc, ident);
                self.insert(v);
                de.next_line();
                proof {
                    assert(p0.index_run_end(pi) == p0.index_run_end(pi + 1));
                    lemma_index_run(&p0, pi + 1);
                    assert(self.index_set() =~= s0.index_set() + p0.indices_between(p0.pos as int, pi + 1)) by {
                        assert forall|x: int| #[trigger] p0.indices_between(p0.pos as int, pi + 1).contains(x)
                            == (p0.indices_between(p0.pos as int, pi).contains(x) || x == v) by {
                            if x == v {
                                assert(index_of(p0.doc, p0.ident_at(pi)->0) == x);
                            }
                            if p0.indices_between(p0.pos as int, pi + 1).contains(x) && x != v {
                                let i = choose|i: int| p0.pos <= i < pi + 1 && index_of(p0.doc, p0.ident_at(i)->0) == x;
                                assert(i < pi);
                            }
                        }
                    }
                }
            } else if is_ender(de.doc, ident) {
                assert(j == pi);
                de.increment_prefix_level();
                let len = match de.atom() {
                    Ok(a) => match a.parse_signed(i64::MIN, i64::MAX) {
                        Ok(v) => Some(v),
                        Err(_) => None,
                    },
                    Err(_) => None,
                };
                de.decrement_prefix_level();
                self.read_length = len;
                assert(de.scopes@ =~= p0.scopes@);
                assert(self.wf(*de));
                assert(self.index_set() == s0.index_set() + p0.indices_between(p0.pos as int, j));
                assert(de.pos == child_end(p0.doc, p0.lines@, p0.lines@[j] as int, p0.depth(), j));
                assert(self.read_lines@ == s0.read_lines@ + p0.lines@.subrange(p0.pos as int, j + 1));
                assert(self.read_length == p0.length_at(j));
                return Ok(true);
            } else {
                assert(j == pi);
                return Err(DeserializerError::ExpectedSequenece {
                    unexpected: de.doc.span(ident),
                });
            }
        }
    }
}

/// What `select` picks from index `lo`: the least recorded index at least `lo`,
/// when it is below the length; `None` ends the sequence.
pub open spec fn next_pick(s: Set<int>, len: Option<i64>, lo: int) -> Option<int> {
    match least_at_least(s, lo) {
        Some(m) => if below_length(len, m) {
            Some(m)
        } else {
            None
        },
        None => None,
    }
}

/// All lines of the parser read without fault as sequence lines.
pub open spec fn all_idents_ok(p: &Parser) -> bool {
    forall|k: int| 0 <= k < p.lines@.len() ==> #[trigger] ident_ok(p.doc, p.entry(k), p.depth())
}

/// Checks the lines from the cursor up to the first line that is not an index line.
fn check_index_run(lookup: &mut Parser) -> (r: Result<(), DeserializerError>)
    requires
        old(lookup).wf(),
    ensures
        ({
            let p = *old(lookup);
            let q = p.index_run_end(p.pos as int);
            if !p.in_scope(q) {
                r == Ok::<(), DeserializerError>(())
            } else if p.ident_at(q) is None {
                r == Err::<(), DeserializerError>(DeserializerError::ExpectedValueNode)
            } else if is_seq_ender(token_text(p.doc.chars@, p.ident_at(q)->0)) {
                r == Ok::<(), DeserializerError>(())
            } else {
                r == Err::<(), DeserializerError>(
                    DeserializerError::ExpectedSequenece { unexpected: span_in(p.doc, p.ident_at(q)->0) },
                )
            }
        }),
{
    let ghost p0 = *lookup;
    loop
        invariant
            lookup.wf(),
            lookup.doc == p0.doc,
            lookup.lines == p0.lines,
            lookup.scopes == p0.scopes,
            *old(lookup) == p0,
            p0.pos <= lookup.pos,
            p0.index_run_end(lookup.pos as int) == p0.index_run_end(p0.pos as int),
        decreases lookup.lines@.len() - lookup.pos,
    {
        let ghost i = lookup.pos as int;
        assert(lookup.ident_at(i) == p0.ident_at(i));
        if lookup.is_finished() {
            return Ok(());
        }
        proof {
            lookup.doc.lemma_entry_in_doc(lookup.lines@[i] as int);
            let p = lookup.entry(i).pair;
            if p is Some && p->0.keys@.len() > lookup.depth() {
                assert(token_in(lookup.doc.chars@, p->0.keys@[lookup.depth()]));
            }
        }
        let ident = lookup.value()?;
        if digits_only(&lookup.doc.chars, ident.start, ident.end) {
            lookup.next_line();
        } else if is_ender(lookup.doc, ident) {
            return Ok(());
        } else {
            return Err(
                DeserializerError::ExpectedSequenece {
                    unexpected: lookup.doc.span(ident),
                },
            );
        }
    }
}

/// Moves the cursor to the first line from it on that is not an index line with
/// an index other than `n`; when that line is an index line (so with index `n`),
/// enters its scope and answers `true`.
fn search_index(lookup: &mut Parser, n: i64) -> (r: Result<bool, DeserializerError>)
    requires
        old(lookup).wf(),
        all_idents_ok(old(lookup)),
    ensures
        ({
            let p = *old(lookup);
            let q = index_search_from(p.doc, p.lines@, p.scopes@, p.pos as int, n as int);
            if p.in_scope(q) && p.ident_at(q) is None {
                r == Err::<bool, DeserializerError>(DeserializerError::ExpectedValueNode)
            } else if p.in_scope(q) && is_index(p.doc, p.ident_at(q)->0) {
                &&& r == Ok::<bool, DeserializerError>(true)
                &&& final(lookup).wf()
                &&& final(lookup).doc == p.doc
                &&& final(lookup).lines == p.lines
                &&& final(lookup).pos == q
                &&& final(lookup).scopes@ == p.scopes@.push(p.lines@[q])
                &&& final(lookup).deser_any_col == p.deser_any_col
            } else {
                r == Ok::<bool, DeserializerError>(false)
            }
        }),
{
    let ghost p0 = *lookup;
    loop
        invariant
            lookup.wf(),
            all_idents_ok(&p0),
            lookup.doc == p0.doc,
            lookup.lines == p0.lines,
            lookup.scopes == p0.scopes,
            lookup.deser_any_col == p0.deser_any_col,
            *old(lookup) == p0,
            p0.pos <= lookup.pos,
            index_search_from(p0.doc, p0.lines@, p0.scopes@, lookup.pos as int, n as int)
                == index_search_from(p0.doc, p0.lines@, p0.scopes@, p0.pos as int, n as int),
        decreases lookup.lines@.len() - lookup.pos,
    {
        let ghost i = lookup.pos as int;
        assert(lookup.ident_at(i) == p0.ident_at(i));
        if lookup.is_finished() {
            return Ok(false);
        }
        proof {
            lookup.doc.lemma_entry_in_doc(lookup.lines@[i] as int);
            let p = lookup.entry(i).pair;
            if p is Some && p->0.keys@.len() > lookup.depth() {
                assert(token_in(lookup.doc.chars@, p->0.keys@[lookup.depth()]));
            }
        }
        let ident = lookup.value()?;
        if digits_only(&lookup.doc.chars, ident.start, ident.end) {
            proof {
                assert(ident_ok(p0.doc, p0.entry(i), p0.depth()));
            }
            let v = index_value(lookup.doc, ident);
            if v == n {
                lookup.increment_prefix_level();
                return Ok(true);
            } else {
                lookup.next_line();
            }
        } else {
            return Ok(false);
        }
    }
}

impl SeqParser {
    /// Picks the next element among the lines read: the least recorded index
    /// that is at least `index`. When there is none, or it is not below the
    /// length, the sequence ends: `index` starts over and the lines read are
    /// checked up to the length marker. Otherwise `index` moves past the element
    /// and the parser returned stands at the first line read with that index,
    /// inside its scope.
    pub fn select<'d>(&mut self, doc: &'d Document) -> (r: Result<
        Option<Parser<'d>>,
        DeserializerError,
    >)
        requires
            old(self).wf_in(doc),
        ensures
            final(self).wf_in(doc),
            final(self).read_lines == old(self).read_lines,
            final(self).read_indices == old(self).read_indices,
            final(self).read_length == old(self).read_length,
            final(self).scopes == old(self).scopes,
            ({
                let nx = next_pick(old(self).index_set(), old(self).read_length, old(self).index as int);
                let lines = old(self).read_lines@;
                let sc = old(self).scopes@;
                if nx is None {
                    let q = index_run_from(doc, lines, sc, 0);
                    &&& final(self).index == 0
                    &&& if !scope_has(doc, lines, sc, q) {
                        r == Ok::<Option<Parser<'d>>, DeserializerError>(None)
                    } else if ident_in(doc, lines, sc, q) is None {
                        r == Err::<Option<Parser<'d>>, DeserializerError>(
                            DeserializerError::ExpectedValueNode,
                        )
                    } else if is_seq_ender(token_text(doc.chars@, ident_in(doc, lines, sc, q)->0)) {
                        r == Ok::<Option<Parser<'d>>, DeserializerError>(None)
                    } else {
                        r == Err::<Option<Parser<'d>>, DeserializerError>(
                            DeserializerError::ExpectedSequenece {
                                unexpected: span_in(doc, ident_in(doc, lines, sc, q)->0),
                            },
                        )
                    }
                } else {
                    let n = nx->0;
                    let q = index_search_from(doc, lines, sc, 0, n);
                    if scope_has(doc, lines, sc, q) && ident_in(doc, lines, sc, q) is None {
                        &&& r == Err::<Option<Parser<'d>>, DeserializerError>(
                            DeserializerError::ExpectedValueNode,
                        )
                        &&& final(self).index == old(self).index
                    } else if scope_has(doc, lines, sc, q) && is_index(
                        doc,
                        ident_in(doc, lines, sc, q)->0,
                    ) {
                        &&& final(self).index == n + 1
                        &&& r matches Ok(Some(lk)) && {
                            &&& lk.wf()
                            &&& lk.doc == doc
                            &&& lk.lines@ == lines
                            &&& lk.pos == q
                            &&& lk.scopes@ == sc.push(lines[q])
                            &&& !lk.deser_any_col
                        }
                    } else {
                        &&& final(self).index == n + 1
                        &&& r == Ok::<Option<Parser<'d>>, DeserializerError>(None)
                    }
                }
            }),
    {
        let next = self.least_from(self.index);
        let at_end = match next {
            None => true,
            Some(n) => match self.read_length {
                Some(l) => n >= l,
                None => false,
            },
        };
        let mut lookup = Parser {
            doc,
            lines: copy_vec(&self.read_lines),
            pos: 0,
            scopes: copy_vec(&self.scopes),
            deser_any_col: false,
        };
        if at_end {
            self.index = 0;
            match check_index_run(&mut lookup) {
                Ok(()) => Ok(None),
                Err(e) => Err(e),
            }
        } else {
            let n = match next {
                Some(n) => n,
                None => 0,
            };
            proof {
                lemma_least_at_least(self.index_set(), self.index as int);
                self.lemma_index_set_range(doc);
                assert(self.index_set().contains(n as int));
                assert forall|k: int| 0 <= k < lookup.lines@.len() implies #[trigger] ident_ok(
                    lookup.doc,
                    lookup.entry(k),
                    lookup.depth(),
                ) by {
                    assert(lookup.lines@[k] == self.read_lines@[k]);
                }
            }
            match search_index(&mut lookup, n) {
                Err(e) => Err(e),
                Ok(found) => {
                    self.index = n + 1;
                    if found {
                        Ok(Some(lookup))
                    } else {
                        Ok(None)
                    }
                },
            }
        }
    }
}

/// When `s` has a member at least `lo`, it has a least one.
pub proof fn lemma_least_exists(s: Set<int>, lo: int, x: int)
    requires
        s.contains(x),
        x >= lo,
    ensures
        exists|m: int| is_least_at_least(s, lo, m),
    decreases x - lo,
{
    if exists|y: int| s.contains(y) && lo <= y < x {
        let y = choose|y: int| s.contains(y) && lo <= y < x;
        lemma_least_exists(s, lo, y);
    } else {
        assert(is_least_at_least(s, lo, x));
    }
}

/// The least member at least `lo` is absent exactly when no member is at least `lo`.
pub proof fn lemma_least_none(s: Set<int>, lo: int)
    ensures
        least_at_least(s, lo) is None <==> forall|x: int| s.contains(x) ==> x < lo,
{
    reveal(least_at_least);
    if exists|x: int| s.contains(x) && x >= lo {
        let x = choose|x: int| s.contains(x) && x >= lo;
        lemma_least_exists(s, lo, x);
    }
}

/// The indices a sequence yields from index `lo` on, when its recorded indices
/// are `s` and its length is `len`: each step takes the least recorded index
/// not below the current one and stops at the first that is not below the length.
/// (Recorded indices are below `i64::MAX`, so that bound never stops a real sequence.)
pub open spec fn seq_yields(s: Set<int>, len: Option<i64>, lo: int) -> Seq<int>
    decreases i64::MAX - lo,
{
    if lo >= i64::MAX {
        seq![]
    } else {
        match least_at_least(s, lo) {
            Some(m) => if below_length(len, m) && m < i64::MAX {
                proof {
                    lemma_least_at_least(s, lo);
                    assert(is_least_at_least(s, lo, m));
                    assert(m >= lo);
                }
                seq![m] + seq_yields(s, len, m + 1)
            } else {
                seq![]
            },
            None => seq![],
        }
    }
}

/// A sequence yields its elements in increasing index order, whatever the
/// order of their lines, and yields exactly the recorded indices that are not
/// below the starting index and are below the length (when one is given).
pub proof fn lemma_seq_yields_sorted(s: Set<int>, len: Option<i64>, lo: int)
    requires
        forall|x: int| s.contains(x) ==> 0 <= x < i64::MAX,
        0 <= lo,
    ensures
        forall|a: int, b: int|
            0 <= a < b < seq_yields(s, len, lo).len() ==> seq_yields(s, len, lo)[a]
                < seq_yields(s, len, lo)[b],
        forall|x: int|
            #[trigger] seq_yields(s, len, lo).contains(x) <==> (s.contains(x) && x >= lo && below_length(
                len,
                x,
            )),
    decreases i64::MAX - lo,
{
    let r = seq_yields(s, len, lo);
    lemma_least_at_least(s, lo);
    lemma_least_none(s, lo);
    if lo >= i64::MAX {
        assert(r =~= Seq::<int>::empty());
    } else {
        match least_at_least(s, lo) {
            Some(m) => {
                if below_length(len, m) {
                    assert(m < i64::MAX);
                    lemma_seq_yields_sorted(s, len, m + 1);
                    let rest = seq_yields(s, len, m + 1);
                    assert(r == seq![m] + rest);
                    assert forall|a: int, b: int| 0 <= a < b < r.len() implies r[a] < r[b] by {
                        if a == 0 {
                            assert(r[0] == m);
                            assert(r[b] == rest[b - 1]);
                            assert(rest.contains(rest[b - 1]));
                            assert(rest[b - 1] >= m + 1);
                        } else {
                            assert(r[a] == rest[a - 1]);
                            assert(r[b] == rest[b - 1]);
                            assert(0 <= a - 1 < b - 1 < rest.len());
                            assert(rest[a - 1] < rest[b - 1]);
                        }
                    }
                    assert forall|x: int| r.contains(x) <==> (s.contains(x) && x >= lo
                        && below_length(len, x)) by {
                        if r.contains(x) {
                            let i = choose|i: int| 0 <= i < r.len() && r[i] == x;
                            if i > 0 {
                                assert(rest[i - 1] == x);
                                assert(rest.contains(x));
                            }
                        }
                        if s.contains(x) && x >= lo && below_length(len, x) {
                            if x == m {
                                assert(r[0] == x);
                            } else {
                                assert(rest.contains(x));
                                let i = choose|i: int| 0 <= i < rest.len() && rest[i] == x;
                                assert(r[i + 1] == x);
                            }
                        }
                    }
                } else {
                    assert(r =~= Seq::<int>::empty());
                }
            },
            None => {
                assert(r =~= Seq::<int>::empty());
            },
        }
    }
}

/// One call of `select` is one step of `seq_yields`: when the yields from the
/// current index are not empty, the element `select` picks is the first of them
/// and the yields from the next index are the rest; when they are empty,
/// `select` ends the sequence.
pub proof fn lemma_select_steps_yields(s: Set<int>, len: Option<i64>, lo: int)
    requires
        forall|x: int| s.contains(x) ==> 0 <= x < i64::MAX,
        0 <= lo < i64::MAX,
    ensures
        seq_yields(s, len, lo).len() > 0 ==> {
            &&& least_at_least(s, lo) == Some(seq_yields(s, len, lo)[0])
            &&& below_length(len, seq_yields(s, len, lo)[0])
            &&& seq_yields(s, len, seq_yields(s, len, lo)[0] + 1) == seq_yields(s, len, lo).drop_first()
        },
        seq_yields(s, len, lo).len() == 0 ==> (least_at_least(s, lo) is None || !below_length(
            len,
            least_at_least(s, lo)->0,
        )),
{
    lemma_least_at_least(s, lo);
    let r = seq_yields(s, len, lo);
    match least_at_least(s, lo) {
        Some(m) => {
            if below_length(len, m) {
                assert(r == seq![m] + seq_yields(s, len, m + 1));
                assert(r.drop_first() =~= seq_yields(s, len, m + 1));
            }
        },
        None => {},
    }
}

/// Whether a line reads without fault as a sequence line at depth `d`.
fn ident_fits(doc: &Document, e: &Entry, d: usize) -> (r: bool)
    requires
        doc.wf(),
        crate::document::entry_in_doc(doc, *e),
    ensures
        r == ident_ok(doc, *e, d as int),
{
    match &e.pair {
        None => true,
        Some(p) => {
            let t = if p.keys.len() > d {
                assert(token_in(doc.chars@, p.keys@[d as int]));
                p.keys[d]
            } else {
                p.value
            };
            if !digits_only(&doc.chars, t.start, t.end) {
                return true;
            }
            if t.start >= t.end {
                return false;
            }
            match crate::atom::digits_value(&doc.chars, t.start, t.end) {
                Some(v) => v < 0x7fff_ffff_ffff_ffff,
                None => false,
            }
        },
    }
}

impl<'d> Parser<'d> {
    /// Whether every index line that a scan from the cursor reads, up to the
    /// first line of the scope that is not an index line, reads without fault
    /// (what `SeqParser::scan` needs).
    pub fn run_idents_fit(&self) -> (r: bool)
        requires
            self.wf(),
        ensures
            r == self.run_idents_ok(),
    {
        let mut i = self.pos;
        let d = self.scopes.len();
        let n = self.lines.len();
        while self.line_in_scope(i)
            invariant
                self.wf(),
                d == self.depth(),
                n == self.lines@.len(),
                self.pos <= i <= self.lines@.len(),
                self.index_run_end(self.pos as int) == self.index_run_end(i as int),
                forall|m: int|
                    self.pos <= m < i ==> #[trigger] ident_ok(self.doc, self.entry(m), self.depth()),
            decreases self.lines@.len() - i,
        {
            proof {
                self.doc.lemma_entry_in_doc(self.lines@[i as int] as int);
                lemma_index_run(self, i as int);
            }
            let e = &self.doc.entries[self.lines[i]];
            let t = match &e.pair {
                None => {
                    assert(self.index_run_end(i as int) == i);
                    return true;
                },
                Some(p) => if p.keys.len() > d {
                    assert(token_in(self.doc.chars@, p.keys@[d as int]));
                    p.keys[d]
                } else {
                    p.value
                },
            };
            assert(self.ident_at(i as int) == Some(t));
            if !digits_only(&self.doc.chars, t.start, t.end) {
                assert(self.index_run_end(i as int) == i);
                return true;
            }
            proof { lemma_index_run(self, i as int + 1); }
            if !ident_fits(self.doc, e, d) {
                assert(!ident_ok(self.doc, self.entry(i as int), self.depth()));
                return false;
            }
            i += 1;
        }
        proof {
            lemma_index_run(self, i as int);
        }
        true
    }
}

} // verus!
