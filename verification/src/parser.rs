//! The reading cursor: it walks the content lines of a document, scope by
//! scope, where a scope holds the lines whose keys share a prefix.
use vstd::prelude::*;
use crate::document::{Document, Entry, Token, token_text, entry_in_doc};
use crate::atom::AtomParser;
use crate::error::DeserializerError;

verus! {

/// A line's key path below the current scope, its value and the whole line.
#[derive(Clone, Debug)]
pub struct KeyValue {
    pub path: Vec<Token>,
    pub value: Token,
    pub line: Token,
}

/// What an untyped request finds at the cursor.
#[derive(Clone, Copy, Debug, PartialEq, Eq)]
pub enum AnyKind {
    /// The child keys are indices: a sequence.
    Sequence,
    /// The child keys are names: a map.
    Mapping,
    /// A single value.
    Atom,
}

/// A cursor over `lines` (indices of entries of `doc`, in increasing order).
/// `scopes` holds, for every scope entered, the entry it was entered at; the
/// depth of the cursor is the number of scopes.
pub struct Parser<'d> {
    pub doc: &'d Document,
    pub lines: Vec<usize>,
    pub pos: usize,
    pub scopes: Vec<usize>,
    /// Set while a key or an enum tag is read: an untyped request then reads an atom.
    pub deser_any_col: bool,
}

/// Number of key components of an entry (none for a line without `=`).
pub open spec fn key_count(e: Entry) -> int {
    match e.pair {
        Some(p) => p.keys@.len() as int,
        None => 0,
    }
}

/// Text of the `k`-th key component of an entry.
pub open spec fn key_text(doc: &Document, e: Entry, k: int) -> Seq<char> {
    token_text(doc.chars@, e.pair->0.keys@[k])
}

/// Both entries have at least `d` key components and the first `d` agree.
pub open spec fn shares_prefix(doc: &Document, e1: Entry, e2: Entry, d: int) -> bool {
    &&& key_count(e1) >= d
    &&& key_count(e2) >= d
    &&& forall|k: int| 0 <= k < d ==> #[trigger] key_text(doc, e1, k) == key_text(doc, e2, k)
}

/// The token that names a line at depth `d`: its key component `d`, or, when
/// the key has no more components, its value.
pub open spec fn ident_of(e: Entry, d: int) -> Option<Token> {
    match e.pair {
        Some(p) => if p.keys@.len() > d {
            Some(p.keys@[d])
        } else {
            Some(p.value)
        },
        None => None,
    }
}

/// Entry `e` belongs to the child scope that was entered at entry `a` at depth `d`:
/// it is that entry, or its first `d + 1` key components are those of `a`.
pub open spec fn in_child(doc: &Document, e: int, a: int, d: int) -> bool {
    ||| e == a
    ||| (0 <= a < doc.entries@.len() && shares_prefix(
        doc,
        doc.entries@[e],
        doc.entries@[a],
        d + 1,
    ))
}

/// The first position at or after `i` whose line is not in the child scope
/// entered at entry `a` at depth `d`.
pub open spec fn child_end(doc: &Document, lines: Seq<usize>, a: int, d: int, i: int) -> int
    decreases lines.len() - i,
{
    if 0 <= i < lines.len() && in_child(doc, lines[i] as int, a, d) {
        child_end(doc, lines, a, d, i + 1)
    } else {
        i
    }
}

/// The line at position `i` of `lines` belongs to the innermost of `scopes`.
pub open spec fn scope_has(doc: &Document, lines: Seq<usize>, scopes: Seq<usize>, i: int) -> bool {
    &&& 0 <= i < lines.len()
    &&& (scopes.len() == 0 || {
        let a = scopes.last();
        &&& a < doc.entries@.len()
        &&& shares_prefix(doc, doc.entries@[lines[i] as int], doc.entries@[a as int], scopes.len() as int)
    })
}

/// The token that names the line at position `i` of `lines` inside `scopes`.
pub open spec fn ident_in(doc: &Document, lines: Seq<usize>, scopes: Seq<usize>, i: int) -> Option<Token> {
    ident_of(doc.entries@[lines[i] as int], scopes.len() as int)
}

impl<'d> Parser<'d> {
    pub open spec fn depth(&self) -> int {
        self.scopes@.len() as int
    }

    pub open spec fn entry(&self, i: int) -> Entry {
        self.doc.entries@[self.lines@[i] as int]
    }

    /// The line at position `i` belongs to the current scope.
    pub open spec fn in_scope(&self, i: int) -> bool {
        scope_has(self.doc, self.lines@, self.scopes@, i)
    }

    /// No line of the current scope is left.
    pub open spec fn finished(&self) -> bool {
        !self.in_scope(self.pos as int)
    }

    /// The token that names the line at position `i` in the current scope.
    pub open spec fn ident_at(&self, i: int) -> Option<Token> {
        ident_in(self.doc, self.lines@, self.scopes@, i)
    }

    pub open spec fn wf(&self) -> bool {
        &&& self.doc.wf()
        &&& self.pos <= self.lines@.len()
        &&& forall|i: int|
            0 <= i < self.lines@.len() ==> #[trigger] self.lines@[i] < self.doc.entries@.len()
        &&& forall|i: int|
            0 <= i < self.scopes@.len() ==> #[trigger] self.scopes@[i]
                <= self.doc.entries@.len()
    }

    /// A cursor at the first line of `doc`, outside any scope.
    pub fn new(doc: &'d Document) -> (p: Parser<'d>)
        requires
            doc.wf(),
        ensures
            p.wf(),
            p.doc == doc,
            p.lines@.len() == doc.entries@.len(),
            forall|i: int| 0 <= i < p.lines@.len() ==> p.lines@[i] == i,
            p.pos == 0,
            p.scopes@.len() == 0,
            !p.deser_any_col,
    {
        let mut lines: Vec<usize> = Vec::new();
        let n = doc.entries.len();
        let mut i: usize = 0;
        while i < n
            invariant
                i <= n == doc.entries@.len(),
                lines@.len() == i,
                forall|j: int| 0 <= j < i ==> lines@[j] == j,
            decreases n - i,
        {
            lines.push(i);
            i += 1;
        }
        Parser { doc, lines, pos: 0, scopes: Vec::new(), deser_any_col: false }
    }

    /// Whether the key components `k < d` of two entries agree.
    fn same_prefix(&self, e1: &Entry, e2: &Entry, d: usize) -> (r: bool)
        requires
            self.doc.wf(),
            entry_in_doc(self.doc, *e1),
            entry_in_doc(self.doc, *e2),
        ensures
            r == shares_prefix(self.doc, *e1, *e2, d as int),
    {
        match (&e1.pair, &e2.pair) {
            (Some(p1), Some(p2)) => {
                if p1.keys.len() < d || p2.keys.len() < d {
                    return false;
                }
                let mut k: usize = 0;
                while k < d
                    invariant
                        k <= d <= p1.keys@.len(),
                        d <= p2.keys@.len(),
                        self.doc.wf(),
                        e1.pair == Some(*p1),
                        e2.pair == Some(*p2),
                        entry_in_doc(self.doc, *e1),
                        entry_in_doc(self.doc, *e2),
                        forall|j: int|
                            0 <= j < k ==> #[trigger] key_text(self.doc, *e1, j) == key_text(
                                self.doc,
                                *e2,
                                j,
                            ),
                    decreases d - k,
                {
                    assert(crate::document::token_in(self.doc.chars@, p1.keys@[k as int]));
                    assert(crate::document::token_in(self.doc.chars@, p2.keys@[k as int]));
                    if !self.doc.same_text(p1.keys[k], p2.keys[k]) {
                        assert(key_text(self.doc, *e1, k as int) != key_text(self.doc, *e2, k as int));
                        return false;
                    }
                    k += 1;
                }
                true
            },
            _ => d == 0,
        }
    }

    /// Whether the line at position `i` belongs to the current scope.
    pub fn line_in_scope(&self, i: usize) -> (r: bool)
        requires
            self.wf(),
        ensures
            r == self.in_scope(i as int),
            i < self.lines@.len() && self.depth() > 0 ==> (r <==> {
                let a = self.scopes@.last() as int;
                &&& a < self.doc.entries@.len()
                &&& shares_prefix(self.doc, self.entry(i as int), self.doc.entries@[a], self.depth())
            }),
    {
        if i >= self.lines.len() {
            return false;
        }
        if self.scopes.len() == 0 {
            return true;
        }
        let a = self.scopes[self.scopes.len() - 1];
        if a >= self.doc.entries.len() {
            return false;
        }
        proof {
            self.doc.lemma_entry_in_doc(self.lines@[i as int] as int);
            self.doc.lemma_entry_in_doc(a as int);
        }
        self.same_prefix(&self.doc.entries[self.lines[i]], &self.doc.entries[a], self.scopes.len())
    }

    /// No line of the current scope is left.
    pub fn is_finished(&self) -> (r: bool)
        requires
            self.wf(),
        ensures
            r == self.finished(),
    {
        !self.line_in_scope(self.pos)
    }

    /// Enters the child scope of the line at the cursor; at the end of the
    /// lines the scope entered is empty.
    pub fn increment_prefix_level(&mut self)
        requires
            old(self).wf(),
        ensures
            final(self).wf(),
            final(self).doc == old(self).doc,
            final(self).lines == old(self).lines,
            final(self).pos == old(self).pos,
            final(self).deser_any_col == old(self).deser_any_col,
            final(self).scopes@ == old(self).scopes@.push(
                if old(self).pos < old(self).lines@.len() {
                    old(self).lines@[old(self).pos as int]
                } else {
                    old(self).doc.entries@.len() as usize
                },
            ),
    {
        let a = if self.pos < self.lines.len() {
            self.lines[self.pos]
        } else {
            self.doc.entries.len()
        };
        self.scopes.push(a);
    }

    /// Leaves the innermost scope and moves the cursor past the rest of its lines.
    pub fn decrement_prefix_level(&mut self)
        requires
            old(self).wf(),
            old(self).scopes@.len() > 0,
        ensures
            final(self).wf(),
            final(self).doc == old(self).doc,
            final(self).lines == old(self).lines,
            final(self).deser_any_col == old(self).deser_any_col,
            final(self).scopes@ == old(self).scopes@.drop_last(),
            final(self).pos == child_end(
                old(self).doc,
                old(self).lines@,
                old(self).scopes@.last() as int,
                old(self).scopes@.len() - 1,
                old(self).pos as int,
            ),
            old(self).pos <= final(self).pos,
            forall|m: int|
                old(self).pos <= m < final(self).pos ==> old(self).lines@[m] == old(self).scopes@.last()
                    || shares_prefix(
                    old(self).doc,
                    old(self).entry(m),
                    old(self).doc.entries@[old(self).scopes@.last() as int],
                    old(self).scopes@.len() as int,
                ),
            final(self).pos < old(self).lines@.len() ==> old(self).lines@[final(self).pos as int]
                != old(self).scopes@.last() && !(old(self).scopes@.last() < old(self).doc.entries@.len()
                && shares_prefix(
                old(self).doc,
                old(self).entry(final(self).pos as int),
                old(self).doc.entries@[old(self).scopes@.last() as int],
                old(self).scopes@.len() as int,
            )),
    {
        let n = self.scopes.len();
        let a = self.scopes[n - 1];
        assert(a <= self.doc.entries@.len());
        self.scopes.pop();
        let d = n - 1;
        let ghost p0 = self.pos as int;
        while self.pos < self.lines.len() && self.in_child_scope(self.lines[self.pos], a, n)
            invariant
                self.wf(),
                self.doc == old(self).doc,
                self.lines == old(self).lines,
                self.scopes@ == old(self).scopes@.drop_last(),
                self.deser_any_col == old(self).deser_any_col,
                a == old(self).scopes@.last(),
                a <= self.doc.entries@.len(),
                d == self.scopes@.len(),
                n == d + 1,
                p0 <= self.pos,
                child_end(self.doc, self.lines@, a as int, d as int, self.pos as int) == child_end(
                    self.doc,
                    self.lines@,
                    a as int,
                    d as int,
                    p0,
                ),
            decreases self.lines@.len() - self.pos,
        {
            self.pos = self.pos + 1;
        }
        proof {
            lemma_child_end_bounds(self.doc, self.lines@, a as int, d as int, p0);
            assert forall|m: int| p0 <= m < self.pos implies old(self).lines@[m] == a || shares_prefix(
                self.doc,
                old(self).entry(m),
                self.doc.entries@[a as int],
                n as int,
            ) by {
                assert(in_child(self.doc, self.lines@[m] as int, a as int, d as int));
            }
        }
    }

    /// Whether entry `e` is in the child scope entered at entry `a` at depth `d1 - 1`.
    fn in_child_scope(&self, e: usize, a: usize, d1: usize) -> (r: bool)
        requires
            self.doc.wf(),
            e < self.doc.entries@.len(),
            a <= self.doc.entries@.len(),
            d1 >= 1,
        ensures
            r == in_child(self.doc, e as int, a as int, d1 - 1),
    {
        if e == a {
            return true;
        }
        if a >= self.doc.entries.len() {
            return false;
        }
        proof {
            self.doc.lemma_entry_in_doc(e as int);
            self.doc.lemma_entry_in_doc(a as int);
        }
        self.same_prefix(&self.doc.entries[e], &self.doc.entries[a], d1)
    }

    /// Moves the cursor to the next line.
    pub fn next_line(&mut self)
        requires
            old(self).wf(),
            old(self).pos < old(self).lines@.len(),
        ensures
            final(self).wf(),
            final(self).doc == old(self).doc,
            final(self).lines == old(self).lines,
            final(self).scopes == old(self).scopes,
            final(self).deser_any_col == old(self).deser_any_col,
            final(self).pos == old(self).pos + 1,
    {
        let n = self.lines.len();
        assert(self.pos < n);
        self.pos = self.pos + 1;
    }

    /// The line at the cursor, relative to the current scope: `None` when the
    /// scope is finished or the line holds no `=`.
    pub fn key_value(&self) -> (r: Option<KeyValue>)
        requires
            self.wf(),
        ensures
            match r {
                None => self.finished() || self.entry(self.pos as int).pair is None,
                Some(kv) => {
                    &&& !self.finished()
                    &&& self.entry(self.pos as int).pair is Some
                    &&& kv.path@ == self.entry(self.pos as int).pair->0.keys@.skip(
                        self.depth(),
                    )
                    &&& kv.value == self.entry(self.pos as int).pair->0.value
                    &&& kv.line == self.entry(self.pos as int).line
                },
            },
    {
        if self.is_finished() {
            return None;
        }
        let e = &self.doc.entries[self.lines[self.pos]];
        match &e.pair {
            None => None,
            Some(p) => {
                let d = self.scopes.len();
                let mut path: Vec<Token> = Vec::new();
                let mut k = d;
                while k < p.keys.len()
                    invariant
                        d <= k <= p.keys@.len(),
                        d == self.scopes@.len(),
                        path@ == p.keys@.subrange(d as int, k as int),
                    decreases p.keys@.len() - k,
                {
                    path.push(p.keys[k]);
                    proof {
                        assert(p.keys@.subrange(d as int, k + 1) =~= p.keys@.subrange(
                            d as int,
                            k as int,
                        ).push(p.keys@[k as int]));
                    }
                    k += 1;
                }
                proof {
                    // the cursor's line is in scope, so it has at least `d` key components
                    assert(p.keys@.skip(d as int) =~= p.keys@.subrange(d as int, k as int));
                }
                Some(KeyValue { path, value: p.value, line: e.line })
            },
        }
    }

    /// The line at the cursor, or `ExpectedKeyValuePair`.
    pub fn peek_key_value(&self) -> (r: Result<KeyValue, DeserializerError>)
        requires
            self.wf(),
        ensures
            match r {
                Err(e) => e == DeserializerError::ExpectedKeyValuePair && (self.finished()
                    || self.entry(self.pos as int).pair is None),
                Ok(kv) => {
                    &&& !self.finished()
                    &&& self.entry(self.pos as int).pair is Some
                    &&& kv.path@ == self.entry(self.pos as int).pair->0.keys@.skip(
                        self.depth(),
                    )
                    &&& kv.value == self.entry(self.pos as int).pair->0.value
                    &&& kv.line == self.entry(self.pos as int).line
                },
            },
    {
        match self.key_value() {
            Some(kv) => Ok(kv),
            None => Err(DeserializerError::ExpectedKeyValuePair),
        }
    }

    /// The token that names the line at the cursor in the current scope: its
    /// next key component, or its value when the key has no more components.
    pub fn value(&self) -> (r: Result<Token, DeserializerError>)
        requires
            self.wf(),
        ensures
            match r {
                Err(e) => e == DeserializerError::ExpectedValueNode && (self.finished()
                    || self.entry(self.pos as int).pair is None),
                Ok(t) => !self.finished() && self.ident_at(self.pos as int) == Some(t),
            },
    {
        match self.key_value() {
            None => Err(DeserializerError::ExpectedValueNode),
            Some(kv) => {
                if kv.path.len() > 0 {
                    Ok(kv.path[0])
                } else {
                    Ok(kv.value)
                }
            },
        }
    }

    /// The atom at the cursor.
    pub fn atom(&self) -> (r: Result<AtomParser<'d>, DeserializerError>)
        requires
            self.wf(),
        ensures
            match r {
                Err(e) => e == DeserializerError::ExpectedValueNode && (self.finished()
                    || self.entry(self.pos as int).pair is None),
                Ok(a) => !self.finished() && self.ident_at(self.pos as int) == Some(a.input)
                    && a.doc == self.doc && a.wf(),
            },
    {
        let input = self.value()?;
        proof {
            self.doc.lemma_entry_in_doc(self.lines@[self.pos as int] as int);
        }
        Ok(AtomParser { doc: self.doc, input })
    }

    /// What an untyped request reads at the cursor: outside a key, a line with
    /// a deeper key is a sequence when its next component is all digits, and a
    /// map otherwise; everything else is an atom.
    pub fn any_kind(&self) -> (r: Result<AnyKind, DeserializerError>)
        requires
            self.wf(),
        ensures
            match r {
                Err(e) => e == DeserializerError::ExpectedKeyValuePair && (self.finished()
                    || self.entry(self.pos as int).pair is None),
                Ok(k) => !self.finished() && self.entry(self.pos as int).pair is Some && ({
                    let p = self.entry(self.pos as int).pair->0;
                    if !self.deser_any_col && p.keys@.len() > self.depth() {
                        let t = p.keys@[self.depth()];
                        k == (if crate::text::all_digits(
                            self.doc.chars@,
                            t.start as int,
                            t.end as int,
                        ) {
                            AnyKind::Sequence
                        } else {
                            AnyKind::Mapping
                        })
                    } else {
                        k == AnyKind::Atom
                    }
                }),
            },
    {
        let kv = self.peek_key_value()?;
        let level = kv.path.len();
        if !self.deser_any_col && level > 0 {
            let ident = kv.path[0];
            proof {
                self.doc.lemma_entry_in_doc(self.lines@[self.pos as int] as int);
                let p = self.entry(self.pos as int).pair->0;
                assert(ident == p.keys@[self.depth()]);
                assert(crate::document::token_in(self.doc.chars@, p.keys@[self.depth()]));
            }
            if crate::text::digits_only(&self.doc.chars, ident.start, ident.end) {
                Ok(AnyKind::Sequence)
            } else {
                Ok(AnyKind::Mapping)
            }
        } else {
            Ok(AnyKind::Atom)
        }
    }
}

pub proof fn lemma_child_end_bounds(doc: &Document, lines: Seq<usize>, a: int, d: int, i: int)
    requires
        0 <= i <= lines.len(),
    ensures
        i <= child_end(doc, lines, a, d, i) <= lines.len(),
        forall|m: int|
            i <= m < child_end(doc, lines, a, d, i) ==> #[trigger] in_child(
                doc,
                lines[m] as int,
                a,
                d,
            ),
        child_end(doc, lines, a, d, i) < lines.len() ==> !in_child(
            doc,
            lines[child_end(doc, lines, a, d, i)] as int,
            a,
            d,
        ),
    decreases lines.len() - i,
{
    if i < lines.len() && in_child(doc, lines[i] as int, a, d) {
        lemma_child_end_bounds(doc, lines, a, d, i + 1);
    }
}

/// Leaving the scope entered at entry `a` at depth `d` skips, from position
/// `i` on, exactly the lines of that key: each line skipped is `a` itself or
/// has all of the first `d + 1` key components of `a`; the line where the
/// cursor stops is not `a` and differs from `a` in one of those components (or
/// has fewer).
pub proof fn lemma_leave_scope_skips_key(doc: &Document, lines: Seq<usize>, a: int, d: int, i: int)
    requires
        0 <= i <= lines.len(),
        0 <= d,
    ensures
        forall|m: int|
            i <= m < child_end(doc, lines, a, d, i) ==> lines[m] == a || {
                &&& 0 <= a < doc.entries@.len()
                &&& key_count(doc.entries@[lines[m] as int]) > d
                &&& key_count(doc.entries@[a]) > d
                &&& forall|k: int|
                    0 <= k <= d ==> #[trigger] key_text(doc, doc.entries@[lines[m] as int], k)
                        == key_text(doc, doc.entries@[a], k)
            },
        child_end(doc, lines, a, d, i) < lines.len() ==> {
            let e = lines[child_end(doc, lines, a, d, i)] as int;
            &&& e != a
            &&& !{
                &&& 0 <= a < doc.entries@.len()
                &&& key_count(doc.entries@[e]) > d
                &&& key_count(doc.entries@[a]) > d
                &&& forall|k: int|
                    0 <= k <= d ==> #[trigger] key_text(doc, doc.entries@[e], k) == key_text(
                        doc,
                        doc.entries@[a],
                        k,
                    )
            }
        },
{
    lemma_child_end_bounds(doc, lines, a, d, i);
    let c = child_end(doc, lines, a, d, i);
    assert forall|m: int| i <= m < c implies lines[m] == a || {
        &&& 0 <= a < doc.entries@.len()
        &&& key_count(doc.entries@[lines[m] as int]) > d
        &&& key_count(doc.entries@[a]) > d
        &&& forall|k: int|
            0 <= k <= d ==> #[trigger] key_text(doc, doc.entries@[lines[m] as int], k) == key_text(
                doc,
                doc.entries@[a],
                k,
            )
    } by {
        assert(in_child(doc, lines[m] as int, a, d));
        if lines[m] != a {
            assert forall|k: int| 0 <= k <= d implies #[trigger] key_text(doc, doc.entries@[lines[m] as int], k)
                == key_text(doc, doc.entries@[a], k) by {
                assert(0 <= k < d + 1);
            }
        }
    }
    if c < lines.len() {
        let e = lines[c] as int;
        assert(!in_child(doc, e, a, d));
        if 0 <= a < doc.entries@.len() && key_count(doc.entries@[e]) > d && key_count(doc.entries@[a]) > d
            && forall|k: int| 0 <= k <= d ==> #[trigger] key_text(doc, doc.entries@[e], k) == key_text(
            doc,
            doc.entries@[a],
            k,
        ) {
            assert forall|k: int| 0 <= k < d + 1 implies #[trigger] key_text(doc, doc.entries@[e], k)
                == key_text(doc, doc.entries@[a], k) by {
                assert(0 <= k <= d);
            }
            assert(shares_prefix(doc, doc.entries@[e], doc.entries@[a], d + 1));
        }
    }
}

/// Inside a scope, a line belongs to it exactly when its key has all of the
/// key components, up to the depth, of the entry the scope was entered at: a
/// map read at a key prefix reads the lines whose keys start with that whole
/// prefix, and no other.
pub proof fn lemma_in_scope_full_prefix(p: &Parser, i: int)
    requires
        p.wf(),
        0 <= i < p.lines@.len(),
        p.depth() > 0,
    ensures
        p.in_scope(i) <==> {
            let a = p.scopes@.last() as int;
            &&& a < p.doc.entries@.len()
            &&& key_count(p.entry(i)) >= p.depth()
            &&& key_count(p.doc.entries@[a]) >= p.depth()
            &&& forall|k: int|
                0 <= k < p.depth() ==> #[trigger] key_text(p.doc, p.entry(i), k) == key_text(
                    p.doc,
                    p.doc.entries@[a],
                    k,
                )
        },
{
}

/// Entering the scope of the line at the cursor and leaving it again moves the
/// cursor past that line and past every following line of the same key, and
/// stops at the first line of another key: reading a key and its value always
/// consumes the key's lines, and only them.
pub proof fn lemma_enter_leave_consumes(p: Parser, q: Parser, r: Parser)
    requires
        p.wf(),
        p.pos < p.lines@.len(),
        q.doc == p.doc && q.lines == p.lines && q.pos == p.pos,
        q.scopes@ == p.scopes@.push(p.lines@[p.pos as int]),
        r.doc == q.doc && r.lines == q.lines && r.scopes@ == q.scopes@.drop_last(),
        r.pos == child_end(q.doc, q.lines@, q.scopes@.last() as int, q.scopes@.len() - 1, q.pos as int),
    ensures
        p.pos < r.pos <= p.lines@.len(),
        forall|m: int|
            p.pos <= m < r.pos ==> #[trigger] in_child(
                p.doc,
                p.lines@[m] as int,
                p.lines@[p.pos as int] as int,
                p.depth(),
            ),
        r.pos < p.lines@.len() ==> !in_child(
            p.doc,
            p.lines@[r.pos as int] as int,
            p.lines@[p.pos as int] as int,
            p.depth(),
        ),
{
    let a = p.lines@[p.pos as int] as int;
    assert(q.scopes@.last() == p.lines@[p.pos as int]);
    assert(q.scopes@.len() - 1 == p.depth());
    lemma_child_end_bounds(p.doc, p.lines@, a, p.depth(), p.pos as int);
    assert(in_child(p.doc, a, a, p.depth()));
}

} // verus!
