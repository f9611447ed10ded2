//! What a whole sequence reads as: the elements that successive calls of
//! `SeqParser::select` pick, how they depend on the lines read, and that
//! documents whose entries read alike read alike as sequences.
use vstd::prelude::*;
use vstd::std_specs::btree::spec_btree_keys_iter;
use vstd::std_specs::iter::IteratorSpec;
use vstd::utf8::*;
use crate::atom::{decimal, integer_value, lemma_decimal_nonneg};
use crate::document::{Document, Entry, Token, entry_in_doc, span_in, span_ok, token_in, token_text};
use crate::parser::{Parser, ident_of, key_count, key_text, shares_prefix};
use crate::seq::{
    ident_ok, index_of, is_index, least_at_least, lemma_index_run,
    lemma_least_at_least, lemma_least_none, lemma_seq_yields_sorted, lemma_select_steps_yields,
    next_pick, seq_yields, SeqParser,
};
use crate::shift::{
    agree, comment_block, doc_reads_as, entry_moved, entry_reads_as, token_moved,
    lemma_comment_block_keeps_shift, lemma_comment_lines_move_entries,
};
use crate::text::{all_digits, is_digit};

verus! {

/// The index after `k` calls of `select` from index `lo`: just past the element
/// picked, or back to `0` once the sequence has ended.
pub open spec fn index_after(s: Set<int>, len: Option<i64>, lo: int, k: nat) -> int
    decreases k,
{
    if k == 0 {
        lo
    } else {
        match next_pick(s, len, index_after(s, len, lo, (k - 1) as nat)) {
            Some(m) => m + 1,
            None => 0,
        }
    }
}

/// One pick, in terms of what the sequence yields from `lo`.
proof fn lemma_next_pick(s: Set<int>, len: Option<i64>, lo: int)
    requires
        forall|x: int| s.contains(x) ==> 0 <= x < i64::MAX,
        0 <= lo,
    ensures
        seq_yields(s, len, lo).len() == 0 ==> next_pick(s, len, lo) is None,
        seq_yields(s, len, lo).len() > 0 ==> {
            &&& next_pick(s, len, lo) == Some(seq_yields(s, len, lo)[0])
            &&& 0 <= seq_yields(s, len, lo)[0]
            &&& seq_yields(s, len, seq_yields(s, len, lo)[0] + 1) == seq_yields(s, len, lo).drop_first()
        },
{
    if lo >= i64::MAX {
        lemma_least_none(s, lo);
        assert(seq_yields(s, len, lo) =~= Seq::<int>::empty());
    } else {
        lemma_select_steps_yields(s, len, lo);
        lemma_least_at_least(s, lo);
    }
}

/// Successive calls of `select` from index `0` pick exactly the elements that
/// the sequence yields, one per call and in that order; the call after the last
/// ends the sequence, and the index starts over.
pub proof fn lemma_select_chain(s: Set<int>, len: Option<i64>)
    requires
        forall|x: int| s.contains(x) ==> 0 <= x < i64::MAX,
    ensures
        forall|k: nat|
            k < seq_yields(s, len, 0).len() ==> #[trigger] next_pick(s, len, index_after(s, len, 0, k))
                == Some(seq_yields(s, len, 0)[k as int]),
        next_pick(s, len, index_after(s, len, 0, seq_yields(s, len, 0).len())) is None,
        index_after(s, len, 0, seq_yields(s, len, 0).len() + 1) == 0,
{
    let y = seq_yields(s, len, 0);
    assert forall|k: nat| k <= y.len() implies {
        &&& 0 <= #[trigger] index_after(s, len, 0, k)
        &&& seq_yields(s, len, index_after(s, len, 0, k)) == y.skip(k as int)
    } by {
        lemma_chain_step(s, len, k);
    }
    assert forall|k: nat| k < y.len() implies #[trigger] next_pick(s, len, index_after(s, len, 0, k))
        == Some(y[k as int]) by {
        lemma_chain_step(s, len, k);
        lemma_next_pick(s, len, index_after(s, len, 0, k));
    }
    lemma_chain_step(s, len, y.len());
    lemma_next_pick(s, len, index_after(s, len, 0, y.len()));
}

proof fn lemma_chain_step(s: Set<int>, len: Option<i64>, k: nat)
    requires
        forall|x: int| s.contains(x) ==> 0 <= x < i64::MAX,
        k <= seq_yields(s, len, 0).len(),
    ensures
        0 <= index_after(s, len, 0, k),
        seq_yields(s, len, index_after(s, len, 0, k)) == seq_yields(s, len, 0).skip(k as int),
    decreases k,
{
    let y = seq_yields(s, len, 0);
    if k == 0 {
        assert(y.skip(0) =~= y);
    } else {
        let k1 = (k - 1) as nat;
        lemma_chain_step(s, len, k1);
        let lo = index_after(s, len, 0, k1);
        lemma_next_pick(s, len, lo);
        assert(seq_yields(s, len, lo).len() > 0);
        assert(y.skip(k1 as int).drop_first() =~= y.skip(k as int));
    }
}

/// A length marker above every recorded index bounds nothing: the sequence
/// yields what it yields without one.
pub proof fn lemma_length_above_all(s: Set<int>, n: i64, lo: int)
    requires
        forall|x: int| s.contains(x) ==> x < n,
    ensures
        seq_yields(s, Some(n), lo) == seq_yields(s, None, lo),
    decreases i64::MAX - lo,
{
    if lo < i64::MAX {
        lemma_least_at_least(s, lo);
        match least_at_least(s, lo) {
            Some(m) => {
                if m < i64::MAX {
                    lemma_length_above_all(s, n, m + 1);
                }
            },
            None => {},
        }
    }
}

/// A sequence yields at most one element per distinct recorded index.
pub proof fn lemma_yields_at_most_indices(s: Set<int>, len: Option<i64>, lo: int)
    requires
        s.finite(),
        forall|x: int| s.contains(x) ==> 0 <= x < i64::MAX,
        0 <= lo,
    ensures
        seq_yields(s, len, lo).len() <= s.len(),
{
    lemma_seq_yields_sorted(s, len, lo);
    let r = seq_yields(s, len, lo);
    assert(r.no_duplicates()) by {
        assert forall|i: int, j: int| 0 <= i < r.len() && 0 <= j < r.len() && i != j implies r[i]
            != r[j] by {
            if i < j {
                assert(r[i] < r[j]);
            } else {
                assert(r[j] < r[i]);
            }
        }
    }
    r.unique_seq_to_set();
    assert forall|x: int| r.to_set().contains(x) implies s.contains(x) by {
        assert(r.contains(x));
    }
    vstd::set_lib::lemma_len_subset(r.to_set(), s);
}

impl SeqParser {
    /// The recorded indices, as a set of integers, are finitely many, as many
    /// as the set of recorded indices holds.
    pub proof fn lemma_index_set_size(&self, doc: &Document)
        requires
            self.wf_in(doc),
        ensures
            self.index_set().finite(),
            self.index_set().len() <= self.read_indices@.len(),
    {
        broadcast use vstd::std_specs::btree::group_btree_axioms;
        let q = spec_btree_keys_iter(&self.read_indices).remaining().unref();
        assert(q.to_set() == self.read_indices@);
        let v = q.map_values(|x: i64| x as int);
        assert(self.index_set() =~= v.to_set()) by {
            assert forall|x: int| self.index_set().contains(x) implies v.to_set().contains(x) by {
                assert(q.to_set().contains(x as i64));
                assert(q.contains(x as i64));
                let k = choose|k: int| 0 <= k < q.len() && q[k] == x as i64;
                assert(v[k] == x);
            }
            assert forall|x: int| v.to_set().contains(x) implies self.index_set().contains(x) by {
                assert(v.contains(x));
                let k = choose|k: int| 0 <= k < v.len() && v[k] == x;
                assert(q.contains(q[k]));
                assert(q.to_set().contains(q[k]));
            }
        }
        v.lemma_cardinality_of_set();
    }

    /// Reading the sequence recorded so far from its start yields at most as
    /// many elements as distinct indices were recorded.
    pub proof fn lemma_elements_at_most_indices(&self, doc: &Document)
        requires
            self.wf_in(doc),
        ensures
            seq_yields(self.index_set(), self.read_length, 0).len() <= self.read_indices@.len(),
    {
        self.lemma_index_set_size(doc);
        self.lemma_index_set_range(doc);
        lemma_yields_at_most_indices(self.index_set(), self.read_length, 0);
    }
}

/// The run from `from` on: every position before its end is an index line of
/// the scope, and the run from such a position ends where the whole run does.
proof fn lemma_run_member(p: &Parser, from: int, i: int)
    requires
        from <= i <= p.index_run_end(from),
    ensures
        p.index_run_end(i) == p.index_run_end(from),
        i < p.index_run_end(from) ==> {
            &&& p.in_scope(i)
            &&& p.ident_at(i) is Some
            &&& is_index(p.doc, p.ident_at(i)->0)
        },
    decreases i - from,
{
    if i > from {
        lemma_run_member(p, from, i - 1);
        lemma_index_run(p, i - 1);
    }
    lemma_index_run(p, i);
}

/// Positions `[i, k)` are all index lines of the scope: the run from `i` ends
/// where the run from `k` does.
proof fn lemma_run_through(p: &Parser, i: int, k: int)
    requires
        i <= k,
        forall|m: int|
            i <= m < k ==> p.in_scope(m) && p.ident_at(m) is Some && is_index(p.doc, (#[trigger] p.ident_at(m))->0),
    ensures
        p.index_run_end(i) == p.index_run_end(k),
    decreases k - i,
{
    if i < k {
        assert(p.in_scope(i) && p.ident_at(i) is Some && is_index(p.doc, p.ident_at(i)->0));
        lemma_run_through(p, i + 1, k);
    }
}

/// The indices named by positions `[from, to)` are finitely many, at most one per line.
proof fn lemma_indices_finite(p: &Parser, from: int, to: int)
    requires
        from <= to,
    ensures
        p.indices_between(from, to).finite(),
        p.indices_between(from, to).len() <= to - from,
    decreases to - from,
{
    if from == to {
        assert(p.indices_between(from, to) =~= Set::<int>::empty());
    } else {
        lemma_indices_finite(p, from, to - 1);
        let v = index_of(p.doc, p.ident_at(to - 1)->0);
        assert(p.indices_between(from, to) =~= p.indices_between(from, to - 1).insert(v)) by {
            assert forall|x: int| p.indices_between(from, to).contains(x) implies p.indices_between(
                from,
                to - 1,
            ).insert(v).contains(x) by {
                let i = choose|i: int| from <= i < to && index_of(p.doc, p.ident_at(i)->0) == x;
                if i < to - 1 {
                    assert(p.indices_between(from, to - 1).contains(x));
                }
            }
            assert forall|x: int| p.indices_between(from, to - 1).insert(v).contains(x) implies p.indices_between(
                from,
                to,
            ).contains(x) by {
                if x == v {
                    assert(from <= to - 1 < to && index_of(p.doc, p.ident_at(to - 1)->0) == x);
                } else {
                    let i = choose|i: int| from <= i < to - 1 && index_of(p.doc, p.ident_at(i)->0) == x;
                    assert(from <= i < to && index_of(p.doc, p.ident_at(i)->0) == x);
                }
            }
        }
    }
}

/// A sequence read from the cursor of `p` (a scan, then successive calls of
/// `select`): its elements are the indices `d` named by the run of index lines
/// below the length that a marker line ending the run gives, if any; they come
/// out once each, in increasing order, one per call, and the call after the
/// last ends the sequence. There are at most as many as distinct indices.
pub proof fn lemma_sequence_reads(p: &Parser)
    requires
        p.wf(),
        p.run_idents_ok(),
    ensures
        ({
            let d = p.indices_between(p.pos as int, p.index_run_end(p.pos as int));
            let len = p.scanned_length();
            let y = seq_yields(d, len, 0);
            &&& forall|a: int, b: int| 0 <= a < b < y.len() ==> y[a] < y[b]
            &&& forall|x: int| #[trigger] y.contains(x) <==> (d.contains(x) && (len matches Some(l) ==> x < l))
            &&& forall|k: nat|
                k < y.len() ==> #[trigger] next_pick(d, len, index_after(d, len, 0, k)) == Some(y[k as int])
            &&& next_pick(d, len, index_after(d, len, 0, y.len())) is None
            &&& d.finite()
            &&& y.len() <= d.len()
        }),
{
    let j = p.index_run_end(p.pos as int);
    let d = p.indices_between(p.pos as int, j);
    let len = p.scanned_length();
    lemma_index_run(p, p.pos as int);
    assert forall|x: int| d.contains(x) implies 0 <= x < i64::MAX by {
        let i = choose|i: int| p.pos <= i < j && index_of(p.doc, p.ident_at(i)->0) == x;
        lemma_run_member(p, p.pos as int, i);
        assert(ident_ok(p.doc, p.entry(i), p.depth()));
        let t = p.ident_at(i)->0;
        lemma_decimal_nonneg(p.doc.chars@, t.start as int, t.end as int);
    }
    lemma_indices_finite(p, p.pos as int, j);
    lemma_seq_yields_sorted(d, len, 0);
    lemma_select_chain(d, len);
    lemma_yields_at_most_indices(d, len, 0);
}

/// Once no line of the scope is left, a scan reads nothing more: the run of
/// index lines from the cursor is empty, names no index, and is not ended by a
/// line of the scope, so a later scan leaves the recorded indices, length and
/// lines as they were.
pub proof fn lemma_scan_after_end(p: &Parser)
    requires
        p.wf(),
        p.finished(),
    ensures
        p.index_run_end(p.pos as int) == p.pos,
        !p.in_scope(p.index_run_end(p.pos as int)),
        p.indices_between(p.pos as int, p.pos as int) == Set::<int>::empty(),
        p.lines@.subrange(p.pos as int, p.pos as int) == Seq::<usize>::empty(),
{
    assert(p.indices_between(p.pos as int, p.pos as int) =~= Set::<int>::empty());
    assert(p.lines@.subrange(p.pos as int, p.pos as int) =~= Seq::<usize>::empty());
}

/// The order of the index lines of a sequence does not matter: where `q` holds
/// the lines of `p` with the run of index lines from the cursor reordered, the
/// run ends at the same place, names the same indices and is ended by the same
/// line, so a scan records the same indices and length (and fails alike), and
/// the sequence yields the same elements.
pub proof fn lemma_line_order_irrelevant(p: &Parser, q: &Parser)
    requires
        p.wf(),
        q.doc == p.doc,
        q.scopes@ == p.scopes@,
        q.pos == p.pos,
        q.lines@.len() == p.lines@.len(),
        forall|i: int|
            0 <= i < p.lines@.len() && !(p.pos <= i < p.index_run_end(p.pos as int)) ==> q.lines@[i]
                == p.lines@[i],
        q.lines@.subrange(p.pos as int, p.index_run_end(p.pos as int)).to_multiset()
            == p.lines@.subrange(p.pos as int, p.index_run_end(p.pos as int)).to_multiset(),
    ensures
        q.index_run_end(q.pos as int) == p.index_run_end(p.pos as int),
        q.indices_between(q.pos as int, q.index_run_end(q.pos as int)) == p.indices_between(
            p.pos as int,
            p.index_run_end(p.pos as int),
        ),
        q.in_scope(q.index_run_end(q.pos as int)) == p.in_scope(p.index_run_end(p.pos as int)),
        p.in_scope(p.index_run_end(p.pos as int)) ==> q.ident_at(q.index_run_end(q.pos as int))
            == p.ident_at(p.index_run_end(p.pos as int)),
        q.scanned_length() == p.scanned_length(),
        seq_yields(q.indices_between(q.pos as int, q.index_run_end(q.pos as int)), q.scanned_length(), 0)
            == seq_yields(p.indices_between(p.pos as int, p.index_run_end(p.pos as int)), p.scanned_length(), 0),
{
    let a = p.pos as int;
    let j = p.index_run_end(a);
    lemma_index_run(p, a);
    let ps = p.lines@.subrange(a, j);
    let qs = q.lines@.subrange(a, j);
    ps.to_multiset_ensures();
    qs.to_multiset_ensures();
    // every line of the reordered run stands in the original run
    assert forall|i: int| a <= i < j implies exists|k: int| a <= k < j && #[trigger] q.lines@[i] == p.lines@[k] by {
        assert(qs[i - a] == q.lines@[i]);
        assert(qs.contains(q.lines@[i]));
        assert(qs.to_multiset().count(q.lines@[i]) > 0);
        assert(ps.to_multiset().count(q.lines@[i]) > 0);
        assert(ps.contains(q.lines@[i]));
        let m = choose|m: int| 0 <= m < ps.len() && ps[m] == q.lines@[i];
        assert(p.lines@[m + a] == q.lines@[i]);
    }
    assert forall|k: int| a <= k < j implies exists|i: int| a <= i < j && q.lines@[i] == #[trigger] p.lines@[k] by {
        assert(ps[k - a] == p.lines@[k]);
        assert(ps.contains(p.lines@[k]));
        assert(ps.to_multiset().count(p.lines@[k]) > 0);
        assert(qs.to_multiset().count(p.lines@[k]) > 0);
        assert(qs.contains(p.lines@[k]));
        let m = choose|m: int| 0 <= m < qs.len() && qs[m] == p.lines@[k];
        assert(q.lines@[m + a] == p.lines@[k]);
    }
    assert forall|m: int| a <= m < j implies q.in_scope(m) && q.ident_at(m) is Some && is_index(
        q.doc,
        (#[trigger] q.ident_at(m))->0,
    ) by {
        let k = choose|k: int| a <= k < j && q.lines@[m] == p.lines@[k];
        lemma_run_member(p, a, k);
    }
    lemma_run_through(q, a, j);
    lemma_run_member(p, a, j);
    lemma_index_run(p, j);
    if j < p.lines@.len() {
        assert(q.lines@[j] == p.lines@[j]);
        assert(q.in_scope(j) == p.in_scope(j));
        assert(q.ident_at(j) == p.ident_at(j));
    }
    assert(!(q.in_scope(j) && q.ident_at(j) is Some && is_index(q.doc, q.ident_at(j)->0)));
    assert(q.index_run_end(j) == j);
    assert(q.indices_between(a, j) =~= p.indices_between(a, j)) by {
        assert forall|x: int| q.indices_between(a, j).contains(x) implies p.indices_between(a, j).contains(x) by {
            let i = choose|i: int| a <= i < j && index_of(q.doc, q.ident_at(i)->0) == x;
            let k = choose|k: int| a <= k < j && q.lines@[i] == p.lines@[k];
            assert(a <= k < j && index_of(p.doc, p.ident_at(k)->0) == x);
        }
        assert forall|x: int| p.indices_between(a, j).contains(x) implies q.indices_between(a, j).contains(x) by {
            let k = choose|k: int| a <= k < j && index_of(p.doc, p.ident_at(k)->0) == x;
            let i = choose|i: int| a <= i < j && q.lines@[i] == p.lines@[k];
            assert(a <= i < j && index_of(q.doc, q.ident_at(i)->0) == x);
        }
    }
}

proof fn lemma_decimal_moved(s1: Seq<char>, s2: Seq<char>, o: int, a: int, b: int)
    requires
        agree(s1, s2, o, a, b),
    ensures
        decimal(s2, a + o, b + o) == decimal(s1, a, b),
        all_digits(s2, a + o, b + o) == all_digits(s1, a, b),
    decreases b - a,
{
    if a < b {
        assert(s1[b - 1] == s2[b - 1 + o]);
        assert(agree(s1, s2, o, a, b - 1));
        lemma_decimal_moved(s1, s2, o, a, b - 1);
    }
    if all_digits(s1, a, b) {
        assert forall|i: int| a + o <= i < b + o implies #[trigger] is_digit(s2[i]) by {
            assert(s1[i - o] == s2[i - o + o]);
        }
    }
    if all_digits(s2, a + o, b + o) {
        assert forall|i: int| a <= i < b implies #[trigger] is_digit(s1[i]) by {
            assert(is_digit(s2[i + o]));
        }
    }
}

/// What a reading finds in a token depends on its text alone.
proof fn lemma_token_reads(s: Seq<char>, t: Token)
    requires
        t.start <= t.end <= s.len(),
    ensures
        ({
            let x = token_text(s, t);
            let a = t.start as int;
            let b = t.end as int;
            &&& all_digits(s, a, b) == all_digits(x, 0, x.len() as int)
            &&& decimal(s, a, b) == decimal(x, 0, x.len() as int)
            &&& integer_value(s, a, b) == integer_value(x, 0, x.len() as int)
        }),
{
    let x = token_text(s, t);
    let a = t.start as int;
    let n = x.len() as int;
    assert(agree(x, s, a, 0, n)) by {
        assert forall|z: int| 0 <= z < n implies #[trigger] x[z] == s[z + a] by {}
    }
    lemma_decimal_moved(x, s, a, 0, n);
    if 0 < n {
        assert(x[0] == s[0 + a]);
        assert(agree(x, s, a, 1, n));
        lemma_decimal_moved(x, s, a, 1, n);
    }
}

/// Tokens with the same text read alike.
proof fn lemma_same_text_reads(d1: &Document, t1: Token, d2: &Document, t2: Token)
    requires
        t1.start <= t1.end <= d1.chars@.len(),
        t2.start <= t2.end <= d2.chars@.len(),
        token_text(d2.chars@, t2) == token_text(d1.chars@, t1),
    ensures
        is_index(d2, t2) == is_index(d1, t1),
        index_of(d2, t2) == index_of(d1, t1),
        (t2.start < t2.end) == (t1.start < t1.end),
        integer_value(d2.chars@, t2.start as int, t2.end as int) == integer_value(
            d1.chars@,
            t1.start as int,
            t1.end as int,
        ),
{
    lemma_token_reads(d1.chars@, t1);
    lemma_token_reads(d2.chars@, t2);
}

/// The name of an entry at depth `d`, in an entry that reads alike.
proof fn lemma_ident_reads(d1: &Document, e1: Entry, d2: &Document, e2: Entry, d: int)
    requires
        0 <= d,
        d1.wf(),
        d2.wf(),
        entry_in_doc(d1, e1),
        entry_in_doc(d2, e2),
        entry_reads_as(d1.chars@, e1, d2.chars@, e2),
    ensures
        (ident_of(e2, d) is Some) == (ident_of(e1, d) is Some),
        key_count(e2) == key_count(e1),
        ident_of(e1, d) is Some ==> {
            let t1 = ident_of(e1, d)->0;
            let t2 = ident_of(e2, d)->0;
            &&& token_in(d1.chars@, t1)
            &&& token_in(d2.chars@, t2)
            &&& token_text(d2.chars@, t2) == token_text(d1.chars@, t1)
            &&& is_index(d2, t2) == is_index(d1, t1)
            &&& index_of(d2, t2) == index_of(d1, t1)
            &&& (t2.start < t2.end) == (t1.start < t1.end)
            &&& integer_value(d2.chars@, t2.start as int, t2.end as int) == integer_value(
                d1.chars@,
                t1.start as int,
                t1.end as int,
            )
        },
{
    if e1.pair is Some {
        let p1 = e1.pair->0;
        let p2 = e2.pair->0;
        if p1.keys@.len() > d {
            assert(token_in(d1.chars@, p1.keys@[d]));
            assert(token_in(d2.chars@, p2.keys@[d]));
            assert(token_text(d2.chars@, p2.keys@[d]) == token_text(d1.chars@, p1.keys@[d]));
        }
        let t1 = ident_of(e1, d)->0;
        let t2 = ident_of(e2, d)->0;
        lemma_same_text_reads(d1, t1, d2, t2);
    }
}

/// Entries that read alike share a key prefix exactly when the entries did.
proof fn lemma_prefix_reads(
    d1: &Document,
    e1: Entry,
    f1: Entry,
    d2: &Document,
    e2: Entry,
    f2: Entry,
    dd: int,
)
    requires
        entry_reads_as(d1.chars@, e1, d2.chars@, e2),
        entry_reads_as(d1.chars@, f1, d2.chars@, f2),
    ensures
        shares_prefix(d2, e2, f2, dd) == shares_prefix(d1, e1, f1, dd),
{
    if key_count(e1) >= dd && key_count(f1) >= dd && dd > 0 {
        assert(e2.pair is Some && f2.pair is Some);
        assert forall|j: int| 0 <= j < dd implies #[trigger] key_text(d2, e2, j) == key_text(d1, e1, j)
            && key_text(d2, f2, j) == key_text(d1, f1, j) by {
            assert(token_text(d2.chars@, e2.pair->0.keys@[j]) == token_text(d1.chars@, e1.pair->0.keys@[j]));
            assert(token_text(d2.chars@, f2.pair->0.keys@[j]) == token_text(d1.chars@, f1.pair->0.keys@[j]));
        }
        if shares_prefix(d1, e1, f1, dd) {
            assert forall|j: int| 0 <= j < dd implies #[trigger] key_text(d2, e2, j) == key_text(d2, f2, j) by {
                assert(key_text(d1, e1, j) == key_text(d1, f1, j));
            }
        }
        if shares_prefix(d2, e2, f2, dd) {
            assert forall|j: int| 0 <= j < dd implies #[trigger] key_text(d1, e1, j) == key_text(d1, f1, j) by {
                assert(key_text(d2, e2, j) == key_text(d2, f2, j));
            }
        }
    }
}

/// What parsers over two documents that read alike have in common at the line
/// of position `i`.
proof fn lemma_line_reads_alike(p1: &Parser, p2: &Parser, i: int)
    requires
        p1.wf(),
        p2.wf(),
        doc_reads_as(p1.doc, p2.doc),
        p2.lines@ == p1.lines@,
        p2.scopes@ == p1.scopes@,
        0 <= i < p1.lines@.len(),
    ensures
        p2.in_scope(i) == p1.in_scope(i),
        (p2.ident_at(i) is Some) == (p1.ident_at(i) is Some),
        p1.ident_at(i) is Some ==> {
            let t1 = p1.ident_at(i)->0;
            let t2 = p2.ident_at(i)->0;
            &&& token_text(p2.doc.chars@, t2) == token_text(p1.doc.chars@, t1)
            &&& is_index(p2.doc, t2) == is_index(p1.doc, t1)
            &&& index_of(p2.doc, t2) == index_of(p1.doc, t1)
        },
        ident_ok(p2.doc, p2.entry(i), p2.depth()) == ident_ok(p1.doc, p1.entry(i), p1.depth()),
        p2.length_at(i) == p1.length_at(i),
{
    let d1 = p1.doc;
    let d2 = p2.doc;
    let dd = p1.depth();
    let k = p1.lines@[i] as int;
    d1.lemma_entry_in_doc(k);
    d2.lemma_entry_in_doc(k);
    let e1 = d1.entries@[k];
    let e2 = d2.entries@[k];
    assert(entry_reads_as(d1.chars@, e1, d2.chars@, e2));
    if dd > 0 {
        let a = p1.scopes@.last() as int;
        if a < d1.entries@.len() {
            assert(entry_reads_as(d1.chars@, d1.entries@[a], d2.chars@, d2.entries@[a]));
            lemma_prefix_reads(d1, e1, d1.entries@[a], d2, e2, d2.entries@[a], dd);
        }
    }
    lemma_ident_reads(d1, e1, d2, e2, dd);
    lemma_ident_reads(d1, e1, d2, e2, dd + 1);
}

/// Runs of index lines agree from position `i` on, over two documents that read alike.
proof fn lemma_run_reads_alike(p1: &Parser, p2: &Parser, i: int)
    requires
        p1.wf(),
        p2.wf(),
        doc_reads_as(p1.doc, p2.doc),
        p2.lines@ == p1.lines@,
        p2.scopes@ == p1.scopes@,
        0 <= i,
    ensures
        p2.index_run_end(i) == p1.index_run_end(i),
    decreases p1.lines@.len() - i,
{
    if i < p1.lines@.len() {
        lemma_line_reads_alike(p1, p2, i);
        lemma_run_reads_alike(p1, p2, i + 1);
    }
}

/// Documents that read alike read alike as sequences: at the same cursor, a
/// scan reads the same run of index lines, names the same indices, finds the
/// same length and the same line ending the run, whose name has the same text;
/// it fails on one exactly when it fails on the other.
pub proof fn lemma_sequence_reads_alike(p1: &Parser, p2: &Parser)
    requires
        p1.wf(),
        p2.wf(),
        doc_reads_as(p1.doc, p2.doc),
        p2.lines@ == p1.lines@,
        p2.scopes@ == p1.scopes@,
        p2.pos == p1.pos,
    ensures
        ({
            let j = p1.index_run_end(p1.pos as int);
            &&& p2.finished() == p1.finished()
            &&& p2.index_run_end(p2.pos as int) == j
            &&& p2.run_idents_ok() == p1.run_idents_ok()
            &&& p2.indices_between(p2.pos as int, j) == p1.indices_between(p1.pos as int, j)
            &&& p2.in_scope(j) == p1.in_scope(j)
            &&& p2.scanned_length() == p1.scanned_length()
            &&& p1.in_scope(j) ==> (p2.ident_at(j) is None <==> p1.ident_at(j) is None)
            &&& p1.in_scope(j) && p1.ident_at(j) is Some ==> token_text(
                p2.doc.chars@,
                p2.ident_at(j)->0,
            ) == token_text(p1.doc.chars@, p1.ident_at(j)->0)
        }),
{
    let a = p1.pos as int;
    let j = p1.index_run_end(a);
    lemma_run_reads_alike(p1, p2, a);
    lemma_index_run(p1, a);
    if a < p1.lines@.len() {
        lemma_line_reads_alike(p1, p2, a);
    }
    if j < p1.lines@.len() {
        lemma_line_reads_alike(p1, p2, j);
    }
    assert forall|i: int| a <= i < j implies #[trigger] ident_ok(p2.doc, p2.entry(i), p2.depth())
        == ident_ok(p1.doc, p1.entry(i), p1.depth()) by {
        lemma_line_reads_alike(p1, p2, i);
    }
    assert(p2.indices_between(a, j) =~= p1.indices_between(a, j)) by {
        assert forall|x: int| p2.indices_between(a, j).contains(x) implies p1.indices_between(a, j).contains(x) by {
            let i = choose|i: int| a <= i < j && index_of(p2.doc, p2.ident_at(i)->0) == x;
            lemma_run_member(p1, a, i);
            lemma_line_reads_alike(p1, p2, i);
        }
        assert forall|x: int| p1.indices_between(a, j).contains(x) implies p2.indices_between(a, j).contains(x) by {
            let i = choose|i: int| a <= i < j && index_of(p1.doc, p1.ident_at(i)->0) == x;
            lemma_run_member(p1, a, i);
            lemma_line_reads_alike(p1, p2, i);
        }
    }
    if p1.run_idents_ok() {
        assert forall|i: int| a <= i < j implies #[trigger] ident_ok(p2.doc, p2.entry(i), p2.depth()) by {
            assert(ident_ok(p1.doc, p1.entry(i), p1.depth()));
        }
    }
    if p2.run_idents_ok() {
        assert forall|i: int| a <= i < j implies #[trigger] ident_ok(p1.doc, p1.entry(i), p1.depth()) by {
            assert(ident_ok(p2.doc, p2.entry(i), p2.depth()));
        }
    }
}

/// Lines each empty or beginning with `#`, each ended by a `\n` with no `\r`
/// before it, put before an input change nothing of how a sequence reads but
/// its error spans: over the two documents, at the same cursor, a scan reads
/// the same run of index lines, names the same indices, finds the same length
/// and the same line ending the run, whose name has the same text and a span
/// moved by the length of the encoding of those lines.
pub proof fn lemma_comment_lines_move_errors(p1: &Parser, p2: &Parser, c: Seq<char>)
    requires
        p1.wf(),
        p2.wf(),
        p2.doc.text() == c + p1.doc.text(),
        comment_block(c),
        p2.lines@ == p1.lines@,
        p2.scopes@ == p1.scopes@,
        p2.pos == p1.pos,
    ensures
        ({
            let j = p1.index_run_end(p1.pos as int);
            let m = encode_utf8(c).len() as int;
            &&& p2.finished() == p1.finished()
            &&& p2.index_run_end(p2.pos as int) == j
            &&& p2.run_idents_ok() == p1.run_idents_ok()
            &&& p2.indices_between(p2.pos as int, j) == p1.indices_between(p1.pos as int, j)
            &&& p2.in_scope(j) == p1.in_scope(j)
            &&& p2.scanned_length() == p1.scanned_length()
            &&& p1.in_scope(j) ==> (p2.ident_at(j) is None <==> p1.ident_at(j) is None)
            &&& p1.in_scope(j) && p1.ident_at(j) is Some ==> {
                &&& token_text(p2.doc.chars@, p2.ident_at(j)->0) == token_text(p1.doc.chars@, p1.ident_at(j)->0)
                &&& span_in(p2.doc, p2.ident_at(j)->0).start == span_in(p1.doc, p1.ident_at(j)->0).start + m
                &&& span_in(p2.doc, p2.ident_at(j)->0).end == span_in(p1.doc, p1.ident_at(j)->0).end + m
            }
        }),
{
    lemma_comment_block_keeps_shift(p1.doc, p2.doc, c);
    lemma_comment_lines_move_entries(p1.doc, p2.doc, c);
    lemma_sequence_reads_alike(p1, p2);
    let j = p1.index_run_end(p1.pos as int);
    if p1.in_scope(j) && p1.ident_at(j) is Some {
        let k = p1.lines@[j] as int;
        p1.doc.lemma_entry_in_doc(k);
        let e1 = p1.doc.entries@[k];
        let e2 = p2.doc.entries@[k];
        let d = p1.depth();
        assert(entry_moved(e1, e2, c.len() as int, encode_utf8(c).len() as int));
        if e1.pair->0.keys@.len() > d {
            assert(span_ok(p1.doc, e1.pair->0.keys@[d]));
            assert(token_moved(e1.pair->0.keys@[d], e2.pair->0.keys@[d], c.len() as int, encode_utf8(c).len() as int));
        }
        assert(span_ok(p1.doc, p1.ident_at(j)->0));
    }
}

} // verus!
