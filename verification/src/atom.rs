//! Reading a single value of a line (an atom) as a primitive.
use vstd::prelude::*;
use crate::document::{Document, Token, count_char, lemma_split_on_pieces, span_in, span_ok, token_in, token_at, token_text, split_on, tokens_at, split_tokens, lemma_split_on_bounds};
use crate::error::{DeserializerError, Span};
use crate::text::{
    lemma_byte_range, lemma_trim_bounds, lemma_trim_covers, lemma_trim_ends, all_digits, digits_only,
    is_digit, is_white_space, trim, trim_range,
};

verus! {

/// The value of the digits `s[a..b]`.
pub open spec fn decimal(s: Seq<char>, a: int, b: int) -> int
    decreases b - a,
{
    if a >= b {
        0
    } else {
        decimal(s, a, b - 1) * 10 + (s[b - 1] as int - '0' as int)
    }
}

/// The integer that `s[a..b]` denotes as Rust writes integers for `str::parse`:
/// an optional `+` or `-` followed by at least one ASCII digit.
pub open spec fn integer_value(s: Seq<char>, a: int, b: int) -> Option<int> {
    if a < b && (s[a] == '-' || s[a] == '+') {
        if a + 1 < b && all_digits(s, a + 1, b) {
            Some(if s[a] == '-' { -decimal(s, a + 1, b) } else { decimal(s, a + 1, b) })
        } else {
            None
        }
    } else if a < b && all_digits(s, a, b) {
        Some(decimal(s, a, b))
    } else {
        None
    }
}


pub proof fn lemma_decimal_nonneg_mono(s: Seq<char>, a: int, j: int, b: int)
    requires
        a <= j <= b,
        all_digits(s, a, b),
    ensures
        0 <= decimal(s, a, j) <= decimal(s, a, b),
    decreases b - j,
{
    if j < b {
        lemma_decimal_nonneg_mono(s, a, j, b - 1);
        assert(is_digit(s[b - 1]));
        lemma_decimal_nonneg(s, a, b - 1);
    } else {
        lemma_decimal_nonneg(s, a, b);
    }
}

pub proof fn lemma_decimal_nonneg(s: Seq<char>, a: int, b: int)
    requires
        all_digits(s, a, b),
    ensures
        0 <= decimal(s, a, b),
    decreases b - a,
{
    if a < b {
        lemma_decimal_nonneg(s, a, b - 1);
        assert(is_digit(s[b - 1]));
    }
}

/// The value of the digits `s[a..b]` when it is at most 2^64.
pub(crate) fn digits_value(s: &Vec<char>, a: usize, b: usize) -> (r: Option<u128>)
    requires
        a <= b <= s@.len(),
        all_digits(s@, a as int, b as int),
    ensures
        match r {
            Some(v) => v == decimal(s@, a as int, b as int) && v <= 0x1_0000_0000_0000_0000,
            None => decimal(s@, a as int, b as int) > 0x1_0000_0000_0000_0000,
        },
{
    let mut v: u128 = 0;
    let mut i = a;
    while i < b
        invariant
            a <= i <= b <= s@.len(),
            all_digits(s@, a as int, b as int),
            v == decimal(s@, a as int, i as int),
            v <= 0x1_0000_0000_0000_0000,
        decreases b - i,
    {
        assert(is_digit(s@[i as int]));
        let d = (s[i] as u32 - '0' as u32) as u128;
        v = v * 10 + d;
        i += 1;
        if v > 0x1_0000_0000_0000_0000 {
            proof {
                lemma_decimal_nonneg_mono(s@, a as int, i as int, b as int);
            }
            return None;
        }
    }
    Some(v)
}

/// A single value of a line.
pub struct AtomParser<'d> {
    pub doc: &'d Document,
    pub input: Token,
}

/// How an atom reads when no type is asked for.
#[derive(Clone, Copy, Debug, PartialEq, Eq)]
pub enum AtomKind {
    Bool(bool),
    Signed(i64),
    Unsigned(u64),
    Text,
}

pub open spec fn true_text() -> Seq<char> {
    seq!['t', 'r', 'u', 'e']
}

pub open spec fn false_text() -> Seq<char> {
    seq!['f', 'a', 'l', 's', 'e']
}

/// How the atom `t` of `s` reads when no type is asked for: `true` and `false`
/// are booleans, integers that fit are `i64` (or else `u64`), the rest is text.
pub open spec fn atom_kind_of(s: Seq<char>, t: Token) -> AtomKind {
    if token_text(s, t) == true_text() {
        AtomKind::Bool(true)
    } else if token_text(s, t) == false_text() {
        AtomKind::Bool(false)
    } else {
        match integer_value(s, t.start as int, t.end as int) {
            Some(v) => if i64::MIN <= v <= i64::MAX {
                AtomKind::Signed(v as i64)
            } else if 0 <= v <= u64::MAX {
                AtomKind::Unsigned(v as u64)
            } else {
                AtomKind::Text
            },
            None => AtomKind::Text,
        }
    }
}

/// How an atom reads when no type is asked for: exactly the texts `true` and
/// `false` are the booleans true and false; any other text that is an integer
/// fitting `i64` is signed, one fitting only `u64` is unsigned; the rest is text.
pub proof fn lemma_atom_kind(s: Seq<char>, t: Token)
    requires
        t.start <= t.end <= s.len(),
    ensures
        token_text(s, t) == seq!['t', 'r', 'u', 'e'] ==> atom_kind_of(s, t) == AtomKind::Bool(true),
        token_text(s, t) == seq!['f', 'a', 'l', 's', 'e'] ==> atom_kind_of(s, t) == AtomKind::Bool(
            false,
        ),
        atom_kind_of(s, t) is Bool ==> token_text(s, t) == seq!['t', 'r', 'u', 'e'] || token_text(s, t)
            == seq!['f', 'a', 'l', 's', 'e'],
        integer_value(s, t.start as int, t.end as int) matches Some(v) ==> (i64::MIN <= v <= i64::MAX
            ==> atom_kind_of(s, t) == AtomKind::Signed(v as i64)),
        integer_value(s, t.start as int, t.end as int) matches Some(v) ==> (i64::MAX < v <= u64::MAX
            ==> atom_kind_of(s, t) == AtomKind::Unsigned(v as u64)),
        (atom_kind_of(s, t) == AtomKind::Text) <==> {
            &&& token_text(s, t) != seq!['t', 'r', 'u', 'e']
            &&& token_text(s, t) != seq!['f', 'a', 'l', 's', 'e']
            &&& (integer_value(s, t.start as int, t.end as int) matches Some(v) ==> !(i64::MIN <= v
                <= u64::MAX))
        },
{
    let x = token_text(s, t);
    assert(true_text() =~= seq!['t', 'r', 'u', 'e']);
    assert(false_text() =~= seq!['f', 'a', 'l', 's', 'e']);
    if integer_value(s, t.start as int, t.end as int) is Some {
        let a = t.start as int;
        assert(x[0] == s[a]);
        if !(s[a] == '-' || s[a] == '+') {
            assert(is_digit(s[a]));
        }
        assert(x != true_text());
        assert(x != false_text());
    }
}

/// The elements of the tuple atom `t` of `s`, written `(a, b, ...)`: the trimmed
/// pieces between the parentheses, split at commas; none when only white space
/// stands between them. `None` when the atom is not in parentheses.
pub open spec fn tuple_parts_of(s: Seq<char>, t: Token) -> Option<Seq<(int, int)>> {
    if t.end - t.start >= 2 && s[t.start as int] == '(' && s[t.end - 1] == ')' {
        let a = t.start + 1;
        let b = t.end - 1;
        if trim(s, a, b).0 == trim(s, a, b).1 {
            Some(seq![])
        } else {
            Some(split_on(s, ',', a, a, b))
        }
    } else {
        None
    }
}

/// The elements of a tuple atom `(a, b, ...)`: when the text between the
/// parentheses is blank there are none; otherwise there is one more than the
/// commas in that text, and each lies inside the parentheses, is trimmed, and
/// holds no comma; they come in order, and every character there that is
/// neither a comma nor white space lies in one of them. An atom not in
/// parentheses has no elements.
pub proof fn lemma_tuple_parts_split(s: Seq<char>, t: Token)
    requires
        t.start <= t.end <= s.len(),
    ensures
        (tuple_parts_of(s, t) is Some) <==> (t.end - t.start >= 2 && s[t.start as int] == '(' && s[t.end
            - 1] == ')'),
        tuple_parts_of(s, t) matches Some(parts) ==> {
            let a = t.start + 1;
            let b = t.end - 1;
            &&& trim(s, a, b).0 == trim(s, a, b).1 ==> parts.len() == 0
            &&& trim(s, a, b).0 != trim(s, a, b).1 ==> parts.len() == count_char(s, ',', a, b) + 1
            &&& forall|p: int|
                0 <= p < parts.len() ==> {
                    let r = #[trigger] parts[p];
                    &&& a <= r.0 <= r.1 <= b
                    &&& forall|j: int| r.0 <= j < r.1 ==> s[j] != ','
                    &&& r.0 < r.1 ==> !is_white_space(s[r.0]) && !is_white_space(s[r.1 - 1])
                }
            &&& forall|p: int, q: int| 0 <= p < q < parts.len() ==> parts[p].1 <= parts[q].0
            &&& forall|j: int|
                a <= j < b && s[j] != ',' && !is_white_space(s[j]) ==> exists|p: int|
                    0 <= p < parts.len() && (#[trigger] parts[p]).0 <= j < parts[p].1
        },
{
    if t.end - t.start >= 2 && s[t.start as int] == '(' && s[t.end - 1] == ')' {
        let a = t.start + 1;
        let b = t.end - 1;
        lemma_split_on_pieces(s, ',', a, a, b);
        if trim(s, a, b).0 == trim(s, a, b).1 {
            assert forall|j: int| a <= j < b && s[j] != ',' && !is_white_space(s[j]) implies false by {
                lemma_trim_covers(s, a, b, j);
            }
        }
    }
}

impl<'d> AtomParser<'d> {
    pub open spec fn wf(&self) -> bool {
        &&& self.doc.wf()
        &&& token_in(self.doc.chars@, self.input)
        &&& span_ok(self.doc, self.input)
    }

    /// The characters of the atom.
    pub open spec fn text(&self) -> Seq<char> {
        token_text(self.doc.chars@, self.input)
    }

    /// The error for an atom that does not read as what was asked.
    pub open spec fn invalid(&self) -> DeserializerError {
        DeserializerError::InvalidAtom { span: span_in(self.doc, self.input) }
    }

    /// The byte span of the atom in the input.
    pub fn span(&self) -> (r: Span)
        requires
            self.wf(),
        ensures
            r == span_in(self.doc, self.input),
    {
        self.doc.span(self.input)
    }

    /// Whether the atom's text is `lit`.
    fn is_text(&self, lit: &str) -> (r: bool)
        requires
            self.wf(),
        ensures
            r == (self.text() == lit@),
    {
        let n = lit.unicode_len();
        if self.input.end - self.input.start != n {
            return false;
        }
        let mut i: usize = 0;
        while i < n
            invariant
                self.wf(),
                n == lit@.len() == self.input.end - self.input.start,
                i <= n,
                forall|j: int| 0 <= j < i ==> self.doc.chars@[self.input.start + j] == lit@[j],
            decreases n - i,
        {
            if self.doc.chars[self.input.start + i] != lit.get_char(i) {
                proof {
                    assert(self.text()[i as int] != lit@[i as int]);
                }
                return false;
            }
            i += 1;
        }
        proof {
            assert(self.text() =~= lit@);
        }
        true
    }

    /// `bool::from_str`: `true` or `false`.
    pub fn parse_bool(&self) -> (r: Result<bool, DeserializerError>)
        requires
            self.wf(),
        ensures
            r == (if self.text() == true_text() {
                Ok(true)
            } else if self.text() == false_text() {
                Ok(false)
            } else {
                Err(self.invalid())
            }),
    {
        proof {
            reveal_strlit("true");
            reveal_strlit("false");
            assert("true"@ =~= true_text());
            assert("false"@ =~= false_text());
        }
        if self.is_text("true") {
            Ok(true)
        } else if self.is_text("false") {
            Ok(false)
        } else {
            Err(DeserializerError::InvalidAtom { span: self.span() })
        }
    }

    /// The integer the atom denotes, when it lies in `[min, max]`; the error otherwise.
    pub fn parse_signed(&self, min: i64, max: i64) -> (r: Result<i64, DeserializerError>)
        requires
            self.wf(),
        ensures
            r == (match integer_value(self.doc.chars@, self.input.start as int, self.input.end as int) {
                Some(v) => if min <= v <= max {
                    Ok(v as i64)
                } else {
                    Err(self.invalid())
                },
                None => Err(self.invalid()),
            }),
    {
        let s = &self.doc.chars;
        let a = self.input.start;
        let b = self.input.end;
        let err = DeserializerError::InvalidAtom { span: self.span() };
        if a < b && (s[a] == '-' || s[a] == '+') {
            if a + 1 < b && digits_only(s, a + 1, b) {
                match digits_value(s, a + 1, b) {
                    Some(m) => {
                        let v: i128 = if s[a] == '-' {
                            -(m as i128)
                        } else {
                            m as i128
                        };
                        if min as i128 <= v && v <= max as i128 {
                            Ok(v as i64)
                        } else {
                            Err(err)
                        }
                    },
                    None => Err(err),
                }
            } else {
                Err(err)
            }
        } else if a < b && digits_only(s, a, b) {
            match digits_value(s, a, b) {
                Some(m) => {
                    if min as i128 <= m as i128 && m as i128 <= max as i128 {
                        Ok(m as i64)
                    } else {
                        Err(err)
                    }
                },
                None => Err(err),
            }
        } else {
            Err(err)
        }
    }

    /// The non-negative integer the atom denotes, when it is at most `max`;
    /// the error otherwise (a `-` sign is refused, as for unsigned types).
    pub fn parse_unsigned(&self, max: u64) -> (r: Result<u64, DeserializerError>)
        requires
            self.wf(),
        ensures
            r == (if self.input.start < self.input.end && self.doc.chars@[self.input.start as int] == '-' {
                Err(self.invalid())
            } else {
                match integer_value(self.doc.chars@, self.input.start as int, self.input.end as int) {
                    Some(v) => if 0 <= v <= max {
                        Ok(v as u64)
                    } else {
                        Err(self.invalid())
                    },
                    None => Err(self.invalid()),
                }
            }),
    {
        let s = &self.doc.chars;
        let a = self.input.start;
        let b = self.input.end;
        let err = DeserializerError::InvalidAtom { span: self.span() };
        if a < b && s[a] == '-' {
            return Err(err);
        }
        let d0 = if a < b && s[a] == '+' {
            a + 1
        } else {
            a
        };
        if d0 < b && digits_only(s, d0, b) {
            proof {
                if d0 == a + 1 {
                    assert(s@[a as int] == '+');
                }
            }
            match digits_value(s, d0, b) {
                Some(m) => {
                    proof {
                        lemma_decimal_nonneg(s@, d0 as int, b as int);
                    }
                    if m <= max as u128 {
                        Ok(m as u64)
                    } else {
                        Err(err)
                    }
                },
                None => Err(err),
            }
        } else {
            proof {
                if d0 == a + 1 {
                    assert(s@[a as int] == '+');
                }
            }
            Err(err)
        }
    }

    /// `char::from_str`: exactly one character.
    pub fn parse_char(&self) -> (r: Result<char, DeserializerError>)
        requires
            self.wf(),
        ensures
            r == (if self.text().len() == 1 {
                Ok(self.text()[0])
            } else {
                Err(self.invalid())
            }),
    {
        if self.input.end - self.input.start == 1 {
            Ok(self.doc.chars[self.input.start])
        } else {
            Err(DeserializerError::InvalidAtom { span: self.span() })
        }
    }
}

impl<'d> AtomParser<'d> {
    /// How the atom reads when no type is asked for.
    pub fn atom_kind(&self) -> (k: AtomKind)
        requires
            self.wf(),
        ensures
            k == atom_kind_of(self.doc.chars@, self.input),
    {
        if let Ok(b) = self.parse_bool() {
            return AtomKind::Bool(b);
        }
        if let Ok(v) = self.parse_signed(i64::MIN, i64::MAX) {
            return AtomKind::Signed(v);
        }
        if let Ok(v) = self.parse_unsigned(u64::MAX) {
            return AtomKind::Unsigned(v);
        }
        proof {
            let s = self.doc.chars@;
            let a = self.input.start as int;
            let b = self.input.end as int;
            if a < b && s[a] == '-' && a + 1 < b && all_digits(s, a + 1, b) {
                lemma_decimal_nonneg(s, a + 1, b);
            }
        }
        AtomKind::Text
    }

    /// The elements of a tuple atom `(a, b, ...)`, or `InvalidAtom` when the atom
    /// is not in parentheses.
    pub fn tuple_parts(&self) -> (r: Result<Vec<Token>, DeserializerError>)
        requires
            self.wf(),
        ensures
            match tuple_parts_of(self.doc.chars@, self.input) {
                Some(parts) => r matches Ok(v) && tokens_at(self.doc.chars@, v@, parts),
                None => r == Err::<Vec<Token>, DeserializerError>(self.invalid()),
            },
            r matches Ok(v) ==> forall|k: int| 0 <= k < v@.len() ==> #[trigger] token_in(self.doc.chars@, v@[k])
                && span_ok(self.doc, v@[k]),
    {
        let s = &self.doc.chars;
        let t = self.input;
        if t.end - t.start >= 2 && s[t.start] == '(' && s[t.end - 1] == ')' {
            let a = t.start + 1;
            let b = t.end - 1;
            let (x, y) = trim_range(s, a, b);
            if x == y {
                let v: Vec<Token> = Vec::new();
                Ok(v)
            } else {
                let v = split_tokens(s, &self.doc.offsets, ',', a, b);
                proof {
                    lemma_split_on_bounds(s@, ',', a as int, a as int, b as int);
                    let parts = split_on(s@, ',', a as int, a as int, b as int);
                    assert forall|k: int| 0 <= k < v@.len() implies #[trigger] token_in(s@, v@[k])
                        && span_ok(self.doc, v@[k]) by {
                        assert(token_at(s@, v@[k], parts[k]));
                        lemma_byte_range(s@, t.start as int, v@[k].start as int);
                        lemma_byte_range(s@, v@[k].start as int, v@[k].end as int);
                    }
                }
                Ok(v)
            }
        } else {
            Err(DeserializerError::InvalidAtom { span: self.span() })
        }
    }
}

} // verus!
