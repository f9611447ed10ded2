//! Character classes and the text measures that the line format is built on.
use vstd::prelude::*;
use vstd::utf8::*;

verus! {

/// Unicode `White_Space`: the characters that `char::is_whitespace` accepts,
/// and so the characters that `str::trim` removes.
pub open spec fn is_white_space(c: char) -> bool {
    let v = c as u32;
    ||| 0x9 <= v <= 0xd
    ||| v == 0x20
    ||| v == 0x85
    ||| v == 0xa0
    ||| v == 0x1680
    ||| 0x2000 <= v <= 0x200a
    ||| v == 0x2028
    ||| v == 0x2029
    ||| v == 0x202f
    ||| v == 0x205f
    ||| v == 0x3000
}

/// Whether `c` is one of the ASCII digits `0`..`9`.
pub open spec fn is_digit(c: char) -> bool {
    '0' <= c && c <= '9'
}

/// Every character of `s[a..b]` is an ASCII digit (vacuously true when empty).
pub open spec fn all_digits(s: Seq<char>, a: int, b: int) -> bool {
    forall|i: int| a <= i < b ==> #[trigger] is_digit(s[i])
}

/// Number of bytes of the UTF-8 encoding of `c`.
pub open spec fn char_len(c: char) -> nat {
    let v = c as u32;
    if v <= 0x7f {
        1
    } else if v <= 0x7ff {
        2
    } else if v <= 0xffff {
        3
    } else {
        4
    }
}

/// Byte offset, in the UTF-8 encoding of `s`, of the character at index `i`.
pub open spec fn byte_pos(s: Seq<char>, i: int) -> int {
    encode_utf8(s.take(i)).len() as int
}

/// Index of the first `c` in `s[i..hi]`, or `hi` when there is none.
pub open spec fn find_from(s: Seq<char>, i: int, hi: int, c: char) -> int
    decreases hi - i,
{
    if i < hi {
        if s[i] == c {
            i
        } else {
            find_from(s, i + 1, hi, c)
        }
    } else {
        hi
    }
}

/// First index at or after `i` (below `hi`) that is not white space.
pub open spec fn skip_ws(s: Seq<char>, i: int, hi: int) -> int
    decreases hi - i,
{
    if i < hi && is_white_space(s[i]) {
        skip_ws(s, i + 1, hi)
    } else {
        i
    }
}

/// End of `s[lo..j]` once trailing white space is removed.
pub open spec fn skip_ws_back(s: Seq<char>, lo: int, j: int) -> int
    decreases j - lo,
{
    if lo < j && is_white_space(s[j - 1]) {
        skip_ws_back(s, lo, j - 1)
    } else {
        j
    }
}

/// The range `s[lo..hi]` with leading and trailing white space removed, as `str::trim` does.
pub open spec fn trim(s: Seq<char>, lo: int, hi: int) -> (int, int) {
    let a = skip_ws(s, lo, hi);
    (a, skip_ws_back(s, a, hi))
}

pub proof fn lemma_skip_ws_bounds(s: Seq<char>, i: int, hi: int)
    requires
        i <= hi,
    ensures
        i <= skip_ws(s, i, hi) <= hi,
    decreases hi - i,
{
    if i < hi && is_white_space(s[i]) {
        lemma_skip_ws_bounds(s, i + 1, hi);
    }
}

pub proof fn lemma_skip_ws_back_bounds(s: Seq<char>, lo: int, j: int)
    requires
        lo <= j,
    ensures
        lo <= skip_ws_back(s, lo, j) <= j,
    decreases j - lo,
{
    if lo < j && is_white_space(s[j - 1]) {
        lemma_skip_ws_back_bounds(s, lo, j - 1);
    }
}

pub proof fn lemma_trim_bounds(s: Seq<char>, lo: int, hi: int)
    requires
        lo <= hi,
    ensures
        lo <= trim(s, lo, hi).0 <= trim(s, lo, hi).1 <= hi,
{
    lemma_skip_ws_bounds(s, lo, hi);
    lemma_skip_ws_back_bounds(s, skip_ws(s, lo, hi), hi);
}

/// A trimmed range neither begins nor ends with white space.
pub proof fn lemma_trim_ends(s: Seq<char>, lo: int, hi: int)
    requires
        0 <= lo <= hi <= s.len(),
    ensures
        trim(s, lo, hi).0 < trim(s, lo, hi).1 ==> !is_white_space(s[trim(s, lo, hi).0])
            && !is_white_space(s[trim(s, lo, hi).1 - 1]),
{
    lemma_skip_ws_stops(s, lo, hi);
    let a = skip_ws(s, lo, hi);
    lemma_trim_bounds(s, lo, hi);
    lemma_skip_ws_back_stops(s, a, hi);
}

/// Every character of `s[lo..hi]` that is not white space lies inside its trimmed range.
pub proof fn lemma_trim_covers(s: Seq<char>, lo: int, hi: int, j: int)
    requires
        0 <= lo <= j < hi <= s.len(),
        !is_white_space(s[j]),
    ensures
        trim(s, lo, hi).0 <= j < trim(s, lo, hi).1,
{
    lemma_skip_ws_before(s, lo, hi, j);
    lemma_skip_ws_back_after(s, skip_ws(s, lo, hi), hi, j);
}

pub proof fn lemma_skip_ws_before(s: Seq<char>, i: int, hi: int, j: int)
    requires
        i <= j < hi,
        !is_white_space(s[j]),
    ensures
        skip_ws(s, i, hi) <= j,
    decreases hi - i,
{
    if i < hi && is_white_space(s[i]) {
        lemma_skip_ws_before(s, i + 1, hi, j);
    }
}

pub proof fn lemma_skip_ws_back_after(s: Seq<char>, lo: int, k: int, j: int)
    requires
        lo <= j < k,
        !is_white_space(s[j]),
    ensures
        j < skip_ws_back(s, lo, k),
    decreases k - lo,
{
    if lo < k && is_white_space(s[k - 1]) {
        lemma_skip_ws_back_after(s, lo, k - 1, j);
    }
}

pub proof fn lemma_skip_ws_stops(s: Seq<char>, i: int, hi: int)
    requires
        i <= hi,
    ensures
        skip_ws(s, i, hi) < hi ==> !is_white_space(s[skip_ws(s, i, hi)]),
    decreases hi - i,
{
    if i < hi && is_white_space(s[i]) {
        lemma_skip_ws_stops(s, i + 1, hi);
    }
}

pub proof fn lemma_skip_ws_back_stops(s: Seq<char>, lo: int, j: int)
    requires
        lo <= j,
    ensures
        lo < skip_ws_back(s, lo, j) ==> !is_white_space(s[skip_ws_back(s, lo, j) - 1]),
    decreases j - lo,
{
    if lo < j && is_white_space(s[j - 1]) {
        lemma_skip_ws_back_stops(s, lo, j - 1);
    }
}

pub proof fn lemma_encode_utf8_concat(a: Seq<char>, b: Seq<char>)
    ensures
        encode_utf8(a + b) == encode_utf8(a) + encode_utf8(b),
    decreases a.len(),
{
    if a.len() == 0 {
        assert(a + b =~= b);
        assert(encode_utf8(a) =~= Seq::<u8>::empty());
        assert(encode_utf8(a) + encode_utf8(b) =~= encode_utf8(b));
    } else {
        assert((a + b).drop_first() =~= a.drop_first() + b);
        lemma_encode_utf8_concat(a.drop_first(), b);
        assert(encode_utf8(a + b) =~= encode_scalar(a[0] as u32) + (encode_utf8(a.drop_first())
            + encode_utf8(b)));
    }
}

pub proof fn lemma_encode_char_len(c: char)
    ensures
        encode_utf8(seq![c]).len() == char_len(c),
{
    char_is_scalar(c);
    assert(seq![c].drop_first() =~= Seq::<char>::empty());
    assert(encode_utf8(seq![c]) == encode_scalar(c as u32) + encode_utf8(Seq::<char>::empty()));
}

/// Advancing over one character advances the byte offset by that character's encoded length.
pub proof fn lemma_byte_pos_step(s: Seq<char>, i: int)
    requires
        0 <= i < s.len(),
    ensures
        byte_pos(s, i + 1) == byte_pos(s, i) + char_len(s[i]),
{
    assert(s.take(i + 1) =~= s.take(i) + seq![s[i]]);
    lemma_encode_utf8_concat(s.take(i), seq![s[i]]);
    lemma_encode_char_len(s[i]);
}

/// The bytes between two character offsets are the encoding of the characters between them.
pub proof fn lemma_byte_range(s: Seq<char>, a: int, b: int)
    requires
        0 <= a <= b <= s.len(),
    ensures
        0 <= byte_pos(s, a) <= byte_pos(s, b) <= encode_utf8(s).len(),
        encode_utf8(s).subrange(byte_pos(s, a), byte_pos(s, b)) == encode_utf8(s.subrange(a, b)),
{
    assert(s.take(b) =~= s.take(a) + s.subrange(a, b));
    assert(s =~= s.take(b) + s.skip(b));
    lemma_encode_utf8_concat(s.take(a), s.subrange(a, b));
    lemma_encode_utf8_concat(s.take(b), s.skip(b));
    let ea = encode_utf8(s.take(a));
    let em = encode_utf8(s.subrange(a, b));
    let eb = encode_utf8(s.take(b));
    let er = encode_utf8(s.skip(b));
    assert(encode_utf8(s) == eb + er);
    assert(eb == ea + em);
    assert(encode_utf8(s).subrange(ea.len() as int, eb.len() as int) =~= em);
}

/// `char::is_whitespace`.
pub fn char_is_white_space(c: char) -> (b: bool)
    ensures
        b == is_white_space(c),
{
    let v = c as u32;
    (0x9 <= v && v <= 0xd) || v == 0x20 || v == 0x85 || v == 0xa0 || v == 0x1680 || (0x2000 <= v
        && v <= 0x200a) || v == 0x2028 || v == 0x2029 || v == 0x202f || v == 0x205f || v == 0x3000
}

/// `char::is_ascii_digit`.
pub fn char_is_digit(c: char) -> (b: bool)
    ensures
        b == is_digit(c),
{
    '0' <= c && c <= '9'
}

/// `char::len_utf8`.
pub fn char_len_utf8(c: char) -> (n: usize)
    ensures
        n == char_len(c),
{
    let v = c as u32;
    if v <= 0x7f {
        1
    } else if v <= 0x7ff {
        2
    } else if v <= 0xffff {
        3
    } else {
        4
    }
}

/// Whether `s[a..b]` consists of ASCII digits only.
pub fn digits_only(s: &Vec<char>, a: usize, b: usize) -> (r: bool)
    requires
        a <= b <= s.len(),
    ensures
        r == all_digits(s@, a as int, b as int),
{
    let mut i = a;
    while i < b
        invariant
            a <= i <= b <= s.len(),
            all_digits(s@, a as int, i as int),
        decreases b - i,
    {
        if !char_is_digit(s[i]) {
            return false;
        }
        i += 1;
    }
    true
}

/// Index of the first `c` in `s[i..hi]`, or `hi`.
pub fn find_char(s: &Vec<char>, i: usize, hi: usize, c: char) -> (r: usize)
    requires
        i <= hi <= s.len(),
    ensures
        r == find_from(s@, i as int, hi as int, c),
        i <= r <= hi,
    decreases hi - i,
{
    let mut j = i;
    while j < hi
        invariant
            i <= j <= hi <= s.len(),
            find_from(s@, j as int, hi as int, c) == find_from(s@, i as int, hi as int, c),
        decreases hi - j,
    {
        if s[j] == c {
            return j;
        }
        j += 1;
    }
    j
}

/// `str::trim` on the range `s[lo..hi]`.
pub fn trim_range(s: &Vec<char>, lo: usize, hi: usize) -> (r: (usize, usize))
    requires
        lo <= hi <= s.len(),
    ensures
        r.0 == trim(s@, lo as int, hi as int).0,
        r.1 == trim(s@, lo as int, hi as int).1,
        lo <= r.0 <= r.1 <= hi,
{
    let mut a = lo;
    while a < hi && char_is_white_space(s[a])
        invariant
            lo <= a <= hi <= s.len(),
            skip_ws(s@, a as int, hi as int) == skip_ws(s@, lo as int, hi as int),
        decreases hi - a,
    {
        a += 1;
    }
    let mut b = hi;
    while a < b && char_is_white_space(s[b - 1])
        invariant
            lo <= a <= b <= hi <= s.len(),
            a == skip_ws(s@, lo as int, hi as int),
            skip_ws_back(s@, a as int, b as int) == skip_ws_back(s@, a as int, hi as int),
        decreases b - a,
    {
        b -= 1;
    }
    (a, b)
}

} // verus!
