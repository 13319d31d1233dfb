//! The position-tracking string abstraction: [`TextLocation`],
//! [`LocatedStr`], and the substring search helpers built on it.
//!
//! A location is modelled as a triple `(line, column, byte offset)` of
//! unbounded integers, and every operation is specified against
//! [`advance`], the character-by-character forward scan that defines what
//! the location of a position in the source text is: a `'\n'` increments
//! the line and resets the column, any other character increments the
//! column, and the byte offset grows by the character's UTF-8 width.

use crate::chars::char_utf8_len;
use crate::chars::char_whitespace;
use vstd::prelude::*;
use vstd::string::StrSliceExecFns;
use vstd::utf8::decode_utf8;
use vstd::utf8::encode_scalar;
use vstd::utf8::encode_utf8;
use vstd::utf8::encode_utf8_first_scalar;
use vstd::utf8::is_char_boundary;
use vstd::utf8::pop_first_scalar;
use vstd::utf8::valid_utf8;

verus! {

/// A position in source text: 0-based line, 0-based column counted in
/// characters, and 0-based absolute byte offset.
#[derive(Clone, Copy, Debug, Eq, Hash, Ord, PartialEq, PartialOrd, Structural)]
pub struct TextLocation {
    pub line_num: u64,
    pub col_num: u64,
    pub byte_num: u64,
}

impl View for TextLocation {
    type V = (int, int, int);

    open spec fn view(&self) -> (int, int, int) {
        (self.line_num as int, self.col_num as int, self.byte_num as int)
    }
}

impl TextLocation {
    /// The location with the given line, column and byte offset.
    pub fn new(line_num: u64, col_num: u64, byte_num: u64) -> (r: Self)
        ensures
            r@ == (line_num as int, col_num as int, byte_num as int),
    {
        TextLocation { line_num, col_num, byte_num }
    }
}

impl Default for TextLocation {
    /// The start of a buffer: line 0, column 0, byte offset 0.
    fn default() -> (r: Self)
        ensures
            r@ == (0int, 0int, 0int),
    {
        TextLocation { line_num: 0, col_num: 0, byte_num: 0 }
    }
}

impl From<(u64, u64, u64)> for TextLocation {
    fn from(value: (u64, u64, u64)) -> (r: Self) {
        TextLocation { line_num: value.0, col_num: value.1, byte_num: value.2 }
    }
}

impl vstd::std_specs::convert::FromSpecImpl<(u64, u64, u64)> for TextLocation {
    open spec fn obeys_from_spec() -> bool {
        true
    }

    open spec fn from_spec(value: (u64, u64, u64)) -> TextLocation {
        TextLocation { line_num: value.0, col_num: value.1, byte_num: value.2 }
    }
}

/// One step of the location advance rule: `'\n'` moves to the start of the
/// next line, every other character moves one column to the right; the
/// byte offset always grows by the character's UTF-8 width.
pub open spec fn advance_one(l: (int, int, int), c: char) -> (int, int, int) {
    if c == '\n' {
        (l.0 + 1, 0, l.2 + char_utf8_len(c))
    } else {
        (l.0, l.1 + 1, l.2 + char_utf8_len(c))
    }
}

/// The location reached by scanning forward through `s`, one character at
/// a time, starting from `l`. This is the defining forward scan that every
/// slicing operation must agree with.
pub open spec fn advance(l: (int, int, int), s: Seq<char>) -> (int, int, int)
    decreases s.len(),
{
    if s.len() == 0 {
        l
    } else {
        advance(advance_one(l, s[0]), s.drop_first())
    }
}

/// The number of `'\n'` characters in `s`.
pub open spec fn newline_count(s: Seq<char>) -> int
    decreases s.len(),
{
    if s.len() == 0 {
        0
    } else {
        (if s[0] == '\n' {
            1int
        } else {
            0int
        }) + newline_count(s.drop_first())
    }
}

/// The index of the last `'\n'` in `s`, or -1 if there is none.
pub open spec fn last_newline(s: Seq<char>) -> int
    decreases s.len(),
{
    if s.len() == 0 {
        -1
    } else {
        let r = last_newline(s.drop_first());
        if r >= 0 {
            1 + r
        } else if s[0] == '\n' {
            0
        } else {
            -1
        }
    }
}

/// `last_newline` is an index into `s`, or -1.
pub proof fn lemma_last_newline_range(s: Seq<char>)
    ensures
        -1 <= last_newline(s) < s.len(),
    decreases s.len(),
{
    if s.len() > 0 {
        lemma_last_newline_range(s.drop_first());
    }
}

/// The length of the longest whitespace-only prefix of `s`.
pub open spec fn ws_prefix_len(s: Seq<char>) -> int
    decreases s.len(),
{
    if s.len() == 0 {
        0
    } else if !char_whitespace(s[0]) {
        0
    } else {
        1 + ws_prefix_len(s.drop_first())
    }
}

/// The number of bytes in the UTF-8 encoding of `s`.
pub open spec fn byte_len(s: Seq<char>) -> int {
    encode_utf8(s).len() as int
}

/// The byte offset of the character at index `k` of `s`.
pub open spec fn byte_index(s: Seq<char>, k: int) -> int {
    byte_len(s.take(k))
}

/// The advance from `l` through every prefix of `s` stays within `u64`
/// range, component by component.
pub open spec fn advance_fits(l: (int, int, int), s: Seq<char>) -> bool {
    &&& l.0 + newline_count(s) <= u64::MAX as int
    &&& l.1 + s.len() <= u64::MAX as int
    &&& l.2 + byte_len(s) <= u64::MAX as int
}

pub proof fn lemma_newline_count_nonneg(s: Seq<char>)
    ensures
        0 <= newline_count(s),
    decreases s.len(),
{
    if s.len() > 0 {
        lemma_newline_count_nonneg(s.drop_first());
    }
}

/// There are never more line breaks than characters.
pub proof fn lemma_newline_count_le_len(s: Seq<char>)
    ensures
        newline_count(s) <= s.len(),
    decreases s.len(),
{
    if s.len() > 0 {
        lemma_newline_count_le_len(s.drop_first());
    }
}

pub proof fn lemma_newline_count_concat(s1: Seq<char>, s2: Seq<char>)
    ensures
        newline_count(s1 + s2) == newline_count(s1) + newline_count(s2),
    decreases s1.len(),
{
    if s1.len() == 0 {
        assert(s1 + s2 =~= s2);
    } else {
        assert((s1 + s2).drop_first() =~= s1.drop_first() + s2);
        lemma_newline_count_concat(s1.drop_first(), s2);
    }
}

pub proof fn lemma_byte_len_concat(s1: Seq<char>, s2: Seq<char>)
    ensures
        byte_len(s1 + s2) == byte_len(s1) + byte_len(s2),
    decreases s1.len(),
{
    if s1.len() == 0 {
        assert(s1 + s2 =~= s2);
    } else {
        assert((s1 + s2).drop_first() =~= s1.drop_first() + s2);
        assert((s1 + s2)[0] == s1[0]);
        lemma_byte_len_concat(s1.drop_first(), s2);
    }
}

/// Every character takes at least one byte.
pub proof fn lemma_byte_len_ge_len(s: Seq<char>)
    ensures
        s.len() <= byte_len(s),
    decreases s.len(),
{
    if s.len() > 0 {
        crate::chars::lemma_char_utf8_len_bounds(s[0]);
        lemma_byte_len_ge_len(s.drop_first());
    }
}

/// Advancing through a concatenation is advancing through both parts in
/// turn.
pub proof fn lemma_advance_concat(l: (int, int, int), s1: Seq<char>, s2: Seq<char>)
    ensures
        advance(l, s1 + s2) == advance(advance(l, s1), s2),
    decreases s1.len(),
{
    if s1.len() == 0 {
        assert(s1 + s2 =~= s2);
    } else {
        assert((s1 + s2).drop_first() =~= s1.drop_first() + s2);
        assert((s1 + s2)[0] == s1[0]);
        lemma_advance_concat(advance_one(l, s1[0]), s1.drop_first(), s2);
    }
}

/// Extending the scanned prefix by one character advances by one step.
pub proof fn lemma_advance_take_step(l: (int, int, int), s: Seq<char>, k: int)
    requires
        0 <= k < s.len(),
    ensures
        advance(l, s.take(k + 1)) == advance_one(advance(l, s.take(k)), s[k]),
{
    assert(s.take(k + 1) =~= s.take(k) + seq![s[k]]);
    lemma_advance_concat(l, s.take(k), seq![s[k]]);
    let l2 = advance(l, s.take(k));
    assert(seq![s[k]].drop_first() =~= Seq::<char>::empty());
    assert(advance(advance_one(l2, s[k]), Seq::<char>::empty()) == advance_one(l2, s[k]));
    assert(advance(l2, seq![s[k]]) == advance_one(l2, s[k]));
}

/// Closed forms for the three components of [`advance`]: the line grows by
/// the number of line breaks, the column restarts after the last line
/// break, and the byte offset grows by the encoded length.
pub proof fn lemma_advance_closed(l: (int, int, int), s: Seq<char>)
    ensures
        advance(l, s).0 == l.0 + newline_count(s),
        advance(l, s).1 == if last_newline(s) == -1 {
            l.1 + s.len()
        } else {
            s.len() - 1 - last_newline(s)
        },
        advance(l, s).2 == l.2 + byte_len(s),
    decreases s.len(),
{
    if s.len() > 0 {
        lemma_advance_closed(advance_one(l, s[0]), s.drop_first());
        lemma_newline_count_nonneg(s.drop_first());
    }
}

/// If no character of `s` is a line break, `last_newline` reports none.
pub proof fn lemma_last_newline_none(s: Seq<char>)
    requires
        forall|t: int| 0 <= t < s.len() ==> s[t] != '\n',
    ensures
        last_newline(s) == -1,
    decreases s.len(),
{
    if s.len() > 0 {
        lemma_last_newline_none(s.drop_first());
    }
}

/// If `s[i]` is a line break and nothing after it is, it is the last one.
pub proof fn lemma_last_newline_found(s: Seq<char>, i: int)
    requires
        0 <= i < s.len(),
        s[i] == '\n',
        forall|t: int| i < t < s.len() ==> s[t] != '\n',
    ensures
        last_newline(s) == i,
    decreases s.len(),
{
    assert(forall|t: int| 0 <= t < s.drop_first().len() ==> s.drop_first()[t] == s[t + 1]);
    if i == 0 {
        if s.len() > 1 {
            lemma_last_newline_none(s.drop_first());
        } else {
            assert(s.drop_first().len() == 0);
            assert(last_newline(s.drop_first()) == -1);
        }
        assert(last_newline(s) == 0);
    } else {
        lemma_last_newline_found(s.drop_first(), i - 1);
        assert(last_newline(s.drop_first()) == i - 1);
        assert(last_newline(s) == i);
    }
}

/// The advance through any prefix stays within the bounds that the whole
/// slice gives: lines and bytes only grow, and the column never exceeds
/// the starting column plus the number of characters.
pub proof fn lemma_advance_take_bounds(l: (int, int, int), s: Seq<char>, k: int)
    requires
        0 <= k <= s.len(),
        0 <= l.0,
        0 <= l.1,
        0 <= l.2,
    ensures
        l.0 <= advance(l, s.take(k)).0 <= l.0 + newline_count(s),
        0 <= advance(l, s.take(k)).1 <= l.1 + s.len(),
        l.2 <= advance(l, s.take(k)).2 <= l.2 + byte_len(s),
{
    let p = s.take(k);
    let q = s.skip(k);
    assert(s =~= p + q);
    lemma_advance_closed(l, p);
    lemma_newline_count_nonneg(p);
    lemma_newline_count_nonneg(q);
    lemma_newline_count_concat(p, q);
    lemma_byte_len_concat(p, q);
    lemma_byte_len_ge_len(q);
    lemma_byte_len_ge_len(p);
    lemma_last_newline_range(p);
}

/// UTF-8 encoding distributes over concatenation of character sequences.
pub proof fn lemma_encode_concat(s1: Seq<char>, s2: Seq<char>)
    ensures
        encode_utf8(s1 + s2) == encode_utf8(s1) + encode_utf8(s2),
    decreases s1.len(),
{
    if s1.len() == 0 {
        assert(s1 + s2 =~= s2);
        assert(encode_utf8(s1) + encode_utf8(s2) =~= encode_utf8(s2));
    } else {
        assert((s1 + s2)[0] == s1[0]);
        assert((s1 + s2).drop_first() =~= s1.drop_first() + s2);
        lemma_encode_concat(s1.drop_first(), s2);
        assert(encode_scalar(s1[0] as u32) + (encode_utf8(s1.drop_first()) + encode_utf8(s2))
            =~= (encode_scalar(s1[0] as u32) + encode_utf8(s1.drop_first())) + encode_utf8(s2));
    }
}

/// The byte offset of any character index is a character boundary of the
/// encoded text.
pub proof fn lemma_char_boundary_at(s: Seq<char>, k: int)
    requires
        0 <= k <= s.len(),
    ensures
        is_char_boundary(encode_utf8(s), byte_index(s, k)),
        0 <= byte_index(s, k) <= byte_len(s),
    decreases k,
{
    broadcast use vstd::utf8::encode_utf8_valid_utf8;

    reveal_with_fuel(encode_utf8, 2);
    assert(s =~= s.take(k) + s.skip(k));
    lemma_encode_concat(s.take(k), s.skip(k));
    if k == 0 {
        assert(s.take(0) =~= Seq::<char>::empty());
        assert(byte_index(s, 0) == 0);
    } else {
        let bytes = encode_utf8(s);
        encode_utf8_first_scalar(s);
        let w = char_utf8_len(s[0]);
        assert(seq![s[0]].drop_first() =~= Seq::<char>::empty());
        assert(encode_utf8(seq![s[0]]) =~= encode_scalar(s[0] as u32));
        assert(s.take(k) =~= seq![s[0]] + s.drop_first().take(k - 1));
        lemma_encode_concat(seq![s[0]], s.drop_first().take(k - 1));
        assert(byte_index(s, k) == w + byte_index(s.drop_first(), k - 1));
        lemma_char_boundary_at(s.drop_first(), k - 1);
        assert(pop_first_scalar(bytes) =~= encode_utf8(s.drop_first())) by {
            assert(s =~= seq![s[0]] + s.drop_first());
            lemma_encode_concat(seq![s[0]], s.drop_first());
        }
        crate::chars::lemma_char_utf8_len_bounds(s[0]);
        assert(is_char_boundary(bytes, byte_index(s, k)));
    }
}

/// The bytes between the offsets of two character indices encode exactly
/// the characters between those indices.
pub proof fn lemma_bytes_of_char_range(s: Seq<char>, k1: int, k2: int)
    requires
        0 <= k1 <= k2 <= s.len(),
    ensures
        encode_utf8(s).subrange(byte_index(s, k1), byte_index(s, k2)) == encode_utf8(
            s.subrange(k1, k2),
        ),
        decode_utf8(
            encode_utf8(s).subrange(byte_index(s, k1), byte_index(s, k2)),
        ) == s.subrange(k1, k2),
        0 <= byte_index(s, k1) <= byte_index(s, k2) <= byte_len(s),
{
    broadcast use vstd::utf8::encode_utf8_decode_utf8;

    let a = s.take(k1);
    let b = s.subrange(k1, k2);
    let c = s.skip(k2);
    assert(s =~= (a + b) + c);
    lemma_encode_concat(a + b, c);
    lemma_encode_concat(a, b);
    assert(s.take(k2) =~= a + b);
    assert(encode_utf8(s).subrange(byte_index(s, k1), byte_index(s, k2)) =~= encode_utf8(b));
}

/// Whatever whitespace run a prefix scan has passed, `ws_prefix_len` is
/// determined by the first non-whitespace character.
pub proof fn lemma_ws_prefix_len_is(s: Seq<char>, k: int)
    requires
        0 <= k <= s.len(),
        forall|j: int| 0 <= j < k ==> char_whitespace(s[j]),
        k == s.len() || !char_whitespace(s[k]),
    ensures
        ws_prefix_len(s) == k,
    decreases s.len(),
{
    if k > 0 {
        lemma_ws_prefix_len_is(s.drop_first(), k - 1);
    }
}

/// The model of trimming leading whitespace: the text after its longest
/// whitespace prefix, and the location advanced through that prefix.
pub open spec fn trim_model(text: Seq<char>, l: (int, int, int)) -> (Seq<char>, (int, int, int)) {
    (text.skip(ws_prefix_len(text)), advance(l, text.take(ws_prefix_len(text))))
}

/// If no character of `s` is a line break, it contributes no lines.
pub proof fn lemma_newline_count_none(s: Seq<char>)
    requires
        forall|t: int| 0 <= t < s.len() ==> s[t] != '\n',
    ensures
        newline_count(s) == 0,
    decreases s.len(),
{
    if s.len() > 0 {
        lemma_newline_count_none(s.drop_first());
    }
}

/// A boundary of the whole text is a boundary of any suffix that starts
/// at a boundary.
pub proof fn lemma_boundary_in_suffix(bytes: Seq<u8>, i: int, j: int)
    requires
        valid_utf8(bytes),
        0 <= i <= j <= bytes.len(),
        is_char_boundary(bytes, i),
        is_char_boundary(bytes, j),
    ensures
        is_char_boundary(bytes.subrange(i, bytes.len() as int), j - i),
{
    vstd::utf8::valid_utf8_split(bytes, i);
    let suf = bytes.subrange(i, bytes.len() as int);
    if j == i {
    } else if j == bytes.len() {
        vstd::utf8::is_char_boundary_start_end_of_seq(suf);
    } else {
        vstd::utf8::is_char_boundary_iff_not_is_continuation_byte(bytes, j);
        vstd::utf8::is_char_boundary_iff_not_is_continuation_byte(suf, j - i);
        assert(suf[j - i] == bytes[j]);
    }
}

/// A prefix of a fitting text also fits from the same anchor.
pub proof fn lemma_advance_fits_prefix(l: (int, int, int), a: Seq<char>, b: Seq<char>)
    requires
        advance_fits(l, a + b),
    ensures
        advance_fits(l, a),
{
    lemma_newline_count_concat(a, b);
    lemma_newline_count_nonneg(b);
    lemma_byte_len_concat(a, b);
    lemma_byte_len_ge_len(b);
}

/// A slice carved out of a fitting slice still fits.
pub proof fn lemma_advance_fits_skip(l: (int, int, int), s: Seq<char>, k: int)
    requires
        0 <= k <= s.len(),
        0 <= l.0,
        0 <= l.1,
        0 <= l.2,
        advance_fits(l, s),
    ensures
        advance_fits(advance(l, s.take(k)), s.skip(k)),
{
    let p = s.take(k);
    let q = s.skip(k);
    assert(s =~= p + q);
    lemma_advance_closed(l, p);
    lemma_newline_count_concat(p, q);
    lemma_byte_len_concat(p, q);
    lemma_last_newline_range(p);
    lemma_newline_count_nonneg(p);
    lemma_newline_count_nonneg(q);
}

/// What the whitespace prefix is: everything before it is whitespace and
/// the character after it, if any, is not.
pub proof fn lemma_ws_prefix_chars(s: Seq<char>)
    ensures
        0 <= ws_prefix_len(s) <= s.len(),
        forall|j: int| 0 <= j < ws_prefix_len(s) ==> char_whitespace(s[j]),
        ws_prefix_len(s) == s.len() || !char_whitespace(s[ws_prefix_len(s)]),
    decreases s.len(),
{
    if s.len() > 0 && char_whitespace(s[0]) {
        lemma_ws_prefix_chars(s.drop_first());
        assert forall|j: int| 0 <= j < ws_prefix_len(s) implies char_whitespace(s[j]) by {
            if j > 0 {
                assert(s.drop_first()[j - 1] == s[j]);
                assert(char_whitespace(s.drop_first()[j - 1]));
            }
        }
    }
}

/// Trimming is idempotent: what trimming leaves behind has no whitespace
/// prefix of its own, so trimming it again changes nothing.
pub proof fn lemma_trim_model_idempotent(text: Seq<char>, loc: (int, int, int))
    ensures
        trim_model(trim_model(text, loc).0, trim_model(text, loc).1) == trim_model(text, loc),
{
    lemma_ws_prefix_chars(text);
    let t = trim_model(text, loc).0;
    let tl = trim_model(text, loc).1;
    if t.len() > 0 {
        assert(t[0] == text[ws_prefix_len(text)]);
    }
    lemma_ws_prefix_len_is(t, 0);
    assert(t.skip(0) =~= t);
    assert(t.take(0) =~= Seq::<char>::empty());
}

/// Trimming a slice that consists entirely of whitespace yields an empty
/// slice whose anchor is the end-of-input location.
pub proof fn lemma_trim_all_whitespace(text: Seq<char>, loc: (int, int, int))
    requires
        forall|j: int| 0 <= j < text.len() ==> char_whitespace(text[j]),
    ensures
        trim_model(text, loc).0.len() == 0,
        trim_model(text, loc).1 == advance(loc, text),
{
    lemma_ws_prefix_len_is(text, text.len() as int);
    assert(text.take(text.len() as int) =~= text);
    assert(text.skip(text.len() as int) =~= Seq::<char>::empty());
}

/// A borrowed view into source text, anchored by the location of its
/// first character in the original buffer.
#[derive(Clone, Copy, Debug, Eq, Hash, PartialEq)]
pub struct LocatedStr<'a> {
    pub inner_str: &'a str,
    pub start_location: TextLocation,
}

/// `p` is a prefix of `s`.
pub open spec fn seq_starts_with(s: Seq<char>, p: Seq<char>) -> bool {
    p.len() <= s.len() && s.take(p.len() as int) == p
}

/// `needle` occurs in `s` at character index `k`.
pub open spec fn match_at(s: Seq<char>, needle: Seq<char>, k: int) -> bool {
    0 <= k && k + needle.len() <= s.len() && s.subrange(k, k + needle.len()) == needle
}

pub proof fn lemma_match_at_skip(s: Seq<char>, needle: Seq<char>, k: int)
    requires
        0 <= k <= s.len(),
    ensures
        match_at(s, needle, k) == seq_starts_with(s.skip(k), needle),
{
    if k + needle.len() <= s.len() {
        assert(s.skip(k).take(needle.len() as int) =~= s.subrange(k, k + needle.len()));
    }
}

/// The byte offset of the next character index grows by that character's
/// UTF-8 width.
pub proof fn lemma_byte_index_step(s: Seq<char>, k: int)
    requires
        0 <= k < s.len(),
    ensures
        byte_index(s, k + 1) == byte_index(s, k) + char_utf8_len(s[k]),
{
    reveal_with_fuel(encode_utf8, 2);
    assert(s.take(k + 1) =~= s.take(k) + seq![s[k]]);
    lemma_encode_concat(s.take(k), seq![s[k]]);
    assert(seq![s[k]].drop_first() =~= Seq::<char>::empty());
    assert(encode_utf8(seq![s[k]]) =~= encode_scalar(s[k] as u32));
}

/// The lowest index of a needle that matches at position `k`, if any;
/// lower indices are higher priority.
pub open spec fn first_needle_at(s: Seq<char>, needles: Seq<Seq<char>>, k: int) -> Option<int>
    decreases needles.len(),
{
    if needles.len() == 0 {
        None
    } else if match_at(s, needles[0], k) {
        Some(0int)
    } else {
        match first_needle_at(s, needles.drop_first(), k) {
            Option::Some(i) => Some(i + 1),
            Option::None => None,
        }
    }
}

/// The earliest character position at or after `k` where some needle
/// matches, paired with the matching needle's index. A tie at one
/// position goes to the needle with the lower index, never to the one
/// that matches at a later position.
pub open spec fn find_from(s: Seq<char>, needles: Seq<Seq<char>>, k: int) -> Option<(int, int)>
    decreases s.len() - k,
{
    if k < 0 || k >= s.len() {
        None
    } else {
        match first_needle_at(s, needles, k) {
            Option::Some(i) => Some((k, i)),
            Option::None => find_from(s, needles, k + 1),
        }
    }
}

/// The result of the prioritized multi-needle search over all of `s`:
/// the character position and needle index of the earliest match.
pub open spec fn find_any_model(s: Seq<char>, needles: Seq<Seq<char>>) -> Option<(int, int)> {
    find_from(s, needles, 0)
}

/// A scan that has refuted all needles below `j` at position `k`
/// determines `first_needle_at` as soon as it finds a match or runs out.
pub proof fn lemma_first_needle_at(s: Seq<char>, needles: Seq<Seq<char>>, k: int, j: int)
    requires
        0 <= j <= needles.len(),
        forall|i: int| 0 <= i < j ==> !match_at(s, needles[i], k),
    ensures
        j == needles.len() ==> first_needle_at(s, needles, k) is None,
        j < needles.len() && match_at(s, needles[j], k) ==> first_needle_at(s, needles, k)
            == Some(j),
    decreases needles.len(),
{
    if needles.len() > 0 && j > 0 {
        assert(!match_at(s, needles[0], k));
        assert(forall|i: int|
            0 <= i < needles.drop_first().len() ==> needles.drop_first()[i] == needles[i + 1]);
        lemma_first_needle_at(s, needles.drop_first(), k, j - 1);
    }
}

/// Bridges the byte-range contract of slicing back to character indices:
/// slicing at the byte offsets of character indices `k1 <= k2` yields
/// exactly the characters between them, and those offsets are boundaries.
pub proof fn lemma_slice_chars(s: Seq<char>, k1: int, k2: int)
    requires
        0 <= k1 <= k2 <= s.len(),
    ensures
        is_char_boundary(encode_utf8(s), byte_index(s, k1)),
        is_char_boundary(encode_utf8(s), byte_index(s, k2)),
        0 <= byte_index(s, k1) <= byte_index(s, k2) <= byte_len(s),
        decode_utf8(encode_utf8(s).subrange(byte_index(s, k1), byte_index(s, k2))) == s.subrange(
            k1,
            k2,
        ),
        decode_utf8(encode_utf8(s).take(byte_index(s, k1))) == s.take(k1),
        byte_index(s, s.len() as int) == byte_len(s),
{
    lemma_char_boundary_at(s, k1);
    lemma_char_boundary_at(s, k2);
    lemma_bytes_of_char_range(s, k1, k2);
    lemma_bytes_of_char_range(s, 0, k1);
    assert(byte_index(s, 0) == 0) by {
        assert(s.take(0) =~= Seq::<char>::empty());
        assert(encode_utf8(Seq::<char>::empty()) =~= Seq::<u8>::empty());
    }
    assert(encode_utf8(s).take(byte_index(s, k1)) =~= encode_utf8(s).subrange(
        0,
        byte_index(s, k1),
    ));
    assert(s.subrange(0, k1) =~= s.take(k1));
    assert(s.take(s.len() as int) =~= s);
}

/// What a successful needle lookup at one position means: the reported
/// needle matches there.
pub proof fn lemma_first_needle_at_some(s: Seq<char>, needles: Seq<Seq<char>>, k: int)
    ensures
        first_needle_at(s, needles, k) matches Some(i) ==> 0 <= i < needles.len() && match_at(
            s,
            needles[i],
            k,
        ),
    decreases needles.len(),
{
    if needles.len() > 0 {
        lemma_first_needle_at_some(s, needles.drop_first(), k);
        assert(forall|i: int|
            0 <= i < needles.drop_first().len() ==> needles.drop_first()[i] == needles[i + 1]);
    }
}

/// What a successful search from `k0` means: the reported position is in
/// range and the reported needle matches there.
pub proof fn lemma_find_from_some(s: Seq<char>, needles: Seq<Seq<char>>, k0: int)
    ensures
        find_from(s, needles, k0) matches Some(m) ==> k0 <= m.0 < s.len() && 0 <= m.1
            < needles.len() && match_at(s, needles[m.1], m.0),
    decreases s.len() - k0,
{
    if 0 <= k0 < s.len() {
        lemma_first_needle_at_some(s, needles, k0);
        lemma_find_from_some(s, needles, k0 + 1);
    }
}

/// Whether `s` begins with `prefix`, comparing character by character.
pub(crate) fn str_starts_with(s: &str, prefix: &str) -> (r: bool)
    ensures
        r == seq_starts_with(s@, prefix@),
{
    let pn = prefix.unicode_len();
    let sn = s.unicode_len();
    if pn > sn {
        return false;
    }
    let mut j: usize = 0;
    while j < pn
        invariant
            j <= pn,
            pn == prefix@.len(),
            pn <= sn,
            sn == s@.len(),
            forall|t: int| 0 <= t < j ==> s@[t] == prefix@[t],
        decreases pn - j,
    {
        let cs = s.get_char(j);
        let cp = prefix.get_char(j);
        if cs != cp {
            proof {
                assert(s@.take(pn as int)[j as int] == s@[j as int]);
            }
            return false;
        }
        j += 1;
    }
    proof {
        assert(s@.take(pn as int) =~= prefix@);
    }
    true
}

/// The suffix of `s` that begins at character index `k`.
pub(crate) fn drop_chars<'a>(s: &'a str, k: usize) -> (r: &'a str)
    requires
        k <= s@.len(),
    ensures
        r@ == s@.skip(k as int),
{
    let n = s.unicode_len();
    let r = s.substring_char(k, n);
    proof {
        assert(s@.subrange(k as int, s@.len() as int) =~= s@.skip(k as int));
    }
    r
}

impl<'a> LocatedStr<'a> {
    /// The advance from the anchor through any prefix of the text stays
    /// within `u64` range. Every operation that moves the anchor requires
    /// this; it holds of any slice whose anchor describes a real position
    /// in a buffer the slice was carved from.
    pub open spec fn fits(self) -> bool {
        advance_fits(self.start_location@, self.inner_str@)
    }

    /// Wraps `inner` anchored at the start of a buffer. A slice anchored
    /// there always fits: every advanced count is bounded by the text's
    /// byte length, which fits in a machine word.
    pub fn new(inner: &'a str) -> (r: LocatedStr<'a>)
        ensures
            r.inner_str@ == inner@,
            r.start_location@ == (0int, 0int, 0int),
            r.fits(),
    {
        let bytes = inner.as_bytes();
        let byte_count = bytes.len();
        proof {
            assert(byte_count as int == byte_len(inner@));
            lemma_newline_count_le_len(inner@);
            lemma_byte_len_ge_len(inner@);
        }
        LocatedStr { inner_str: inner, start_location: TextLocation::default() }
    }

    /// Wraps `inner_str` anchored at the given line, column and byte
    /// offset.
    pub fn new_with_loc(inner_str: &'a str, line_num: u64, col_num: u64, byte_num: u64) -> (r:
        LocatedStr<'a>)
        ensures
            r.inner_str@ == inner_str@,
            r.start_location@ == (line_num as int, col_num as int, byte_num as int),
    {
        LocatedStr { inner_str, start_location: TextLocation { line_num, col_num, byte_num } }
    }

    /// Removes all leading whitespace, advancing the anchor one character
    /// at a time: a `'\n'` moves to the next line, any other whitespace
    /// moves one column right, and the byte offset grows by each
    /// character's UTF-8 width. Yields an empty slice anchored at the end
    /// of the input when the whole text is whitespace.
    pub fn trim_start(self) -> (r: LocatedStr<'a>)
        requires
            self.fits(),
        ensures
            r.inner_str@ == trim_model(self.inner_str@, self.start_location@).0,
            r.start_location@ == trim_model(self.inner_str@, self.start_location@).1,
            r.fits(),
    {
        let ghost s = self.inner_str@;
        let ghost l0 = self.start_location@;
        let mut rest: &'a str = self.inner_str;
        let mut loc: TextLocation = self.start_location;
        let ghost mut k: int = 0;
        loop
            invariant
                0 <= k <= s.len(),
                rest@ == s.skip(k),
                loc@ == advance(l0, s.take(k)),
                forall|j: int| 0 <= j < k ==> char_whitespace(s[j]),
                advance_fits(l0, s),
                0 <= l0.0 && 0 <= l0.1 && 0 <= l0.2,
            ensures
                0 <= k <= s.len(),
                rest@ == s.skip(k),
                loc@ == advance(l0, s.take(k)),
                forall|j: int| 0 <= j < k ==> char_whitespace(s[j]),
                k == s.len() || !char_whitespace(s[k]),
            decreases s.len() - k,
        {
            if rest.is_empty() {
                break;
            }
            let c = rest.get_char(0);
            proof {
                assert(c == s[k]);
            }
            if !c.is_whitespace() {
                break;
            }
            proof {
                lemma_advance_take_step(l0, s, k);
                lemma_advance_take_bounds(l0, s, k + 1);
                crate::chars::lemma_char_utf8_len_bounds(c);
            }
            if c == '\n' {
                loc.line_num = loc.line_num + 1;
                loc.col_num = 0;
            } else {
                loc.col_num = loc.col_num + 1;
            }
            loc.byte_num = loc.byte_num + (c.len_utf8() as u64);
            rest = drop_chars(rest, 1);
            proof {
                assert(s.skip(k).skip(1) =~= s.skip(k + 1));
                k = k + 1;
            }
        }
        proof {
            lemma_ws_prefix_len_is(s, k);
            lemma_advance_fits_skip(l0, s, k);
        }
        LocatedStr { inner_str: rest, start_location: loc }
    }

    /// Carves the byte range `index` out of this slice, recomputing the
    /// anchor location exactly. The text preceding the range is scanned
    /// once, from its end backward, for the column and line counts; the
    /// contract pins the result to the location that the defining forward
    /// scan [`advance`] reaches through that preceding text, so the
    /// backward and forward scans must agree on every boundary. The range
    /// must lie on UTF-8 character boundaries and within bounds; a caller
    /// that violates this is misusing offsets already validated elsewhere.
    pub fn get_unchecked(self, index: core::ops::Range<usize>) -> (r: LocatedStr<'a>)
        requires
            self.fits(),
            index.start <= index.end,
            index.end as int <= byte_len(self.inner_str@),
            is_char_boundary(encode_utf8(self.inner_str@), index.start as int),
            is_char_boundary(encode_utf8(self.inner_str@), index.end as int),
        ensures
            r.inner_str@ == decode_utf8(
                encode_utf8(self.inner_str@).subrange(index.start as int, index.end as int),
            ),
            r.start_location@ == advance(
                self.start_location@,
                decode_utf8(encode_utf8(self.inner_str@).take(index.start as int)),
            ),
            r.fits(),
    {
        let ghost s = self.inner_str@;
        let ghost l0 = self.start_location@;
        let ghost bytes = encode_utf8(s);
        let start = index.start;
        let end = index.end;
        proof {
            broadcast use vstd::utf8::encode_utf8_valid_utf8;
            broadcast use vstd::utf8::encode_utf8_decode_utf8;

        }
        let (before, tail) = self.inner_str.split_at(start);
        let ghost p = before@;
        let ghost q = tail@;
        proof {
            assert(encode_utf8(p) =~= bytes.subrange(0, start as int));
            assert(encode_utf8(q) =~= bytes.subrange(start as int, bytes.len() as int));
            assert(bytes.subrange(0, start as int) =~= bytes.take(start as int));
            assert(p == decode_utf8(bytes.take(start as int)));
            vstd::utf8::decode_utf8_split(bytes, start as int);
            assert(s == decode_utf8(bytes));
            assert(s =~= p + q);
            lemma_boundary_in_suffix(bytes, start as int, end as int);
            lemma_byte_len_concat(p, q);
        }
        let (mid, after) = tail.split_at(end - start);
        proof {
            assert(encode_utf8(mid@) =~= bytes.subrange(start as int, end as int));
            assert(mid@ == decode_utf8(bytes.subrange(start as int, end as int)));
            vstd::utf8::valid_utf8_split(bytes, start as int);
            vstd::utf8::decode_utf8_split(encode_utf8(q), (end - start) as int);
            assert(encode_utf8(after@) =~= encode_utf8(q).subrange(
                (end - start) as int,
                encode_utf8(q).len() as int,
            ));
            assert(q == decode_utf8(encode_utf8(q)));
            assert(q =~= mid@ + after@);
        }
        let n = before.unicode_len();
        let mut loc: TextLocation = self.start_location;
        proof {
            lemma_byte_len_ge_len(q);
            lemma_newline_count_concat(p, q);
            lemma_newline_count_nonneg(p);
            lemma_newline_count_nonneg(q);
            assert(byte_len(p) == start as int);
        }
        loc.byte_num = loc.byte_num + (start as u64);
        let mut j = n;
        let mut cols: u64 = 0;
        let mut saw_nl = false;
        loop
            invariant_except_break
                p == before@,
                0 <= j <= n,
                n == p.len(),
                cols == n - j,
                !saw_nl,
                forall|t: int| j <= t < n ==> p[t] != '\n',
            ensures
                p == before@,
                n == p.len(),
                0 <= j <= n,
                cols == n - j,
                forall|t: int| j <= t < n ==> p[t] != '\n',
                saw_nl ==> 1 <= j && p[j - 1] == '\n',
                !saw_nl ==> j == 0,
            decreases j,
        {
            if j == 0 {
                break;
            }
            let c = before.get_char(j - 1);
            if c == '\n' {
                saw_nl = true;
                break;
            }
            cols = cols + 1;
            j = j - 1;
        }
        proof {
            lemma_advance_closed(l0, p);
        }
        if saw_nl {
            proof {
                lemma_last_newline_found(p, j - 1);
                assert(p.skip(j - 1).drop_first() =~= p.skip(j as int));
                lemma_newline_count_none(p.skip(j as int));
                assert(newline_count(p.skip(j - 1)) == 1);
                assert(p =~= p.take(j - 1) + p.skip(j - 1));
                lemma_newline_count_concat(p.take(j - 1), p.skip(j - 1));
                lemma_newline_count_nonneg(p.take(j - 1));
            }
            loc.line_num = loc.line_num + 1;
            loc.col_num = cols;
            let ghost j1 = j - 1;
            let mut t = j - 1;
            loop
                invariant
                    p == before@,
                    n == p.len(),
                    0 <= t <= j1,
                    j1 < n,
                    p[j1] == '\n',
                    forall|w: int| j1 < w < n ==> p[w] != '\n',
                    loc.line_num as int == l0.0 + newline_count(p.skip(t as int)),
                    loc.line_num as int <= l0.0 + newline_count(p),
                    loc.col_num as int == p.len() - 1 - last_newline(p),
                    loc.byte_num as int == l0.2 + byte_len(p),
                    0 <= l0.0,
                    l0.0 + newline_count(p) <= u64::MAX as int,
                ensures
                    loc.line_num as int == l0.0 + newline_count(p.skip(t as int)),
                    loc.col_num as int == p.len() - 1 - last_newline(p),
                    loc.byte_num as int == l0.2 + byte_len(p),
                    t == 0,
                decreases t,
            {
                if t == 0 {
                    break;
                }
                let c = before.get_char(t - 1);
                proof {
                    assert(p.skip(t - 1).drop_first() =~= p.skip(t as int));
                    assert(p.skip(t - 1)[0] == p[t - 1]);
                    assert(p =~= p.take(t - 1) + p.skip(t - 1));
                    lemma_newline_count_concat(p.take(t - 1), p.skip(t - 1));
                    lemma_newline_count_nonneg(p.take(t - 1));
                }
                if c == '\n' {
                    loc.line_num = loc.line_num + 1;
                }
                t = t - 1;
            }
            proof {
                assert(p.skip(0) =~= p);
            }
        } else {
            proof {
                lemma_last_newline_none(p);
                lemma_newline_count_none(p);
            }
            loc.col_num = loc.col_num + cols;
        }
        proof {
            assert(loc@ == advance(l0, p));
            lemma_advance_fits_skip(l0, s, p.len() as int);
            assert(s.take(p.len() as int) =~= p);
            assert(s.skip(p.len() as int) =~= q);
            lemma_advance_fits_prefix(advance(l0, p), mid@, after@);
        }
        LocatedStr { inner_str: mid, start_location: loc }
    }

    /// Scans character by character for the earliest position where any
    /// needle candidate matches literally; ties at one position go to the
    /// earlier candidate. Returns the absolute location of the match, the
    /// relative byte offset within this slice, and the index of the
    /// matching candidate.
    pub fn find_any_substr(&self, needle_candidates: &[&str]) -> (r: Option<
        (TextLocation, usize, usize),
    >)
        requires
            self.fits(),
        ensures
            match r {
                Option::None => find_any_model(
                    self.inner_str@,
                    needle_candidates.deep_view(),
                ) is None,
                Option::Some((loc, b, ci)) => find_any_model(
                    self.inner_str@,
                    needle_candidates.deep_view(),
                ) matches Some(m) && loc@ == advance(self.start_location@, self.inner_str@.take(m.0))
                    && b as int == byte_index(self.inner_str@, m.0) && ci as int == m.1,
            },
    {
        let ghost s = self.inner_str@;
        let ghost l0 = self.start_location@;
        let ghost nds = needle_candidates.deep_view();
        let total = self.inner_str.as_bytes().len();
        let mut rest: &'a str = self.inner_str;
        let mut loc: TextLocation = self.start_location;
        let mut b: usize = 0;
        let ghost mut k: int = 0;
        proof {
            assert(s.skip(0) =~= s);
            assert(s.take(0) =~= Seq::<char>::empty());
        }
        loop
            invariant
                s == self.inner_str@,
                l0 == self.start_location@,
                0 <= k <= s.len(),
                rest@ == s.skip(k),
                loc@ == advance(l0, s.take(k)),
                b as int == byte_index(s, k),
                total == byte_len(s),
                nds == needle_candidates.deep_view(),
                find_from(s, nds, 0) == find_from(s, nds, k),
                advance_fits(l0, s),
                0 <= l0.0 && 0 <= l0.1 && 0 <= l0.2,
            ensures
                find_from(s, nds, 0) == find_from(s, nds, k),
                k == s.len(),
            decreases s.len() - k,
        {
            if rest.is_empty() {
                break;
            }
            let mut ci: usize = 0;
            let needle_count = needle_candidates.len();
            while ci < needle_count
                invariant
                    s == self.inner_str@,
                    l0 == self.start_location@,
                    0 <= ci <= needle_count,
                    needle_count == nds.len(),
                    nds == needle_candidates.deep_view(),
                    rest@ == s.skip(k),
                    0 <= k < s.len(),
                    loc@ == advance(l0, s.take(k)),
                    b as int == byte_index(s, k),
                    find_from(s, nds, 0) == find_from(s, nds, k),
                    forall|i: int| 0 <= i < ci ==> !match_at(s, nds[i], k),
                decreases needle_count - ci,
            {
                if str_starts_with(rest, needle_candidates[ci]) {
                    proof {
                        lemma_match_at_skip(s, nds[ci as int], k);
                        lemma_first_needle_at(s, nds, k, ci as int);
                    }
                    return Some((loc, b, ci));
                }
                proof {
                    lemma_match_at_skip(s, nds[ci as int], k);
                }
                ci += 1;
            }
            proof {
                lemma_first_needle_at(s, nds, k, nds.len() as int);
            }
            let c = rest.get_char(0);
            proof {
                assert(c == s[k]);
                lemma_advance_take_step(l0, s, k);
                lemma_advance_take_bounds(l0, s, k + 1);
                lemma_byte_index_step(s, k);
                lemma_bytes_of_char_range(s, k + 1, s.len() as int);
                assert(s.take(s.len() as int) =~= s);
                crate::chars::lemma_char_utf8_len_bounds(c);
            }
            if c == '\n' {
                loc.line_num = loc.line_num + 1;
                loc.col_num = 0;
            } else {
                loc.col_num = loc.col_num + 1;
            }
            loc.byte_num = loc.byte_num + (c.len_utf8() as u64);
            b = b + c.len_utf8();
            rest = drop_chars(rest, 1);
            proof {
                assert(s.skip(k).skip(1) =~= s.skip(k + 1));
                k = k + 1;
            }
        }
        None
    }

    /// Scans character by character for the first character that the
    /// given predicate accepts, advancing the location over every
    /// character it passes. Returns the absolute location and the
    /// relative byte offset of the accepted character.
    pub fn find_with_fn<F: Fn(char) -> bool>(&self, needle: F) -> (r: Option<(TextLocation, usize)>)
        requires
            self.fits(),
            forall|j: int|
                0 <= j < self.inner_str@.len() ==> call_requires(needle, (self.inner_str@[j],)),
        ensures
            match r {
                Option::Some((loc, b)) => exists|k: int|
                    {
                        &&& 0 <= k < self.inner_str@.len()
                        &&& #[trigger] call_ensures(needle, (self.inner_str@[k],), true)
                        &&& forall|j: int|
                            0 <= j < k ==> call_ensures(needle, (self.inner_str@[j],), false)
                        &&& loc@ == advance(self.start_location@, self.inner_str@.take(k))
                        &&& b as int == byte_index(self.inner_str@, k)
                    },
                Option::None => forall|j: int|
                    0 <= j < self.inner_str@.len() ==> call_ensures(
                        needle,
                        (self.inner_str@[j],),
                        false,
                    ),
            },
    {
        let ghost s = self.inner_str@;
        let ghost l0 = self.start_location@;
        let total = self.inner_str.as_bytes().len();
        let mut rest: &'a str = self.inner_str;
        let mut loc: TextLocation = self.start_location;
        let mut b: usize = 0;
        let ghost mut k: int = 0;
        proof {
            assert(s.skip(0) =~= s);
            assert(s.take(0) =~= Seq::<char>::empty());
        }
        loop
            invariant
                s == self.inner_str@,
                l0 == self.start_location@,
                0 <= k <= s.len(),
                rest@ == s.skip(k),
                loc@ == advance(l0, s.take(k)),
                b as int == byte_index(s, k),
                total == byte_len(s),
                forall|j: int| 0 <= j < s.len() ==> call_requires(needle, (s[j],)),
                forall|j: int| 0 <= j < k ==> call_ensures(needle, (s[j],), false),
                advance_fits(l0, s),
                0 <= l0.0 && 0 <= l0.1 && 0 <= l0.2,
            ensures
                k == s.len(),
                forall|j: int| 0 <= j < k ==> call_ensures(needle, (s[j],), false),
            decreases s.len() - k,
        {
            if rest.is_empty() {
                break;
            }
            let c = rest.get_char(0);
            proof {
                assert(c == s[k]);
            }
            if needle(c) {
                proof {
                    assert(call_ensures(needle, (self.inner_str@[k],), true));
                }
                return Some((loc, b));
            }
            proof {
                lemma_advance_take_step(l0, s, k);
                lemma_advance_take_bounds(l0, s, k + 1);
                lemma_byte_index_step(s, k);
                lemma_bytes_of_char_range(s, k + 1, s.len() as int);
                assert(s.take(s.len() as int) =~= s);
                crate::chars::lemma_char_utf8_len_bounds(c);
            }
            if c == '\n' {
                loc.line_num = loc.line_num + 1;
                loc.col_num = 0;
            } else {
                loc.col_num = loc.col_num + 1;
            }
            loc.byte_num = loc.byte_num + (c.len_utf8() as u64);
            b = b + c.len_utf8();
            rest = drop_chars(rest, 1);
            proof {
                assert(s.skip(k).skip(1) =~= s.skip(k + 1));
                k = k + 1;
            }
        }
        None
    }
}

/// Searches `haystack` for the earliest match of any needle candidate.
///
/// Returns (byte offset of the match, index of the matched candidate in
/// the candidate list). Candidates are prioritized in order: where two
/// match at the same position, the earlier one wins. A candidate longer
/// than the remaining haystack simply fails to match there.
pub fn find_any_substring(haystack: &str, needle_candidates: &[&str]) -> (r: Option<
    (usize, usize),
>)
    ensures
        match r {
            Option::None => find_any_model(haystack@, needle_candidates.deep_view()) is None,
            Option::Some((b, ci)) => find_any_model(
                haystack@,
                needle_candidates.deep_view(),
            ) matches Some(m) && b as int == byte_index(haystack@, m.0) && ci as int == m.1,
        },
{
    let ghost s = haystack@;
    let ghost nds = needle_candidates.deep_view();
    let total = haystack.as_bytes().len();
    let mut rest: &str = haystack;
    let mut b: usize = 0;
    let ghost mut k: int = 0;
    proof {
        assert(s.skip(0) =~= s);
        assert(s.take(0) =~= Seq::<char>::empty());
    }
    loop
        invariant
            s == haystack@,
            0 <= k <= s.len(),
            rest@ == s.skip(k),
            b as int == byte_index(s, k),
            total == byte_len(s),
            nds == needle_candidates.deep_view(),
            find_from(s, nds, 0) == find_from(s, nds, k),
        ensures
            find_from(s, nds, 0) == find_from(s, nds, k),
            k == s.len(),
        decreases s.len() - k,
    {
        if rest.is_empty() {
            break;
        }
        let mut ci: usize = 0;
        let needle_count = needle_candidates.len();
        while ci < needle_count
            invariant
                s == haystack@,
                0 <= ci <= needle_count,
                needle_count == nds.len(),
                nds == needle_candidates.deep_view(),
                rest@ == s.skip(k),
                0 <= k < s.len(),
                b as int == byte_index(s, k),
                find_from(s, nds, 0) == find_from(s, nds, k),
                forall|i: int| 0 <= i < ci ==> !match_at(s, nds[i], k),
            decreases needle_count - ci,
        {
            if str_starts_with(rest, needle_candidates[ci]) {
                proof {
                    lemma_match_at_skip(s, nds[ci as int], k);
                    lemma_first_needle_at(s, nds, k, ci as int);
                }
                return Some((b, ci));
            }
            proof {
                lemma_match_at_skip(s, nds[ci as int], k);
            }
            ci += 1;
        }
        proof {
            lemma_first_needle_at(s, nds, k, nds.len() as int);
        }
        let c = rest.get_char(0);
        proof {
            assert(c == s[k]);
            lemma_byte_index_step(s, k);
            lemma_bytes_of_char_range(s, k + 1, s.len() as int);
            assert(s.take(s.len() as int) =~= s);
            crate::chars::lemma_char_utf8_len_bounds(c);
        }
        b = b + c.len_utf8();
        rest = drop_chars(rest, 1);
        proof {
            assert(s.skip(k).skip(1) =~= s.skip(k + 1));
            k = k + 1;
        }
    }
    None
}

impl<'a> From<&'a str> for LocatedStr<'a> {
    fn from(value: &'a str) -> (r: Self) {
        LocatedStr {
            inner_str: value,
            start_location: TextLocation { line_num: 0, col_num: 0, byte_num: 0 },
        }
    }
}

impl<'a> vstd::std_specs::convert::FromSpecImpl<&'a str> for LocatedStr<'a> {
    open spec fn obeys_from_spec() -> bool {
        true
    }

    open spec fn from_spec(value: &'a str) -> LocatedStr<'a> {
        LocatedStr {
            inner_str: value,
            start_location: TextLocation { line_num: 0, col_num: 0, byte_num: 0 },
        }
    }
}

impl<'a> From<(&'a str, TextLocation)> for LocatedStr<'a> {
    fn from(value: (&'a str, TextLocation)) -> (r: Self) {
        LocatedStr { inner_str: value.0, start_location: value.1 }
    }
}

impl<'a> vstd::std_specs::convert::FromSpecImpl<(&'a str, TextLocation)> for LocatedStr<'a> {
    open spec fn obeys_from_spec() -> bool {
        true
    }

    open spec fn from_spec(value: (&'a str, TextLocation)) -> LocatedStr<'a> {
        LocatedStr { inner_str: value.0, start_location: value.1 }
    }
}

} // verus!
