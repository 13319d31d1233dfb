//! The macro token scanner: a lazy sequence that classifies the remaining
//! source into alphanumeric runs, single-character symbols and the
//! configured terminator, each tagged with the exact location at which it
//! begins.
//!
//! Every call of [`LocatedStrMacroTokenIter::next`] is pinned to the pure
//! step function [`token_step`]: what token comes out and what remains of
//! the source are both stated over the character sequence and the
//! location triple alone.

pub mod utils;

use crate::chars::char_alphanumeric;
use crate::utils::advance;
use crate::utils::byte_index;
use crate::utils::byte_len;
use crate::utils::drop_chars;
use crate::utils::lemma_byte_index_step;
use crate::utils::lemma_match_at_skip;
use crate::utils::lemma_slice_chars;
use crate::utils::match_at;
use crate::utils::seq_starts_with;
use crate::utils::str_starts_with;
use crate::utils::trim_model;
use crate::utils::ws_prefix_len;
use crate::utils::LocatedStr;
use crate::utils::TextLocation;
use vstd::prelude::*;

verus! {

/// The two marker strings of the format: the marker that starts a macro
/// and the terminator that ends one. Only the terminator is consulted by
/// the scanning algorithm; the start marker is reserved configuration
/// surface.
#[derive(Clone, Copy, Debug, Eq, Hash, PartialEq)]
pub struct SyntaxSettings<'a> {
    pub macro_start_ident: &'a str,
    pub macro_end_ident: &'a str,
}

impl<'a> Default for SyntaxSettings<'a> {
    /// The default markers: `"#"` starts a macro and `";"` ends it.
    fn default() -> (r: Self)
        ensures
            r.macro_start_ident@ == "#"@,
            r.macro_end_ident@ == ";"@,
    {
        SyntaxSettings { macro_start_ident: "#", macro_end_ident: ";" }
    }
}

/// One token of the macro token stream.
#[derive(Clone, Debug, Eq, Hash, PartialEq)]
pub enum MacroTokenResult<'a> {
    /// A maximal run of alphanumeric characters.
    AlphanumStringToken(LocatedStr<'a>),
    /// A single non-alphanumeric character.
    SymbolToken(LocatedStr<'a>),
    /// The terminator marker; tagged with the location before it.
    Terminator(TextLocation),
}

/// The abstract form of one token: its text (where it has one) and the
/// location at which it begins.
pub enum TokenModel {
    Alphanum(Seq<char>, (int, int, int)),
    Symbol(Seq<char>, (int, int, int)),
    Terminator((int, int, int)),
}

/// The character index at which an alphanumeric run that is still open at
/// index `i` ends: the first position at or after `i` holding a
/// non-alphanumeric character or the start of a terminator match, or the
/// end of the text.
pub open spec fn alnum_run_end(t: Seq<char>, term: Seq<char>, i: int) -> int
    decreases t.len() - i,
{
    if i < 0 || i >= t.len() {
        t.len() as int
    } else if !char_alphanumeric(t[i]) || match_at(t, term, i) {
        i
    } else {
        alnum_run_end(t, term, i + 1)
    }
}

/// One step of the token scanner on `(text, loc)` with terminator `term`:
/// the token it yields, if any, and the remaining text and location.
/// After trimming whitespace: an empty remainder is exhaustion; a
/// terminator match at the front yields `Terminator` tagged with the
/// location before it; a non-alphanumeric first character yields it alone
/// as `Symbol`; otherwise the maximal alphanumeric run, cut short where a
/// terminator begins matching, is yielded as `Alphanum`.
pub open spec fn token_step(text: Seq<char>, loc: (int, int, int), term: Seq<char>) -> (Option<
    TokenModel,
>, (Seq<char>, (int, int, int))) {
    let t = trim_model(text, loc).0;
    let tl = trim_model(text, loc).1;
    if t.len() == 0 {
        (None, (t, tl))
    } else if seq_starts_with(t, term) {
        (
            Some(TokenModel::Terminator(tl)),
            (t.skip(term.len() as int), advance(tl, t.take(term.len() as int))),
        )
    } else if !char_alphanumeric(t[0]) {
        (Some(TokenModel::Symbol(t.take(1), tl)), (t.skip(1), advance(tl, t.take(1))))
    } else {
        let e = alnum_run_end(t, term, 1);
        (Some(TokenModel::Alphanum(t.take(e), tl)), (t.skip(e), advance(tl, t.take(e))))
    }
}

/// The run end lies between `i` and the end of the text.
pub proof fn lemma_alnum_run_end_range(t: Seq<char>, term: Seq<char>, i: int)
    requires
        0 <= i <= t.len(),
    ensures
        i <= alnum_run_end(t, term, i) <= t.len(),
    decreases t.len() - i,
{
    if i < t.len() && char_alphanumeric(t[i]) && !match_at(t, term, i) {
        lemma_alnum_run_end_range(t, term, i + 1);
    }
}

/// The lazy macro token sequence over a located slice.
#[derive(Clone, Debug, Eq, Hash, PartialEq)]
pub struct LocatedStrMacroTokenIter<'a, 'b> {
    pub source_remaining: LocatedStr<'a>,
    pub syntax_settings: SyntaxSettings<'b>,
}

impl<'a, 'b> LocatedStrMacroTokenIter<'a, 'b> {
    /// A token scanner over `source` with the default syntax markers.
    pub fn new_with_default_syntax(source: LocatedStr<'a>) -> (r: LocatedStrMacroTokenIter<
        'a,
        'static,
    >)
        ensures
            r.source_remaining == source,
            r.syntax_settings.macro_end_ident@ == ";"@,
            r.syntax_settings.macro_start_ident@ == "#"@,
    {
        LocatedStrMacroTokenIter {
            source_remaining: source,
            syntax_settings: SyntaxSettings::default(),
        }
    }

    /// Produces the next token, or `None` once the remaining source is
    /// exhausted. Exactly one step of [`token_step`]: the token returned
    /// and the source remaining afterward are both the ones the model
    /// gives for the state before the call.
    pub fn next(&mut self) -> (r: Option<MacroTokenResult<'a>>)
        requires
            old(self).source_remaining.fits(),
        ensures
            final(self).source_remaining.fits(),
            final(self).syntax_settings == old(self).syntax_settings,
            ({
                let (out, st) = token_step(
                    old(self).source_remaining.inner_str@,
                    old(self).source_remaining.start_location@,
                    old(self).syntax_settings.macro_end_ident@,
                );
                &&& final(self).source_remaining.inner_str@ == st.0
                &&& final(self).source_remaining.start_location@ == st.1
                &&& match (r, out) {
                    (Option::None, Option::None) => true,
                    (
                        Option::Some(MacroTokenResult::Terminator(loc)),
                        Option::Some(TokenModel::Terminator(ml)),
                    ) => loc@ == ml,
                    (
                        Option::Some(MacroTokenResult::SymbolToken(ls)),
                        Option::Some(TokenModel::Symbol(mt, ml)),
                    ) => ls.inner_str@ == mt && ls.start_location@ == ml,
                    (
                        Option::Some(MacroTokenResult::AlphanumStringToken(ls)),
                        Option::Some(TokenModel::Alphanum(mt, ml)),
                    ) => ls.inner_str@ == mt && ls.start_location@ == ml,
                    _ => false,
                }
            }),
    {
        let t = self.source_remaining.trim_start();
        self.source_remaining = t;
        let ghost tv = t.inner_str@;
        let ghost tl = t.start_location@;
        let ghost term = self.syntax_settings.macro_end_ident@;
        if t.inner_str.is_empty() {
            return None;
        }
        let total = t.inner_str.as_bytes().len();
        let end_ident = self.syntax_settings.macro_end_ident;
        if str_starts_with(t.inner_str, end_ident) {
            let terminator_loc = t.start_location;
            let tlen = end_ident.as_bytes().len();
            proof {
                lemma_slice_chars(tv, term.len() as int, tv.len() as int);
                assert(tv.take(term.len() as int) == term);
                assert(byte_index(tv, term.len() as int) == byte_len(term));
                assert(tv.subrange(term.len() as int, tv.len() as int) =~= tv.skip(
                    term.len() as int,
                ));
            }
            self.source_remaining = t.get_unchecked(tlen..total);
            return Some(MacroTokenResult::Terminator(terminator_loc));
        }
        let first_char = t.inner_str.get_char(0);
        if !first_char.is_alphanumeric() {
            let char_len = first_char.len_utf8();
            proof {
                lemma_slice_chars(tv, 0, 1);
                lemma_slice_chars(tv, 1, tv.len() as int);
                lemma_byte_index_step(tv, 0);
                assert(tv.take(0) =~= Seq::<char>::empty());
                assert(byte_index(tv, 0) == 0);
                assert(tv.subrange(0, 1) =~= tv.take(1));
                assert(tv.subrange(1, tv.len() as int) =~= tv.skip(1));
            }
            let output = t.get_unchecked(0..char_len);
            self.source_remaining = t.get_unchecked(char_len..total);
            return Some(MacroTokenResult::SymbolToken(output));
        }
        let mut rest = drop_chars(t.inner_str, 1);
        let mut i: usize = 1;
        let mut b: usize = first_char.len_utf8();
        proof {
            lemma_byte_index_step(tv, 0);
            assert(tv.take(0) =~= Seq::<char>::empty());
            assert(byte_index(tv, 0) == 0);
        }
        loop
            invariant
                end_ident@ == term,
                1 <= i <= tv.len(),
                rest@ == tv.skip(i as int),
                b as int == byte_index(tv, i as int),
                total as int == byte_len(tv),
                alnum_run_end(tv, term, 1) == alnum_run_end(tv, term, i as int),
            ensures
                1 <= i <= tv.len(),
                b as int == byte_index(tv, i as int),
                i as int == alnum_run_end(tv, term, 1),
            decreases tv.len() - i,
        {
            if rest.is_empty() {
                break;
            }
            let c = rest.get_char(0);
            proof {
                assert(c == tv[i as int]);
            }
            if !c.is_alphanumeric() {
                break;
            }
            if str_starts_with(rest, end_ident) {
                proof {
                    lemma_match_at_skip(tv, term, i as int);
                }
                break;
            }
            proof {
                lemma_match_at_skip(tv, term, i as int);
                lemma_byte_index_step(tv, i as int);
                lemma_slice_chars(tv, i as int + 1, tv.len() as int);
                assert(tv.skip(i as int).skip(1) =~= tv.skip(i as int + 1));
                crate::utils::lemma_byte_len_ge_len(tv);
            }
            b = b + c.len_utf8();
            rest = drop_chars(rest, 1);
            i = i + 1;
        }
        proof {
            lemma_slice_chars(tv, 0, i as int);
            lemma_slice_chars(tv, i as int, tv.len() as int);
            assert(byte_index(tv, 0) == 0) by {
                assert(tv.take(0) =~= Seq::<char>::empty());
            }
            assert(tv.subrange(0, i as int) =~= tv.take(i as int));
            assert(tv.subrange(i as int, tv.len() as int) =~= tv.skip(i as int));
        }
        let output = t.get_unchecked(0..b);
        self.source_remaining = t.get_unchecked(b..total);
        Some(MacroTokenResult::AlphanumStringToken(output))
    }
}

/// The location at which a token begins.
pub open spec fn token_loc(tm: TokenModel) -> (int, int, int) {
    match tm {
        TokenModel::Alphanum(_, l) => l,
        TokenModel::Symbol(_, l) => l,
        TokenModel::Terminator(l) => l,
    }
}

/// The byte length of a token: the encoded length of its text, or of the
/// terminator marker for a terminator token.
pub open spec fn token_byte_len(tm: TokenModel, term: Seq<char>) -> int {
    match tm {
        TokenModel::Alphanum(t, _) => byte_len(t),
        TokenModel::Symbol(t, _) => byte_len(t),
        TokenModel::Terminator(_) => byte_len(term),
    }
}

/// Exhaustion of the token scanner is idempotent: a state on which the
/// step yields no token is a fixed point, so every later step yields no
/// token either.
pub proof fn lemma_token_exhaustion_idempotent(text: Seq<char>, loc: (int, int, int), term: Seq<
    char,
>)
    ensures
        ({
            let (out, st) = token_step(text, loc, term);
            out is None ==> token_step(st.0, st.1, term) == (out, st)
        }),
{
    let (out, st) = token_step(text, loc, term);
    if out is None {
        crate::utils::lemma_trim_model_idempotent(text, loc);
    }
}

/// Token locations are monotone: where one step yields a token and the
/// next step yields another, the byte offset of the second token is at
/// least the byte offset of the first plus the first's byte length.
pub proof fn lemma_token_locations_monotonic(
    text: Seq<char>,
    loc: (int, int, int),
    term: Seq<char>,
)
    ensures
        ({
            let (out1, st1) = token_step(text, loc, term);
            let (out2, st2) = token_step(st1.0, st1.1, term);
            out1 matches Some(t1) ==> out2 matches Some(t2) ==> token_loc(t2).2 >= token_loc(
                t1,
            ).2 + token_byte_len(t1, term)
        }),
{
    let (out1, st1) = token_step(text, loc, term);
    let (out2, st2) = token_step(st1.0, st1.1, term);
    if out1 is Some && out2 is Some {
        let t = trim_model(text, loc).0;
        let tl = trim_model(text, loc).1;
        let t1 = out1->Some_0;
        if seq_starts_with(t, term) {
            crate::utils::lemma_advance_closed(tl, t.take(term.len() as int));
            assert(t.take(term.len() as int) == term);
        } else if !char_alphanumeric(t[0]) {
            crate::utils::lemma_advance_closed(tl, t.take(1));
        } else {
            let e = alnum_run_end(t, term, 1);
            lemma_alnum_run_end_range(t, term, 1);
            crate::utils::lemma_advance_closed(tl, t.take(e));
        }
        assert(st1.1.2 == token_loc(t1).2 + token_byte_len(t1, term));
        let p2 = st1.0.take(ws_prefix_len(st1.0));
        crate::utils::lemma_ws_prefix_chars(st1.0);
        crate::utils::lemma_advance_closed(st1.1, p2);
        crate::utils::lemma_byte_len_ge_len(p2);
        assert(token_loc(out2->Some_0).2 == trim_model(st1.0, st1.1).1.2);
    }
}

/// A combined scanner that interleaves comment scanning and macro token
/// scanning over one source; declared alongside the scanners it is built
/// from.
#[derive(Clone, Debug, Eq, Hash, PartialEq)]
pub struct TotalMacroTokenIter<'a, 'b> {
    pub source_remaining: LocatedStr<'a>,
    pub maybe_current_cpp_comment_iter: Option<utils::CppCommentIter<'a, 'b>>,
    pub current_macro_token_iter: LocatedStrMacroTokenIter<'a, 'b>,
    pub syntax_settings: SyntaxSettings<'b>,
}

} // verus!
