//! The comment scanner: a lazy sequence of C++-style line-comment bodies.
//!
//! Starting from a located slice, each step trims leading whitespace,
//! expects `"//"`, and yields the body of that comment line (after the
//! `"//"`, excluding the line break) with its exact location. The
//! sequence stops at the first line that is not a comment. Every call of
//! [`CppCommentIter::next`] is pinned to the pure step function
//! [`comment_step`].

use super::SyntaxSettings;
use crate::utils::advance;
use crate::utils::byte_index;
use crate::utils::byte_len;
use crate::utils::find_any_model;
use crate::utils::find_any_substring;
use crate::utils::lemma_byte_index_step;
use crate::utils::lemma_find_from_some;
use crate::utils::lemma_slice_chars;
use crate::utils::str_starts_with;
use crate::utils::trim_model;
use crate::utils::LocatedStr;
use vstd::prelude::*;

verus! {

/// The two line-break needles, in priority order: `"\r\n"` before
/// `"\n"`, so the `"\n"` of a `"\r\n"` pair is never read as a bare line
/// break of its own.
pub open spec fn line_break_needles() -> Seq<Seq<char>> {
    seq![seq!['\r', '\n'], seq!['\n']]
}

/// One step of the comment scanner on `(text, loc)`: the comment body it
/// yields, if any, with the location of its first character, and the
/// remaining text and location. After trimming whitespace, a remainder
/// that does not begin with `"//"` is exhaustion; otherwise the body is
/// everything after the `"//"` up to the first line break (or the end of
/// the input), and the cursor advances past that break.
pub open spec fn comment_step(text: Seq<char>, loc: (int, int, int)) -> (Option<
    (Seq<char>, (int, int, int)),
>, (Seq<char>, (int, int, int))) {
    let t = trim_model(text, loc).0;
    let tl = trim_model(text, loc).1;
    if !(t.len() >= 2 && t[0] == '/' && t[1] == '/') {
        (None, (t, tl))
    } else {
        let rest = t.skip(2);
        let rl = advance(tl, t.take(2));
        match find_any_model(rest, line_break_needles()) {
            Option::Some(m) => {
                let consumed = m.0 + if m.1 == 0 {
                    2int
                } else {
                    1int
                };
                (Some((rest.take(m.0), rl)), (rest.skip(consumed), advance(rl, rest.take(consumed))))
            },
            Option::None => (Some((rest, rl)), (rest.skip(rest.len() as int), advance(rl, rest))),
        }
    }
}

/// Exhaustion of the comment scanner is idempotent: a state on which the
/// step yields no body is a fixed point, so every later step yields none
/// either.
pub proof fn lemma_comment_exhaustion_idempotent(text: Seq<char>, loc: (int, int, int))
    ensures
        ({
            let (out, st) = comment_step(text, loc);
            out is None ==> comment_step(st.0, st.1) == (out, st)
        }),
{
    let (out, st) = comment_step(text, loc);
    if out is None {
        crate::utils::lemma_trim_model_idempotent(text, loc);
    }
}

/// Comment body locations are monotone: where one step yields a body and
/// the next step yields another, the byte offset of the second body is
/// at least the byte offset of the first plus the first's byte length.
pub proof fn lemma_comment_locations_monotonic(text: Seq<char>, loc: (int, int, int))
    ensures
        ({
            let (out1, st1) = comment_step(text, loc);
            let (out2, st2) = comment_step(st1.0, st1.1);
            out1 matches Some(b1) ==> out2 matches Some(b2) ==> b2.1.2 >= b1.1.2 + byte_len(
                b1.0,
            )
        }),
{
    let (out1, st1) = comment_step(text, loc);
    let (out2, st2) = comment_step(st1.0, st1.1);
    if out1 is Some && out2 is Some {
        let t = trim_model(text, loc).0;
        let tl = trim_model(text, loc).1;
        let rest = t.skip(2);
        let rl = advance(tl, t.take(2));
        lemma_find_from_some(rest, line_break_needles(), 0);
        match find_any_model(rest, line_break_needles()) {
            Option::Some(m) => {
                let consumed = m.0 + if m.1 == 0 {
                    2int
                } else {
                    1int
                };
                assert(line_break_needles()[0].len() == 2);
                assert(line_break_needles()[1].len() == 1);
                assert(rest.take(consumed) =~= rest.take(m.0) + rest.subrange(m.0, consumed));
                crate::utils::lemma_byte_len_concat(rest.take(m.0), rest.subrange(m.0, consumed));
                crate::utils::lemma_byte_len_ge_len(rest.subrange(m.0, consumed));
                crate::utils::lemma_advance_closed(rl, rest.take(consumed));
            },
            Option::None => {
                assert(rest.take(rest.len() as int) =~= rest);
                crate::utils::lemma_advance_closed(rl, rest);
            },
        }
        let t2 = trim_model(st1.0, st1.1).0;
        let tl2 = trim_model(st1.0, st1.1).1;
        let p2 = st1.0.take(crate::utils::ws_prefix_len(st1.0));
        crate::utils::lemma_ws_prefix_chars(st1.0);
        crate::utils::lemma_advance_closed(st1.1, p2);
        crate::utils::lemma_byte_len_ge_len(p2);
        crate::utils::lemma_advance_closed(tl2, t2.take(2));
        crate::utils::lemma_byte_len_ge_len(t2.take(2));
    }
}

/// The lazy comment-body sequence over a located slice. It expects the
/// first non-whitespace characters to be `//` and stops when it meets
/// the end of the input or anything that is not a comment line.
#[derive(Clone, Debug, Eq, Hash, PartialEq)]
pub struct CppCommentIter<'a, 'b> {
    pub source_remaining: LocatedStr<'a>,
    pub syntax_settings: SyntaxSettings<'b>,
}

impl<'a, 'b> CppCommentIter<'a, 'b> {
    /// A comment scanner over `source` with the default syntax markers.
    pub fn new_with_default_syntax(source: LocatedStr<'a>) -> (r: CppCommentIter<'a, 'static>)
        ensures
            r.source_remaining == source,
            r.syntax_settings.macro_end_ident@ == ";"@,
            r.syntax_settings.macro_start_ident@ == "#"@,
    {
        CppCommentIter { source_remaining: source, syntax_settings: SyntaxSettings::default() }
    }

    /// The source not yet consumed by the scanner.
    pub fn source_remaining(&self) -> (r: &LocatedStr<'a>)
        ensures
            *r == self.source_remaining,
    {
        &self.source_remaining
    }

    /// Produces the next comment body, or `None` once the run of comment
    /// lines has ended. Exactly one step of [`comment_step`]: the body
    /// returned and the source remaining afterward are both the ones the
    /// model gives for the state before the call.
    pub fn next(&mut self) -> (r: Option<LocatedStr<'a>>)
        requires
            old(self).source_remaining.fits(),
        ensures
            final(self).source_remaining.fits(),
            final(self).syntax_settings == old(self).syntax_settings,
            ({
                let (out, st) = comment_step(
                    old(self).source_remaining.inner_str@,
                    old(self).source_remaining.start_location@,
                );
                &&& final(self).source_remaining.inner_str@ == st.0
                &&& final(self).source_remaining.start_location@ == st.1
                &&& match (r, out) {
                    (Option::None, Option::None) => true,
                    (Option::Some(ls), Option::Some(body)) => ls.inner_str@ == body.0
                        && ls.start_location@ == body.1,
                    _ => false,
                }
            }),
    {
        let t = self.source_remaining.trim_start();
        self.source_remaining = t;
        let ghost tv = t.inner_str@;
        let ghost tl = t.start_location@;
        proof {
            reveal_strlit("//");
            assert("//"@ =~= seq!['/', '/']);
        }
        if !str_starts_with(t.inner_str, "//") {
            proof {
                if tv.len() >= 2 && tv[0] == '/' && tv[1] == '/' {
                    assert(tv.take(2) =~= "//"@);
                }
            }
            return None;
        }
        proof {
            assert(tv.take(2) == "//"@);
            assert(tv[0] == '/' && tv[1] == '/') by {
                assert(tv.take(2)[0] == tv[0]);
                assert(tv.take(2)[1] == tv[1]);
            }
            assert(tv.take(0) =~= Seq::<char>::empty());
            assert(byte_index(tv, 0) == 0);
            lemma_byte_index_step(tv, 0);
            lemma_byte_index_step(tv, 1);
            lemma_slice_chars(tv, 2, tv.len() as int);
            assert(tv.subrange(2, tv.len() as int) =~= tv.skip(2));
        }
        let total = t.inner_str.as_bytes().len();
        let after = t.get_unchecked(2..total);
        let ghost rv = after.inner_str@;
        let ghost rl = after.start_location@;
        let inner_len = after.inner_str.as_bytes().len();
        let mut needles: Vec<&str> = Vec::new();
        needles.push("\r\n");
        needles.push("\n");
        let nsl = needles.as_slice();
        proof {
            reveal_strlit("\r\n");
            reveal_strlit("\n");
            assert("\r\n"@ =~= seq!['\r', '\n']);
            assert("\n"@ =~= seq!['\n']);
            assert(nsl.deep_view() =~= line_break_needles());
        }
        let found = find_any_substring(after.inner_str, nsl);
        let ghost m = find_any_model(rv, line_break_needles());
        proof {
            lemma_find_from_some(rv, line_break_needles(), 0);
        }
        let (line_end_idx, next_line_idx) = match found {
            Option::Some((idx, needle)) => {
                proof {
                    let k = m->Some_0.0;
                    assert(rv.subrange(k, k + line_break_needles()[m->Some_0.1].len() as int)
                        == line_break_needles()[m->Some_0.1]);
                    if m->Some_0.1 == 0 {
                        assert(rv[k] == '\r' && rv[k + 1] == '\n') by {
                            assert(rv.subrange(k, k + 2)[0] == rv[k]);
                            assert(rv.subrange(k, k + 2)[1] == rv[k + 1]);
                        }
                        lemma_byte_index_step(rv, k);
                        lemma_byte_index_step(rv, k + 1);
                        lemma_slice_chars(rv, k + 2, rv.len() as int);
                    } else {
                        assert(rv[k] == '\n') by {
                            assert(rv.subrange(k, k + 1)[0] == rv[k]);
                        }
                        lemma_byte_index_step(rv, k);
                        lemma_slice_chars(rv, k + 1, rv.len() as int);
                    }
                }
                if needle == 0 {
                    (idx, idx + 2)
                } else {
                    (idx, idx + 1)
                }
            },
            Option::None => (inner_len, inner_len),
        };
        let ghost consumed: int = match m {
            Option::Some(mm) => mm.0 + if mm.1 == 0 {
                2int
            } else {
                1int
            },
            Option::None => rv.len() as int,
        };
        let ghost body_end: int = match m {
            Option::Some(mm) => mm.0,
            Option::None => rv.len() as int,
        };
        proof {
            lemma_slice_chars(rv, 0, body_end);
            lemma_slice_chars(rv, consumed, rv.len() as int);
            assert(byte_index(rv, 0) == 0) by {
                assert(rv.take(0) =~= Seq::<char>::empty());
            }
            assert(line_end_idx as int == byte_index(rv, body_end));
            assert(next_line_idx as int == byte_index(rv, consumed));
            assert(rv.subrange(0, body_end) =~= rv.take(body_end));
            assert(rv.subrange(consumed, rv.len() as int) =~= rv.skip(consumed));
        }
        let output = after.get_unchecked(0..line_end_idx);
        self.source_remaining = after.get_unchecked(next_line_idx..inner_len);
        proof {
            if m is None {
                assert(rv.take(rv.len() as int) =~= rv);
            }
        }
        Some(output)
    }
}

} // verus!
