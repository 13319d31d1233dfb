use locscan::parsing::utils::CppCommentIter;
use locscan::parsing::LocatedStrMacroTokenIter;
use locscan::parsing::MacroTokenResult;
use locscan::utils::LocatedStr;
use locscan::utils::TextLocation;

#[test]
fn test_iter_impl() {
    let test_cases: &[(&str, (u64, u64, u64), &[(&str, (u64, u64, u64))])] = &[
        (
            "//Starts at line 1\nNAL (Not A Line)",
            (1, 0, 1),
            [("Starts at line 1", (1, 2, 3))].as_slice(),
        ),
        (
            "// Line 1\n// Line 2\nNAL (Not A Line)\n",
            (0, 0, 0),
            &[(" Line 1", (0, 2, 2)), (" Line 2", (1, 2, 12))],
        ),
        (
            " // Barely indented
                    // Very indented",
            (0, 0, 0),
            &[
                (" Barely indented", (0, 3, 3)),
                (" Very indented", (1, 22, 42)),
            ],
        ),
    ];
    for (ts, tsl, ess) in test_cases {
        let mut tested_iter = CppCommentIter::new_with_default_syntax(LocatedStr {
            inner_str: ts,
            start_location: (*tsl).into(),
        });
        let mut expected_iter = ess.iter();
        while let (Some(tsr), Some(es)) = (tested_iter.next(), expected_iter.next()) {
            assert_eq!(
                tsr,
                LocatedStr {
                    inner_str: es.0,
                    start_location: es.1.into(),
                }
            );
        }
        assert_eq!((tested_iter.next(), expected_iter.next()), (None, None));
    }
}

#[test]
fn test_alphanum_and_symbol_tokens() {
    let mut iter = LocatedStrMacroTokenIter::new_with_default_syntax(LocatedStr::new(
        "hi! Test+\nLine2 2Line;",
    ));
    let expected_tokens = [
        MacroTokenResult::AlphanumStringToken(LocatedStr::new("hi")),
        MacroTokenResult::SymbolToken(LocatedStr::new_with_loc("!", 0, 2, 2)),
        MacroTokenResult::AlphanumStringToken(LocatedStr::new_with_loc("Test", 0, 4, 4)),
        MacroTokenResult::SymbolToken(LocatedStr::new_with_loc("+", 0, 8, 8)),
        MacroTokenResult::AlphanumStringToken(LocatedStr::new_with_loc("Line2", 1, 0, 10)),
        MacroTokenResult::AlphanumStringToken(LocatedStr::new_with_loc("2Line", 1, 6, 16)),
        MacroTokenResult::Terminator(TextLocation::new(1, 11, 21)),
    ];
    let results = core::array::from_fn(|_| iter.next().unwrap());
    assert_eq!(iter.next(), None);
    assert_eq!(results, expected_tokens);
}

#[test]
fn test_empty_source_conditions() {
    let test_cases = &["", " ", "\n", "\r\n"];
    for case in test_cases.iter() {
        assert_eq!(
            LocatedStrMacroTokenIter::new_with_default_syntax(LocatedStr::new(case)).next(),
            None
        );
    }
}

#[test]
fn test_find_end_ident_at_start() {
    assert_eq!(
        LocatedStrMacroTokenIter::new_with_default_syntax(LocatedStr::new(";")).next(),
        Some(MacroTokenResult::Terminator(TextLocation::default()))
    );
}

#[test]
fn test_get_symbol_token() {
    let mut iter = LocatedStrMacroTokenIter::new_with_default_syntax(LocatedStr::new(
        "+\u{00a7}&\n-\u{1f600}_;",
    ));
    let mut expected_tokens_iter = [
        ("+", 0u64, 0u64, 0u64),
        ("\u{00a7}", 0, 1, 1),
        ("&", 0, 2, 3),
        ("-", 1, 0, 5),
        ("\u{1f600}", 1, 1, 6),
        ("_", 1, 2, 10),
        (";", 1, 3, 11),
    ]
    .iter()
    .map(|(s, line, col, byte)| {
        if *s != ";" {
            MacroTokenResult::SymbolToken(LocatedStr {
                inner_str: s,
                start_location: (*line, *col, *byte).into(),
            })
        } else {
            MacroTokenResult::Terminator((*line, *col, *byte).into())
        }
    });
    let results: [_; 7] = core::array::from_fn(|_| iter.next());
    let expected_tokens: [_; 7] = core::array::from_fn(|_| expected_tokens_iter.next());
    assert!(iter.next() == None && expected_tokens_iter.next() == None);
    assert_eq!(results, expected_tokens);
}

#[test]
fn test_comment_iter_exhaustion_stays_exhausted() {
    // Once the comment scanner yields end-of-sequence it keeps doing so.
    let mut iter =
        CppCommentIter::new_with_default_syntax(LocatedStr::new("// only\nnot a comment"));
    assert!(iter.next().is_some());
    assert_eq!(iter.next(), None);
    assert_eq!(iter.next(), None);
    assert_eq!(iter.next(), None);
}

#[test]
fn test_token_iter_exhaustion_stays_exhausted() {
    // Once the token scanner yields end-of-sequence it keeps doing so.
    let mut iter = LocatedStrMacroTokenIter::new_with_default_syntax(LocatedStr::new("a;"));
    assert!(iter.next().is_some());
    assert!(iter.next().is_some());
    assert_eq!(iter.next(), None);
    assert_eq!(iter.next(), None);
}

#[test]
fn test_token_locations_monotone() {
    // Each token begins at or after the end of the one before it.
    let mut iter = LocatedStrMacroTokenIter::new_with_default_syntax(LocatedStr::new(
        "ab cd; x\n ef;",
    ));
    let mut previous_end: u64 = 0;
    while let Some(token) = iter.next() {
        let (start, len) = match &token {
            MacroTokenResult::AlphanumStringToken(ls) => {
                (ls.start_location.byte_num, ls.inner_str.len() as u64)
            }
            MacroTokenResult::SymbolToken(ls) => {
                (ls.start_location.byte_num, ls.inner_str.len() as u64)
            }
            MacroTokenResult::Terminator(loc) => (loc.byte_num, 1),
        };
        assert!(start >= previous_end);
        previous_end = start + len;
    }
}

#[test]
fn test_terminator_interrupts_run() {
    let mut iter = LocatedStrMacroTokenIter::new_with_default_syntax(LocatedStr::new("ab;cd"));
    assert_eq!(
        iter.next(),
        Some(MacroTokenResult::AlphanumStringToken(LocatedStr::new("ab")))
    );
    assert_eq!(
        iter.next(),
        Some(MacroTokenResult::Terminator(TextLocation::new(0, 2, 2)))
    );
    assert_eq!(
        iter.next(),
        Some(MacroTokenResult::AlphanumStringToken(LocatedStr::new_with_loc(
            "cd", 0, 3, 3
        )))
    );
    assert_eq!(iter.next(), None);
}

#[test]
fn test_comment_bodies_multibyte() {
    // A 2-byte character inside a comment body moves the byte offset of
    // the next body by two while its column moves by one.
    let mut iter = CppCommentIter::new_with_default_syntax(LocatedStr::new("//\u{00e9}\n//x"));
    assert_eq!(
        iter.next(),
        Some(LocatedStr::new_with_loc("\u{00e9}", 0, 2, 2))
    );
    assert_eq!(iter.next(), Some(LocatedStr::new_with_loc("x", 1, 2, 7)));
    assert_eq!(iter.next(), None);
}

#[test]
fn test_comment_crlf_line_breaks() {
    // "\r\n" is matched as one break, with priority over the bare "\n"
    // inside it, so the body before it keeps its "\r" out.
    let mut iter = CppCommentIter::new_with_default_syntax(LocatedStr::new("//a\r\n//b\r\nc"));
    assert_eq!(iter.next(), Some(LocatedStr::new_with_loc("a", 0, 2, 2)));
    assert_eq!(iter.next(), Some(LocatedStr::new_with_loc("b", 1, 2, 7)));
    assert_eq!(iter.next(), None);
    let remaining = *iter.source_remaining();
    assert_eq!(remaining, LocatedStr::new_with_loc("c", 2, 0, 10));
}

#[test]
fn test_comment_unterminated_last_line() {
    // A comment that meets the end of the input without a line break
    // yields the rest of the slice as its body.
    let mut iter = CppCommentIter::new_with_default_syntax(LocatedStr::new("// tail"));
    assert_eq!(
        iter.next(),
        Some(LocatedStr::new_with_loc(" tail", 0, 2, 2))
    );
    assert_eq!(iter.next(), None);
}
