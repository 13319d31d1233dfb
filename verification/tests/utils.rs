use locscan::utils::find_any_substring;
use locscan::utils::LocatedStr;
use locscan::utils::TextLocation;

#[test]
fn test_find_any_substr() {
    let test_cases: &[(&str, (u64, u64, u64), &[&str], ((u64, u64, u64), usize, usize))] =
        &[("test", (1, 1, 3), &["s", "e"], ((1, 2, 4), 1, 1))];
    for (s, lt, ns, ot) in test_cases {
        assert_eq!(
            LocatedStr {
                inner_str: s,
                start_location: (*lt).into(),
            }
            .find_any_substr(ns),
            Some((ot.0.into(), ot.1, ot.2))
        );
    }
}

#[test]
fn test_find_with_fn() {
    let test_cases: &[(&str, &dyn Fn(char) -> bool, (u64, u64, u64))] = &[
        ("Test String!", &|c| c == 'S', (0, 5, 5)),
        ("Multi\nLine", &|c| c == 'L', (1, 0, 6)),
    ];

    for (tstr, tneedle, toutput) in test_cases.iter() {
        assert_eq!(
            LocatedStr {
                inner_str: tstr,
                start_location: TextLocation::default(),
            }
            .find_with_fn(tneedle)
            .unwrap(),
            (TextLocation::from(*toutput), toutput.2 as usize)
        );
    }
}

#[test]
fn test_get_unchecked() {
    let s = "This is the complete thing!\nLine";
    assert_eq!(
        LocatedStr {
            inner_str: s,
            start_location: (1u64, 0u64, 12u64).into(),
        }
        .get_unchecked(0..s.len()),
        LocatedStr {
            inner_str: "This is the complete thing!\nLine",
            start_location: (1u64, 0u64, 12u64).into(),
        }
    );
    let s = "Line 1\nLine 2 desired";
    assert_eq!(
        LocatedStr {
            inner_str: s,
            start_location: (0u64, 0u64, 0u64).into(),
        }
        .get_unchecked(14..s.len()),
        LocatedStr {
            inner_str: "desired",
            start_location: (1u64, 7u64, 14u64).into(),
        }
    );
}

#[test]
fn test_trim_start() {
    let test_cases: &[((&str, (u64, u64, u64)), LocatedStr)] = &[
        (
            ("   \t\r lol", (0, 0, 0)),
            LocatedStr {
                inner_str: "lol",
                start_location: TextLocation::new(0, 6, 6),
            },
        ),
        (
            (" \r\n\n start!", (0, 0, 0)),
            LocatedStr {
                inner_str: "start!",
                start_location: TextLocation::new(2, 1, 5),
            },
        ),
        (
            (" ", (0, 0, 0)),
            LocatedStr {
                inner_str: "",
                start_location: TextLocation::new(0, 1, 1),
            },
        ),
    ];

    for ((tstr, start_loc), desired_result) in test_cases.iter() {
        let ls = LocatedStr {
            inner_str: tstr,
            start_location: (*start_loc).into(),
        }
        .trim_start();
        assert_eq!(&ls, desired_result);
    }
}

#[test]
fn test_find_any_substring() {
    let test_cases: &[((&str, &[&str]), Option<(usize, usize)>)] = &[
        (("this is a test", &["aa", "a", "e"]), Some((8, 1))),
        (("none", &["z"]), None),
        (("zabp", &["ab", "a"]), Some((1, 0))),
        (
            (
                "Inspired by a bug in CppCommentIter",
                &["verylongneedle", "Iter"],
            ),
            Some((31, 1)),
        ),
    ];
    for ((h, n), r) in test_cases {
        assert_eq!(find_any_substring(h, n), *r);
    }
}

#[test]
fn test_trim_start_all_whitespace() {
    // Trimming a slice that is entirely whitespace yields an empty slice
    // anchored at the end-of-input location.
    let ls = LocatedStr::new("  \n ").trim_start();
    assert_eq!(ls.inner_str, "");
    assert_eq!(ls.start_location, TextLocation::new(1, 1, 4));
}

#[test]
fn test_get_unchecked_multibyte_prefix() {
    // The preceding text holds 2-byte and 3-byte characters: the column
    // counts characters while the byte offset counts UTF-8 bytes.
    let s = "\u{00e9}\u{20ac}x tail";
    // The first character is 2 bytes and the second is 3, so "tail" is
    // the fifth character but starts at byte 7.
    let ls = LocatedStr::new(s).get_unchecked(7..s.len());
    assert_eq!(ls.inner_str, "tail");
    assert_eq!(ls.start_location, TextLocation::new(0, 4, 7));
}

#[test]
fn test_find_with_fn_not_found() {
    let ls = LocatedStr::new("abc");
    assert_eq!(ls.find_with_fn(|c: char| c == 'z'), None);
}

#[test]
fn test_new_and_new_with_loc() {
    let a = LocatedStr::new("body");
    assert_eq!(a.inner_str, "body");
    assert_eq!(a.start_location, TextLocation::default());
    let b = LocatedStr::new_with_loc("body", 3, 4, 5);
    assert_eq!(b.start_location, TextLocation::new(3, 4, 5));
    let c: LocatedStr = "body".into();
    assert_eq!(a, c);
}
