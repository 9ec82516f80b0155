use std::path::Path;

use pixel_ota::path::{components_of, equal, join, starts_with, strip};
use pixel_ota::text::{
    chars_of, decimal, find, halves, lines, parse_u64, same, space, split, words, Sep,
};

const SAMPLES: [&str; 14] = [
    "",
    "a",
    "\n",
    "\r\n",
    "a\nb",
    "a\r\nb\n",
    "a\n\nb\r",
    "\n\n",
    "x\r\r\ny",
    "  a  b\tc \n",
    "a\u{a0}b\u{3000}c\u{2009}d\u{200b}e",
    "\u{e4}\u{f6} \u{1f600}",
    " ",
    "one two\u{85}three",
];

#[test]
fn white_space_is_that_of_unicode() {
    for n in 0..=0x10ffff_u32 {
        if let Some(c) = char::from_u32(n) {
            assert_eq!(space(c), c.is_whitespace(), "{n:x}");
        }
    }
}

#[test]
fn lines_and_words_agree_with_std() {
    for s in SAMPLES {
        assert_eq!(lines(s), s.lines().collect::<Vec<_>>(), "{s:?}");
        assert_eq!(words(s), s.split_whitespace().collect::<Vec<_>>(), "{s:?}");
        assert_eq!(split(s, Sep::LineFeed), s.split('\n').collect::<Vec<_>>());
        assert_eq!(chars_of(s), s.chars().collect::<Vec<_>>());
    }
}

#[test]
fn search_gives_the_first_position() {
    let s = chars_of("ab\u{e4}abab");
    assert_eq!(find(&s, "ab"), Some(0));
    assert_eq!(find(&s, "ba"), Some(4));
    assert_eq!(find(&s, "\u{e4}"), Some(2));
    assert_eq!(find(&s, "abc"), None);
    assert_eq!(find(&s, ""), Some(0));
    assert_eq!(find(&chars_of(""), ""), Some(0));
    assert_eq!(find(&chars_of(""), "a"), None);
}

#[test]
fn halves_part_at_the_first_dash() {
    assert_eq!(halves("a b - c - d"), Some(("a b", "c - d")));
    assert_eq!(halves(" - "), Some(("", "")));
    assert_eq!(halves("a -b"), None);
    assert_eq!(halves("a-b - "), Some(("a-b", "")));
}

#[test]
fn same_compares_characters() {
    assert!(same("boot", "boot"));
    assert!(!same("boot", "boo"));
    assert!(same("", ""));
}

#[test]
fn numbers_agree_with_std() {
    for s in [
        "", "0", "007", "+5", "+", "-1", "12a", " 1", "1 ", "++1", "18446744073709551615",
        "18446744073709551616", "99999999999999999999999", "\u{661}", "000000000000000000000000001",
    ] {
        assert_eq!(parse_u64(s), s.parse::<u64>().ok(), "{s:?}");
    }
}

#[test]
fn decimal_is_read_back() {
    for n in [0, 1, 9, 10, 99, 100, 4096, 1_000_000_007, u64::MAX] {
        assert_eq!(decimal(n), n.to_string());
        assert_eq!(parse_u64(&decimal(n)), Some(n));
    }
}

const PATHS: [&str; 26] = [
    "/", "//", "/a", "/a/", "/a/b", "/a//b", "/a/./b", "/a/b/.", "/a/b/./", "/./a", "a", "a/b", "./a",
    ".", "./", "a/.", "..", "../a", "/a/..", "/a/../b", ".a", "/.a/b", "/mnt/ud", "/mnt/ud/sub//x/./y/",
    "/mnt/udx", "/m\u{e4}",
];

#[test]
fn prefixes_agree_with_std() {
    for p in PATHS {
        for b in PATHS {
            assert_eq!(starts_with(p, b), Path::new(p).starts_with(b), "{p:?} {b:?}");
            assert_eq!(equal(p, b), Path::new(p) == Path::new(b), "{p:?} {b:?}");
            if let Ok(rel) = Path::new(p).strip_prefix(b) {
                assert_eq!(strip(p, b), rel.to_str().unwrap(), "{p:?} {b:?}");
            }
        }
    }
}

#[test]
fn joins_agree_with_std() {
    for p in PATHS {
        for b in PATHS {
            let joined = Path::new(b).join(p);
            assert_eq!(join(b, p), joined.to_str().unwrap(), "{b:?} {p:?}");
        }
        assert_eq!(join("", p), Path::new("").join(p).to_str().unwrap());
        assert_eq!(join(p, ""), Path::new(p).join("").to_str().unwrap());
    }
}

#[test]
fn components_agree_with_std() {
    for p in PATHS {
        let std_components: Vec<_> = Path::new(p)
            .components()
            .map(|c| c.as_os_str().to_str().unwrap())
            .collect();
        assert_eq!(components_of(p), std_components, "{p:?}");
    }
}

#[test]
fn prefix_and_rest_make_the_path() {
    let (p, b) = ("/mnt/ud/sub//x/./y/", "/mnt/ud");
    let rest = strip(p, b);
    assert_eq!(rest, "sub//x/./y");
    let mut all = components_of(b);
    all.extend(components_of(&rest));
    assert_eq!(all, components_of(p));
    let whole = join("/root", &rest);
    assert_eq!(components_of(&whole), ["/", "root", "sub", "x", "y"]);
}
