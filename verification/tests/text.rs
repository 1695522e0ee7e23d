use extractor::text::{
    char_is_space, chars_eq, chars_lt, chars_of, contains, copy_strings, join, matches_at,
    remove_all, replace_char, slice_of, split, starts_with, str_eq, string_of, trim, words,
};

fn c(s: &str) -> Vec<char> {
    s.chars().collect()
}

#[test]
fn strings_and_characters_convert() {
    assert_eq!(chars_of("a│b"), vec!['a', '│', 'b']);
    assert_eq!(chars_of(""), Vec::<char>::new());
    assert_eq!(string_of(&vec!['é', 'x']), "éx");
    assert!(str_eq("abc", "abc"));
    assert!(!str_eq("abc", "abd"));
    assert!(!str_eq("abc", "ab"));
    assert!(chars_eq(&c("ab"), &c("ab")));
    assert!(!chars_eq(&c("ab"), &c("abc")));
    assert_eq!(copy_strings(&vec!["a".to_string(), "b".to_string()]), vec!["a", "b"]);
    assert_eq!(slice_of(&c("hello"), 1, 3), c("el"));
}

#[test]
fn white_space_is_what_std_calls_white_space() {
    let mut n: u32 = 0;
    while n <= 0x10FFFF {
        if let Some(ch) = char::from_u32(n) {
            assert_eq!(char_is_space(ch), ch.is_whitespace(), "code point {n:#x}");
        }
        n += 1;
    }
}

#[test]
fn trimming_agrees_with_std() {
    for s in ["", " ", "  a b  ", "\t\r\nx\u{3000}", "x", " x", "x ", "\u{85}\u{a0}"] {
        assert_eq!(string_of(&trim(&c(s))), s.trim(), "{s:?}");
    }
}

#[test]
fn searching_agrees_with_std() {
    let cases = [("", ""), ("abc", ""), ("", "a"), ("abcabc", "bc"), ("aaa", "aaaa"), ("ab", "ab"), ("xab", "ab"), ("abx", "b")];
    for (s, p) in cases {
        assert_eq!(contains(&c(s), &c(p)), s.contains(p), "{s:?} {p:?}");
        assert_eq!(starts_with(&c(s), &c(p)), s.starts_with(p), "{s:?} {p:?}");
    }
    assert!(matches_at(&c("abc"), 1, &c("bc")));
    assert!(!matches_at(&c("abc"), 2, &c("bc")));
    assert!(matches_at(&c("abc"), 3, &c("")));
    assert!(!matches_at(&c("abc"), 4, &c("")));
}

#[test]
fn removal_agrees_with_std_replace() {
    let cases = [("--[[--x", "--"), ("aaa", "aa"), ("ababa", "aba"), ("abc", "x"), ("", "x"), ("xyz", ""), ("a*b*", "*"), ("----", "--"), ("-", "--")];
    for (s, p) in cases {
        if p.is_empty() {
            assert_eq!(string_of(&remove_all(&c(s), &c(p))), s);
        } else {
            assert_eq!(string_of(&remove_all(&c(s), &c(p))), s.replace(p, ""), "{s:?} {p:?}");
        }
    }
    assert_eq!(string_of(&replace_char(&c("a/b/c"), '/', '-')), "a-b-c");
}

#[test]
fn splitting_and_joining_agree_with_std() {
    for s in ["", "a", "a b", " a  b ", "a\nb\n", "\n"] {
        for sep in [' ', '\n'] {
            let pieces: Vec<String> = split(&c(s), sep).iter().map(string_of).collect();
            let expected: Vec<&str> = s.split(sep).collect();
            assert_eq!(pieces, expected, "{s:?} {sep:?}");
            assert_eq!(string_of(&join(&split(&c(s), sep), sep)), s);
        }
    }
    assert_eq!(string_of(&join(&vec![], ',')), "");
    assert_eq!(string_of(&join(&vec![c("a")], ',')), "a");
    assert_eq!(string_of(&join(&vec![c("a"), c(""), c("b")], ',')), "a,,b");
}

#[test]
fn words_agree_with_std() {
    for s in ["", " ", "a", " a  b\tc\n", "a\u{3000}b", "\u{85}x y", "one two three "] {
        let found: Vec<String> = words(&c(s)).iter().map(string_of).collect();
        let expected: Vec<&str> = s.split_whitespace().collect();
        assert_eq!(found, expected, "{s:?}");
    }
}

#[test]
fn order_agrees_with_std() {
    let words = ["", "a", "ab", "b", "B", "é", "MIT", "Apache 2.0", "z\u{10FFFF}", "aa"];
    for x in words {
        for y in words {
            assert_eq!(chars_lt(&c(x), &c(y)), x < y, "{x:?} {y:?}");
        }
    }
}
