use rustdoc_seeker::json::normalize_into;
use rustdoc_seeker::manifest::find;
use rustdoc_seeker::manifest::fragment_bounds;
use rustdoc_seeker::manifest::space;
use rustdoc_seeker::manifest::starts_with;
use rustdoc_seeker::text::chars_of;

fn fragment_of(line: &str) -> Option<String> {
    let chars = chars_of(line);
    fragment_bounds(&chars, 0, chars.len()).map(|(start, end)| chars[start..end].iter().collect())
}

#[test]
fn chars_of_lists_each_character() {
    assert_eq!(chars_of(""), Vec::<char>::new());
    assert_eq!(chars_of("aé\u{1F600}z"), vec!['a', 'é', '\u{1F600}', 'z']);
}

#[test]
fn space_is_white_space() {
    let spaces = [
        '\t', '\n', '\u{b}', '\u{c}', '\r', ' ', '\u{85}', '\u{a0}', '\u{1680}', '\u{2000}',
        '\u{2005}', '\u{200a}', '\u{2028}', '\u{2029}', '\u{202f}', '\u{205f}', '\u{3000}',
    ];
    for c in spaces {
        assert!(space(c), "{:?}", c);
    }
    let others = [
        '\u{8}', '\u{e}', '\u{1f}', '!', 'a', ';', '=', '\u{84}', '\u{86}', '\u{9f}', '\u{a1}',
        '\u{167f}', '\u{1681}', '\u{180e}', '\u{1fff}', '\u{200b}', '\u{2027}', '\u{202a}',
        '\u{202e}', '\u{2030}', '\u{205e}', '\u{2060}', '\u{2fff}', '\u{3001}', '\u{feff}',
    ];
    for c in others {
        assert!(!space(c), "{:?}", c);
    }
    for code in 0..0x11_0000u32 {
        if let Some(c) = char::from_u32(code) {
            assert_eq!(space(c), c.is_whitespace(), "{:?}", c);
        }
    }
}

#[test]
fn find_gives_the_first_place() {
    let chars = chars_of("a=b=c\nd");
    assert_eq!(find(&chars, 0, 7, '='), 1);
    assert_eq!(find(&chars, 1, 7, '='), 1);
    assert_eq!(find(&chars, 2, 7, '='), 3);
    assert_eq!(find(&chars, 4, 7, '='), 7);
    assert_eq!(find(&chars, 0, 1, '='), 1);
    assert_eq!(find(&chars, 0, 0, 'a'), 0);
    assert_eq!(find(&chars, 0, 7, '\n'), 5);
    assert_eq!(find(&chars, 6, 7, '\n'), 7);
    assert_eq!(find(&chars, 7, 7, '\n'), 7);
}

#[test]
fn starts_with_looks_at_the_line_only() {
    let chars = chars_of("xsearchIndex=1\nsearchInde");
    let word = chars_of("searchIndex");
    assert!(!starts_with(&chars, 0, 14, &word));
    assert!(starts_with(&chars, 1, 14, &word));
    assert!(starts_with(&chars, 1, 12, &word));
    assert!(!starts_with(&chars, 1, 11, &word));
    assert!(!starts_with(&chars, 15, 25, &word));
    assert!(starts_with(&chars, 15, 25, &chars_of("searchInde")));
    assert!(starts_with(&chars, 3, 3, &Vec::new()));
}

#[test]
fn fragment_is_what_follows_the_first_equals_sign() {
    assert_eq!(fragment_of("searchIndex"), None);
    assert_eq!(fragment_of(""), None);
    assert_eq!(fragment_of("a="), Some(String::new()));
    assert_eq!(fragment_of("="), Some(String::new()));
    assert_eq!(fragment_of("a = b"), Some("b".to_string()));
    assert_eq!(fragment_of("a=b=c;"), Some("b=c".to_string()));
    assert_eq!(fragment_of("a= \t{} ;; \r"), Some("{} ".to_string()));
    assert_eq!(fragment_of("a=;;;"), Some(String::new()));
    assert_eq!(fragment_of("a=  ;  "), Some(String::new()));
    assert_eq!(fragment_of("a= ; x ;"), Some("; x ".to_string()));
    assert_eq!(fragment_of("a=\u{3000}x\u{a0}"), Some("x".to_string()));
    assert_eq!(fragment_of("a= x; \u{feff}"), Some("x; \u{feff}".to_string()));
}

#[test]
fn fragment_bounds_stay_within_the_line() {
    let chars = chars_of("  one = 1 ;\n two = 2;");
    assert_eq!(fragment_bounds(&chars, 0, 11), Some((8, 10)));
    assert_eq!(fragment_bounds(&chars, 0, 5), None);
    assert_eq!(fragment_bounds(&chars, 0, 7), Some((7, 7)));
    assert_eq!(fragment_bounds(&chars, 12, 21), Some((19, 20)));
    assert_eq!(fragment_bounds(&chars, 7, 21), Some((19, 20)));
}

#[test]
fn normalize_into_appends_the_part() {
    let chars = chars_of("N[N,\"N\"]N");
    let mut out = String::from("> ");
    normalize_into(&mut out, &chars, 1, 8);
    assert_eq!(out, "> [null,\"N\"]");
    normalize_into(&mut out, &chars, 3, 3);
    assert_eq!(out, "> [null,\"N\"]");
    normalize_into(&mut out, &chars, 5, 9);
    assert_eq!(out, "> [null,\"N\"]null\"]N");
}
