use rustle::text::{chars_of, contains, find_top_level, is_whitespace, le_text, string_of, trim};

fn v(s: &str) -> Vec<char> {
    s.chars().collect()
}

#[test]
fn white_space_is_what_the_standard_library_says() {
    for n in 0u32..0x3100 {
        if let Some(c) = char::from_u32(n) {
            assert_eq!(is_whitespace(c), c.is_whitespace(), "U+{:04X}", n);
        }
    }
}

#[test]
fn text_goes_to_characters_and_back() {
    assert_eq!(chars_of("a→b"), vec!['a', '→', 'b']);
    assert_eq!(string_of(&v("a→b")), "a→b");
    assert_eq!(string_of(&trim(&v(" \t a b \n"))), "a b");
    assert_eq!(string_of(&trim(&v("   "))), "");
}

#[test]
fn search_in_text() {
    assert!(contains(&v("foo"), &v("fo")));
    assert!(contains(&v("foo"), &v("")));
    assert!(contains(&v("foo"), &v("oo")));
    assert!(!contains(&v("foo"), &v("of")));
    assert!(!contains(&v("fo"), &v("foo")));
    assert_eq!(find_top_level(&v("a(b)<d"), '<'), 4);
    assert_eq!(find_top_level(&v("a(b<c)<d"), '<'), 8);
    assert_eq!(find_top_level(&v("fn(a)->b<c"), '<'), 8);
    assert_eq!(find_top_level(&v("(a<b)"), '<'), 5);
}

#[test]
fn text_is_ordered_by_code_point() {
    assert!(le_text(&v("abc"), &v("abd")));
    assert!(le_text(&v("ab"), &v("abc")));
    assert!(le_text(&v(""), &v("")));
    assert!(!le_text(&v("b"), &v("abc")));
    assert_eq!(le_text(&v("Zeta"), &v("alpha")), "Zeta" <= "alpha");
}
