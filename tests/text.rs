use astar::text::{is_white_space, split_pieces, split_words, trim_bounds};

fn chars(s: &str) -> Vec<char> {
    s.chars().collect()
}

fn rows(v: &[&str]) -> Vec<Vec<char>> {
    v.iter().map(|r| r.chars().collect()).collect()
}

#[test]
fn words_split_at_any_white_space() {
    assert_eq!(split_words(&chars("S..\n ...\t..E\n")), rows(&["S..", "...", "..E"]));
    assert_eq!(split_words(&chars("  ")), rows(&[]));
    assert_eq!(split_words(&chars("ab\u{3000}c")), rows(&["ab", "c"]));
}

#[test]
fn pieces_split_at_each_separator() {
    let t = chars("ab\\\\c\\");
    assert_eq!(split_pieces(&t, 0, t.len(), '\\'), rows(&["ab", "", "c", ""]));
    let e = chars("");
    assert_eq!(split_pieces(&e, 0, 0, '\\'), rows(&[""]));
}

#[test]
fn trim_drops_outer_white_space() {
    let t = chars(" \n a b \t");
    let (a, b) = trim_bounds(&t);
    assert_eq!(t[a..b].iter().collect::<String>(), "a b");
    let blank = chars("   ");
    let (a, b) = trim_bounds(&blank);
    assert_eq!(a, b);
}

#[test]
fn white_space_is_unicode_white_space() {
    for c in ['\t', '\n', '\u{b}', '\u{c}', '\r', ' ', '\u{85}', '\u{a0}', '\u{2000}', '\u{3000}'] {
        assert!(is_white_space(c));
        assert!(c.is_whitespace());
    }
    for c in ['a', 'W', '\\', '\u{200b}', '\u{0}'] {
        assert!(!is_white_space(c));
        assert!(!c.is_whitespace());
    }
}
