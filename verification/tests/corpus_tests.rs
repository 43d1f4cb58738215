use lib::corpus::{is_white_space_char, split_docs, trim_line};

fn chars(s: &str) -> Vec<char> {
    s.chars().collect()
}

fn words(docs: &[Vec<char>]) -> Vec<String> {
    docs.iter().map(|d| d.iter().collect()).collect()
}

#[test]
fn lines_are_trimmed_and_empty_ones_dropped() {
    let docs = split_docs(&chars("emma\n  ava \r\n\n\tbob\n"));
    assert_eq!(words(&docs), vec!["emma", "ava", "bob"]);
}

#[test]
fn last_line_without_line_feed_is_kept() {
    let docs = split_docs(&chars("olivia\nanna maria"));
    assert_eq!(words(&docs), vec!["olivia", "anna maria"]);
}

#[test]
fn blank_corpus_has_no_documents() {
    assert!(split_docs(&chars("")).is_empty());
    assert!(split_docs(&chars(" \n\t\n\u{3000}\n")).is_empty());
}

#[test]
fn split_matches_std_lines_and_trim() {
    let text = "  zoë \r\n\u{2003}liam\u{00a0}\n\n x y \nnoah";
    let expected: Vec<String> = text
        .lines()
        .map(|l| l.trim().to_string())
        .filter(|l| !l.is_empty())
        .collect();
    assert_eq!(words(&split_docs(&chars(text))), expected);
}

#[test]
fn trim_line_strips_both_ends_only() {
    assert_eq!(trim_line(&chars(" \t a b \r")), chars("a b"));
    assert_eq!(trim_line(&chars("   ")), Vec::<char>::new());
    assert_eq!(trim_line(&chars("x")), chars("x"));
}

#[test]
fn white_space_agrees_with_std() {
    for v in 0u32..0x3100 {
        if let Some(c) = char::from_u32(v) {
            assert_eq!(is_white_space_char(c), c.is_whitespace(), "code point {:#x}", v);
        }
    }
}
