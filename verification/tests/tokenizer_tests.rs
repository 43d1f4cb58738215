use lib::tokenizer::{Token, Tokenizer, BOS, EOS};

fn docs(words: &[&str]) -> Vec<Vec<char>> {
    words.iter().map(|w| w.chars().collect()).collect()
}

#[test]
fn vocabulary_is_sorted_and_unique() {
    let t = Tokenizer::from_docs(&docs(&["emma", "ava"]));
    assert_eq!(t.vocab_size(), 6);
    assert_eq!(t.decode(2), Token::Char('a'));
    assert_eq!(t.decode(3), Token::Char('e'));
    assert_eq!(t.decode(4), Token::Char('m'));
    assert_eq!(t.decode(5), Token::Char('v'));
}

#[test]
fn empty_corpus_has_only_markers() {
    let t = Tokenizer::from_docs(&Vec::new());
    assert_eq!(t.vocab_size(), 2);
    assert_eq!(t.decode(BOS), Token::Bos);
    assert_eq!(t.decode(EOS), Token::Eos);
}

#[test]
fn token_ids_of_characters() {
    let t = Tokenizer::from_docs(&docs(&["emma", "ava"]));
    assert_eq!(t.token_id('a'), Some(2));
    assert_eq!(t.token_id('v'), Some(5));
    assert_eq!(t.token_id('z'), None);
}

#[test]
fn encode_whole_document() {
    let t = Tokenizer::from_docs(&docs(&["emma", "ava"]));
    let doc: Vec<char> = "ava".chars().collect();
    assert_eq!(t.encode(&doc, 8), vec![0, 2, 5, 2, 1]);
    assert_eq!(t.encode(&doc, 5), vec![0, 2, 5, 2, 1]);
}

#[test]
fn encode_truncates_to_block_size() {
    let t = Tokenizer::from_docs(&docs(&["emma", "ava"]));
    let doc: Vec<char> = "emma".chars().collect();
    assert_eq!(t.encode(&doc, 3), vec![0, 3, 4]);
    assert_eq!(t.encode(&doc, 5), vec![0, 3, 4, 4, 2]);
    assert_eq!(t.encode(&doc, 1), vec![0]);
    assert_eq!(t.encode(&doc, 0), Vec::<usize>::new());
}

#[test]
fn decode_inverts_encode() {
    let t = Tokenizer::from_docs(&docs(&["zoë", "ångström", "bob"]));
    for w in ["zoë", "ångström", "bob", "öb"] {
        let doc: Vec<char> = w.chars().collect();
        let ids = t.encode(&doc, 100);
        assert_eq!(ids.len(), doc.len() + 2);
        assert_eq!(t.decode(ids[0]), Token::Bos);
        assert_eq!(t.decode(ids[ids.len() - 1]), Token::Eos);
        for (k, c) in doc.iter().enumerate() {
            assert_eq!(t.decode(ids[k + 1]), Token::Char(*c));
        }
    }
}

#[test]
fn covers_reports_unknown_characters() {
    let t = Tokenizer::from_docs(&docs(&["abc"]));
    assert!(t.covers(&"cab".chars().collect()));
    assert!(!t.covers(&"cad".chars().collect()));
    assert!(t.covers(&Vec::new()));
}
