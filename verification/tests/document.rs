use inverted_index::document::{
    characters_of, document_tokens, is_whitespace_char, validate_doc, validate_document,
    DocumentTokenizer, ValidationError,
};

#[test]
fn tokenizer_splits_on_whitespace_runs() {
    let mut tokenizer = DocumentTokenizer::new("  rust\t is\n\nfast ");
    assert_eq!(tokenizer.next(), Some("rust"));
    assert_eq!(tokenizer.next(), Some("is"));
    assert_eq!(tokenizer.next(), Some("fast"));
    assert_eq!(tokenizer.next(), None);
    assert_eq!(tokenizer.next(), None);
}

#[test]
fn tokens_match_split_whitespace() {
    for text in [
        "",
        "   ",
        "one",
        "one two",
        " a\u{2003}b\u{85}c\u{200b}d ",
        "x\u{feff}y",
        "tab\tand\u{b}vertical\u{c}feed\rreturn",
    ] {
        let expected: Vec<&str> = text.split_whitespace().collect();
        assert_eq!(document_tokens(text), expected, "tokens of {text:?}");
    }
}

#[test]
fn whitespace_is_the_unicode_white_space_property() {
    for c in ['\u{0}', 'a', '\u{200b}', '\u{feff}', '\u{1680}', '\u{2028}', '\u{3000}', '\u{85}'] {
        assert_eq!(is_whitespace_char(c), c.is_whitespace(), "character {c:?}");
    }
    for code in 0..0x3100u32 {
        if let Some(c) = char::from_u32(code) {
            assert_eq!(is_whitespace_char(c), c.is_whitespace(), "character {code:#x}");
        }
    }
}

#[test]
fn characters_are_unicode_scalar_values() {
    assert_eq!(characters_of("h\u{e9}llo"), vec!['h', '\u{e9}', 'l', 'l', 'o']);
}

#[test]
fn empty_documents_are_rejected() {
    let error = validate_document(3, " \t ").unwrap_err();
    assert_eq!(error, ValidationError::EmptyDocument { line: 3 });
    assert_eq!(error.message(), "document on line 3 is empty");
}

#[test]
fn documents_with_punctuation_are_rejected() {
    let error = validate_document(12, "rust is fast!").unwrap_err();
    assert_eq!(
        error,
        ValidationError::InvalidTokenCharacter {
            line: 12,
            token: "fast!".to_owned()
        }
    );
    assert_eq!(
        error.message(),
        "token 'fast!' on line 12 is not ASCII alphanumeric"
    );
    assert_eq!(
        validate_document(1, "caf\u{e9} au lait").unwrap_err().message(),
        "token 'caf\u{e9}' on line 1 is not ASCII alphanumeric"
    );
}

#[test]
fn alphanumeric_documents_are_accepted() {
    assert_eq!(validate_document(1, "Rust 2024 edition"), Ok(()));
}

#[test]
fn corpus_validation_reports_the_first_bad_line() {
    let lines: Vec<String> = ["rust is fast", "search engine", "", "bad!"]
        .iter()
        .map(|line| line.to_string())
        .collect();
    assert_eq!(validate_doc(&lines[..2]), Ok(()));
    assert_eq!(
        validate_doc(&lines),
        Err("document on line 3 is empty".to_owned())
    );
    assert_eq!(
        validate_doc(&lines[3..]),
        Err("token 'bad!' on line 1 is not ASCII alphanumeric".to_owned())
    );
}
