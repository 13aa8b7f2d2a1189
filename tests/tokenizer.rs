use customasm::token::{
    check_for_comment, check_for_fixed, check_for_identifier, check_for_number,
    check_for_string, check_for_whitespace, is_identifier_mid, is_identifier_start,
    is_number_mid, is_number_start, is_whitespace, tokenize, TokenKind,
};

fn chars(s: &str) -> Vec<char> {
    s.chars().collect()
}

#[test]
fn tokenize_instruction_line() {
    let src = chars("ld x, 0x10 ; c\n");
    let toks = tokenize("main.asm".to_string(), &src);
    let kinds: Vec<TokenKind> = toks.iter().map(|t| t.kind).collect();
    assert_eq!(
        kinds,
        vec![
            TokenKind::Identifier,
            TokenKind::Whitespace,
            TokenKind::Identifier,
            TokenKind::Comma,
            TokenKind::Whitespace,
            TokenKind::Number,
            TokenKind::Whitespace,
            TokenKind::Comment,
            TokenKind::LineBreak,
            TokenKind::End,
        ]
    );
    assert_eq!(toks[0].excerpt.as_deref(), Some("ld"));
    assert_eq!(toks[5].excerpt.as_deref(), Some("0x10"));
    assert_eq!(toks[5].span.start, 6);
    assert_eq!(toks[5].span.end, 10);
    assert_eq!(toks[1].excerpt, None);
    assert_eq!(toks[9].span.start, 15);
    assert_eq!(toks[9].span.end, 15);
    assert_eq!(toks[0].span.file, "main.asm");
}

#[test]
fn tokenize_empty_source_gives_end_token() {
    let toks = tokenize("a".to_string(), &[]);
    assert_eq!(toks.len(), 1);
    assert_eq!(toks[0].kind, TokenKind::End);
    assert_eq!(toks[0].span.start, 0);
}

#[test]
fn tokenize_two_char_operators() {
    let src = chars("->&&||==!=<=>=-&");
    let kinds: Vec<TokenKind> = tokenize("f".to_string(), &src).iter().map(|t| t.kind).collect();
    assert_eq!(
        kinds,
        vec![
            TokenKind::Arrow,
            TokenKind::AmpersandAmpersand,
            TokenKind::VerticalBarVerticalBar,
            TokenKind::EqualEqual,
            TokenKind::ExclamationEqual,
            TokenKind::LessThanEqual,
            TokenKind::GreaterThanEqual,
            TokenKind::Minus,
            TokenKind::Ampersand,
            TokenKind::End,
        ]
    );
}

#[test]
fn tokenize_string_and_error() {
    let src = chars("\"ab\"@");
    let toks = tokenize("f".to_string(), &src);
    assert_eq!(toks[0].kind, TokenKind::String);
    assert_eq!(toks[0].excerpt.as_deref(), Some("\"ab"));
    assert_eq!(toks[0].span.end, 3);
    // The closing quote starts no string of its own.
    assert_eq!(toks[1].kind, TokenKind::Error);
    assert_eq!(toks[2].kind, TokenKind::Error);
    assert_eq!(toks[3].kind, TokenKind::End);
}

#[test]
fn scanners_measure_runs() {
    assert_eq!(check_for_whitespace(&chars(" \t\rx")), Some((TokenKind::Whitespace, 3)));
    assert_eq!(check_for_whitespace(&chars("x")), None);
    assert_eq!(check_for_comment(&chars("; hi\nx")), Some((TokenKind::Comment, 4)));
    assert_eq!(check_for_comment(&chars("x")), None);
    assert_eq!(check_for_identifier(&chars("_a1 b")), Some((TokenKind::Identifier, 3)));
    assert_eq!(check_for_identifier(&chars("1a")), None);
    assert_eq!(check_for_number(&chars("0x1f.2'3 ")), Some((TokenKind::Number, 8)));
    assert_eq!(check_for_number(&chars("a")), None);
    assert_eq!(check_for_string(&chars("\"abc\"")), Some((TokenKind::String, 4)));
    assert_eq!(check_for_string(&chars("\"abc")), None);
    assert_eq!(check_for_fixed(&chars("<=")), Some((TokenKind::LessThanEqual, 2)));
    assert_eq!(check_for_fixed(&chars("<")), Some((TokenKind::LessThan, 1)));
    assert_eq!(check_for_fixed(&chars("@")), None);
}

#[test]
fn character_classes() {
    assert!(is_whitespace('\t'));
    assert!(!is_whitespace('\n'));
    assert!(is_identifier_start('_'));
    assert!(!is_identifier_start('1'));
    assert!(is_identifier_mid('1'));
    assert!(is_number_start('7'));
    assert!(!is_number_start('a'));
    assert!(is_number_mid('\''));
    assert!(!is_number_mid('-'));
    assert!(TokenKind::Number.needs_excerpt());
    assert!(!TokenKind::Comma.needs_excerpt());
}
