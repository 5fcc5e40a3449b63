use ket::error::{ErrorKind, Errors};
use ket::file::{read_string, Files};
use ket::lexer::{lex_file, Location, TokenKind, Tokens};

fn lex(text: &str) -> (Tokens, Errors) {
    let mut files = Files::new();
    let mut errors = Errors::new();
    let file = read_string(String::from(text), "test.ket", &mut files).unwrap();
    let tokens = lex_file(file, &files, &mut errors);
    (tokens, errors)
}

fn kinds(tokens: &Tokens) -> Vec<TokenKind> {
    tokens.ids.iter().into_iter().map(|id| *id.get(&tokens.kinds)).collect()
}

fn spans(tokens: &Tokens) -> Vec<(u32, u32, u32, u32, u32, u32)> {
    tokens
        .ids
        .iter()
        .into_iter()
        .map(|id| {
            let l: Location = id.get(&tokens.locations).unwrap();
            (l.start, l.end, l.line_start, l.line_end, l.char_start, l.char_end)
        })
        .collect()
}

#[test]
fn lexes_a_binding_line() {
    let (tokens, errors) = lex("abc = 12\n");
    assert_eq!(
        vec![TokenKind::LIdent, TokenKind::Equals, TokenKind::Integer, TokenKind::Newline],
        kinds(&tokens)
    );
    assert_eq!(
        vec![(0, 3, 1, 1, 1, 3), (4, 5, 1, 1, 5, 5), (6, 8, 1, 1, 7, 8), (8, 9, 1, 1, 9, 9)],
        spans(&tokens)
    );
    assert!(!errors.has_errors());
}

#[test]
fn newline_starts_a_new_line() {
    let (tokens, _) = lex("a\n  bc");
    assert_eq!(vec![TokenKind::LIdent, TokenKind::Newline, TokenKind::LIdent], kinds(&tokens));
    assert_eq!(vec![(0, 1, 1, 1, 1, 1), (1, 2, 1, 1, 2, 2), (4, 6, 2, 2, 3, 4)], spans(&tokens));
}

#[test]
fn longest_operator_wins() {
    let (tokens, _) = lex(":= == != .. .= :: << >> <= >= -> <- ++ -- ** //");
    assert_eq!(
        vec![
            TokenKind::ColonEquals,
            TokenKind::EqualsEquals,
            TokenKind::NotEquals,
            TokenKind::DotDot,
            TokenKind::DotEquals,
            TokenKind::ColonColon,
            TokenKind::LShift,
            TokenKind::RShift,
            TokenKind::LAngleEquals,
            TokenKind::RAngleEquals,
            TokenKind::RightArrow,
            TokenKind::LeftArrow,
            TokenKind::PlusPlus,
            TokenKind::MinusMinus,
            TokenKind::TimesTimes,
            TokenKind::DivideDivide,
        ],
        kinds(&tokens)
    );
}

#[test]
fn literals_and_identifiers() {
    let (tokens, errors) = lex("1.5 42 \"hi\" 'c' _ Abc a_b1");
    assert_eq!(
        vec![
            TokenKind::Float,
            TokenKind::Integer,
            TokenKind::String,
            TokenKind::Character,
            TokenKind::Underscore,
            TokenKind::UIdent,
            TokenKind::LIdent,
        ],
        kinds(&tokens)
    );
    assert!(!errors.has_errors());
}

#[test]
fn unknown_byte_is_a_lexical_error() {
    let (tokens, errors) = lex("a ~ b");
    assert_eq!(vec![TokenKind::LIdent, TokenKind::Unknown, TokenKind::LIdent], kinds(&tokens));
    assert_eq!(1, errors.ids.num_allocs());
    let err = errors.ids.iter()[0];
    assert_eq!(ErrorKind::Lex, *err.get(&errors.kinds));
    assert_eq!("Unrecognized token '~'", err.get(&errors.messages).as_str());
    let loc = err.get(&errors.locations).unwrap();
    assert_eq!((2, 3, 3, 3), (loc.start, loc.end, loc.char_start, loc.char_end));
}

#[test]
fn empty_source_has_no_tokens() {
    let (tokens, errors) = lex("");
    assert_eq!(0, tokens.ids.num_allocs());
    assert!(!errors.has_errors());
}

#[test]
fn merge_spans_in_one_file() {
    let (tokens, _) = lex("ab cd\nef");
    let ids = tokens.ids.iter();
    let first = *ids[0].get(&tokens.locations);
    let last = *ids[3].get(&tokens.locations);
    let merged = Location::merge(&first, &last).unwrap();
    assert_eq!((0, 8), (merged.start, merged.end));
    assert_eq!((1, 2), (merged.line_start, merged.line_end));
    assert_eq!((1, 2), (merged.char_start, merged.char_end));
    let same = Location::merge(&last, &first).unwrap();
    assert_eq!((0, 8, 1, 2), (same.start, same.end, same.line_start, same.line_end));
    let alone = Location::merge(&None, &first).unwrap();
    assert_eq!((0, 2), (alone.start, alone.end));
    assert!(Location::merge(&None, &None).is_none());
}

#[test]
fn merge_across_files_is_none() {
    let mut files = Files::new();
    let mut errors = Errors::new();
    let f0 = read_string(String::from("a"), "a.ket", &mut files).unwrap();
    let f1 = read_string(String::from("b"), "b.ket", &mut files).unwrap();
    let t0 = lex_file(f0, &files, &mut errors);
    let t1 = lex_file(f1, &files, &mut errors);
    let l0 = *t0.ids.iter()[0].get(&t0.locations);
    let l1 = *t1.ids.iter()[0].get(&t1.locations);
    assert!(Location::merge(&l0, &l1).is_none());
}
