use icfp::errors::{EncodingError, TokenError};
use icfp::{encode_base94, encode_str, encode_token, parse_base94, parse_str, parse_token, parse_toks, Tok};

#[test]
fn test_base_94() {
    assert_eq!(parse_base94(b"/6").unwrap(), 1337)
}

#[test]
fn icfp_test_base_94() {
    assert_eq!(parse_base94(b"/6").unwrap(), 1337)
}

#[test]
fn test_encode_base94() {
    assert_eq!(encode_base94(1337), "/6".to_string());
}

#[test]
fn test_parse_str() {
    assert_eq!(parse_str(b"B%,,/}Q/2,$_").unwrap(), "Hello World!".to_string());

    assert_eq!(parse_str(b"3/,6%},!-\"$!-!.[}").unwrap(), "solve lambdaman6 ".to_string());
}

#[test]
fn icfp_test_parse_str() {
    assert_eq!(parse_str(b"B%,,/}Q/2,$_").unwrap(), "Hello World!".to_string());
}

#[test]
fn test_encode_str() {
    assert_eq!(encode_str("Hello World!").unwrap(), "B%,,/}Q/2,$_".to_string());
    assert_eq!(encode_str("solve lambdaman6 ").unwrap(), "3/,6%},!-\"$!-!.[}".to_string());
}

#[test]
fn base94_round_trip_values() {
    let values: [u64; 8] = [0, 1, 93, 94, 1337, 8836, 4294967295, 9007199254740992];
    for n in values {
        let text = encode_base94(n);
        assert_eq!(parse_base94(text.as_bytes()).unwrap(), n);
        if n == 0 {
            assert_eq!(text, "!".to_string());
        } else {
            assert!(!text.starts_with('!'));
        }
        assert!(!text.is_empty());
    }
}

#[test]
fn base94_empty_input_reads_zero() {
    assert_eq!(parse_base94(b"").unwrap(), 0);
}

#[test]
fn base94_rejects_bytes_outside_digit_range() {
    assert_eq!(parse_base94(b"/ 6").unwrap_err(), EncodingError::InvalidDigit(32));
    assert_eq!(parse_base94(&[200]).unwrap_err(), EncodingError::InvalidDigit(200));
}

#[test]
fn base94_rejects_numbers_past_sixty_four_bits() {
    assert_eq!(parse_base94(b"~~~~~~~~~~~").unwrap_err(), EncodingError::NumberTooLarge);
}

#[test]
fn text_round_trip_over_alphabet() {
    let samples = [
        "",
        "Hello World!",
        "abcxyz ABCXYZ 0189",
        "!\"#$%&'()*+,-./:;<=>?@[\\]^_`|~ \n",
    ];
    for s in samples {
        let encoded = encode_str(s).unwrap();
        assert_eq!(parse_str(encoded.as_bytes()).unwrap(), s.to_string());
    }
}

#[test]
fn text_decode_rejects_bytes_outside_payload_range() {
    assert_eq!(parse_str(&[16]).unwrap_err(), EncodingError::InvalidDigit(16));
    assert_eq!(parse_str(&[127]).unwrap_err(), EncodingError::InvalidDigit(127));
}

#[test]
fn text_encode_rejects_characters_outside_alphabet() {
    assert_eq!(encode_str("a{b").unwrap_err(), EncodingError::UnsupportedCharacter('{'));
    assert_eq!(encode_str("tab\there").unwrap_err(), EncodingError::UnsupportedCharacter('\t'));
}

#[test]
fn token_decode_empty_fails() {
    assert_eq!(parse_token(b"").unwrap_err(), TokenError::EmptyToken);
}

#[test]
fn token_decode_unknown_tag_fails() {
    assert_eq!(parse_token(b"X1").unwrap_err(), TokenError::UnknownTokenTag(b'X'));
}

#[test]
fn token_decode_each_kind() {
    assert_eq!(parse_token(b"T").unwrap(), Tok::Bool(true));
    assert_eq!(parse_token(b"F").unwrap(), Tok::Bool(false));
    assert_eq!(parse_token(b"?").unwrap(), Tok::If);
    assert_eq!(parse_token(b"I/6").unwrap(), Tok::Int(1337));
    assert_eq!(parse_token(b"SB%,,/}Q/2,$_").unwrap(), Tok::Str("Hello World!".to_string()));
    assert_eq!(parse_token(b"U-").unwrap(), Tok::Unop('-'));
    assert_eq!(parse_token(b"B+").unwrap(), Tok::Binop('+'));
    assert_eq!(parse_token(b"L\"").unwrap(), Tok::Lam(1));
    assert_eq!(parse_token(b"v!").unwrap(), Tok::Var(0));
}

#[test]
fn token_decode_operator_without_symbol_fails() {
    assert_eq!(parse_token(b"U").unwrap_err(), TokenError::UnexpectedEndOfStream(1));
    assert_eq!(parse_token(b"B").unwrap_err(), TokenError::UnexpectedEndOfStream(1));
}

#[test]
fn token_decode_propagates_payload_failures() {
    assert_eq!(
        parse_token(b"I/ 6").unwrap_err(),
        TokenError::Encoding(EncodingError::InvalidDigit(32))
    );
    assert_eq!(
        parse_token(&[b'S', 16]).unwrap_err(),
        TokenError::Encoding(EncodingError::InvalidDigit(16))
    );
}

#[test]
fn token_encode_decode_round_trip() {
    let tokens = vec![
        Tok::Bool(true),
        Tok::Bool(false),
        Tok::If,
        Tok::Int(0),
        Tok::Int(1337),
        Tok::Str("Hello World!".to_string()),
        Tok::Unop('-'),
        Tok::Binop('$'),
        Tok::Lam(94),
        Tok::Var(69),
    ];
    for t in tokens {
        let text = encode_token(&t);
        assert_eq!(parse_token(text.as_bytes()).unwrap(), t);
    }
}

#[test]
fn stream_decode_splits_on_whitespace_runs() {
    let toks = parse_toks("B+  I#\n\tI$ ").unwrap();
    assert_eq!(toks, vec![Tok::Binop('+'), Tok::Int(2), Tok::Int(3)]);
    assert_eq!(parse_toks("").unwrap(), vec![]);
    assert_eq!(parse_toks(" \n \t ").unwrap(), vec![]);
}

#[test]
fn stream_decode_reports_index_and_cause() {
    let err = parse_toks("T X1 F").unwrap_err();
    assert_eq!(err.index, 1);
    assert_eq!(err.cause, TokenError::UnknownTokenTag(b'X'));

    let err = parse_toks("T F\u{e9}").unwrap_err();
    assert_eq!(err.index, 1);
    assert_eq!(err.cause, TokenError::Encoding(EncodingError::UnsupportedCharacter('\u{e9}')));
}
