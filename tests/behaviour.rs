use m68k_scanner::{scan, Error, ErrorCollector, ErrorKind, Scanner, Token};

fn scan_all(source: &str) -> (Vec<Token>, Vec<(usize, usize, ErrorKind)>) {
    let mut errors = ErrorCollector::new();
    let tokens = scan(source, &mut errors);
    let errors = errors
        .errors()
        .iter()
        .map(|e: &Error| (e.range.start, e.range.end, e.kind))
        .collect();
    (tokens, errors)
}

fn span_of(token: &Token) -> (usize, usize) {
    let r = token.range();
    (r.start, r.end)
}

#[test]
fn decimal_number() {
    let (tokens, errors) = scan_all("123");
    assert_eq!(tokens, vec![Token::Number(0..3, 123)]);
    assert!(errors.is_empty());
}

#[test]
fn decimal_number_with_nines() {
    let (tokens, errors) = scan_all("909");
    assert_eq!(tokens, vec![Token::Number(0..3, 909)]);
    assert!(errors.is_empty());
}

#[test]
fn largest_decimal_number() {
    let (tokens, errors) = scan_all("4294967295");
    assert_eq!(tokens, vec![Token::Number(0..10, 4294967295)]);
    assert!(errors.is_empty());
}

#[test]
fn decimal_overflow_is_malformed() {
    let (tokens, errors) = scan_all("4294967296");
    assert!(tokens.is_empty());
    assert_eq!(errors, vec![(0, 10, ErrorKind::MalformedDecimalLiteral)]);
}

#[test]
fn minus_before_digit_is_malformed_decimal() {
    let (tokens, errors) = scan_all("-5 ");
    assert_eq!(tokens, vec![Token::Whitespace(2..3)]);
    assert_eq!(errors, vec![(0, 2, ErrorKind::MalformedDecimalLiteral)]);
}

#[test]
fn minus_before_letter_is_minus() {
    let (tokens, errors) = scan_all("-a");
    assert_eq!(
        tokens,
        vec![Token::Minus(0..1), Token::Identifier(1..2, String::from("a"))]
    );
    assert!(errors.is_empty());
}

#[test]
fn hex_number() {
    let (tokens, errors) = scan_all("$1a");
    assert_eq!(tokens, vec![Token::Number(0..3, 26)]);
    assert!(errors.is_empty());
}

#[test]
fn hex_number_with_f() {
    let (tokens, errors) = scan_all("$ff");
    assert_eq!(tokens, vec![Token::Number(0..3, 255)]);
    assert!(errors.is_empty());
}

#[test]
fn largest_hex_number() {
    let (tokens, errors) = scan_all("$ffffffff");
    assert_eq!(tokens, vec![Token::Number(0..9, 0xffff_ffff)]);
    assert!(errors.is_empty());
}

#[test]
fn hex_overflow_is_malformed() {
    let (tokens, errors) = scan_all("$100000000");
    assert!(tokens.is_empty());
    assert_eq!(errors, vec![(0, 10, ErrorKind::MalformedHexLiteral)]);
}

#[test]
fn empty_hex_is_malformed() {
    let (tokens, errors) = scan_all("$,");
    assert_eq!(tokens, vec![Token::Comma(1..2)]);
    assert_eq!(errors, vec![(0, 1, ErrorKind::MalformedHexLiteral)]);
}

#[test]
fn upper_case_letters_are_not_hex_digits() {
    let (tokens, errors) = scan_all("$1A");
    assert_eq!(
        tokens,
        vec![Token::Number(0..2, 1), Token::Identifier(2..3, String::from("A"))]
    );
    assert!(errors.is_empty());
}

#[test]
fn comment() {
    let (tokens, errors) = scan_all("*hi");
    assert_eq!(tokens, vec![Token::Comment(0..3, String::from("hi"))]);
    assert!(errors.is_empty());
}

#[test]
fn comment_stops_before_newline() {
    let (tokens, errors) = scan_all("*a b\nc*x\r\n");
    assert_eq!(
        tokens,
        vec![
            Token::Comment(0..4, String::from("a b")),
            Token::Newline(4..5),
            Token::Identifier(5..6, String::from("c")),
            Token::Comment(6..9, String::from("x\r")),
            Token::Newline(9..10),
        ]
    );
    assert!(errors.is_empty());
}

#[test]
fn comment_keeps_lone_carriage_return() {
    let (tokens, _) = scan_all("*a\rb");
    assert_eq!(tokens, vec![Token::Comment(0..4, String::from("a\rb"))]);
}

#[test]
fn identifier() {
    let (tokens, errors) = scan_all("move_1.l d0");
    assert_eq!(
        tokens,
        vec![
            Token::Identifier(0..6, String::from("move_1")),
            Token::Dot(6..7),
            Token::Identifier(7..8, String::from("l")),
            Token::Whitespace(8..9),
            Token::Identifier(9..11, String::from("d0")),
        ]
    );
    assert!(errors.is_empty());
}

#[test]
fn thin_space_is_whitespace() {
    let (tokens, errors) = scan_all("\u{2009}");
    assert_eq!(tokens, vec![Token::Whitespace(0..1)]);
    assert!(errors.is_empty());
}

#[test]
fn unrecognized_character() {
    let (tokens, errors) = scan_all("@");
    assert!(tokens.is_empty());
    assert_eq!(errors, vec![(0, 1, ErrorKind::UnrecognizedCharacter)]);
}

#[test]
fn lone_carriage_return_is_unrecognized() {
    let (tokens, errors) = scan_all("\r:");
    assert_eq!(tokens, vec![Token::Colon(1..2)]);
    assert_eq!(errors, vec![(0, 1, ErrorKind::UnrecognizedCharacter)]);
}

#[test]
fn spans_count_characters() {
    let (tokens, errors) = scan_all("é(");
    assert_eq!(tokens, vec![Token::OpeningParen(1..2)]);
    assert_eq!(errors, vec![(0, 1, ErrorKind::UnrecognizedCharacter)]);
}

#[test]
fn scanning_goes_on_after_errors() {
    let (tokens, errors) = scan_all("@@ x?");
    assert_eq!(
        tokens,
        vec![Token::Whitespace(2..3), Token::Identifier(3..4, String::from("x"))]
    );
    assert_eq!(
        errors,
        vec![
            (0, 1, ErrorKind::UnrecognizedCharacter),
            (1, 2, ErrorKind::UnrecognizedCharacter),
            (4, 5, ErrorKind::UnrecognizedCharacter),
        ]
    );
}

#[test]
fn errors_are_appended() {
    let mut errors = ErrorCollector::new();
    scan("@", &mut errors);
    scan("x$", &mut errors);
    assert_eq!(errors.len(), 2);
    assert_eq!(errors.errors()[0].kind, ErrorKind::UnrecognizedCharacter);
    assert_eq!(errors.errors()[1].kind, ErrorKind::MalformedHexLiteral);
    assert_eq!(errors.errors()[1].range, 1..2);
}

#[test]
fn spans_cover_the_source() {
    let source = "start: move.l #$1f,(a0)+ * copy\r\n@ -12 -x\tend\n";
    let chars: Vec<char> = source.chars().collect();
    let (tokens, errors) = scan_all(source);
    let mut spans: Vec<(usize, usize)> = tokens.iter().map(span_of).collect();
    spans.extend(errors.iter().map(|e| (e.0, e.1)));
    spans.sort();
    let mut at = 0;
    let mut text = String::new();
    for (start, end) in spans {
        assert_eq!(start, at);
        assert!(start < end);
        text.extend(&chars[start..end]);
        at = end;
    }
    assert_eq!(at, chars.len());
    assert_eq!(text, source);
}

#[test]
fn at_most_one_step_per_character() {
    let source = "a, $, @@ 12";
    let (tokens, errors) = scan_all(source);
    assert!(tokens.len() + errors.len() <= source.chars().count());
}

#[test]
fn rescanning_gives_the_same() {
    let source = "loop: dbra d0,loop * again\n$zz 99999999999";
    let (first, first_errors) = scan_all(source);
    let (second, second_errors) = scan_all(source);
    assert_eq!(first, second);
    assert_eq!(first_errors, second_errors);
}

#[test]
fn pulling_one_token_at_a_time() {
    let mut errors = ErrorCollector::new();
    let mut scanner = Scanner::new("@x@");
    assert_eq!(
        scanner.next(&mut errors),
        Some(Token::Identifier(1..2, String::from("x")))
    );
    assert_eq!(errors.len(), 1);
    assert_eq!(scanner.next(&mut errors), None);
    assert_eq!(errors.len(), 2);
    assert_eq!(scanner.next(&mut errors), None);
    assert_eq!(errors.len(), 2);
}

#[test]
fn error_messages() {
    let mut errors = ErrorCollector::new();
    scan("@ $ 99999999999", &mut errors);
    let messages: Vec<String> = errors.errors().iter().map(|e| e.message()).collect();
    assert_eq!(
        messages,
        vec![
            String::from("unrecognized character"),
            String::from("malformed hexadecimal literal"),
            String::from("malformed decimal literal"),
        ]
    );
}

#[test]
fn default_collector_is_empty() {
    let errors: ErrorCollector = Default::default();
    assert!(errors.has_no_errors());
    assert_eq!(errors.len(), 0);
}

#[test]
fn pulling_until_none_matches_scan() {
    let source = "x: move.l #$1f,d0 * set\r\n@ -3 $";
    let mut pulled_errors = ErrorCollector::new();
    let mut scanner = Scanner::new(source);
    let mut pulled = Vec::new();
    while let Some(token) = scanner.next(&mut pulled_errors) {
        pulled.push(token);
    }
    let mut errors = ErrorCollector::new();
    let tokens = scan(source, &mut errors);
    assert_eq!(pulled, tokens);
    assert_eq!(pulled_errors.errors(), errors.errors());
    assert_eq!(pulled_errors.len(), 3);
}
