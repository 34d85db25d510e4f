use cqlex::token::{build_tokenizer, build_tokenizer_with_errors, LexErrorKind, Token, TokenType};

fn scan(src: &str) -> Vec<Token> {
    build_tokenizer(&String::from(src))
}

fn kinds(tokens: &[Token]) -> Vec<TokenType> {
    tokens.iter().map(|t| t.toktype).collect()
}

fn lexeme_str(t: &Token) -> String {
    t.lexeme.iter().collect()
}

fn number_value(t: &Token) -> f64 {
    assert_eq!(t.toktype, TokenType::Number);
    lexeme_str(t).parse::<f64>().unwrap()
}

#[test]
fn empty_input_yields_only_eof() {
    let ts = scan("");
    assert_eq!(kinds(&ts), vec![TokenType::EOF]);
    assert_eq!(ts[0].line, 1);
    assert!(ts[0].lexeme.is_empty());
}

#[test]
fn last_token_is_always_eof() {
    for src in ["", "var x", "1 + 2", "#", "\n\n", "while (true) {}"] {
        let ts = scan(src);
        let last = ts.last().unwrap();
        assert_eq!(last.toktype, TokenType::EOF);
        let eof_count = ts.iter().filter(|t| t.toktype == TokenType::EOF).count();
        assert_eq!(eof_count, 1);
    }
}

#[test]
fn lines_are_monotonically_non_decreasing() {
    for src in ["a\nb\nc", "1\n\n2.5 +\n-", "x#\ny", "(\n)\n{\n}"] {
        let ts = scan(src);
        for w in ts.windows(2) {
            assert!(w[0].line <= w[1].line);
        }
    }
}

#[test]
fn integer_one_scans_as_number() {
    let ts = scan("1");
    assert_eq!(kinds(&ts), vec![TokenType::Number, TokenType::EOF]);
    assert_eq!(number_value(&ts[0]), 1.0);
}

#[test]
fn integer_twelve_scans_as_number() {
    let ts = scan("12");
    assert_eq!(kinds(&ts), vec![TokenType::Number, TokenType::EOF]);
    assert_eq!(number_value(&ts[0]), 12.0);
}

#[test]
fn fractional_number_scans_whole() {
    let ts = scan("1.5");
    assert_eq!(kinds(&ts), vec![TokenType::Number, TokenType::EOF]);
    assert_eq!(lexeme_str(&ts[0]), "1.5");
    assert_eq!(number_value(&ts[0]), 1.5);
}

#[test]
fn trailing_dot_is_not_part_of_the_number() {
    let ts = scan("1.");
    assert_eq!(
        kinds(&ts),
        vec![TokenType::Number, TokenType::Dot, TokenType::EOF]
    );
    assert_eq!(number_value(&ts[0]), 1.0);
}

#[test]
fn bang_alone_is_one_token() {
    let ts = scan("!");
    assert_eq!(kinds(&ts), vec![TokenType::Bang, TokenType::EOF]);
}

#[test]
fn bang_equal_is_one_token() {
    let ts = scan("!=");
    assert_eq!(kinds(&ts), vec![TokenType::BangEqual, TokenType::EOF]);
}

#[test]
fn space_separated_bang_and_equal_stay_apart() {
    let ts = scan("! =");
    assert_eq!(
        kinds(&ts),
        vec![TokenType::Bang, TokenType::Equal, TokenType::EOF]
    );
}

#[test]
fn remaining_two_char_operators_disambiguate() {
    let ts = scan("== = >= > <= <");
    assert_eq!(
        kinds(&ts),
        vec![
            TokenType::EqualEqual,
            TokenType::Equal,
            TokenType::GreaterEqual,
            TokenType::Greater,
            TokenType::LessEqual,
            TokenType::Less,
            TokenType::EOF,
        ]
    );
}

#[test]
fn single_character_punctuation() {
    let ts = scan("(){},.-+;:/*");
    assert_eq!(
        kinds(&ts),
        vec![
            TokenType::LeftParen,
            TokenType::RightParen,
            TokenType::LeftBrace,
            TokenType::RightBrace,
            TokenType::Comma,
            TokenType::Dot,
            TokenType::Minus,
            TokenType::Plus,
            TokenType::Semicolon,
            TokenType::Colon,
            TokenType::Slash,
            TokenType::Star,
            TokenType::EOF,
        ]
    );
}

#[test]
fn while_is_a_keyword() {
    let ts = scan("while");
    assert_eq!(kinds(&ts), vec![TokenType::While, TokenType::EOF]);
}

#[test]
fn whilex_is_an_identifier() {
    let ts = scan("whilex");
    assert_eq!(kinds(&ts), vec![TokenType::Identifier, TokenType::EOF]);
    assert_eq!(lexeme_str(&ts[0]), "whilex");
}

#[test]
fn every_keyword_resolves() {
    let cases = [
        ("and", TokenType::And),
        ("class", TokenType::Class),
        ("else", TokenType::Else),
        ("false", TokenType::False),
        ("fun", TokenType::Fun),
        ("for", TokenType::For),
        ("if", TokenType::If),
        ("nil", TokenType::Nil),
        ("or", TokenType::Or),
        ("print", TokenType::Print),
        ("return", TokenType::Return),
        ("super", TokenType::Super),
        ("this", TokenType::This),
        ("true", TokenType::True),
        ("var", TokenType::Var),
        ("while", TokenType::While),
    ];
    for (text, kind) in cases {
        let ts = scan(text);
        assert_eq!(kinds(&ts), vec![kind, TokenType::EOF], "keyword {}", text);
        assert_eq!(lexeme_str(&ts[0]), text);
    }
}

#[test]
fn keyword_lookup_is_case_sensitive_and_exact() {
    for text in ["While", "WHILE", "whil", "iff", "_if", "var_"] {
        let ts = scan(text);
        assert_eq!(kinds(&ts), vec![TokenType::Identifier, TokenType::EOF]);
        assert_eq!(lexeme_str(&ts[0]), text);
    }
}

#[test]
fn identifiers_may_contain_digits_after_the_first_character() {
    let ts = scan("x1y2 _a9");
    assert_eq!(
        kinds(&ts),
        vec![TokenType::Identifier, TokenType::Identifier, TokenType::EOF]
    );
    assert_eq!(lexeme_str(&ts[0]), "x1y2");
    assert_eq!(lexeme_str(&ts[1]), "_a9");
}

#[test]
fn newlines_advance_the_line_counter() {
    let ts = scan("\n\n\nx");
    assert_eq!(kinds(&ts), vec![TokenType::Identifier, TokenType::EOF]);
    assert_eq!(lexeme_str(&ts[0]), "x");
    assert_eq!(ts[0].line, 4);
    assert_eq!(ts[1].line, 4);
}

#[test]
fn unrecognized_character_yields_no_token() {
    let ts = scan("#");
    assert_eq!(kinds(&ts), vec![TokenType::EOF]);
}

#[test]
fn unrecognized_character_is_reported_and_scan_continues() {
    let (ts, errs) = build_tokenizer_with_errors(&String::from("a#\n@b"));
    assert_eq!(
        kinds(&ts),
        vec![TokenType::Identifier, TokenType::Identifier, TokenType::EOF]
    );
    assert_eq!(errs.len(), 2);
    assert_eq!(errs[0].kind, LexErrorKind::Unrecognized('#'));
    assert_eq!(errs[0].line, 1);
    assert_eq!(errs[1].kind, LexErrorKind::Unrecognized('@'));
    assert_eq!(errs[1].line, 2);
}

#[test]
fn no_errors_on_clean_input() {
    let (_, errs) = build_tokenizer_with_errors(&String::from("var x = 1;"));
    assert!(errs.is_empty());
}

#[test]
fn end_to_end_var_declaration() {
    let ts = scan("var x = 12.5;\n");
    assert_eq!(
        kinds(&ts),
        vec![
            TokenType::Var,
            TokenType::Identifier,
            TokenType::Equal,
            TokenType::Number,
            TokenType::Semicolon,
            TokenType::EOF,
        ]
    );
    assert_eq!(lexeme_str(&ts[1]), "x");
    assert_eq!(number_value(&ts[3]), 12.5);
    for t in &ts[0..5] {
        assert_eq!(t.line, 1);
    }
    assert_eq!(ts[5].line, 2);
}

#[test]
fn whitespace_produces_no_tokens() {
    let ts = scan(" \t\r ");
    assert_eq!(kinds(&ts), vec![TokenType::EOF]);
    assert_eq!(ts[0].line, 1);
}

#[test]
fn punctuation_tokens_carry_empty_lexemes() {
    let ts = scan("(!=");
    assert_eq!(
        kinds(&ts),
        vec![TokenType::LeftParen, TokenType::BangEqual, TokenType::EOF]
    );
    for t in &ts {
        assert!(t.lexeme.is_empty());
    }
}

#[test]
fn number_followed_by_method_dot_call() {
    let ts = scan("12.abs");
    assert_eq!(
        kinds(&ts),
        vec![
            TokenType::Number,
            TokenType::Dot,
            TokenType::Identifier,
            TokenType::EOF,
        ]
    );
    assert_eq!(lexeme_str(&ts[0]), "12");
    assert_eq!(lexeme_str(&ts[2]), "abs");
}

#[test]
fn string_literal_scans_to_closing_quote() {
    let ts = scan("\"hello\"");
    assert_eq!(kinds(&ts), vec![TokenType::String, TokenType::EOF]);
    assert_eq!(lexeme_str(&ts[0]), "\"hello\"");
    assert_eq!(ts[0].line, 1);
}

#[test]
fn empty_string_literal() {
    let ts = scan("\"\"");
    assert_eq!(kinds(&ts), vec![TokenType::String, TokenType::EOF]);
    assert_eq!(lexeme_str(&ts[0]), "\"\"");
}

#[test]
fn string_literal_may_span_lines() {
    let ts = scan("\"a\nb\" x");
    assert_eq!(
        kinds(&ts),
        vec![TokenType::String, TokenType::Identifier, TokenType::EOF]
    );
    assert_eq!(ts[0].line, 1);
    assert_eq!(ts[1].line, 2);
    assert_eq!(ts[2].line, 2);
}

#[test]
fn unterminated_string_is_a_recovered_error() {
    let (ts, errs) = build_tokenizer_with_errors(&String::from("x\n\"abc"));
    assert_eq!(kinds(&ts), vec![TokenType::Identifier, TokenType::EOF]);
    assert_eq!(errs.len(), 1);
    assert_eq!(errs[0].kind, LexErrorKind::UnterminatedString);
    assert_eq!(errs[0].line, 2);
}

#[test]
fn string_contents_are_taken_verbatim() {
    let ts = scan("\"1 + while # !=\"");
    assert_eq!(kinds(&ts), vec![TokenType::String, TokenType::EOF]);
    assert_eq!(lexeme_str(&ts[0]), "\"1 + while # !=\"");
}
