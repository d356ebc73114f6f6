use saffron::lexer::{LexError, Span, TokenContent, lex_line, lex_single_line_string};

fn is_token_content(input: &str, given: TokenContent) {
    match lex_line(input) {
        Ok(tokens) => {
            assert_eq!(tokens.len(), 1);
            let t = &tokens[0];
            assert_eq!(t.content, given);
        }
        Err(e) => panic!("Unexpected lexing error! {:?}", e),
    }
}

#[test]
fn can_lex_module() {
    is_token_content("module", TokenContent::Module);
}

#[test]
fn can_lex_where() {
    is_token_content("where", TokenContent::Where);
}

#[test]
fn can_lex_equals() {
    is_token_content("=", TokenContent::Equals);
}

#[test]
fn can_lex_space() {
    match lex_line(" ") {
        Ok(tokens) => {
            assert_eq!(tokens.len(), 1);
            let t = &tokens[0];
            assert_eq!(t.content, TokenContent::Space(1))
        }
        Err(e) => panic!("Unexpected lexing error! {:?}", e),
    }
}

#[test]
fn spaces_have_correct_length() {
    match lex_line("    ") {
        Ok(tokens) => {
            assert_eq!(tokens.len(), 1);
            let t = &tokens[0];
            assert_eq!(t.content, TokenContent::Space(4))
        }
        Err(e) => panic!("Unexpected lexing error! {:?}", e),
    }
}

#[test]
fn can_lex_symbol() {
    is_token_content("hello", TokenContent::Symbol("hello".to_string()));
}

#[test]
fn can_lex_single_line_string() {
    is_token_content("\"hello\"", TokenContent::StrLit("hello".to_string()));
}

#[test]
fn keywords_span_the_whole_input() {
    let tokens = lex_line("module").unwrap();
    assert_eq!(tokens.len(), 1);
    assert_eq!(tokens[0].span, Span { start: 0, end: 6 });
    let tokens = lex_line("where").unwrap();
    assert_eq!(tokens[0].span, Span { start: 0, end: 5 });
    let tokens = lex_line("=").unwrap();
    assert_eq!(tokens[0].span, Span { start: 0, end: 1 });
}

#[test]
fn string_literal_span_includes_quotes() {
    let tokens = lex_line("\"hello\"").unwrap();
    assert_eq!(tokens.len(), 1);
    assert_eq!(tokens[0].span, Span { start: 0, end: 7 });
}

#[test]
fn empty_line_lexes_to_no_tokens() {
    assert_eq!(lex_line("").unwrap().len(), 0);
}

#[test]
fn header_line_tokenizes_in_order() {
    let tokens = lex_line("module Foo where").unwrap();
    let contents: Vec<&TokenContent> = tokens.iter().map(|t| &t.content).collect();
    assert_eq!(contents.len(), 5);
    assert_eq!(*contents[0], TokenContent::Module);
    assert_eq!(*contents[1], TokenContent::Space(1));
    assert_eq!(*contents[2], TokenContent::Symbol("Foo".to_string()));
    assert_eq!(*contents[3], TokenContent::Space(1));
    assert_eq!(*contents[4], TokenContent::Where);
}

#[test]
fn spans_reconstruct_the_line() {
    let line = "module Foo where";
    let chars: Vec<char> = line.chars().collect();
    let tokens = lex_line(line).unwrap();
    let mut rebuilt = String::new();
    for t in &tokens {
        let piece: String = chars[t.span.start..t.span.end].iter().collect();
        rebuilt.push_str(&piece);
    }
    assert_eq!(rebuilt, line);
}

#[test]
fn spans_abut_without_overlap_or_gap() {
    let tokens = lex_line("x = \"value\"").unwrap();
    assert!(tokens.len() > 1);
    assert_eq!(tokens[0].span.start, 0);
    for w in tokens.windows(2) {
        assert_eq!(w[0].span.end, w[1].span.start);
    }
    assert_eq!(tokens[tokens.len() - 1].span.end, "x = \"value\"".chars().count());
}

#[test]
fn keyword_prefix_wins_over_symbol() {
    let tokens = lex_line("modulex").unwrap();
    assert_eq!(tokens.len(), 2);
    assert_eq!(tokens[0].content, TokenContent::Module);
    assert_eq!(tokens[1].content, TokenContent::Symbol("x".to_string()));
}

#[test]
fn unterminated_string_fails_the_line() {
    assert_eq!(lex_line("\"abc"), Err(LexError::UnterminatedString));
}

#[test]
fn empty_string_literal_fails_the_line() {
    assert_eq!(lex_line("\"\""), Err(LexError::EmptyString));
}

#[test]
fn illegal_character_fails_the_line() {
    assert_eq!(lex_line("("), Err(LexError::IllegalChar));
}

#[test]
fn string_rule_reports_end_of_input() {
    assert_eq!(lex_single_line_string("", 0), Err(LexError::UnexpectedEnd));
}

#[test]
fn string_rule_lexes_at_position() {
    let (t, next) = lex_single_line_string("x \"hi\"", 2).unwrap();
    assert_eq!(t.content, TokenContent::StrLit("hi".to_string()));
    assert_eq!(t.span, Span { start: 2, end: 6 });
    assert_eq!(next, 6);
}

#[test]
fn string_rule_rejects_non_quote_start() {
    assert_eq!(lex_single_line_string("x", 0), Err(LexError::IllegalChar));
}
