use pirogue::compiler::{CompileError, Compiler, Token, TokenKind};

fn tokens(text: &str) -> Vec<(TokenKind, String, usize)> {
    let mut c = Compiler::new(text);
    let mut out = Vec::new();
    while let Some(t) = c.consume_token() {
        out.push((t.kind, t.text, t.position));
    }
    out
}

fn compile(text: &str) -> Result<Vec<u8>, CompileError> {
    Compiler::new(text).compile()
}

#[test]
fn empty_text_has_no_token() {
    assert_eq!(tokens(""), vec![]);
    assert_eq!(tokens("    "), vec![]);
}

#[test]
fn words_are_cut_at_spaces() {
    assert_eq!(
        tokens("3 dup  +"),
        vec![
            (TokenKind::Int, "3".to_string(), 0),
            (TokenKind::Symbol, "dup".to_string(), 2),
            (TokenKind::Symbol, "+".to_string(), 7),
        ]
    );
}

#[test]
fn brackets_stand_alone() {
    assert_eq!(
        tokens("[ 1 ]"),
        vec![
            (TokenKind::QuoteOpen, "[".to_string(), 0),
            (TokenKind::Int, "1".to_string(), 2),
            (TokenKind::QuoteClose, "]".to_string(), 4),
        ]
    );
}

#[test]
fn brackets_glued_to_words_are_cut_off() {
    assert_eq!(
        tokens("ab[cd]ef[]"),
        vec![
            (TokenKind::Symbol, "ab".to_string(), 0),
            (TokenKind::QuoteOpen, "[".to_string(), 2),
            (TokenKind::Symbol, "cd".to_string(), 3),
            (TokenKind::QuoteClose, "]".to_string(), 5),
            (TokenKind::Symbol, "ef".to_string(), 6),
            (TokenKind::QuoteOpen, "[".to_string(), 8),
            (TokenKind::QuoteClose, "]".to_string(), 9),
        ]
    );
}

#[test]
fn tokens_are_classified() {
    let kinds: Vec<TokenKind> = tokens("12 -12 +12 1x x1 - + 2147483647 2147483648 . @ ! .s i")
        .into_iter()
        .map(|t| t.0)
        .collect();
    assert_eq!(
        kinds,
        vec![
            TokenKind::Int,
            TokenKind::Int,
            TokenKind::Int,
            TokenKind::Symbol,
            TokenKind::Symbol,
            TokenKind::Symbol,
            TokenKind::Symbol,
            TokenKind::Int,
            TokenKind::Symbol,
            TokenKind::Symbol,
            TokenKind::Symbol,
            TokenKind::Symbol,
            TokenKind::Symbol,
            TokenKind::Symbol,
        ]
    );
}

#[test]
fn a_tab_is_part_of_a_word() {
    assert_eq!(tokens("a\tb c"), vec![
        (TokenKind::Symbol, "a\tb".to_string(), 0),
        (TokenKind::Symbol, "c".to_string(), 4),
    ]);
}

#[test]
fn a_line_break_after_a_word_ends_the_word_only() {
    assert_eq!(
        tokens("ab\ncd\r7"),
        vec![
            (TokenKind::Symbol, "ab".to_string(), 0),
            (TokenKind::Symbol, "cd".to_string(), 3),
            (TokenKind::Int, "7".to_string(), 6),
        ]
    );
}

#[test]
fn a_line_break_where_a_token_would_begin_gives_no_token() {
    let mut c = Compiler::new("ab \ncd");
    let first = c.consume_token().unwrap();
    assert_eq!(first, Token { kind: TokenKind::Symbol, text: "ab".to_string(), position: 0 });
    assert_eq!(c.consume_token(), None);
    let after = c.consume_token().unwrap();
    assert_eq!(after, Token { kind: TokenKind::Symbol, text: "cd".to_string(), position: 4 });
    assert_eq!(c.consume_token(), None);
    assert_eq!(c.consume_token(), None);
}

#[test]
fn a_line_break_after_a_bracket_gives_no_token() {
    let mut c = Compiler::new("]\n1");
    assert_eq!(c.consume_token().unwrap().kind, TokenKind::QuoteClose);
    assert_eq!(c.consume_token(), None);
    assert_eq!(c.consume_token().unwrap().text, "1");
}

#[test]
fn two_line_breaks_give_no_token_twice() {
    let mut c = Compiler::new("a\n\nb");
    assert_eq!(c.consume_token().unwrap().text, "a");
    assert_eq!(c.consume_token(), None);
    assert_eq!(c.consume_token().unwrap().text, "b");
}

#[test]
fn tokens_can_be_cloned() {
    let t = Token { kind: TokenKind::Int, text: "12".to_string(), position: 3 };
    assert_eq!(t.clone(), t);
}

#[test]
fn empty_text_compiles_to_nothing() {
    assert_eq!(compile(""), Ok(vec![]));
    assert_eq!(compile("   "), Ok(vec![]));
    assert_eq!(compile("\n1"), Ok(vec![]));
}

#[test]
fn integers_and_symbols_compile() {
    assert_eq!(compile("3 4 +"), Ok(vec![1, 3, 1, 4, 2, b'+', 0]));
    assert_eq!(compile("0 255 +255 007"), Ok(vec![1, 0, 1, 255, 1, 255, 1, 7]));
    assert_eq!(compile("dup"), Ok(vec![2, b'd', b'u', b'p', 0]));
}

#[test]
fn quotations_compile() {
    assert_eq!(compile("[1 2 +] i"), Ok(vec![3, 7, 1, 1, 1, 2, 2, b'+', 0, 2, b'i', 0]));
    assert_eq!(compile("[]"), Ok(vec![3, 0]));
    assert_eq!(compile("[[]]"), Ok(vec![3, 2, 3, 0]));
    assert_eq!(compile("[ 1 [ x ] ]"), Ok(vec![3, 7, 1, 1, 3, 3, 2, b'x', 0]));
}

#[test]
fn a_number_beyond_32_bits_is_a_symbol() {
    let mut expected = vec![2u8];
    expected.extend_from_slice(b"2147483648");
    expected.push(0);
    assert_eq!(compile("2147483648"), Ok(expected));
}

#[test]
fn an_integer_that_is_no_byte_is_refused() {
    assert_eq!(
        compile("256"),
        Err(CompileError::BadInteger { text: "256".to_string(), position: 0 })
    );
    assert_eq!(
        compile("1 2 -5 3"),
        Err(CompileError::BadInteger { text: "-5".to_string(), position: 4 })
    );
    assert_eq!(
        compile("[ -0 ]"),
        Err(CompileError::BadInteger { text: "-0".to_string(), position: 2 })
    );
    assert_eq!(
        compile("  2147483647"),
        Err(CompileError::BadInteger { text: "2147483647".to_string(), position: 2 })
    );
}

#[test]
fn a_stray_closing_bracket_is_refused() {
    assert_eq!(compile("]"), Err(CompileError::UnmatchedClose { position: 0 }));
    assert_eq!(compile("1 [ 2 ] ] 3"), Err(CompileError::UnmatchedClose { position: 8 }));
}

#[test]
fn an_open_quotation_at_the_end_is_refused() {
    assert_eq!(compile("["), Err(CompileError::UnclosedQuote { open: 1 }));
    assert_eq!(compile("1 [ 2 [ 3 ]"), Err(CompileError::UnclosedQuote { open: 1 }));
    assert_eq!(compile("[[["), Err(CompileError::UnclosedQuote { open: 3 }));
    assert_eq!(compile("[ 1 \n ]"), Err(CompileError::UnclosedQuote { open: 1 }));
}

#[test]
fn compiling_stops_at_a_line_break_that_begins_a_token() {
    let mut c = Compiler::new("1 2 \n3 4\n5\n\n6");
    assert_eq!(c.compile(), Ok(vec![1, 1, 1, 2]));
    assert_eq!(c.compile(), Ok(vec![1, 3, 1, 4, 1, 5]));
    assert_eq!(c.compile(), Ok(vec![1, 6]));
    assert_eq!(c.compile(), Ok(vec![]));
}

#[test]
fn compiling_goes_on_after_an_error() {
    let mut c = Compiler::new("1 999 2");
    assert_eq!(
        c.compile(),
        Err(CompileError::BadInteger { text: "999".to_string(), position: 2 })
    );
    assert_eq!(c.compile(), Ok(vec![1, 2]));
}

#[test]
fn a_long_quotation_keeps_only_the_low_byte_of_its_length() {
    let mut text = String::from("[");
    for _ in 0..150 {
        text.push_str(" 1");
    }
    text.push_str(" ]");
    let code = compile(&text).unwrap();
    assert_eq!(code.len(), 302);
    assert_eq!(code[0], 3);
    assert_eq!(code[1], 44);
}

#[test]
fn compile_errors_say_what_went_wrong() {
    assert_eq!(
        CompileError::BadInteger { text: "300".to_string(), position: 12 }.message(),
        "Integer 300 at 12 does not fit in a byte"
    );
    assert_eq!(CompileError::UnmatchedClose { position: 0 }.message(), "Unmatched ] at 0");
    assert_eq!(CompileError::UnclosedQuote { open: 2 }.message(), "Unclosed [: 2");
}
