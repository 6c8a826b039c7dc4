use bytemacro::{
    build_table, compile, concat_all_text, encode_address, tokenize, trim_start, MacroError,
    SymbolTable, Token,
};

fn text(s: &str) -> Token {
    Token::Text(s.to_string())
}

fn ident(s: &str) -> Token {
    Token::Ident(s.to_string())
}

#[test]
fn literal_only_output_is_concatenation() {
    let out = compile("out = \"ab\" \"cd\" \"\" \"ef\"\n").unwrap();
    assert_eq!(out, "abcdef");
}

#[test]
fn address_two_digits() {
    assert_eq!(encode_address(&"0xAB".to_string()), "\\xAB");
    assert_eq!(compile("out = 0xab\n").unwrap(), "\\xab");
}

#[test]
fn address_odd_length_is_padded() {
    assert_eq!(compile("out = 0xabc\n").unwrap(), "\\xbc\\x0a");
    assert_eq!(encode_address(&"0xABC".to_string()), "\\xBC\\x0A");
}

#[test]
fn address_bytes_are_reversed() {
    assert_eq!(compile("out = 0x1234\n").unwrap(), "\\x34\\x12");
}

#[test]
fn address_without_digits_is_empty() {
    assert_eq!(encode_address(&"0x".to_string()), "");
}

#[test]
fn transitive_reference() {
    assert_eq!(compile("a = \"hi\"\nout = a\n").unwrap(), "hi");
}

#[test]
fn redefinition_overrides() {
    let src = "a = \"first\"\na = \"second\"\nout = a \"-\" a\n";
    assert_eq!(compile(src).unwrap(), "second-second");
}

#[test]
fn undefined_name_fails() {
    assert_eq!(
        compile("out = nothere\n"),
        Err(MacroError::UndefinedVariable("nothere".to_string()))
    );
}

#[test]
fn missing_out_fails() {
    assert_eq!(compile("a = \"x\"\n"), Err(MacroError::MissingOut));
    assert_eq!(compile(""), Err(MacroError::MissingOut));
}

#[test]
fn self_reference_is_cyclic() {
    assert_eq!(
        compile("a = a\nout = a\n"),
        Err(MacroError::CyclicDefinition("a".to_string()))
    );
    assert_eq!(
        compile("out = out\n"),
        Err(MacroError::CyclicDefinition("out".to_string()))
    );
}

#[test]
fn mutual_reference_is_cyclic() {
    assert_eq!(
        compile("a = b\nb = \"x\" a\nout = a\n"),
        Err(MacroError::CyclicDefinition("a".to_string()))
    );
}

#[test]
fn repeated_reference_is_not_cyclic() {
    assert_eq!(compile("a = \"x\"\nb = a a\nout = b a\n").unwrap(), "xxx");
}

#[test]
fn comment_and_blank_lines_are_ignored() {
    let plain = "a = \"abc\"\nout = a\n";
    let padded = "// header\na = \"abc\"\n\n   \t\n  // note\nout = a\n// end\n";
    assert_eq!(compile(padded), compile(plain));
    assert_eq!(compile(padded).unwrap(), "abc");
}

#[test]
fn trailing_comment_keeps_statement() {
    assert_eq!(compile("a = \"x\" // tail\nout = a\n").unwrap(), "x");
}

#[test]
fn end_to_end_example() {
    let src = "a = \"abc\" 0x1 \"def\"\nout = a\n";
    assert_eq!(compile(src).unwrap(), "abc\\x01def");
}

#[test]
fn last_statement_without_line_break() {
    assert_eq!(compile("out = \"x\"").unwrap(), "x");
}

#[test]
fn unterminated_text_fails() {
    assert_eq!(compile("out = \"abc\n"), Err(MacroError::UnterminatedText));
}

#[test]
fn address_at_end_of_input_fails() {
    assert_eq!(compile("out = 0x41"), Err(MacroError::UnterminatedAddress));
}

#[test]
fn statement_without_identifier_fails() {
    assert_eq!(compile("= \"x\"\n"), Err(MacroError::ExpectedIdentifier));
    assert_eq!(compile("\"x\" = a\n"), Err(MacroError::ExpectedIdentifier));
}

#[test]
fn statement_without_assign_fails() {
    assert_eq!(compile("out \"x\"\n"), Err(MacroError::ExpectedAssign));
    assert_eq!(compile("out"), Err(MacroError::ExpectedAssign));
}

#[test]
fn emitter_rejects_non_text() {
    assert_eq!(
        concat_all_text(vec![text("a"), ident("b")]),
        Err(MacroError::NonTextToken)
    );
    assert_eq!(concat_all_text(vec![text("a"), text("bc")]), Ok("abc".to_string()));
    assert_eq!(concat_all_text(vec![]), Ok(String::new()));
}

#[test]
fn tokenize_all_kinds() {
    let tokens = tokenize("x1 = \"a b\" 0x1F y\n// c\n!".to_string()).unwrap();
    assert_eq!(
        tokens,
        vec![
            ident("x1"),
            Token::Assign,
            text("a b"),
            Token::Address("0x1F".to_string()),
            ident("y"),
            Token::NewLine,
            Token::NewLine,
        ]
    );
}

#[test]
fn digits_lex_as_identifier() {
    assert_eq!(tokenize("123\n".to_string()).unwrap(), vec![ident("123"), Token::NewLine]);
}

#[test]
fn quoted_text_is_verbatim() {
    assert_eq!(compile("out = \"a\\nb // c\"\n").unwrap(), "a\\nb // c");
}

#[test]
fn unicode_identifiers() {
    assert_eq!(compile("café = \"x\"\nout = café\n").unwrap(), "x");
    assert_eq!(
        tokenize("é→z\n".to_string()).unwrap(),
        vec![ident("é"), ident("z"), Token::NewLine]
    );
}

#[test]
fn table_from_tokens() {
    let tokens = tokenize("a = \"x\"\n\nb = a 0x2\n".to_string()).unwrap();
    let table = build_table(&tokens).unwrap();
    assert_eq!(table.get(&"a".to_string()), Some(&vec![text("x")]));
    assert_eq!(
        table.get(&"b".to_string()),
        Some(&vec![ident("a"), Token::Address("0x2".to_string())])
    );
    assert!(!table.contains_key(&"c".to_string()));
}

#[test]
fn table_insert_replaces() {
    let mut table = SymbolTable::new();
    table.insert("a".to_string(), vec![text("1")]);
    table.insert("b".to_string(), vec![text("2")]);
    table.insert("a".to_string(), vec![text("3")]);
    assert_eq!(table.get(&"a".to_string()), Some(&vec![text("3")]));
    assert_eq!(table.get(&"b".to_string()), Some(&vec![text("2")]));
}

#[test]
fn unwrap_expands_nested() {
    let tokens = tokenize("a = \"x\" 0x0102\nb = a \"y\" a\n".to_string()).unwrap();
    let table = build_table(&tokens).unwrap();
    let out = ident("b").unwrap(&table).unwrap();
    assert_eq!(
        out,
        vec![text("x"), text("\\x02\\x01"), text("y"), text("x"), text("\\x02\\x01")]
    );
    assert_eq!(text("q").unwrap(&table).unwrap(), vec![text("q")]);
    assert_eq!(Token::Assign.unwrap(&table).unwrap(), vec![]);
}

#[test]
fn trim_start_keeps_line_breaks() {
    assert_eq!(trim_start(" \t x y".to_string()), "x y");
    assert_eq!(trim_start("  \n x".to_string()), "\n x");
    assert_eq!(trim_start("   ".to_string()), "");
}
