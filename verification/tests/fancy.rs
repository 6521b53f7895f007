use terp::fancy::{fancy_parse, fancy_parse_panics, groups_fit, render_tokens, visit_step, BracketStyle, Bracketed, FancyError, Symbol, Token, Visit};

/// What a `String` performer writes, with the default visits.
fn rebuild(tokens: &[Token<'_>]) -> Result<String, ()> {
    assert!(groups_fit(tokens));
    let mut out = String::new();
    render_tokens(&mut out, tokens)?;
    Ok(out)
}

#[test]
fn symbol_takes_a_name() {
    let t = fancy_parse("a@ab ").unwrap();
    assert_eq!(t.len(), 3);
    assert!(matches!(t[0], Token::Str("a")));
    assert!(matches!(t[1], Token::SymbolId(Symbol::At, "ab")));
    assert!(matches!(t[2], Token::Str(" ")));
}

#[test]
fn uppercase_letters_are_name_bytes() {
    let t = fancy_parse("$SESSION $Ab!").unwrap();
    assert_eq!(t.len(), 4);
    assert!(matches!(t[0], Token::SymbolId(Symbol::Dollar, "SESSION")));
    assert!(matches!(t[1], Token::Str(" ")));
    assert!(matches!(t[2], Token::SymbolId(Symbol::Dollar, "Ab")));
    assert!(matches!(t[3], Token::Str("!")));
    let t = fancy_parse("$FOO bar").unwrap();
    assert_eq!(t.len(), 2);
    assert!(matches!(t[0], Token::SymbolId(Symbol::Dollar, "FOO")));
    assert!(matches!(t[1], Token::Str(" bar")));
}

#[test]
fn a_name_that_runs_to_the_end_is_taken_whole() {
    let t = fancy_parse("$ab").unwrap();
    assert_eq!(t.len(), 1);
    assert!(matches!(t[0], Token::SymbolId(Symbol::Dollar, "ab")));
    let t = fancy_parse("(a @foo)").unwrap();
    assert_eq!(t.len(), 3);
    assert!(matches!(t[0], Token::Bracketed(b) if b == Bracketed::new_parens(2)));
    assert!(matches!(t[1], Token::Str("a ")));
    assert!(matches!(t[2], Token::SymbolId(Symbol::At, "foo")));
    assert_eq!(rebuild(&t).unwrap(), "(a @foo)");
}

#[test]
fn symbol_takes_a_group() {
    let t = fancy_parse("${x}").unwrap();
    assert_eq!(t.len(), 2);
    match t[0] {
        Token::BracketedSymbol(Symbol::Dollar, b) => assert_eq!(b, Bracketed::new(1, BracketStyle::Brace)),
        other => panic!("unexpected {:?}", other),
    }
    assert!(matches!(t[1], Token::Str("x")));
}

#[test]
fn symbol_takes_a_symbol() {
    let t = fancy_parse("@@").unwrap();
    assert_eq!(t.len(), 1);
    assert!(matches!(t[0], Token::SymbolChar(Symbol::At, '@')));
}

#[test]
fn escapes_become_chars() {
    let t = fancy_parse("a\\nb\\{").unwrap();
    assert_eq!(t.len(), 4);
    assert!(matches!(t[0], Token::Str("a")));
    assert!(matches!(t[1], Token::Char('\n')));
    assert!(matches!(t[2], Token::Str("b")));
    assert!(matches!(t[3], Token::Char('{')));
}

#[test]
fn trailing_backslash_is_text() {
    let t = fancy_parse("a\\").unwrap();
    assert_eq!(t.len(), 1);
    assert!(matches!(t[0], Token::Str("a\\")));
}

#[test]
fn nested_groups_count_their_tokens() {
    let t = fancy_parse("[a(b)c]").unwrap();
    assert_eq!(t.len(), 5);
    assert!(matches!(t[0], Token::Bracketed(b) if b == Bracketed::new_square(4)));
    assert!(matches!(t[2], Token::Bracketed(b) if b == Bracketed::new_parens(1)));
}

#[test]
fn errors() {
    assert_eq!(
        fancy_parse("(]").unwrap_err(),
        FancyError::MismatchedBracket {
            found: BracketStyle::Square,
            found_index: 1,
            expected: BracketStyle::Parens,
            expected_index: 0,
        }
    );
    assert_eq!(fancy_parse("ab)").unwrap_err(), FancyError::UnmatchedClose(BracketStyle::Parens, 2));
    assert_eq!(fancy_parse("x<y").unwrap_err(), FancyError::UnmatchedOpen(BracketStyle::Angle, 1));
    assert_eq!(fancy_parse("x\\q").unwrap_err(), FancyError::UnrecognizedEscape(1));
}

#[test]
fn rebuilding_gives_back_the_source() {
    let format = "{@\n    This is a block.\n}\n@foo #[left #[left inner #[%(middle)] right inner] right]\nThe value of foo${foo_end} is \"${foo${foo_end}}\"\nSession Name: $SESSION_NAME";
    let tokens = fancy_parse(format).unwrap();
    assert_eq!(rebuild(&tokens).unwrap(), format);
}

#[test]
fn rebuilding_unescapes() {
    let tokens = fancy_parse("a\\tb\\$c").unwrap();
    assert_eq!(rebuild(&tokens).unwrap(), "a\tb$c");
}

#[test]
fn visit_step_reports_groups_that_do_not_fit() {
    let tokens = [Token::Bracketed(Bracketed::new_brace(3)), Token::Str("x")];
    assert!(matches!(visit_step(&tokens, 0).0, Visit::InvalidBracketed));
    let tokens = [Token::Bracketed(Bracketed::new_brace(1)), Token::Str("x")];
    assert!(matches!(visit_step(&tokens, 0), (Visit::Bracketed(BracketStyle::Brace, 1, 2), 2)));
}

#[test]
fn symbols_and_brackets_as_text() {
    assert_eq!(Symbol::At.as_str(), "@");
    assert_eq!(Symbol::Octo.as_str(), "#");
    assert_eq!(Symbol::Dollar.as_char(), '$');
    assert_eq!(Symbol::Percent.as_char(), '%');
    assert_eq!(BracketStyle::Parens.open_str(), "(");
    assert_eq!(BracketStyle::Angle.close_str(), ">");
    assert_eq!(BracketStyle::Square.display_name(), "square bracket");
    assert_eq!(Bracketed::new_angle(3).range(2), 2..5);
}

#[test]
fn render_tokens_appends_to_what_is_there() {
    let tokens = fancy_parse("#{x}").unwrap();
    let mut out = String::from("> ");
    assert_eq!(render_tokens(&mut out, &tokens), Ok(()));
    assert_eq!(out, "> #{x}");
}

#[test]
fn render_tokens_stops_at_a_group_that_does_not_fit() {
    let tokens = [Token::Str("a"), Token::Bracketed(Bracketed::new_brace(2)), Token::Str("x")];
    let mut out = String::new();
    assert_eq!(render_tokens(&mut out, &tokens), Err(()));
    assert_eq!(out, "a");
}

#[test]
fn groups_fit_refuses_a_count_that_overflows() {
    assert!(groups_fit(&[Token::Str("a"), Token::Bracketed(Bracketed::new_brace(1))]));
    assert!(!groups_fit(&[Token::Str("a"), Token::Bracketed(Bracketed::new_brace(usize::MAX - 1))]));
    assert!(groups_fit(&[Token::Bracketed(Bracketed::new_brace(usize::MAX - 1))]));
}

#[test]
fn an_unclosed_open_bracket_is_unmatched_open() {
    assert_eq!(fancy_parse("a(b").unwrap_err(), FancyError::UnmatchedOpen(BracketStyle::Parens, 1));
    assert_eq!(fancy_parse("a)b").unwrap_err(), FancyError::UnmatchedClose(BracketStyle::Parens, 1));
}

#[test]
fn render_tokens_writes_up_to_a_nested_group_that_does_not_fit() {
    let tokens = [
        Token::Str("a"),
        Token::Bracketed(Bracketed::new_brace(2)),
        Token::Str("b"),
        Token::Bracketed(Bracketed::new_parens(5)),
        Token::Str("c"),
    ];
    let mut out = String::new();
    assert_eq!(render_tokens(&mut out, &tokens), Err(()));
    assert_eq!(out, "a{b");
}

#[test]
fn parsed_text_tokens_are_never_empty() {
    let tokens = fancy_parse("@ab @ #{e}f").unwrap();
    for t in &tokens {
        if let Token::Str(s) = t {
            assert!(!s.is_empty());
        }
    }
}

#[test]
fn fancy_parse_panics_only_inside_a_character() {
    assert!(!fancy_parse_panics("@foo"));
    assert!(!fancy_parse_panics("(a @foo)"));
    assert!(!fancy_parse_panics("a @foo)"));
    assert!(fancy_parse_panics("caf\u{e9}"));
    assert!(!fancy_parse_panics("@foo bar"));
    assert!(!fancy_parse_panics("a(b"));
    assert!(!fancy_parse_panics("plain text"));
}

#[test]
fn success_is_known_escapes_and_balanced_brackets() {
    for ok in ["", "a\\nb", "(a[b]{c}<d>)", "$x(y)", "\\(", "a\\"] {
        assert!(fancy_parse(ok).is_ok(), "{ok:?}");
    }
    for bad in ["\\q", "(a", "a)", "(]", "((a)", "[a>"] {
        assert!(fancy_parse(bad).is_err(), "{bad:?}");
    }
}
