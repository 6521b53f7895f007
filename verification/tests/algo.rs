use terp::algo::{fancy_parse, groups_fit, render_tokens, visit_step, BracketStyle, Bracketed, FancyError, Token, Visit};

/// What a `String` performer writes, with the default visits.
fn rebuild(tokens: &[Token<'_>]) -> Result<String, ()> {
    assert!(groups_fit(tokens));
    let mut out = String::new();
    render_tokens(&mut out, tokens)?;
    Ok(out)
}

#[test]
fn tokens_of_a_simple_source() {
    let t = fancy_parse("a@{b}\\n").unwrap();
    assert_eq!(t.len(), 5);
    assert!(matches!(t[0], Token::Raw("a")));
    assert!(matches!(t[1], Token::At));
    assert!(matches!(t[2], Token::Bracketed(b) if b == Bracketed::new_brace(1)));
    assert!(matches!(t[3], Token::Raw("b")));
    assert!(matches!(t[4], Token::Esc('\n')));
}

#[test]
fn algo_errors() {
    assert_eq!(
        fancy_parse("{)").unwrap_err(),
        FancyError::MismatchedBracket {
            found: BracketStyle::Parens,
            found_index: 1,
            expected: BracketStyle::Brace,
            expected_index: 0,
        }
    );
    assert_eq!(fancy_parse("]").unwrap_err(), FancyError::UnmatchedClose(BracketStyle::Square, 0));
    assert_eq!(fancy_parse("ab[").unwrap_err(), FancyError::UnmatchedOpen(BracketStyle::Square, 2));
    assert_eq!(fancy_parse("\\\\").unwrap_err(), FancyError::UnrecognizedEscape(0));
}

#[test]
fn algo_rebuilding_gives_back_the_source() {
    for src in ["plain", "@", "a@b", "#[x]y", "%%$", "<a(b[c]{d})>", "@(x)@"] {
        let tokens = fancy_parse(src).unwrap();
        assert_eq!(rebuild(&tokens).unwrap(), src);
    }
    let tokens = fancy_parse("\\@x\\0").unwrap();
    assert_eq!(rebuild(&tokens).unwrap(), "@x\0");
}

#[test]
fn algo_visit_steps() {
    let tokens = [Token::At, Token::Bracketed(Bracketed::new_parens(1)), Token::Raw("x"), Token::Percent];
    assert!(matches!(visit_step(&tokens, 0), (Visit::Symbol('@', 1, 3), 3)));
    assert!(matches!(visit_step(&tokens, 3), (Visit::TrailingSymbol('%'), 4)));
    let bad = [Token::Dollar, Token::Bracketed(Bracketed::new_parens(5))];
    assert!(matches!(visit_step(&bad, 0).0, Visit::InvalidBracketed));
}

#[test]
fn algo_render_tokens_appends_and_stops() {
    let tokens = fancy_parse("$(a)").unwrap();
    let mut out = String::from("x=");
    assert_eq!(render_tokens(&mut out, &tokens), Ok(()));
    assert_eq!(out, "x=$(a)");
    let bad = [Token::Raw("q"), Token::At, Token::Bracketed(Bracketed::new_parens(4))];
    let mut out = String::new();
    assert_eq!(render_tokens(&mut out, &bad), Err(()));
    assert_eq!(out, "q");
}

#[test]
fn algo_groups_fit() {
    assert!(groups_fit(&[Token::Percent, Token::Bracketed(Bracketed::new_square(0))]));
    assert!(!groups_fit(&[Token::Percent, Token::Bracketed(Bracketed::new_square(usize::MAX - 1))]));
}

#[test]
fn algo_an_unclosed_open_bracket_is_unmatched_open() {
    assert_eq!(fancy_parse("a(b").unwrap_err(), FancyError::UnmatchedOpen(BracketStyle::Parens, 1));
}
