use terp::token::{Ident, Interpolation, Span, Substitute, SubstituteIf, Token, TokenInner, TokenKind};

#[test]
fn spans_order_by_start_then_end() {
    assert!(Span { start: 0, end: 1 } < Span { start: 0, end: 2 });
    assert!(Span { start: 1, end: 1 } > Span { start: 0, end: 9 });
}

#[test]
fn idents_clone_and_compare() {
    let a = Ident { value: "name".into() };
    let b = a.clone();
    assert_eq!(a, b);
    assert_eq!(Substitute { ident: a }, Substitute { ident: b });
}

#[test]
fn tokens_compare_by_content() {
    let t = Token { inner: Box::new(TokenInner { span: Span { start: 0, end: 3 }, kind: TokenKind::Raw("abc".to_string()) }) };
    let u = Token { inner: Box::new(TokenInner { span: Span { start: 0, end: 3 }, kind: TokenKind::Raw("abc".to_string()) }) };
    assert_eq!(t, u);
    assert_ne!(t.inner.kind, TokenKind::Empty);
}

#[test]
fn tokens_clone_deeply() {
    let leaf = Token { inner: Box::new(TokenInner { span: Span { start: 4, end: 5 }, kind: TokenKind::Raw("x".to_string()) }) };
    let t = Token {
        inner: Box::new(TokenInner {
            span: Span { start: 0, end: 9 },
            kind: TokenKind::Interp(Interpolation::SubIf(SubstituteIf { ident: Ident { value: "k".into() }, token: leaf })),
        }),
    };
    let u = t.clone();
    assert_eq!(t, u);
}
