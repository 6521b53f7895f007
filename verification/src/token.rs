//! The syntax tree of conditional interpolations.
use vstd::prelude::*;

verus! {

/// `Clone` of a boxed string slice gives a box of the same text, as the standard library
/// documents (a new box holding a clone of the contents).
pub assume_specification[ <Box<str> as Clone>::clone ](b: &Box<str>) -> (res: Box<str>)
    ensures
        res@ == b@,
;

/// A byte range of the source.
#[derive(Debug, Clone, Copy, PartialEq, Eq, PartialOrd, Ord, Hash)]
pub struct Span {
    pub start: usize,
    pub end: usize,
}

#[derive(Debug, PartialEq, Eq, PartialOrd, Ord, Hash)]
pub struct Ident {
    pub value: Box<str>,
}

/// `%{ident}%`
#[derive(Debug, PartialEq, Eq, PartialOrd, Ord, Hash)]
pub struct Substitute {
    pub ident: Ident,
}

#[derive(Debug, Clone, PartialEq, Eq)]
pub struct PresentCond {
    pub ident: Ident,
    pub token: Token,
    pub alt: Option<Token>,
}

#[derive(Debug, Clone, PartialEq, Eq)]
pub struct AbsentCond {
    pub ident: Ident,
    pub token: Token,
    pub alt: Option<Token>,
}

#[derive(Debug, Clone, PartialEq, Eq)]
pub struct EqCond {
    pub lhs: Token,
    pub rhs: Token,
    pub token: Token,
    pub alt: Option<Token>,
}

#[derive(Debug, Clone, PartialEq, Eq)]
pub struct NeCond {
    pub lhs: Token,
    pub rhs: Token,
    pub token: Token,
    pub alt: Option<Token>,
}

#[derive(Debug, Clone, PartialEq, Eq)]
pub struct MatchCond {
    pub lhs: Token,
    pub pattern: Token,
    pub token: Token,
    pub alt: Option<Token>,
}

#[derive(Debug, Clone, PartialEq, Eq)]
pub struct MismatchCond {
    pub lhs: Token,
    pub pattern: Token,
    pub token: Token,
    pub alt: Option<Token>,
}

pub enum IfCond {
    /// Interpolates if `ident` is present.
    ///
    /// `%{?ident|token}%`
    Present(PresentCond),
    /// Interpolates if `ident` is absent.
    ///
    /// `%{?ident!|token}%`
    Absent(AbsentCond),
    /// Interpolates if `ident` is equal to `eq_token`.
    ///
    /// `%{?ident==eq_token|token}%`
    Equal(EqCond),
    /// Interpolates if `ident` is not equal to `ne_token`.
    ///
    /// `%{?ident!=ne_token|token}%`
    Inequal(NeCond),
    /// Interpolates if `ident` is a regex match for `pattern_token`.
    ///
    /// `%{?ident=~pattern_token|token}%`
    Matches(MatchCond),
    /// Interpolates if `ident` is not a regex match for `pattern_token`.
    ///
    /// `%{?ident!~pattern_token|token}%`
    NotMatches(MismatchCond),
}

/// `%{?ident|token}%`
#[derive(Debug, PartialEq, Eq)]
pub struct SubstituteIf {
    pub ident: Ident,
    pub token: Token,
}

#[derive(Debug, PartialEq, Eq)]
pub enum Interpolation {
    Sub(Substitute),
    SubIf(SubstituteIf),
}

#[derive(Debug, PartialEq, Eq)]
pub enum TokenKind {
    Empty,
    Raw(String),
    Interp(Interpolation),
}

#[derive(Debug, PartialEq, Eq)]
pub struct TokenInner {
    pub span: Span,
    pub kind: TokenKind,
}

#[derive(Debug, PartialEq, Eq)]
pub struct Token {
    pub inner: Box<TokenInner>,
}

/// Two names with the same text.
pub open spec fn ident_same(a: Ident, b: Ident) -> bool {
    a.value@ == b.value@
}

/// Two tokens with the same spans, texts and shape.
pub open spec fn token_same(a: Token, b: Token) -> bool
    decreases a,
{
    inner_same(*a.inner, *b.inner)
}

pub open spec fn inner_same(a: TokenInner, b: TokenInner) -> bool
    decreases a,
{
    a.span == b.span && kind_same(a.kind, b.kind)
}

pub open spec fn kind_same(a: TokenKind, b: TokenKind) -> bool
    decreases a,
{
    match (a, b) {
        (TokenKind::Empty, TokenKind::Empty) => true,
        (TokenKind::Raw(x), TokenKind::Raw(y)) => x@ == y@,
        (TokenKind::Interp(x), TokenKind::Interp(y)) => interpolation_same(x, y),
        _ => false,
    }
}

pub open spec fn interpolation_same(a: Interpolation, b: Interpolation) -> bool
    decreases a,
{
    match (a, b) {
        (Interpolation::Sub(x), Interpolation::Sub(y)) => ident_same(x.ident, y.ident),
        (Interpolation::SubIf(x), Interpolation::SubIf(y)) => ident_same(x.ident, y.ident)
            && token_same(x.token, y.token),
        _ => false,
    }
}

impl Clone for Ident {
    fn clone(&self) -> (r: Self)
        ensures
            ident_same(r, *self),
    {
        Ident { value: self.value.clone() }
    }
}

impl Clone for Substitute {
    fn clone(&self) -> (r: Self)
        ensures
            ident_same(r.ident, self.ident),
    {
        Substitute { ident: self.ident.clone() }
    }
}

impl Clone for SubstituteIf {
    fn clone(&self) -> (r: Self)
        ensures
            ident_same(r.ident, self.ident),
            token_same(r.token, self.token),
        decreases self,
    {
        SubstituteIf { ident: self.ident.clone(), token: self.token.clone() }
    }
}

impl Clone for Interpolation {
    fn clone(&self) -> (r: Self)
        ensures
            interpolation_same(r, *self),
        decreases self,
    {
        match self {
            Interpolation::Sub(sub) => Interpolation::Sub(sub.clone()),
            Interpolation::SubIf(sub) => Interpolation::SubIf(sub.clone()),
        }
    }
}

impl Clone for TokenKind {
    fn clone(&self) -> (r: Self)
        ensures
            kind_same(r, *self),
        decreases self,
    {
        match self {
            TokenKind::Empty => TokenKind::Empty,
            TokenKind::Raw(raw) => TokenKind::Raw(raw.clone()),
            TokenKind::Interp(interp) => TokenKind::Interp(interp.clone()),
        }
    }
}

impl Clone for TokenInner {
    fn clone(&self) -> (r: Self)
        ensures
            inner_same(r, *self),
        decreases self,
    {
        TokenInner { span: self.span, kind: self.kind.clone() }
    }
}

impl Clone for Token {
    fn clone(&self) -> (r: Self)
        ensures
            token_same(r, *self),
        decreases self,
    {
        Token { inner: Box::new((*self.inner).clone()) }
    }
}

} // verus!
