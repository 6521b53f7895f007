//! The tokenizer with symbols: `@`, `#`, `$` and `%` bind to the name, character or
//! bracketed group that follows them.
use vstd::prelude::*;
use crate::text::{
    bytes_of, on_boundary, substr, lemma_encode_ascii, push_char, lemma_prefix_append,
    lemma_prefix_trans, lemma_encode_push,
};
use crate::bracket::{
    opening_style, closing_style, escaped_char, opening_style_of, closing_style_of,
    escaped_char_of, char_bytes, unescape_from, unescape, lemma_char_bytes_ascii,
};
use vstd::utf8::encode_utf8;
pub use crate::bracket::{BracketStyle, Bracketed, FancyError};
pub use crate::driver::parse;
pub use crate::interp::{ParseNode, Never, InterpError, parse_interp, interpolate};

verus! {

/// The four symbol characters.
#[derive(Debug, Clone, Copy, PartialEq, Eq, Hash, Structural)]
pub enum Symbol {
    At,
    Octo,
    Dollar,
    Percent,
}

impl Symbol {
    /// The byte of the symbol: `@`, `#`, `$` or `%`.
    pub open spec fn byte(self) -> u8 {
        match self {
            Symbol::At => 64,
            Symbol::Octo => 35,
            Symbol::Dollar => 36,
            Symbol::Percent => 37,
        }
    }

    /// The symbol as text.
    pub fn as_str(self) -> (r: &'static str)
        ensures
            bytes_of(r) == seq![self.byte()],
    {
        let r = match self {
            Symbol::At => "@",
            Symbol::Octo => "#",
            Symbol::Dollar => "$",
            Symbol::Percent => "%",
        };
        proof {
            reveal_strlit("@");
            reveal_strlit("#");
            reveal_strlit("$");
            reveal_strlit("%");
            lemma_encode_ascii(r@);
            assert(encode_utf8(r@) =~= seq![self.byte()]);
        }
        r
    }

    /// The symbol as a character.
    pub fn as_char(self) -> (r: char)
        ensures
            r == self.byte() as char,
    {
        match self {
            Symbol::At => '@',
            Symbol::Octo => '#',
            Symbol::Dollar => '$',
            Symbol::Percent => '%',
        }
    }
}

/// The symbol that `b` is, if it is one.
pub open spec fn symbol_of(b: u8) -> Option<Symbol> {
    if b == 64 {
        Some(Symbol::At)
    } else if b == 35 {
        Some(Symbol::Octo)
    } else if b == 36 {
        Some(Symbol::Dollar)
    } else if b == 37 {
        Some(Symbol::Percent)
    } else {
        None
    }
}

fn symbol_of_byte(b: u8) -> (r: Option<Symbol>)
    ensures
        r == symbol_of(b),
{
    if b == 64 {
        Some(Symbol::At)
    } else if b == 35 {
        Some(Symbol::Octo)
    } else if b == 36 {
        Some(Symbol::Dollar)
    } else if b == 37 {
        Some(Symbol::Percent)
    } else {
        None
    }
}

/// A token of the source.
#[derive(Debug, Clone, Copy)]
pub enum Token<'a> {
    /// Text without special characters.
    Str(&'a str),
    /// An escaped character.
    Char(char),
    /// `(token_count, bracket_style)`
    Bracketed(Bracketed),
    /// A symbol followed by nothing that binds to it.
    Symbol(Symbol),
    /// A symbol followed by a bracketed group.
    BracketedSymbol(Symbol, Bracketed),
    /// A symbol followed by a name.
    SymbolId(Symbol, &'a str),
    /// A symbol followed by another symbol.
    SymbolChar(Symbol, char),
}

/// A `Token` with its text taken as bytes and its group as count and style.
pub enum TokenView {
    Str(Seq<u8>),
    Char(char),
    Bracketed(usize, BracketStyle),
    Symbol(Symbol),
    BracketedSymbol(Symbol, usize, BracketStyle),
    SymbolId(Symbol, Seq<u8>),
    SymbolChar(Symbol, char),
}

impl<'a> View for Token<'a> {
    type V = TokenView;

    open spec fn view(&self) -> TokenView {
        match *self {
            Token::Str(s) => TokenView::Str(bytes_of(s)),
            Token::Char(c) => TokenView::Char(c),
            Token::Bracketed(b) => TokenView::Bracketed(b.spec_count(), b.spec_style()),
            Token::Symbol(s) => TokenView::Symbol(s),
            Token::BracketedSymbol(s, b) => TokenView::BracketedSymbol(s, b.spec_count(), b.spec_style()),
            Token::SymbolId(s, id) => TokenView::SymbolId(s, bytes_of(id)),
            Token::SymbolChar(s, c) => TokenView::SymbolChar(s, c),
        }
    }
}

pub open spec fn tokens_view(s: Seq<Token<'_>>) -> Seq<TokenView> {
    s.map_values(|t: Token| t@)
}

/// The bytes that may follow a symbol as its name: letters, digits, `_` and `-`.
pub open spec fn is_id_byte(b: u8) -> bool {
    (65 <= b <= 90) || (97 <= b <= 122) || (48 <= b <= 57) || b == 95 || b == 45
}

fn is_id_byte_exec(b: u8) -> (r: bool)
    ensures
        r == is_id_byte(b),
{
    (65 <= b && b <= 90) || (97 <= b && b <= 122) || (48 <= b && b <= 57) || b == 95 || b == 45
}

/// The end of the run of name bytes of `span` that starts at `k`.
pub open spec fn id_end(span: Seq<u8>, k: int) -> int
    decreases span.len() - k,
{
    if 0 <= k < span.len() && is_id_byte(span[k]) {
        id_end(span, k + 1)
    } else {
        k
    }
}

/// The state of the tokenizer: the byte being looked at, the start of the pending raw
/// text, whether the last token is a symbol that the next text may bind to, the tokens so
/// far, and the open groups as (source index, token index, style).
pub struct FancyScan {
    pub index: int,
    pub raw_start: int,
    pub was_symbol: bool,
    pub tokens: Seq<TokenView>,
    pub stack: Seq<(usize, usize, BracketStyle)>,
}

/// How a tokenization ends.
pub enum FancyOutcome {
    Done(Seq<TokenView>),
    Failed(FancyError),
    /// The tokenizer panics: it would slice the source in the middle of a character.
    Panics,
}

pub open spec fn fancy_start() -> FancyScan {
    FancyScan { index: 0, raw_start: 0, was_symbol: false, tokens: Seq::empty(), stack: Seq::empty() }
}

/// The symbol of the last token, when it is a lone symbol.
pub open spec fn last_symbol(toks: Seq<TokenView>) -> Option<Symbol> {
    if toks.len() > 0 {
        match toks.last() {
            TokenView::Symbol(s) => Some(s),
            _ => None,
        }
    } else {
        None
    }
}

/// Emits the pending raw text, if any: a symbol just before it takes the leading name
/// bytes of it as its name, the whole text when it is all name bytes.  `None` where
/// slicing inside a character makes the tokenizer panic.
pub open spec fn fancy_finish(src: Seq<u8>, st: FancyScan, new_start: int) -> Option<FancyScan> {
    if st.raw_start != st.index {
        let span = src.subrange(st.raw_start, st.index);
        if st.was_symbol {
            let off = id_end(span, 0);
            if !on_boundary(span, off) {
                None
            } else if off > 0 {
                match last_symbol(st.tokens) {
                    Some(sym) => {
                        let named = st.tokens.update(st.tokens.len() - 1, TokenView::SymbolId(sym, span.subrange(0, off)));
                        Some(FancyScan {
                            tokens: if off < span.len() {
                                named.push(TokenView::Str(span.subrange(off, span.len() as int)))
                            } else {
                                named
                            },
                            was_symbol: false,
                            raw_start: new_start,
                            ..st
                        })
                    },
                    None => None,
                }
            } else {
                Some(FancyScan {
                    tokens: st.tokens.push(TokenView::Str(span)),
                    was_symbol: false,
                    raw_start: new_start,
                    ..st
                })
            }
        } else {
            Some(FancyScan { tokens: st.tokens.push(TokenView::Str(span)), raw_start: new_start, ..st })
        }
    } else {
        Some(FancyScan { raw_start: new_start, ..st })
    }
}

/// Emits an escaped character that takes `count` bytes.
pub open spec fn fancy_push_char(src: Seq<u8>, st: FancyScan, count: int, c: char) -> Option<FancyScan> {
    match fancy_finish(src, st, st.index + count) {
        Some(f) => Some(FancyScan {
            was_symbol: false,
            tokens: f.tokens.push(TokenView::Char(c)),
            index: st.index + count,
            ..f
        }),
        None => None,
    }
}

/// Emits a symbol, or joins it to a lone symbol just before it.
pub open spec fn fancy_push_symbol(src: Seq<u8>, st: FancyScan, sym: Symbol) -> Option<FancyScan> {
    match fancy_finish(src, st, st.index + 1) {
        Some(f) => if f.was_symbol {
            match last_symbol(f.tokens) {
                Some(prev) => Some(FancyScan {
                    was_symbol: false,
                    tokens: f.tokens.update(f.tokens.len() - 1, TokenView::SymbolChar(prev, sym.byte() as char)),
                    index: st.index + 1,
                    ..f
                }),
                None => None,
            }
        } else {
            Some(FancyScan {
                was_symbol: true,
                tokens: f.tokens.push(TokenView::Symbol(sym)),
                index: st.index + 1,
                ..f
            })
        },
        None => None,
    }
}

/// Opens a group, bound to a lone symbol just before it if there is one.
pub open spec fn fancy_begin(src: Seq<u8>, st: FancyScan, style: BracketStyle) -> Option<FancyScan> {
    match fancy_finish(src, st, st.index + 1) {
        Some(f) => if f.was_symbol {
            match last_symbol(f.tokens) {
                Some(sym) => Some(FancyScan {
                    was_symbol: false,
                    tokens: f.tokens.update(f.tokens.len() - 1, TokenView::BracketedSymbol(sym, usize::MAX, style)),
                    stack: f.stack.push((st.index as usize, (f.tokens.len() - 1) as usize, style)),
                    index: st.index + 1,
                    ..f
                }),
                None => None,
            }
        } else {
            Some(FancyScan {
                tokens: f.tokens.push(TokenView::Bracketed(usize::MAX, style)),
                stack: f.stack.push((st.index as usize, f.tokens.len() as usize, style)),
                index: st.index + 1,
                ..f
            })
        },
        None => None,
    }
}

/// A token with its group count replaced, if it is a group.
pub open spec fn with_count(t: TokenView, count: usize) -> Option<TokenView> {
    match t {
        TokenView::Bracketed(_, style) => Some(TokenView::Bracketed(count, style)),
        TokenView::BracketedSymbol(sym, _, style) => Some(TokenView::BracketedSymbol(sym, count, style)),
        _ => None,
    }
}

/// The result of closing a group: the next state, or how the tokenization ends.
pub enum FancyStep {
    Next(FancyScan),
    Stop(FancyOutcome),
}

/// Closes the innermost open group, which must have the same style; its token then
/// counts the tokens after it.
pub open spec fn fancy_end(src: Seq<u8>, st: FancyScan, style: BracketStyle) -> FancyStep {
    if st.stack.len() == 0 {
        FancyStep::Stop(FancyOutcome::Failed(FancyError::UnmatchedClose(style, st.index as usize)))
    } else {
        let back = st.stack.last();
        if back.2 != style {
            FancyStep::Stop(FancyOutcome::Failed(FancyError::MismatchedBracket {
                found: style,
                found_index: st.index as usize,
                expected: back.2,
                expected_index: back.0,
            }))
        } else {
            match fancy_finish(src, FancyScan { stack: st.stack.drop_last(), ..st }, st.index + 1) {
                Some(f) => {
                    let ti = back.1 as int;
                    if ti < f.tokens.len() {
                        match with_count(f.tokens[ti], (f.tokens.len() - ti - 1) as usize) {
                            Some(t) => FancyStep::Next(FancyScan {
                                was_symbol: false,
                                tokens: f.tokens.update(ti, t),
                                index: st.index + 1,
                                ..f
                            }),
                            None => FancyStep::Stop(FancyOutcome::Panics),
                        }
                    } else {
                        FancyStep::Stop(FancyOutcome::Panics)
                    }
                },
                None => FancyStep::Stop(FancyOutcome::Panics),
            }
        }
    }
}

/// One step of the tokenizer at a byte of the source.
pub open spec fn fancy_step(src: Seq<u8>, st: FancyScan) -> FancyStep {
    let i = st.index;
    let next = |o: Option<FancyScan>| match o {
        Some(n) => FancyStep::Next(n),
        None => FancyStep::Stop(FancyOutcome::Panics),
    };
    if !on_boundary(src, i) {
        FancyStep::Stop(FancyOutcome::Panics)
    } else if src[i] == 92 && src.len() - i >= 2 {
        match escaped_char(src[i + 1]) {
            Some(c) => next(fancy_push_char(src, st, 2, c)),
            None => FancyStep::Stop(FancyOutcome::Failed(FancyError::UnrecognizedEscape(i as usize))),
        }
    } else if opening_style(src[i]) is Some {
        next(fancy_begin(src, st, opening_style(src[i])->Some_0))
    } else if closing_style(src[i]) is Some {
        fancy_end(src, st, closing_style(src[i])->Some_0)
    } else if symbol_of(src[i]) is Some {
        next(fancy_push_symbol(src, st, symbol_of(src[i])->Some_0))
    } else {
        FancyStep::Next(FancyScan { index: i + 1, ..st })
    }
}

/// Every step moves past at least one byte.
pub proof fn lemma_fancy_step_advances(src: Seq<u8>, st: FancyScan)
    requires
        0 <= st.index < src.len(),
    ensures
        fancy_step(src, st) matches FancyStep::Next(n) ==> st.index < n.index <= src.len(),
{
}

/// The tokenization of `src` from state `st`.
pub open spec fn fancy_run(src: Seq<u8>, st: FancyScan) -> FancyOutcome
    decreases src.len() - st.index,
{
    if 0 <= st.index < src.len() {
        match fancy_step(src, st) {
            FancyStep::Next(n) => {
                proof {
                    lemma_fancy_step_advances(src, st);
                }
                if n.index > st.index {
                    fancy_run(src, n)
                } else {
                    FancyOutcome::Panics
                }
            },
            FancyStep::Stop(o) => o,
        }
    } else if st.stack.len() > 0 {
        FancyOutcome::Failed(FancyError::UnmatchedOpen(st.stack.last().2, st.stack.last().0))
    } else {
        match fancy_finish(src, st, src.len() as int) {
            Some(f) => FancyOutcome::Done(f.tokens),
            None => FancyOutcome::Panics,
        }
    }
}

/// The tokenization of a whole source.
pub open spec fn spec_fancy_parse(src: Seq<u8>) -> FancyOutcome {
    fancy_run(src, fancy_start())
}


/// An open group: where its bracket is in the source, where its token is, and its style.
#[derive(Clone, Copy)]
struct Backtrack {
    src_index: usize,
    token_index: usize,
    bracket_style: BracketStyle,
}

spec fn backtrack_view(s: Seq<Backtrack>) -> Seq<(usize, usize, BracketStyle)> {
    s.map_values(|b: Backtrack| (b.src_index, b.token_index, b.bracket_style))
}

/// The tokenizer's state.
struct Builder<'a> {
    was_symbol: bool,
    index: usize,
    raw_start: usize,
    tokens: Vec<Token<'a>>,
    backtrack: Vec<Backtrack>,
}

impl<'a> Builder<'a> {
    spec fn scan(&self) -> FancyScan {
        FancyScan {
            index: self.index as int,
            raw_start: self.raw_start as int,
            was_symbol: self.was_symbol,
            tokens: tokens_view(self.tokens@),
            stack: backtrack_view(self.backtrack@),
        }
    }

    /// The pending raw text lies between character boundaries of `src`.
    spec fn positioned(&self, src: Seq<u8>) -> bool {
        &&& self.raw_start <= self.index <= src.len() <= usize::MAX
        &&& self.raw_start == self.index || on_boundary(src, self.raw_start as int)
        &&& on_boundary(src, self.index as int)
    }

    fn new() -> (r: Self)
        ensures
            r.scan() == fancy_start(),
    {
        let r = Self { was_symbol: false, index: 0, raw_start: 0, tokens: Vec::new(), backtrack: Vec::new() };
        proof {
            assert(tokens_view(r.tokens@) =~= Seq::<TokenView>::empty());
            assert(backtrack_view(r.backtrack@) =~= Seq::<(usize, usize, BracketStyle)>::empty());
        }
        r
    }

    fn finish_raw(&mut self, src: &'a str, new_start: usize)
        requires
            old(self).positioned(bytes_of(src)),
            fancy_finish(bytes_of(src), old(self).scan(), new_start as int) is Some,
        ensures
            final(self).scan() == fancy_finish(bytes_of(src), old(self).scan(), new_start as int)->Some_0,
    {
        let ghost b = bytes_of(src);
        let ghost st = self.scan();
        if self.raw_start != self.index {
            let span = substr(src, self.raw_start, self.index);
            let ghost sp = bytes_of(span);
            let sb = span.as_bytes();
            let mut raw_offset: usize = 0;
            if self.was_symbol {
                self.was_symbol = false;
                while raw_offset < sb.len() && is_id_byte_exec(sb[raw_offset])
                    invariant
                        sb@ == sp,
                        raw_offset <= sb@.len(),
                        id_end(sp, raw_offset as int) == id_end(sp, 0),
                    decreases sb@.len() - raw_offset,
                {
                    raw_offset = raw_offset + 1;
                }
                if raw_offset > 0 {
                    let symbol_index = self.tokens.len() - 1;
                    match self.tokens[symbol_index] {
                        Token::Symbol(symbol) => {
                            let id = substr(span, 0, raw_offset);
                            self.tokens.set(symbol_index, Token::SymbolId(symbol, id));
                        },
                        _ => {
                            proof {
                                assert(tokens_view(self.tokens@)[symbol_index as int] == self.tokens@[symbol_index as int]@);
                            }
                            vstd::pervasive::unreached::<()>();
                        },
                    }
                }
            }
            let ghost mid = self.tokens@;
            if raw_offset < sb.len() || raw_offset == 0 {
                let rest = substr(span, raw_offset, sb.len());
                self.tokens.push(Token::Str(rest));
            }
            proof {
                if st.was_symbol && raw_offset > 0 {
                    if raw_offset < sb.len() {
                        assert(tokens_view(self.tokens@) =~= st.tokens.update(st.tokens.len() - 1,
                            TokenView::SymbolId(last_symbol(st.tokens)->Some_0, sp.subrange(0, raw_offset as int)))
                            .push(TokenView::Str(sp.subrange(raw_offset as int, sp.len() as int))));
                    } else {
                        assert(tokens_view(self.tokens@) =~= st.tokens.update(st.tokens.len() - 1,
                            TokenView::SymbolId(last_symbol(st.tokens)->Some_0, sp.subrange(0, raw_offset as int))));
                    }
                } else {
                    assert(sp.subrange(0, sp.len() as int) =~= sp);
                    assert(tokens_view(self.tokens@) =~= st.tokens.push(TokenView::Str(sp)));
                }
            }
        }
        self.raw_start = new_start;
    }

    fn push_char(&mut self, src: &'a str, count: usize, chr: char)
        requires
            old(self).positioned(bytes_of(src)),
            old(self).index + count <= bytes_of(src).len(),
            fancy_push_char(bytes_of(src), old(self).scan(), count as int, chr) is Some,
        ensures
            final(self).scan() == fancy_push_char(bytes_of(src), old(self).scan(), count as int, chr)->Some_0,
    {
        let new_index = self.index + count;
        self.finish_raw(src, new_index);
        self.was_symbol = false;
        let ghost mid = self.tokens@;
        self.tokens.push(Token::Char(chr));
        self.index = new_index;
        proof {
            assert(tokens_view(self.tokens@) =~= tokens_view(mid).push(TokenView::Char(chr)));
        }
    }

    fn push_symbol(&mut self, src: &'a str, symbol: Symbol)
        requires
            old(self).positioned(bytes_of(src)),
            old(self).index < bytes_of(src).len(),
            fancy_push_symbol(bytes_of(src), old(self).scan(), symbol) is Some,
        ensures
            final(self).scan() == fancy_push_symbol(bytes_of(src), old(self).scan(), symbol)->Some_0,
    {
        let new_index = self.index + 1;
        self.finish_raw(src, new_index);
        let ghost mid = self.tokens@;
        if self.was_symbol {
            self.was_symbol = false;
            let symbol_index = self.tokens.len() - 1;
            proof {
                assert(tokens_view(mid)[symbol_index as int] == mid[symbol_index as int]@);
            }
            match self.tokens[symbol_index] {
                Token::Symbol(last_symbol) => {
                    self.tokens.set(symbol_index, Token::SymbolChar(last_symbol, symbol.as_char()));
                },
                _ => {
                    vstd::pervasive::unreached::<()>();
                },
            }
            proof {
                assert(tokens_view(self.tokens@) =~= tokens_view(mid).update(symbol_index as int,
                    TokenView::SymbolChar(last_symbol(tokens_view(mid))->Some_0, symbol.byte() as char)));
            }
        } else {
            self.tokens.push(Token::Symbol(symbol));
            self.was_symbol = true;
            proof {
                assert(tokens_view(self.tokens@) =~= tokens_view(mid).push(TokenView::Symbol(symbol)));
            }
        }
        self.index = new_index;
    }

    fn begin_bracketed(&mut self, src: &'a str, bracket_style: BracketStyle)
        requires
            old(self).positioned(bytes_of(src)),
            old(self).index < bytes_of(src).len(),
            fancy_begin(bytes_of(src), old(self).scan(), bracket_style) is Some,
        ensures
            final(self).scan() == fancy_begin(bytes_of(src), old(self).scan(), bracket_style)->Some_0,
    {
        let new_index = self.index + 1;
        self.finish_raw(src, new_index);
        let ghost mid = self.tokens@;
        let token_index = if self.was_symbol {
            self.was_symbol = false;
            let index = self.tokens.len() - 1;
            proof {
                assert(tokens_view(mid)[index as int] == mid[index as int]@);
            }
            match self.tokens[index] {
                Token::Symbol(symbol) => {
                    self.tokens.set(index, Token::BracketedSymbol(symbol, Bracketed::new(usize::MAX, bracket_style)));
                },
                _ => {
                    vstd::pervasive::unreached::<()>();
                },
            }
            proof {
                assert(tokens_view(self.tokens@) =~= tokens_view(mid).update(index as int,
                    TokenView::BracketedSymbol(last_symbol(tokens_view(mid))->Some_0, usize::MAX, bracket_style)));
            }
            index
        } else {
            let index = self.tokens.len();
            self.tokens.push(Token::Bracketed(Bracketed::new(usize::MAX, bracket_style)));
            proof {
                assert(tokens_view(self.tokens@) =~= tokens_view(mid).push(TokenView::Bracketed(usize::MAX, bracket_style)));
            }
            index
        };
        let ghost bt = self.backtrack@;
        self.backtrack.push(Backtrack { src_index: self.index, token_index, bracket_style });
        self.index = new_index;
        proof {
            assert(backtrack_view(self.backtrack@) =~= backtrack_view(bt).push(
                (old(self).index, token_index, bracket_style)));
        }
    }

    fn end_bracketed(&mut self, src: &'a str, bracket_style: BracketStyle) -> (r: Result<bool, FancyError>)
        requires
            old(self).positioned(bytes_of(src)),
            old(self).index < bytes_of(src).len(),
            !(fancy_end(bytes_of(src), old(self).scan(), bracket_style) matches FancyStep::Stop(FancyOutcome::Panics)),
        ensures
            match fancy_end(bytes_of(src), old(self).scan(), bracket_style) {
                FancyStep::Next(n) => r == Ok::<bool, FancyError>(true) && final(self).scan() == n,
                FancyStep::Stop(FancyOutcome::Failed(e)) => r == Err::<bool, FancyError>(e),
                _ => false,
            },
    {
        let ghost st = self.scan();
        let ghost bt = self.backtrack@;
        let back = match self.backtrack.pop() {
            Some(back) => back,
            None => {
                return Err(FancyError::UnmatchedClose(bracket_style, self.index));
            },
        };
        proof {
            assert(backtrack_view(bt).last() == (back.src_index, back.token_index, back.bracket_style));
            assert(backtrack_view(self.backtrack@) =~= backtrack_view(bt).drop_last());
        }
        if back.bracket_style != bracket_style {
            return Err(FancyError::MismatchedBracket {
                found: bracket_style,
                found_index: self.index,
                expected: back.bracket_style,
                expected_index: back.src_index,
            });
        }
        let new_index = self.index + 1;
        self.finish_raw(src, new_index);
        self.was_symbol = false;
        let ghost mid = self.tokens@;
        let token_count = self.tokens.len() - back.token_index - 1;
        proof {
            assert(tokens_view(mid)[back.token_index as int] == mid[back.token_index as int]@);
        }
        match self.tokens[back.token_index] {
            Token::Bracketed(brack) => {
                self.tokens.set(back.token_index, Token::Bracketed(brack.with_count(token_count)));
            },
            Token::BracketedSymbol(sym, brack) => {
                self.tokens.set(back.token_index, Token::BracketedSymbol(sym, brack.with_count(token_count)));
            },
            _ => {
                vstd::pervasive::unreached::<()>();
            },
        }
        proof {
            assert(tokens_view(self.tokens@) =~= tokens_view(mid).update(back.token_index as int,
                with_count(tokens_view(mid)[back.token_index as int], token_count)->Some_0));
        }
        self.index = new_index;
        Ok(true)
    }
}

/// What the tokenizer keeps true between steps: the pending raw text starts at a character
/// boundary, and going on from here gives the tokenization of the whole source.
spec fn builder_ok(b: Builder, src: Seq<u8>) -> bool {
    &&& builder_core(b, src)
    &&& !(spec_fancy_parse(src) is Panics)
}

/// The tokenizer's state lies inside the source, and going on from it gives the
/// tokenization of the whole source.
spec fn builder_core(b: Builder, src: Seq<u8>) -> bool {
    &&& b.raw_start <= b.index <= src.len()
    &&& b.raw_start == b.index || on_boundary(src, b.raw_start as int)
    &&& fancy_run(src, b.scan()) == spec_fancy_parse(src)
}

/// The next step from this state, or the end of the tokenization, does not panic.
spec fn step_safe(b: Builder, src: Seq<u8>) -> bool {
    &&& b.index < src.len() ==> !(fancy_step(src, b.scan()) matches FancyStep::Stop(FancyOutcome::Panics))
    &&& b.index >= src.len() && b.backtrack@.len() == 0 ==> fancy_finish(src, b.scan(), src.len() as int) is Some
}

/// What a finished tokenization of a source whose length is a `usize` gives: the tokens,
/// or the error.
spec fn tokenized(b: Builder, r: Result<(), FancyError>, src: Seq<u8>) -> bool {
    match r {
        Ok(_) => src.len() <= usize::MAX && spec_fancy_parse(src) == FancyOutcome::Done(tokens_view(b.tokens@)),
        Err(e) => src.len() <= usize::MAX && spec_fancy_parse(src) == FancyOutcome::Failed(e),
    }
}

/// One step of the tokenizer: takes the token at the current byte, or at the end of the
/// source closes the pending text and answers `Ok(false)`.
fn tokenize_step<'a>(out: &mut Builder<'a>, source: &'a str) -> (c: Result<bool, FancyError>)
    requires
        builder_core(*old(out), bytes_of(source)),
        step_safe(*old(out), bytes_of(source)),
    ensures
        c matches Ok(true) ==> builder_core(*final(out), bytes_of(source)) && final(out).index > old(out).index,
        c matches Ok(false) ==> tokenized(*final(out), Ok(()), bytes_of(source)),
        c matches Err(e) ==> tokenized(*final(out), Err(e), bytes_of(source)),
{
    let ghost src = bytes_of(source);
    let bytes = source.as_bytes();
    let len = bytes.len();
    if out.index >= len {
        if out.backtrack.len() > 0 {
            let ghost bt = out.backtrack@;
            let unmatched = out.backtrack.pop().unwrap();
            proof {
                assert(bt == out.backtrack@.push(unmatched));
                assert(backtrack_view(bt).last() == (unmatched.src_index, unmatched.token_index, unmatched.bracket_style));
            }
            return Err(FancyError::UnmatchedOpen(unmatched.bracket_style, unmatched.src_index));
        }
        proof {
            crate::text::lemma_on_boundary(source, len as int);
        }
        out.finish_raw(source, len);
        return Ok(false);
    }
    assert(on_boundary(src, out.index as int));
    let c = bytes[out.index];
    if c == 92 && len - out.index >= 2 {
        match escaped_char_of(bytes[out.index + 1]) {
            Some(chr) => {
                out.push_char(source, 2, chr);
                Ok(true)
            },
            None => Err(FancyError::UnrecognizedEscape(out.index)),
        }
    } else if let Some(style) = opening_style_of(c) {
        out.begin_bracketed(source, style);
        Ok(true)
    } else if let Some(style) = closing_style_of(c) {
        out.end_bracketed(source, style)
    } else if let Some(symbol) = symbol_of_byte(c) {
        out.push_symbol(source, symbol);
        Ok(true)
    } else {
        out.index = out.index + 1;
        Ok(true)
    }
}

/// Splits `source` into tokens: runs of plain text, escapes `\n`, `\t`, `\r`, `\0` and
/// `\` before a bracket or symbol, bracketed groups, and symbols with what binds to them.
pub fn fancy_parse<'a>(source: &'a str) -> (r: Result<Vec<Token<'a>>, FancyError>)
    requires
        !(spec_fancy_parse(bytes_of(source)) is Panics),
    ensures
        match spec_fancy_parse(bytes_of(source)) {
            FancyOutcome::Done(toks) => r matches Ok(v) && tokens_view(v@) == toks,
            FancyOutcome::Failed(e) => r == Err::<Vec<Token<'a>>, FancyError>(e),
            FancyOutcome::Panics => false,
        },
        r matches Ok(v) ==> render(tokens_view(v@)) == Some(unescape(bytes_of(source))),
        r matches Ok(v) ==> group_ends_fit(tokens_view(v@)),
        r matches Ok(v) ==> strs_nonempty(tokens_view(v@)) && groups_nest(tokens_view(v@)),
        r is Ok <==> well_bracketed(bytes_of(source)),
{
    let ghost src = bytes_of(source);
    let mut builder = Builder::new();
    let parsed = parse(
        &mut builder,
        source,
        tokenize_step,
        Ghost(|b: Builder<'a>| builder_ok(b, src)),
        Ghost(|b: Builder<'a>| (src.len() - b.index) as nat),
        Ghost(|b: Builder<'a>, r: Result<(), FancyError>| tokenized(b, r, src)),
    );
    proof {
        lemma_fancy_parse_succeeds(src);
    }
    if let Err(e) = parsed {
        return Err(e);
    }
    proof {
        lemma_fancy_parse_roundtrip(src);
        lemma_fancy_parse_shape(src);
        assert(builder.tokens@.len() == builder.tokens.len());
        lemma_render_group_ends_fit(tokens_view(builder.tokens@));
    }
    Ok(builder.tokens)
}

/// How a performer reports tokens that it cannot visit.
pub trait FancyPerformerError<'a>: Sized {
    fn invalid_tokens(tokens: &[Token<'a>]) -> Self;

    fn invalid_bracketed() -> Self;
}

impl<'a> FancyPerformerError<'a> for () {
    fn invalid_tokens(_tokens: &[Token<'a>]) -> Self {
        ()
    }

    fn invalid_bracketed() -> Self {
        ()
    }
}

/// `String::with_capacity`: an empty string.  Its capacity is the allocator's and is not
/// stated.
#[verifier::external_body]
fn string_with_capacity(capacity: usize) -> (r: String)
    ensures
        r@ == Seq::<char>::empty(),
{
    String::with_capacity(capacity)
}

/// The number of bytes a string holds.
spec fn byte_len(s: String) -> nat {
    encode_utf8(s@).len()
}

/// `String::capacity`: what the allocator gave.  The standard library documents only that
/// the length, in bytes, is never more than the capacity; nothing more is stated.
#[verifier::external_body]
fn string_capacity(s: &String) -> (r: usize)
    ensures
        byte_len(*s) <= r,
{
    s.capacity()
}

/// The first position whose capacity in `caps` is at least `capacity`, or `None` when
/// every one is smaller.
fn first_fit(caps: &Vec<usize>, capacity: usize) -> (r: Option<usize>)
    ensures
        r matches Some(i) ==> i < caps@.len() && caps@[i as int] >= capacity
            && forall|j: int| 0 <= j < i ==> caps@[j] < capacity,
        r is None ==> forall|j: int| 0 <= j < caps@.len() ==> caps@[j] < capacity,
{
    let n = caps.len();
    for i in 0..n
        invariant
            n == caps@.len(),
            forall|j: int| 0 <= j < i ==> caps@[j] < capacity,
    {
        if caps[i] >= capacity {
            return Some(i);
        }
    }
    None
}

/// Strings kept for reuse.
struct StringPool {
    pool: Vec<String>,
}

impl StringPool {
    fn new() -> (r: Self)
        ensures
            r.pool@ == Seq::<String>::empty(),
    {
        Self { pool: Vec::new() }
    }

    /// The last string put back, or a new empty one.
    fn get(&mut self) -> (r: String)
        ensures
            old(self).pool@.len() > 0 ==> r == old(self).pool@.last()
                && final(self).pool@ == old(self).pool@.drop_last(),
            old(self).pool@.len() == 0 ==> r@ == Seq::<char>::empty() && final(self).pool@ == old(self).pool@,
    {
        match self.pool.pop() {
            Some(s) => s,
            None => string_with_capacity(4096),
        }
    }

    /// The first pooled string whose capacity is at least `capacity`, taken out of the
    /// pool (the last string takes its place), or a new empty one when none has it.  The
    /// choice is `first_fit` over the capacities read from the pool; a string's capacity is
    /// at least its length, so the strings passed over, and all of them when a new one is
    /// made, are shorter than `capacity` bytes.
    fn get_with_capacity(&mut self, capacity: usize) -> (r: String)
        ensures
            (exists|i: int| 0 <= i < old(self).pool@.len() && r == old(self).pool@[i]
                && final(self).pool@ == old(self).pool@.update(i, old(self).pool@.last()).drop_last()
                && forall|j: int| 0 <= j < i ==> byte_len(#[trigger] old(self).pool@[j]) < capacity)
            || (r@ == Seq::<char>::empty() && final(self).pool@ == old(self).pool@
                && forall|j: int| 0 <= j < old(self).pool@.len() ==> byte_len(#[trigger] old(self).pool@[j]) < capacity),
    {
        let n = self.pool.len();
        let mut caps: Vec<usize> = Vec::new();
        for i in 0..n
            invariant
                n == self.pool@.len(),
                self.pool@ == old(self).pool@,
                caps@.len() == i,
                forall|j: int| 0 <= j < i ==> byte_len(#[trigger] self.pool@[j]) <= caps@[j],
        {
            let c = string_capacity(&self.pool[i]);
            caps.push(c);
        }
        match first_fit(&caps, capacity) {
            Some(i) => self.pool.swap_remove(i),
            None => string_with_capacity(capacity),
        }
    }

    /// Keeps a string for reuse.
    fn put(&mut self, s: String)
        ensures
            final(self).pool@ == old(self).pool@.push(s),
    {
        self.pool.push(s);
    }
}

/// Options of the tokenizer (none yet).
pub struct FancyOptions {}

/// What a performer visits next: a token, or a group given by the range of its tokens.
#[derive(Debug, Clone, Copy)]
pub enum Visit<'a> {
    Str(&'a str),
    Char(char),
    Bracketed(BracketStyle, usize, usize),
    BracketedSymbol(Symbol, BracketStyle, usize, usize),
    Symbol(Symbol),
    SymbolId(Symbol, &'a str),
    SymbolChar(Symbol, char),
    /// A group claims more tokens than there are.
    InvalidBracketed,
}

/// The count of the group that the token opens, if it opens one.
pub open spec fn group_count(t: TokenView) -> Option<int> {
    match t {
        TokenView::Bracketed(c, _) => Some(c as int),
        TokenView::BracketedSymbol(_, c, _) => Some(c as int),
        _ => None,
    }
}

/// The step of a performer at `tokens[index]`: what it visits, and where it goes on.
/// A group's tokens are the `count` tokens after it; they are visited as one group.
pub fn visit_step<'a>(tokens: &[Token<'a>], index: usize) -> (r: (Visit<'a>, usize))
    requires
        index < tokens@.len(),
        group_count(tokens@[index as int]@) matches Some(c) ==> index + 1 + c <= usize::MAX,
    ensures
        match tokens@[index as int] {
            Token::Str(s) => r == (Visit::Str(s), (index + 1) as usize),
            Token::Char(c) => r == (Visit::Char(c), (index + 1) as usize),
            Token::Symbol(s) => r == (Visit::Symbol(s), (index + 1) as usize),
            Token::SymbolId(s, id) => r == (Visit::SymbolId(s, id), (index + 1) as usize),
            Token::SymbolChar(s, c) => r == (Visit::SymbolChar(s, c), (index + 1) as usize),
            Token::Bracketed(b) => {
                let end = index + 1 + b.spec_count();
                if end <= tokens@.len() {
                    r == (Visit::Bracketed(b.spec_style(), (index + 1) as usize, end as usize), end as usize)
                } else {
                    r.0 is InvalidBracketed
                }
            },
            Token::BracketedSymbol(s, b) => {
                let end = index + 1 + b.spec_count();
                if end <= tokens@.len() {
                    r == (Visit::BracketedSymbol(s, b.spec_style(), (index + 1) as usize, end as usize), end as usize)
                } else {
                    r.0 is InvalidBracketed
                }
            },
        },
{
    match tokens[index] {
        Token::Str(raw) => (Visit::Str(raw), index + 1),
        Token::Char(esc) => (Visit::Char(esc), index + 1),
        Token::Bracketed(bracketed) => {
            let range = bracketed.range(index + 1);
            if tokens.len() < range.end {
                return (Visit::InvalidBracketed, index);
            }
            (Visit::Bracketed(bracketed.style(), range.start, range.end), range.end)
        },
        Token::BracketedSymbol(symbol, bracketed) => {
            let range = bracketed.range(index + 1);
            if tokens.len() < range.end {
                return (Visit::InvalidBracketed, index);
            }
            (Visit::BracketedSymbol(symbol, bracketed.style(), range.start, range.end), range.end)
        },
        Token::Symbol(symbol) => (Visit::Symbol(symbol), index + 1),
        Token::SymbolId(symbol, id) => (Visit::SymbolId(symbol, id), index + 1),
        Token::SymbolChar(symbol, chr) => (Visit::SymbolChar(symbol, chr), index + 1),
    }
}


/// The style of the group that the token opens, if it opens one.
pub open spec fn group_style(t: TokenView) -> Option<BracketStyle> {
    match t {
        TokenView::Bracketed(_, style) => Some(style),
        TokenView::BracketedSymbol(_, _, style) => Some(style),
        _ => None,
    }
}

/// The text a performer writes for a token before the tokens of its group.
pub open spec fn token_head(t: TokenView) -> Seq<u8> {
    match t {
        TokenView::Str(b) => b,
        TokenView::Char(c) => char_bytes(c),
        TokenView::Bracketed(_, style) => seq![style.open_byte()],
        TokenView::Symbol(s) => seq![s.byte()],
        TokenView::BracketedSymbol(s, _, style) => seq![s.byte(), style.open_byte()],
        TokenView::SymbolId(s, id) => seq![s.byte()] + id,
        TokenView::SymbolChar(s, c) => seq![s.byte()] + char_bytes(c),
    }
}

/// The text a performer writes for a token after the tokens of its group.
pub open spec fn token_tail(t: TokenView) -> Seq<u8> {
    match group_style(t) {
        Some(style) => seq![style.close_byte()],
        None => Seq::empty(),
    }
}

/// How many tokens a token takes with it: itself and those of its group.
pub open spec fn unit_len(t: TokenView) -> int {
    match group_count(t) {
        Some(c) => 1 + c,
        None => 1,
    }
}

/// The text that a `String` performer writes for the tokens, as the default visits give
/// it: each token's text, a group's tokens between its brackets, and a symbol's character
/// before what binds to it.  `None` where a group claims more tokens than there are.
pub open spec fn render(toks: Seq<TokenView>) -> Option<Seq<u8>>
    decreases toks.len(),
{
    if toks.len() == 0 {
        Some(Seq::empty())
    } else {
        let e = unit_len(toks[0]);
        if e > toks.len() {
            None
        } else {
            match (render(toks.subrange(1, e)), render(toks.subrange(e, toks.len() as int))) {
                (Some(inner), Some(rest)) => Some(token_head(toks[0]) + inner + token_tail(toks[0]) + rest),
                _ => None,
            }
        }
    }
}

proof fn lemma_render_concat(a: Seq<TokenView>, b: Seq<TokenView>)
    requires
        render(a) is Some,
        render(b) is Some,
    ensures
        render(a + b) == Some(render(a)->Some_0 + render(b)->Some_0),
    decreases a.len(),
{
    if a.len() == 0 {
        assert(a + b =~= b);
        assert(render(a)->Some_0 =~= Seq::<u8>::empty());
        assert(render(a)->Some_0 + render(b)->Some_0 =~= render(b)->Some_0);
    } else {
        let ab = a + b;
        let e = unit_len(a[0]);
        assert(ab[0] == a[0]);
        assert(ab.subrange(1, e) =~= a.subrange(1, e));
        assert(ab.subrange(e, ab.len() as int) =~= a.subrange(e, a.len() as int) + b);
        lemma_render_concat(a.subrange(e, a.len() as int), b);
        let ra = render(a)->Some_0;
        let rb = render(b)->Some_0;
        let inner = render(a.subrange(1, e))->Some_0;
        let rest = render(a.subrange(e, a.len() as int))->Some_0;
        assert(token_head(a[0]) + inner + token_tail(a[0]) + (rest + rb)
            =~= (token_head(a[0]) + inner + token_tail(a[0]) + rest) + rb);
    }
}

proof fn lemma_render_single(x: TokenView)
    requires
        group_count(x) is None,
    ensures
        render(seq![x]) == Some(token_head(x)),
{
    let t = seq![x];
    assert(t[0] == x);
    assert(t.subrange(1, 1) =~= Seq::<TokenView>::empty());
    assert(render(Seq::<TokenView>::empty()) == Some(Seq::<u8>::empty()));
    assert(token_head(x) + Seq::<u8>::empty() + Seq::<u8>::empty() + Seq::<u8>::empty() =~= token_head(x));
}

proof fn lemma_render_push(a: Seq<TokenView>, x: TokenView)
    requires
        render(a) is Some,
        group_count(x) is None,
    ensures
        render(a.push(x)) == Some(render(a)->Some_0 + token_head(x)),
{
    lemma_render_single(x);
    lemma_render_concat(a, seq![x]);
    assert(a + seq![x] =~= a.push(x));
}

/// The open groups, as (source index, token index, style), are in token order, and each
/// names a group token of its style.
pub open spec fn stack_ok(toks: Seq<TokenView>, stack: Seq<(usize, usize, BracketStyle)>) -> bool {
    &&& forall|a: int, b: int| 0 <= a < b < stack.len() ==> stack[a].1 < stack[b].1
    &&& forall|a: int| 0 <= a < stack.len() ==> (#[trigger] stack[a]).1 < toks.len()
        && group_style(toks[stack[a].1 as int]) == Some(stack[a].2)
}

/// The text of the tokens so far when the open groups are not closed yet.
pub open spec fn prender(toks: Seq<TokenView>, stack: Seq<(usize, usize, BracketStyle)>) -> Option<Seq<u8>>
    decreases stack.len(),
{
    if stack.len() == 0 {
        render(toks)
    } else {
        let t = stack.last().1 as int;
        if 0 <= t < toks.len() {
            match (prender(toks.subrange(0, t), stack.drop_last()), render(toks.subrange(t + 1, toks.len() as int))) {
                (Some(a), Some(b)) => Some(a + token_head(toks[t]) + b),
                _ => None,
            }
        } else {
            None
        }
    }
}

proof fn lemma_prender_push(toks: Seq<TokenView>, stack: Seq<(usize, usize, BracketStyle)>, x: TokenView)
    requires
        stack_ok(toks, stack),
        prender(toks, stack) is Some,
        group_count(x) is None,
    ensures
        prender(toks.push(x), stack) == Some(prender(toks, stack)->Some_0 + token_head(x)),
        stack_ok(toks.push(x), stack),
{
    let t2 = toks.push(x);
    assert forall|a: int| 0 <= a < stack.len() implies (#[trigger] stack[a]).1 < t2.len()
        && group_style(t2[stack[a].1 as int]) == Some(stack[a].2) by {
        assert(t2[stack[a].1 as int] == toks[stack[a].1 as int]);
    }
    if stack.len() == 0 {
        lemma_render_push(toks, x);
    } else {
        let t = stack.last().1 as int;
        assert(stack[stack.len() - 1] == stack.last());
        assert(t2.subrange(0, t) =~= toks.subrange(0, t));
        assert(t2.subrange(t + 1, t2.len() as int) =~= toks.subrange(t + 1, toks.len() as int).push(x));
        assert(t2[t] == toks[t]);
        lemma_render_push(toks.subrange(t + 1, toks.len() as int), x);
        let a = prender(toks.subrange(0, t), stack.drop_last())->Some_0;
        let b = render(toks.subrange(t + 1, toks.len() as int))->Some_0;
        assert(a + token_head(toks[t]) + (b + token_head(x)) =~= (a + token_head(toks[t]) + b) + token_head(x));
    }
}

proof fn lemma_prender_open(toks: Seq<TokenView>, stack: Seq<(usize, usize, BracketStyle)>, g: TokenView, si: usize)
    requires
        stack_ok(toks, stack),
        prender(toks, stack) is Some,
        group_style(g) is Some,
        toks.len() <= usize::MAX,
    ensures
        prender(toks.push(g), stack.push((si, toks.len() as usize, group_style(g)->Some_0)))
            == Some(prender(toks, stack)->Some_0 + token_head(g)),
        stack_ok(toks.push(g), stack.push((si, toks.len() as usize, group_style(g)->Some_0))),
{
    let t2 = toks.push(g);
    let s2 = stack.push((si, toks.len() as usize, group_style(g)->Some_0));
    let n = toks.len() as int;
    assert(s2.drop_last() =~= stack);
    assert(t2.subrange(0, n) =~= toks);
    assert(t2.subrange(n + 1, t2.len() as int) =~= Seq::<TokenView>::empty());
    assert(render(Seq::<TokenView>::empty()) == Some(Seq::<u8>::empty()));
    assert(prender(toks, stack)->Some_0 + token_head(g) + Seq::<u8>::empty() =~= prender(toks, stack)->Some_0 + token_head(g));
    assert forall|a: int, b: int| 0 <= a < b < s2.len() implies s2[a].1 < s2[b].1 by {
        if b == s2.len() - 1 {
            assert(s2[a] == stack[a]);
        } else {
            assert(s2[a] == stack[a]);
            assert(s2[b] == stack[b]);
        }
    }
    assert forall|a: int| 0 <= a < s2.len() implies (#[trigger] s2[a]).1 < t2.len()
        && group_style(t2[s2[a].1 as int]) == Some(s2[a].2) by {
        if a < stack.len() {
            assert(s2[a] == stack[a]);
            assert(t2[stack[a].1 as int] == toks[stack[a].1 as int]);
        }
    }
}


proof fn lemma_render_group(g: TokenView, inner: Seq<TokenView>)
    requires
        group_count(g) == Some(inner.len() as int),
        render(inner) is Some,
    ensures
        render(seq![g] + inner) == Some(token_head(g) + render(inner)->Some_0 + token_tail(g)),
{
    let t = seq![g] + inner;
    assert(t[0] == g);
    assert(t.subrange(1, t.len() as int) =~= inner);
    assert(t.subrange(t.len() as int, t.len() as int) =~= Seq::<TokenView>::empty());
    assert(render(Seq::<TokenView>::empty()) == Some(Seq::<u8>::empty()));
    assert(token_head(g) + render(inner)->Some_0 + token_tail(g) + Seq::<u8>::empty()
        =~= token_head(g) + render(inner)->Some_0 + token_tail(g));
}

proof fn lemma_prender_close_deep(toks: Seq<TokenView>, toks2: Seq<TokenView>, stack: Seq<(usize, usize, BracketStyle)>, g: TokenView)
    requires
        stack_ok(toks, stack),
        stack.len() > 1,
        prender(toks, stack) is Some,
        toks2 == toks.update(stack.last().1 as int, g),
        render(toks2.subrange(stack.last().1 as int, toks2.len() as int)) is Some,
    ensures
        prender(toks2, stack.drop_last()) == Some(prender(toks.subrange(0, stack.last().1 as int), stack.drop_last())->Some_0
            + render(toks2.subrange(stack.last().1 as int, toks2.len() as int))->Some_0),
{
    let ti = stack.last().1 as int;
    let s2 = stack.drop_last();
    assert(stack[stack.len() - 1] == stack.last());
    let t1 = s2.last().1 as int;
    assert(s2[s2.len() - 1] == s2.last());
    assert(s2.last() == stack[stack.len() - 2]);
    assert(t1 < ti);
    let pre = toks.subrange(0, ti);
    let tail2 = toks2.subrange(ti, toks2.len() as int);
    assert(pre.subrange(0, t1) =~= toks.subrange(0, t1));
    assert(pre[t1] == toks[t1]);
    assert(pre.subrange(t1 + 1, pre.len() as int) =~= toks.subrange(t1 + 1, ti));
    assert(toks2.subrange(0, t1) =~= toks.subrange(0, t1));
    assert(toks2[t1] == toks[t1]);
    assert(toks2.subrange(t1 + 1, toks2.len() as int) =~= toks.subrange(t1 + 1, ti) + tail2);
    let a1 = prender(toks.subrange(0, t1), s2.drop_last())->Some_0;
    let m = render(toks.subrange(t1 + 1, ti))->Some_0;
    let gr = render(tail2)->Some_0;
    lemma_render_concat(toks.subrange(t1 + 1, ti), tail2);
    assert(a1 + token_head(toks[t1]) + (m + gr) =~= (a1 + token_head(toks[t1]) + m) + gr);
}

proof fn lemma_prender_close(toks: Seq<TokenView>, stack: Seq<(usize, usize, BracketStyle)>)
    requires
        stack_ok(toks, stack),
        stack.len() > 0,
        prender(toks, stack) is Some,
        toks.len() <= usize::MAX,
    ensures
        ({
            let ti = stack.last().1 as int;
            let toks2 = toks.update(ti, with_count(toks[ti], (toks.len() - ti - 1) as usize)->Some_0);
            &&& prender(toks2, stack.drop_last())
                == Some(prender(toks, stack)->Some_0 + seq![stack.last().2.close_byte()])
            &&& stack_ok(toks2, stack.drop_last())
        }),
{
    let ti = stack.last().1 as int;
    let style = stack.last().2;
    assert(stack[stack.len() - 1] == stack.last());
    let c = (toks.len() - ti - 1) as usize;
    let g = with_count(toks[ti], c)->Some_0;
    let toks2 = toks.update(ti, g);
    let s2 = stack.drop_last();
    let inner = toks.subrange(ti + 1, toks.len() as int);
    let a = prender(toks.subrange(0, ti), s2)->Some_0;
    let r = render(inner)->Some_0;
    assert(token_head(g) == token_head(toks[ti]));
    assert(token_tail(g) == seq![style.close_byte()]);
    assert(toks2.subrange(ti, toks2.len() as int) =~= seq![g] + inner);
    lemma_render_group(g, inner);
    let gr = token_head(g) + r + token_tail(g);
    assert(toks2.subrange(0, ti) =~= toks.subrange(0, ti));
    assert forall|x: int| 0 <= x < s2.len() implies (#[trigger] s2[x]).1 < toks2.len()
        && group_style(toks2[s2[x].1 as int]) == Some(s2[x].2) by {
        assert(s2[x] == stack[x]);
        assert(stack[x].1 < stack[stack.len() - 1].1);
    }
    if s2.len() == 0 {
        assert(toks2 =~= toks2.subrange(0, ti) + toks2.subrange(ti, toks2.len() as int));
        lemma_render_concat(toks.subrange(0, ti), seq![g] + inner);
    } else {
        lemma_prender_close_deep(toks, toks2, stack, g);
    }
    assert(a + gr =~= a + token_head(toks[ti]) + r + seq![style.close_byte()]);
}


/// What the tokenizer keeps true: the tokens so far with the pending raw text, followed by
/// the rest of the source unescaped, give the whole source unescaped; the open groups are
/// consistent with the tokens; a lone symbol at the end stands as its own text.
pub open spec fn fancy_inv(src: Seq<u8>, st: FancyScan) -> bool {
    &&& 0 <= st.raw_start <= st.index <= src.len() <= usize::MAX
    &&& st.tokens.len() <= st.raw_start
    &&& stack_ok(st.tokens, st.stack)
    &&& prender(st.tokens, st.stack) is Some
    &&& prender(st.tokens, st.stack)->Some_0 + src.subrange(st.raw_start, st.index)
            + unescape_from(src, st.index) == unescape(src)
    &&& st.was_symbol ==> was_symbol_ok(st)
}

/// The last token is a lone symbol whose text ends the text of the tokens.
pub open spec fn was_symbol_ok(st: FancyScan) -> bool {
    &&& last_symbol(st.tokens) is Some
    &&& stack_ok(st.tokens.drop_last(), st.stack)
    &&& prender(st.tokens.drop_last(), st.stack) is Some
    &&& prender(st.tokens, st.stack) == Some(
            prender(st.tokens.drop_last(), st.stack)->Some_0.push(last_symbol(st.tokens)->Some_0.byte()))
}

proof fn lemma_finish_inv(src: Seq<u8>, st: FancyScan, ns: int)
    requires
        fancy_inv(src, st),
        fancy_finish(src, st, ns) is Some,
    ensures
        ({
            let f = fancy_finish(src, st, ns)->Some_0;
            &&& f.index == st.index
            &&& f.stack == st.stack
            &&& f.raw_start == ns
            &&& stack_ok(f.tokens, f.stack)
            &&& prender(f.tokens, f.stack) == Some(prender(st.tokens, st.stack)->Some_0
                    + src.subrange(st.raw_start, st.index))
            &&& f.tokens.len() <= st.tokens.len() + 1
            &&& (st.raw_start == st.index ==> f.tokens == st.tokens && f.was_symbol == st.was_symbol)
            &&& (st.raw_start != st.index ==> !f.was_symbol)
        }),
{
    let f = fancy_finish(src, st, ns)->Some_0;
    let p = prender(st.tokens, st.stack)->Some_0;
    if st.raw_start != st.index {
        let span = src.subrange(st.raw_start, st.index);
        if st.was_symbol && id_end(span, 0) > 0 {
            let off = id_end(span, 0);
            let sym = last_symbol(st.tokens)->Some_0;
            let d = st.tokens.drop_last();
            let q = prender(d, st.stack)->Some_0;
            lemma_prender_push(d, st.stack, TokenView::SymbolId(sym, span.subrange(0, off)));
            if off < span.len() {
                assert(f.tokens =~= d.push(TokenView::SymbolId(sym, span.subrange(0, off)))
                    .push(TokenView::Str(span.subrange(off, span.len() as int))));
                lemma_prender_push(d.push(TokenView::SymbolId(sym, span.subrange(0, off))), st.stack,
                    TokenView::Str(span.subrange(off, span.len() as int)));
                assert(q + (seq![sym.byte()] + span.subrange(0, off)) + span.subrange(off, span.len() as int)
                    =~= q.push(sym.byte()) + span);
            } else {
                assert(f.tokens =~= d.push(TokenView::SymbolId(sym, span.subrange(0, off))));
                assert(span.subrange(0, off) =~= span);
                assert(q + (seq![sym.byte()] + span) =~= q.push(sym.byte()) + span);
            }
        } else {
            lemma_prender_push(st.tokens, st.stack, TokenView::Str(span));
        }
    } else {
        assert(src.subrange(st.raw_start, st.index) =~= Seq::<u8>::empty());
        assert(p + Seq::<u8>::empty() =~= p);
    }
}

proof fn lemma_step_char(src: Seq<u8>, st: FancyScan, c: char)
    requires
        fancy_inv(src, st),
        0 <= st.index < src.len(),
        src[st.index] == 92,
        src.len() - st.index >= 2,
        escaped_char(src[st.index + 1]) == Some(c),
        fancy_push_char(src, st, 2, c) is Some,
    ensures
        fancy_inv(src, fancy_push_char(src, st, 2, c)->Some_0),
{
    let i = st.index;
    lemma_finish_inv(src, st, i + 2);
    let f = fancy_finish(src, st, i + 2)->Some_0;
    let n = fancy_push_char(src, st, 2, c)->Some_0;
    lemma_prender_push(f.tokens, f.stack, TokenView::Char(c));
    let p = prender(st.tokens, st.stack)->Some_0;
    let pend = src.subrange(st.raw_start, i);
    assert(src.subrange(i + 2, i + 2) =~= Seq::<u8>::empty());
    assert(p + pend + char_bytes(c) + Seq::<u8>::empty() + unescape_from(src, i + 2)
        =~= p + pend + unescape_from(src, i));
}

proof fn lemma_step_symbol(src: Seq<u8>, st: FancyScan, sym: Symbol)
    requires
        fancy_inv(src, st),
        0 <= st.index < src.len(),
        src[st.index] == sym.byte(),
        fancy_push_symbol(src, st, sym) is Some,
    ensures
        fancy_inv(src, fancy_push_symbol(src, st, sym)->Some_0),
{
    let i = st.index;
    lemma_finish_inv(src, st, i + 1);
    let f = fancy_finish(src, st, i + 1)->Some_0;
    let n = fancy_push_symbol(src, st, sym)->Some_0;
    let p = prender(st.tokens, st.stack)->Some_0;
    let pend = src.subrange(st.raw_start, i);
    let pf = prender(f.tokens, f.stack)->Some_0;
    assert(src.subrange(i + 1, i + 1) =~= Seq::<u8>::empty());
    assert(pf + Seq::<u8>::empty() + unescape_from(src, i) =~= p + pend + unescape_from(src, i));
    if f.was_symbol {
        let prev = last_symbol(f.tokens)->Some_0;
        let d = f.tokens.drop_last();
        let q = prender(d, f.stack)->Some_0;
        assert(n.tokens =~= d.push(TokenView::SymbolChar(prev, sym.byte() as char)));
        lemma_prender_push(d, f.stack, TokenView::SymbolChar(prev, sym.byte() as char));
        lemma_char_bytes_ascii(sym.byte());
        assert(q + (seq![prev.byte()] + char_bytes(sym.byte() as char)) =~= q.push(prev.byte()).push(sym.byte()));
        assert(pf.push(sym.byte()) + Seq::<u8>::empty() + unescape_from(src, i + 1) =~= pf + unescape_from(src, i));
    } else {
        lemma_prender_push(f.tokens, f.stack, TokenView::Symbol(sym));
        assert(n.tokens.drop_last() =~= f.tokens);
        assert(pf + seq![sym.byte()] =~= pf.push(sym.byte()));
        assert(pf.push(sym.byte()) + Seq::<u8>::empty() + unescape_from(src, i + 1) =~= pf + unescape_from(src, i));
    }
}

proof fn lemma_step_begin(src: Seq<u8>, st: FancyScan, style: BracketStyle)
    requires
        fancy_inv(src, st),
        0 <= st.index < src.len(),
        src[st.index] == style.open_byte(),
        fancy_begin(src, st, style) is Some,
    ensures
        fancy_inv(src, fancy_begin(src, st, style)->Some_0),
{
    let i = st.index;
    lemma_finish_inv(src, st, i + 1);
    let f = fancy_finish(src, st, i + 1)->Some_0;
    let n = fancy_begin(src, st, style)->Some_0;
    let p = prender(st.tokens, st.stack)->Some_0;
    let pend = src.subrange(st.raw_start, i);
    let pf = prender(f.tokens, f.stack)->Some_0;
    assert(src.subrange(i + 1, i + 1) =~= Seq::<u8>::empty());
    if f.was_symbol {
        let sym = last_symbol(f.tokens)->Some_0;
        let d = f.tokens.drop_last();
        let q = prender(d, f.stack)->Some_0;
        let g = TokenView::BracketedSymbol(sym, usize::MAX, style);
        assert(n.tokens =~= d.push(g));
        lemma_prender_open(d, f.stack, g, i as usize);
        assert(q + seq![sym.byte(), style.open_byte()] =~= q.push(sym.byte()).push(style.open_byte()));
        assert(pf.push(style.open_byte()) + Seq::<u8>::empty() + unescape_from(src, i + 1) =~= pf + unescape_from(src, i));
    } else {
        let g = TokenView::Bracketed(usize::MAX, style);
        lemma_prender_open(f.tokens, f.stack, g, i as usize);
        assert(pf + seq![style.open_byte()] + Seq::<u8>::empty() + unescape_from(src, i + 1) =~= pf + unescape_from(src, i));
    }
    assert(pf + Seq::<u8>::empty() + unescape_from(src, i) =~= p + pend + unescape_from(src, i));
}

proof fn lemma_step_end(src: Seq<u8>, st: FancyScan, style: BracketStyle)
    requires
        fancy_inv(src, st),
        0 <= st.index < src.len(),
        src[st.index] == style.close_byte(),
        fancy_end(src, st, style) is Next,
    ensures
        fancy_inv(src, fancy_end(src, st, style)->Next_0),
{
    let i = st.index;
    let st1 = FancyScan { stack: st.stack.drop_last(), ..st };
    lemma_finish_inv(src, st, i + 1);
    let f = fancy_finish(src, st, i + 1)->Some_0;
    let f1 = fancy_finish(src, st1, i + 1)->Some_0;
    assert(f1.tokens == f.tokens);
    let n = fancy_end(src, st, style)->Next_0;
    let p = prender(st.tokens, st.stack)->Some_0;
    let pend = src.subrange(st.raw_start, i);
    let pf = prender(f.tokens, f.stack)->Some_0;
    lemma_prender_close(f.tokens, f.stack);
    assert(st.stack[st.stack.len() - 1] == st.stack.last());
    assert(src.subrange(i + 1, i + 1) =~= Seq::<u8>::empty());
    assert(pf + seq![style.close_byte()] + Seq::<u8>::empty() + unescape_from(src, i + 1) =~= pf + unescape_from(src, i));
    assert(pf + Seq::<u8>::empty() + unescape_from(src, i) =~= p + pend + unescape_from(src, i));
}


proof fn lemma_fancy_run_roundtrip(src: Seq<u8>, st: FancyScan)
    requires
        fancy_inv(src, st),
    ensures
        fancy_run(src, st) matches FancyOutcome::Done(toks) ==> render(toks) == Some(unescape(src)),
    decreases src.len() - st.index,
{
    let i = st.index;
    if 0 <= i < src.len() {
        match fancy_step(src, st) {
            FancyStep::Next(n) => {
                if !on_boundary(src, i) {
                } else if src[i] == 92 && src.len() - i >= 2 {
                    let c = escaped_char(src[i + 1])->Some_0;
                    lemma_step_char(src, st, c);
                } else if opening_style(src[i]) is Some {
                    lemma_step_begin(src, st, opening_style(src[i])->Some_0);
                } else if closing_style(src[i]) is Some {
                    lemma_step_end(src, st, closing_style(src[i])->Some_0);
                } else if symbol_of(src[i]) is Some {
                    lemma_step_symbol(src, st, symbol_of(src[i])->Some_0);
                } else {
                    let p = prender(st.tokens, st.stack)->Some_0;
                    assert(src.subrange(st.raw_start, i + 1) =~= src.subrange(st.raw_start, i).push(src[i]));
                    assert(p + src.subrange(st.raw_start, i + 1) + unescape_from(src, i + 1)
                        =~= p + src.subrange(st.raw_start, i) + unescape_from(src, i));
                }
                if n.index > i {
                    lemma_fancy_run_roundtrip(src, n);
                }
            },
            FancyStep::Stop(_) => {},
        }
    } else if st.stack.len() == 0 {
        if fancy_finish(src, st, src.len() as int) is Some {
            lemma_finish_inv(src, st, src.len() as int);
            let f = fancy_finish(src, st, src.len() as int)->Some_0;
            let p = prender(st.tokens, st.stack)->Some_0;
            assert(unescape_from(src, i) =~= Seq::<u8>::empty());
            assert(p + src.subrange(st.raw_start, i) + Seq::<u8>::empty() =~= p + src.subrange(st.raw_start, i));
        }
    }
}

/// A source that tokenizes without error is given back by a `String` performer, with each
/// escape replaced by its character; in particular every group of the tokens fits.
pub proof fn lemma_fancy_parse_roundtrip(src: Seq<u8>)
    requires
        src.len() <= usize::MAX,
    ensures
        spec_fancy_parse(src) matches FancyOutcome::Done(toks) ==> render(toks) == Some(unescape(src)),
{
    let st = fancy_start();
    assert(src.subrange(0, 0) =~= Seq::<u8>::empty());
    assert(render(Seq::<TokenView>::empty()) == Some(Seq::<u8>::empty()));
    assert(Seq::<u8>::empty() + Seq::<u8>::empty() + unescape_from(src, 0) =~= unescape(src));
    lemma_fancy_run_roundtrip(src, st);
}

} // verus!

verus! {

/// Every group token's end, counted from its position, fits in a `usize`: on these tokens
/// the visits compute where each group ends without overflow.
pub open spec fn group_ends_fit(toks: Seq<TokenView>) -> bool {
    forall|i: int| 0 <= i < toks.len() ==> ((#[trigger] group_count(toks[i])) matches Some(c)
        ==> i + 1 + c <= usize::MAX)
}

/// Tokens that render end every group inside them.
proof fn lemma_render_groups_inside(toks: Seq<TokenView>)
    requires
        render(toks) is Some,
    ensures
        forall|i: int| 0 <= i < toks.len() ==> ((#[trigger] group_count(toks[i])) matches Some(c)
            ==> i + 1 + c <= toks.len()),
    decreases toks.len(),
{
    if toks.len() > 0 {
        let e = unit_len(toks[0]);
        let inner = toks.subrange(1, e);
        let rest = toks.subrange(e, toks.len() as int);
        lemma_render_groups_inside(inner);
        lemma_render_groups_inside(rest);
        assert forall|i: int| 0 <= i < toks.len() implies ((#[trigger] group_count(toks[i])) matches Some(c)
            ==> i + 1 + c <= toks.len()) by {
            if 0 < i < e {
                assert(toks[i] == inner[i - 1]);
            } else if i >= e {
                assert(toks[i] == rest[i - e]);
            }
        }
    }
}

/// Tokens that render, no more of them than a `usize` counts, meet `group_ends_fit`.
pub proof fn lemma_render_group_ends_fit(toks: Seq<TokenView>)
    requires
        render(toks) is Some,
        toks.len() <= usize::MAX,
    ensures
        group_ends_fit(toks),
{
    lemma_render_groups_inside(toks);
}

/// What a `String` performer has written of the tokens when it stops at a group that
/// claims more tokens than there are: everything before that group, with the groups that
/// hold it opened.
pub open spec fn render_prefix(toks: Seq<TokenView>) -> Seq<u8>
    decreases toks.len(),
{
    if toks.len() == 0 {
        Seq::empty()
    } else {
        let e = unit_len(toks[0]);
        if e > toks.len() {
            Seq::empty()
        } else {
            match render(toks.subrange(1, e)) {
                Some(a) => token_head(toks[0]) + a + token_tail(toks[0])
                    + render_prefix(toks.subrange(e, toks.len() as int)),
                None => token_head(toks[0]) + render_prefix(toks.subrange(1, e)),
            }
        }
    }
}

/// The text of the tokens from `i` on, taken apart at the first token and its group.
proof fn lemma_render_suffix(tv: Seq<TokenView>, i: int)
    requires
        0 <= i < tv.len(),
    ensures
        i + unit_len(tv[i]) > tv.len() ==> render_prefix(tv.subrange(i, tv.len() as int)) == Seq::<u8>::empty(),
        i + unit_len(tv[i]) <= tv.len() ==> render_prefix(tv.subrange(i, tv.len() as int)) == match
            render(tv.subrange(i + 1, i + unit_len(tv[i]))) {
            Some(a) => token_head(tv[i]) + a + token_tail(tv[i])
                + render_prefix(tv.subrange(i + unit_len(tv[i]), tv.len() as int)),
            None => token_head(tv[i]) + render_prefix(tv.subrange(i + 1, i + unit_len(tv[i]))),
        },
        i + unit_len(tv[i]) > tv.len() ==> render(tv.subrange(i, tv.len() as int)) is None,
        i + unit_len(tv[i]) <= tv.len() ==> render(tv.subrange(i, tv.len() as int)) == match (
            render(tv.subrange(i + 1, i + unit_len(tv[i]))),
            render(tv.subrange(i + unit_len(tv[i]), tv.len() as int)),
        ) {
            (Some(a), Some(b)) => Some(token_head(tv[i]) + a + token_tail(tv[i]) + b),
            _ => None,
        },
{
    let s = tv.subrange(i, tv.len() as int);
    let e = i + unit_len(tv[i]);
    assert(s[0] == tv[i]);
    if e <= tv.len() {
        assert(s.subrange(1, e - i) =~= tv.subrange(i + 1, e));
        assert(s.subrange(e - i, s.len() as int) =~= tv.subrange(e, tv.len() as int));
    }
}

/// The group of the token at `i` as tokens of their own still fit.
proof fn lemma_group_ends_fit_sub(tv: Seq<TokenView>, a: int, b: int)
    requires
        group_ends_fit(tv),
        0 <= a <= b <= tv.len(),
    ensures
        group_ends_fit(tv.subrange(a, b)),
{
    let s = tv.subrange(a, b);
    assert forall|j: int| 0 <= j < s.len() implies ((#[trigger] group_count(s[j])) matches Some(c)
        ==> j + 1 + c <= usize::MAX) by {
        assert(s[j] == tv[a + j]);
        assert(group_count(tv[a + j]) == group_count(s[j]));
    }
}

/// Writes the token at `index` and its group into `out`; gives the position after them.
#[verifier::spinoff_prover]
#[verifier::rlimit(50)]
fn render_unit(out: &mut String, tokens: &[Token<'_>], index: usize) -> (r: Result<usize, ()>)
    requires
        group_ends_fit(tokens_view(tokens@)),
        index < tokens@.len(),
    ensures
        ({
            let tv = tokens_view(tokens@);
            let t = tv[index as int];
            let e = index + unit_len(t);
            &&& (r is Ok <==> (e <= tv.len() && render(tv.subrange(index + 1, e)) is Some))
            &&& (r matches Ok(n) ==> n == e && encode_utf8(final(out)@) == encode_utf8(old(out)@)
                    + (token_head(t) + render(tv.subrange(index + 1, e))->Some_0 + token_tail(t)))
            &&& (r is Err ==> encode_utf8(final(out)@) == encode_utf8(old(out)@) + (if e <= tv.len() {
                    token_head(t) + render_prefix(tv.subrange(index + 1, e))
                } else {
                    Seq::<u8>::empty()
                }))
        }),
        old(out)@.is_prefix_of(final(out)@),
    decreases tokens@.len(), 2int,
{
    let ghost tv = tokens_view(tokens@);
    let ghost t = tv[index as int];
    let ghost e = index + unit_len(t);
    let ghost before = out@;
    proof {
        assert(t == tokens@[index as int]@);
        assert(render(Seq::<TokenView>::empty()) == Some(Seq::<u8>::empty()));
        assert(before.subrange(0, before.len() as int) =~= before);
    }
    let len = tokens.len();
    assert(index + 1 <= len);
    let (visit, next) = visit_step(tokens, index);
    match visit {
        Visit::Str(raw) => {
            out.append(raw);
            proof {
                crate::text::lemma_encode_concat(before, raw@);
                lemma_prefix_append(before, before, raw@);
                assert(tv.subrange(index + 1, e) =~= Seq::<TokenView>::empty());
                assert(token_head(t) + Seq::<u8>::empty() + token_tail(t) =~= token_head(t));
            }
            Ok(next)
        },
        Visit::Char(chr) => {
            push_char(out, chr);
            proof {
                lemma_encode_push(before, chr);
                lemma_prefix_append(before, before, seq![chr]);
                assert(before + seq![chr] =~= before.push(chr));
                assert(tv.subrange(index + 1, e) =~= Seq::<TokenView>::empty());
                assert(token_head(t) + Seq::<u8>::empty() + token_tail(t) =~= token_head(t));
            }
            Ok(next)
        },
        Visit::Symbol(symbol) => {
            let text = symbol.as_str();
            out.append(text);
            proof {
                crate::text::lemma_encode_concat(before, text@);
                lemma_prefix_append(before, before, text@);
                assert(tv.subrange(index + 1, e) =~= Seq::<TokenView>::empty());
                assert(token_head(t) + Seq::<u8>::empty() + token_tail(t) =~= token_head(t));
            }
            Ok(next)
        },
        Visit::SymbolId(symbol, id) => {
            let text = symbol.as_str();
            out.append(text);
            let ghost mid = out@;
            out.append(id);
            proof {
                crate::text::lemma_encode_concat(before, text@);
                crate::text::lemma_encode_concat(mid, id@);
                lemma_prefix_append(before, before, text@);
                lemma_prefix_append(before, mid, id@);
                assert(tv.subrange(index + 1, e) =~= Seq::<TokenView>::empty());
                assert(encode_utf8(before) + encode_utf8(text@) + encode_utf8(id@)
                    =~= encode_utf8(before) + (token_head(t) + Seq::<u8>::empty() + token_tail(t)));
            }
            Ok(next)
        },
        Visit::SymbolChar(symbol, chr) => {
            let text = symbol.as_str();
            out.append(text);
            let ghost mid = out@;
            push_char(out, chr);
            proof {
                crate::text::lemma_encode_concat(before, text@);
                lemma_encode_push(mid, chr);
                lemma_prefix_append(before, before, text@);
                lemma_prefix_append(before, mid, seq![chr]);
                assert(mid + seq![chr] =~= mid.push(chr));
                assert(tv.subrange(index + 1, e) =~= Seq::<TokenView>::empty());
                assert(encode_utf8(before) + encode_utf8(text@) + encode_utf8(seq![chr])
                    =~= encode_utf8(before) + (token_head(t) + Seq::<u8>::empty() + token_tail(t)));
            }
            Ok(next)
        },
        Visit::Bracketed(style, first, end) => {
            let inner = render_bracketed(out, tokens, first, end, style);
            proof {
                assert(tv.subrange(first as int, end as int) == tv.subrange(index + 1, e));
                assert(token_head(t) == seq![style.open_byte()]);
            }
            if inner.is_err() {
                return Err(());
            }
            Ok(next)
        },
        Visit::BracketedSymbol(symbol, style, first, end) => {
            let text = symbol.as_str();
            out.append(text);
            let ghost mid = out@;
            let inner = render_bracketed(out, tokens, first, end, style);
            proof {
                crate::text::lemma_encode_concat(before, text@);
                lemma_prefix_append(before, before, text@);
                lemma_prefix_trans(before, mid, out@);
                assert(tv.subrange(first as int, end as int) == tv.subrange(index + 1, e));
                let sub = tv.subrange(first as int, end as int);
                assert(token_head(t) =~= seq![symbol.byte()] + seq![style.open_byte()]);
                if inner.is_err() {
                    assert(encode_utf8(before) + encode_utf8(text@) + (seq![style.open_byte()] + render_prefix(sub))
                        =~= encode_utf8(before) + (token_head(t) + render_prefix(sub)));
                } else {
                    assert(encode_utf8(before) + encode_utf8(text@) + (seq![style.open_byte()] + render(sub)->Some_0
                        + seq![style.close_byte()])
                        =~= encode_utf8(before) + (token_head(t) + render(sub)->Some_0 + token_tail(t)));
                }
            }
            if inner.is_err() {
                return Err(());
            }
            Ok(next)
        },
        Visit::InvalidBracketed => {
            proof {
                assert(encode_utf8(before) + Seq::<u8>::empty() =~= encode_utf8(before));
            }
            Err(())
        },
    }
}

/// Writes a group's tokens `first..end` into `out` between brackets of `style`.
fn render_bracketed(out: &mut String, tokens: &[Token<'_>], first: usize, end: usize, style: BracketStyle)
    -> (r: Result<(), ()>)
    requires
        group_ends_fit(tokens_view(tokens@)),
        1 <= first <= end <= tokens@.len(),
    ensures
        ({
            let sub = tokens_view(tokens@).subrange(first as int, end as int);
            &&& (r is Ok <==> render(sub) is Some)
            &&& (r is Ok ==> encode_utf8(final(out)@) == encode_utf8(old(out)@)
                    + (seq![style.open_byte()] + render(sub)->Some_0 + seq![style.close_byte()]))
            &&& (r is Err ==> encode_utf8(final(out)@) == encode_utf8(old(out)@)
                    + (seq![style.open_byte()] + render_prefix(sub)))
        }),
        old(out)@.is_prefix_of(final(out)@),
    decreases tokens@.len(), 1int,
{
    let ghost before = out@;
    let ghost sub = tokens_view(tokens@).subrange(first as int, end as int);
    proof {
        assert(before.subrange(0, before.len() as int) =~= before);
    }
    let open = style.open_str();
    out.append(open);
    let ghost mid = out@;
    proof {
        crate::text::lemma_encode_concat(before, open@);
        lemma_prefix_append(before, before, open@);
    }
    let inner = render_group(out, tokens, first, end);
    proof {
        lemma_prefix_trans(before, mid, out@);
    }
    if inner.is_err() {
        proof {
            assert(encode_utf8(before) + encode_utf8(open@) + render_prefix(sub)
                =~= encode_utf8(before) + (seq![style.open_byte()] + render_prefix(sub)));
        }
        return Err(());
    }
    let ghost mid2 = out@;
    let close = style.close_str();
    out.append(close);
    proof {
        crate::text::lemma_encode_concat(mid2, close@);
        lemma_prefix_append(before, mid2, close@);
        assert(encode_utf8(before) + encode_utf8(open@) + render(sub)->Some_0 + encode_utf8(close@)
            =~= encode_utf8(before) + (seq![style.open_byte()] + render(sub)->Some_0 + seq![style.close_byte()]));
    }
    Ok(())
}

/// Writes the tokens `first..end`, a group's tokens, into `out`.
fn render_group(out: &mut String, tokens: &[Token<'_>], first: usize, end: usize) -> (r: Result<(), ()>)
    requires
        group_ends_fit(tokens_view(tokens@)),
        1 <= first <= end <= tokens@.len(),
    ensures
        r is Ok <==> render(tokens_view(tokens@).subrange(first as int, end as int)) is Some,
        r is Ok ==> encode_utf8(final(out)@) == encode_utf8(old(out)@)
            + render(tokens_view(tokens@).subrange(first as int, end as int))->Some_0,
        r is Err ==> encode_utf8(final(out)@) == encode_utf8(old(out)@)
            + render_prefix(tokens_view(tokens@).subrange(first as int, end as int)),
        old(out)@.is_prefix_of(final(out)@),
    decreases tokens@.len(), 0int,
{
    let group = vstd::slice::slice_subrange(tokens, first, end);
    proof {
        assert(tokens_view(group@) =~= tokens_view(tokens@).subrange(first as int, end as int));
        lemma_group_ends_fit_sub(tokens_view(tokens@), first as int, end as int);
    }
    render_tokens(out, group)
}

/// Whether the tokens meet `group_ends_fit`, the condition of `render_tokens`.
pub fn groups_fit(tokens: &[Token<'_>]) -> (r: bool)
    ensures
        r == group_ends_fit(tokens_view(tokens@)),
{
    let len = tokens.len();
    let mut i: usize = 0;
    while i < len
        invariant
            len == tokens@.len(),
            i <= len,
            forall|j: int| 0 <= j < i ==> ((#[trigger] group_count(tokens_view(tokens@)[j])) matches Some(c)
                ==> j + 1 + c <= usize::MAX),
        decreases len - i,
    {
        proof {
            assert(tokens_view(tokens@)[i as int] == tokens@[i as int]@);
        }
        let count = match tokens[i] {
            Token::Bracketed(b) => Some(b.count()),
            Token::BracketedSymbol(_, b) => Some(b.count()),
            _ => None,
        };
        if let Some(c) = count {
            if c > usize::MAX - 1 - i {
                proof {
                    assert(group_count(tokens_view(tokens@)[i as int]) == Some(c as int));
                }
                return false;
            }
        }
        i = i + 1;
    }
    true
}

/// Writes the tokens into `out` as text, as the default visits of a `String` performer
/// do: each token's text, a group's tokens between its brackets, and a symbol's character
/// before what binds to it.  Fails where a group claims more tokens than there are, having
/// written what comes before that group.
pub fn render_tokens(out: &mut String, tokens: &[Token<'_>]) -> (r: Result<(), ()>)
    requires
        group_ends_fit(tokens_view(tokens@)),
    ensures
        r is Ok <==> render(tokens_view(tokens@)) is Some,
        r is Ok ==> encode_utf8(final(out)@) == encode_utf8(old(out)@) + render(tokens_view(tokens@))->Some_0,
        r is Err ==> encode_utf8(final(out)@) == encode_utf8(old(out)@) + render_prefix(tokens_view(tokens@)),
        old(out)@.is_prefix_of(final(out)@),
    decreases tokens@.len(), 3int,
{
    let ghost tv = tokens_view(tokens@);
    let ghost start = out@;
    let ghost total = render(tv);
    let len = tokens.len();
    let mut index: usize = 0;
    proof {
        assert(tv.subrange(0, tv.len() as int) =~= tv);
        assert(out@.subrange(0, start.len() as int) =~= start);
    }
    while index < len
        invariant
            len == tokens@.len(),
            tv == tokens_view(tokens@),
            group_ends_fit(tv),
            index <= len,
            total == render(tv),
            start == old(out)@,
            start.is_prefix_of(out@),
            (render(tv.subrange(index as int, len as int)) is Some) == (total is Some),
            render(tv.subrange(index as int, len as int)) matches Some(rest)
                ==> encode_utf8(out@) + rest == encode_utf8(start) + total->Some_0,
            encode_utf8(out@) + render_prefix(tv.subrange(index as int, len as int))
                == encode_utf8(start) + render_prefix(tv),
        decreases len - index,
    {
        let ghost before = out@;
        let ghost t = tv[index as int];
        let ghost e = index + unit_len(t);
        proof {
            lemma_render_suffix(tv, index as int);
        }
        let res = render_unit(out, tokens, index);
        proof {
            lemma_prefix_trans(start, before, out@);
        }
        let next = match res {
            Ok(n) => n,
            Err(_) => {
                return Err(());
            },
        };
        proof {
            let w = token_head(t) + render(tv.subrange(index + 1, e))->Some_0 + token_tail(t);
            assert(encode_utf8(out@) + render_prefix(tv.subrange(e, len as int))
                =~= encode_utf8(before) + (w + render_prefix(tv.subrange(e, len as int))));
            if render(tv.subrange(e, len as int)) is Some {
                let rest = render(tv.subrange(e, len as int))->Some_0;
                assert(encode_utf8(out@) + rest =~= encode_utf8(before) + (w + rest));
            }
        }
        index = next;
    }
    proof {
        assert(tv.subrange(len as int, len as int) =~= Seq::<TokenView>::empty());
        assert(encode_utf8(out@) + Seq::<u8>::empty() =~= encode_utf8(out@));
    }
    Ok(())
}

} // verus!

verus! {

/// No text token is empty.
pub open spec fn strs_nonempty(toks: Seq<TokenView>) -> bool {
    forall|i: int| 0 <= i < toks.len() && (#[trigger] toks[i]) is Str ==> toks[i]->Str_0.len() > 0
}

/// Every group ends inside the tokens, and the groups inside a group end inside it.
pub open spec fn groups_nest(toks: Seq<TokenView>) -> bool {
    &&& forall|k: int| 0 <= k < toks.len() ==> ((#[trigger] group_count(toks[k])) matches Some(c)
            ==> k + 1 + c <= toks.len())
    &&& forall|k: int, j: int| 0 <= k < j < toks.len()
            && (#[trigger] group_count(toks[k])) is Some && (#[trigger] group_count(toks[j])) is Some
            && j < k + 1 + group_count(toks[k])->Some_0
            ==> j + 1 + group_count(toks[j])->Some_0 <= k + 1 + group_count(toks[k])->Some_0
}

/// Tokens that render nest their groups.
proof fn lemma_render_nest(toks: Seq<TokenView>)
    requires
        render(toks) is Some,
    ensures
        groups_nest(toks),
    decreases toks.len(),
{
    lemma_render_groups_inside(toks);
    if toks.len() > 0 {
        let e = unit_len(toks[0]);
        let inner = toks.subrange(1, e);
        let rest = toks.subrange(e, toks.len() as int);
        lemma_render_nest(inner);
        lemma_render_nest(rest);
        assert forall|k: int, j: int| 0 <= k < j < toks.len()
            && (#[trigger] group_count(toks[k])) is Some && (#[trigger] group_count(toks[j])) is Some
            && j < k + 1 + group_count(toks[k])->Some_0
            implies j + 1 + group_count(toks[j])->Some_0 <= k + 1 + group_count(toks[k])->Some_0 by {
            {
                if k == 0 {
                    assert(toks[j] == inner[j - 1]);
                } else if k < e {
                    assert(toks[k] == inner[k - 1]);
                    assert(group_count(inner[k - 1]) == group_count(toks[k]));
                    assert(toks[j] == inner[j - 1]);
                    assert(group_count(inner[j - 1]) == group_count(toks[j]));
                } else {
                    assert(toks[k] == rest[k - e]);
                    assert(group_count(rest[k - e]) == group_count(toks[k]));
                    assert(toks[j] == rest[j - e]);
                    assert(group_count(rest[j - e]) == group_count(toks[j]));
                }
            }
        }
    }
}

/// Closing the pending text keeps text tokens non-empty.
proof fn lemma_finish_strs(src: Seq<u8>, st: FancyScan, new_start: int)
    requires
        strs_nonempty(st.tokens),
        0 <= st.raw_start <= st.index <= src.len(),
    ensures
        fancy_finish(src, st, new_start) matches Some(f) ==> strs_nonempty(f.tokens)
            && f.index == st.index && f.stack == st.stack && f.raw_start == new_start,
{
    if let Some(f) = fancy_finish(src, st, new_start) {
        assert forall|i: int| 0 <= i < f.tokens.len() && (#[trigger] f.tokens[i]) is Str
            implies f.tokens[i]->Str_0.len() > 0 by {
            if i < st.tokens.len() && !(i == st.tokens.len() - 1 && f.tokens.len() == st.tokens.len() + 1
                && st.was_symbol && id_end(src.subrange(st.raw_start, st.index), 0) > 0) {
                assert(f.tokens[i] == st.tokens[i]);
            }
        }
    }
}

/// Each step keeps text tokens non-empty.
proof fn lemma_step_strs(src: Seq<u8>, st: FancyScan)
    requires
        strs_nonempty(st.tokens),
        0 <= st.raw_start <= st.index < src.len(),
    ensures
        fancy_step(src, st) matches FancyStep::Next(n) ==> strs_nonempty(n.tokens)
            && 0 <= n.raw_start <= n.index <= src.len(),
{
    let i = st.index;
    lemma_finish_strs(src, st, i + 1);
    lemma_finish_strs(src, st, i + 2);
    lemma_finish_strs(src, FancyScan { stack: st.stack.drop_last(), ..st }, i + 1);
    lemma_fancy_step_advances(src, st);
    if let FancyStep::Next(n) = fancy_step(src, st) {
        let f1 = fancy_finish(src, st, i + 1);
        let f2 = fancy_finish(src, st, i + 2);
        let f3 = fancy_finish(src, FancyScan { stack: st.stack.drop_last(), ..st }, i + 1);
        assert forall|j: int| 0 <= j < n.tokens.len() && (#[trigger] n.tokens[j]) is Str
            implies n.tokens[j]->Str_0.len() > 0 by {
            if f1 is Some && j < f1->Some_0.tokens.len() && n.tokens[j] == f1->Some_0.tokens[j] {
            } else if f2 is Some && j < f2->Some_0.tokens.len() && n.tokens[j] == f2->Some_0.tokens[j] {
            } else if f3 is Some && j < f3->Some_0.tokens.len() && n.tokens[j] == f3->Some_0.tokens[j] {
            } else if j < st.tokens.len() && n.tokens[j] == st.tokens[j] {
            }
        }
    }
}

proof fn lemma_fancy_run_strs(src: Seq<u8>, st: FancyScan)
    requires
        strs_nonempty(st.tokens),
        0 <= st.raw_start <= st.index <= src.len(),
    ensures
        fancy_run(src, st) matches FancyOutcome::Done(toks) ==> strs_nonempty(toks),
    decreases src.len() - st.index,
{
    if 0 <= st.index < src.len() {
        lemma_step_strs(src, st);
        if let FancyStep::Next(n) = fancy_step(src, st) {
            if n.index > st.index {
                lemma_fancy_run_strs(src, n);
            }
        }
    } else if st.stack.len() == 0 {
        lemma_finish_strs(src, st, src.len() as int);
    }
}

/// A source that tokenizes without error gives no empty text token, and its groups end
/// inside the tokens and nest.
pub proof fn lemma_fancy_parse_shape(src: Seq<u8>)
    requires
        src.len() <= usize::MAX,
    ensures
        spec_fancy_parse(src) matches FancyOutcome::Done(toks) ==> strs_nonempty(toks) && groups_nest(toks),
{
    lemma_fancy_parse_roundtrip(src);
    assert(strs_nonempty(fancy_start().tokens));
    lemma_fancy_run_strs(src, fancy_start());
    if let FancyOutcome::Done(toks) = spec_fancy_parse(src) {
        lemma_render_nest(toks);
    }
}

} // verus!

verus! {

/// The length of the run of name bytes at the start of `bytes[start..end]`.
fn id_run(bytes: &[u8], start: usize, end: usize) -> (r: usize)
    requires
        start <= end <= bytes@.len(),
    ensures
        r == id_end(bytes@.subrange(start as int, end as int), 0),
        r <= end - start,
{
    let ghost span = bytes@.subrange(start as int, end as int);
    let mut off: usize = 0;
    while off < end - start && is_id_byte_exec(bytes[start + off])
        invariant
            start <= end <= bytes@.len(),
            off <= end - start,
            span == bytes@.subrange(start as int, end as int),
            id_end(span, 0) == id_end(span, off as int),
        decreases end - start - off,
    {
        assert(span[off as int] == bytes@[start + off]);
        off = off + 1;
    }
    proof {
        if off < end - start {
            assert(span[off as int] == bytes@[start + off]);
        }
    }
    off
}

/// Whether the last token is a lone symbol.
fn last_is_symbol(tokens: &Vec<Token<'_>>) -> (r: bool)
    ensures
        r == (last_symbol(tokens_view(tokens@)) is Some),
{
    let n = tokens.len();
    if n == 0 {
        return false;
    }
    proof {
        assert(tokens_view(tokens@).last() == tokens@[n - 1]@);
    }
    match tokens[n - 1] {
        Token::Symbol(_) => true,
        _ => false,
    }
}

/// Whether closing the pending text of `b` succeeds, and the length of the name that a
/// lone symbol before the text takes.
fn finish_preview(b: &Builder, source: &str) -> (r: (bool, usize))
    requires
        b.raw_start <= b.index <= bytes_of(source).len(),
    ensures
        forall|ns: int| (#[trigger] fancy_finish(bytes_of(source), b.scan(), ns) is Some) == r.0,
        b.raw_start != b.index && b.was_symbol
            ==> r.1 == id_end(bytes_of(source).subrange(b.raw_start as int, b.index as int), 0),
{
    let bytes = source.as_bytes();
    if b.raw_start == b.index || !b.was_symbol {
        return (true, 0);
    }
    let ghost span = bytes@.subrange(b.raw_start as int, b.index as int);
    let off = id_run(bytes, b.raw_start, b.index);
    if off < b.index - b.raw_start {
        let c = bytes[b.raw_start + off];
        proof {
            assert(span[off as int] == c);
        }
        if c >= 0x80 && c <= 0xbf {
            return (false, off);
        }
    }
    if off > 0 {
        return (last_is_symbol(&b.tokens), off);
    }
    (true, off)
}

/// Whether the group token at `ti` can take its count.
fn is_group(tokens: &Vec<Token<'_>>, ti: usize) -> (r: bool)
    requires
        ti < tokens@.len(),
    ensures
        r == (with_count(tokens_view(tokens@)[ti as int], 0) is Some),
{
    proof {
        assert(tokens_view(tokens@)[ti as int] == tokens@[ti as int]@);
    }
    match tokens[ti] {
        Token::Bracketed(_) => true,
        Token::BracketedSymbol(_, _) => true,
        _ => false,
    }
}

/// Whether the tokenizer panics at its next byte.
fn step_panics(b: &Builder, source: &str) -> (r: bool)
    requires
        b.raw_start <= b.index < bytes_of(source).len(),
    ensures
        r == (fancy_step(bytes_of(source), b.scan()) matches FancyStep::Stop(FancyOutcome::Panics)),
{
    let ghost src = bytes_of(source);
    let ghost st = b.scan();
    let bytes = source.as_bytes();
    let len = bytes.len();
    let i = b.index;
    let c = bytes[i];
    if c >= 0x80 && c <= 0xbf {
        return true;
    }
    let (ok, off) = finish_preview(b, source);
    let pending = b.raw_start != b.index;
    let last_sym = last_is_symbol(&b.tokens);
    proof {
        assert(fancy_finish(src, st, i + 1) is Some == ok);
        assert(fancy_finish(src, st, i + 2) is Some == ok);
    }
    if c == 92 && len - i >= 2 {
        match escaped_char_of(bytes[i + 1]) {
            Some(_) => !ok,
            None => false,
        }
    } else if opening_style_of(c).is_some() || symbol_of_byte(c).is_some() {
        !ok || (!pending && b.was_symbol && !last_sym)
    } else if let Some(style) = closing_style_of(c) {
        let depth = b.backtrack.len();
        if depth == 0 {
            return false;
        }
        let back = b.backtrack[depth - 1];
        proof {
            assert(backtrack_view(b.backtrack@).last() == (back.src_index, back.token_index, back.bracket_style));
        }
        if back.bracket_style != style {
            return false;
        }
        let ghost dropped = FancyScan { stack: st.stack.drop_last(), ..st };
        proof {
            assert(fancy_finish(src, dropped, i + 1) is Some == fancy_finish(src, st, i + 1) is Some);
        }
        if !ok {
            return true;
        }
        let n = b.tokens.len();
        let ti = back.token_index;
        if ti >= n {
            return true;
        }
        if pending && b.was_symbol && off > 0 && ti + 1 == n {
            return true;
        }
        !is_group(&b.tokens, ti)
    } else {
        false
    }
}

/// Whether `fancy_parse` panics on `source`: where it would slice the source inside a
/// character.
pub fn fancy_parse_panics(source: &str) -> (r: bool)
    ensures
        r == (spec_fancy_parse(bytes_of(source)) is Panics),
{
    let ghost src = bytes_of(source);
    let len = source.as_bytes().len();
    let mut b = Builder::new();
    while b.index < len
        invariant
            len == src.len(),
            src == bytes_of(source),
            builder_core(b, src),
        decreases len - b.index,
    {
        if step_panics(&b, source) {
            return true;
        }
        match tokenize_step(&mut b, source) {
            Ok(true) => {},
            _ => {
                return false;
            },
        }
    }
    if b.backtrack.len() > 0 {
        return false;
    }
    let (ok, _) = finish_preview(&b, source);
    proof {
        assert(fancy_finish(src, b.scan(), src.len() as int) is Some == ok);
    }
    !ok
}

} // verus!

verus! {

/// On ASCII text, closing the pending text always succeeds.
proof fn lemma_finish_ascii(src: Seq<u8>, st: FancyScan, ns: int)
    requires
        fancy_inv(src, st),
        crate::interp::all_ascii(src),
    ensures
        fancy_finish(src, st, ns) is Some,
        fancy_finish(src, st, ns)->Some_0.was_symbol ==> last_symbol(fancy_finish(src, st, ns)->Some_0.tokens) is Some,
{
    if st.raw_start != st.index && st.was_symbol {
        let span = src.subrange(st.raw_start, st.index);
        let off = id_end(span, 0);
        lemma_id_end_bounds(span, 0);
        if off < span.len() {
            assert(span[off] == src[st.raw_start + off]);
            assert(src[st.raw_start + off] < 128);
        }
    }
}

proof fn lemma_id_end_bounds(span: Seq<u8>, k: int)
    requires
        0 <= k <= span.len(),
    ensures
        k <= id_end(span, k) <= span.len(),
    decreases span.len() - k,
{
    if k < span.len() && is_id_byte(span[k]) {
        lemma_id_end_bounds(span, k + 1);
    }
}

proof fn lemma_fancy_run_ascii(src: Seq<u8>, st: FancyScan)
    requires
        crate::interp::all_ascii(src),
        fancy_inv(src, st),
    ensures
        !(fancy_run(src, st) is Panics),
    decreases src.len() - st.index,
{
    let i = st.index;
    if 0 <= i < src.len() {
        assert(src[i] < 128);
        lemma_finish_ascii(src, st, i + 1);
        lemma_finish_ascii(src, st, i + 2);
        if src[i] == 92 && src.len() - i >= 2 {
            if escaped_char(src[i + 1]) is Some {
                lemma_step_char(src, st, escaped_char(src[i + 1])->Some_0);
            }
        } else if opening_style(src[i]) is Some {
            lemma_step_begin(src, st, opening_style(src[i])->Some_0);
        } else if closing_style(src[i]) is Some {
            let style = closing_style(src[i])->Some_0;
            if st.stack.len() > 0 && st.stack.last().2 == style {
                lemma_finish_inv(src, st, i + 1);
                let st1 = FancyScan { stack: st.stack.drop_last(), ..st };
                assert(fancy_finish(src, st1, i + 1)->Some_0.tokens == fancy_finish(src, st, i + 1)->Some_0.tokens);
                assert(st.stack[st.stack.len() - 1] == st.stack.last());
                lemma_step_end(src, st, style);
            }
        } else if symbol_of(src[i]) is Some {
            lemma_step_symbol(src, st, symbol_of(src[i])->Some_0);
        } else {
            let p = prender(st.tokens, st.stack)->Some_0;
            assert(src.subrange(st.raw_start, i + 1) =~= src.subrange(st.raw_start, i).push(src[i]));
            assert(p + src.subrange(st.raw_start, i + 1) + unescape_from(src, i + 1)
                =~= p + src.subrange(st.raw_start, i) + unescape_from(src, i));
        }
        lemma_fancy_step_advances(src, st);
        if let FancyStep::Next(n) = fancy_step(src, st) {
            lemma_fancy_run_ascii(src, n);
        }
    } else if st.stack.len() == 0 {
        lemma_finish_ascii(src, st, src.len() as int);
    }
}

/// The symbol tokenizer only panics on text that is not ASCII.
pub proof fn lemma_fancy_parse_ascii(src: Seq<u8>)
    requires
        crate::interp::all_ascii(src),
        src.len() <= usize::MAX,
    ensures
        !(spec_fancy_parse(src) is Panics),
{
    let st = fancy_start();
    assert(src.subrange(0, 0) =~= Seq::<u8>::empty());
    assert(render(Seq::<TokenView>::empty()) == Some(Seq::<u8>::empty()));
    assert(Seq::<u8>::empty() + Seq::<u8>::empty() + unescape_from(src, 0) =~= unescape(src));
    lemma_fancy_run_ascii(src, st);
}

} // verus!

verus! {

/// The styles of the open groups, innermost last.
pub open spec fn open_styles(stack: Seq<(usize, usize, BracketStyle)>) -> Seq<BracketStyle> {
    stack.map_values(|e: (usize, usize, BracketStyle)| e.2)
}

/// From byte `i` on, with the groups `open` still open: every backslash that is not the
/// last byte starts an escape the tokenizer knows (the pair is taken together), and every
/// closing bracket closes the innermost open group, which has its style; at the end no
/// group is open.
pub open spec fn brackets_ok_from(src: Seq<u8>, i: int, open: Seq<BracketStyle>) -> bool
    decreases src.len() - i,
{
    if 0 <= i < src.len() {
        if src[i] == 92 && src.len() - i >= 2 {
            escaped_char(src[i + 1]) is Some && brackets_ok_from(src, i + 2, open)
        } else if opening_style(src[i]) is Some {
            brackets_ok_from(src, i + 1, open.push(opening_style(src[i])->Some_0))
        } else if closing_style(src[i]) is Some {
            &&& open.len() > 0
            &&& open.last() == closing_style(src[i])->Some_0
            &&& brackets_ok_from(src, i + 1, open.drop_last())
        } else {
            brackets_ok_from(src, i + 1, open)
        }
    } else {
        open.len() == 0
    }
}

/// The escapes of `src` are known and its brackets balance.
pub open spec fn well_bracketed(src: Seq<u8>) -> bool {
    brackets_ok_from(src, 0, Seq::empty())
}

/// One step keeps the bracket rule in step with the tokenizer: a step that goes on
/// leaves the rule's answer unchanged, and one that fails breaks the rule.
#[verifier::spinoff_prover]
#[verifier::rlimit(40)]
proof fn lemma_brackets_step(src: Seq<u8>, st: FancyScan)
    requires
        fancy_inv(src, st),
        0 <= st.index < src.len(),
        !(fancy_step(src, st) matches FancyStep::Stop(FancyOutcome::Panics)),
    ensures
        fancy_step(src, st) matches FancyStep::Next(n) ==> {
            &&& fancy_inv(src, n)
            &&& st.index < n.index
            &&& brackets_ok_from(src, st.index, open_styles(st.stack))
                == brackets_ok_from(src, n.index, open_styles(n.stack))
        },
        fancy_step(src, st) matches FancyStep::Stop(FancyOutcome::Failed(_))
            ==> !brackets_ok_from(src, st.index, open_styles(st.stack)),
{
    let i = st.index;
    let styles = open_styles(st.stack);
    lemma_fancy_step_advances(src, st);
    if src[i] == 92 && src.len() - i >= 2 {
        if escaped_char(src[i + 1]) is Some {
            let c = escaped_char(src[i + 1])->Some_0;
            lemma_finish_inv(src, st, i + 2);
            lemma_step_char(src, st, c);
        }
    } else if opening_style(src[i]) is Some {
        let style = opening_style(src[i])->Some_0;
        lemma_finish_inv(src, st, i + 1);
        lemma_step_begin(src, st, style);
        let n = fancy_begin(src, st, style)->Some_0;
        assert(open_styles(n.stack) =~= styles.push(style));
    } else if closing_style(src[i]) is Some {
        let style = closing_style(src[i])->Some_0;
        if st.stack.len() > 0 {
            assert(styles.last() == st.stack.last().2);
            if st.stack.last().2 == style {
                lemma_step_end(src, st, style);
                let n = fancy_end(src, st, style)->Next_0;
                assert(n.stack == st.stack.drop_last());
                assert(open_styles(n.stack) =~= styles.drop_last());
            }
        }
    } else if symbol_of(src[i]) is Some {
        let sym = symbol_of(src[i])->Some_0;
        lemma_finish_inv(src, st, i + 1);
        lemma_step_symbol(src, st, sym);
    } else {
        let p = prender(st.tokens, st.stack)->Some_0;
        assert(src.subrange(st.raw_start, i + 1) =~= src.subrange(st.raw_start, i).push(src[i]));
        assert(p + src.subrange(st.raw_start, i + 1) + unescape_from(src, i + 1)
            =~= p + src.subrange(st.raw_start, i) + unescape_from(src, i));
    }
}

proof fn lemma_run_brackets(src: Seq<u8>, st: FancyScan)
    requires
        fancy_inv(src, st),
        !(fancy_run(src, st) is Panics),
    ensures
        (fancy_run(src, st) is Done) == brackets_ok_from(src, st.index, open_styles(st.stack)),
    decreases src.len() - st.index,
{
    let i = st.index;
    if 0 <= i < src.len() {
        lemma_brackets_step(src, st);
        if let FancyStep::Next(n) = fancy_step(src, st) {
            lemma_run_brackets(src, n);
        }
    }
}

/// On every source it does not panic on, the symbol tokenizer succeeds exactly when the
/// source's escapes are known and its brackets balance (each closing bracket closes the
/// innermost open one, of the same style, and none is left open); otherwise it fails.
pub proof fn lemma_fancy_parse_succeeds(src: Seq<u8>)
    requires
        src.len() <= usize::MAX,
        !(spec_fancy_parse(src) is Panics),
    ensures
        (spec_fancy_parse(src) is Done) == well_bracketed(src),
        !well_bracketed(src) ==> spec_fancy_parse(src) is Failed,
{
    let st = fancy_start();
    assert(src.subrange(0, 0) =~= Seq::<u8>::empty());
    assert(render(Seq::<TokenView>::empty()) == Some(Seq::<u8>::empty()));
    assert(Seq::<u8>::empty() + Seq::<u8>::empty() + unescape_from(src, 0) =~= unescape(src));
    assert(open_styles(st.stack) =~= Seq::<BracketStyle>::empty());
    lemma_run_brackets(src, st);
}

} // verus!

verus! {

/// The run of name bytes from `k` ends at `n` when the bytes before `n` are name bytes and
/// the one at `n`, if any, is not.
proof fn lemma_id_end_run(span: Seq<u8>, k: int, n: int)
    requires
        0 <= k <= n <= span.len(),
        forall|j: int| k <= j < n ==> is_id_byte(#[trigger] span[j]),
        n == span.len() || !is_id_byte(span[n]),
    ensures
        id_end(span, k) == n,
    decreases n - k,
{
    if k < n {
        lemma_id_end_run(span, k + 1, n);
    }
}

/// Once the first token is a named symbol, no later step changes it.
#[verifier::spinoff_prover]
proof fn lemma_first_kept_step(src: Seq<u8>, st: FancyScan)
    requires
        st.tokens.len() >= 1,
        st.tokens[0] is SymbolId,
        0 <= st.index < src.len(),
    ensures
        fancy_step(src, st) matches FancyStep::Next(n) ==> n.tokens.len() >= 1 && n.tokens[0] == st.tokens[0],
{
    let i = st.index;
    let st1 = FancyScan { stack: st.stack.drop_last(), ..st };
    assert(forall|ns: int| #[trigger] fancy_finish(src, st, ns) is Some ==> {
        let f = fancy_finish(src, st, ns)->Some_0;
        f.tokens.len() >= 1 && f.tokens[0] == st.tokens[0]
    }) by {
        assert forall|ns: int| #[trigger] fancy_finish(src, st, ns) is Some implies {
            let f = fancy_finish(src, st, ns)->Some_0;
            f.tokens.len() >= 1 && f.tokens[0] == st.tokens[0]
        } by {
            if last_symbol(st.tokens) is Some {
                assert(st.tokens.last() is Symbol);
                assert(st.tokens.len() - 1 != 0);
            }
        }
    }
    assert(forall|ns: int| #[trigger] fancy_finish(src, st1, ns) is Some ==> {
        let f = fancy_finish(src, st1, ns)->Some_0;
        f.tokens.len() >= 1 && f.tokens[0] == st.tokens[0]
    }) by {
        assert forall|ns: int| #[trigger] fancy_finish(src, st1, ns) is Some implies {
            let f = fancy_finish(src, st1, ns)->Some_0;
            f.tokens.len() >= 1 && f.tokens[0] == st.tokens[0]
        } by {
            if last_symbol(st.tokens) is Some {
                assert(st.tokens.last() is Symbol);
                assert(st.tokens.len() - 1 != 0);
            }
        }
    }
    if let FancyStep::Next(n) = fancy_step(src, st) {
        if on_boundary(src, i) && !(src[i] == 92 && src.len() - i >= 2) && opening_style(src[i]) is None
            && closing_style(src[i]) is None && symbol_of(src[i]) is None {
        } else if closing_style(src[i]) is Some && !(src[i] == 92 && src.len() - i >= 2) {
            let f = fancy_finish(src, st1, i + 1)->Some_0;
            let ti = st.stack.last().1 as int;
            if ti == 0 {
                assert(with_count(f.tokens[ti], 0) is None);
            }
        } else {
            let f1 = fancy_finish(src, st, i + 1);
            if f1 is Some && f1->Some_0.was_symbol && last_symbol(f1->Some_0.tokens) is Some {
                assert(f1->Some_0.tokens.last() is Symbol);
            }
        }
    }
}

proof fn lemma_first_kept_run(src: Seq<u8>, st: FancyScan)
    requires
        st.tokens.len() >= 1,
        st.tokens[0] is SymbolId,
        0 <= st.index <= src.len(),
    ensures
        fancy_run(src, st) matches FancyOutcome::Done(toks) ==> toks.len() >= 1 && toks[0] == st.tokens[0],
    decreases src.len() - st.index,
{
    if st.index < src.len() {
        lemma_first_kept_step(src, st);
        lemma_fancy_step_advances(src, st);
        if let FancyStep::Next(n) = fancy_step(src, st) {
            lemma_first_kept_run(src, n);
        }
    } else if st.stack.len() == 0 {
        if let Some(f) = fancy_finish(src, st, src.len() as int) {
            if last_symbol(st.tokens) is Some {
                assert(st.tokens.last() is Symbol);
            }
        }
    }
}

/// A byte of a name: an ASCII letter or digit, `_` or `-`.
spec fn name_byte_at(src: Seq<u8>, j: int) -> bool {
    let b = src[j];
    (65 <= b <= 90) || (97 <= b <= 122) || (48 <= b <= 57) || b == 95 || b == 45
}

/// While the name is read: the only token is the lone symbol, and the text after it is
/// pending.
#[verifier::spinoff_prover]
proof fn lemma_name_run(src: Seq<u8>, st: FancyScan, n: int, sym: Symbol)
    requires
        1 <= n,
        1 + n <= src.len(),
        forall|j: int| 1 <= j < 1 + n ==> #[trigger] name_byte_at(src, j),
        1 + n == src.len() || !name_byte_at(src, 1 + n),
        st.tokens == seq![TokenView::Symbol(sym)],
        st.was_symbol,
        st.raw_start == 1,
        st.stack.len() == 0,
        1 <= st.index <= src.len(),
    ensures
        fancy_run(src, st) matches FancyOutcome::Done(toks)
            ==> toks.len() >= 1 && toks[0] == TokenView::SymbolId(sym, src.subrange(1, 1 + n)),
    decreases src.len() - st.index,
{
    let i = st.index;
    let name = src.subrange(1, 1 + n);
    let span = src.subrange(1, i);
    if i >= 1 + n {
        assert forall|j: int| 0 <= j < n implies is_id_byte(#[trigger] span[j]) by {
            assert(span[j] == src[1 + j]);
            assert(name_byte_at(src, 1 + j));
        }
        if 1 + n < i {
            assert(span[n] == src[1 + n]);
        }
        lemma_id_end_run(span, 0, n);
        assert(span.subrange(0, n) =~= name);
        assert(span[n - 1] == src[n]);
        assert(name_byte_at(src, n));
    }
    let named = seq![TokenView::SymbolId(sym, name)];
    assert(forall|ns: int| i >= 1 + n && #[trigger] fancy_finish(src, st, ns) is Some ==> {
        let f = fancy_finish(src, st, ns)->Some_0;
        &&& f.tokens.len() >= 1
        &&& f.tokens[0] == TokenView::SymbolId(sym, name)
        &&& !f.was_symbol
    }) by {
        assert forall|ns: int| i >= 1 + n && #[trigger] fancy_finish(src, st, ns) is Some implies {
            let f = fancy_finish(src, st, ns)->Some_0;
            &&& f.tokens.len() >= 1
            &&& f.tokens[0] == TokenView::SymbolId(sym, name)
            &&& !f.was_symbol
        } by {
            assert(st.tokens.last() == TokenView::Symbol(sym));
            assert(last_symbol(st.tokens) == Some(sym));
        }
    }
    if i < src.len() {
        lemma_fancy_step_advances(src, st);
        if i < 1 + n {
            assert(name_byte_at(src, i));
            assert(on_boundary(src, i));
            if let FancyStep::Next(m) = fancy_step(src, st) {
                lemma_name_run(src, m, n, sym);
            }
        } else if let FancyStep::Next(m) = fancy_step(src, st) {
            if on_boundary(src, i) && !(src[i] == 92 && src.len() - i >= 2) && opening_style(src[i]) is None
                && closing_style(src[i]) is None && symbol_of(src[i]) is None {
                lemma_name_run(src, m, n, sym);
            } else {
                assert(m.tokens.len() >= 1 && m.tokens[0] == TokenView::SymbolId(sym, name));
                lemma_first_kept_run(src, m);
            }
        }
    } else {
        assert(i >= 1 + n);
    }
}

/// A symbol takes the whole name after it: where the source starts with one of `@ # $ %`
/// followed by a non-empty run of ASCII letters, digits, `_` and `-` that ends the source or
/// is followed by a byte of none of these, a successful tokenization starts with the symbol
/// named by that whole run.
pub proof fn lemma_symbol_takes_whole_name(src: Seq<u8>, n: int)
    requires
        src.len() <= usize::MAX,
        src.len() > 0,
        src[0] == 64 || src[0] == 35 || src[0] == 36 || src[0] == 37,
        1 <= n,
        1 + n <= src.len(),
        forall|j: int| 1 <= j < 1 + n ==> {
            let b = #[trigger] src[j];
            (65 <= b <= 90) || (97 <= b <= 122) || (48 <= b <= 57) || b == 95 || b == 45
        },
        1 + n == src.len() || {
            let b = src[1 + n];
            !((65 <= b <= 90) || (97 <= b <= 122) || (48 <= b <= 57) || b == 95 || b == 45)
        },
    ensures
        spec_fancy_parse(src) matches FancyOutcome::Done(toks) ==> {
            &&& toks.len() >= 1
            &&& toks[0] matches TokenView::SymbolId(sym, name)
            &&& sym.byte() == src[0]
            &&& name == src.subrange(1, 1 + n)
        },
{
    let st0 = fancy_start();
    let sym = symbol_of(src[0])->Some_0;
    assert(on_boundary(src, 0));
    assert forall|j: int| 1 <= j < 1 + n implies #[trigger] name_byte_at(src, j) by {
        assert(src[j] == src[j]);
    }
    lemma_fancy_step_advances(src, st0);
    let st1 = fancy_step(src, st0)->Next_0;
    assert(st1.tokens =~= seq![TokenView::Symbol(sym)]);
    lemma_name_run(src, st1, n, sym);
}

} // verus!
