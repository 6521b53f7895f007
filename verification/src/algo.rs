//! The first tokenizer: plain text, escapes, bracketed groups and lone symbols.
use vstd::prelude::*;
use crate::text::{
    bytes_of, on_boundary, substr, push_char, lemma_prefix_append, lemma_prefix_trans,
    lemma_encode_push,
};
use vstd::utf8::encode_utf8;
use crate::interp::all_ascii;
use crate::bracket::{
    opening_style, closing_style, escaped_char, opening_style_of, closing_style_of,
    escaped_char_of, char_bytes, unescape_from, unescape,
};
pub use crate::bracket::{BracketStyle, Bracketed, FancyError};
pub use crate::driver::parse;
pub use crate::interp::{ParseNode, Never, InterpError, parse_interp, interpolate};

verus! {

/// A token of the source.
#[derive(Debug, Clone, Copy)]
pub enum Token<'a> {
    /// Text without special characters.
    Raw(&'a str),
    /// An escaped character.
    Esc(char),
    /// `(token_count, bracket_style)`
    Bracketed(Bracketed),
    At,
    Octo,
    Dollar,
    Percent,
}

/// A `Token` with its text taken as bytes and its group as count and style.
pub enum TokenView {
    Raw(Seq<u8>),
    Esc(char),
    Bracketed(usize, BracketStyle),
    At,
    Octo,
    Dollar,
    Percent,
}

impl<'a> View for Token<'a> {
    type V = TokenView;

    open spec fn view(&self) -> TokenView {
        match *self {
            Token::Raw(s) => TokenView::Raw(bytes_of(s)),
            Token::Esc(c) => TokenView::Esc(c),
            Token::Bracketed(b) => TokenView::Bracketed(b.spec_count(), b.spec_style()),
            Token::At => TokenView::At,
            Token::Octo => TokenView::Octo,
            Token::Dollar => TokenView::Dollar,
            Token::Percent => TokenView::Percent,
        }
    }
}

pub open spec fn tokens_view(s: Seq<Token<'_>>) -> Seq<TokenView> {
    s.map_values(|t: Token| t@)
}

/// The token of a symbol byte, if `b` is one.
pub open spec fn symbol_token(b: u8) -> Option<TokenView> {
    if b == 64 {
        Some(TokenView::At)
    } else if b == 35 {
        Some(TokenView::Octo)
    } else if b == 36 {
        Some(TokenView::Dollar)
    } else if b == 37 {
        Some(TokenView::Percent)
    } else {
        None
    }
}

fn symbol_token_of<'a>(b: u8) -> (r: Option<Token<'a>>)
    ensures
        match r {
            Some(t) => symbol_token(b) == Some(t@),
            None => symbol_token(b) is None,
        },
{
    if b == 64 {
        Some(Token::At)
    } else if b == 35 {
        Some(Token::Octo)
    } else if b == 36 {
        Some(Token::Dollar)
    } else if b == 37 {
        Some(Token::Percent)
    } else {
        None
    }
}

/// The state of the tokenizer: the byte being looked at, the start of the pending raw
/// text, the tokens so far, and the open groups as (source index, token index, style).
pub struct AlgoScan {
    pub index: int,
    pub raw_start: int,
    pub tokens: Seq<TokenView>,
    pub stack: Seq<(usize, usize, BracketStyle)>,
}

/// How a tokenization ends.
pub enum AlgoOutcome {
    Done(Seq<TokenView>),
    Failed(FancyError),
    /// Slicing the source in the middle of a character: the tokenizer panics there.
    Panics,
}

pub open spec fn algo_start() -> AlgoScan {
    AlgoScan { index: 0, raw_start: 0, tokens: Seq::empty(), stack: Seq::empty() }
}

/// Emits the pending raw text, if any.
pub open spec fn algo_finish(src: Seq<u8>, st: AlgoScan, new_start: int) -> AlgoScan {
    if st.raw_start != st.index {
        AlgoScan {
            tokens: st.tokens.push(TokenView::Raw(src.subrange(st.raw_start, st.index))),
            raw_start: new_start,
            ..st
        }
    } else {
        AlgoScan { raw_start: new_start, ..st }
    }
}

/// Emits a token that takes `count` bytes of the source.
pub open spec fn algo_push(src: Seq<u8>, st: AlgoScan, count: int, t: TokenView) -> AlgoScan {
    let f = algo_finish(src, st, st.index + count);
    AlgoScan { tokens: f.tokens.push(t), index: st.index + count, ..f }
}

/// Opens a group.
pub open spec fn algo_begin(src: Seq<u8>, st: AlgoScan, style: BracketStyle) -> AlgoScan {
    let f = algo_finish(src, st, st.index + 1);
    AlgoScan {
        stack: f.stack.push((st.index as usize, f.tokens.len() as usize, style)),
        tokens: f.tokens.push(TokenView::Bracketed(usize::MAX, style)),
        index: st.index + 1,
        ..f
    }
}

/// The result of closing a group: the next state, or how the tokenization ends.
pub enum AlgoStep {
    Next(AlgoScan),
    Stop(AlgoOutcome),
}

/// Closes the innermost open group, which must have the same style; its token then
/// counts the tokens after it.
pub open spec fn algo_end(src: Seq<u8>, st: AlgoScan, style: BracketStyle) -> AlgoStep {
    if st.stack.len() == 0 {
        AlgoStep::Stop(AlgoOutcome::Failed(FancyError::UnmatchedClose(style, st.index as usize)))
    } else {
        let back = st.stack.last();
        if back.2 != style {
            AlgoStep::Stop(AlgoOutcome::Failed(FancyError::MismatchedBracket {
                found: style,
                found_index: st.index as usize,
                expected: back.2,
                expected_index: back.0,
            }))
        } else {
            let f = algo_finish(src, AlgoScan { stack: st.stack.drop_last(), ..st }, st.index + 1);
            let ti = back.1 as int;
            if ti < f.tokens.len() && f.tokens[ti] is Bracketed {
                let own_style = f.tokens[ti]->Bracketed_1;
                AlgoStep::Next(AlgoScan {
                    tokens: f.tokens.update(ti, TokenView::Bracketed((f.tokens.len() - ti - 1) as usize, own_style)),
                    index: st.index + 1,
                    ..f
                })
            } else {
                AlgoStep::Stop(AlgoOutcome::Panics)
            }
        }
    }
}

/// One step of the tokenizer at a byte of the source.
pub open spec fn algo_step(src: Seq<u8>, st: AlgoScan) -> AlgoStep {
    let i = st.index;
    if !on_boundary(src, i) {
        AlgoStep::Stop(AlgoOutcome::Panics)
    } else if src[i] == 92 && src.len() - i >= 2 {
        match escaped_char(src[i + 1]) {
            Some(c) => AlgoStep::Next(algo_push(src, st, 2, TokenView::Esc(c))),
            None => AlgoStep::Stop(AlgoOutcome::Failed(FancyError::UnrecognizedEscape(i as usize))),
        }
    } else if opening_style(src[i]) is Some {
        AlgoStep::Next(algo_begin(src, st, opening_style(src[i])->Some_0))
    } else if closing_style(src[i]) is Some {
        algo_end(src, st, closing_style(src[i])->Some_0)
    } else if symbol_token(src[i]) is Some {
        AlgoStep::Next(algo_push(src, st, 1, symbol_token(src[i])->Some_0))
    } else {
        AlgoStep::Next(AlgoScan { index: i + 1, ..st })
    }
}

/// The tokenization of `src` from state `st`.
pub open spec fn algo_run(src: Seq<u8>, st: AlgoScan) -> AlgoOutcome
    decreases src.len() - st.index,
{
    if 0 <= st.index < src.len() {
        match algo_step(src, st) {
            AlgoStep::Next(n) => if st.index < n.index {
                algo_run(src, n)
            } else {
                AlgoOutcome::Panics
            },
            AlgoStep::Stop(o) => o,
        }
    } else if st.stack.len() > 0 {
        AlgoOutcome::Failed(FancyError::UnmatchedOpen(st.stack.last().2, st.stack.last().0))
    } else {
        AlgoOutcome::Done(algo_finish(src, st, src.len() as int).tokens)
    }
}

/// The tokenization of a whole source.
pub open spec fn spec_algo_parse(src: Seq<u8>) -> AlgoOutcome {
    algo_run(src, algo_start())
}

/// An open group: where its bracket is in the source, where its token is, and its style.
#[derive(Clone, Copy)]
struct Backtrack {
    src_index: usize,
    token_index: usize,
    bracket_style: BracketStyle,
}

spec fn backtrack_view(s: Seq<Backtrack>) -> Seq<(usize, usize, BracketStyle)> {
    s.map_values(|b: Backtrack| (b.src_index, b.token_index, b.bracket_style))
}

/// The tokenizer's state.
struct Builder<'a> {
    index: usize,
    raw_start: usize,
    tokens: Vec<Token<'a>>,
    backtrack: Vec<Backtrack>,
}

impl<'a> Builder<'a> {
    spec fn scan(&self) -> AlgoScan {
        AlgoScan {
            index: self.index as int,
            raw_start: self.raw_start as int,
            tokens: tokens_view(self.tokens@),
            stack: backtrack_view(self.backtrack@),
        }
    }

    /// The pending raw text lies between character boundaries of `src`.
    spec fn positioned(&self, src: Seq<u8>) -> bool {
        &&& self.raw_start <= self.index <= src.len() <= usize::MAX
        &&& self.raw_start == self.index || on_boundary(src, self.raw_start as int)
        &&& on_boundary(src, self.index as int)
    }

    fn new() -> (r: Self)
        ensures
            r.scan() == algo_start(),
    {
        let r = Self { index: 0, raw_start: 0, tokens: Vec::new(), backtrack: Vec::new() };
        proof {
            assert(tokens_view(r.tokens@) =~= Seq::<TokenView>::empty());
            assert(backtrack_view(r.backtrack@) =~= Seq::<(usize, usize, BracketStyle)>::empty());
        }
        r
    }

    fn is_reading_raw(&self) -> (r: bool)
        ensures
            r == (self.raw_start != self.index),
    {
        self.raw_start != self.index
    }

    fn finish_raw(&mut self, src: &'a str, new_start: usize)
        requires
            old(self).positioned(bytes_of(src)),
        ensures
            final(self).scan() == algo_finish(bytes_of(src), old(self).scan(), new_start as int),
    {
        if self.is_reading_raw() {
            let ghost mid = self.tokens@;
            let end = if self.index < src.as_bytes().len() { self.index } else { src.as_bytes().len() };
            self.tokens.push(Token::Raw(substr(src, self.raw_start, end)));
            proof {
                assert(tokens_view(self.tokens@) =~= tokens_view(mid).push(
                    TokenView::Raw(bytes_of(src).subrange(old(self).raw_start as int, old(self).index as int))));
            }
        }
        self.raw_start = new_start;
    }

    fn push_wrap(&mut self, src: &'a str, count: usize, token: Token<'a>) -> (r: Result<bool, FancyError>)
        requires
            old(self).positioned(bytes_of(src)),
            old(self).index + count <= bytes_of(src).len(),
        ensures
            r == Ok::<bool, FancyError>(true),
            final(self).scan() == algo_push(bytes_of(src), old(self).scan(), count as int, token@),
    {
        let new_index = self.index + count;
        self.finish_raw(src, new_index);
        let ghost mid = self.tokens@;
        self.tokens.push(token);
        self.index = new_index;
        proof {
            assert(tokens_view(self.tokens@) =~= tokens_view(mid).push(token@));
        }
        Ok(true)
    }

    fn begin_bracketed(&mut self, src: &'a str, count: usize, bracket_style: BracketStyle) -> (r: Result<bool, FancyError>)
        requires
            old(self).positioned(bytes_of(src)),
            count == 1,
            old(self).index < bytes_of(src).len(),
        ensures
            r == Ok::<bool, FancyError>(true),
            final(self).scan() == algo_begin(bytes_of(src), old(self).scan(), bracket_style),
    {
        let new_index = self.index + count;
        self.finish_raw(src, new_index);
        let ghost bt = self.backtrack@;
        self.backtrack.push(Backtrack {
            src_index: self.index,
            token_index: self.tokens.len(),
            bracket_style,
        });
        self.index = new_index;
        let ghost mid = self.tokens@;
        self.tokens.push(Token::Bracketed(Bracketed::new(usize::MAX, bracket_style)));
        proof {
            assert(tokens_view(self.tokens@) =~= tokens_view(mid).push(TokenView::Bracketed(usize::MAX, bracket_style)));
            assert(backtrack_view(self.backtrack@) =~= backtrack_view(bt).push(
                (old(self).index, mid.len() as usize, bracket_style)));
        }
        Ok(true)
    }

    fn end_bracketed(&mut self, src: &'a str, count: usize, bracket_style: BracketStyle) -> (r: Result<bool, FancyError>)
        requires
            old(self).positioned(bytes_of(src)),
            count == 1,
            old(self).index < bytes_of(src).len(),
            !(algo_end(bytes_of(src), old(self).scan(), bracket_style) matches AlgoStep::Stop(AlgoOutcome::Panics)),
        ensures
            match algo_end(bytes_of(src), old(self).scan(), bracket_style) {
                AlgoStep::Next(n) => r == Ok::<bool, FancyError>(true) && final(self).scan() == n,
                AlgoStep::Stop(AlgoOutcome::Failed(e)) => r == Err::<bool, FancyError>(e),
                _ => false,
            },
    {
        let ghost bt = self.backtrack@;
        let back = match self.backtrack.pop() {
            Some(back) => back,
            None => {
                return Err(FancyError::UnmatchedClose(bracket_style, self.index));
            },
        };
        proof {
            assert(backtrack_view(bt).last() == (back.src_index, back.token_index, back.bracket_style));
            assert(backtrack_view(self.backtrack@) =~= backtrack_view(bt).drop_last());
        }
        if back.bracket_style != bracket_style {
            return Err(FancyError::MismatchedBracket {
                found: bracket_style,
                found_index: self.index,
                expected: back.bracket_style,
                expected_index: back.src_index,
            });
        }
        let new_index = self.index + count;
        self.finish_raw(src, new_index);
        let ghost mid = self.tokens@;
        let token_count = self.tokens.len() - back.token_index - 1;
        proof {
            assert(tokens_view(mid)[back.token_index as int] == mid[back.token_index as int]@);
        }
        match self.tokens[back.token_index] {
            Token::Bracketed(brack) => {
                self.tokens.set(back.token_index, Token::Bracketed(brack.with_count(token_count)));
            },
            _ => {
                vstd::pervasive::unreached::<()>();
            },
        }
        proof {
            assert(tokens_view(self.tokens@) =~= tokens_view(mid).update(back.token_index as int,
                TokenView::Bracketed(token_count, tokens_view(mid)[back.token_index as int]->Bracketed_1)));
        }
        self.index = new_index;
        Ok(true)
    }
}

/// What the tokenizer keeps true between steps: the pending raw text starts at a character
/// boundary, and going on from here gives the tokenization of the whole source.
spec fn builder_ok(b: Builder, src: Seq<u8>) -> bool {
    &&& b.raw_start <= b.index <= src.len()
    &&& b.raw_start == b.index || on_boundary(src, b.raw_start as int)
    &&& algo_run(src, b.scan()) == spec_algo_parse(src)
    &&& !(spec_algo_parse(src) is Panics)
}

/// What a finished tokenization gives: the tokens of a source whose length is a `usize`,
/// or the error.
spec fn tokenized(b: Builder, r: Result<(), FancyError>, src: Seq<u8>) -> bool {
    match r {
        Ok(_) => src.len() <= usize::MAX && spec_algo_parse(src) == AlgoOutcome::Done(tokens_view(b.tokens@)),
        Err(e) => spec_algo_parse(src) == AlgoOutcome::Failed(e),
    }
}

/// One step of the tokenizer: takes the token at the current byte, or at the end of the
/// source closes the pending text and answers `Ok(false)`.
fn tokenize_step<'a>(out: &mut Builder<'a>, source: &'a str) -> (c: Result<bool, FancyError>)
    requires
        builder_ok(*old(out), bytes_of(source)),
    ensures
        c matches Ok(true) ==> builder_ok(*final(out), bytes_of(source)) && final(out).index > old(out).index,
        c matches Ok(false) ==> tokenized(*final(out), Ok(()), bytes_of(source)),
        c matches Err(e) ==> tokenized(*final(out), Err(e), bytes_of(source)),
{
    let ghost src = bytes_of(source);
    let bytes = source.as_bytes();
    let len = bytes.len();
    if out.index >= len {
        if out.backtrack.len() > 0 {
            let ghost bt = out.backtrack@;
            let unmatched = out.backtrack.pop().unwrap();
            proof {
                assert(bt == out.backtrack@.push(unmatched));
                assert(backtrack_view(bt).last() == (unmatched.src_index, unmatched.token_index, unmatched.bracket_style));
            }
            return Err(FancyError::UnmatchedOpen(unmatched.bracket_style, unmatched.src_index));
        }
        out.finish_raw(source, len);
        return Ok(false);
    }
    assert(on_boundary(src, out.index as int));
    let c = bytes[out.index];
    if c == 92 && len - out.index >= 2 {
        match escaped_char_of(bytes[out.index + 1]) {
            Some(chr) => out.push_wrap(source, 2, Token::Esc(chr)),
            None => Err(FancyError::UnrecognizedEscape(out.index)),
        }
    } else if let Some(style) = opening_style_of(c) {
        out.begin_bracketed(source, 1, style)
    } else if let Some(style) = closing_style_of(c) {
        out.end_bracketed(source, 1, style)
    } else if let Some(token) = symbol_token_of(c) {
        out.push_wrap(source, 1, token)
    } else {
        out.index = out.index + 1;
        Ok(true)
    }
}

/// Splits `source` into tokens: runs of plain text, escapes `\\n`, `\\t`, `\\r`, `\\0` and
/// `\\` before a bracket or symbol, bracketed groups, and the symbols `@`, `#`, `$`, `%`.
pub fn fancy_parse<'a>(source: &'a str) -> (r: Result<Vec<Token<'a>>, FancyError>)
    requires
        !(spec_algo_parse(bytes_of(source)) is Panics),
    ensures
        match spec_algo_parse(bytes_of(source)) {
            AlgoOutcome::Done(toks) => r matches Ok(v) && tokens_view(v@) == toks,
            AlgoOutcome::Failed(e) => r == Err::<Vec<Token<'a>>, FancyError>(e),
            AlgoOutcome::Panics => false,
        },
        r matches Ok(v) ==> render(tokens_view(v@)) == Some(unescape(bytes_of(source))),
        r matches Ok(v) ==> group_ends_fit(tokens_view(v@)),
        r matches Ok(v) ==> raws_plain(tokens_view(v@)),
{
    let ghost src = bytes_of(source);
    let mut builder = Builder::new();
    parse(
        &mut builder,
        source,
        tokenize_step,
        Ghost(|b: Builder<'a>| builder_ok(b, src)),
        Ghost(|b: Builder<'a>| (src.len() - b.index) as nat),
        Ghost(|b: Builder<'a>, r: Result<(), FancyError>| tokenized(b, r, src)),
    )?;
    proof {
        lemma_fancy_parse_roundtrip(src);
        lemma_fancy_parse_raw_plain(src);
        assert(builder.tokens@.len() == builder.tokens.len());
        lemma_render_group_ends_fit(tokens_view(builder.tokens@));
    }
    Ok(builder.tokens)
}

/// How a performer reports tokens that it cannot visit.
pub trait FancyPerformerError<'a>: Sized {
    fn invalid_tokens(tokens: &[Token<'a>]) -> Self;

    fn invalid_bracketed() -> Self;
}

impl<'a> FancyPerformerError<'a> for () {
    fn invalid_tokens(_tokens: &[Token<'a>]) -> Self {
        ()
    }

    fn invalid_bracketed() -> Self {
        ()
    }
}

/// What a performer visits next: a token, a group or a symbol with the range of the
/// tokens it takes, or a symbol that ends the tokens.
#[derive(Debug, Clone, Copy)]
pub enum Visit<'a> {
    Raw(&'a str),
    Esc(char),
    Bracketed(Bracketed, usize, usize),
    /// A symbol (`@`, `#`, `$` or `%`) and the token or group after it.
    Symbol(char, usize, usize),
    /// A symbol that is the last token: it is visited as text and the visit ends.
    TrailingSymbol(char),
    /// A group claims more tokens than there are.
    InvalidBracketed,
}

/// The character of a symbol token.
pub open spec fn symbol_char(t: TokenView) -> Option<char> {
    match t {
        TokenView::At => Some('@'),
        TokenView::Octo => Some('#'),
        TokenView::Dollar => Some('$'),
        TokenView::Percent => Some('%'),
        _ => None,
    }
}

/// The count of the group that the token opens, if it opens one.
pub open spec fn group_count(t: TokenView) -> Option<int> {
    match t {
        TokenView::Bracketed(c, _) => Some(c as int),
        _ => None,
    }
}

/// A token, or a group with its tokens, that starts at `start` ends before this position.
pub open spec fn unit_end(tokens: Seq<TokenView>, start: int) -> int {
    match group_count(tokens[start]) {
        Some(c) => start + 1 + c,
        None => start + 1,
    }
}

/// The step of a performer at `tokens[index]`: what it visits, and where it goes on.
/// A group's tokens are the `count` tokens after it; a symbol takes the token or the group
/// after it.
pub fn visit_step<'a>(tokens: &[Token<'a>], index: usize) -> (r: (Visit<'a>, usize))
    requires
        index < tokens@.len(),
        group_count(tokens@[index as int]@) matches Some(c) ==> index + 1 + c <= usize::MAX,
        symbol_char(tokens@[index as int]@) is Some && index + 1 < tokens@.len()
            ==> unit_end(tokens_view(tokens@), index + 1) <= usize::MAX,
    ensures
        match tokens@[index as int] {
            Token::Raw(s) => r == (Visit::Raw(s), (index + 1) as usize),
            Token::Esc(c) => r == (Visit::Esc(c), (index + 1) as usize),
            Token::Bracketed(b) => {
                let end = index + 1 + b.spec_count();
                if end <= tokens@.len() {
                    r == (Visit::Bracketed(b, (index + 1) as usize, end as usize), end as usize)
                } else {
                    r.0 is InvalidBracketed
                }
            },
            _ => {
                let c = symbol_char(tokens@[index as int]@)->Some_0;
                if index + 1 >= tokens@.len() {
                    r == (Visit::TrailingSymbol(c), tokens@.len() as usize)
                } else {
                    let end = unit_end(tokens_view(tokens@), index + 1);
                    if end <= tokens@.len() {
                        r == (Visit::Symbol(c, (index + 1) as usize, end as usize), end as usize)
                    } else {
                        r.0 is InvalidBracketed
                    }
                }
            },
        },
{
    let token = tokens[index];
    let symbol = match token {
        Token::Raw(raw) => {
            return (Visit::Raw(raw), index + 1);
        },
        Token::Esc(esc) => {
            return (Visit::Esc(esc), index + 1);
        },
        Token::Bracketed(bracketed) => {
            let count = bracketed.count();
            let range_start = index + 1;
            let range_end = range_start + count;
            if tokens.len() < range_end {
                return (Visit::InvalidBracketed, index);
            }
            return (Visit::Bracketed(bracketed, range_start, range_end), range_end);
        },
        Token::At => '@',
        Token::Octo => '#',
        Token::Dollar => '$',
        Token::Percent => '%',
    };
    let next = index + 1;
    if next >= tokens.len() {
        return (Visit::TrailingSymbol(symbol), tokens.len());
    }
    proof {
        assert(tokens_view(tokens@)[next as int] == tokens@[next as int]@);
    }
    match tokens[next] {
        Token::Bracketed(br) => {
            let count = br.count();
            let br_end = next + 1 + count;
            if br_end > tokens.len() {
                return (Visit::InvalidBracketed, index);
            }
            (Visit::Symbol(symbol, next, br_end), br_end)
        },
        _ => (Visit::Symbol(symbol, next, next + 1), next + 1),
    }
}


/// The style of the group that the token opens, if it opens one.
pub open spec fn group_style(t: TokenView) -> Option<BracketStyle> {
    match t {
        TokenView::Bracketed(_, style) => Some(style),
        _ => None,
    }
}

/// The text a performer writes for a token before the tokens of its group.
pub open spec fn token_head(t: TokenView) -> Seq<u8> {
    match t {
        TokenView::Raw(b) => b,
        TokenView::Esc(c) => char_bytes(c),
        TokenView::Bracketed(_, style) => seq![style.open_byte()],
        TokenView::At => seq![64u8],
        TokenView::Octo => seq![35u8],
        TokenView::Dollar => seq![36u8],
        TokenView::Percent => seq![37u8],
    }
}

/// The text a performer writes for a token after the tokens of its group.
pub open spec fn token_tail(t: TokenView) -> Seq<u8> {
    match group_style(t) {
        Some(style) => seq![style.close_byte()],
        None => Seq::empty(),
    }
}

/// Where what the first token takes with it ends: the tokens of its group, or for a symbol
/// the token or group after it.
pub open spec fn render_end(toks: Seq<TokenView>) -> int {
    if symbol_char(toks[0]) is Some {
        unit_end(toks, 1)
    } else {
        unit_end(toks, 0)
    }
}

/// The text that a `String` performer writes for the tokens, as the default visits give
/// it: each token's text, a group's tokens between its brackets, and a symbol's character
/// followed by the token or group after it.  `None` where a group claims more tokens than
/// there are.
pub open spec fn render(toks: Seq<TokenView>) -> Option<Seq<u8>>
    decreases toks.len(),
{
    if toks.len() == 0 {
        Some(Seq::empty())
    } else if symbol_char(toks[0]) is Some && toks.len() == 1 {
        Some(token_head(toks[0]))
    } else {
        let e = render_end(toks);
        if e > toks.len() || e < 1 {
            None
        } else {
            match (render(toks.subrange(1, e)), render(toks.subrange(e, toks.len() as int))) {
                (Some(inner), Some(rest)) => Some(token_head(toks[0]) + inner + token_tail(toks[0]) + rest),
                _ => None,
            }
        }
    }
}


proof fn lemma_render_empty()
    ensures
        render(Seq::<TokenView>::empty()) == Some(Seq::<u8>::empty()),
{
}

proof fn lemma_render_split(b: Seq<TokenView>)
    requires
        render(b) is Some,
        b.len() > 0,
    ensures
        ({
            let u = unit_end(b, 0);
            &&& 1 <= u <= b.len()
            &&& render(b.subrange(0, u)) is Some
            &&& render(b.subrange(u, b.len() as int)) is Some
            &&& render(b) == Some(render(b.subrange(0, u))->Some_0 + render(b.subrange(u, b.len() as int))->Some_0)
        }),
    decreases b.len(), 0int,
{
    lemma_render_empty();
    let u = unit_end(b, 0);
    if symbol_char(b[0]) is Some {
        let one = b.subrange(0, 1);
        assert(one[0] == b[0]);
        assert(render(one) == Some(token_head(b[0])));
        if b.len() == 1 {
            assert(b.subrange(1, 1) =~= Seq::<TokenView>::empty());
            assert(one =~= b);
            assert(token_head(b[0]) + Seq::<u8>::empty() =~= token_head(b[0]));
        } else {
            let e = unit_end(b, 1);
            let x = b.subrange(1, e);
            let y = b.subrange(e, b.len() as int);
            lemma_render_concat(x, y);
            assert(x + y =~= b.subrange(1, b.len() as int));
            assert(token_head(b[0]) + render(x)->Some_0 + token_tail(b[0]) + render(y)->Some_0
                =~= token_head(b[0]) + (render(x)->Some_0 + render(y)->Some_0));
        }
    } else {
        let pre = b.subrange(0, u);
        assert(pre[0] == b[0]);
        assert(unit_end(pre, 0) == u);
        assert(pre.subrange(1, u) =~= b.subrange(1, u));
        assert(pre.subrange(u, u) =~= Seq::<TokenView>::empty());
        let inner = render(b.subrange(1, u))->Some_0;
        assert(token_head(b[0]) + inner + token_tail(b[0]) + Seq::<u8>::empty()
            =~= token_head(b[0]) + inner + token_tail(b[0]));
    }
}

#[verifier::spinoff_prover]
proof fn lemma_render_concat(a: Seq<TokenView>, b: Seq<TokenView>)
    requires
        render(a) is Some,
        render(b) is Some,
    ensures
        render(a + b) == Some(render(a)->Some_0 + render(b)->Some_0),
    decreases a.len() + b.len(), 1int,
{
    lemma_render_empty();
    let ab = a + b;
    if a.len() == 0 {
        assert(ab =~= b);
        assert(render(a)->Some_0 + render(b)->Some_0 =~= render(b)->Some_0);
    } else if b.len() == 0 {
        assert(ab =~= a);
        assert(render(a)->Some_0 + render(b)->Some_0 =~= render(a)->Some_0);
    } else if symbol_char(a[0]) is Some && a.len() == 1 {
        lemma_render_split(b);
        let u = unit_end(b, 0);
        assert(ab[0] == a[0]);
        assert(ab[1] == b[0]);
        assert(unit_end(ab, 1) == 1 + u);
        assert(ab.subrange(1, 1 + u) =~= b.subrange(0, u));
        assert(ab.subrange(1 + u, ab.len() as int) =~= b.subrange(u, b.len() as int));
        let x = render(b.subrange(0, u))->Some_0;
        let y = render(b.subrange(u, b.len() as int))->Some_0;
        assert(token_head(a[0]) + x + token_tail(a[0]) + y =~= token_head(a[0]) + (x + y));
    } else {
        let e = render_end(a);
        assert(ab[0] == a[0]);
        if symbol_char(a[0]) is Some {
            assert(ab[1] == a[1]);
        }
        assert(render_end(ab) == e);
        assert(ab.subrange(1, e) =~= a.subrange(1, e));
        assert(ab.subrange(e, ab.len() as int) =~= a.subrange(e, a.len() as int) + b);
        lemma_render_concat(a.subrange(e, a.len() as int), b);
        let inner = render(a.subrange(1, e))->Some_0;
        let rest = render(a.subrange(e, a.len() as int))->Some_0;
        let rb = render(b)->Some_0;
        assert(token_head(a[0]) + inner + token_tail(a[0]) + (rest + rb)
            =~= (token_head(a[0]) + inner + token_tail(a[0]) + rest) + rb);
    }
}


proof fn lemma_render_push(a: Seq<TokenView>, x: TokenView)
    requires
        render(a) is Some,
        group_count(x) is None,
    ensures
        render(a.push(x)) == Some(render(a)->Some_0 + token_head(x)),
{
    lemma_render_empty();
    let t = seq![x];
    assert(t[0] == x);
    if symbol_char(x) is None {
        assert(t.subrange(1, 1) =~= Seq::<TokenView>::empty());
        assert(token_head(x) + Seq::<u8>::empty() + Seq::<u8>::empty() + Seq::<u8>::empty() =~= token_head(x));
    }
    assert(render(t) == Some(token_head(x)));
    lemma_render_concat(a, t);
    assert(a + t =~= a.push(x));
}

/// The open groups, as (source index, token index, style), are in token order, and each
/// names a group token of its style.
pub open spec fn stack_ok(toks: Seq<TokenView>, stack: Seq<(usize, usize, BracketStyle)>) -> bool {
    &&& forall|a: int, b: int| 0 <= a < b < stack.len() ==> stack[a].1 < stack[b].1
    &&& forall|a: int| 0 <= a < stack.len() ==> (#[trigger] stack[a]).1 < toks.len()
        && group_style(toks[stack[a].1 as int]) == Some(stack[a].2)
}

/// The text of the tokens so far when the open groups are not closed yet.
pub open spec fn prender(toks: Seq<TokenView>, stack: Seq<(usize, usize, BracketStyle)>) -> Option<Seq<u8>>
    decreases stack.len(),
{
    if stack.len() == 0 {
        render(toks)
    } else {
        let t = stack.last().1 as int;
        if 0 <= t < toks.len() {
            match (prender(toks.subrange(0, t), stack.drop_last()), render(toks.subrange(t + 1, toks.len() as int))) {
                (Some(a), Some(b)) => Some(a + token_head(toks[t]) + b),
                _ => None,
            }
        } else {
            None
        }
    }
}

proof fn lemma_prender_push(toks: Seq<TokenView>, stack: Seq<(usize, usize, BracketStyle)>, x: TokenView)
    requires
        stack_ok(toks, stack),
        prender(toks, stack) is Some,
        group_count(x) is None,
    ensures
        prender(toks.push(x), stack) == Some(prender(toks, stack)->Some_0 + token_head(x)),
        stack_ok(toks.push(x), stack),
{
    let t2 = toks.push(x);
    assert forall|a: int| 0 <= a < stack.len() implies (#[trigger] stack[a]).1 < t2.len()
        && group_style(t2[stack[a].1 as int]) == Some(stack[a].2) by {
        assert(t2[stack[a].1 as int] == toks[stack[a].1 as int]);
    }
    if stack.len() == 0 {
        lemma_render_push(toks, x);
    } else {
        let t = stack.last().1 as int;
        assert(stack[stack.len() - 1] == stack.last());
        assert(t2.subrange(0, t) =~= toks.subrange(0, t));
        assert(t2.subrange(t + 1, t2.len() as int) =~= toks.subrange(t + 1, toks.len() as int).push(x));
        assert(t2[t] == toks[t]);
        lemma_render_push(toks.subrange(t + 1, toks.len() as int), x);
        let a = prender(toks.subrange(0, t), stack.drop_last())->Some_0;
        let b = render(toks.subrange(t + 1, toks.len() as int))->Some_0;
        assert(a + token_head(toks[t]) + (b + token_head(x)) =~= (a + token_head(toks[t]) + b) + token_head(x));
    }
}

proof fn lemma_prender_open(toks: Seq<TokenView>, stack: Seq<(usize, usize, BracketStyle)>, g: TokenView, si: usize)
    requires
        stack_ok(toks, stack),
        prender(toks, stack) is Some,
        group_style(g) is Some,
        toks.len() <= usize::MAX,
    ensures
        prender(toks.push(g), stack.push((si, toks.len() as usize, group_style(g)->Some_0)))
            == Some(prender(toks, stack)->Some_0 + token_head(g)),
        stack_ok(toks.push(g), stack.push((si, toks.len() as usize, group_style(g)->Some_0))),
{
    lemma_render_empty();
    let t2 = toks.push(g);
    let s2 = stack.push((si, toks.len() as usize, group_style(g)->Some_0));
    let n = toks.len() as int;
    assert(s2.drop_last() =~= stack);
    assert(t2.subrange(0, n) =~= toks);
    assert(t2.subrange(n + 1, t2.len() as int) =~= Seq::<TokenView>::empty());
    assert(prender(toks, stack)->Some_0 + token_head(g) + Seq::<u8>::empty() =~= prender(toks, stack)->Some_0 + token_head(g));
    assert forall|a: int, b: int| 0 <= a < b < s2.len() implies s2[a].1 < s2[b].1 by {
        if b == s2.len() - 1 {
            assert(s2[a] == stack[a]);
        } else {
            assert(s2[a] == stack[a]);
            assert(s2[b] == stack[b]);
        }
    }
    assert forall|a: int| 0 <= a < s2.len() implies (#[trigger] s2[a]).1 < t2.len()
        && group_style(t2[s2[a].1 as int]) == Some(s2[a].2) by {
        if a < stack.len() {
            assert(s2[a] == stack[a]);
            assert(t2[stack[a].1 as int] == toks[stack[a].1 as int]);
        }
    }
}

proof fn lemma_render_group(g: TokenView, inner: Seq<TokenView>)
    requires
        group_count(g) == Some(inner.len() as int),
        render(inner) is Some,
    ensures
        render(seq![g] + inner) == Some(token_head(g) + render(inner)->Some_0 + token_tail(g)),
{
    lemma_render_empty();
    let t = seq![g] + inner;
    assert(t[0] == g);
    assert(t.subrange(1, t.len() as int) =~= inner);
    assert(t.subrange(t.len() as int, t.len() as int) =~= Seq::<TokenView>::empty());
    assert(token_head(g) + render(inner)->Some_0 + token_tail(g) + Seq::<u8>::empty()
        =~= token_head(g) + render(inner)->Some_0 + token_tail(g));
}

proof fn lemma_prender_close_deep(toks: Seq<TokenView>, toks2: Seq<TokenView>, stack: Seq<(usize, usize, BracketStyle)>, g: TokenView)
    requires
        stack_ok(toks, stack),
        stack.len() > 1,
        prender(toks, stack) is Some,
        toks2 == toks.update(stack.last().1 as int, g),
        render(toks2.subrange(stack.last().1 as int, toks2.len() as int)) is Some,
    ensures
        prender(toks2, stack.drop_last()) == Some(prender(toks.subrange(0, stack.last().1 as int), stack.drop_last())->Some_0
            + render(toks2.subrange(stack.last().1 as int, toks2.len() as int))->Some_0),
{
    let ti = stack.last().1 as int;
    let s2 = stack.drop_last();
    assert(stack[stack.len() - 1] == stack.last());
    let t1 = s2.last().1 as int;
    assert(s2[s2.len() - 1] == s2.last());
    assert(s2.last() == stack[stack.len() - 2]);
    assert(t1 < ti);
    let pre = toks.subrange(0, ti);
    let tail2 = toks2.subrange(ti, toks2.len() as int);
    assert(pre.subrange(0, t1) =~= toks.subrange(0, t1));
    assert(pre[t1] == toks[t1]);
    assert(pre.subrange(t1 + 1, pre.len() as int) =~= toks.subrange(t1 + 1, ti));
    assert(toks2.subrange(0, t1) =~= toks.subrange(0, t1));
    assert(toks2[t1] == toks[t1]);
    assert(toks2.subrange(t1 + 1, toks2.len() as int) =~= toks.subrange(t1 + 1, ti) + tail2);
    let a1 = prender(toks.subrange(0, t1), s2.drop_last())->Some_0;
    let m = render(toks.subrange(t1 + 1, ti))->Some_0;
    let gr = render(tail2)->Some_0;
    lemma_render_concat(toks.subrange(t1 + 1, ti), tail2);
    assert(a1 + token_head(toks[t1]) + (m + gr) =~= (a1 + token_head(toks[t1]) + m) + gr);
}

proof fn lemma_prender_close(toks: Seq<TokenView>, stack: Seq<(usize, usize, BracketStyle)>)
    requires
        stack_ok(toks, stack),
        stack.len() > 0,
        prender(toks, stack) is Some,
        toks.len() <= usize::MAX,
    ensures
        ({
            let ti = stack.last().1 as int;
            let toks2 = toks.update(ti, TokenView::Bracketed((toks.len() - ti - 1) as usize, toks[ti]->Bracketed_1));
            &&& prender(toks2, stack.drop_last())
                == Some(prender(toks, stack)->Some_0 + seq![stack.last().2.close_byte()])
            &&& stack_ok(toks2, stack.drop_last())
        }),
{
    let ti = stack.last().1 as int;
    let style = stack.last().2;
    assert(stack[stack.len() - 1] == stack.last());
    let c = (toks.len() - ti - 1) as usize;
    let g = TokenView::Bracketed(c, toks[ti]->Bracketed_1);
    let toks2 = toks.update(ti, g);
    let s2 = stack.drop_last();
    let inner = toks.subrange(ti + 1, toks.len() as int);
    let a = prender(toks.subrange(0, ti), s2)->Some_0;
    let r = render(inner)->Some_0;
    assert(token_head(g) == token_head(toks[ti]));
    assert(token_tail(g) == seq![style.close_byte()]);
    assert(toks2.subrange(ti, toks2.len() as int) =~= seq![g] + inner);
    lemma_render_group(g, inner);
    let gr = token_head(g) + r + token_tail(g);
    assert(toks2.subrange(0, ti) =~= toks.subrange(0, ti));
    assert forall|x: int| 0 <= x < s2.len() implies (#[trigger] s2[x]).1 < toks2.len()
        && group_style(toks2[s2[x].1 as int]) == Some(s2[x].2) by {
        assert(s2[x] == stack[x]);
        assert(stack[x].1 < stack[stack.len() - 1].1);
    }
    if s2.len() == 0 {
        assert(toks2 =~= toks2.subrange(0, ti) + toks2.subrange(ti, toks2.len() as int));
        lemma_render_concat(toks.subrange(0, ti), seq![g] + inner);
    } else {
        lemma_prender_close_deep(toks, toks2, stack, g);
    }
    assert(a + gr =~= a + token_head(toks[ti]) + r + seq![style.close_byte()]);
}

/// What the tokenizer keeps true: the tokens so far with the pending raw text, followed by
/// the rest of the source unescaped, give the whole source unescaped, and the open groups
/// are consistent with the tokens.
pub open spec fn algo_inv(src: Seq<u8>, st: AlgoScan) -> bool {
    &&& 0 <= st.raw_start <= st.index <= src.len() <= usize::MAX
    &&& st.tokens.len() <= st.raw_start
    &&& stack_ok(st.tokens, st.stack)
    &&& prender(st.tokens, st.stack) is Some
    &&& prender(st.tokens, st.stack)->Some_0 + src.subrange(st.raw_start, st.index)
            + unescape_from(src, st.index) == unescape(src)
}

proof fn lemma_finish_inv(src: Seq<u8>, st: AlgoScan, ns: int)
    requires
        algo_inv(src, st),
    ensures
        ({
            let f = algo_finish(src, st, ns);
            &&& f.index == st.index
            &&& f.stack == st.stack
            &&& f.raw_start == ns
            &&& stack_ok(f.tokens, f.stack)
            &&& prender(f.tokens, f.stack) == Some(prender(st.tokens, st.stack)->Some_0
                    + src.subrange(st.raw_start, st.index))
            &&& f.tokens.len() <= st.tokens.len() + 1
            &&& (st.raw_start == st.index ==> f.tokens == st.tokens)
        }),
{
    let p = prender(st.tokens, st.stack)->Some_0;
    if st.raw_start != st.index {
        lemma_prender_push(st.tokens, st.stack, TokenView::Raw(src.subrange(st.raw_start, st.index)));
    } else {
        assert(src.subrange(st.raw_start, st.index) =~= Seq::<u8>::empty());
        assert(p + Seq::<u8>::empty() =~= p);
    }
}

proof fn lemma_step_push(src: Seq<u8>, st: AlgoScan, count: int, t: TokenView)
    requires
        algo_inv(src, st),
        0 <= st.index,
        st.index + count <= src.len(),
        1 <= count,
        group_count(t) is None,
        unescape_from(src, st.index) == token_head(t) + unescape_from(src, st.index + count),
    ensures
        algo_inv(src, algo_push(src, st, count, t)),
{
    let i = st.index;
    lemma_finish_inv(src, st, i + count);
    let f = algo_finish(src, st, i + count);
    lemma_prender_push(f.tokens, f.stack, t);
    let p = prender(st.tokens, st.stack)->Some_0;
    let pend = src.subrange(st.raw_start, i);
    assert(src.subrange(i + count, i + count) =~= Seq::<u8>::empty());
    assert(p + pend + token_head(t) + Seq::<u8>::empty() + unescape_from(src, i + count)
        =~= p + pend + unescape_from(src, i));
}

proof fn lemma_step_begin(src: Seq<u8>, st: AlgoScan, style: BracketStyle)
    requires
        algo_inv(src, st),
        0 <= st.index < src.len(),
        src[st.index] == style.open_byte(),
    ensures
        algo_inv(src, algo_begin(src, st, style)),
{
    let i = st.index;
    lemma_finish_inv(src, st, i + 1);
    let f = algo_finish(src, st, i + 1);
    let p = prender(st.tokens, st.stack)->Some_0;
    let pend = src.subrange(st.raw_start, i);
    let pf = prender(f.tokens, f.stack)->Some_0;
    assert(src.subrange(i + 1, i + 1) =~= Seq::<u8>::empty());
    lemma_prender_open(f.tokens, f.stack, TokenView::Bracketed(usize::MAX, style), i as usize);
    assert(pf + seq![style.open_byte()] + Seq::<u8>::empty() + unescape_from(src, i + 1) =~= pf + unescape_from(src, i));
    assert(pf + Seq::<u8>::empty() + unescape_from(src, i) =~= p + pend + unescape_from(src, i));
}

proof fn lemma_step_end(src: Seq<u8>, st: AlgoScan, style: BracketStyle)
    requires
        algo_inv(src, st),
        0 <= st.index < src.len(),
        src[st.index] == style.close_byte(),
        algo_end(src, st, style) is Next,
    ensures
        algo_inv(src, algo_end(src, st, style)->Next_0),
{
    let i = st.index;
    let st1 = AlgoScan { stack: st.stack.drop_last(), ..st };
    lemma_finish_inv(src, st, i + 1);
    let f = algo_finish(src, st, i + 1);
    let f1 = algo_finish(src, st1, i + 1);
    assert(f1.tokens == f.tokens);
    let p = prender(st.tokens, st.stack)->Some_0;
    let pend = src.subrange(st.raw_start, i);
    let pf = prender(f.tokens, f.stack)->Some_0;
    lemma_prender_close(f.tokens, f.stack);
    assert(st.stack[st.stack.len() - 1] == st.stack.last());
    assert(src.subrange(i + 1, i + 1) =~= Seq::<u8>::empty());
    assert(pf + seq![style.close_byte()] + Seq::<u8>::empty() + unescape_from(src, i + 1) =~= pf + unescape_from(src, i));
    assert(pf + Seq::<u8>::empty() + unescape_from(src, i) =~= p + pend + unescape_from(src, i));
}

proof fn lemma_algo_run_roundtrip(src: Seq<u8>, st: AlgoScan)
    requires
        algo_inv(src, st),
    ensures
        algo_run(src, st) matches AlgoOutcome::Done(toks) ==> render(toks) == Some(unescape(src)),
    decreases src.len() - st.index,
{
    let i = st.index;
    if 0 <= i < src.len() {
        match algo_step(src, st) {
            AlgoStep::Next(n) => {
                if !on_boundary(src, i) {
                } else if src[i] == 92 && src.len() - i >= 2 {
                    let c = escaped_char(src[i + 1])->Some_0;
                    lemma_step_push(src, st, 2, TokenView::Esc(c));
                } else if opening_style(src[i]) is Some {
                    lemma_step_begin(src, st, opening_style(src[i])->Some_0);
                } else if closing_style(src[i]) is Some {
                    lemma_step_end(src, st, closing_style(src[i])->Some_0);
                } else if symbol_token(src[i]) is Some {
                    assert(token_head(symbol_token(src[i])->Some_0) == seq![src[i]]);
                    lemma_step_push(src, st, 1, symbol_token(src[i])->Some_0);
                } else {
                    let p = prender(st.tokens, st.stack)->Some_0;
                    assert(src.subrange(st.raw_start, i + 1) =~= src.subrange(st.raw_start, i).push(src[i]));
                    assert(p + src.subrange(st.raw_start, i + 1) + unescape_from(src, i + 1)
                        =~= p + src.subrange(st.raw_start, i) + unescape_from(src, i));
                }
                if n.index > i {
                    lemma_algo_run_roundtrip(src, n);
                }
            },
            AlgoStep::Stop(_) => {},
        }
    } else if st.stack.len() == 0 {
        lemma_finish_inv(src, st, src.len() as int);
        let p = prender(st.tokens, st.stack)->Some_0;
        assert(unescape_from(src, i) =~= Seq::<u8>::empty());
        assert(p + src.subrange(st.raw_start, i) + Seq::<u8>::empty() =~= p + src.subrange(st.raw_start, i));
    }
}

/// A source that tokenizes without error is given back by a `String` performer, with each
/// escape replaced by its character; in particular every group of the tokens fits.
pub proof fn lemma_fancy_parse_roundtrip(src: Seq<u8>)
    requires
        src.len() <= usize::MAX,
    ensures
        spec_algo_parse(src) matches AlgoOutcome::Done(toks) ==> render(toks) == Some(unescape(src)),
{
    lemma_render_empty();
    assert(src.subrange(0, 0) =~= Seq::<u8>::empty());
    assert(Seq::<u8>::empty() + Seq::<u8>::empty() + unescape_from(src, 0) =~= unescape(src));
    lemma_algo_run_roundtrip(src, algo_start());
}


proof fn lemma_algo_run_ascii(src: Seq<u8>, st: AlgoScan)
    requires
        all_ascii(src),
        algo_inv(src, st),
    ensures
        !(algo_run(src, st) is Panics),
    decreases src.len() - st.index,
{
    let i = st.index;
    if 0 <= i < src.len() {
        assert(src[i] < 128);
        if src[i] == 92 && src.len() - i >= 2 {
            if escaped_char(src[i + 1]) is Some {
                lemma_step_push(src, st, 2, TokenView::Esc(escaped_char(src[i + 1])->Some_0));
            }
        } else if opening_style(src[i]) is Some {
            lemma_step_begin(src, st, opening_style(src[i])->Some_0);
        } else if closing_style(src[i]) is Some {
            let style = closing_style(src[i])->Some_0;
            if st.stack.len() > 0 && st.stack.last().2 == style {
                lemma_finish_inv(src, st, i + 1);
                let f = algo_finish(src, st, i + 1);
                let st1 = AlgoScan { stack: st.stack.drop_last(), ..st };
                assert(algo_finish(src, st1, i + 1).tokens == f.tokens);
                assert(st.stack[st.stack.len() - 1] == st.stack.last());
                lemma_step_end(src, st, style);
            }
        } else if symbol_token(src[i]) is Some {
            assert(token_head(symbol_token(src[i])->Some_0) == seq![src[i]]);
            lemma_step_push(src, st, 1, symbol_token(src[i])->Some_0);
        } else {
            let p = prender(st.tokens, st.stack)->Some_0;
            assert(src.subrange(st.raw_start, i + 1) =~= src.subrange(st.raw_start, i).push(src[i]));
            assert(p + src.subrange(st.raw_start, i + 1) + unescape_from(src, i + 1)
                =~= p + src.subrange(st.raw_start, i) + unescape_from(src, i));
        }
        if let AlgoStep::Next(n) = algo_step(src, st) {
            if st.index < n.index {
                lemma_algo_run_ascii(src, n);
            }
        }
    }
}

/// The tokenizer only panics on text that is not ASCII.
pub proof fn lemma_fancy_parse_ascii(src: Seq<u8>)
    requires
        all_ascii(src),
        src.len() <= usize::MAX,
    ensures
        !(spec_algo_parse(src) is Panics),
{
    lemma_render_empty();
    assert(src.subrange(0, 0) =~= Seq::<u8>::empty());
    assert(Seq::<u8>::empty() + Seq::<u8>::empty() + unescape_from(src, 0) =~= unescape(src));
    lemma_algo_run_ascii(src, algo_start());
}

} // verus!

verus! {

/// Every group token's end, counted from its position, fits in a `usize`: on these tokens
/// the visits compute where each group ends without overflow.
pub open spec fn group_ends_fit(toks: Seq<TokenView>) -> bool {
    forall|i: int| 0 <= i < toks.len() ==> ((#[trigger] group_count(toks[i])) matches Some(c)
        ==> i + 1 + c <= usize::MAX)
}

/// Where what the token at `i` takes with it ends: its group, the token or group after a
/// symbol, or the end of the tokens after a trailing symbol.
pub open spec fn unit_stop(tv: Seq<TokenView>, i: int) -> int {
    if symbol_char(tv[i]) is Some {
        if i + 1 >= tv.len() {
            tv.len() as int
        } else {
            unit_end(tv, i + 1)
        }
    } else {
        unit_end(tv, i)
    }
}

/// What a `String` performer has written of the tokens when it stops at a group that
/// claims more tokens than there are: everything before that group, with the groups that
/// hold it opened.
pub open spec fn render_prefix(toks: Seq<TokenView>) -> Seq<u8>
    decreases toks.len(),
{
    if toks.len() == 0 {
        Seq::empty()
    } else if symbol_char(toks[0]) is Some && toks.len() == 1 {
        token_head(toks[0])
    } else {
        let e = render_end(toks);
        if e > toks.len() || e < 1 {
            Seq::empty()
        } else {
            match render(toks.subrange(1, e)) {
                Some(a) => token_head(toks[0]) + a + token_tail(toks[0])
                    + render_prefix(toks.subrange(e, toks.len() as int)),
                None => token_head(toks[0]) + render_prefix(toks.subrange(1, e)),
            }
        }
    }
}

/// The text of the tokens from `i` on, taken apart at the first token and what it takes.
proof fn lemma_render_suffix(tv: Seq<TokenView>, i: int)
    requires
        0 <= i < tv.len(),
    ensures
        unit_stop(tv, i) > tv.len() ==> render_prefix(tv.subrange(i, tv.len() as int)) == Seq::<u8>::empty(),
        unit_stop(tv, i) <= tv.len() ==> render_prefix(tv.subrange(i, tv.len() as int)) == match
            render(tv.subrange(i + 1, unit_stop(tv, i))) {
            Some(a) => token_head(tv[i]) + a + token_tail(tv[i])
                + render_prefix(tv.subrange(unit_stop(tv, i), tv.len() as int)),
            None => token_head(tv[i]) + render_prefix(tv.subrange(i + 1, unit_stop(tv, i))),
        },
        unit_stop(tv, i) > i,
        unit_stop(tv, i) > tv.len() ==> render(tv.subrange(i, tv.len() as int)) is None,
        unit_stop(tv, i) <= tv.len() ==> render(tv.subrange(i, tv.len() as int)) == match (
            render(tv.subrange(i + 1, unit_stop(tv, i))),
            render(tv.subrange(unit_stop(tv, i), tv.len() as int)),
        ) {
            (Some(a), Some(b)) => Some(token_head(tv[i]) + a + token_tail(tv[i]) + b),
            _ => None,
        },
{
    let s = tv.subrange(i, tv.len() as int);
    let e = unit_stop(tv, i);
    assert(s[0] == tv[i]);
    if symbol_char(tv[i]) is Some && i + 1 < tv.len() {
        assert(s[1] == tv[i + 1]);
    }
    if symbol_char(tv[i]) is Some && i + 1 >= tv.len() {
        assert(tv.subrange(i + 1, e) =~= Seq::<TokenView>::empty());
        assert(tv.subrange(e, tv.len() as int) =~= Seq::<TokenView>::empty());
        assert(render(Seq::<TokenView>::empty()) == Some(Seq::<u8>::empty()));
        assert(token_head(tv[i]) + Seq::<u8>::empty() + token_tail(tv[i]) + Seq::<u8>::empty()
            =~= token_head(tv[i]));
    } else if e <= tv.len() {
        assert(render_end(s) == e - i);
        assert(s.subrange(1, e - i) =~= tv.subrange(i + 1, e));
        assert(s.subrange(e - i, s.len() as int) =~= tv.subrange(e, tv.len() as int));
    }
}

/// Tokens that render end every group inside them.
proof fn lemma_render_groups_inside(toks: Seq<TokenView>)
    requires
        render(toks) is Some,
    ensures
        forall|i: int| 0 <= i < toks.len() ==> ((#[trigger] group_count(toks[i])) matches Some(c)
            ==> i + 1 + c <= toks.len()),
    decreases toks.len(),
{
    if toks.len() > 1 || (toks.len() == 1 && symbol_char(toks[0]) is None) {
        let e = render_end(toks);
        let inner = toks.subrange(1, e);
        let rest = toks.subrange(e, toks.len() as int);
        lemma_render_groups_inside(inner);
        lemma_render_groups_inside(rest);
        assert forall|i: int| 0 <= i < toks.len() implies ((#[trigger] group_count(toks[i])) matches Some(c)
            ==> i + 1 + c <= toks.len()) by {
            if 0 < i < e {
                assert(toks[i] == inner[i - 1]);
            } else if i >= e {
                assert(toks[i] == rest[i - e]);
            }
        }
    }
}

/// Tokens that render, no more of them than a `usize` counts, meet `group_ends_fit`.
pub proof fn lemma_render_group_ends_fit(toks: Seq<TokenView>)
    requires
        render(toks) is Some,
        toks.len() <= usize::MAX,
    ensures
        group_ends_fit(toks),
{
    lemma_render_groups_inside(toks);
}

/// A part of tokens that fit fits.
proof fn lemma_group_ends_fit_sub(tv: Seq<TokenView>, a: int, b: int)
    requires
        group_ends_fit(tv),
        0 <= a <= b <= tv.len(),
    ensures
        group_ends_fit(tv.subrange(a, b)),
{
    let s = tv.subrange(a, b);
    assert forall|j: int| 0 <= j < s.len() implies ((#[trigger] group_count(s[j])) matches Some(c)
        ==> j + 1 + c <= usize::MAX) by {
        assert(s[j] == tv[a + j]);
    }
}

/// The bytes of a symbol's character are the symbol's text.
proof fn lemma_symbol_bytes(t: TokenView)
    requires
        symbol_char(t) is Some,
    ensures
        encode_utf8(seq![symbol_char(t)->Some_0]) == token_head(t),
{
    match t {
        TokenView::At => crate::bracket::lemma_char_bytes_ascii(64),
        TokenView::Octo => crate::bracket::lemma_char_bytes_ascii(35),
        TokenView::Dollar => crate::bracket::lemma_char_bytes_ascii(36),
        TokenView::Percent => crate::bracket::lemma_char_bytes_ascii(37),
        _ => {},
    }
}

/// Writes the token at `index` and what it takes with it into `out`; gives the position
/// after them.
#[verifier::spinoff_prover]
#[verifier::rlimit(60)]
fn render_unit(out: &mut String, tokens: &[Token<'_>], index: usize) -> (r: Result<usize, ()>)
    requires
        group_ends_fit(tokens_view(tokens@)),
        index < tokens@.len(),
    ensures
        ({
            let tv = tokens_view(tokens@);
            let t = tv[index as int];
            let e = unit_stop(tv, index as int);
            &&& (r is Ok <==> (e <= tv.len() && render(tv.subrange(index + 1, e)) is Some))
            &&& (r matches Ok(n) ==> n == e && encode_utf8(final(out)@) == encode_utf8(old(out)@)
                    + (token_head(t) + render(tv.subrange(index + 1, e))->Some_0 + token_tail(t)))
            &&& (r is Err ==> encode_utf8(final(out)@) == encode_utf8(old(out)@) + (if e <= tv.len() {
                    token_head(t) + render_prefix(tv.subrange(index + 1, e))
                } else {
                    Seq::<u8>::empty()
                }))
        }),
        old(out)@.is_prefix_of(final(out)@),
    decreases tokens@.len(), 2int,
{
    let ghost tv = tokens_view(tokens@);
    let ghost t = tv[index as int];
    let ghost e = unit_stop(tv, index as int);
    let ghost before = out@;
    let len = tokens.len();
    proof {
        assert(t == tokens@[index as int]@);
        assert(render(Seq::<TokenView>::empty()) == Some(Seq::<u8>::empty()));
        assert(before.subrange(0, before.len() as int) =~= before);
        if index + 1 < len {
            assert(tv[index + 1] == tokens@[index + 1]@);
        }
    }
    let (visit, next) = visit_step(tokens, index);
    match visit {
        Visit::Raw(raw) => {
            out.append(raw);
            proof {
                crate::text::lemma_encode_concat(before, raw@);
                lemma_prefix_append(before, before, raw@);
                assert(tv.subrange(index + 1, e) =~= Seq::<TokenView>::empty());
                assert(token_head(t) + Seq::<u8>::empty() + token_tail(t) =~= token_head(t));
            }
            Ok(next)
        },
        Visit::Esc(chr) => {
            push_char(out, chr);
            proof {
                lemma_encode_push(before, chr);
                lemma_prefix_append(before, before, seq![chr]);
                assert(before + seq![chr] =~= before.push(chr));
                assert(tv.subrange(index + 1, e) =~= Seq::<TokenView>::empty());
                assert(token_head(t) + Seq::<u8>::empty() + token_tail(t) =~= token_head(t));
            }
            Ok(next)
        },
        Visit::Bracketed(bracketed, first, end) => {
            let inner = render_bracketed(out, tokens, first, end, bracketed.style());
            proof {
                assert(tv.subrange(first as int, end as int) == tv.subrange(index + 1, e));
            }
            if inner.is_err() {
                return Err(());
            }
            Ok(next)
        },
        Visit::Symbol(chr, first, end) => {
            push_char(out, chr);
            let ghost mid = out@;
            proof {
                lemma_encode_push(before, chr);
                lemma_symbol_bytes(t);
                lemma_prefix_append(before, before, seq![chr]);
                assert(before + seq![chr] =~= before.push(chr));
            }
            let inner = render_group(out, tokens, first, end);
            proof {
                lemma_prefix_trans(before, mid, out@);
            }
            if inner.is_err() {
                proof {
                    assert(encode_utf8(before) + encode_utf8(seq![chr]) + render_prefix(tv.subrange(first as int, end as int))
                        =~= encode_utf8(before) + (token_head(t) + render_prefix(tv.subrange(index + 1, e))));
                }
                return Err(());
            }
            proof {
                assert(encode_utf8(before) + encode_utf8(seq![chr]) + render(tv.subrange(first as int, end as int))->Some_0
                    =~= encode_utf8(before) + (token_head(t) + render(tv.subrange(index + 1, e))->Some_0 + token_tail(t)));
            }
            Ok(next)
        },
        Visit::TrailingSymbol(chr) => {
            push_char(out, chr);
            proof {
                lemma_encode_push(before, chr);
                lemma_symbol_bytes(t);
                lemma_prefix_append(before, before, seq![chr]);
                assert(before + seq![chr] =~= before.push(chr));
                assert(tv.subrange(index + 1, e) =~= Seq::<TokenView>::empty());
                assert(token_head(t) + Seq::<u8>::empty() + token_tail(t) =~= token_head(t));
            }
            Ok(next)
        },
        Visit::InvalidBracketed => {
            proof {
                assert(encode_utf8(before) + Seq::<u8>::empty() =~= encode_utf8(before));
            }
            Err(())
        },
    }
}

/// Writes a group's tokens `first..end` into `out` between brackets of `style`.
fn render_bracketed(out: &mut String, tokens: &[Token<'_>], first: usize, end: usize, style: BracketStyle)
    -> (r: Result<(), ()>)
    requires
        group_ends_fit(tokens_view(tokens@)),
        1 <= first <= end <= tokens@.len(),
    ensures
        ({
            let sub = tokens_view(tokens@).subrange(first as int, end as int);
            &&& (r is Ok <==> render(sub) is Some)
            &&& (r is Ok ==> encode_utf8(final(out)@) == encode_utf8(old(out)@)
                    + (seq![style.open_byte()] + render(sub)->Some_0 + seq![style.close_byte()]))
            &&& (r is Err ==> encode_utf8(final(out)@) == encode_utf8(old(out)@)
                    + (seq![style.open_byte()] + render_prefix(sub)))
        }),
        old(out)@.is_prefix_of(final(out)@),
    decreases tokens@.len(), 1int,
{
    let ghost before = out@;
    let ghost sub = tokens_view(tokens@).subrange(first as int, end as int);
    proof {
        assert(before.subrange(0, before.len() as int) =~= before);
    }
    let open = style.open_str();
    out.append(open);
    let ghost mid = out@;
    proof {
        crate::text::lemma_encode_concat(before, open@);
        lemma_prefix_append(before, before, open@);
    }
    let inner = render_group(out, tokens, first, end);
    proof {
        lemma_prefix_trans(before, mid, out@);
    }
    if inner.is_err() {
        proof {
            assert(encode_utf8(before) + encode_utf8(open@) + render_prefix(sub)
                =~= encode_utf8(before) + (seq![style.open_byte()] + render_prefix(sub)));
        }
        return Err(());
    }
    let ghost mid2 = out@;
    let close = style.close_str();
    out.append(close);
    proof {
        crate::text::lemma_encode_concat(mid2, close@);
        lemma_prefix_append(before, mid2, close@);
        assert(encode_utf8(before) + encode_utf8(open@) + render(sub)->Some_0 + encode_utf8(close@)
            =~= encode_utf8(before) + (seq![style.open_byte()] + render(sub)->Some_0 + seq![style.close_byte()]));
    }
    Ok(())
}

/// Writes the tokens `first..end` into `out`.
fn render_group(out: &mut String, tokens: &[Token<'_>], first: usize, end: usize) -> (r: Result<(), ()>)
    requires
        group_ends_fit(tokens_view(tokens@)),
        1 <= first <= end <= tokens@.len(),
    ensures
        r is Ok <==> render(tokens_view(tokens@).subrange(first as int, end as int)) is Some,
        r is Ok ==> encode_utf8(final(out)@) == encode_utf8(old(out)@)
            + render(tokens_view(tokens@).subrange(first as int, end as int))->Some_0,
        r is Err ==> encode_utf8(final(out)@) == encode_utf8(old(out)@)
            + render_prefix(tokens_view(tokens@).subrange(first as int, end as int)),
        old(out)@.is_prefix_of(final(out)@),
    decreases tokens@.len(), 0int,
{
    let group = vstd::slice::slice_subrange(tokens, first, end);
    proof {
        assert(tokens_view(group@) =~= tokens_view(tokens@).subrange(first as int, end as int));
        lemma_group_ends_fit_sub(tokens_view(tokens@), first as int, end as int);
    }
    render_tokens(out, group)
}

/// Whether the tokens meet `group_ends_fit`, the condition of `render_tokens`.
pub fn groups_fit(tokens: &[Token<'_>]) -> (r: bool)
    ensures
        r == group_ends_fit(tokens_view(tokens@)),
{
    let len = tokens.len();
    let mut i: usize = 0;
    while i < len
        invariant
            len == tokens@.len(),
            i <= len,
            forall|j: int| 0 <= j < i ==> ((#[trigger] group_count(tokens_view(tokens@)[j])) matches Some(c)
                ==> j + 1 + c <= usize::MAX),
        decreases len - i,
    {
        proof {
            assert(tokens_view(tokens@)[i as int] == tokens@[i as int]@);
        }
        let count = match tokens[i] {
            Token::Bracketed(b) => Some(b.count()),
            _ => None,
        };
        if let Some(c) = count {
            if c > usize::MAX - 1 - i {
                proof {
                    assert(group_count(tokens_view(tokens@)[i as int]) == Some(c as int));
                }
                return false;
            }
        }
        i = i + 1;
    }
    true
}

/// Writes the tokens into `out` as text, as the default visits of a `String` performer
/// do: each token's text, a group's tokens between its brackets, and a symbol's character
/// followed by the token or group after it.  Fails where a group claims more tokens than
/// there are, having written what comes before that group.
pub fn render_tokens(out: &mut String, tokens: &[Token<'_>]) -> (r: Result<(), ()>)
    requires
        group_ends_fit(tokens_view(tokens@)),
    ensures
        r is Ok <==> render(tokens_view(tokens@)) is Some,
        r is Ok ==> encode_utf8(final(out)@) == encode_utf8(old(out)@) + render(tokens_view(tokens@))->Some_0,
        r is Err ==> encode_utf8(final(out)@) == encode_utf8(old(out)@) + render_prefix(tokens_view(tokens@)),
        old(out)@.is_prefix_of(final(out)@),
    decreases tokens@.len(), 3int,
{
    let ghost tv = tokens_view(tokens@);
    let ghost start = out@;
    let ghost total = render(tv);
    let len = tokens.len();
    let mut index: usize = 0;
    proof {
        assert(tv.subrange(0, tv.len() as int) =~= tv);
        assert(out@.subrange(0, start.len() as int) =~= start);
    }
    while index < len
        invariant
            len == tokens@.len(),
            tv == tokens_view(tokens@),
            group_ends_fit(tv),
            index <= len,
            total == render(tv),
            start == old(out)@,
            start.is_prefix_of(out@),
            (render(tv.subrange(index as int, len as int)) is Some) == (total is Some),
            render(tv.subrange(index as int, len as int)) matches Some(rest)
                ==> encode_utf8(out@) + rest == encode_utf8(start) + total->Some_0,
            encode_utf8(out@) + render_prefix(tv.subrange(index as int, len as int))
                == encode_utf8(start) + render_prefix(tv),
        decreases len - index,
    {
        let ghost before = out@;
        let ghost t = tv[index as int];
        let ghost e = unit_stop(tv, index as int);
        proof {
            lemma_render_suffix(tv, index as int);
        }
        let res = render_unit(out, tokens, index);
        proof {
            lemma_prefix_trans(start, before, out@);
        }
        let next = match res {
            Ok(n) => n,
            Err(_) => return Err(()),
        };
        proof {
            let w = token_head(t) + render(tv.subrange(index + 1, e))->Some_0 + token_tail(t);
            assert(encode_utf8(out@) + render_prefix(tv.subrange(e, len as int))
                =~= encode_utf8(before) + (w + render_prefix(tv.subrange(e, len as int))));
            if render(tv.subrange(e, len as int)) is Some {
                let rest = render(tv.subrange(e, len as int))->Some_0;
                assert(encode_utf8(out@) + rest =~= encode_utf8(before) + (w + rest));
            }
        }
        index = next;
    }
    proof {
        assert(tv.subrange(len as int, len as int) =~= Seq::<TokenView>::empty());
        assert(encode_utf8(out@) + Seq::<u8>::empty() =~= encode_utf8(out@));
    }
    Ok(())
}

} // verus!

verus! {

/// The bytes that never stand in raw text: the symbols `@ # $ %` and the brackets
/// `( ) { } [ ] < >`.
pub open spec fn is_special_byte(b: u8) -> bool {
    b == 64 || b == 35 || b == 36 || b == 37 || b == 40 || b == 41 || b == 123 || b == 125
        || b == 91 || b == 93 || b == 60 || b == 62
}

/// `b` holds no special byte.
pub open spec fn bytes_plain(b: Seq<u8>) -> bool {
    forall|j: int| 0 <= j < b.len() ==> !is_special_byte(#[trigger] b[j])
}

/// No raw token holds a special byte.
pub open spec fn raws_plain(toks: Seq<TokenView>) -> bool {
    forall|k: int| 0 <= k < toks.len() && (#[trigger] toks[k]) is Raw ==> bytes_plain(toks[k]->Raw_0)
}

/// The pending raw text holds no special byte.
pub open spec fn pending_plain(src: Seq<u8>, st: AlgoScan) -> bool {
    forall|j: int| st.raw_start <= j < st.index ==> !is_special_byte(#[trigger] src[j])
}

proof fn lemma_finish_plain(src: Seq<u8>, st: AlgoScan, ns: int)
    requires
        raws_plain(st.tokens),
        pending_plain(src, st),
        0 <= st.raw_start <= st.index <= src.len(),
    ensures
        raws_plain(algo_finish(src, st, ns).tokens),
        algo_finish(src, st, ns).tokens.len() >= st.tokens.len(),
        forall|k: int| 0 <= k < st.tokens.len() ==> algo_finish(src, st, ns).tokens[k] == st.tokens[k],
{
    let f = algo_finish(src, st, ns);
    if st.raw_start != st.index {
        let b = src.subrange(st.raw_start, st.index);
        assert forall|j: int| 0 <= j < b.len() implies !is_special_byte(#[trigger] b[j]) by {
            assert(b[j] == src[st.raw_start + j]);
        }
        assert forall|k: int| 0 <= k < f.tokens.len() && (#[trigger] f.tokens[k]) is Raw
            implies bytes_plain(f.tokens[k]->Raw_0) by {
            if k < st.tokens.len() {
                assert(f.tokens[k] == st.tokens[k]);
            }
        }
    }
}

#[verifier::spinoff_prover]
proof fn lemma_step_plain(src: Seq<u8>, st: AlgoScan)
    requires
        raws_plain(st.tokens),
        pending_plain(src, st),
        0 <= st.raw_start <= st.index < src.len(),
    ensures
        algo_step(src, st) matches AlgoStep::Next(n) ==> {
            &&& raws_plain(n.tokens)
            &&& pending_plain(src, n)
            &&& 0 <= n.raw_start <= n.index <= src.len()
        },
{
    let i = st.index;
    lemma_finish_plain(src, st, i + 1);
    lemma_finish_plain(src, st, i + 2);
    let st1 = AlgoScan { stack: st.stack.drop_last(), ..st };
    lemma_finish_plain(src, st1, i + 1);
    if let AlgoStep::Next(n) = algo_step(src, st) {
        if on_boundary(src, i) && !(src[i] == 92 && src.len() - i >= 2) && opening_style(src[i]) is None
            && closing_style(src[i]) is None && symbol_token(src[i]) is None {
            assert(!is_special_byte(src[i]));
            assert(n.tokens == st.tokens);
        } else {
            let f1 = algo_finish(src, st, i + 1);
            let f2 = algo_finish(src, st, i + 2);
            let f3 = algo_finish(src, st1, i + 1);
            assert forall|k: int| 0 <= k < n.tokens.len() && (#[trigger] n.tokens[k]) is Raw
                implies bytes_plain(n.tokens[k]->Raw_0) by {
                if k < f1.tokens.len() && n.tokens[k] == f1.tokens[k] {
                } else if k < f2.tokens.len() && n.tokens[k] == f2.tokens[k] {
                } else if k < f3.tokens.len() && n.tokens[k] == f3.tokens[k] {
                }
            }
        }
    }
}

proof fn lemma_run_plain(src: Seq<u8>, st: AlgoScan)
    requires
        raws_plain(st.tokens),
        pending_plain(src, st),
        0 <= st.raw_start <= st.index <= src.len(),
    ensures
        algo_run(src, st) matches AlgoOutcome::Done(toks) ==> raws_plain(toks),
    decreases src.len() - st.index,
{
    if st.index < src.len() {
        lemma_step_plain(src, st);
        if let AlgoStep::Next(n) = algo_step(src, st) {
            if st.index < n.index {
                lemma_run_plain(src, n);
            }
        }
    } else if st.stack.len() == 0 {
        lemma_finish_plain(src, st, src.len() as int);
    }
}

/// Raw text never holds a symbol or a bracket: each `@ # $ %` of the source that is not
/// escaped becomes a symbol token of its own, and each bracket a group, so no raw token of
/// a successful tokenization holds one of `@ # $ % ( ) { } [ ] < >`.
pub proof fn lemma_fancy_parse_raw_plain(src: Seq<u8>)
    ensures
        spec_algo_parse(src) matches AlgoOutcome::Done(toks) ==> raws_plain(toks),
{
    lemma_run_plain(src, algo_start());
}

} // verus!
