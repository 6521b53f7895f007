//! Bracket styles, bracketed token groups and the tokenizers' errors.
use vstd::prelude::*;
use crate::text::{bytes_of, lemma_encode_ascii};
use vstd::utf8::encode_utf8;

verus! {

/// The four kinds of brackets: `()`, `{}`, `[]` and `<>`.
#[derive(Debug, Clone, Copy, PartialEq, Eq, Hash, Structural)]
pub enum BracketStyle {
    Parens,
    Brace,
    Square,
    Angle,
}

impl BracketStyle {
    /// The byte that opens a group of this style.
    pub open spec fn open_byte(self) -> u8 {
        match self {
            BracketStyle::Parens => 40,
            BracketStyle::Brace => 123,
            BracketStyle::Square => 91,
            BracketStyle::Angle => 60,
        }
    }

    /// The byte that closes a group of this style.
    pub open spec fn close_byte(self) -> u8 {
        match self {
            BracketStyle::Parens => 41,
            BracketStyle::Brace => 125,
            BracketStyle::Square => 93,
            BracketStyle::Angle => 62,
        }
    }

    /// The opening bracket as text.
    pub fn open_str(self) -> (r: &'static str)
        ensures
            bytes_of(r) == seq![self.open_byte()],
    {
        let r = match self {
            BracketStyle::Parens => "(",
            BracketStyle::Brace => "{",
            BracketStyle::Square => "[",
            BracketStyle::Angle => "<",
        };
        proof {
            reveal_strlit("(");
            reveal_strlit("{");
            reveal_strlit("[");
            reveal_strlit("<");
            lemma_encode_ascii(r@);
            assert(encode_utf8(r@) =~= seq![self.open_byte()]);
        }
        r
    }

    /// The closing bracket as text.
    pub fn close_str(self) -> (r: &'static str)
        ensures
            bytes_of(r) == seq![self.close_byte()],
    {
        let r = match self {
            BracketStyle::Parens => ")",
            BracketStyle::Brace => "}",
            BracketStyle::Square => "]",
            BracketStyle::Angle => ">",
        };
        proof {
            reveal_strlit(")");
            reveal_strlit("}");
            reveal_strlit("]");
            reveal_strlit(">");
            lemma_encode_ascii(r@);
            assert(encode_utf8(r@) =~= seq![self.close_byte()]);
        }
        r
    }
}

impl BracketStyle {
    /// The name of the style, as error messages give it.
    pub fn display_name(self) -> (r: &'static str)
        ensures
            r@ == match self {
                BracketStyle::Parens => "parenthesis"@,
                BracketStyle::Brace => "brace"@,
                BracketStyle::Square => "square bracket"@,
                BracketStyle::Angle => "angle bracket"@,
            },
    {
        match self {
            BracketStyle::Parens => "parenthesis",
            BracketStyle::Brace => "brace",
            BracketStyle::Square => "square bracket",
            BracketStyle::Angle => "angle bracket",
        }
    }
}

/// The style of the group that `b` opens, if it opens one.
pub open spec fn opening_style(b: u8) -> Option<BracketStyle> {
    if b == 40 {
        Some(BracketStyle::Parens)
    } else if b == 123 {
        Some(BracketStyle::Brace)
    } else if b == 91 {
        Some(BracketStyle::Square)
    } else if b == 60 {
        Some(BracketStyle::Angle)
    } else {
        None
    }
}

/// The style of the group that `b` closes, if it closes one.
pub open spec fn closing_style(b: u8) -> Option<BracketStyle> {
    if b == 41 {
        Some(BracketStyle::Parens)
    } else if b == 125 {
        Some(BracketStyle::Brace)
    } else if b == 93 {
        Some(BracketStyle::Square)
    } else if b == 62 {
        Some(BracketStyle::Angle)
    } else {
        None
    }
}

/// The character that the escape `\b` stands for, if `b` names an escape.
pub open spec fn escaped_char(b: u8) -> Option<char> {
    if b == 110 {
        Some('\n')
    } else if b == 116 {
        Some('\t')
    } else if b == 114 {
        Some('\r')
    } else if b == 48 {
        Some('\0')
    } else if b == 123 || b == 125 || b == 91 || b == 93 || b == 40 || b == 41 || b == 60
        || b == 62 || b == 64 || b == 35 || b == 36 || b == 37 {
        Some(b as char)
    } else {
        None
    }
}

pub fn opening_style_of(b: u8) -> (r: Option<BracketStyle>)
    ensures
        r == opening_style(b),
{
    if b == 40 {
        Some(BracketStyle::Parens)
    } else if b == 123 {
        Some(BracketStyle::Brace)
    } else if b == 91 {
        Some(BracketStyle::Square)
    } else if b == 60 {
        Some(BracketStyle::Angle)
    } else {
        None
    }
}

pub fn closing_style_of(b: u8) -> (r: Option<BracketStyle>)
    ensures
        r == closing_style(b),
{
    if b == 41 {
        Some(BracketStyle::Parens)
    } else if b == 125 {
        Some(BracketStyle::Brace)
    } else if b == 93 {
        Some(BracketStyle::Square)
    } else if b == 62 {
        Some(BracketStyle::Angle)
    } else {
        None
    }
}

pub fn escaped_char_of(b: u8) -> (r: Option<char>)
    ensures
        r == escaped_char(b),
{
    match b {
        110 => Some('\n'),
        116 => Some('\t'),
        114 => Some('\r'),
        48 => Some('\0'),
        123 => Some('{'),
        125 => Some('}'),
        91 => Some('['),
        93 => Some(']'),
        40 => Some('('),
        41 => Some(')'),
        60 => Some('<'),
        62 => Some('>'),
        64 => Some('@'),
        35 => Some('#'),
        36 => Some('$'),
        37 => Some('%'),
        _ => None,
    }
}

/// A group of tokens in brackets: how many tokens follow it inside the group, and the
/// style of its brackets.
#[derive(Debug, Clone, Copy, PartialEq, Eq, Hash, Structural)]
pub struct Bracketed {
    count: usize,
    style: BracketStyle,
}

impl Bracketed {
    /// How many tokens the group holds.
    pub closed spec fn spec_count(self) -> usize {
        self.count
    }

    /// The style of the group's brackets.
    pub closed spec fn spec_style(self) -> BracketStyle {
        self.style
    }

    /// Two groups are equal exactly when their counts and styles are.
    pub proof fn lemma_eq(a: Self, b: Self)
        ensures
            (a == b) <==> (a.spec_count() == b.spec_count() && a.spec_style() == b.spec_style()),
    {
    }

    pub fn new(index: usize, style: BracketStyle) -> (r: Self)
        ensures
            r.spec_count() == index,
            r.spec_style() == style,
            forall|other: Self| (r == other) <==> (other.spec_count() == index && other.spec_style() == style),
    {
        Self { count: index, style }
    }

    /// The positions of the group's tokens when the first of them is at `start`.
    pub fn range(&self, start: usize) -> (r: core::ops::Range<usize>)
        requires
            start + self.spec_count() <= usize::MAX,
        ensures
            r.start == start,
            r.end == start + self.spec_count(),
    {
        start..start + self.count
    }

    pub fn new_parens(index: usize) -> (r: Self)
        ensures
            r.spec_count() == index,
            r.spec_style() == BracketStyle::Parens,
    {
        Self::new(index, BracketStyle::Parens)
    }

    pub fn new_square(index: usize) -> (r: Self)
        ensures
            r.spec_count() == index,
            r.spec_style() == BracketStyle::Square,
    {
        Self::new(index, BracketStyle::Square)
    }

    pub fn new_brace(index: usize) -> (r: Self)
        ensures
            r.spec_count() == index,
            r.spec_style() == BracketStyle::Brace,
    {
        Self::new(index, BracketStyle::Brace)
    }

    pub fn new_angle(index: usize) -> (r: Self)
        ensures
            r.spec_count() == index,
            r.spec_style() == BracketStyle::Angle,
    {
        Self::new(index, BracketStyle::Angle)
    }

    /// How many tokens the group holds.
    pub fn count(&self) -> (r: usize)
        ensures
            r == self.spec_count(),
    {
        self.count
    }

    /// The style of the group's brackets.
    pub fn style(&self) -> (r: BracketStyle)
        ensures
            r == self.spec_style(),
    {
        self.style
    }

    /// The same group holding `count` tokens.
    pub fn with_count(self, count: usize) -> (r: Self)
        ensures
            r.spec_count() == count,
            r.spec_style() == self.spec_style(),
    {
        Self { count, style: self.style }
    }
}

/// Why a tokenizer refused its source.
#[derive(Debug, PartialEq, Eq, Structural)]
pub enum FancyError {
    UnmatchedOpen(BracketStyle, usize),
    UnmatchedClose(BracketStyle, usize),
    MismatchedBracket {
        found: BracketStyle,
        found_index: usize,
        expected: BracketStyle,
        expected_index: usize,
    },
    UnrecognizedEscape(usize),
}

/// The UTF-8 bytes of a character.
pub open spec fn char_bytes(c: char) -> Seq<u8> {
    encode_utf8(seq![c])
}

/// The source with each escape replaced by the character it stands for, read from `k` on.
pub open spec fn unescape_from(src: Seq<u8>, k: int) -> Seq<u8>
    decreases src.len() - k,
{
    if 0 <= k < src.len() {
        if src[k] == 92 && src.len() - k >= 2 && escaped_char(src[k + 1]) is Some {
            char_bytes(escaped_char(src[k + 1])->Some_0) + unescape_from(src, k + 2)
        } else {
            seq![src[k]] + unescape_from(src, k + 1)
        }
    } else {
        Seq::empty()
    }
}

/// The source with each escape replaced by the character it stands for.
pub open spec fn unescape(src: Seq<u8>) -> Seq<u8> {
    unescape_from(src, 0)
}

/// The bytes of an ASCII character are its code.
pub proof fn lemma_char_bytes_ascii(b: u8)
    requires
        b < 128,
    ensures
        char_bytes(b as char) == seq![b],
{
    let cs = seq![b as char];
    assert(cs[0] == b as char);
    assert(vstd::utf8::is_ascii_chars(cs));
    lemma_encode_ascii(cs);
    assert(cs.map_values(|c: char| c as u8) =~= seq![b]);
}

} // verus!
