//! Hex digits, escape sequences and sub-slices.
use vstd::prelude::*;
use crate::text::bytes_of;
use crate::bracket::{escaped_char, escaped_char_of};
use byteset::ByteSet;

verus! {

/// `b` is one of `0-9`, `a-f` or `A-F`.
pub open spec fn is_hex_byte(b: u8) -> bool {
    (48 <= b <= 57) || (97 <= b <= 102) || (65 <= b <= 70)
}

/// The value of a hex digit.
pub open spec fn hex_value(b: u8) -> u8 {
    if 48 <= b <= 57 {
        (b - 48) as u8
    } else if 97 <= b <= 102 {
        (b - 87) as u8
    } else {
        (b - 55) as u8
    }
}

/// `ByteSet::HEX_DIGITS.has(b)`: the set holds `a-f`, `A-F` and `0-9`.
#[verifier::external_body]
fn hex_digits_has(b: u8) -> (r: bool)
    ensures
        r == is_hex_byte(b),
{
    ByteSet::HEX_DIGITS.has(b)
}

/// `ByteSet::HEX_DIGITS.has_char(c)`: a character below 256 whose byte is in the set.
#[verifier::external_body]
fn hex_digits_has_char(c: char) -> (r: bool)
    ensures
        r == ((c as u32) < 256 && is_hex_byte(c as u8)),
{
    ByteSet::HEX_DIGITS.has_char(c)
}

/// `ByteSet::HEX_DIGITS.has_all(bytes)`: every byte is in the set.
#[verifier::external_body]
fn hex_digits_has_all(bytes: &[u8]) -> (r: bool)
    ensures
        r == (forall|i: int| 0 <= i < bytes@.len() ==> #[trigger] is_hex_byte(bytes@[i])),
{
    ByteSet::HEX_DIGITS.has_all(bytes)
}

/// The number of ones in the binary representation of `x`.
pub open spec fn popcount(x: u64) -> nat
    decreases x,
{
    if x == 0 {
        0
    } else {
        (x % 2) as nat + popcount(x / 2)
    }
}

/// The number of ones in the binary representation of `x`, as `u64::count_ones` gives it.
fn u64_count_ones(x: u64) -> (r: u32)
    ensures
        r == popcount(x),
{
    let mut y: u64 = x;
    let mut count: u32 = 0;
    let mut i: u32 = 0;
    proof {
        assert(x <= (0xFFFF_FFFF_FFFF_FFFFu64 >> 0u32)) by (bit_vector);
    }
    while i < 64
        invariant
            i <= 64,
            count <= i,
            popcount(x) == count + popcount(y),
            y <= (0xFFFF_FFFF_FFFF_FFFFu64 >> i),
        decreases 64 - i,
    {
        proof {
            lemma_popcount_step(y);
            let j = i;
            assert(y <= (0xFFFF_FFFF_FFFF_FFFFu64 >> j) && j < 64
                ==> y / 2 <= (0xFFFF_FFFF_FFFF_FFFFu64 >> ((j + 1) as u32))) by (bit_vector);
        }
        count = count + (y % 2) as u32;
        y = y / 2;
        i = i + 1;
    }
    proof {
        assert(y <= (0xFFFF_FFFF_FFFF_FFFFu64 >> 64u32) ==> y == 0) by (bit_vector);
    }
    count
}

pub fn is_hex_digit_u8(chr: u8) -> (r: bool)
    ensures
        r == is_hex_byte(chr),
{
    hex_digits_has(chr)
}

pub fn is_hex_digit_char(chr: char) -> (r: bool)
    ensures
        r == ((chr as u32) < 256 && is_hex_byte(chr as u8)),
{
    hex_digits_has_char(chr)
}

/// The bits below `n`.
pub open spec fn mask_below(n: u64) -> u64 {
    if n >= 64 {
        u64::MAX
    } else {
        ((1u64 << n) - 1) as u64
    }
}

/// The bits from `start` up to `end` (at most 64).
pub open spec fn range_bits(start: u64, end: u64) -> u64 {
    if start >= 64 || start >= end {
        0
    } else {
        mask_below(if end > 64 { 64 } else { end }) & !mask_below(start)
    }
}

/// One flag per byte from `0` (48) on: the flag of a byte is bit `byte - 48`.
#[derive(Clone, Copy)]
struct HexDigitFlags(u64);

impl HexDigitFlags {
    fn set_bit(&mut self, bit: u32)
        requires
            bit < 64,
        ensures
            final(self).0 == old(self).0 | (1u64 << bit),
    {
        self.0 = self.0 | (1u64 << bit);
    }

    fn set_bit_range(&mut self, range: core::ops::Range<u32>)
        ensures
            final(self).0 == old(self).0 | range_bits(range.start as u64, range.end as u64),
    {
        let mut i = range.start;
        let end = if range.end > 64 {
            64
        } else {
            range.end
        };
        let ghost old0 = self.0;
        let ghost start = range.start as u64;
        if i < end {
            proof {
                assert(start < 64);
                assert(mask_below(start) & !mask_below(start) == 0u64) by (bit_vector);
                assert(old0 | 0u64 == old0) by (bit_vector);
            }
        }
        while i < end
            invariant
                end <= 64,
                start == range.start,
                start <= i,
                start < end ==> i <= end,
                start < end ==> self.0 == old0 | (mask_below(i as u64) & !mask_below(start)),
                start >= end ==> self.0 == old0,
            decreases end - i,
        {
            let ghost prev = self.0;
            self.set_bit(i);
            proof {
                let k = i as u64;
                assert(start <= k < 64 ==> (old0 | (mask_below(k) & !mask_below(start))) | (1u64 << k)
                    == old0 | (mask_below((k + 1) as u64) & !mask_below(start))) by (bit_vector);
            }
            i = i + 1;
        }
        proof {
            if !(start < end) {
                assert(old0 | 0u64 == old0) by (bit_vector);
            }
        }
    }

    fn with_hex_range(self, range: core::ops::Range<u8>) -> (r: Self)
        requires
            range.start >= 48,
            range.end >= 48,
        ensures
            r.0 == self.0 | range_bits((range.start - 48) as u64, (range.end - 48) as u64),
    {
        let mut me = self;
        me.set_bit_range(((range.start - 48) as u32)..((range.end - 48) as u32));
        me
    }

    fn get_bit(self, index: u8) -> (r: bool)
        requires
            index < 64,
        ensures
            r == (self.0 & (1u64 << index) != 0),
    {
        let bit = 1u64 << index;
        self.0 & bit != 0
    }

    fn get_hex_bit(self, index: u8) -> (r: bool)
        requires
            index < 48 || index - 48 < 64,
        ensures
            r == (index >= 48 && self.0 & (1u64 << (index - 48)) != 0),
    {
        index >= 48 && self.0 & (1u64 << (index - 48)) != 0
    }

    fn count_bits_until(self, index: u8) -> (r: u32)
        requires
            index < 64,
        ensures
            r == popcount(self.0 & mask_below(index as u64)),
    {
        assert((index as u64) < 64 ==> (1u64 << (index as u64)) >= 1) by (bit_vector);
        let mask = (1u64 << index) - 1;
        let masked = self.0 & mask;
        u64_count_ones(masked)
    }
}


/// The flags of the hex digits `0-9`, `a-f` and `A-F`.
fn hex_flags() -> (r: HexDigitFlags)
    ensures
        r.0 == 0x007E_0000_007E_03FFu64,
{
    let r = HexDigitFlags(0).with_hex_range(48..58).with_hex_range(97..103).with_hex_range(65..71);
    proof {
        assert(0u64 | range_bits(0, 10) | range_bits(49, 55) | range_bits(17, 23) == 0x007E_0000_007E_03FFu64)
            by (bit_vector);
    }
    r
}

proof fn lemma_popcount_step(z: u64)
    ensures
        popcount(z) == (z % 2) as nat + popcount(z / 2),
{
}

proof fn lemma_popcount_mask(n: u64)
    requires
        n <= 63,
    ensures
        popcount(mask_below(n)) == n,
    decreases n,
{
    if n == 0 {
        assert(mask_below(0) == 0u64) by (bit_vector);
    } else {
        let m = mask_below(n);
        assert(1 <= n <= 63 ==> mask_below(n) % 2 == 1 && mask_below(n) / 2 == mask_below((n - 1) as u64)) by (bit_vector);
        lemma_popcount_step(m);
        lemma_popcount_mask((n - 1) as u64);
    }
}

proof fn lemma_popcount_split(x: u64, k: u64)
    requires
        1 <= k <= 63,
    ensures
        popcount(x) == popcount(x & mask_below(k)) + popcount(x >> k),
    decreases k,
{
    let y = x & mask_below(k);
    assert(1 <= k <= 63 ==> (x & mask_below(k)) % 2 == x % 2
        && (x & mask_below(k)) / 2 == (x / 2) & mask_below((k - 1) as u64)
        && x >> k == (x / 2) >> ((k - 1) as u64)) by (bit_vector);
    lemma_popcount_step(x);
    lemma_popcount_step(y);
    if k == 1 {
        assert((x / 2) & mask_below(0) == 0u64) by (bit_vector);
        assert((x / 2) >> 0u64 == x / 2) by (bit_vector);
    } else {
        lemma_popcount_split(x / 2, (k - 1) as u64);
    }
}

/// How many flags of the hex digits lie below bit `b`.
pub open spec fn hex_flags_below(b: u64) -> nat {
    if b <= 10 {
        b as nat
    } else if b <= 17 {
        10
    } else if b <= 23 {
        (b - 7) as nat
    } else if b <= 49 {
        16
    } else {
        (b - 33) as nat
    }
}

proof fn lemma_hex_flags_below(b: u64)
    requires
        b <= 54,
    ensures
        popcount(0x007E_0000_007E_03FFu64 & mask_below(b)) == hex_flags_below(b),
    decreases b,
{
    let f = 0x007E_0000_007E_03FFu64;
    let y = f & mask_below(b);
    if b <= 10 {
        assert(b <= 10 ==> 0x007E_0000_007E_03FFu64 & mask_below(b) == mask_below(b)) by (bit_vector);
        lemma_popcount_mask(b);
    } else if b <= 17 {
        assert(10 <= b <= 17 ==> 0x007E_0000_007E_03FFu64 & mask_below(b) == mask_below(10)) by (bit_vector);
        lemma_popcount_mask(10);
    } else if b <= 23 {
        assert(17 <= b <= 23 ==> (0x007E_0000_007E_03FFu64 & mask_below(b)) & mask_below(17) == mask_below(10)
            && (0x007E_0000_007E_03FFu64 & mask_below(b)) >> 17u64 == mask_below((b - 17) as u64)) by (bit_vector);
        lemma_popcount_split(y, 17);
        lemma_popcount_mask(10);
        lemma_popcount_mask((b - 17) as u64);
    } else if b <= 49 {
        assert(23 <= b <= 49 ==> (0x007E_0000_007E_03FFu64 & mask_below(b)) & mask_below(17) == mask_below(10)
            && (0x007E_0000_007E_03FFu64 & mask_below(b)) >> 17u64 == mask_below(6)) by (bit_vector);
        lemma_popcount_split(y, 17);
        lemma_popcount_mask(10);
        lemma_popcount_mask(6);
    } else {
        assert(49 <= b <= 54 ==> (0x007E_0000_007E_03FFu64 & mask_below(b)) & mask_below(49) == 0x007E_0000_007E_03FFu64 & mask_below(49)
            && (0x007E_0000_007E_03FFu64 & mask_below(b)) >> 49u64 == mask_below((b - 49) as u64)) by (bit_vector);
        lemma_popcount_split(y, 49);
        lemma_hex_flags_below(49);
        lemma_popcount_mask((b - 49) as u64);
    }
}

/// What `unchecked_decode_hex_digit` gives for a byte from `0` (48) to `f` (102): the
/// value of a hex digit, and 10 for the bytes between the digit ranges.
pub open spec fn spec_unchecked_decode(d: u8) -> u8 {
    if d <= 57 {
        (d - 48) as u8
    } else if d <= 64 {
        10
    } else if d <= 70 {
        (d - 55) as u8
    } else if d <= 96 {
        10
    } else {
        (d - 87) as u8
    }
}

/// Decodes a hex digit without checking that it is one.
pub fn unchecked_decode_hex_digit(hex_digit: u8) -> (r: u8)
    requires
        48 <= hex_digit <= 102,
    ensures
        r == spec_unchecked_decode(hex_digit),
        is_hex_byte(hex_digit) ==> r == hex_value(hex_digit),
{
    let bit = hex_digit - 48;
    let index = hex_flags().count_bits_until(bit);
    proof {
        lemma_hex_flags_below(bit as u64);
    }
    let table: [u8; 22] = [0, 1, 2, 3, 4, 5, 6, 7, 8, 9, 10, 11, 12, 13, 14, 15, 10, 11, 12, 13, 14, 15];
    let i = index as usize;
    proof {
        assert(table@ =~= seq![0u8, 1, 2, 3, 4, 5, 6, 7, 8, 9, 10, 11, 12, 13, 14, 15, 10, 11, 12, 13, 14, 15]);
    }
    table[i]
}

/// The value of a hex digit, if `hex_digit` is one.
pub fn decode_hex_digit(hex_digit: u8) -> (r: Option<u8>)
    ensures
        r == (if is_hex_byte(hex_digit) { Some(hex_value(hex_digit)) } else { None }),
{
    if hex_digits_has(hex_digit) {
        Some(unchecked_decode_hex_digit(hex_digit))
    } else {
        None
    }
}


/// Why `escape_sequence` refused its text.
#[derive(Debug)]
pub enum EscapeError<'a> {
    NotAnEscapeSequence(&'a str),
    HexEscapeOutOfRange(u8),
    InvalidHexSequence(&'a str),
    EmptySequence,
}

/// What `escape_sequence` gives for the text after a backslash: one escape character, or
/// `x`/`X` and two hex digits of an ASCII character.
pub open spec fn spec_escape_sequence<'a>(seq: &'a str) -> Result<char, EscapeError<'a>> {
    let b = bytes_of(seq);
    if b.len() == 0 {
        Err(EscapeError::EmptySequence)
    } else if b.len() == 1 {
        match escaped_char(b[0]) {
            Some(c) => Ok(c),
            None => Err(EscapeError::NotAnEscapeSequence(seq)),
        }
    } else if b.len() == 3 && (b[0] == 120 || b[0] == 88) {
        if is_hex_byte(b[1]) && is_hex_byte(b[2]) {
            let full = (hex_value(b[1]) * 16 + hex_value(b[2])) as u8;
            if hex_value(b[1]) > 7 {
                Err(EscapeError::HexEscapeOutOfRange(full))
            } else {
                Ok(full as char)
            }
        } else {
            Err(EscapeError::InvalidHexSequence(seq))
        }
    } else {
        Err(EscapeError::NotAnEscapeSequence(seq))
    }
}

/// A one-byte escape sequence is one of `n t r 0 { } [ ] ( ) < > @ # $ %`: `n`, `t`, `r`
/// and `0` stand for newline, tab, carriage return and the null character, and each of the
/// others for itself.  Any other byte is not an escape sequence.
pub proof fn lemma_escape_sequence_one_byte(seq: &str)
    requires
        bytes_of(seq).len() == 1,
    ensures
        bytes_of(seq)[0] == 110 ==> (spec_escape_sequence(seq) matches Ok(c) && c == '\n'),
        bytes_of(seq)[0] == 116 ==> (spec_escape_sequence(seq) matches Ok(c) && c == '\t'),
        bytes_of(seq)[0] == 114 ==> (spec_escape_sequence(seq) matches Ok(c) && c == '\r'),
        bytes_of(seq)[0] == 48 ==> (spec_escape_sequence(seq) matches Ok(c) && c == '\0'),
        bytes_of(seq)[0] == 123 ==> (spec_escape_sequence(seq) matches Ok(c) && c == '{'),
        bytes_of(seq)[0] == 125 ==> (spec_escape_sequence(seq) matches Ok(c) && c == '}'),
        bytes_of(seq)[0] == 91 ==> (spec_escape_sequence(seq) matches Ok(c) && c == '['),
        bytes_of(seq)[0] == 93 ==> (spec_escape_sequence(seq) matches Ok(c) && c == ']'),
        bytes_of(seq)[0] == 40 ==> (spec_escape_sequence(seq) matches Ok(c) && c == '('),
        bytes_of(seq)[0] == 41 ==> (spec_escape_sequence(seq) matches Ok(c) && c == ')'),
        bytes_of(seq)[0] == 60 ==> (spec_escape_sequence(seq) matches Ok(c) && c == '<'),
        bytes_of(seq)[0] == 62 ==> (spec_escape_sequence(seq) matches Ok(c) && c == '>'),
        bytes_of(seq)[0] == 64 ==> (spec_escape_sequence(seq) matches Ok(c) && c == '@'),
        bytes_of(seq)[0] == 35 ==> (spec_escape_sequence(seq) matches Ok(c) && c == '#'),
        bytes_of(seq)[0] == 36 ==> (spec_escape_sequence(seq) matches Ok(c) && c == '$'),
        bytes_of(seq)[0] == 37 ==> (spec_escape_sequence(seq) matches Ok(c) && c == '%'),
        (bytes_of(seq)[0] != 110 && bytes_of(seq)[0] != 116 && bytes_of(seq)[0] != 114 && bytes_of(seq)[0] != 48 && bytes_of(seq)[0] != 123 && bytes_of(seq)[0] != 125 && bytes_of(seq)[0] != 91 && bytes_of(seq)[0] != 93 && bytes_of(seq)[0] != 40 && bytes_of(seq)[0] != 41 && bytes_of(seq)[0] != 60 && bytes_of(seq)[0] != 62 && bytes_of(seq)[0] != 64 && bytes_of(seq)[0] != 35 && bytes_of(seq)[0] != 36 && bytes_of(seq)[0] != 37)
            ==> spec_escape_sequence(seq) == Err::<char, EscapeError<'_>>(EscapeError::NotAnEscapeSequence(seq)),
{
}

/// The value of a hexadecimal digit, or -1 for a byte that is not one.
pub open spec fn digit_value(b: u8) -> int {
    if 48 <= b <= 57 {
        b - 48
    } else if 97 <= b <= 102 {
        b - 97 + 10
    } else if 65 <= b <= 70 {
        b - 65 + 10
    } else {
        -1
    }
}

/// `x` or `X` and two hexadecimal digits give the ASCII character with that code; a code of
/// 128 or more is out of range, and anything but two digits is an invalid hex sequence.
pub proof fn lemma_escape_sequence_hex(seq: &str)
    requires
        bytes_of(seq).len() == 3,
        bytes_of(seq)[0] == 120 || bytes_of(seq)[0] == 88,
    ensures
        ({
            let hi = digit_value(bytes_of(seq)[1]);
            let lo = digit_value(bytes_of(seq)[2]);
            &&& (hi >= 0 && lo >= 0 && 16 * hi + lo < 128)
                    ==> (spec_escape_sequence(seq) matches Ok(c) && c as int == 16 * hi + lo)
            &&& (hi >= 0 && lo >= 0 && 16 * hi + lo >= 128)
                    ==> spec_escape_sequence(seq) == Err::<char, EscapeError<'_>>(
                        EscapeError::HexEscapeOutOfRange((16 * hi + lo) as u8))
            &&& (hi < 0 || lo < 0) ==> spec_escape_sequence(seq) == Err::<char, EscapeError<'_>>(
                        EscapeError::InvalidHexSequence(seq))
        }),
{
}

/// The character of an escape sequence (the text after a backslash).
pub fn escape_sequence(seq: &str) -> (r: Result<char, EscapeError<'_>>)
    ensures
        r == spec_escape_sequence(seq),
{
    let bytes = seq.as_bytes();
    match bytes.len() {
        0 => {
            return Err(EscapeError::EmptySequence);
        },
        1 => {
            match escaped_char_of(bytes[0]) {
                Some(c) => Ok(c),
                None => Err(EscapeError::NotAnEscapeSequence(seq)),
            }
        },
        2 => {
            return Err(EscapeError::NotAnEscapeSequence(seq));
        },
        3 => {
            if bytes[0] == 120 || bytes[0] == 88 {
                let digits = subslice_unchecked(1..3, bytes);
                if hex_digits_has_all(digits) {
                    assert(is_hex_byte(digits@[0]) && is_hex_byte(digits@[1]));
                    let upper = unchecked_decode_hex_digit(bytes[1]);
                    let lower = unchecked_decode_hex_digit(bytes[2]);
                    assert(upper < 16 && lower < 16 ==> lower | (upper << 4u8) == upper * 16 + lower) by (bit_vector);
                    let full = lower | (upper << 4);
                    if upper > 0x7 {
                        return Err(EscapeError::HexEscapeOutOfRange(full));
                    }
                    Ok(full as char)
                } else {
                    assert(!(is_hex_byte(bytes@[1]) && is_hex_byte(bytes@[2]))) by {
                        if is_hex_byte(bytes@[1]) && is_hex_byte(bytes@[2]) {
                            assert forall|i: int| 0 <= i < digits@.len() implies #[trigger] is_hex_byte(digits@[i]) by {
                                assert(digits@[i] == bytes@[i + 1]);
                            }
                        }
                    }
                    return Err(EscapeError::InvalidHexSequence(seq));
                }
            } else {
                return Err(EscapeError::NotAnEscapeSequence(seq));
            }
        },
        _ => {
            return Err(EscapeError::NotAnEscapeSequence(seq));
        },
    }
}

/// `slice[range]`, for a range that lies in the slice.
pub fn subslice_unchecked<'a, T>(range: core::ops::Range<usize>, slice: &'a [T]) -> (r: &'a [T])
    requires
        range.start <= range.end <= slice@.len(),
    ensures
        r@ == slice@.subrange(range.start as int, range.end as int),
{
    let (_, tail) = slice.split_at(range.start);
    let (mid, _) = tail.split_at(range.end - range.start);
    proof {
        assert(mid@ =~= slice@.subrange(range.start as int, range.end as int));
    }
    mid
}

/// `slice[range]`; the range must lie in the slice and not be backwards.
pub fn subslice<'a, T>(range: core::ops::Range<usize>, slice: &'a [T]) -> (r: &'a [T])
    requires
        range.end <= slice@.len(),
        range.start <= range.end,
    ensures
        r@ == slice@.subrange(range.start as int, range.end as int),
{
    subslice_unchecked(range, slice)
}

/// `&mut slice[range]`, for a range that lies in the slice.
pub fn subslice_mut_unchecked<'a, T>(range: core::ops::Range<usize>, slice: &'a mut [T]) -> (r: &'a mut [T])
    requires
        range.start <= range.end <= old(slice)@.len(),
    ensures
        r@ == old(slice)@.subrange(range.start as int, range.end as int),
        final(slice)@ == old(slice)@.subrange(0, range.start as int) + final(r)@
            + old(slice)@.subrange(range.end as int, old(slice)@.len() as int),
{
    let (_, tail) = slice.split_at_mut(range.start);
    let (mid, _) = tail.split_at_mut(range.end - range.start);
    mid
}

/// `&mut slice[range]`; the range must lie in the slice and not be backwards.
pub fn subslice_mut<'a, T>(range: core::ops::Range<usize>, slice: &'a mut [T]) -> (r: &'a mut [T])
    requires
        range.end <= old(slice)@.len(),
        range.start <= range.end,
    ensures
        r@ == old(slice)@.subrange(range.start as int, range.end as int),
        final(slice)@ == old(slice)@.subrange(0, range.start as int) + final(r)@
            + old(slice)@.subrange(range.end as int, old(slice)@.len() as int),
{
    subslice_mut_unchecked(range, slice)
}

} // verus!
