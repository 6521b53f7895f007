//! Byte-level views of string slices and boundary-checked slicing.
use vstd::prelude::*;
use vstd::utf8::*;
use vstd::string::StringSliceAdditionalSpecFns;

verus! {

broadcast use vstd::utf8::group_utf8_lib;

/// The UTF-8 bytes of a string slice.
pub open spec fn bytes_of(s: &str) -> Seq<u8> {
    s.spec_bytes()
}

/// Byte index `i` of `b` starts a character or is the end of `b`.
pub open spec fn on_boundary(b: Seq<u8>, i: int) -> bool {
    i == b.len() || (0 <= i < b.len() && !is_continuation_byte(b[i]))
}

/// `on_boundary` agrees with vstd's notion of a character boundary on well-formed text.
pub proof fn lemma_on_boundary(s: &str, i: int)
    requires
        0 <= i <= s.spec_bytes().len(),
        on_boundary(s.spec_bytes(), i),
    ensures
        is_char_boundary(s.spec_bytes(), i),
        valid_utf8(s.spec_bytes()),
{
    encode_utf8_valid_utf8(s@);
    is_char_boundary_start_end_of_seq(s.spec_bytes());
    if i < s.spec_bytes().len() {
        is_char_boundary_iff_not_is_continuation_byte(s.spec_bytes(), i);
    }
}

/// The sub-slice of `s` between two character boundaries, as `&s[start..end]` gives it.
pub fn substr<'a>(s: &'a str, start: usize, end: usize) -> (r: &'a str)
    requires
        start <= end <= bytes_of(s).len(),
        on_boundary(bytes_of(s), start as int),
        on_boundary(bytes_of(s), end as int),
    ensures
        bytes_of(r) == bytes_of(s).subrange(start as int, end as int),
{
    proof {
        lemma_on_boundary(s, start as int);
        lemma_on_boundary(s, end as int);
    }
    let (_, tail) = s.split_at(start);
    proof {
        let tb = tail.spec_bytes();
        let sb = s.spec_bytes();
        assert(tb =~= sb.subrange(start as int, sb.len() as int));
        encode_utf8_valid_utf8(tail@);
        is_char_boundary_start_end_of_seq(tb);
        if end < sb.len() {
            assert(tb[end - start] == sb[end as int]);
            is_char_boundary_iff_not_is_continuation_byte(tb, end - start);
        }
    }
    let (mid, _) = tail.split_at(end - start);
    proof {
        assert(mid.spec_bytes() =~= s.spec_bytes().subrange(start as int, end as int));
    }
    mid
}

/// Encoding a concatenation encodes each part.
pub proof fn lemma_encode_concat(a: Seq<char>, b: Seq<char>)
    ensures
        encode_utf8(a + b) == encode_utf8(a) + encode_utf8(b),
    decreases a.len(),
{
    if a.len() == 0 {
        assert(a + b =~= b);
    } else {
        lemma_encode_concat(a.drop_first(), b);
        assert((a + b).drop_first() =~= a.drop_first() + b);
        assert((a + b)[0] == a[0]);
    }
}

/// The encoding of an ASCII text is its characters' codes.
pub proof fn lemma_encode_ascii(chars: Seq<char>)
    requires
        is_ascii_chars(chars),
    ensures
        encode_utf8(chars) == chars.map_values(|c: char| c as u8),
{
    is_ascii_chars_encode_utf8(chars);
    assert(encode_utf8(chars) =~= chars.map_values(|c: char| c as u8));
}

/// `String::push`: appends the character to the end of the string.
#[verifier::external_body]
pub(crate) fn push_char(s: &mut String, c: char)
    ensures
        final(s)@ == old(s)@.push(c),
{
    s.push(c);
}

/// Text written after `a` keeps `a` in front.
pub proof fn lemma_prefix_append(a: Seq<char>, b: Seq<char>, x: Seq<char>)
    requires
        a.is_prefix_of(b),
    ensures
        a.is_prefix_of(b + x),
{
    assert((b + x).subrange(0, a.len() as int) =~= b.subrange(0, a.len() as int));
}

/// The bytes of a text with one more character.
pub proof fn lemma_encode_push(a: Seq<char>, c: char)
    ensures
        encode_utf8(a.push(c)) == encode_utf8(a) + encode_utf8(seq![c]),
{
    lemma_encode_concat(a, seq![c]);
    assert(a + seq![c] =~= a.push(c));
}

/// A prefix of a prefix is a prefix.
pub proof fn lemma_prefix_trans(a: Seq<char>, b: Seq<char>, c: Seq<char>)
    requires
        a.is_prefix_of(b),
        b.is_prefix_of(c),
    ensures
        a.is_prefix_of(c),
{
    assert(c.subrange(0, a.len() as int) =~= c.subrange(0, b.len() as int).subrange(0, a.len() as int));
}

} // verus!
