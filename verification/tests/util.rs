use terp::util::{
    decode_hex_digit, escape_sequence, is_hex_digit_char, is_hex_digit_u8, subslice, subslice_mut,
    subslice_mut_unchecked, subslice_unchecked, unchecked_decode_hex_digit, EscapeError,
};

#[test]
fn hex_digit_classes() {
    for b in b"0123456789abcdefABCDEF" {
        assert!(is_hex_digit_u8(*b));
    }
    for b in b"gG/:@`xyz -" {
        assert!(!is_hex_digit_u8(*b));
    }
    assert!(is_hex_digit_char('a'));
    assert!(!is_hex_digit_char('é'));
    assert!(!is_hex_digit_char('\u{161}'));
}

#[test]
fn hex_digit_values() {
    for (i, b) in b"0123456789abcdef".iter().enumerate() {
        assert_eq!(decode_hex_digit(*b), Some(i as u8));
    }
    for (i, b) in b"ABCDEF".iter().enumerate() {
        assert_eq!(decode_hex_digit(*b), Some(10 + i as u8));
    }
    assert_eq!(decode_hex_digit(b'g'), None);
    assert_eq!(decode_hex_digit(b'/'), None);
}

#[test]
fn unchecked_decode_between_digit_ranges() {
    assert_eq!(unchecked_decode_hex_digit(b':'), 10);
    assert_eq!(unchecked_decode_hex_digit(b'@'), 10);
    assert_eq!(unchecked_decode_hex_digit(b'G'), 10);
    assert_eq!(unchecked_decode_hex_digit(b'`'), 10);
    assert_eq!(unchecked_decode_hex_digit(b'f'), 15);
}

#[test]
fn escape_sequences() {
    assert!(matches!(escape_sequence(""), Err(EscapeError::EmptySequence)));
    assert!(matches!(escape_sequence("n"), Ok('\n')));
    assert!(matches!(escape_sequence("0"), Ok('\0')));
    assert!(matches!(escape_sequence("%"), Ok('%')));
    assert!(matches!(escape_sequence("q"), Err(EscapeError::NotAnEscapeSequence("q"))));
    assert!(matches!(escape_sequence("ab"), Err(EscapeError::NotAnEscapeSequence("ab"))));
    assert!(matches!(escape_sequence("x41"), Ok('A')));
    assert!(matches!(escape_sequence("X7a"), Ok('z')));
    assert!(matches!(escape_sequence("x7F"), Ok('\u{7f}')));
    assert!(matches!(escape_sequence("x80"), Err(EscapeError::HexEscapeOutOfRange(0x80))));
    assert!(matches!(escape_sequence("xff"), Err(EscapeError::HexEscapeOutOfRange(0xff))));
    assert!(matches!(escape_sequence("xg1"), Err(EscapeError::InvalidHexSequence("xg1"))));
    assert!(matches!(escape_sequence("y41"), Err(EscapeError::NotAnEscapeSequence("y41"))));
    assert!(matches!(escape_sequence("x414"), Err(EscapeError::NotAnEscapeSequence("x414"))));
}

#[test]
fn subslices() {
    let v = [1, 2, 3, 4, 5];
    assert_eq!(subslice(1..3, &v), &[2, 3]);
    assert_eq!(subslice_unchecked(0..0, &v), &[] as &[i32]);
    let mut w = [1, 2, 3, 4, 5];
    subslice_mut(2..4, &mut w)[0] = 9;
    assert_eq!(w, [1, 2, 9, 4, 5]);
    subslice_mut_unchecked(4..5, &mut w)[0] = 7;
    assert_eq!(w, [1, 2, 9, 4, 7]);
}
