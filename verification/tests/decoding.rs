use uri_syntax::char_buf::{
    is_alpha, is_alphanum, is_digit, is_escaped, is_hex, is_low_alpha, is_mark, is_reserved,
    is_unreserved, is_up_alpha,
};
use uri_syntax::{new_char_buf, parse_segment, Char, CharStream, EscapeError};

const HEX_DIGITS: &[u8] = b"0123456789ABCDEFabcdef";

#[test]
fn every_escape_with_two_hex_digits_round_trips() {
    for &high in HEX_DIGITS {
        for &low in HEX_DIGITS {
            let bytes = [b'%', high, low];
            let mut cs = CharStream::new(&bytes);
            let c = cs.next().unwrap().unwrap();
            assert_eq!(Char::PctEncoded(high, low), c);
            assert_eq!(None, cs.next().unwrap());
            assert_eq!(bytes.to_vec(), c.to_string().into_bytes());
            let mut out = Vec::new();
            c.write_to(&mut out);
            assert_eq!(bytes.to_vec(), out);
        }
    }
}

#[test]
fn escape_keeps_the_case_of_its_digits() {
    let mut cs = CharStream::new(b"%aF%Af");
    assert_eq!(Some(Char::PctEncoded(b'a', b'F')), cs.next().unwrap());
    assert_eq!(Some(Char::PctEncoded(b'A', b'f')), cs.next().unwrap());
    assert_eq!(None, cs.next().unwrap());
    assert_eq!("%aF", Char::PctEncoded(b'a', b'F').to_string());
}

#[test]
fn escape_with_a_byte_that_is_no_hex_digit_is_invalid() {
    for b in 0..=255u8 {
        if HEX_DIGITS.contains(&b) {
            continue;
        }
        let first = [b'%', b, b'0'];
        assert_eq!(Err(EscapeError::InvalidEscape), CharStream::new(&first).next());
        let second = [b'%', b'0', b];
        assert_eq!(Err(EscapeError::InvalidEscape), CharStream::new(&second).next());
        let short = [b'%', b];
        assert_eq!(Err(EscapeError::InvalidEscape), CharStream::new(&short).next());
    }
}

#[test]
fn escape_that_the_input_cuts_off_is_truncated() {
    assert_eq!(Err(EscapeError::TruncatedEscape), CharStream::new(b"%").next());
    assert_eq!(Err(EscapeError::TruncatedEscape), CharStream::new(b"%F").next());
    assert_eq!(Err(EscapeError::TruncatedEscape), CharStream::new(b"%0").next());
    assert_eq!(Err(EscapeError::InvalidEscape), CharStream::new(b"%G").next());
    assert_eq!(Err(EscapeError::InvalidEscape), CharStream::new(b"%%41").next());
}

#[test]
fn decoding_goes_on_behind_an_error() {
    let mut cs = CharStream::new(b"a%Gbc%4");
    assert_eq!(Ok(Some(Char::Ascii(b'a'))), cs.next());
    assert_eq!(Err(EscapeError::InvalidEscape), cs.next());
    assert_eq!(Ok(Some(Char::Ascii(b'b'))), cs.next());
    assert_eq!(Ok(Some(Char::Ascii(b'c'))), cs.next());
    assert_eq!(Err(EscapeError::TruncatedEscape), cs.next());
    assert_eq!(Ok(None), cs.next());
    assert_eq!(Ok(None), cs.next());
}

#[test]
fn invalid_second_digit_uses_up_three_bytes() {
    let mut cs = CharStream::new(b"%4Gx");
    assert_eq!(Err(EscapeError::InvalidEscape), cs.next());
    assert_eq!(Ok(Some(Char::Ascii(b'x'))), cs.next());
    assert_eq!(Ok(None), cs.next());
}

#[test]
fn any_byte_but_percent_is_a_literal() {
    for b in 0..=255u8 {
        if b == b'%' {
            continue;
        }
        let bytes = [b];
        let mut cs = CharStream::new(&bytes);
        assert_eq!(Ok(Some(Char::Ascii(b))), cs.next());
        assert_eq!(Ok(None), cs.next());
    }
}

#[test]
fn empty_input_is_at_its_end() {
    let mut cs = CharStream::new(b"");
    assert_eq!(Ok(None), cs.next());
    let mut cs: CharStream = "".as_bytes().into();
    assert_eq!(Ok(None), cs.next());
}

#[test]
fn errors_in_words() {
    assert_eq!("Invalid escape sequence.", EscapeError::InvalidEscape.to_string());
    assert_eq!(
        "Unexpected end of escape sequence.",
        EscapeError::TruncatedEscape.to_string()
    );
}

#[test]
fn decoding_error_comes_through_the_buffer_and_the_production() {
    let mut tb = new_char_buf(b"ab%Gcd");
    assert_eq!(Err(EscapeError::InvalidEscape), parse_segment(&mut tb));
    assert_eq!(0, tb.len());
    assert_eq!("cd", parse_segment(&mut tb).unwrap().to_string());

    let mut tb = new_char_buf(b"ab%4");
    assert_eq!(Err(EscapeError::TruncatedEscape), parse_segment(&mut tb));
    assert_eq!(Ok(None), tb.pop());
}

#[test]
fn literal_is_written_as_the_character_with_its_code() {
    assert_eq!("a", Char::Ascii(b'a').to_string());
    assert_eq!("\u{e9}", Char::Ascii(0xe9).to_string());
    let mut out = vec![1u8];
    Char::Ascii(0xe9).write_to(&mut out);
    assert_eq!(vec![1u8, 0xe9], out);
}

#[test]
fn char_is_compares_with_a_literal_only() {
    assert!(Char::Ascii(b'/').is(b'/'));
    assert!(!Char::Ascii(b'/').is(b'.'));
    assert!(!Char::PctEncoded(b'2', b'F').is(b'/'));
    assert!(!Char::PctEncoded(b'2', b'F').is(b'2'));
}

#[test]
fn unreserved_characters() {
    for b in 0..=255u8 {
        let expected = b.is_ascii_alphanumeric() || b"-._~".contains(&b);
        assert_eq!(expected, Char::Ascii(b).is_unreserved(), "byte {}", b);
    }
    assert!(!Char::PctEncoded(b'4', b'1').is_unreserved());
}

#[test]
fn sub_delimiters() {
    for b in 0..=255u8 {
        let expected = b"!$&'()*+,;=".contains(&b);
        assert_eq!(expected, Char::Ascii(b).is_sub_delim(), "byte {}", b);
    }
    assert!(!Char::PctEncoded(b'2', b'1').is_sub_delim());
}

#[test]
fn general_delimiters() {
    for b in 0..=255u8 {
        let expected = b":|?#[]@".contains(&b);
        assert_eq!(expected, Char::Ascii(b).is_gen_delim(), "byte {}", b);
    }
    assert!(!Char::Ascii(b'/').is_gen_delim());
    assert!(!Char::PctEncoded(b'3', b'A').is_gen_delim());
}

#[test]
fn reserved_characters_are_the_delimiters() {
    for b in 0..=255u8 {
        let c = Char::Ascii(b);
        assert_eq!(c.is_gen_delim() || c.is_sub_delim(), c.is_reserved(), "byte {}", b);
    }
    assert!(Char::Ascii(b'|').is_reserved());
    assert!(Char::Ascii(b'=').is_reserved());
    assert!(!Char::Ascii(b'a').is_reserved());
    assert!(!Char::PctEncoded(b'3', b'A').is_reserved());
}

#[test]
fn pchar_characters() {
    for b in 0..=255u8 {
        let expected =
            b.is_ascii_alphanumeric() || b"-._~".contains(&b) || b"!$&'()*+,;=".contains(&b)
                || b == b':' || b == b'@';
        assert_eq!(expected, Char::Ascii(b).is_pchar(), "byte {}", b);
    }
    assert!(Char::PctEncoded(b'2', b'F').is_pchar());
    assert!(Char::PctEncoded(b'2', b'F').is_pct_encoded());
    assert!(!Char::Ascii(b'%').is_pct_encoded());
    assert!(!Char::Ascii(b'/').is_pchar());
    assert!(!Char::Ascii(b'?').is_pchar());
    assert!(!Char::Ascii(b'%').is_pchar());
}

#[test]
fn digits_are_literals_only() {
    for b in 0..=255u8 {
        assert_eq!(b.is_ascii_digit(), Char::Ascii(b).is_digit(), "byte {}", b);
        assert_eq!(b.is_ascii_hexdigit(), Char::Ascii(b).is_hex(), "byte {}", b);
    }
    assert!(!Char::PctEncoded(b'3', b'1').is_digit());
    assert!(!Char::PctEncoded(b'3', b'1').is_hex());
}

#[test]
fn byte_classes() {
    for b in 0..=255u8 {
        assert_eq!(b.is_ascii_lowercase(), is_low_alpha(b), "byte {}", b);
        assert_eq!(b.is_ascii_uppercase(), is_up_alpha(b), "byte {}", b);
        assert_eq!(b.is_ascii_alphabetic(), is_alpha(b), "byte {}", b);
        assert_eq!(b.is_ascii_digit(), is_digit(b), "byte {}", b);
        assert_eq!(b.is_ascii_alphanumeric(), is_alphanum(b), "byte {}", b);
        assert_eq!(b.is_ascii_hexdigit(), is_hex(b), "byte {}", b);
        assert_eq!(b"-_.!~*'()".contains(&b), is_mark(b), "byte {}", b);
        assert_eq!(b";/?:@&=+$,".contains(&b), is_reserved(b), "byte {}", b);
        assert_eq!(
            b.is_ascii_alphanumeric() || b"-_.!~*'()".contains(&b),
            is_unreserved(b),
            "byte {}",
            b
        );
    }
}

#[test]
fn escaped_triples() {
    assert!(is_escaped((b'%', b'4', b'1')));
    assert!(is_escaped((b'%', b'a', b'F')));
    assert!(!is_escaped((b'%', b'G', b'1')));
    assert!(!is_escaped((b'%', b'1', b'g')));
    assert!(!is_escaped((b'4', b'1', b'1')));
}
