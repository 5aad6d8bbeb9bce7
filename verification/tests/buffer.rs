use uri_syntax::{new_char_buf, Char, CharBuffer, CharStream, EscapeError};

#[test]
fn pop_reads_in_order_and_then_the_end() {
    let mut tb = new_char_buf(b"a%41");
    assert_eq!(0, tb.len());
    assert_eq!(Ok(Some(Char::Ascii(b'a'))), tb.pop());
    assert_eq!(Ok(Some(Char::PctEncoded(b'4', b'1'))), tb.pop());
    assert_eq!(Ok(None), tb.pop());
    assert_eq!(Ok(None), tb.pop());
    assert_eq!(0, tb.len());
}

#[test]
fn push_undoes_pop() {
    let mut tb = new_char_buf(b"abc");
    let a = tb.pop().unwrap().unwrap();
    let b = tb.pop().unwrap().unwrap();
    assert_eq!(0, tb.len());
    tb.push(b);
    assert_eq!(1, tb.len());
    tb.push(a);
    assert_eq!(2, tb.len());
    assert_eq!(Ok(Some(Char::Ascii(b'a'))), tb.pop());
    assert_eq!(1, tb.len());
    assert_eq!(Ok(Some(Char::Ascii(b'b'))), tb.pop());
    assert_eq!(0, tb.len());
    assert_eq!(Ok(Some(Char::Ascii(b'c'))), tb.pop());
    assert_eq!(Ok(None), tb.pop());
}

#[test]
fn push_tokens_keeps_the_order() {
    let mut tb = new_char_buf(b"xyz");
    let x = tb.pop().unwrap().unwrap();
    let y = tb.pop().unwrap().unwrap();
    tb.push_tokens(vec![x, y]);
    assert_eq!(2, tb.len());
    assert_eq!(Ok(Some(Char::Ascii(b'x'))), tb.pop());
    assert_eq!(Ok(Some(Char::Ascii(b'y'))), tb.pop());
    assert_eq!(Ok(Some(Char::Ascii(b'z'))), tb.pop());
    assert_eq!(Ok(None), tb.pop());
}

#[test]
fn push_tokens_goes_in_front_of_what_is_queued() {
    let mut tb = new_char_buf(b"");
    tb.push(Char::Ascii(b'c'));
    tb.push_tokens(vec![Char::Ascii(b'a'), Char::Ascii(b'b')]);
    tb.push_tokens(Vec::new());
    assert_eq!(3, tb.len());
    assert_eq!(Ok(Some(Char::Ascii(b'a'))), tb.pop());
    assert_eq!(Ok(Some(Char::Ascii(b'b'))), tb.pop());
    assert_eq!(Ok(Some(Char::Ascii(b'c'))), tb.pop());
    assert_eq!(Ok(None), tb.pop());
}

#[test]
fn queue_is_read_before_the_decoder() {
    let mut tb = CharBuffer::new(CharStream::new(b"%G1"));
    tb.push(Char::Ascii(b'q'));
    assert_eq!(1, tb.len());
    assert_eq!(Ok(Some(Char::Ascii(b'q'))), tb.pop());
    assert_eq!(Err(EscapeError::InvalidEscape), tb.pop());
    assert_eq!(Ok(Some(Char::Ascii(b'1'))), tb.pop());
    assert_eq!(Ok(None), tb.pop());
}
