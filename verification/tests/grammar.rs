use uri_syntax::{
    new_char_buf, parse_dec_octet, parse_fragment, parse_h16, parse_ipv4_address, parse_path,
    parse_path_abempty, parse_path_absolute, parse_path_empty, parse_path_noscheme,
    parse_path_rootless, parse_query, parse_segment, parse_segment_nz, parse_segment_nz_nc, Char,
    CharBuffer, DecOctet, EscapeError, Path, Segment, H16,
};

fn rest(tb: &mut CharBuffer) -> String {
    let mut out = String::new();
    while let Some(c) = tb.pop().unwrap() {
        out.push_str(&c.to_string());
    }
    out
}

fn chars(text: &str) -> Vec<Char> {
    text.bytes().map(Char::Ascii).collect()
}

fn segments(path: &Path) -> Vec<String> {
    path.segments.iter().map(|s| s.to_string()).collect()
}

#[test]
fn dec_octet_takes_three_digits_and_checks_them_afterwards() {
    let mut tb = new_char_buf(b"255");
    assert_eq!(Some(DecOctet(chars("255"))), parse_dec_octet(&mut tb).unwrap());
    assert_eq!(0, tb.len());
    assert_eq!("", rest(&mut tb));

    let mut tb = new_char_buf(b"256");
    assert_eq!(None, parse_dec_octet(&mut tb).unwrap());
    assert_eq!(3, tb.len());
    assert_eq!("256", rest(&mut tb));

    let mut tb = new_char_buf(b"2555");
    assert_eq!(Some(DecOctet(chars("255"))), parse_dec_octet(&mut tb).unwrap());
    assert_eq!("5", rest(&mut tb));

    let mut tb = new_char_buf(b"2565");
    assert_eq!(None, parse_dec_octet(&mut tb).unwrap());
    assert_eq!(3, tb.len());
    assert_eq!("2565", rest(&mut tb));

    let mut tb = new_char_buf(b"999");
    assert_eq!(None, parse_dec_octet(&mut tb).unwrap());
    assert_eq!("999", rest(&mut tb));
}

#[test]
fn dec_octet_keeps_its_digits_as_written() {
    let mut tb = new_char_buf(b"007");
    let octet = parse_dec_octet(&mut tb).unwrap().unwrap();
    assert_eq!("007", octet.to_string());

    let mut tb = new_char_buf(b"00");
    assert_eq!("00", parse_dec_octet(&mut tb).unwrap().unwrap().to_string());

    let mut tb = new_char_buf(b"9a");
    assert_eq!("9", parse_dec_octet(&mut tb).unwrap().unwrap().to_string());
    assert_eq!(1, tb.len());
    assert_eq!("a", rest(&mut tb));
}

#[test]
fn dec_octet_without_a_digit_does_not_match() {
    let mut tb = new_char_buf(b"");
    assert_eq!(None, parse_dec_octet(&mut tb).unwrap());
    assert_eq!(0, tb.len());

    let mut tb = new_char_buf(b".1");
    assert_eq!(None, parse_dec_octet(&mut tb).unwrap());
    assert_eq!(1, tb.len());
    assert_eq!(".1", rest(&mut tb));

    let mut tb = new_char_buf(b"%31");
    assert_eq!(None, parse_dec_octet(&mut tb).unwrap());
    assert_eq!(Ok(Some(Char::PctEncoded(b'3', b'1'))), tb.pop());
}

#[test]
fn dec_octet_hands_on_a_decoding_error() {
    let mut tb = new_char_buf(b"12%zz");
    assert_eq!(Err(EscapeError::InvalidEscape), parse_dec_octet(&mut tb));
    let mut tb = new_char_buf(b"1%");
    assert_eq!(Err(EscapeError::TruncatedEscape), parse_dec_octet(&mut tb));
    let mut tb = new_char_buf(b"123%zz");
    assert_eq!("123", parse_dec_octet(&mut tb).unwrap().unwrap().to_string());
    assert_eq!(Err(EscapeError::InvalidEscape), tb.pop());
}

#[test]
fn h16_is_four_hex_digits_or_nothing() {
    let mut tb = new_char_buf(b"12aF");
    let group = parse_h16(&mut tb).unwrap().unwrap();
    assert_eq!(
        H16(Char::Ascii(b'1'), Char::Ascii(b'2'), Char::Ascii(b'a'), Char::Ascii(b'F')),
        group
    );
    assert_eq!("12aF", group.to_string());
    assert_eq!(0, tb.len());

    let mut tb = new_char_buf(b"12aF5:");
    assert_eq!("12aF", parse_h16(&mut tb).unwrap().unwrap().to_string());
    assert_eq!(0, tb.len());
    assert_eq!("5:", rest(&mut tb));

    let mut tb = new_char_buf(b"12a:");
    assert_eq!(None, parse_h16(&mut tb).unwrap());
    assert_eq!(4, tb.len());
    assert_eq!("12a:", rest(&mut tb));

    let mut tb = new_char_buf(b"12a");
    assert_eq!(None, parse_h16(&mut tb).unwrap());
    assert_eq!(3, tb.len());
    assert_eq!("12a", rest(&mut tb));

    let mut tb = new_char_buf(b"");
    assert_eq!(None, parse_h16(&mut tb).unwrap());

    let mut tb = new_char_buf(b"ab%4");
    assert_eq!(Err(EscapeError::TruncatedEscape), parse_h16(&mut tb));
}

#[test]
fn ipv4_address_rolls_back_from_every_stage() {
    for text in [
        "", "x", "1", "1x", "1.", "1.x", "1.2", "1.2x", "1.2.", "1.2.x", "1.2.3", "1.2.3x",
        "1.2.3.", "1.2.3.x", "256.1.1.1", "1.256.1.1", "1.1.256.1", "1.1.1.256", "1..2.3",
        "1.2.3.4444x", "1.2.3.2555x", "1234.1.1.1",
    ] {
        let mut tb = new_char_buf(text.as_bytes());
        let found = parse_ipv4_address(&mut tb).unwrap();
        if text == "1.2.3.2555x" {
            assert_eq!("1.2.3.255", found.unwrap().to_string());
            assert_eq!(0, tb.len());
            assert_eq!("5x", rest(&mut tb));
        } else {
            assert_eq!(None, found, "text {:?}", text);
            assert_eq!(text, rest(&mut tb));
        }
    }
}

#[test]
fn ipv4_address_that_failed_can_be_read_again_from_the_start() {
    let mut tb = new_char_buf(b"12.34.56.foo");
    assert_eq!(None, parse_ipv4_address(&mut tb).unwrap());
    assert_eq!(10, tb.len());
    assert_eq!("12.34.56.foo", rest(&mut tb));

    let mut tb = new_char_buf(b"12.34.56.78.foo");
    let ip = parse_ipv4_address(&mut tb).unwrap().unwrap();
    assert_eq!("12", ip.0.to_string());
    assert_eq!("34", ip.1.to_string());
    assert_eq!("56", ip.2.to_string());
    assert_eq!("78", ip.3.to_string());
    assert_eq!(".foo", rest(&mut tb));
}

#[test]
fn ipv4_address_of_the_largest_and_smallest_parts() {
    let mut tb = new_char_buf(b"255.255.255.255");
    assert_eq!(
        "255.255.255.255",
        parse_ipv4_address(&mut tb).unwrap().unwrap().to_string()
    );
    assert_eq!(0, tb.len());
    let mut tb = new_char_buf(b"0.0.0.0/");
    assert_eq!("0.0.0.0", parse_ipv4_address(&mut tb).unwrap().unwrap().to_string());
    assert_eq!(1, tb.len());
}

#[test]
fn ipv4_address_hands_on_a_decoding_error() {
    let mut tb = new_char_buf(b"1.2.%");
    assert_eq!(Err(EscapeError::TruncatedEscape), parse_ipv4_address(&mut tb));
    assert_eq!(0, tb.len());
    let mut tb = new_char_buf(b"1%GG");
    assert_eq!(Err(EscapeError::InvalidEscape), parse_ipv4_address(&mut tb));
}

#[test]
fn segment_may_be_empty() {
    let mut tb = new_char_buf(b"");
    assert_eq!(Segment(Vec::new()), parse_segment(&mut tb).unwrap());
    assert_eq!(0, tb.len());

    let mut tb = new_char_buf(b"/a");
    assert_eq!(Segment(Vec::new()), parse_segment(&mut tb).unwrap());
    assert_eq!(1, tb.len());
    assert_eq!("/a", rest(&mut tb));

    let mut tb = new_char_buf(b"a:b@c%2Fd;e=f/g");
    let segment = parse_segment(&mut tb).unwrap();
    assert_eq!("a:b@c%2Fd;e=f", segment.to_string());
    assert_eq!(11, segment.0.len());
    assert_eq!("/g", rest(&mut tb));
}

#[test]
fn segment_nz_needs_a_character() {
    let mut tb = new_char_buf(b"");
    assert_eq!(None, parse_segment_nz(&mut tb).unwrap());
    assert_eq!(0, tb.len());

    let mut tb = new_char_buf(b"/a");
    assert_eq!(None, parse_segment_nz(&mut tb).unwrap());
    assert_eq!(1, tb.len());
    assert_eq!("/a", rest(&mut tb));

    let mut tb = new_char_buf(b"a:b/c");
    assert_eq!("a:b", parse_segment_nz(&mut tb).unwrap().unwrap().to_string());
    assert_eq!("/c", rest(&mut tb));
}

#[test]
fn segment_nz_nc_stops_at_a_colon() {
    let mut tb = new_char_buf(b"a@b:c");
    assert_eq!("a@b", parse_segment_nz_nc(&mut tb).unwrap().unwrap().to_string());
    assert_eq!(1, tb.len());
    assert_eq!(":c", rest(&mut tb));

    let mut tb = new_char_buf(b":c");
    assert_eq!(None, parse_segment_nz_nc(&mut tb).unwrap());
    assert_eq!(":c", rest(&mut tb));

    let mut tb = new_char_buf(b"%3A");
    assert_eq!("%3A", parse_segment_nz_nc(&mut tb).unwrap().unwrap().to_string());

    let mut tb = new_char_buf(b"");
    assert_eq!(None, parse_segment_nz_nc(&mut tb).unwrap());
}

#[test]
fn query_and_fragment_take_slash_and_question_mark() {
    let mut tb = new_char_buf(b"a/b?c=d#e");
    assert_eq!("a/b?c=d", parse_query(&mut tb).unwrap().to_string());
    assert_eq!(1, tb.len());
    assert_eq!("#e", rest(&mut tb));

    let mut tb = new_char_buf(b"a/b?c=d#e");
    assert_eq!("a/b?c=d", parse_fragment(&mut tb).unwrap().to_string());
    assert_eq!("#e", rest(&mut tb));

    let mut tb = new_char_buf(b"");
    assert_eq!("", parse_query(&mut tb).unwrap().to_string());
    assert_eq!("", parse_fragment(&mut tb).unwrap().to_string());

    let mut tb = new_char_buf(b"#");
    assert_eq!(0, parse_fragment(&mut tb).unwrap().0.len());
    assert_eq!(1, tb.len());

    let mut tb = new_char_buf(b"a%");
    assert_eq!(Err(EscapeError::TruncatedEscape), parse_query(&mut tb));
    let mut tb = new_char_buf(b"a%q1");
    assert_eq!(Err(EscapeError::InvalidEscape), parse_fragment(&mut tb));
}

#[test]
fn query_and_fragment_stop_at_a_character_they_do_not_take() {
    let mut tb = new_char_buf(b"foo}bar");
    assert_eq!("foo", parse_query(&mut tb).unwrap().to_string());
    assert_eq!(1, tb.len());
    assert_eq!(Ok(Some(Char::Ascii(b'}'))), tb.pop());
    assert_eq!("bar", parse_fragment(&mut tb).unwrap().to_string());
    assert_eq!(0, tb.len());
    assert_eq!(Ok(None), tb.pop());
}

#[test]
fn path_of_nothing_has_one_empty_segment() {
    let mut tb = new_char_buf(b"");
    let path = parse_path(&mut tb).unwrap();
    assert_eq!(false, path.absolute);
    assert_eq!(vec![""], segments(&path));
    assert_eq!("", path.to_string());

    let mut tb = new_char_buf(b"?q");
    let path = parse_path(&mut tb).unwrap();
    assert_eq!(false, path.absolute);
    assert_eq!(vec![""], segments(&path));
    assert_eq!(1, tb.len());
    assert_eq!("?q", rest(&mut tb));
}

#[test]
fn path_chooses_absolute_before_rootless() {
    let mut tb = new_char_buf(b"/");
    let path = parse_path(&mut tb).unwrap();
    assert_eq!(true, path.absolute);
    assert_eq!(vec![""], segments(&path));

    let mut tb = new_char_buf(b"/foo/bar");
    let path = parse_path(&mut tb).unwrap();
    assert_eq!(true, path.absolute);
    assert_eq!(vec!["foo", "bar"], segments(&path));
    assert_eq!("/foo/bar", path.to_string());

    let mut tb = new_char_buf(b"foo/bar");
    let path = parse_path(&mut tb).unwrap();
    assert_eq!(false, path.absolute);
    assert_eq!(vec!["foo", "bar"], segments(&path));
    assert_eq!("foo/bar", path.to_string());

    let mut tb = new_char_buf(b"a:b//c/?x");
    let path = parse_path(&mut tb).unwrap();
    assert_eq!(vec!["a:b", "", "c", ""], segments(&path));
    assert_eq!("a:b//c/", path.to_string());
    assert_eq!("?x", rest(&mut tb));
}

#[test]
fn path_absolute_needs_a_slash_and_takes_no_second_one() {
    let mut tb = new_char_buf(b"foo");
    assert_eq!(None, parse_path_absolute(&mut tb).unwrap());
    assert_eq!(1, tb.len());
    assert_eq!("foo", rest(&mut tb));

    let mut tb = new_char_buf(b"");
    assert_eq!(None, parse_path_absolute(&mut tb).unwrap());
    assert_eq!(0, tb.len());

    let mut tb = new_char_buf(b"//foo");
    let path = parse_path_absolute(&mut tb).unwrap().unwrap();
    assert_eq!(true, path.absolute);
    assert_eq!(vec![""], segments(&path));
    assert_eq!("/", path.to_string());
    assert_eq!(1, tb.len());
    assert_eq!("/foo", rest(&mut tb));

    let mut tb = new_char_buf(b"/a//b#");
    let path = parse_path_absolute(&mut tb).unwrap().unwrap();
    assert_eq!(vec!["a", "", "b"], segments(&path));
    assert_eq!("/a//b", path.to_string());
    assert_eq!("#", rest(&mut tb));
}

#[test]
fn path_rootless_needs_a_first_segment() {
    let mut tb = new_char_buf(b"/foo");
    assert_eq!(None, parse_path_rootless(&mut tb).unwrap());
    assert_eq!(1, tb.len());
    assert_eq!("/foo", rest(&mut tb));

    let mut tb = new_char_buf(b"");
    assert_eq!(None, parse_path_rootless(&mut tb).unwrap());

    let mut tb = new_char_buf(b"a:b/c:d/");
    let path = parse_path_rootless(&mut tb).unwrap().unwrap();
    assert_eq!(false, path.absolute);
    assert_eq!(vec!["a:b", "c:d", ""], segments(&path));
    assert_eq!("a:b/c:d/", path.to_string());
    assert_eq!(0, tb.len());

    let mut tb = new_char_buf(b"a");
    let path = parse_path_rootless(&mut tb).unwrap().unwrap();
    assert_eq!(vec!["a"], segments(&path));
}

#[test]
fn path_noscheme_has_no_colon_in_its_first_segment() {
    let mut tb = new_char_buf(b"a/b:c/d");
    let path = parse_path_noscheme(&mut tb).unwrap().unwrap();
    assert_eq!(false, path.absolute);
    assert_eq!(vec!["a", "b:c", "d"], segments(&path));
    assert_eq!("a/b:c/d", path.to_string());

    let mut tb = new_char_buf(b"a:b/c");
    let path = parse_path_noscheme(&mut tb).unwrap().unwrap();
    assert_eq!(vec!["a"], segments(&path));
    assert_eq!(1, tb.len());
    assert_eq!(":b/c", rest(&mut tb));

    let mut tb = new_char_buf(b":b");
    assert_eq!(None, parse_path_noscheme(&mut tb).unwrap());
    assert_eq!(":b", rest(&mut tb));

    let mut tb = new_char_buf(b"/a");
    assert_eq!(None, parse_path_noscheme(&mut tb).unwrap());
    assert_eq!("/a", rest(&mut tb));
}

#[test]
fn path_abempty_matches_nothing_as_the_path_without_segments() {
    let mut tb = new_char_buf(b"");
    let path = parse_path_abempty(&mut tb).unwrap().unwrap();
    assert_eq!(false, path.absolute);
    assert_eq!(0, path.segments.len());
    assert_eq!("", path.to_string());
    assert_eq!(0, tb.len());

    let mut tb = new_char_buf(b"foo/bar");
    let path = parse_path_abempty(&mut tb).unwrap().unwrap();
    assert_eq!(false, path.absolute);
    assert_eq!(0, path.segments.len());
    assert_eq!(1, tb.len());
    assert_eq!("foo/bar", rest(&mut tb));
}

#[test]
fn path_abempty_has_a_segment_behind_each_slash() {
    let mut tb = new_char_buf(b"/");
    let path = parse_path_abempty(&mut tb).unwrap().unwrap();
    assert_eq!(true, path.absolute);
    assert_eq!(vec![""], segments(&path));
    assert_eq!("/", path.to_string());

    let mut tb = new_char_buf(b"//a/b/?q");
    let path = parse_path_abempty(&mut tb).unwrap().unwrap();
    assert_eq!(true, path.absolute);
    assert_eq!(vec!["", "a", "b", ""], segments(&path));
    assert_eq!("//a/b/", path.to_string());
    assert_eq!(1, tb.len());
    assert_eq!("?q", rest(&mut tb));
}

#[test]
fn path_empty_looks_and_does_not_take() {
    let mut tb = new_char_buf(b"");
    let path = parse_path_empty(&mut tb).unwrap().unwrap();
    assert_eq!(false, path.absolute);
    assert_eq!(0, path.segments.len());
    assert_eq!(0, tb.len());

    let mut tb = new_char_buf(b"?q");
    let path = parse_path_empty(&mut tb).unwrap().unwrap();
    assert_eq!(false, path.absolute);
    assert_eq!(0, path.segments.len());
    assert_eq!(1, tb.len());
    assert_eq!("?q", rest(&mut tb));

    let mut tb = new_char_buf(b"/a");
    assert!(parse_path_empty(&mut tb).unwrap().is_some());
    assert_eq!("/a", rest(&mut tb));

    let mut tb = new_char_buf(b"a");
    assert_eq!(None, parse_path_empty(&mut tb).unwrap());
    assert_eq!(1, tb.len());
    assert_eq!("a", rest(&mut tb));

    let mut tb = new_char_buf(b"%41");
    assert_eq!(None, parse_path_empty(&mut tb).unwrap());

    let mut tb = new_char_buf(b"%4");
    assert_eq!(Err(EscapeError::TruncatedEscape), parse_path_empty(&mut tb));
}

#[test]
fn paths_hand_on_a_decoding_error() {
    let mut tb = new_char_buf(b"/a/b%zz");
    assert_eq!(Err(EscapeError::InvalidEscape), parse_path(&mut tb));
    let mut tb = new_char_buf(b"a/%");
    assert_eq!(Err(EscapeError::TruncatedEscape), parse_path_rootless(&mut tb));
    let mut tb = new_char_buf(b"%");
    assert_eq!(Err(EscapeError::TruncatedEscape), parse_path_absolute(&mut tb));
    let mut tb = new_char_buf(b"/%G");
    assert_eq!(Err(EscapeError::InvalidEscape), parse_path_abempty(&mut tb));
    let mut tb = new_char_buf(b"a%G");
    assert_eq!(Err(EscapeError::InvalidEscape), parse_path_noscheme(&mut tb));
}

#[test]
fn written_paths_show_zero_segments_and_one_empty_segment_alike() {
    let none = Path { segments: Vec::new(), absolute: false };
    let one = Path { segments: vec![Segment(Vec::new())], absolute: false };
    assert_eq!("", none.to_string());
    assert_eq!("", one.to_string());
    assert_ne!(none, one);
    let mut out = b"x".to_vec();
    one.write_to(&mut out);
    assert_eq!(b"x".to_vec(), out);
    let two = Path { segments: vec![Segment(Vec::new()), Segment(chars("a"))], absolute: true };
    assert_eq!("//a", two.to_string());
}

#[test]
fn what_is_written_is_what_was_matched() {
    let mut tb = new_char_buf(b"/a%2fB/c:d;e=1/?x=%41#frag");
    let path = parse_path(&mut tb).unwrap();
    assert_eq!("/a%2fB/c:d;e=1/", path.to_string());
    let mut out = Vec::new();
    path.write_to(&mut out);
    assert_eq!(b"/a%2fB/c:d;e=1/".to_vec(), out);
    assert_eq!(Ok(Some(Char::Ascii(b'?'))), tb.pop());
    let query = parse_query(&mut tb).unwrap();
    assert_eq!("x=%41", query.to_string());
    assert_eq!(Ok(Some(Char::Ascii(b'#'))), tb.pop());
    let fragment = parse_fragment(&mut tb).unwrap();
    assert_eq!("frag", fragment.to_string());
    let mut out = Vec::new();
    query.write_to(&mut out);
    out.push(b'|');
    fragment.write_to(&mut out);
    assert_eq!(b"x=%41|frag".to_vec(), out);
}

#[test]
fn matching_a_written_node_again_gives_the_same_node() {
    for text in ["", "/", "/foo/bar", "foo/bar", "//x", "a:b//c/", "/%41/b?c", "x}y"] {
        let mut tb = new_char_buf(text.as_bytes());
        let path = parse_path(&mut tb).unwrap();
        let written = path.to_string();
        let mut again = new_char_buf(written.as_bytes());
        assert_eq!(path, parse_path(&mut again).unwrap(), "text {:?}", text);
        assert_eq!(Ok(None), again.pop());

        let mut tb = new_char_buf(text.as_bytes());
        let path = parse_path_abempty(&mut tb).unwrap().unwrap();
        let written = path.to_string();
        let mut again = new_char_buf(written.as_bytes());
        assert_eq!(Some(path), parse_path_abempty(&mut again).unwrap(), "text {:?}", text);

        let mut tb = new_char_buf(text.as_bytes());
        if let Some(path) = parse_path_absolute(&mut tb).unwrap() {
            let written = path.to_string();
            let mut again = new_char_buf(written.as_bytes());
            assert_eq!(Some(path), parse_path_absolute(&mut again).unwrap());
        }

        let mut tb = new_char_buf(text.as_bytes());
        if let Some(path) = parse_path_rootless(&mut tb).unwrap() {
            let written = path.to_string();
            let mut again = new_char_buf(written.as_bytes());
            assert_eq!(Some(path), parse_path_rootless(&mut again).unwrap());
        }

        let mut tb = new_char_buf(text.as_bytes());
        if let Some(path) = parse_path_noscheme(&mut tb).unwrap() {
            let written = path.to_string();
            let mut again = new_char_buf(written.as_bytes());
            assert_eq!(Some(path), parse_path_noscheme(&mut again).unwrap());
        }

        let mut tb = new_char_buf(text.as_bytes());
        if let Some(path) = parse_path_empty(&mut tb).unwrap() {
            let written = path.to_string();
            let mut again = new_char_buf(written.as_bytes());
            assert_eq!(Some(path), parse_path_empty(&mut again).unwrap());
        }

        let mut tb = new_char_buf(text.as_bytes());
        let segment = parse_segment(&mut tb).unwrap();
        let written = segment.to_string();
        let mut again = new_char_buf(written.as_bytes());
        assert_eq!(segment, parse_segment(&mut again).unwrap());

        let mut tb = new_char_buf(text.as_bytes());
        let query = parse_query(&mut tb).unwrap();
        let written = query.to_string();
        let mut again = new_char_buf(written.as_bytes());
        assert_eq!(query, parse_query(&mut again).unwrap());

        let mut tb = new_char_buf(text.as_bytes());
        let fragment = parse_fragment(&mut tb).unwrap();
        let written = fragment.to_string();
        let mut again = new_char_buf(written.as_bytes());
        assert_eq!(fragment, parse_fragment(&mut again).unwrap());
    }
}

#[test]
fn matching_a_written_address_again_gives_the_same_address() {
    for text in ["12.34.56.78.foo", "1.2.3.2444", "255.0.00.007", "9.9.9.9/x"] {
        let mut tb = new_char_buf(text.as_bytes());
        let address = parse_ipv4_address(&mut tb).unwrap().unwrap();
        let mut out = Vec::new();
        address.write_to(&mut out);
        let mut again = new_char_buf(&out);
        assert_eq!(Some(address), parse_ipv4_address(&mut again).unwrap());
        assert_eq!(Ok(None), again.pop());
    }
    for text in ["2555", "0", "19", "007x"] {
        let mut tb = new_char_buf(text.as_bytes());
        let octet = parse_dec_octet(&mut tb).unwrap().unwrap();
        let written = octet.to_string();
        let mut again = new_char_buf(written.as_bytes());
        assert_eq!(Some(octet), parse_dec_octet(&mut again).unwrap());
    }
    for text in ["abcd", "0123456", "FFFF:"] {
        let mut tb = new_char_buf(text.as_bytes());
        let group = parse_h16(&mut tb).unwrap().unwrap();
        let written = group.to_string();
        let mut again = new_char_buf(written.as_bytes());
        assert_eq!(Some(group), parse_h16(&mut again).unwrap());
    }
    for text in ["a:b", "a@b:c", "%3a/"] {
        let mut tb = new_char_buf(text.as_bytes());
        let segment = parse_segment_nz(&mut tb).unwrap().unwrap();
        let written = segment.to_string();
        let mut again = new_char_buf(written.as_bytes());
        assert_eq!(Some(segment), parse_segment_nz(&mut again).unwrap());

        let mut tb = new_char_buf(text.as_bytes());
        let segment = parse_segment_nz_nc(&mut tb).unwrap().unwrap();
        let written = segment.to_string();
        let mut again = new_char_buf(written.as_bytes());
        assert_eq!(Some(segment), parse_segment_nz_nc(&mut again).unwrap());
    }
}

#[test]
fn productions_can_be_tried_one_after_the_other() {
    let mut tb = new_char_buf(b"12.34.56/x");
    assert_eq!(None, parse_ipv4_address(&mut tb).unwrap());
    assert_eq!(None, parse_path_absolute(&mut tb).unwrap());
    let path = parse_path_rootless(&mut tb).unwrap().unwrap();
    assert_eq!(vec!["12.34.56", "x"], segments(&path));
    assert_eq!(Ok(None), tb.pop());
}
