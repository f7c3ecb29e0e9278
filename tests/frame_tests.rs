use bamboo::cursor::{get_decimal, get_length_info, get_line, get_u8, get_vec_of_length, peek_u8, skip};
use bamboo::{Cursor, Error, Frame};

fn check_all(buf: &[u8]) -> (Result<(), Error>, usize) {
    let mut c = Cursor::new(buf);
    let r = Frame::check(&mut c);
    (r, c.pos)
}

fn parse_all(buf: &[u8]) -> (Result<Frame, Error>, usize) {
    let mut c = Cursor::new(buf);
    let r = Frame::parse(&mut c);
    (r, c.pos)
}

fn is_incomplete<T>(r: &Result<T, Error>) -> bool {
    matches!(r, Err(Error::Incomplete))
}

fn is_other<T>(r: &Result<T, Error>) -> bool {
    matches!(r, Err(Error::Other(_)))
}

#[test]
fn test_range() {
    let a = vec![1, 2, 3, 4, 5, 6];
    assert_eq!(a[0..3], vec![1, 2, 3]);
}

#[test]
fn it_works() {
    let result = 2 + 2;
    assert_eq!(result, 4);
}

#[test]
fn array_of_bulk_and_integer() {
    let buf = b"*2\r\n$3\r\nfoo\r\n:7\r\n";
    let (r, pos) = parse_all(buf);
    assert_eq!(pos, buf.len());
    match r {
        Ok(Frame::Array(items)) => {
            assert_eq!(items.len(), 2);
            match &items[0] {
                Frame::Bulk(b) => assert_eq!(&b[..], b"foo"),
                other => panic!("unexpected {:?}", other),
            }
            match &items[1] {
                Frame::Integer(n) => assert_eq!(*n, 7),
                other => panic!("unexpected {:?}", other),
            }
        }
        other => panic!("unexpected {:?}", other),
    }
    let (c, cpos) = check_all(buf);
    assert!(c.is_ok());
    assert_eq!(cpos, buf.len());
}

#[test]
fn null_bulk() {
    let (r, pos) = parse_all(b"$-1\r\n");
    assert!(matches!(r, Ok(Frame::Null)));
    assert_eq!(pos, 5);
    assert!(check_all(b"$-1\r\n").0.is_ok());
}

#[test]
fn null_shaped_line_is_malformed() {
    assert!(is_other(&parse_all(b"$-2\r\n").0));
    assert!(is_other(&check_all(b"$-2\r\n").0));
    assert!(is_other(&check_all(b"$-12\r\n").0));
}

#[test]
fn short_bulk_is_incomplete() {
    assert!(is_incomplete(&parse_all(b"$5\r\nfo").0));
    assert!(is_incomplete(&check_all(b"$5\r\nfo").0));
}

#[test]
fn non_decimal_integer_is_malformed() {
    assert!(is_other(&parse_all(b":12x\r\n").0));
    assert!(is_other(&check_all(b":12x\r\n").0));
    assert!(is_other(&check_all(b":\r\n").0));
    assert!(is_other(&check_all(b":+5\r\n").0));
}

#[test]
fn integer_overflow_is_malformed() {
    let (r, _) = parse_all(b":18446744073709551615\r\n");
    assert!(matches!(r, Ok(Frame::Integer(18446744073709551615))));
    assert!(is_other(&parse_all(b":18446744073709551616\r\n").0));
}

#[test]
fn variant_length_frame() {
    let buf = [b'@', 3, 0, 0, 0, b'a', b'b', b'c'];
    let (r, pos) = parse_all(&buf);
    match r {
        Ok(Frame::VariantLength(v)) => assert_eq!(v, b"abc".to_vec()),
        other => panic!("unexpected {:?}", other),
    }
    assert_eq!(pos, 8);
    let (c, cpos) = check_all(&buf);
    assert!(c.is_ok());
    assert_eq!(cpos, 8);
}

#[test]
fn variant_length_leaves_trailing_byte() {
    let buf = [b'@', 3, 0, 0, 0, b'a', b'b', b'c', b'!'];
    let (r, pos) = parse_all(&buf);
    assert!(matches!(r, Ok(Frame::VariantLength(ref v)) if v == b"abc"));
    assert_eq!(pos, 8);
    assert_eq!(check_all(&buf).1, 8);
}

#[test]
fn variant_length_short_is_incomplete() {
    assert!(is_incomplete(&check_all(&[b'@', 3, 0]).0));
    assert!(is_incomplete(&check_all(&[b'@', 3, 0, 0, 0, b'a']).0));
    assert!(is_incomplete(&parse_all(&[b'@', 3, 0, 0, 0, b'a']).0));
}

#[test]
fn variant_length_reads_little_endian() {
    let mut buf = vec![b'@', 0x01, 0x01, 0, 0];
    buf.extend(std::iter::repeat(7u8).take(257));
    let (r, pos) = parse_all(&buf);
    match r {
        Ok(Frame::VariantLength(v)) => assert_eq!(v.len(), 257),
        other => panic!("unexpected {:?}", other),
    }
    assert_eq!(pos, 262);
}

#[test]
fn unknown_marker_is_malformed() {
    let (r, _) = parse_all(b"&foo\r\n");
    match r {
        Err(Error::Other(msg)) => assert!(msg.contains('&')),
        other => panic!("unexpected {:?}", other),
    }
    assert!(is_other(&check_all(b"&foo\r\n").0));
}

#[test]
fn simple_and_error_lines() {
    let (r, pos) = parse_all("+h\u{e9}llo\r\n".as_bytes());
    match r {
        Ok(Frame::Simple(s)) => assert_eq!(s, "h\u{e9}llo"),
        other => panic!("unexpected {:?}", other),
    }
    assert_eq!(pos, 9);
    match parse_all(b"-oops\r\n").0 {
        Ok(Frame::Error(s)) => assert_eq!(s, "oops"),
        other => panic!("unexpected {:?}", other),
    }
}

#[test]
fn invalid_utf8_line_is_malformed_in_both_passes() {
    let buf = [b'+', 0xff, 0xfe, b'\r', b'\n'];
    assert!(is_other(&parse_all(&buf).0));
    assert!(is_other(&check_all(&buf).0));
}

#[test]
fn check_and_parse_agree_on_samples() {
    let samples: Vec<&[u8]> = vec![
        b"", b"+", b"+ok\r\n", b"+ok\r", b"-err\r\n", b":5\r\n", b":5", b"$3\r\nabc\r\n",
        b"$3\r\nab", b"$-1\r\n", b"$-1", b"*0\r\n", b"*1\r\n:1\r\n", b"*2\r\n:1\r\n", b"*2\r\n:1\r\n!\r\n",
        b"?", b"*x\r\n",
    ];
    for s in samples {
        let (c, cpos) = check_all(s);
        let (p, ppos) = parse_all(s);
        assert_eq!(c.is_ok(), p.is_ok());
        assert_eq!(is_incomplete(&c), is_incomplete(&p));
        assert_eq!(is_other(&c), is_other(&p));
        if c.is_ok() {
            assert_eq!(cpos, ppos);
        }
    }
}

#[test]
fn every_cut_of_a_frame_is_incomplete() {
    let buf = b"*3\r\n$3\r\nfoo\r\n:42\r\n+hi\r\n";
    for k in 0..buf.len() {
        assert!(is_incomplete(&check_all(&buf[..k]).0), "cut at {}", k);
        assert!(is_incomplete(&parse_all(&buf[..k]).0), "cut at {}", k);
    }
    let mut longer = buf.to_vec();
    longer.extend_from_slice(b":9\r\n");
    let (c, cpos) = check_all(&longer);
    assert!(c.is_ok());
    assert_eq!(cpos, buf.len());
}

#[test]
fn text_round_trip() {
    match parse_all(b"+hello world\r\n").0 {
        Ok(Frame::Simple(s)) => assert_eq!(s, "hello world"),
        other => panic!("unexpected {:?}", other),
    }
    match parse_all(b"-bad\rthing\r\n").0 {
        Ok(Frame::Error(s)) => assert_eq!(s, "bad\rthing"),
        other => panic!("unexpected {:?}", other),
    }
    match parse_all(b":0\r\n").0 {
        Ok(Frame::Integer(n)) => assert_eq!(n, 0),
        other => panic!("unexpected {:?}", other),
    }
}

#[test]
fn bulk_at_offset_reads_only_its_bytes() {
    let buf = b"XYZ$4\r\nab\r\n\r\ntail";
    let mut c = Cursor::new(buf);
    c.pos = 3;
    match Frame::parse(&mut c) {
        Ok(Frame::Bulk(b)) => assert_eq!(&b[..], b"ab\r\n"),
        other => panic!("unexpected {:?}", other),
    }
    assert_eq!(c.pos, 13);
}

#[test]
fn array_with_missing_elements_is_incomplete() {
    assert!(is_incomplete(&parse_all(b"*3\r\n:1\r\n:2\r\n").0));
    assert!(is_incomplete(&check_all(b"*3\r\n:1\r\n:2\r\n").0));
}

#[test]
fn array_with_malformed_element_is_malformed() {
    assert!(is_other(&parse_all(b"*3\r\n:1\r\n:x\r\n").0));
    assert!(is_other(&check_all(b"*3\r\n:1\r\n:x\r\n").0));
}

#[test]
fn nested_array() {
    match parse_all(b"*2\r\n*1\r\n:1\r\n$0\r\n\r\n").0 {
        Ok(Frame::Array(items)) => {
            assert_eq!(items.len(), 2);
            assert!(matches!(&items[0], Frame::Array(inner) if inner.len() == 1));
            assert!(matches!(&items[1], Frame::Bulk(b) if b.is_empty()));
        }
        other => panic!("unexpected {:?}", other),
    }
}

#[test]
fn push_builds_array() {
    let mut f = Frame::array();
    f.push_int(5);
    f.push_bulk(bytes::Bytes::from_static(b"xy"));
    match f {
        Frame::Array(items) => {
            assert_eq!(items.len(), 2);
            assert!(matches!(items[0], Frame::Integer(5)));
            assert!(matches!(&items[1], Frame::Bulk(b) if &b[..] == b"xy"));
        }
        other => panic!("unexpected {:?}", other),
    }
}

#[test]
fn cursor_helpers() {
    let buf = b"ab\r\n12\r\n";
    let mut c = Cursor::new(buf);
    assert_eq!(peek_u8(&mut c).ok(), Some(b'a'));
    assert_eq!(c.pos, 0);
    assert_eq!(get_u8(&mut c).ok(), Some(b'a'));
    assert_eq!(c.pos, 1);
    assert_eq!(get_line(&mut c).ok(), Some(&b"b"[..]));
    assert_eq!(c.pos, 4);
    assert_eq!(get_decimal(&mut c).ok(), Some(12));
    assert_eq!(c.pos, 8);
    assert!(is_incomplete(&get_u8(&mut c)));
    assert!(is_incomplete(&peek_u8(&mut c)));
    let mut d = Cursor::new(buf);
    assert!(is_incomplete(&skip(&mut d, 9)));
    assert_eq!(d.pos, 0);
    assert!(skip(&mut d, 8).is_ok());
    assert_eq!(d.pos, 8);
}

#[test]
fn length_field_helpers() {
    let buf = [2u8, 0, 0, 0, b'h', b'i'];
    let mut c = Cursor::new(&buf);
    assert_eq!(get_length_info(&mut c).ok(), Some(2));
    assert_eq!(c.pos, 0);
    assert_eq!(get_vec_of_length(&mut c).ok(), Some(&b"hi"[..]));
    assert_eq!(c.pos, 6);
    let short = [3u8, 0, 0, 0, b'h'];
    let mut s = Cursor::new(&short);
    assert!(is_incomplete(&get_length_info(&mut s)));
}

#[test]
fn render_forms() {
    assert_eq!(Frame::Integer(42).render(), "42");
    assert_eq!(Frame::Null.render(), "(nil)");
    assert_eq!(Frame::Simple("OK".to_string()).render(), "OK");
    assert_eq!(Frame::Error("boom".to_string()).render(), "error: boom");
    assert_eq!(Frame::Bulk(bytes::Bytes::from_static(b"abc")).render(), "abc");
    assert_eq!(Frame::Bulk(bytes::Bytes::from_static(&[0xff])).render(), "b\"\\xff\"");
    assert_eq!(Frame::VariantLength(vec![1]).render(), "variant length");
    assert_eq!(Frame::FixedLength(vec![1]).render(), "fixed length");
    assert_eq!(Frame::Sample(vec![1]).render(), "sample data");
    assert_eq!(Frame::Command(vec![1]).render(), "command");
}

#[test]
fn render_array_joins_every_element() {
    let f = Frame::Array(vec![Frame::Integer(1), Frame::Integer(2), Frame::Null]);
    assert_eq!(f.render(), "1 2 (nil)");
    assert_eq!(Frame::array().render(), "");
}

#[test]
fn unexpected_frame_error() {
    match Frame::Integer(9).to_error() {
        Error::Other(m) => assert_eq!(m, "unexpected frame: 9"),
        other => panic!("unexpected {:?}", other),
    }
}

#[test]
fn error_messages() {
    assert_eq!(Error::Incomplete.to_string(), "stream ended early");
    assert_eq!(Error::Other("bad".to_string()).to_string(), "bad");
}

#[test]
fn frame_equals_text() {
    assert!(Frame::Simple("OK".to_string()).eq_str("OK"));
    assert!(!Frame::Simple("OK".to_string()).eq_str("ok"));
    assert!(Frame::Bulk(bytes::Bytes::from_static(b"hi")).eq_str("hi"));
    assert!(!Frame::Bulk(bytes::Bytes::from_static(b"hi")).eq_str("hip"));
    assert!(!Frame::Integer(1).eq_str("1"));
}

#[test]
fn read_frame_reports_consumed_length() {
    let buf = b":5\r\n+next\r\n";
    match bamboo::frame::read_frame(buf) {
        Ok((Frame::Integer(5), used)) => assert_eq!(used, 4),
        other => panic!("unexpected {:?}", other),
    }
    assert!(is_incomplete(&bamboo::frame::read_frame(b":5\r")));
    assert!(is_other(&bamboo::frame::read_frame(b"!5\r\n")));
}

#[test]
fn encode_text_frames_round_trip() {
    let frames = vec![
        Frame::Simple("h\u{e9}llo there".to_string()),
        Frame::Error("bad\rthing".to_string()),
        Frame::Integer(0),
        Frame::Integer(18446744073709551615),
    ];
    for f in frames {
        let wire = f.encode().expect("text frames have a wire form");
        let (r, pos) = parse_all(&wire);
        assert_eq!(pos, wire.len());
        let back = r.expect("round trip");
        assert_eq!(back.render(), f.render());
        assert_eq!(back.encode(), Some(wire));
    }
}

#[test]
fn encode_exact_bytes() {
    assert_eq!(Frame::Integer(407).encode(), Some(b":407\r\n".to_vec()));
    assert_eq!(Frame::Null.encode(), Some(b"$-1\r\n".to_vec()));
    assert_eq!(Frame::Bulk(bytes::Bytes::from_static(b"foo")).encode(), Some(b"$3\r\nfoo\r\n".to_vec()));
    assert_eq!(Frame::VariantLength(b"abc".to_vec()).encode(), Some(vec![b'@', 3, 0, 0, 0, b'a', b'b', b'c']));
    let arr = Frame::Array(vec![Frame::Bulk(bytes::Bytes::from_static(b"foo")), Frame::Integer(7)]);
    assert_eq!(arr.encode(), Some(b"*2\r\n$3\r\nfoo\r\n:7\r\n".to_vec()));
    assert_eq!(Frame::Sample(vec![1]).encode(), None);
    assert_eq!(Frame::Array(vec![Frame::Integer(1), Frame::Command(vec![])]).encode(), None);
}
