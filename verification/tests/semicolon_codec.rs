use bytes::BytesMut;
use protohackers::mob_in_the_middle::semicolon_codec::{
    utf8, SemicolonCodec, SemicolonCodecCodecError,
};

fn line(got: Result<Option<String>, SemicolonCodecCodecError>) -> Option<String> {
    match got {
        Ok(found) => found,
        Err(error) => panic!("unexpected error: {:?}", error),
    }
}

#[test]
fn semicolon_codec_test() {
    let mut codec = SemicolonCodec::new();
    let mut buf = BytesMut::new();
    assert!(codec.encode("I 1 1", &mut buf).is_ok());
    assert!(codec.encode("222", &mut buf).is_ok());
    assert_eq!(&buf[..], b"I 1 1;222;");
    assert_eq!(line(codec.decode(&mut buf)), Some("I 1 1".to_string()));
    assert_eq!(line(codec.decode(&mut buf)), Some("222".to_string()));
    assert_eq!(line(codec.decode(&mut buf)), None);
}

#[test]
fn a_new_codec_has_no_limit_and_has_searched_nothing() {
    let codec = SemicolonCodec::new();
    assert_eq!(codec.max_length(), usize::MAX);
    assert_eq!(codec.next_index(), 0);
    let codec = SemicolonCodec::with_capacity(12);
    assert_eq!(codec.max_length(), 12);
    assert_eq!(codec.next_index(), 0);
}

#[test]
fn a_line_ends_at_its_semicolon() {
    let mut codec = SemicolonCodec::new();
    let mut buf = BytesMut::from(&b"3 3 3;rest"[..]);
    assert_eq!(line(codec.decode(&mut buf)), Some("3 3 3".to_string()));
    assert_eq!(&buf[..], b"rest");
    assert_eq!(codec.next_index(), 0);
}

#[test]
fn an_empty_line_is_a_line() {
    let mut codec = SemicolonCodec::new();
    let mut buf = BytesMut::from(&b";;x;"[..]);
    assert_eq!(line(codec.decode(&mut buf)), Some(String::new()));
    assert_eq!(line(codec.decode(&mut buf)), Some(String::new()));
    assert_eq!(line(codec.decode(&mut buf)), Some("x".to_string()));
    assert!(buf.is_empty());
}

#[test]
fn a_line_without_its_semicolon_waits_and_is_not_searched_twice() {
    let mut codec = SemicolonCodec::new();
    let mut buf = BytesMut::from(&b"abc"[..]);
    assert_eq!(line(codec.decode(&mut buf)), None);
    assert_eq!(codec.next_index(), 3);
    assert_eq!(&buf[..], b"abc");
    buf.extend_from_slice(b"de;f");
    assert_eq!(line(codec.decode(&mut buf)), Some("abcde".to_string()));
    assert_eq!(codec.next_index(), 0);
    assert_eq!(&buf[..], b"f");
}

#[test]
fn a_line_of_the_maximum_length_is_read() {
    let mut codec = SemicolonCodec::with_capacity(5);
    let mut buf = BytesMut::from(&b"12345;"[..]);
    assert_eq!(line(codec.decode(&mut buf)), Some("12345".to_string()));
    let mut buf = BytesMut::from(&b"12345"[..]);
    assert_eq!(line(codec.decode(&mut buf)), None);
}

#[test]
fn a_line_over_the_maximum_length_is_an_error_and_is_thrown_away() {
    let mut codec = SemicolonCodec::with_capacity(5);
    let mut buf = BytesMut::from(&b"123456"[..]);
    assert!(matches!(
        codec.decode(&mut buf),
        Err(SemicolonCodecCodecError::MaxLineLengthExceeded)
    ));
    assert_eq!(&buf[..], b"123456");
    buf.extend_from_slice(b"789;ok;");
    assert_eq!(line(codec.decode(&mut buf)), Some("ok".to_string()));
    assert!(buf.is_empty());
}

#[test]
fn throwing_away_goes_on_until_the_semicolon_comes() {
    let mut codec = SemicolonCodec::with_capacity(3);
    let mut buf = BytesMut::from(&b"abcdefgh"[..]);
    assert!(matches!(
        codec.decode(&mut buf),
        Err(SemicolonCodecCodecError::MaxLineLengthExceeded)
    ));
    assert_eq!(line(codec.decode(&mut buf)), None);
    assert!(buf.is_empty());
    buf.extend_from_slice(b"ij");
    assert_eq!(line(codec.decode(&mut buf)), None);
    assert!(buf.is_empty());
    buf.extend_from_slice(b"k;xy;z");
    assert_eq!(line(codec.decode(&mut buf)), Some("xy".to_string()));
    assert_eq!(&buf[..], b"z");
}

#[test]
fn a_line_that_is_not_utf8_is_an_io_error_and_leaves_the_buffer() {
    let mut codec = SemicolonCodec::new();
    let mut buf = BytesMut::from(&[0xffu8, 0xfe, b';', b'o', b'k', b';'][..]);
    match codec.decode(&mut buf) {
        Err(SemicolonCodecCodecError::Io(error)) => {
            assert_eq!(error.kind(), std::io::ErrorKind::InvalidData);
            assert_eq!(error.to_string(), "Unable to decode input as UTF8");
        }
        other => panic!("unexpected: {:?}", other),
    }
    assert_eq!(line(codec.decode(&mut buf)), Some("ok".to_string()));
}

#[test]
fn utf8_accepts_text_and_nothing_else() {
    assert_eq!(utf8(b"hello").unwrap(), "hello");
    assert_eq!(utf8("Zürich".as_bytes()).unwrap(), "Zürich");
    assert_eq!(utf8(b"").unwrap(), "");
    let error = utf8(&[0x80]).unwrap_err();
    assert_eq!(error.kind(), std::io::ErrorKind::InvalidData);
}

#[test]
fn an_io_error_becomes_a_codec_error() {
    let error = std::io::Error::new(std::io::ErrorKind::BrokenPipe, "gone");
    match SemicolonCodecCodecError::from(error) {
        SemicolonCodecCodecError::Io(inner) => {
            assert_eq!(inner.kind(), std::io::ErrorKind::BrokenPipe)
        }
        other => panic!("unexpected: {:?}", other),
    }
}

#[test]
fn encode_appends_the_line_and_a_semicolon() {
    let mut codec = SemicolonCodec::with_capacity(2);
    let mut buf = BytesMut::from(&b"kept"[..]);
    assert!(codec.encode("", &mut buf).is_ok());
    assert!(codec.encode("a;b", &mut buf).is_ok());
    assert!(codec.encode("Zürich", &mut buf).is_ok());
    assert_eq!(&buf[..], "kept;a;b;Zürich;".as_bytes());
    assert_eq!(codec, SemicolonCodec::with_capacity(2));
}
