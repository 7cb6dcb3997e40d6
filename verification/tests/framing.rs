use drey::framing::{read_message, write_message, Frame, FrameError};

/// What is read from a stream that ends after `raw`: the body and what follows it.
fn read(raw: &[u8]) -> Result<Option<(Vec<u8>, Vec<u8>)>, FrameError> {
    match read_message(&raw.to_vec(), true)? {
        Frame::Message { body, used } => Ok(Some((body, raw[used..].to_vec()))),
        Frame::Closed => Ok(None),
        Frame::Incomplete => panic!("a stream that has ended is never incomplete"),
    }
}

fn body(raw: &[u8]) -> Vec<u8> {
    read(raw).unwrap().unwrap().0
}

#[test]
fn round_trips() {
    let mut buf = Vec::new();
    write_message(&mut buf, b"{\"a\":1}");
    assert_eq!(buf, b"Content-Length: 7\r\n\r\n{\"a\":1}");

    let (first, rest) = read(&buf).unwrap().unwrap();
    assert_eq!(first, b"{\"a\":1}");
    assert_eq!(read(&rest), Ok(None));
}

#[test]
fn tolerates_extra_headers_and_any_casing() {
    // Header names are case-insensitive, so all three spellings are the same header.
    for name in ["Content-Length", "content-length", "CONTENT-LENGTH"] {
        let raw = format!("{name}: 2\r\nContent-Type: application/vscode-jsonrpc\r\n\r\n{{}}");
        assert_eq!(body(raw.as_bytes()), b"{}", "failed for {name}");
    }
}

#[test]
fn a_header_whose_name_merely_ends_in_content_length_is_not_one() {
    let raw = b"X-Content-Length: 999\r\nContent-Length: 2\r\n\r\n{}";
    assert_eq!(body(raw), b"{}");
}

#[test]
fn rejects_missing_length() {
    assert_eq!(read(b"X-Nonsense: 1\r\n\r\n{}"), Err(FrameError::NoLength));
    assert_eq!(
        FrameError::NoLength.message(),
        "LSP message without Content-Length header"
    );
}

#[test]
fn reassembles_a_message_split_across_reads() {
    let mut wire = Vec::new();
    write_message(&mut wire, b"{\"method\":\"one\"}");
    write_message(&mut wire, b"{\"method\":\"two\"}");

    // One byte at a time, so a reader that assumed a whole header or body arrives in a
    // single read fails here.
    let mut got: Vec<Vec<u8>> = Vec::new();
    let mut buffer: Vec<u8> = Vec::new();
    for b in wire {
        buffer.push(b);
        if let Frame::Message { body, used } = read_message(&buffer, false).unwrap() {
            got.push(body);
            buffer.drain(..used);
        }
    }
    assert_eq!(got, [b"{\"method\":\"one\"}".to_vec(), b"{\"method\":\"two\"}".to_vec()]);
    assert!(matches!(read_message(&buffer, true), Ok(Frame::Closed)));
}

#[test]
fn reads_two_messages_from_one_buffer() {
    let mut wire = Vec::new();
    write_message(&mut wire, b"a");
    write_message(&mut wire, b"bb");
    let (first, rest) = read(&wire).unwrap().unwrap();
    assert_eq!(first, b"a");
    assert_eq!(body(&rest), b"bb");
}

#[test]
fn a_clean_close_before_any_header_is_not_an_error() {
    assert_eq!(read(b""), Ok(None));
    assert!(matches!(read_message(&Vec::new(), false), Ok(Frame::Incomplete)));
}

#[test]
fn a_close_between_headers_is_a_close() {
    assert_eq!(read(b"Content-Length: 2\r\n"), Ok(None));
    assert_eq!(read(b"Content-Length: 2"), Ok(None));
}

#[test]
fn a_truncated_body_is_an_error_not_a_short_message() {
    let raw = b"Content-Length: 10\r\n\r\nshort";
    assert_eq!(read(raw), Err(FrameError::Truncated));
    assert!(matches!(read_message(&raw.to_vec(), false), Ok(Frame::Incomplete)));
    assert_eq!(FrameError::Truncated.message(), "early eof");
}

#[test]
fn rejects_a_non_numeric_length() {
    for raw in [
        &b"Content-Length: nope\r\n\r\n{}"[..],
        &b"Content-Length: -1\r\n\r\n{}"[..],
        &b"Content-Length: 1 2\r\n\r\n{}"[..],
    ] {
        assert_eq!(read(raw), Err(FrameError::BadLength), "{:?}", raw);
    }
    assert_eq!(FrameError::BadLength.message(), "bad Content-Length");
}

#[test]
fn refuses_to_allocate_for_an_absurd_length() {
    // 1 GiB claimed, nothing behind it: the guard must fire before the buffer is reserved.
    let err = read(b"Content-Length: 1073741824\r\n\r\n").unwrap_err();
    assert_eq!(err, FrameError::TooLong { len: 1_073_741_824 });
    assert!(err.message().contains("512 MiB"), "{}", err.message());
}

#[test]
fn an_empty_body_is_a_message_not_a_close() {
    assert_eq!(body(b"Content-Length: 0\r\n\r\n"), b"");
}

#[test]
fn tolerates_bare_lf_line_endings() {
    assert_eq!(body(b"Content-Length: 2\n\n{}"), b"{}");
}

#[test]
fn two_content_length_headers_are_refused() {
    // A peer that sends two disagrees with us about where the message ends.
    let err = read(b"Content-Length: 99\r\nContent-Length: 2\r\n\r\n{}").unwrap_err();
    assert_eq!(err, FrameError::TwoLengths { first: 99, second: 2 });
    let text = err.message();
    assert!(text.contains("two Content-Length headers"), "{text}");
    assert_eq!(text, "two Content-Length headers in one message (99 then 2)");
}

#[test]
fn bodies_are_bytes_not_text() {
    // The length is in bytes, so multi-byte UTF-8 must not be miscounted.
    let sent = "{\"s\":\"héllo 🦀\"}".as_bytes().to_vec();
    let mut wire = Vec::new();
    write_message(&mut wire, &sent);
    assert!(wire.starts_with(format!("Content-Length: {}\r\n", sent.len()).as_bytes()));
    assert_eq!(body(&wire), sent);
}

#[test]
fn any_body_survives_a_write_read_round_trip() {
    for sent in [
        vec![],
        vec![0],
        b"\r\n\r\n".to_vec(),
        b"Content-Length: 3\r\n\r\nabc".to_vec(),
        vec![0xff; 1000],
        (0..=255).collect::<Vec<u8>>(),
    ] {
        let mut wire = Vec::new();
        write_message(&mut wire, &sent);
        let (got, rest) = read(&wire).unwrap().unwrap();
        assert_eq!(got, sent);
        assert_eq!(read(&rest), Ok(None));
    }
}

#[test]
fn a_header_that_is_not_text_is_refused() {
    let err = read(b"Content-Length: 1\r\nX: \xff\r\n\r\na").unwrap_err();
    assert_eq!(err, FrameError::NotText);
    assert_eq!(err.message(), "stream did not contain valid UTF-8");
}

#[test]
fn what_is_sent_is_appended() {
    let mut wire = b"before".to_vec();
    write_message(&mut wire, b"x");
    assert_eq!(wire, b"beforeContent-Length: 1\r\n\r\nx");
}
