use mu::sse::{take_line, Sse, StreamError};

fn sources(events: Vec<mu::sse::Payload>) -> Vec<String> {
    events.into_iter().map(|e| e.source).collect()
}

#[test]
fn events_end_at_empty_lines() {
    let mut sse = Sse::default();
    let events = sse.feed(b"event: x\ndata: {\"a\":1}\n\ndata:{\"b\":2}\r\n\r\n").unwrap();
    assert_eq!(events[0].value.unsigned("a"), Some(1));
    assert_eq!(events[1].value.unsigned("b"), Some(2));
    assert_eq!(sources(events), ["{\"a\":1}", "{\"b\":2}"]);
    assert!(sse.pending.is_empty());
    assert!(sse.data.is_empty());
}

#[test]
fn chunks_do_not_matter() {
    let stream = "data: {\"t\":\"é…\",\ndata: \"u\":[1,\ndata: 2]}\n\n: note\ndata: [DONE]\n\ndata: 7\n\n".as_bytes();
    let mut whole = Sse::default();
    let expected = sources(whole.feed(stream).unwrap());
    assert_eq!(expected, ["{\"t\":\"é…\",\n\"u\":[1,\n2]}", "7"]);
    for cut in 0..=stream.len() {
        let mut sse = Sse::default();
        let mut events = sources(sse.feed(&stream[..cut]).unwrap());
        events.extend(sources(sse.feed(&stream[cut..]).unwrap()));
        assert_eq!(events, expected, "{cut}");
    }
    let mut sse = Sse::default();
    let mut events = vec![];
    for byte in stream {
        events.extend(sources(sse.feed(&[*byte]).unwrap()));
    }
    assert_eq!(events, expected);
}

#[test]
fn only_one_space_is_taken_off() {
    let mut data = String::new();
    assert_eq!(take_line(&mut data, &"data:  x".chars().collect::<Vec<_>>()), None);
    assert_eq!(data, " x");
    assert_eq!(take_line(&mut data, &"data".chars().collect::<Vec<_>>()), None);
    assert_eq!(take_line(&mut data, &"data:y\r\n".chars().collect::<Vec<_>>()), None);
    assert_eq!(data, " x\ny");
    assert_eq!(take_line(&mut data, &"\r\n".chars().collect::<Vec<_>>()), Some(" x\ny".to_string()));
    assert_eq!(data, "");
    assert_eq!(take_line(&mut data, &['\n']), None);
}

#[test]
fn done_is_no_event() {
    let mut data = " [DONE] ".to_string();
    assert_eq!(take_line(&mut data, &[]), None);
    assert_eq!(data, "");
}

#[test]
fn bad_streams_are_refused() {
    let mut sse = Sse::default();
    assert_eq!(sse.feed(b"data: {\n\n").unwrap_err().message(), "EOF while parsing an object at line 1 column 1");
    let mut sse = Sse::default();
    let e = sse.feed(b"data: \xff\n").unwrap_err();
    assert!(matches!(e, StreamError::Text(_)));
    assert_eq!(e.message(), "invalid utf-8 sequence of 1 bytes from index 6");
    let mut sse = Sse::default();
    assert!(sse.feed(&vec![b'x'; 32 * 1024 * 1024]).unwrap().is_empty());
    assert_eq!(sse.feed(b"x").unwrap_err().message(), "SSE event exceeds 32 MiB");
}

#[test]
fn a_broken_line_is_passed_over() {
    let mut sse = Sse::default();
    assert!(sse.feed(b"data: 1\n\xff\nrest").is_err());
    assert_eq!((sse.pending.as_slice(), sse.data.as_str()), (&b"rest"[..], "1"));
    let mut sse = Sse::default();
    assert!(sse.feed(b"data: {\n\ndata: 2\n\n").is_err());
    assert_eq!((sse.pending.as_slice(), sse.data.as_str()), (&b"data: 2\n\n"[..], "{"));
}
