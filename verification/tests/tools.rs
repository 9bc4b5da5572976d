use base64::{engine::general_purpose::STANDARD, Engine};
use mu::block::{ToolOutput, ToolStatus};
use mu::json::Json;
use mu::process::Exit;
use mu::tools::{
    bash, image, image_fits, mime, publishes, requested, timeout, view_image, Capture, HALF, MAX_IMAGES, PREVIEW_LIMIT,
};

fn exit(code: i32) -> Exit {
    Exit { code, timed_out: false, cancelled: false }
}

fn output(text: &str) -> ToolOutput {
    ToolOutput { text: text.into(), log: None, truncated: false }
}

#[test]
fn small_output_is_kept_whole() {
    let mut capture = Capture::default();
    assert!(!capture.spills(b"hello"));
    capture.push(b"hello ");
    capture.push(b"world");
    let preview = capture.preview();
    assert_eq!(preview.text, "hello world");
    assert!(!preview.truncated);
    assert_eq!(preview.log, None);
    assert_eq!(capture.backlog(), b"hello world");
    assert_eq!(capture.total(), 11);
}

#[test]
fn characters_cut_by_chunks_are_whole_again() {
    let mut capture = Capture::default();
    for byte in "aé…𝄞".bytes() {
        capture.push(&[byte]);
    }
    assert_eq!(capture.preview().text, "aé…𝄞");
    capture.push(b"\xff");
    assert_eq!(capture.preview().text, "aé…𝄞\u{fffd}");
}

#[test]
fn long_output_keeps_its_beginning_and_its_end() {
    let data: Vec<u8> = (0..200_000u32).map(|i| b'a' + (i / 7 % 26) as u8).collect();
    let mut capture = Capture::default();
    let mut log: Option<Vec<u8>> = None;
    let mut rest = &data[..];
    let mut size = 1;
    while !rest.is_empty() {
        let (chunk, more) = rest.split_at(size.min(rest.len()));
        if capture.spills(chunk) {
            assert!(log.is_none());
            log = Some(capture.backlog());
            capture.logged("/tmp/log".into());
        }
        if let Some(log) = &mut log {
            log.extend_from_slice(chunk);
        }
        capture.push(chunk);
        rest = more;
        size = size * 3 % 10_007;
    }
    assert_eq!(log.unwrap(), data);
    let preview = capture.preview();
    assert!(preview.truncated);
    assert_eq!(preview.log.as_deref(), Some("/tmp/log"));
    let expected = format!(
        "{}\n[… {} bytes omitted …]\n{}",
        String::from_utf8_lossy(&data[..HALF]),
        data.len() - PREVIEW_LIMIT,
        String::from_utf8_lossy(&data[data.len() - HALF..])
    );
    assert_eq!(preview.text, expected);
    let mut at_once = Capture::default();
    at_once.push(&data);
    assert_eq!(at_once.shown(), capture.shown());
}

#[test]
fn the_limit_itself_needs_no_log() {
    let mut capture = Capture::default();
    capture.push(&vec![b'x'; PREVIEW_LIMIT - 1]);
    assert!(!capture.spills(b"y"));
    assert!(capture.spills(b"yz"));
    capture.push(b"y");
    assert!(!capture.preview().truncated);
    assert_eq!(capture.backlog().len(), PREVIEW_LIMIT);
    assert!(!capture.spills(b""));
}

#[test]
fn output_is_shown_at_once_and_then_at_times() {
    assert!(!publishes(0, 0, u128::MAX));
    assert!(publishes(1, 0, 0));
    assert!(!publishes(2, 1, 99_999_999));
    assert!(publishes(2, 1, 100_000_000));
    assert!(!publishes(2, 2, 100_000_000));
}

#[test]
fn timeouts_are_positive() {
    assert_eq!(timeout(None), Ok(120_000));
    assert_eq!(timeout(Some(5)), Ok(5));
    assert_eq!(timeout(Some(0)), Err("timeoutMs must be positive".to_string()));
}

#[test]
fn pictures_are_told_by_their_beginning() {
    assert_eq!(mime(b"\x89PNG\r\n\x1a\nrest"), Some("image/png"));
    assert_eq!(mime(b"\x89PNG\r\n\x1a"), None);
    assert_eq!(mime(b"\xff\xd8\xff"), Some("image/jpeg"));
    assert_eq!(mime(b"GIF87a"), Some("image/gif"));
    assert_eq!(mime(b"GIF89a.."), Some("image/gif"));
    assert_eq!(mime(b"GIF88a"), None);
    assert_eq!(mime(b"RIFF....WEBP"), Some("image/webp"));
    assert_eq!(mime(b"RIFF....WEB"), None);
    assert_eq!(mime(b""), None);
}

#[test]
fn pictures_are_sent_in_base64() {
    for n in 0..40 {
        let mut bytes = b"GIF89a".to_vec();
        bytes.extend((0..n).map(|i| (i * 37 + 200) as u8));
        let part = image(&bytes).unwrap();
        assert!(part.text_is("type", "input_image"));
        assert_eq!(part.text("image_url").unwrap(), &format!("data:image/gif;base64,{}", STANDARD.encode(&bytes)));
    }
    assert_eq!(image(b"GIF89a").unwrap().text("image_url").unwrap(), "data:image/gif;base64,R0lGODlh");
    assert_eq!(image(b"GIF89a\xfb").unwrap().text("image_url").unwrap(), "data:image/gif;base64,R0lGODlh+w==");
    assert_eq!(image(b"GIF89a\xff\xff").unwrap().text("image_url").unwrap(), "data:image/gif;base64,R0lGODlh//8=");
}

#[test]
fn other_files_are_no_pictures() {
    assert_eq!(image(b"plain").unwrap_err(), "Expected PNG, JPEG, GIF or WebP");
    let mut large = b"GIF89a".to_vec();
    large.resize(20 * 1024 * 1024 + 1, 0);
    assert_eq!(image(&large).unwrap_err(), "Image exceeds 20 MiB");
    assert_eq!(image_fits(20 * 1024 * 1024), Ok(()));
    assert_eq!(image_fits(20 * 1024 * 1024 + 1).unwrap_err(), "Image exceeds 20 MiB");
}

#[test]
fn commands_end_in_their_status() {
    let cancelled = Exit { code: -1, timed_out: true, cancelled: true };
    let late = Exit { code: -1, timed_out: true, cancelled: false };
    assert_eq!(bash(output("x"), cancelled, 5, vec![]).status, ToolStatus::Cancelled);
    assert_eq!(bash(output("x"), late, 5, vec![]).status, ToolStatus::TimedOut(5));
    assert_eq!(bash(output("x"), exit(3), 5, vec![]).status, ToolStatus::Exited(3));
}

#[test]
fn pictures_of_a_command_are_shown_or_complained_of() {
    let part = image(b"GIF89a").unwrap();
    let found = vec![Err("no such file".to_string()), Ok(("/a b".to_string(), part)), Err("too large".to_string())];
    let result = bash(output("out"), exit(0), 5, found);
    assert_eq!(result.output.text, "out\n[view_image: no such file]\n[view_image: too large]");
    assert_eq!(result.images.len(), 1);
    let message = &result.images[0];
    assert!(message.text_is("role", "user"));
    let content = message.array("content").unwrap();
    assert!(content[0].text_is("type", "input_text"));
    assert!(content[0].text_is("text", "view_image: /a b"));
    assert!(content[1].text_is("type", "input_image"));
}

#[test]
fn a_picture_is_asked_for_by_a_line() {
    let path = "/tmp/a \"b\"\\c\n\t\u{1}é.png";
    let line = view_image(path);
    assert_eq!(line, format!("{}\n", serde_json::to_string(path).unwrap()));
    assert_eq!(serde_json::from_str::<String>(&line).unwrap(), path);
    match Json::parse(&line) {
        Ok(Json::Text(read)) => assert_eq!(read, path),
        other => panic!("{other:?}"),
    }
}

#[test]
fn pictures_asked_for_are_found() {
    let paths = ["/a b.png", "/say \"hi\"\\.gif", "/tab\there\u{1}\u{7f}é…"];
    let mut lines: Vec<Result<String, String>> =
        paths.iter().map(|p| Ok(view_image(p).strip_suffix('\n').unwrap().to_string())).collect();
    assert_eq!(requested(lines.clone()), paths.iter().map(|p| Ok(p.to_string())).collect::<Vec<_>>());
    lines.push(Err("not text".into()));
    lines.push(Ok("5".into()));
    lines.push(Ok("\"a\" b".into()));
    let found = requested(lines.clone());
    assert_eq!(found[3], Err("not text".into()));
    assert_eq!(found[4], Err("invalid type: integer `5`, expected path string at line 1 column 1".into()));
    assert_eq!(found[5], Err("trailing characters at line 1 column 5".into()));
    lines.extend(lines.clone());
    assert_eq!(requested(lines).len(), MAX_IMAGES);
}
