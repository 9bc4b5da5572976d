use mu::app::App;
use mu::block::{Block, Kind};
use mu::input::Message;
use mu::json::Json;
use mu::screen::{draw, Frame, Row};
use mu::session::{Model, Record, Session, Usage};
use mu::transcript::{transcript_line_count, visible};
use mu::ui::Color;

fn app() -> App {
    let model = Model { name: "m".into(), effort: Some("high".into()), context: 272_000 };
    App::new(Session::new("1-2".into(), "/w".into(), "do".into(), model), vec![])
}

fn reply(app: &mut App, text: &str, usage: Usage) {
    let item = format!(r#"{{"type":"message","content":[{{"type":"output_text","text":"{text}"}}]}}"#);
    app.session.push(vec![Record::Item { item: Json::parse(&item).unwrap() }], Some(usage));
}

fn text(row: &Row) -> String {
    row.spans.iter().map(|s| s.text.as_str()).collect()
}

fn texts(frame: &Frame) -> Vec<String> {
    frame.rows.iter().map(text).collect()
}

fn status(frame: &Frame) -> String {
    frame.status.iter().map(|s| s.text.as_str()).collect()
}

#[test]
fn small_screens_show_nothing() {
    let mut a = app();
    assert!(draw(&mut a, 3, 5).is_none());
    assert!(draw(&mut a, 4, 4).is_none());
    assert!(draw(&mut a, 4, 5).is_some());
}

#[test]
fn an_empty_conversation() {
    let mut a = app();
    let frame = draw(&mut a, 90, 8).unwrap();
    assert_eq!(
        texts(&frame),
        [
            "! mu · Ctrl+O to expand/collapse · PgUp/PgDn to scroll",
            "",
            "",
            "",
            &"─".repeat(90),
            "›  ",
            &"─".repeat(90)
        ]
    );
    assert_eq!(frame.rows[0].spans[0].color, Color::Yellow);
    assert_eq!(frame.rows[5].spans[0].color, Color::Accent);
    assert_eq!(status(&frame), " ↑0 ↓0 | cache 0 read 0.0% | ctx 0/272.0k ");
    assert_eq!(frame.status[2].color, Color::Accent);
    assert_eq!(frame.status[1].color, Color::Gray);
    assert_eq!(frame.model, "m high ");
    assert_eq!(frame.model_column, 83);
    assert_eq!(frame.cursor, Some((2, 5)));
}

#[test]
fn the_last_row_tells_the_usage() {
    let mut a = app();
    reply(&mut a, "a", Usage { input: 1_500, output: 20, cached: Some(500) });
    reply(&mut a, "b", Usage { input: 2_500, output: 30, cached: Some(1_500) });
    a.working = true;
    let frame = draw(&mut a, 80, 6).unwrap();
    assert_eq!(status(&frame), " ↑2.0k ↓50 | cache 2.0k read 50.0% | ctx 2.5k/272.0k ");
    assert_eq!(frame.model, "· m high ");
    reply(&mut a, "c", Usage { input: 1, output: 1, cached: None });
    let frame = draw(&mut a, 80, 6).unwrap();
    assert_eq!(status(&frame), " ↑2.0k ↓51 | cache ? read ? | ctx 2/272.0k ");
    let frame = draw(&mut a, 20, 6).unwrap();
    assert_eq!(status(&frame), " ↑2.0k ↓51");
    assert_eq!(frame.model_column, 11);
    let frame = draw(&mut a, 9, 6).unwrap();
    assert_eq!((frame.status.len(), frame.model.as_str(), frame.model_column), (0, "· m high", 1));
}

#[test]
fn the_transcript_is_shown_in_order() {
    let mut a = app();
    a.session.user("ask".into(), vec![]);
    reply(&mut a, "told", Usage { input: 0, output: 0, cached: None });
    a.live_notice = Some(Block::new(Kind::Warning, "marked".into()));
    a.live.push(Block::new(Kind::Thought, "hm".into()));
    a.feedback.push(Block::new(Kind::Notice, "note".into()));
    a.queued.push(Message { text: "next".into(), attachments: vec![] });
    let (lines, scroll) = visible(&a, 60, 50);
    let shown: Vec<_> = lines.iter().map(|l| l.text.as_str()).collect();
    assert_eq!(
        shown,
        [
            "! mu · Ctrl+O to expand/collapse · PgUp/PgDn to scroll",
            "› ask",
            "",
            "  told",
            "",
            "! marked",
            "  hm",
            "",
            "! note",
            "! queued: next"
        ]
    );
    assert_eq!(scroll, 0);
    assert_eq!(transcript_line_count(&a, 60), 10);
    assert!(lines[6].italic);
}

#[test]
fn scrolling_ends_with_the_transcript() {
    let mut a = app();
    for i in 0..10 {
        a.notice(&format!("{i}"));
    }
    let rows = |a: &mut App| texts(&draw(a, 70, 8).unwrap())[..4].to_vec();
    assert_eq!(rows(&mut a), ["! 6", "! 7", "! 8", "! 9"]);
    a.scroll = 3;
    assert_eq!(rows(&mut a), ["! 3", "! 4", "! 5", "! 6"]);
    assert_eq!(a.scroll, 3);
    a.scroll = usize::MAX;
    assert_eq!(rows(&mut a)[1..], ["! 0", "! 1", "! 2"]);
    assert_eq!(a.scroll, 7);
}

#[test]
fn the_input_grows_to_six_rows() {
    let mut a = app();
    a.paste("1\n2\n3\n4\n5\n6\n7\n8");
    let frame = draw(&mut a, 10, 12).unwrap();
    assert_eq!(texts(&frame)[4..10], ["  3", "  4", "  5", "  6", "  7", "  8 "]);
    assert_eq!(frame.cursor, Some((3, 9)));
    a.editor.cursor = 0;
    let frame = draw(&mut a, 10, 12).unwrap();
    assert_eq!(texts(&frame)[4..6], ["› 1", "  2"]);
    assert_eq!(frame.cursor, Some((2, 4)));
    let frame = draw(&mut a, 10, 5).unwrap();
    assert_eq!(texts(&frame)[2], "› 1");
}

#[test]
fn the_screen_is_filled() {
    let mut a = app();
    a.paste("some text that takes more than one row\nand another");
    for width in 4..40 {
        for height in 5..16 {
            for cursor in [0, 10, 25, a.editor.chars.len()] {
                a.editor.cursor = cursor;
                let frame = draw(&mut a, width, height).unwrap();
                assert_eq!(frame.rows.len(), height - 1);
                let (column, row) = frame.cursor.unwrap();
                assert!(column < width && row < height - 2);
            }
        }
    }
}

#[test]
fn menus_stand_over_the_transcript() {
    let mut a = app();
    a.paste("/");
    a.refresh_completion(&vec![], false);
    let frame = draw(&mut a, 40, 8).unwrap();
    let shown = texts(&frame);
    assert_eq!(shown[0], "› /copy  [agent|user]");
    assert_eq!(shown[3], "  /quit  quit");
    assert_eq!(frame.rows[0].spans[0].color, Color::Accent);
    assert_eq!(frame.rows[1].spans[0].color, Color::Gray);
    a.completion.as_mut().unwrap().selected = 5;
    let shown = texts(&draw(&mut a, 40, 8).unwrap());
    assert_eq!(shown[3], "› /tree  conversation tree");
}

#[test]
fn pickers_take_the_screen() {
    let mut a = app();
    let list = (0..9).map(|i| (format!("/d/{i}.jsonl"), format!("session {i}"))).collect();
    a.listed(Ok(list));
    let frame = draw(&mut a, 40, 8).unwrap();
    assert_eq!(texts(&frame)[..4], ["resume session", "› session 0", "  session 1", "  session 2"]);
    assert_eq!(frame.cursor, None);
    a.picker.as_mut().unwrap().selected = 8;
    let frame = draw(&mut a, 40, 8).unwrap();
    assert_eq!(texts(&frame)[..4], ["resume session", "  session 6", "  session 7", "› session 8"]);
}

#[test]
fn calls_have_a_colored_bullet() {
    let mut a = app();
    let item = r#"{"type":"function_call","name":"bash","call_id":"c","arguments":"{\"command\":\"ls\"}"}"#;
    a.session.push(vec![Record::Item { item: Json::parse(item).unwrap() }], None);
    let frame = draw(&mut a, 70, 10).unwrap();
    let row = &frame.rows[1];
    assert_eq!(row.spans.len(), 2);
    assert_eq!((row.spans[0].text.as_str(), row.spans[0].color), ("●", Color::Gray));
    assert_eq!((row.spans[1].text.as_str(), row.spans[1].color), (" ls", Color::Plain));
    assert_eq!(text(&frame.rows[2]), "  └ pending");
}
