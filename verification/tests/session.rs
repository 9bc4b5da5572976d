use mu::block::{Kind, Tool, ToolOutput, ToolStatus};
use mu::json::Json;
use mu::session::{
    contents, file_name, first_line, is_log, read_lines, sessions, state_dir, unique_id, Found, Header, Model, Node, Record,
    Session, SessionError, Usage,
};

fn model(name: &str) -> Model {
    Model { name: name.into(), effort: Some("high".into()), context: 1_000 }
}

fn session() -> Session {
    Session::new("1-2".into(), "/w".into(), "do".into(), model("m"))
}

fn usage(input: u64, output: u64, cached: Option<u64>) -> Usage {
    Usage { input, output, cached }
}

fn agent(text: &str) -> Record {
    let item = format!(r#"{{"type":"message","content":[{{"type":"output_text","text":"{text}"}}]}}"#);
    Record::Item { item: Json::parse(&item).unwrap() }
}

fn tool(id: &str, text: &str) -> Record {
    Record::Tool(Tool {
        call_id: id.into(),
        status: ToolStatus::Exited(0),
        output: ToolOutput { text: text.into(), log: None, truncated: false },
    })
}

fn node(parent: Option<usize>) -> Record {
    Record::Node(Node { parent, usage: None, start: 0, blocks: vec![] })
}

#[test]
fn usage_is_read() {
    let read = |s: &str| Usage::from_json(&Json::parse(s).unwrap());
    assert_eq!(
        read(r#"{"input_tokens":3,"output_tokens":4,"input_tokens_details":{"cached_tokens":2}}"#),
        usage(3, 4, Some(2))
    );
    assert_eq!(read("{}"), usage(0, 0, None));
    assert_eq!(read("null"), usage(0, 0, None));
    assert_eq!(read(r#"{"input_tokens":-3}"#), usage(0, 0, None));
}

#[test]
fn a_cached_prefix_that_is_not_read_is_missed() {
    assert!(usage(10, 0, Some(0)).cache_miss(usage(10, 0, Some(1))));
    assert!(!usage(9, 0, Some(0)).cache_miss(usage(10, 0, Some(1))));
    assert!(!usage(10, 0, Some(1)).cache_miss(usage(10, 0, Some(1))));
    assert!(!usage(10, 0, None).cache_miss(usage(10, 0, Some(1))));
    assert!(!usage(10, 0, Some(0)).cache_miss(usage(10, 0, Some(0))));
    assert!(!usage(10, 0, Some(0)).cache_miss(usage(10, 0, None)));
}

#[test]
fn the_first_message_gives_the_title() {
    let mut s = session();
    assert_eq!(s.header().title, "");
    s.user("hello\nworld".into(), vec![]);
    assert_eq!(s.header().title, "hello");
    s.user("again".into(), vec![]);
    assert_eq!(s.header().title, "hello");
    assert_eq!(first_line(&"x".repeat(80), 60), "x".repeat(60));
}

#[test]
fn a_conversation_is_sent_in_order() {
    let mut s = session();
    let attachment = Record::Attachment { label: "File".into(), path: "/a".into(), text: "body".into() };
    s.user("hi".into(), vec![attachment]);
    s.push(
        vec![Record::Notice { text: "note".into() }, agent("yo"), tool("c", "out")],
        Some(usage(5, 6, Some(1))),
    );
    let input = s.input();
    assert_eq!(input.len(), 4);
    assert!(input[0].text_is("content", "hi"));
    assert!(input[1].text_is("content", "File: /a\nbody"));
    assert!(input[2].text_is("type", "message"));
    assert!(input[3].text_is("output", "out"));
    assert_eq!(s.path(), [2, 6]);
    assert_eq!(s.ancestors(), [6, 2]);
    assert_eq!(s.cursor(), Some(6));
    let blocks = &s.node(6).blocks;
    assert_eq!(blocks[0].kind, Kind::Warning);
    assert_eq!(blocks[0].text, "note");
    assert_eq!(blocks[1].text, "yo");
    assert_eq!(s.node(2).blocks[1].kind, Kind::Notice);
    assert_eq!(s.node(2).blocks[1].text, "File: /a");
    assert_eq!(s.last_text(Kind::Agent).as_deref(), Some("yo"));
    assert_eq!(s.last_text(Kind::User).as_deref(), Some("hi"));
    assert_eq!(s.last_text(Kind::Thought), None);
}

#[test]
fn tools_answer_the_last_call() {
    let call = |id: &str| Record::Item {
        item: Json::parse(&format!(r#"{{"type":"function_call","name":"bash","call_id":"{id}"}}"#)).unwrap(),
    };
    let mut s = session();
    s.push(vec![call("a"), call("b"), tool("a", "one"), tool("x", "lost")], None);
    let blocks = &s.node(4).blocks;
    assert_eq!(blocks[0].tool.as_ref().unwrap().output.text, "one");
    assert_eq!(blocks[1].tool.as_ref().unwrap().status, ToolStatus::Pending);
}

#[test]
fn usage_is_summed_along_the_path() {
    let mut s = session();
    assert_eq!(s.usage(), usage(0, 0, None));
    s.push(vec![agent("a")], Some(usage(10, 1, Some(4))));
    s.push(vec![agent("b")], Some(usage(20, 2, Some(5))));
    s.user("c".into(), vec![]);
    assert_eq!(s.usage(), usage(20, 2, Some(5)));
    assert_eq!(s.total_usage(), usage(30, 3, Some(9)));
    assert_eq!(s.uncached_input(), 6 + 15);
    s.push(vec![agent("d")], Some(usage(u64::MAX, 1, None)));
    assert_eq!(s.total_usage().input, u64::MAX);
    assert_eq!(s.total_usage().cached, None);
}

#[test]
fn records_that_do_not_fit_are_refused() {
    let mut s = session();
    assert_eq!(s.record(node(Some(0))), Err(SessionError::Parent));
    assert_eq!(s.record(Record::Cursor { node: Some(0) }), Err(SessionError::Cursor));
    assert_eq!(s.record(agent("a")), Ok(()));
    assert_eq!(s.record(Record::Cursor { node: None }), Err(SessionError::Uncommitted));
    assert_eq!(s.record(Record::Model(model("x"))), Err(SessionError::Uncommitted));
    assert_eq!(s.record(node(Some(0))), Err(SessionError::Parent));
    assert_eq!(s.record(node(None)), Ok(()));
    assert_eq!(s.record(Record::Cursor { node: Some(1) }), Ok(()));
    assert_eq!(s.record(Record::Model(model("x"))), Ok(()));
    assert_eq!(s.model().name, "x");
    assert_eq!(s.records().len(), 4);
    assert_eq!(SessionError::Header.message(), "Invalid session header");
}

#[test]
fn branches_are_told_apart() {
    let mut s = session();
    s.user("one".into(), vec![]);
    s.push(vec![agent("two")], None);
    s.record(Record::Cursor { node: Some(1) }).unwrap();
    s.push(vec![agent("three")], None);
    s.push(vec![Record::Notice { text: "n".into() }], None);
    let tree = s.tree();
    let rows: Vec<_> = tree.iter().map(|(i, label)| (*i, label.as_str())).collect();
    assert_eq!(
        rows,
        [
            (None, "root"),
            (Some(1), "User: one"),
            (Some(3), "├─ Agent: two"),
            (Some(6), "└─ Agent: three"),
            (Some(8), "     step")
        ]
    );
}

#[test]
fn saving_goes_on_where_it_ended() {
    let mut s = session();
    assert_eq!(s.unsaved(), None);
    s.user("a".into(), vec![]);
    let u = s.unsaved().unwrap();
    assert!(u.create && u.header);
    assert_eq!((u.from, u.offset), (0, 0));
    s.created();
    assert!(!s.unsaved().unwrap().create);
    s.synced(100);
    assert_eq!(s.unsaved(), None);
    s.user("b".into(), vec![]);
    let u = s.unsaved().unwrap();
    assert!(!u.create && !u.header);
    assert_eq!((u.from, u.offset), (2, 100));
    assert_eq!(file_name("1-2"), "1-2.jsonl");
}

fn header(id: &str, version: u32) -> Header {
    Header {
        version,
        id: id.into(),
        title: "t".into(),
        cwd: "/w".into(),
        instructions: "i".into(),
        model: model("m"),
    }
}

fn lines() -> Vec<(Record, u64)> {
    vec![(agent("a"), 20), (node(None), 30), (Record::Cursor { node: None }, 40), (agent("tail"), 50)]
}

#[test]
fn an_unfinished_tail_is_dropped() {
    let s = Session::open(Some("1-2"), header("1-2", 1), 10, lines(), None).unwrap();
    assert_eq!(s.records().len(), 3);
    assert_eq!(s.cursor(), None);
    assert_eq!(s.node(1).blocks[0].text, "a");
    assert_eq!(s.unsaved(), None);
    let mut s = s;
    s.push(vec![agent("b")], None);
    let u = s.unsaved().unwrap();
    assert_eq!((u.create, u.header, u.from, u.offset), (false, false, 3, 40));
    let empty = Session::open(Some("1-2"), header("1-2", 1), 10, vec![(agent("tail"), 20)], None).unwrap();
    assert!(empty.records().is_empty());
}

#[test]
fn files_that_are_no_sessions_are_refused() {
    let open = |stem: Option<&str>, h, lines, broken| Session::open(stem, h, 10, lines, broken).unwrap_err();
    assert_eq!(open(Some("1-2"), header("1-2", 2), vec![], None), "Invalid session header");
    assert_eq!(open(Some("1-3"), header("1-2", 1), vec![], None), "Invalid session header");
    assert_eq!(open(None, header("1-2", 1), vec![], None), "Invalid session header");
    assert_eq!(open(Some(""), header("", 1), vec![], None), "Invalid session header");
    assert_eq!(open(Some("1x"), header("1x", 1), vec![], None), "Invalid session header");
    let bad = vec![(node(Some(7)), 20)];
    let e = SessionError::Parent.message();
    assert_eq!(open(Some("1"), header("1", 1), bad, Some((30, "no".into()))), e);
    assert_eq!(open(Some("1"), header("1", 1), lines(), Some((60, "no".into()))), "Session near byte 60: no");
}

#[test]
fn what_is_written_is_read_back() {
    let mut s = session();
    s.user("a".into(), vec![]);
    s.push(vec![agent("b")], Some(usage(1, 2, None)));
    s.record(Record::Cursor { node: Some(1) }).unwrap();
    let written: Vec<(Record, u64)> = vec![
        (Record::Item { item: mu::session::user_message("a".into()) }, 1),
        (node(None), 2),
        (agent("b"), 3),
        (Record::Node(Node { parent: Some(1), usage: Some(usage(1, 2, None)), start: 0, blocks: vec![] }), 4),
        (Record::Cursor { node: Some(1) }, 5),
    ];
    let read = Session::load(Some("1-2"), header("1-2", 1), 0, written).unwrap();
    assert_eq!(format!("{:?}", read.records()), format!("{:?}", s.records()));
    assert_eq!(read.cursor(), s.cursor());
    assert_eq!(read.tree(), s.tree());
}

#[test]
fn lines_are_read_with_their_ends() {
    let read = read_lines(b"ab\n\nc\nrest");
    let shown: Vec<_> = read.iter().map(|(l, e)| (l.as_slice(), *e)).collect();
    assert_eq!(shown, [(&b"ab\n"[..], 3), (&b"\n"[..], 4), (&b"c\n"[..], 6)]);
    assert!(read_lines(b"no end").is_empty());
    assert!(read_lines(b"").is_empty());
}

#[test]
fn sessions_are_listed_newest_first() {
    let found = |path: &str, modified, header| Found { path: path.into(), modified, header };
    let list = sessions(vec![
        found("/a.jsonl", Some(5), Some(header("1", 1))),
        found("/b.jsonl", Some(9), Some(header("2", 1))),
        found("/c.jsonl", None, Some(header("3", 1))),
        found("/d.jsonl", Some(7), None),
        found("/e.jsonl", Some(7), Some(header("5", 2))),
        found("/f.jsonl", Some(5), Some(header("6", 1))),
    ]);
    let shown: Vec<_> = list.iter().map(|(p, l)| (p.as_str(), l.as_str())).collect();
    assert_eq!(
        shown,
        [
            ("/b.jsonl", "2  t  [/w]"),
            ("/a.jsonl", "1  t  [/w]"),
            ("/f.jsonl", "6  t  [/w]"),
            ("/c.jsonl", "3  t  [/w]")
        ]
    );
    assert!(is_log("x.jsonl"));
    assert!(!is_log("x.json"));
    assert!(!is_log(".jsonl"));
}

#[test]
fn names_of_files_and_folders() {
    assert_eq!(unique_id(123, 45), "123-45");
    assert_eq!(unique_id(u128::MAX, u32::MAX), format!("{}-{}", u128::MAX, u32::MAX));
    assert_eq!(state_dir(Some("/x"), "/h"), "/x/mu");
    assert_eq!(state_dir(None, "/h"), "/h/.local/state/mu");
}

#[test]
fn files_are_taken_apart() {
    let parts = contents(b"head\none\ntwo").unwrap();
    assert_eq!((parts.header.as_slice(), parts.header_len), (&b"head\n"[..], 5));
    assert_eq!(parts.lines, [(b"one\n".to_vec(), 9)]);
    for torn in [&b""[..], b"head"] {
        let e = contents(torn).unwrap_err();
        assert_eq!(e, SessionError::Incomplete);
        assert_eq!(e.message(), "Incomplete session header");
    }
}

#[test]
fn saving_does_not_duplicate() {
    let mut s = Session::open(Some("1-2"), header("1-2", 1), 10, lines(), None).unwrap();
    assert_eq!(s.offset(), 40);
    s.push(vec![agent("b")], None);
    let first = s.unsaved().unwrap();
    s.push(vec![agent("c")], None);
    let retry = s.unsaved().unwrap();
    assert_eq!((first.from, first.offset), (retry.from, retry.offset));
    s.synced(90);
    assert_eq!((s.unsaved(), s.offset()), (None, 90));
}

fn line(record: &Record) -> String {
    let written = match record {
        Record::Node(n) => format!("node {:?} {:?}", n.parent, n.usage),
        other => format!("{other:?}"),
    };
    assert!(!written.contains('\n'));
    format!("{written}\n")
}

/// Saves to `file`, or stops after `broken` bytes of what is to be written.
fn save(file: &mut Vec<u8>, s: &mut Session, broken: Option<usize>) {
    let todo = match s.unsaved() {
        Some(todo) => todo,
        None => return,
    };
    if todo.create {
        s.created();
    }
    let mut text = String::new();
    if todo.header {
        text.push_str("header\n");
    }
    for record in &s.records()[todo.from..] {
        text.push_str(&line(record));
    }
    file.truncate(todo.offset as usize);
    match broken {
        Some(n) => file.extend(&text.as_bytes()[..n.min(text.len())]),
        None => {
            file.extend(text.as_bytes());
            s.synced(file.len() as u64);
        }
    }
}

fn whole(s: &Session) -> String {
    let lines: Vec<String> = s.records().iter().map(line).collect();
    format!("header\n{}", lines.concat())
}

#[test]
fn a_failed_append_leaves_nothing_over() {
    for broken in [0, 3, 7, 12, 1000] {
        let mut file = vec![];
        let mut s = session();
        s.user("a".into(), vec![]);
        save(&mut file, &mut s, Some(broken));
        assert!(s.unsaved().unwrap().header);
        s.push(vec![agent("b")], None);
        save(&mut file, &mut s, None);
        assert_eq!(String::from_utf8(file.clone()).unwrap(), whole(&s));
        assert_eq!((s.unsaved(), s.records().len()), (None, 4));
        s.push(vec![agent("c")], None);
        save(&mut file, &mut s, Some(broken));
        save(&mut file, &mut s, Some(broken));
        save(&mut file, &mut s, None);
        save(&mut file, &mut s, None);
        assert_eq!(String::from_utf8(file.clone()).unwrap(), whole(&s));
        assert_eq!((s.unsaved(), s.offset() as usize, s.records().len()), (None, file.len(), 6));
        let read = contents(&file).unwrap();
        assert_eq!(read.header, b"header\n");
        assert_eq!(read.lines.len(), 6);
        assert_eq!(read.lines[5].1, s.offset());
    }
}

#[test]
fn a_new_session_has_no_lines() {
    let mut s = session();
    let mut file = b"torn".to_vec();
    save(&mut file, &mut s, None);
    assert_eq!((s.unsaved(), s.offset(), &file[..]), (None, 0, &b"torn"[..]));
}

#[test]
fn a_loaded_session_goes_on_behind_its_lines() {
    let records = [agent("a"), node(None), agent("tail")];
    let mut file = b"header\n".to_vec();
    let mut lines = vec![];
    for record in records {
        file.extend(line(&record).as_bytes());
        lines.push((record, file.len() as u64));
    }
    file.extend(b"torn");
    let mut s = Session::load(Some("1-2"), header("1-2", 1), 7, lines).unwrap();
    assert_eq!((s.unsaved(), s.records().len()), (None, 2));
    s.push(vec![agent("b")], None);
    save(&mut file, &mut s, None);
    assert_eq!(String::from_utf8(file).unwrap(), whole(&s));
    assert_eq!(s.records().len(), 4);
}
