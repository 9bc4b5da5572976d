use mu::api::{authorization, display, endpoint, step, Answer, Event, Request, Stream, Turn};
use mu::block::{Block, Kind, ToolOutput, ToolStatus};
use mu::json::Json;
use mu::process::Exit;
use mu::session::{Record, Usage};
use mu::tools::BashResult;

fn usage(input: u64, output: u64, cached: Option<u64>) -> Usage {
    Usage { input, output, cached }
}

fn stream() -> Stream {
    Stream::new(usage(0, 0, None))
}

fn exit(code: i32) -> Exit {
    Exit { code, timed_out: false, cancelled: false }
}

fn data(event: &str) -> Vec<u8> {
    format!("data: {event}\n\n").into_bytes()
}

fn told(events: &[Event]) -> Vec<String> {
    events
        .iter()
        .map(|e| match e {
            Event::Push(b) => format!("push {:?} {}", b.kind, b.text),
            Event::Delta(i, s) => format!("delta {i} {s}"),
            Event::Replace(i, b) => format!("set {i} {:?} {}", b.kind, b.text),
            Event::ToolOutput(i, o) => format!("output {i} {}", o.text),
            Event::CacheMiss => "miss".into(),
            Event::Done(_) => "done".into(),
        })
        .collect()
}

fn feed(stream: &mut Stream, events: &[&str]) -> Vec<String> {
    let mut all = vec![];
    for event in events {
        let (events, failure) = stream.chunk(false, &data(event));
        assert_eq!(failure, None);
        all.extend(told(&events));
    }
    all
}

fn turn(stream: Stream) -> Turn {
    stream.finish(exit(0)).unwrap()
}

#[test]
fn requests_say_what_is_asked() {
    let mut request = Request {
        instructions: "do".into(),
        model: "m".into(),
        effort: None,
        input: vec![Json::parse(r#"{"role":"user","content":"hi"}"#).unwrap()],
        cwd: "/w".into(),
        previous_usage: usage(0, 0, None),
    };
    let body = request.body();
    assert!(body.text_is("model", "m"));
    assert!(body.text_is("instructions", "do"));
    assert!(body.array("input").unwrap()[0].text_is("content", "hi"));
    assert!(matches!(body.at("stream"), Json::Bool(true)));
    assert!(matches!(body.at("store"), Json::Bool(false)));
    assert!(matches!(body.at("parallel_tool_calls"), Json::Bool(true)));
    assert!(matches!(&body.array("include").unwrap()[0], Json::Text(s) if s == "reasoning.encrypted_content"));
    let tool = &body.array("tools").unwrap()[0];
    assert!(tool.text_is("name", "bash"));
    assert!(tool.text_is("type", "function"));
    assert!(tool.text_is("description", "Special bash commands: view_image"));
    assert!(matches!(tool.at("strict"), Json::Bool(false)));
    let parameters = tool.at("parameters");
    assert!(parameters.at("properties").at("command").text_is("type", "string"));
    assert!(parameters.at("properties").at("timeoutMs").text_is("type", "integer"));
    assert!(matches!(&parameters.array("required").unwrap()[0], Json::Text(s) if s == "command"));
    assert!(matches!(parameters.at("additionalProperties"), Json::Bool(false)));
    assert!(body.get("reasoning").is_none());
    request.effort = Some("high".into());
    let reasoning = request.body().at("reasoning");
    assert!(reasoning.text_is("effort", "high"));
    assert!(reasoning.text_is("summary", "auto"));
}

#[test]
fn text_comes_in_pieces() {
    let mut s = stream();
    let shown = feed(
        &mut s,
        &[
            r#"{"type":"response.created"}"#,
            r#"{"type":"response.reasoning_summary_text.delta","output_index":0,"delta":"hm"}"#,
            r#"{"type":"response.output_text.delta","output_index":1,"delta":"he"}"#,
            r#"{"type":"response.output_text.delta","output_index":1,"delta":"llo"}"#,
            r#"{"type":"response.reasoning_text.delta","output_index":0}"#,
            r#"{"type":"response.refusal.delta","output_index":2,"delta":"no"}"#,
            r#"{"type":"response.output_item.done","output_index":1,
                "item":{"type":"message","content":[{"type":"output_text","text":"hello"}]}}"#,
        ]
        .map(|s| s.replace('\n', " "))
        .iter()
        .map(String::as_str)
        .collect::<Vec<_>>(),
    );
    assert_eq!(
        shown,
        [
            "push Thought ",
            "delta 0 hm",
            "push Agent ",
            "delta 1 he",
            "delta 1 llo",
            "delta 0 ",
            "push Agent ",
            "delta 2 no",
            "set 1 Agent hello"
        ]
    );
}

#[test]
fn calls_come_in_pieces() {
    let mut s = stream();
    let shown = feed(
        &mut s,
        &[
            r#"{"type":"response.output_item.added","output_index":3,"item":{"type":"function_call","name":"bash","call_id":"c"}}"#,
            r#"{"type":"response.function_call_arguments.delta","output_index":3,"delta":"{\"command\":\"l"}"#,
            r#"{"type":"response.function_call_arguments.delta","output_index":3,"delta":"s\"}"}"#,
            r#"{"type":"response.function_call_arguments.done","output_index":3,"arguments":"{\"command\":\"pwd\"}"}"#,
            r#"{"type":"response.function_call_arguments.done","output_index":4,"arguments":"x"}"#,
            r#"{"type":"response.output_item.added","output_index":5,"item":{"type":"unknown"}}"#,
            r#"{"type":"response.completed","response":{}}"#,
        ],
    );
    assert_eq!(
        shown,
        ["push Call bash …", "set 0 Call l", "set 0 Call ls", "set 0 Call pwd", "push Call tool x"]
    );
    // Without an output of its own, the response is what came in, in order.
    let turn = turn(s);
    assert_eq!(turn.output.len(), 3);
    assert!(turn.output[0].text_is("arguments", r#"{"command":"pwd"}"#));
    assert!(turn.output[1].text_is("arguments", "x"));
    assert!(turn.output[2].text_is("type", "unknown"));
    assert_eq!(told(&turn.events), ["push Call pwd", "push Call tool x"]);
    assert_eq!(turn.calls.len(), 2);
    assert_eq!(turn.calls[0].slot, 2);
    assert!(turn.calls[0].bash);
    assert_eq!(turn.calls[0].arguments, r#"{"command":"pwd"}"#);
    assert!(!turn.calls[1].bash);
}

#[test]
fn final_items_are_authoritative() {
    let mut s = stream();
    feed(
        &mut s,
        &[
            r#"{"type":"response.output_text.delta","output_index":0,"delta":"dra"}"#,
            r#"{"type":"response.completed","response":{"usage":{"input_tokens":9,"output_tokens":2,"input_tokens_details":{"cached_tokens":4}},"output":[{"type":"message","content":[{"type":"output_text","text":"final"}]},{"type":"function_call","name":"bash","call_id":"c","arguments":"{\"command\":\"ls\"}"}]}}"#,
        ],
    );
    let turn = turn(s);
    assert_eq!(turn.usage, usage(9, 2, Some(4)));
    assert_eq!(told(&turn.events), ["set 0 Agent final", "push Call ls"]);
    assert_eq!(turn.calls[0].slot, 1);
    assert_eq!(turn.calls[0].block.tool.as_ref().unwrap().call_id, "c");
}

#[test]
fn cache_misses_are_told() {
    let mut s = Stream::new(usage(100, 1, Some(50)));
    let miss = r#"{"type":"response.completed","response":{"usage":{"input_tokens":100,"input_tokens_details":{"cached_tokens":0}}}}"#;
    assert_eq!(feed(&mut s, &[miss]), ["miss"]);
    let hit = r#"{"type":"response.completed","response":{"usage":{"input_tokens":100,"input_tokens_details":{"cached_tokens":1}}}}"#;
    assert_eq!(feed(&mut s, &[hit]), Vec::<String>::new());
    assert_eq!(feed(&mut stream(), &[miss]), Vec::<String>::new());
}

#[test]
fn failures_end_a_reply() {
    for typ in ["response.failed", "response.incomplete", "error"] {
        let mut s = stream();
        let (events, failure) = s.chunk(
            false,
            format!("data: {{\"type\":\"response.output_text.delta\",\"delta\":\"a\"}}\n\ndata: {{ \"type\" : \"{typ}\", \"b\": 1 }}\n\ndata: {{\"type\":\"response.output_text.delta\",\"delta\":\"b\"}}\n\n").as_bytes(),
        );
        assert_eq!(told(&events), ["push Agent ", "delta 0 a"]);
        assert_eq!(failure.unwrap(), format!("Responses API: {{\"b\":1,\"type\":\"{typ}\"}}"));
    }
    let mut s = stream();
    let bad = data(r#"{"type":"response.output_item.added","output_index":0,"item":7}"#);
    assert_eq!(s.chunk(false, &bad).1, None);
    let more = data(r#"{"type":"response.function_call_arguments.delta","output_index":0,"delta":"x"}"#);
    assert_eq!(
        s.chunk(false, &more).1.unwrap(),
        r#"Responses API: {"delta":"x","output_index":0,"type":"response.function_call_arguments.delta"}"#
    );
    assert!(stream().chunk(false, b"data: {\n\n").1.unwrap().starts_with("EOF while parsing"));
}

#[test]
fn a_broken_transport_is_told() {
    let mut s = stream();
    s.chunk(true, b"curl: (22) ");
    s.chunk(true, &[b'e'; 9000]);
    s.chunk(false, &[b'p'; 3000]);
    let e = s.finish(exit(22)).unwrap_err();
    let errors = format!("curl: (22) {}", "e".repeat(8192 - 11));
    assert_eq!(e, format!("HTTP request failed (22): {errors} {}", "p".repeat(2048)));
    let late = Exit { code: -1, timed_out: true, cancelled: false };
    assert_eq!(stream().finish(late).unwrap_err(), "HTTP request failed (-1):  ");
    let cancelled = Exit { code: -1, timed_out: true, cancelled: true };
    assert_eq!(stream().finish(cancelled).unwrap_err(), "Cancelled (partial response not saved)");
    let mut s = stream();
    s.chunk(false, b"<html>\xff");
    assert_eq!(s.finish(exit(0)).unwrap_err(), "Stream ended without response.completed: <html>\u{fffd}");
}

fn call(arguments: &str) -> mu::api::Call {
    let mut s = stream();
    let item = format!(
        r#"{{"type":"response.completed","response":{{"output":[{{"type":"function_call","name":"bash","call_id":"c","arguments":"{arguments}"}}]}}}}"#
    );
    feed(&mut s, &[&item]);
    turn(s).calls.remove(0)
}

fn output(text: &str) -> ToolOutput {
    ToolOutput { text: text.into(), log: None, truncated: false }
}

#[test]
fn calls_are_answered() {
    let c = call("x");
    assert_eq!(c.refusal(), None);
    let running = c.running();
    assert_eq!(running.tool.unwrap().status, ToolStatus::Running);
    assert_eq!(running.kind, Kind::Call);
    let result = BashResult { output: output("out"), status: ToolStatus::Exited(1), images: vec![Json::Null] };
    let answer = c.done(output("old"), Ok(result));
    assert_eq!(answer.slot, 0);
    assert_eq!(answer.tool.status, ToolStatus::Exited(1));
    assert_eq!(answer.tool.output.text, "out");
    assert_eq!(answer.block.tool.as_ref().unwrap().output.text, "out");
    assert_eq!(answer.images.len(), 1);
    let answer = call("x").done(output("so far"), Err("broke".into()));
    assert_eq!(answer.tool.status, ToolStatus::Error);
    assert_eq!(answer.tool.output.text, "so far\n[tool error: broke]");
    assert!(answer.images.is_empty());
    let mut other = call("x");
    other.bash = false;
    assert_eq!(other.refusal().unwrap(), "Unknown tool (only bash is available)");
}

#[test]
fn a_step_is_replayed_in_order() {
    let answer = |n: u64| -> Answer {
        let mut c = call("x");
        c.block.tool.as_mut().unwrap().call_id = format!("c{n}");
        c.done(
            output(""),
            Ok(BashResult { output: output(""), status: ToolStatus::Exited(0), images: vec![Json::Unsigned(n)] }),
        )
    };
    let items = vec![Json::Bool(true), Json::Bool(false)];
    let made = step(items, usage(1, 2, None), vec![answer(1), answer(2)], false);
    assert!(made.again);
    assert_eq!(made.usage, usage(1, 2, None));
    let shown: Vec<_> = made
        .entries
        .iter()
        .map(|e| match e {
            Record::Item { item } => format!("{item:?}"),
            Record::Tool(tool) => tool.call_id.clone(),
            _ => unreachable!(),
        })
        .collect();
    assert_eq!(shown, ["Bool(true)", "Bool(false)", "c1", "c2", "Unsigned(1)", "Unsigned(2)"]);
    let inputs: Vec<_> = made.entries.iter().map(|e| e.input().unwrap()).collect();
    assert!(inputs[3].text_is("call_id", "c2"));
    assert!(!step(vec![], usage(0, 0, None), vec![answer(1)], true).again);
    assert!(!step(vec![], usage(0, 0, None), vec![], false).again);
}

#[test]
fn addresses_and_keys() {
    assert_eq!(endpoint(None), "http://127.0.0.1:8317/v1/responses");
    assert_eq!(endpoint(Some("https://x/v1//")), "https://x/v1/responses");
    assert_eq!(endpoint(Some("")), "/responses");
    assert_eq!(authorization(None, None), Ok(None));
    assert_eq!(authorization(Some("k"), Some("g")), Ok(Some("Authorization: Bearer k".into())));
    assert_eq!(authorization(None, Some("g")), Ok(Some("Authorization: Bearer g".into())));
    assert_eq!(authorization(Some("a\nb"), None), Err("API key contains a newline".into()));
    assert_eq!(authorization(None, Some("a\r")), Err("API key contains a newline".into()));
}

#[test]
fn replies_ignore_chunks() {
    let mut bytes = data(r#"{"type":"response.output_text.delta","output_index":0,"delta":"é"}"#);
    bytes.extend(data(r#"{"type":"response.output_text.delta","output_index":1,"delta":"b"}"#));
    let whole = told(&stream().chunk(false, &bytes).0);
    assert_eq!(whole.len(), 4);
    for cut in 0..bytes.len() {
        let mut s = stream();
        let mut parts = told(&s.chunk(false, &bytes[..cut]).0);
        parts.extend(told(&s.chunk(false, &bytes[cut..]).0));
        assert_eq!(parts, whole, "{cut}");
    }
}

fn message(typ: &str, index: usize, text: &str) -> String {
    format!(
        r#"{{"type":"response.output_item.{typ}","output_index":{index},"item":{{"type":"message","content":[{{"type":"output_text","text":"{text}"}}]}}}}"#
    )
}

fn redraw(view: &mut Vec<String>, events: Vec<Event>) {
    for event in events {
        match event {
            Event::Push(block) => view.push(block.text),
            Event::Delta(slot, more) => view[slot].push_str(&more),
            Event::Replace(slot, block) => view[slot] = block.text,
            other => panic!("{other:?}"),
        }
    }
}

#[test]
fn outputs_keep_their_place() {
    let mut s = stream();
    let shown = feed(
        &mut s,
        &[
            &message("added", 7, "a"),
            &message("done", 2, "b"),
            &message("done", 7, "c"),
            r#"{"type":"response.output_text.delta","output_index":0,"delta":"d"}"#,
            &message("done", 2, "e"),
            r#"{"type":"response.output_text.delta","output_index":2,"delta":"f"}"#,
            &message("done", 0, "g"),
        ],
    );
    assert_eq!(
        shown,
        [
            "push Agent a",
            "push Agent b",
            "set 0 Agent c",
            "push Agent ",
            "delta 2 d",
            "set 1 Agent e",
            "delta 1 f",
            "set 2 Agent g"
        ]
    );
}

#[test]
fn a_reply_leaves_the_latest_of_each_output() {
    let mut s = stream();
    let mut view = vec![];
    for event in [
        message("added", 1, "one"),
        message("added", 0, "zero"),
        r#"{"type":"response.output_text.delta","output_index":1,"delta":"!"}"#.into(),
        r#"{"type":"response.output_text.delta","output_index":4,"delta":"fo"}"#.into(),
        message("done", 0, "zero again"),
        r#"{"type":"response.output_text.delta","output_index":4,"delta":"ur"}"#.into(),
        r#"{"type":"response.completed","response":{"output":[{"type":"unknown"},{"type":"message","content":[{"type":"output_text","text":"last"}]},{"type":"message","content":[{"type":"output_text","text":"two"}]}]}}"#.into(),
    ] {
        let (events, failure) = s.chunk(false, &data(&event));
        assert_eq!(failure, None);
        redraw(&mut view, events);
    }
    assert_eq!(view, ["one!", "zero again", "four"]);
    redraw(&mut view, turn(s).events);
    assert_eq!(view, ["last", "zero again", "four", "two"]);
}

const BARE_THOUGHT: &str =
    r#"{"type":"reasoning","summary":[],"content":[{"type":"reasoning_text","text":"why"}]}"#;
const USER_MESSAGE: &str = r#"{"type":"message","role":"user","content":"hi"}"#;

#[test]
fn items_are_displayed() {
    let shown = |source: &str, partial| display(&Json::parse(source).unwrap(), partial).map(|b| (b.kind, b.text));
    assert_eq!(
        shown(
            r#"{"type":"message","content":[{"type":"output_text","text":"a"},{"type":"output_text","text":"b"},{"refusal":" no"}]}"#,
            false
        ),
        Some((Kind::Agent, "a\nb no".into()))
    );
    assert_eq!(
        shown(r#"{"type":"reasoning","summary":[{"type":"summary_text","text":"s"}]}"#, false),
        Some((Kind::Thought, "s".into()))
    );
    assert_eq!(shown(BARE_THOUGHT, false), Some((Kind::Thought, "".into())));
    assert_eq!(shown(USER_MESSAGE, false), Some((Kind::Agent, "".into())));
    assert_eq!(shown(r#"{"role":"user","content":"hi"}"#, false), None);
    assert_eq!(shown(r#"{"type":"unknown"}"#, false), None);
    let call = r#"{"type":"function_call","role":"user","content":"x","name":"bash","call_id":"c","arguments":"{\"command\":\"l"}"#;
    assert_eq!(shown(call, true), Some((Kind::Call, "l".into())));
    let block = display(&Json::parse(call).unwrap(), false).unwrap();
    assert_eq!(block.text, r#"{"command":"l"#);
    assert_eq!(block.tool.unwrap().call_id, "c");
}

#[test]
fn replies_show_what_is_displayed() {
    let mut s = stream();
    let item = |typ: &str, index: usize, item: &str| {
        format!(r#"{{"type":"response.output_item.{typ}","output_index":{index},"item":{item}}}"#)
    };
    let completed =
        format!(r#"{{"type":"response.completed","response":{{"output":[{BARE_THOUGHT},{USER_MESSAGE}]}}}}"#);
    let shown = feed(
        &mut s,
        &[&item("added", 0, BARE_THOUGHT), &item("done", 1, USER_MESSAGE), &completed],
    );
    assert_eq!(shown, ["push Thought ", "push Agent "]);
    assert_eq!(told(&turn(s).events), ["set 0 Thought ", "set 1 Agent "]);
}

#[test]
fn items_are_shown_as_committed() {
    let both = |source: &str| {
        let item = Json::parse(source).unwrap();
        let text = |b: Option<Block>| b.map(|b| (b.kind, b.text));
        (text(display(&item, false)), text(Block::from_item(&item, false)))
    };
    for source in [
        r#"{"type":"message","content":[{"type":"output_text","text":"a"}]}"#,
        r#"{"type":"reasoning","summary":[{"type":"summary_text","text":"s"}],"content":[{"type":"reasoning_text","text":"r"}]}"#,
        r#"{"type":"function_call","name":"bash","arguments":"{\"command\":\"ls\"}"}"#,
        r#"{"type":"unknown"}"#,
    ] {
        let (shown, committed) = both(source);
        assert_eq!(shown, committed);
    }
    assert_eq!(both(BARE_THOUGHT).1, Some((Kind::Thought, "why".into())));
    assert_eq!(both(USER_MESSAGE).1, Some((Kind::User, "hi".into())));
}
