use mu::block::{command_prefix, shown_call, string_prefix, Block, Kind, Tool, ToolOutput, ToolStatus};
use mu::json::Json;

fn json(source: &str) -> Json {
    Json::parse(source).unwrap()
}

fn shown(source: &str, partial: bool) -> Option<(Kind, String)> {
    Block::from_item(&json(source), partial).map(|b| (b.kind, b.text))
}

#[test]
fn values_are_read() {
    let v = json(r#"{"a":[1,-2,1.5,true,null],"b":{"c":"d\né"},"n":18446744073709551615}"#);
    assert_eq!(v.array("a").unwrap().len(), 5);
    assert!(matches!(v.array("a").unwrap()[0], Json::Unsigned(1)));
    assert!(matches!(&v.array("a").unwrap()[1], Json::Number(n) if n == "-2"));
    assert!(matches!(&v.array("a").unwrap()[2], Json::Number(n) if n == "1.5"));
    assert!(matches!(v.array("a").unwrap()[3], Json::Bool(true)));
    assert!(matches!(v.array("a").unwrap()[4], Json::Null));
    assert_eq!(v.get("b").unwrap().text("c").unwrap(), "d\né");
    assert_eq!(v.unsigned("n"), Some(u64::MAX));
    assert!(v.get("x").is_none());
    assert!(matches!(v.at("x"), Json::Null));
    assert!(Json::parse("{").is_err());
}

#[test]
fn fields_are_set() {
    let mut v = json(r#"{"a":1}"#);
    v.set("b", Json::Bool(true));
    v.set("a", Json::Unsigned(2));
    assert_eq!(v.unsigned("a"), Some(2));
    assert!(matches!(v.at("b"), Json::Bool(true)));
    let mut v = Json::Null;
    v.set("a", Json::Null);
    assert!(matches!(v, Json::Object(fields) if fields.len() == 1));
}

#[test]
fn items_are_shown() {
    assert_eq!(shown(r#"{"role":"user","content":"hi"}"#, false), Some((Kind::User, "hi".into())));
    assert_eq!(
        shown(
            r#"{"type":"message","content":[{"type":"output_text","text":"a"},{"type":"other","text":"x"},
               {"type":"output_text","text":"b"},{"type":"refusal","refusal":" no"}]}"#,
            false
        ),
        Some((Kind::Agent, "a\nb no".into()))
    );
    assert_eq!(shown(r#"{"type":"message"}"#, false), Some((Kind::Agent, "".into())));
    assert_eq!(
        shown(r#"{"type":"reasoning","summary":[{"type":"summary_text","text":"s"}]}"#, false),
        Some((Kind::Thought, "s".into()))
    );
    assert_eq!(
        shown(r#"{"type":"reasoning","summary":[],"content":[{"type":"reasoning_text","text":"r"}]}"#, false),
        Some((Kind::Thought, "r".into()))
    );
    assert_eq!(shown(r#"{"type":"function_call_output","output":"x"}"#, false), None);
    assert_eq!(shown(r#"{"role":"user","content":[]}"#, false), None);
    assert_eq!(shown("7", false), None);
}

#[test]
fn calls_are_shown_by_their_command() {
    let call = |arguments: &str| {
        format!(
            r#"{{"type":"function_call","name":"bash","call_id":"c1","arguments":{}}}"#,
            serde_json::to_string(arguments).unwrap()
        )
    };
    let text = |arguments: &str, partial| shown(&call(arguments), partial).unwrap().1;
    assert_eq!(text(r#"{"command":"ls -l"}"#, false), "ls -l");
    assert_eq!(text(r#"{"timeoutMs":5,"command":"ls \"a"#, true), "ls \"a");
    assert_eq!(text(r#"{"timeoutMs":5,"command":"ls \"a"#, false), r#"{"timeoutMs":5,"command":"ls \"a"#);
    assert_eq!(text("", false), "bash …");
    assert_eq!(text("{", true), "bash …");
    assert_eq!(text(r#"{"x":1}"#, false), r#"{"x":1}"#);
    let other = r#"{"type":"function_call","name":"fetch","arguments":"{}"}"#;
    assert_eq!(shown(other, false).unwrap(), (Kind::Call, "fetch {}".into()));
    assert_eq!(shown(r#"{"type":"function_call"}"#, false).unwrap().1, "tool ");
    let block = Block::from_item(&json(&call("{}")), false).unwrap();
    let tool = block.tool.unwrap();
    assert_eq!(tool.call_id, "c1");
    assert_eq!(tool.status, ToolStatus::Pending);
    assert_eq!(tool.output.text, "");
}

#[test]
fn shown_calls_follow_what_was_found() {
    let show = |name, raw, partial, command: Option<&str>, start: Option<&str>| {
        shown_call(name, raw, partial, command.map(Into::into), start.map(Into::into))
    };
    assert_eq!(show("bash", "r", true, Some("c"), Some("s")), "c");
    assert_eq!(show("bash", "r", true, None, Some("s")), "s");
    assert_eq!(show("bash", "r", false, None, Some("s")), "r");
    assert_eq!(show("bash", "r", true, None, None), "bash …");
    assert_eq!(show("bash", "", false, None, None), "bash …");
    assert_eq!(show("x", "r", true, Some("c"), None), "x r");
}

#[test]
fn unfinished_commands_are_read() {
    assert_eq!(command_prefix(r#"{"command":"echo hi"#).as_deref(), Some("echo hi"));
    assert_eq!(command_prefix(r#" { "a" : [1,{"command":"no"}] , "command" : "yes"#).as_deref(), Some("yes"));
    assert_eq!(command_prefix(r#"{"command":"done","x":1"#).as_deref(), Some("done"));
    assert_eq!(command_prefix(r#"{"a":"command","b"#), None);
    assert_eq!(command_prefix(r#"{"command":7"#), None);
    assert_eq!(command_prefix(r#"["command"#), None);
    assert_eq!(command_prefix(""), None);
    assert_eq!(string_prefix(r#""a\n"#).as_deref(), Some("a\n"));
    assert_eq!(string_prefix(r#""a\"#).as_deref(), Some("a"));
    assert_eq!(string_prefix(r#""a\u00"#).as_deref(), Some("a"));
    assert_eq!(string_prefix(r#""a\ud83d\u"#).as_deref(), Some("a"));
    assert_eq!(string_prefix(r#""a\ud83d\ude00"#).as_deref(), Some("a😀"));
    assert_eq!(string_prefix("").as_deref(), None);
    assert_eq!(string_prefix("x").as_deref(), None);
}

#[test]
fn statuses_are_told() {
    let told = |s: ToolStatus| s.summary();
    assert_eq!(told(ToolStatus::Pending).as_deref(), Some("pending"));
    assert_eq!(told(ToolStatus::Running).as_deref(), Some("running"));
    assert_eq!(told(ToolStatus::Exited(0)), None);
    assert_eq!(told(ToolStatus::Exited(-1)).as_deref(), Some("exit -1"));
    assert_eq!(told(ToolStatus::Exited(i32::MIN)).as_deref(), Some("exit -2147483648"));
    assert_eq!(
        told(ToolStatus::TimedOut(120_000)).as_deref(),
        Some("timed out after 120000 ms; process group killed")
    );
    assert_eq!(told(ToolStatus::Cancelled).as_deref(), Some("cancelled; process group killed"));
    assert_eq!(told(ToolStatus::Error), None);
}

#[test]
fn outcomes_are_told_to_the_model() {
    let tool = |status, truncated, log: Option<&str>| {
        Tool {
            call_id: "c".into(),
            status,
            output: ToolOutput { text: "out".into(), log: log.map(Into::into), truncated },
        }
        .item()
    };
    let item = tool(ToolStatus::Exited(0), false, Some("/log"));
    assert!(item.text_is("type", "function_call_output"));
    assert!(item.text_is("call_id", "c"));
    assert!(item.text_is("output", "out"));
    assert!(tool(ToolStatus::Exited(2), false, None).text_is("output", "out\n[exit 2]"));
    assert!(tool(ToolStatus::Exited(0), true, Some("/log")).text_is(
        "output",
        "out\n[Output log (temporary): /log — read needed ranges with sed, tail, or grep]"
    ));
    assert!(tool(ToolStatus::Exited(0), true, None).text_is("output", "out"));
}
