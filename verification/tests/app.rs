use mu::api::{Event, Step};
use mu::app::{
    cache_miss_text, clipboard, first_model, stem, App, Effect, Key, Press, ScrollAnchor, Target, TitleStatus, CONTEXT,
    FEEDBACK,
};
use mu::block::{Block, Kind, Tool, ToolOutput, ToolStatus};
use mu::input::{Snapshot, Wanted};
use mu::json::Json;
use mu::session::{Model, Record, Session, Usage};
use mu::skills::Skill;

fn model() -> Model {
    Model { name: "m".into(), effort: Some("high".into()), context: 1_000 }
}

fn session(id: &str) -> Session {
    Session::new(id.into(), "/w".into(), "do".into(), model())
}

fn skill(name: &str) -> Skill {
    Skill { name: name.into(), path: format!("/s/{name}/SKILL.md"), description: format!("does {name}") }
}

fn app() -> App {
    App::new(session("1-2"), vec![skill("deploy")])
}

fn usage(input: u64, output: u64, cached: Option<u64>) -> Usage {
    Usage { input, output, cached }
}

fn agent(text: &str) -> Record {
    let item = format!(r#"{{"type":"message","content":[{{"type":"output_text","text":"{text}"}}]}}"#);
    Record::Item { item: Json::parse(&item).unwrap() }
}

fn key(key: Key) -> Press {
    Press { key, ctrl: false, shift: false, alt: false, released: false }
}

fn ctrl(c: char) -> Press {
    Press { ctrl: true, ..key(Key::Char(c)) }
}

fn hit(app: &mut App, press: Press) -> Effect {
    let effect = app.key(press, Some(40), "/home/u");
    app.refresh_completion(&vec![], false);
    effect
}

fn write(app: &mut App, text: &str) {
    app.editor.clear();
    app.paste(text);
    app.refresh_completion(&vec![], false);
}

fn run(app: &mut App, text: &str) -> Effect {
    app.editor.clear();
    app.paste(text);
    app.completion = None;
    app.submit("/home/u")
}

fn said(app: &App) -> Vec<(Kind, &str)> {
    app.feedback.iter().map(|b| (b.kind, b.text.as_str())).collect()
}

fn warned(app: &mut App, text: &str) -> String {
    app.feedback.clear();
    assert!(matches!(run(app, text), Effect::Nothing), "{text}");
    assert_eq!(app.feedback.len(), 1, "{text}");
    assert_eq!(app.feedback[0].kind, Kind::Warning);
    app.feedback[0].text.clone()
}

/// Sends a message and begins the turn for it.
fn ask(app: &mut App, text: &str) {
    assert!(matches!(run(app, text), Effect::Attach(s, w) if s == text && w.is_empty()));
    assert!(matches!(app.attached(text.into(), vec![]), Effect::Start));
    assert!(app.begin(Ok(())).is_some());
}

fn answer(app: &mut App, text: &str, again: bool) -> Effect {
    app.hear(Event::Done(Ok(Step { entries: vec![agent(text)], usage: usage(1, 1, None), again })))
}

#[test]
fn feedback_is_bounded() {
    let mut a = app();
    for i in 0..25 {
        a.notice(&format!("{i}"));
    }
    assert_eq!(a.feedback.len(), FEEDBACK);
    assert_eq!(a.feedback[0].text, "5");
    a.warn("last");
    assert_eq!(said(&a)[19], (Kind::Warning, "last"));
    assert_eq!(said(&a)[0].1, "6");
}

#[test]
fn a_message_begins_a_turn() {
    let mut a = app();
    a.scroll = 7;
    ask(&mut a, "hello");
    assert_eq!(a.scroll, 0);
    assert!(a.working);
    assert!(a.editor.chars.is_empty());
    assert_eq!(a.session.last_text(Kind::User).as_deref(), Some("hello"));
    assert!(matches!(answer(&mut a, "hi", false), Effect::Save));
    assert!(!a.working);
    assert_eq!(a.title_status, TitleStatus::Finished);
    a.saved(Err("disk full".into()));
    assert_eq!(said(&a), [(Kind::Warning, "Session not saved: disk full")]);
}

#[test]
fn a_turn_asks_for_the_conversation() {
    let mut a = app();
    ask(&mut a, "one");
    answer(&mut a, "two", false);
    run(&mut a, "three");
    a.attached("three".into(), vec![]);
    let request = a.begin(Ok(())).unwrap();
    assert_eq!(request.instructions, "do");
    assert_eq!(request.model, "m");
    assert_eq!(request.effort.as_deref(), Some("high"));
    assert_eq!(request.cwd, "/w");
    assert_eq!(request.previous_usage, usage(1, 1, None));
    assert_eq!(request.input.len(), 3);
    assert!(request.input[2].text_is("content", "three"));
}

#[test]
fn no_turn_begins_unsaved() {
    let mut a = app();
    assert!(matches!(a.start(), Effect::Nothing));
    run(&mut a, "x");
    assert!(matches!(a.attached("x".into(), vec![]), Effect::Start));
    assert!(a.begin(Err("read-only".into())).is_none());
    assert!(!a.working);
    assert_eq!(said(&a), [(Kind::Warning, "Session not saved: read-only")]);
    assert!(matches!(a.start(), Effect::Start));
}

#[test]
fn empty_input_is_not_sent() {
    let mut a = app();
    assert!(matches!(run(&mut a, " \n "), Effect::Nothing));
    assert_eq!(a.editor.text(), " \n ");
    assert!(a.feedback.is_empty());
}

#[test]
fn events_fill_the_view() {
    let mut a = app();
    ask(&mut a, "go");
    let before = a.session.records().len();
    let call = |text: &str| {
        let mut b = Block::new(Kind::Agent, text.into());
        b.kind = Kind::Call;
        b.tool = Some(Tool {
            call_id: "c".into(),
            status: ToolStatus::Running,
            output: ToolOutput { text: "".into(), log: None, truncated: false },
        });
        b
    };
    a.hear(Event::Push(Block::new(Kind::Agent, "a".into())));
    a.hear(Event::Delta(0, "b".into()));
    a.hear(Event::Delta(5, "lost".into()));
    a.hear(Event::Push(Block::new(Kind::Thought, "t".into())));
    a.hear(Event::Replace(1, call("ls")));
    a.hear(Event::Replace(9, call("lost")));
    let output = ToolOutput { text: "out".into(), log: None, truncated: false };
    a.hear(Event::ToolOutput(1, output.clone()));
    a.hear(Event::ToolOutput(0, output));
    a.hear(Event::CacheMiss);
    assert_eq!(a.live.len(), 2);
    assert_eq!(a.live[0].text, "ab");
    assert!(a.live[0].tool.is_none());
    let tool = a.live[1].tool.as_ref().unwrap();
    assert_eq!(tool.output.text, "out");
    assert_eq!(tool.status, ToolStatus::Running);
    assert_eq!(a.live_notice.as_ref().unwrap().text, cache_miss_text());
    assert_eq!(a.session.records().len(), before);
    answer(&mut a, "x", false);
    assert!(a.live.is_empty() && a.live_notice.is_none());
}

#[test]
fn tools_go_on_by_themselves() {
    let mut a = app();
    ask(&mut a, "go");
    assert!(matches!(answer(&mut a, "calling", true), Effect::Start));
    assert_eq!(a.title_status, TitleStatus::Failed);
    a.begin(Ok(()));
    assert_eq!(a.title_status, TitleStatus::Ready);
}

#[test]
fn stopped_turns_end() {
    let mut a = app();
    ask(&mut a, "go");
    run(&mut a, "more");
    assert!(matches!(a.attached("more".into(), vec![]), Effect::Nothing));
    hit(&mut a, key(Key::Esc));
    assert!(a.stopping);
    assert!(matches!(answer(&mut a, "part", true), Effect::Save));
    assert_eq!(a.queued.len(), 1);
    assert_eq!(a.title_status, TitleStatus::Ready);
    assert_eq!(said(&a), [(Kind::Warning, "Stopped. Tool side effects are not undone. Enter to continue.")]);
    assert_eq!(a.session.last_text(Kind::Agent).as_deref(), Some("part"));
}

#[test]
fn steering_is_sent_behind_the_turn() {
    let mut a = app();
    ask(&mut a, "go");
    for text in ["left", "right"] {
        run(&mut a, text);
        assert!(matches!(a.attached(text.into(), vec![]), Effect::Nothing));
    }
    assert_eq!(a.queued.len(), 2);
    assert!(matches!(answer(&mut a, "went", false), Effect::Start));
    assert!(a.queued.is_empty());
    let input = a.session.input();
    assert_eq!(input.len(), 4);
    assert!(input[2].text_is("content", "left"));
    assert!(input[3].text_is("content", "right"));
}

#[test]
fn failed_turns_change_nothing() {
    let mut a = app();
    ask(&mut a, "go");
    run(&mut a, "more");
    a.attached("more".into(), vec![]);
    let before = a.session.records().len();
    assert!(matches!(a.hear(Event::Done(Err("no network".into()))), Effect::Nothing));
    assert_eq!(a.session.records().len(), before);
    assert_eq!(a.queued.len(), 1);
    assert_eq!(a.title_status, TitleStatus::Failed);
    assert_eq!(
        said(&a),
        [
            (Kind::Warning, "no network"),
            (Kind::Notice, "Steering still queued. Send a message to retry, /new to discard.")
        ]
    );
}

#[test]
fn a_missed_cache_is_marked_in_the_log() {
    let mut a = app();
    ask(&mut a, "one");
    a.hear(Event::Done(Ok(Step { entries: vec![agent("a")], usage: usage(10, 1, Some(5)), again: false })));
    ask(&mut a, "two");
    a.hear(Event::Done(Ok(Step { entries: vec![agent("b")], usage: usage(12, 1, Some(0)), again: false })));
    let node = a.session.node(a.session.cursor().unwrap());
    assert_eq!(node.blocks[0].kind, Kind::Warning);
    assert_eq!(node.blocks[0].text, cache_miss_text());
    assert_eq!(node.blocks[1].text, "b");
}

#[test]
fn queued_messages_can_be_taken_back() {
    let mut a = app();
    ask(&mut a, "go");
    for text in ["left", "right"] {
        run(&mut a, text);
        a.attached(text.into(), vec![]);
    }
    let up = Press { ctrl: true, ..key(Key::Up) };
    hit(&mut a, up);
    assert_eq!(a.editor.text(), "right");
    assert_eq!(a.queued.len(), 1);
    hit(&mut a, up);
    a.editor.clear();
    hit(&mut a, up);
    a.editor.clear();
    hit(&mut a, up);
    let texts: Vec<_> = said(&a).iter().map(|s| s.1).collect();
    assert_eq!(
        texts,
        [
            "Restored newest queued message to input.",
            "Clear the input before restoring a queued message.",
            "Restored newest queued message to input.",
            "No queued messages."
        ]
    );
}

#[test]
fn refused_input_is_kept() {
    let mut a = app();
    assert_eq!(warned(&mut a, "see @\"open"), "Unclosed @\"file name\" mention");
    assert_eq!(a.editor.text(), "see @\"open");
    assert_eq!(warned(&mut a, "/nothing here"), "Unknown command or skill: /nothing");
    assert_eq!(a.editor.text(), "/nothing here");
    assert!(matches!(run(&mut a, "see @a"), Effect::Attach(_, w) if w.len() == 1));
    a.feedback.clear();
    let gone = Snapshot {
        wanted: Wanted { label: "File".into(), path: "/w/a".into(), keep: false },
        target: Err("no such file".into()),
        body: Err("".into()),
    };
    assert!(matches!(a.attached("see @a".into(), vec![gone]), Effect::Nothing));
    assert_eq!(said(&a), [(Kind::Warning, "/w/a: no such file")]);
    assert_eq!(a.editor.text(), "see @a");
}

#[test]
fn skills_are_carried() {
    let mut a = app();
    let Effect::Attach(text, wanted) = run(&mut a, "  /dep now @~/x") else {
        panic!("a message that carries");
    };
    assert_eq!(text, "/deploy now @~/x");
    assert_eq!(wanted.len(), 2);
    assert_eq!((wanted[0].label.as_str(), wanted[0].path.as_str()), ("Skill: /deploy", "/s/deploy/SKILL.md"));
    assert!(wanted[0].keep && !wanted[1].keep);
    assert_eq!((wanted[1].label.as_str(), wanted[1].path.as_str()), ("File", "/home/u/x"));
    let files = wanted
        .into_iter()
        .map(|w| Snapshot { target: Ok(format!("/real{}", w.path)), body: Ok("body".into()), wanted: w })
        .collect();
    assert!(matches!(a.attached(text, files), Effect::Start));
    let blocks = &a.session.node(a.session.cursor().unwrap()).blocks;
    assert_eq!(blocks[1].text, "Skill: /deploy: /s/deploy/SKILL.md");
    assert_eq!(blocks[2].text, "File: /real/home/u/x");
}

#[test]
fn commands_are_run() {
    let mut a = app();
    assert!(matches!(run(&mut a, "/new"), Effect::Renew));
    assert!(matches!(run(&mut a, "/re"), Effect::List));
    assert!(a.editor.chars.is_empty());
    assert_eq!(warned(&mut a, "/copy"), "Nothing to copy");
    assert_eq!(warned(&mut a, "/copy me"), "Usage: /copy [agent|user]");
    assert_eq!(warned(&mut a, "/"), "Choose a command: /copy, /deploy, /model, /new, /quit, /resume, /tree");
    ask(&mut a, "question");
    answer(&mut a, "reply", false);
    assert!(matches!(run(&mut a, "/copy"), Effect::Copy(s) if s == "reply"));
    assert!(matches!(run(&mut a, "/copy user"), Effect::Copy(s) if s == "question"));
    a.feedback.clear();
    a.copied(Ok(()));
    a.copied(Err("no terminal".into()));
    assert_eq!(said(&a), [(Kind::Notice, "Copied."), (Kind::Warning, "no terminal")]);
    run(&mut a, "/quit");
    assert!(a.quitting && a.over());
}

#[test]
fn models_are_changed() {
    let mut a = app();
    let usage = "Usage: /model <model> [effort|-] [context]";
    assert_eq!(warned(&mut a, "/model"), usage);
    assert_eq!(warned(&mut a, "/model a b 1 d"), usage);
    assert_eq!(
        warned(&mut a, "/model a b zero"),
        "Context must be a positive token count (e.g. 128k or 1.5m)"
    );
    assert!(matches!(run(&mut a, "/model m high"), Effect::Save));
    assert!(a.session.records().is_empty());
    assert!(matches!(run(&mut a, "/model big - 1.5m"), Effect::Save));
    assert_eq!(*a.session.model(), Model { name: "big".into(), effort: None, context: 1_500_000 });
    run(&mut a, "/model small low");
    assert_eq!(*a.session.model(), Model { name: "small".into(), effort: Some("low".into()), context: 1_500_000 });
}

#[test]
fn turns_keep_their_session() {
    let mut a = app();
    ask(&mut a, "go");
    for text in ["/new", "/tree", "/resume", "/model x"] {
        assert_eq!(warned(&mut a, text), "Stop the agent with Esc before changing sessions or models");
    }
    assert!(matches!(run(&mut a, "/copy user"), Effect::Copy(_)));
    run(&mut a, "/quit");
    assert!(a.quitting && a.stopping && !a.over());
}

#[test]
fn the_tree_is_picked_from() {
    let mut a = app();
    ask(&mut a, "one");
    answer(&mut a, "two", false);
    run(&mut a, "/tree");
    let picker = a.picker.as_ref().unwrap();
    assert_eq!(picker.title, "conversation tree");
    let labels: Vec<_> = picker.entries.iter().map(|e| e.1.as_str()).collect();
    assert_eq!(labels, ["  root", "  User: one", "● Agent: two"]);
    assert_eq!(picker.selected, 2);
    let selected = |a: &App| a.picker.as_ref().unwrap().selected;
    for (press, at) in [
        (Key::Down, 2),
        (Key::Up, 1),
        (Key::Char('k'), 0),
        (Key::Char('k'), 0),
        (Key::End, 2),
        (Key::Home, 0),
        (Key::Char('j'), 1),
        (Key::Char('x'), 1),
    ] {
        hit(&mut a, key(press));
        assert_eq!(selected(&a), at);
    }
    a.paste("ignored");
    assert!(matches!(hit(&mut a, key(Key::Enter)), Effect::Save));
    assert!(a.picker.is_none());
    assert_eq!(a.session.cursor(), None);
    assert_eq!(a.editor.text(), "one");
    run(&mut a, "/tree");
    hit(&mut a, key(Key::End));
    assert!(matches!(hit(&mut a, key(Key::Enter)), Effect::Save));
    assert_eq!(a.session.cursor(), Some(3));
    run(&mut a, "/tree");
    assert!(matches!(hit(&mut a, key(Key::Enter)), Effect::Nothing));
    run(&mut a, "/tree");
    hit(&mut a, key(Key::Esc));
    assert!(a.picker.is_none());
    assert!(matches!(a.select(), Effect::Nothing));
}

#[test]
fn sessions_are_picked_from() {
    let mut a = app();
    a.listed(Err("denied".into()));
    a.listed(Ok(vec![]));
    assert_eq!(said(&a), [(Kind::Warning, "denied"), (Kind::Warning, "No saved sessions")]);
    a.listed(Ok(vec![("/d/1-2.jsonl".into(), "this".into()), ("/d/3-4.jsonl".into(), "that".into())]));
    assert!(matches!(&a.picker.as_ref().unwrap().entries[1].0, Target::Session(p) if p == "/d/3-4.jsonl"));
    assert!(matches!(hit(&mut a, key(Key::Enter)), Effect::Open(p, false) if p == "/d/1-2.jsonl"));
    a.notice("gone with the view");
    a.opened(Ok(None), vec![skill("x")]);
    assert_eq!(a.session.header().id, "1-2");
    assert_eq!(a.skills[0].name, "x");
    assert!(a.feedback.is_empty());
    a.listed(Ok(vec![("/d/3-4.jsonl".into(), "that".into())]));
    assert!(matches!(hit(&mut a, key(Key::Enter)), Effect::Open(p, true) if p == "/d/3-4.jsonl"));
    a.opened(Err("Invalid session header".into()), vec![]);
    assert_eq!(a.skills.len(), 1);
    assert_eq!(said(&a), [(Kind::Warning, "Invalid session header")]);
    a.opened(Ok(Some(session("3-4"))), vec![]);
    assert_eq!(a.session.header().id, "3-4");
    a.renewed(session("5-6"), vec![skill("y")]);
    assert_eq!(a.session.header().id, "5-6");
    assert_eq!(a.skills[0].name, "y");
}

#[test]
fn keys_edit_the_input() {
    let mut a = app();
    for c in "ab c".chars() {
        hit(&mut a, key(Key::Char(c)));
    }
    assert_eq!(a.editor.text(), "ab c");
    hit(&mut a, Press { released: true, ..key(Key::Char('x')) });
    hit(&mut a, Press { alt: true, ..key(Key::Char('x')) });
    hit(&mut a, ctrl('x'));
    hit(&mut a, key(Key::Other));
    hit(&mut a, ctrl('d'));
    assert!(!a.quitting);
    assert_eq!(a.editor.text(), "ab c");
    hit(&mut a, ctrl('w'));
    hit(&mut a, ctrl('j'));
    hit(&mut a, Press { shift: true, ..key(Key::Enter) });
    hit(&mut a, key(Key::Char('z')));
    assert_eq!(a.editor.text(), "ab \n\nz");
    hit(&mut a, ctrl('u'));
    hit(&mut a, ctrl('u'));
    assert_eq!(a.editor.text(), "ab \n");
    hit(&mut a, key(Key::Up));
    assert_eq!(a.editor.cursor, 0);
    hit(&mut a, ctrl('e'));
    hit(&mut a, key(Key::Backspace));
    hit(&mut a, ctrl('a'));
    hit(&mut a, key(Key::Delete));
    hit(&mut a, key(Key::Right));
    assert_eq!((a.editor.text().as_str(), a.editor.cursor), ("b\n", 1));
    hit(&mut a, key(Key::Down));
    hit(&mut a, key(Key::Left));
    hit(&mut a, key(Key::Home));
    assert_eq!(a.editor.cursor, 0);
    hit(&mut a, key(Key::End));
    assert_eq!(a.editor.cursor, 1);
}

#[test]
fn control_c_stops_then_clears_then_quits() {
    let mut a = app();
    ask(&mut a, "go");
    a.paste("draft");
    hit(&mut a, ctrl('c'));
    assert!(a.stopping && a.editor.text() == "draft");
    a.hear(Event::Done(Err("Cancelled (partial response not saved)".into())));
    assert_eq!(a.title_status, TitleStatus::Ready);
    hit(&mut a, ctrl('c'));
    assert!(a.editor.chars.is_empty() && !a.quitting);
    hit(&mut a, ctrl('c'));
    assert!(a.over());
    let mut a = app();
    hit(&mut a, ctrl('d'));
    assert!(a.over());
}

#[test]
fn scrolling_keeps_the_layout() {
    let mut a = app();
    hit(&mut a, key(Key::PageUp));
    assert_eq!(a.scroll, 10);
    assert_eq!(a.scroll_layout, Some(ScrollAnchor { width: 40, expanded: false, total: 2 }));
    hit(&mut a, ctrl('o'));
    assert!(a.expanded);
    assert_eq!(a.scroll_layout, None);
    a.scroll_up(usize::MAX, None);
    assert_eq!(a.scroll, usize::MAX);
    a.scroll = 12;
    hit(&mut a, key(Key::PageDown));
    assert_eq!(a.scroll, 2);
    a.scroll_down(3);
    assert_eq!(a.scroll, 0);
}

#[test]
fn commands_are_completed() {
    let mut a = app();
    write(&mut a, "/");
    let menu = a.completion.as_ref().unwrap();
    assert_eq!(menu.entries.len(), 7);
    assert!(!menu.explicit);
    hit(&mut a, key(Key::Down));
    hit(&mut a, key(Key::Down));
    hit(&mut a, key(Key::Up));
    let menu = a.completion.as_ref().unwrap();
    assert_eq!((menu.selected, menu.explicit), (1, true));
    hit(&mut a, key(Key::Tab));
    assert_eq!(a.editor.text(), "/deploy ");
    assert!(a.completion.is_none());
    write(&mut a, "/mod");
    hit(&mut a, key(Key::Esc));
    assert!(a.completion.is_none() && a.dismissed);
    a.attend("/mod", 4);
    assert!(a.dismissed);
    a.attend("/mo", 3);
    assert!(!a.dismissed);
    write(&mut a, "/q");
    hit(&mut a, key(Key::Down));
    hit(&mut a, key(Key::Enter));
    assert!(a.quitting);
}

#[test]
fn files_are_completed() {
    let mut a = app();
    a.paste("see @ma");
    let look = a.lookup("/home/u");
    assert_eq!((look.folder, look.file.as_deref()), (None, Some("/w/ma")));
    assert!(a.refresh_completion(&vec![], false));
    assert!(!a.refresh_completion(&vec![], false));
    assert_eq!(a.patience(), 33);
    a.searched(Ok(vec!["lib/main.rs".into(), "make".into(), "x".into()]));
    a.searched(Err("late".into()));
    assert!(a.feedback.is_empty());
    assert_eq!(a.patience(), 1000);
    a.refresh_completion(&vec![], false);
    let labels: Vec<_> = a.completion.as_ref().unwrap().entries.iter().map(|e| e.label.as_str()).collect();
    assert_eq!(labels, ["make", "lib/main.rs"]);
    assert!(matches!(a.key(key(Key::Enter), None, "/home/u"), Effect::Nothing));
    assert_eq!(a.editor.text(), "see @make ");
    write(&mut a, "@~/d/f");
    let look = a.lookup("/home/u");
    assert_eq!((look.folder.as_deref(), look.file.as_deref()), (Some("/home/u/d/"), Some("/home/u/d/f")));
    assert!(!a.refresh_completion(&vec![("fo".into(), true), ("g".into(), false)], false));
    assert_eq!(a.completion.as_ref().unwrap().entries[0].text, "@~/d/fo/");
    assert!(a.files.files.is_empty());
    write(&mut a, "@./f");
    a.refresh_completion(&vec![("f".into(), false)], true);
    assert!(matches!(a.key(key(Key::Enter), None, "/home/u"), Effect::Attach(_, w) if w[0].path == "/w/./f"));
}

#[test]
fn a_failed_search_is_told() {
    let mut a = app();
    write(&mut a, "@x");
    a.searched(Err("no rg".into()));
    assert_eq!(said(&a), [(Kind::Warning, "File search: no rg")]);
    assert!(!a.files.running);
}

#[test]
fn settings_choose_the_model() {
    let m = first_model(None, None, None);
    assert_eq!(m, Model { name: "gpt-6-luna".into(), effort: Some("xhigh".into()), context: 272_000 });
    let m = first_model(Some("a".into()), Some("low".into()), Some("5000".into()));
    assert_eq!(m, Model { name: "a".into(), effort: Some("low".into()), context: 5_000 });
    for bad in ["", "0", "-1", "1k", "18446744073709551616", " 5"] {
        assert_eq!(first_model(None, None, Some(bad.into())).context, CONTEXT, "{bad}");
    }
    assert_eq!(first_model(None, None, Some("+7".into())).context, 7);
}

#[test]
fn texts_are_copied_to_the_terminal() {
    assert_eq!(clipboard("hé"), "\x1b]52;c;aMOp\x07");
    assert_eq!(clipboard(""), "\x1b]52;c;\x07");
}

#[test]
fn names_of_session_files() {
    for (path, name) in [
        ("/d/1-2.jsonl", "1-2"),
        ("1-2.jsonl", "1-2"),
        ("/d.x/ab", "ab"),
        ("/d/.hidden", ".hidden"),
        ("/d/a.b.c", "a.b"),
    ] {
        assert_eq!(stem(path), name);
    }
}
