use mu::input::{
    ask, file_entry, folder, index_fits, join_path, mentions, menu, path, prepare, rank, read_text, score,
    search_result, wanted, Ask, FileSearch, Snapshot, Wanted,
};
use mu::process::Exit;
use mu::session::Record;
use mu::skills::Skill;

fn found(text: &str) -> Vec<(usize, usize, String, bool, bool)> {
    mentions(text).into_iter().map(|m| (m.start, m.end, m.path, m.quoted, m.closed)).collect()
}

fn skill(name: &str) -> Skill {
    Skill { name: name.into(), path: format!("/s/{name}"), description: format!("does {name}") }
}

#[test]
fn mentions_are_found() {
    assert_eq!(found("see @a/b.rs, and mail x@y.z"), [(4, 12, "a/b.rs,".into(), false, true)]);
    assert_eq!(found("@\"a \\\"b\\\\ \\c\" @x"), [
        (0, 13, "a \"b\\ \\c".into(), true, true),
        (14, 16, "x".into(), false, true)
    ]);
    assert_eq!(found("@@x @ @\"open"), [
        (4, 5, "".into(), false, true),
        (6, 12, "open".into(), true, false)
    ]);
    assert_eq!(found("é @é\u{a0}@z"), [(2, 4, "é".into(), false, true), (5, 7, "z".into(), false, true)]);
    assert_eq!(found(""), []);
}

#[test]
fn completion_mentions_the_file() {
    for name in ["a", "a b", "x/y.rs", "@x", "say \"hi\"", "back\\slash", "é…"] {
        let entry = file_entry(name.to_string());
        assert_eq!(entry.label, name);
        assert!(entry.text.ends_with(' '));
        let read = mentions(&entry.text);
        assert_eq!(read.len(), 1, "{name}");
        assert_eq!(read[0].path, name);
        assert!(read[0].closed);
        let folder = format!("{name}/");
        let entry = file_entry(folder.clone());
        let read = mentions(&entry.text);
        assert_eq!(read.len(), 1, "{name}");
        assert_eq!(read[0].path, folder);
        assert_eq!(read[0].closed, !read[0].quoted, "{name}");
        assert_eq!(read[0].end, entry.text.chars().count());
    }
    let nameless = file_entry(String::new());
    assert_eq!(nameless.text, "@ ");
    assert_eq!(found(&nameless.text), [(0, 1, "".into(), false, true)]);
    assert_eq!(found("@\"a b/"), [(0, 6, "a b/".into(), true, false)]);
    assert_eq!(found("@ab/"), [(0, 4, "ab/".into(), false, true)]);
    assert_eq!(file_entry("a b".into()).text, "@\"a b\" ");
    assert_eq!(file_entry("a b/".into()).text, "@\"a b/");
    assert_eq!(file_entry("ab/".into()).text, "@ab/");
}

#[test]
fn paths_are_located() {
    assert_eq!(path("/w", "/home/u", "a/b"), "/w/a/b");
    assert_eq!(path("/w", "/home/u", "~/x"), "/home/u/x");
    assert_eq!(path("/w", "/home/u", "/abs"), "/abs");
    assert_eq!(path("/w", "/home/u", "~x"), "/w/~x");
    assert_eq!(path("/", "", "~/x"), "x");
    assert_eq!(join_path("/", "x"), "/x");
    assert_eq!(join_path("", "x"), "x");
}

#[test]
fn only_text_is_attached() {
    assert_eq!(read_text("/f", true, "é".into()), Ok("é".into()));
    assert_eq!(read_text("/f", false, vec![]).unwrap_err(), "/f is not a regular file");
    assert_eq!(read_text("/f", true, vec![b'x'; 1024 * 1024]).unwrap().len(), 1024 * 1024);
    assert_eq!(read_text("/f", true, vec![b'x'; 1024 * 1024 + 1]).unwrap_err(), "/f exceeds 1 MiB");
    assert_eq!(
        read_text("/f", true, b"a\0b".to_vec()).unwrap_err(),
        "/f is binary; @ mentions accept text files"
    );
    assert_eq!(
        read_text("/f", true, b"a\xffb".to_vec()).unwrap_err(),
        "invalid utf-8 sequence of 1 bytes from index 1"
    );
}

#[test]
fn a_message_carries_what_it_mentions() {
    let asked = wanted("@a and @ and @~/b", "/w", "/h", Some(&skill("fix"))).unwrap();
    let shown: Vec<_> = asked.iter().map(|w| (w.label.as_str(), w.path.as_str(), w.keep)).collect();
    assert_eq!(shown, [("Skill: /fix", "/s/fix", true), ("File", "/w/a", false), ("File", "/h/b", false)]);
    assert!(wanted("no mention", "/w", "/h", None).unwrap().is_empty());
    assert_eq!(wanted("@a @\"b", "/w", "/h", None).unwrap_err(), "Unclosed @\"file name\" mention");
}

fn snapshot(path: &str, target: Result<&str, &str>, body: Result<&str, &str>, keep: bool) -> Snapshot {
    Snapshot {
        wanted: Wanted { label: "File".into(), path: path.into(), keep },
        target: target.map(Into::into).map_err(Into::into),
        body: body.map(Into::into).map_err(Into::into),
    }
}

#[test]
fn files_are_attached_once() {
    let files = vec![
        snapshot("/link", Ok("/real"), Ok("body"), true),
        snapshot("/other", Ok("/real"), Err("not read"), false),
        snapshot("/rel", Ok("/abs"), Ok("two"), false),
    ];
    let message = prepare("hi".into(), files).unwrap();
    assert_eq!(message.text, "hi");
    let shown: Vec<_> = message
        .attachments
        .iter()
        .map(|r| match r {
            Record::Attachment { label, path, text } => (label.as_str(), path.as_str(), text.as_str()),
            _ => unreachable!(),
        })
        .collect();
    assert_eq!(shown, [("File", "/link", "body"), ("File", "/abs", "two")]);
}

#[test]
fn files_that_cannot_be_attached_are_refused() {
    let gone = vec![snapshot("/a", Err("gone"), Ok(""), false)];
    assert_eq!(prepare("".into(), gone).unwrap_err(), "/a: gone");
    let bad = vec![snapshot("/a", Ok("/a"), Err("bad"), false), snapshot("/b", Err("gone"), Ok(""), false)];
    assert_eq!(prepare("".into(), bad).unwrap_err(), "/a: bad");
    let limit = 4 * 1024 * 1024;
    let body = "x".repeat(limit - 1 - 4 - 2 - 5);
    let fits = vec![snapshot("/a", Ok("/a"), Ok(&body), false)];
    assert!(prepare("t".into(), fits).is_ok());
    let large = vec![snapshot("/a", Ok("/a"), Ok(&body), false)];
    assert_eq!(prepare("tt".into(), large).unwrap_err(), "Attached context exceeds 4 MiB");
    assert!(prepare("x".repeat(limit + 1), vec![]).is_ok());
}

#[test]
fn names_are_ranked() {
    assert_eq!(score("src/Main.rs", "SRC"), Some(0));
    assert_eq!(score("src/main.rs", "ma"), Some(1));
    assert_eq!(score("src/main.rs", "sm"), Some(2 + 3));
    assert_eq!(score("src/main.rs", "rs"), Some(2 + 1 + 8));
    assert_eq!(score("src/main.rs", "zz"), None);
    assert_eq!(score("x", ""), Some(0));
    assert_eq!(score("éa", "a"), Some(2 + 2));
    assert_eq!(score("ÉA", "é"), Some(0));
    assert_eq!(score("ΣΑΣ", "σας"), Some(0));
    let chars = |s: &str| s.chars().collect::<Vec<_>>();
    assert_eq!(rank(&chars("a/bc"), &chars("ac")), Some(2 + 2));
    assert_eq!(rank(&chars("ab"), &chars("ba")), None);
}

#[test]
fn what_is_completed_is_found() {
    let at = |text: &str, cursor| match ask(text, cursor) {
        None => "nothing".to_string(),
        Some(Ask::Command { start, end, word }) => format!("command {start}..{end} {word}"),
        Some(Ask::File { start, end, query }) => format!("file {start}..{end} {query}"),
    };
    assert_eq!(at("  /mo x", 4), "command 2..5 /m");
    assert_eq!(at("/", 1), "command 0..1 /");
    assert_eq!(at("/model x", 8), "nothing");
    assert_eq!(at("say @src/m later", 7), "file 4..10 sr");
    assert_eq!(at("say @src", 99), "nothing");
    assert_eq!(at("@", 1), "file 0..1 ");
    assert_eq!(at("@@", 1), "nothing");
    assert_eq!(at("@\"a b", 5), "file 0..5 a b");
    assert_eq!(at("@\"a\" ", 4), "nothing");
    assert_eq!(at("x @a b", 6), "nothing");
    assert_eq!(at("", 0), "nothing");
}

fn entries(m: mu::input::Menu) -> Vec<(String, String)> {
    m.entries.into_iter().map(|e| (e.text, e.label)).collect()
}

#[test]
fn commands_are_offered() {
    let m = menu(ask("/re", 3).unwrap(), &vec![skill("review")], &vec![], &vec![], false);
    assert_eq!((m.range.start, m.range.end, m.query.as_str(), m.file), (0, 3, "/re", false));
    assert_eq!(m.replacement().as_deref(), Some("/resume "));
    assert_eq!(
        entries(m),
        [
            ("/resume ".to_string(), "/resume  resume session".to_string()),
            ("/review ".to_string(), "/review  does review".to_string())
        ]
    );
    let none = menu(ask("/zz", 3).unwrap(), &vec![], &vec![], &vec![], false);
    assert_eq!(none.replacement(), None);
}

#[test]
fn files_are_offered_best_first() {
    let files: Vec<String> =
        ["b/main.rs", "main.rs", "domain", "m a", "zzz"].iter().map(|s| s.to_string()).collect();
    let m = menu(ask("@ma", 3).unwrap(), &vec![], &files, &vec![], true);
    assert!(m.file && m.exact_file && !m.explicit);
    assert_eq!(m.selected, 0);
    let labels: Vec<_> = entries(m).into_iter().map(|e| e.1).collect();
    assert_eq!(labels, ["main.rs", "b/main.rs", "m a", "domain"]);
    let many: Vec<String> = (0..100).rev().map(|i| format!("f{i:02}")).collect();
    let m = menu(ask("@", 1).unwrap(), &vec![], &many, &vec![], true);
    assert!(!m.exact_file);
    let labels: Vec<_> = entries(m).into_iter().map(|e| e.1).collect();
    assert_eq!(labels, (60..100).map(|i| format!("f{i:02}")).collect::<Vec<_>>());
    let m = menu(ask("@f", 2).unwrap(), &vec![], &many, &vec![], false);
    let labels: Vec<_> = entries(m).into_iter().map(|e| e.1).collect();
    assert_eq!(labels, (0..40).map(|i| format!("f{i:02}")).collect::<Vec<_>>());
}

#[test]
fn folders_are_offered() {
    assert_eq!(folder("src/x"), None);
    assert_eq!(folder("./src/x"), Some(("./src/".into(), "x".into())));
    assert_eq!(folder("/"), Some(("/".into(), "".into())));
    assert_eq!(folder("~/a"), Some(("~/".into(), "a".into())));
    assert_eq!(folder("../"), Some(("../".into(), "".into())));
    let listed: Vec<(String, bool)> = vec![
        ("xb".into(), false),
        ("xa".into(), true),
        ("y".into(), false),
        ("x\u{1}".into(), false),
        ("x c".into(), false),
    ];
    let m = menu(ask("@./src/x", 8).unwrap(), &vec![], &vec!["./src/x".into()], &listed, false);
    assert_eq!(
        entries(m),
        [
            ("@\"./src/x c\" ".to_string(), "./src/x c".to_string()),
            ("@./src/xa/".to_string(), "./src/xa/".to_string()),
            ("@./src/xb ".to_string(), "./src/xb".to_string())
        ]
    );
}

#[test]
fn indexes_are_read() {
    let exit = |code, timed_out| Exit { code, timed_out, cancelled: false };
    let data = b"b\0a\0\0a\0bad\xff\0ctl\x01\0last";
    assert_eq!(search_result(exit(0, false), data).unwrap(), ["a", "b", "last"]);
    assert_eq!(search_result(exit(1, false), b"").unwrap(), Vec::<String>::new());
    assert_eq!(search_result(exit(-1, false), b"x\0").unwrap(), ["x"]);
    let e = "File search failed; check ripgrep (rg) or use an explicit path";
    assert_eq!(search_result(exit(2, false), data).unwrap_err(), e);
    assert_eq!(search_result(exit(0, true), data).unwrap_err(), e);
    assert_eq!(index_fits(8 * 1024 * 1024, 0), Ok(()));
    assert_eq!(
        index_fits(8 * 1024 * 1024, 1).unwrap_err(),
        "File index exceeds 8 MiB; use @./directory/ instead"
    );
    assert!(index_fits(usize::MAX, usize::MAX).is_err());
}

#[test]
fn a_folder_is_searched_once() {
    let mut search = FileSearch::default();
    assert!(!search.pending());
    assert!(search.start("/w"));
    assert!(search.pending());
    assert!(!search.start("/w"));
    assert_eq!(search.poll(None), None);
    assert_eq!(search.poll(Some(Ok(vec!["a".into()]))), Some(Ok(())));
    assert_eq!(search.files, ["a"]);
    assert!(!search.pending());
    assert_eq!(search.poll(Some(Ok(vec![]))), None);
    assert_eq!(search.files, ["a"]);
    assert!(!search.start("/w"));
    assert!(search.start("/x"));
    assert!(search.files.is_empty());
    assert_eq!(search.poll(Some(Err("no".into()))), Some(Err("no".into())));
}
