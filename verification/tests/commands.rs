use mu::commands::{choices, resolve, BuiltinKind, Choice};
use mu::skills::Skill;

fn skill(name: &str) -> Skill {
    Skill { name: name.into(), path: format!("/{name}"), description: format!("does {name}") }
}

#[test]
fn commands_are_listed_in_order() {
    let skills = vec![skill("zeta"), skill("über-1_.x"), skill("no space"), skill(""), skill("quit"), skill("a")];
    let list = choices(&skills);
    let names: Vec<_> = list.iter().map(|n| n.name.as_str()).collect();
    assert_eq!(names, ["/a", "/copy", "/model", "/new", "/quit", "/resume", "/tree", "/zeta", "/über-1_.x"]);
    let hints: Vec<_> = list.iter().map(|n| n.hint.as_str()).collect();
    assert_eq!(
        hints,
        [
            "does a",
            "[agent|user]",
            "<model> [effort|-] [context]",
            "new conversation",
            "quit",
            "resume session",
            "conversation tree",
            "does zeta",
            "does über-1_.x"
        ]
    );
}

#[test]
fn a_command_comes_before_a_skill() {
    let skills = vec![skill("quit"), skill("new")];
    match resolve("/quit", &skills).unwrap() {
        (name, Choice::Builtin(b)) => {
            assert_eq!(name, "/quit");
            assert_eq!(b.kind, BuiltinKind::Quit);
            assert_eq!(b.name, "/quit");
            assert_eq!(b.hint, "quit");
        }
        other => panic!("{other:?}"),
    }
}

#[test]
fn the_last_skill_of_a_name_is_taken() {
    let skills = vec![skill("x"), skill("y"), skill("x")];
    assert!(matches!(resolve("/x", &skills), Ok((_, Choice::Skill(2)))));
    assert_eq!(choices(&skills).len(), 8);
}

#[test]
fn a_word_is_taken_for_the_one_that_it_begins() {
    let skills = vec![skill("review"), skill("copy-edit")];
    match resolve("/m", &skills).unwrap() {
        (name, Choice::Builtin(b)) => assert_eq!((name.as_str(), b.kind), ("/model", BuiltinKind::Model)),
        other => panic!("{other:?}"),
    }
    assert!(matches!(resolve("/rev", &skills), Ok((name, Choice::Skill(0))) if name == "/review"));
    // A word that is a whole name is not a beginning.
    assert!(matches!(resolve("/copy", &skills), Ok((name, Choice::Builtin(_))) if name == "/copy"));
    assert_eq!(resolve("/x", &skills).unwrap_err(), "Unknown command or skill: /x");
    assert_eq!(resolve("/re", &skills).unwrap_err(), "Choose a command: /resume, /review");
    assert_eq!(
        resolve("/", &vec![]).unwrap_err(),
        "Choose a command: /copy, /model, /new, /quit, /resume, /tree"
    );
}
