use mu::instructions::build;
use mu::skills::{frontmatter, skills, Search, Skill, SkillFile};

fn file(path: &str, target: Option<&str>, source: Option<&str>) -> SkillFile {
    SkillFile {
        path: path.into(),
        target: target.map(Into::into),
        source: source.map(Into::into),
        folder: "folder".into(),
    }
}

#[test]
fn front_matter_gives_fields() {
    let text = "---\nname: 'x y'\ndescription: >-\n  one\n   two \n\nother: 1\n---\nname: z\n";
    assert_eq!(frontmatter(text, "name").as_deref(), Some("x y"));
    assert_eq!(frontmatter(text, "description").as_deref(), Some("one two"));
    assert_eq!(frontmatter(text, "other").as_deref(), Some("1"));
    assert_eq!(frontmatter(text, "nothing"), None);
    assert_eq!(frontmatter("name: x\n---\n", "name"), None);
    assert_eq!(frontmatter("", "name"), None);
    assert_eq!(frontmatter(" --- \r\nname: \"q'\r\n", "name").as_deref(), Some("q"));
    assert_eq!(frontmatter("---\nname: |\n", "name").as_deref(), Some(""));
    assert_eq!(frontmatter("---\nname:\n", "name").as_deref(), Some(""));
    assert_eq!(frontmatter("---\nxname: a\nname: b\nname: c", "name").as_deref(), Some("b"));
}

#[test]
fn the_same_file_is_one_skill() {
    let good = "---\nname: good\ndescription: d\n---\n";
    let files = vec![
        file("/a/SKILL.md", Some("/real"), Some(good)),
        file("/b/SKILL.md", Some("/real"), Some(good)),
        file("/c/SKILL.md", None, Some(good)),
        file("/d/SKILL.md", Some("/d"), None),
        file("/e/SKILL.md", Some("/d"), Some(good)),
        file("/f/SKILL.md", Some("/f"), Some("---\nname: x\n---")),
        file("/g/SKILL.md", Some("/g"), Some("---\ndescription: e\n---")),
    ];
    let found = skills(&files);
    let shown: Vec<_> = found.iter().map(|s| (s.name.as_str(), s.path.as_str(), s.description.as_str())).collect();
    assert_eq!(shown, [("good", "/a/SKILL.md", "d"), ("folder", "/g/SKILL.md", "e")]);
}

#[test]
fn skills_are_searched_in_order() {
    // Folder: whether it holds a skill, and what is in it.
    let look = |dir: &str| -> (bool, Vec<String>) {
        let inner = |names: &[&str]| names.iter().map(|n| format!("{dir}/{n}")).collect();
        match dir {
            "/one" => (false, inner(&["z", "b", "a-b", "a"])),
            "/one/a" => (true, inner(&["hidden"])),
            "/one/b" => (false, inner(&["1"])),
            "/one/b/1" => (false, inner(&["2"])),
            "/one/b/1/2" => (false, inner(&["3"])),
            "/one/b/1/2/3" => (false, inner(&["4"])),
            "/two" => (true, vec![]),
            _ => (true, vec![]),
        }
    };
    let mut search = Search::new(vec!["/one".into(), "/two".into()]);
    let mut seen = vec![];
    while let Some((dir, depth)) = search.next() {
        let (skill, folders) = look(&dir);
        seen.push((dir.clone(), depth));
        search.visit(dir, depth, skill, folders);
    }
    let order: Vec<_> = seen.iter().map(|(d, n)| (d.as_str(), *n)).collect();
    assert_eq!(
        order,
        [
            ("/one", 0),
            ("/one/a", 1),
            ("/one/a-b", 1),
            ("/one/b", 1),
            ("/one/b/1", 2),
            ("/one/b/1/2", 3),
            ("/one/b/1/2/3", 4),
            ("/one/z", 1),
            ("/two", 0)
        ]
    );
    assert_eq!(
        search.found(),
        ["/one/a/SKILL.md", "/one/a-b/SKILL.md", "/one/z/SKILL.md", "/two/SKILL.md"]
    );
}

#[test]
fn instructions_tell_what_there_is() {
    assert_eq!(build("/w", &vec![], &vec![]), "You are coding agent\n\ncwd:/w");
    let list = vec![
        Skill { name: "a".into(), path: "/s/a".into(), description: "does a".into() },
        Skill { name: "b".into(), path: "/s/b".into(), description: "does b".into() },
    ];
    assert_eq!(
        build("/w", &vec!["outer".into(), "inner".into()], &list),
        "You are coding agent\n\nProject Instructions:\nouter\n\ninner\n\nSkills:\n/s/a: does a\n/s/b: does b\n\ncwd:/w"
    );
}
