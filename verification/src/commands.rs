//! The commands that can be typed, and how a word is taken for one.
use crate::order::{self, less};
use crate::skills::{skill_views, Skill, SkillView};
use crate::text::{self, join, texts};
use vstd::prelude::*;
use vstd::string::StringExecFns;

verus! {

/// The commands of the program itself.
#[derive(Clone, Copy, PartialEq, Eq, Structural, Debug)]
pub enum BuiltinKind {
    Model,
    New,
    Resume,
    Tree,
    Copy,
    Quit,
}

/// A command of the program itself.
#[derive(Clone, Copy, Debug)]
pub struct Builtin {
    pub kind: BuiltinKind,
    pub name: &'static str,
    pub hint: &'static str,
}

/// What a command is typed as.
pub open spec fn builtin_name(kind: BuiltinKind) -> Seq<char> {
    match kind {
        BuiltinKind::Model => "/model"@,
        BuiltinKind::New => "/new"@,
        BuiltinKind::Resume => "/resume"@,
        BuiltinKind::Tree => "/tree"@,
        BuiltinKind::Copy => "/copy"@,
        BuiltinKind::Quit => "/quit"@,
    }
}

/// What is said of a command.
pub open spec fn builtin_hint(kind: BuiltinKind) -> Seq<char> {
    match kind {
        BuiltinKind::Model => "<model> [effort|-] [context]"@,
        BuiltinKind::New => "new conversation"@,
        BuiltinKind::Resume => "resume session"@,
        BuiltinKind::Tree => "conversation tree"@,
        BuiltinKind::Copy => "[agent|user]"@,
        BuiltinKind::Quit => "quit"@,
    }
}

impl Builtin {
    /// The name and the words are those of the command.
    pub open spec fn wf(self) -> bool {
        self.name@ == builtin_name(self.kind) && self.hint@ == builtin_hint(self.kind)
    }
}

fn builtin(kind: BuiltinKind) -> (r: Builtin)
    ensures
        r.kind == kind,
        r.wf(),
{
    match kind {
        BuiltinKind::Model => Builtin { kind, name: "/model", hint: "<model> [effort|-] [context]" },
        BuiltinKind::New => Builtin { kind, name: "/new", hint: "new conversation" },
        BuiltinKind::Resume => Builtin { kind, name: "/resume", hint: "resume session" },
        BuiltinKind::Tree => Builtin { kind, name: "/tree", hint: "conversation tree" },
        BuiltinKind::Copy => Builtin { kind, name: "/copy", hint: "[agent|user]" },
        BuiltinKind::Quit => Builtin { kind, name: "/quit", hint: "quit" },
    }
}

/// What a word stands for: a command of the program, or the skill of that
/// number.
#[derive(Clone, Copy, Debug)]
pub enum Choice {
    Builtin(Builtin),
    Skill(usize),
}

/// The model of [`Choice`].
pub enum ChoiceView {
    Builtin(BuiltinKind),
    Skill(int),
}

impl View for Choice {
    type V = ChoiceView;

    open spec fn view(&self) -> ChoiceView {
        match self {
            Choice::Builtin(b) => ChoiceView::Builtin(b.kind),
            Choice::Skill(i) => ChoiceView::Skill(*i as int),
        }
    }
}

impl Choice {
    /// A command of the program says what it should.
    pub open spec fn wf(self) -> bool {
        match self {
            Choice::Builtin(b) => b.wf(),
            Choice::Skill(_) => true,
        }
    }
}

/// Whether std takes a character for a letter or a number.
pub uninterp spec fn letter_or_number(c: char) -> bool;

/// Letters and digits of ASCII.
pub open spec fn ascii_word(c: char) -> bool {
    ('a' <= c && c <= 'z') || ('A' <= c && c <= 'Z') || ('0' <= c && c <= '9')
}

/// `char::is_alphanumeric` of std: whether Unicode takes the character for a
/// letter or a number. Of ASCII those are the letters and the digits.
#[verifier::external_body]
fn alphanumeric(c: char) -> (r: bool)
    ensures
        r == letter_or_number(c),
        c <= '\u{7f}' ==> r == ascii_word(c),
{
    c.is_alphanumeric()
}

/// Whether a character may stand in the name of a skill that is typed, given
/// whether it is a letter or a number.
pub open spec fn nameable(c: char, alphanumeric: bool) -> bool {
    alphanumeric || c == '-' || c == '_' || c == '.'
}

/// Whether a skill can be typed by its name.
pub open spec fn typable(name: Seq<char>) -> bool {
    name.len() > 0 && forall|k: int| 0 <= k < name.len() ==> nameable(#[trigger] name[k], letter_or_number(name[k]))
}

/// The command of the program that `word` names.
pub open spec fn builtin_named(word: Seq<char>) -> Option<BuiltinKind> {
    if word == "/model"@ {
        Some(BuiltinKind::Model)
    } else if word == "/new"@ {
        Some(BuiltinKind::New)
    } else if word == "/resume"@ {
        Some(BuiltinKind::Resume)
    } else if word == "/tree"@ {
        Some(BuiltinKind::Tree)
    } else if word == "/copy"@ {
        Some(BuiltinKind::Copy)
    } else if word == "/quit"@ {
        Some(BuiltinKind::Quit)
    } else {
        None
    }
}

/// What a skill is typed as.
pub open spec fn skill_name(skill: SkillView) -> Seq<char> {
    "/"@ + skill.name
}

/// The last of the skills that `word` names.
pub open spec fn skill_named(skills: Seq<SkillView>, word: Seq<char>) -> Option<int>
    decreases skills.len(),
{
    if skills.len() == 0 {
        None
    } else if typable(skills.last().name) && skill_name(skills.last()) == word {
        Some(skills.len() - 1)
    } else {
        skill_named(skills.drop_last(), word)
    }
}

/// What `word` stands for. A command of the program comes before a skill, and a
/// later skill before an earlier one.
pub open spec fn choice_of(skills: Seq<SkillView>, word: Seq<char>) -> Option<ChoiceView> {
    match builtin_named(word) {
        Some(kind) => Some(ChoiceView::Builtin(kind)),
        None => match skill_named(skills, word) {
            Some(i) => Some(ChoiceView::Skill(i)),
            None => None,
        },
    }
}

/// What is said of a choice.
pub open spec fn choice_hint(skills: Seq<SkillView>, choice: ChoiceView) -> Seq<char> {
    match choice {
        ChoiceView::Builtin(kind) => builtin_hint(kind),
        ChoiceView::Skill(i) => skills[i].description,
    }
}

/// Whether `names` are all the words that stand for something, in order.
pub open spec fn lists(names: Seq<Seq<char>>, skills: Seq<SkillView>) -> bool {
    &&& forall|i: int, j: int| 0 <= i < j < names.len() ==> less(#[trigger] names[i], #[trigger] names[j])
    &&& forall|word: Seq<char>| #[trigger] names.contains(word) <==> choice_of(skills, word) is Some
}

/// All the words that stand for something, in order.
pub open spec fn all_names(skills: Seq<SkillView>) -> Seq<Seq<char>> {
    choose|names: Seq<Seq<char>>| lists(names, skills)
}

/// A word that stands for something.
#[derive(Debug)]
pub struct Named {
    pub name: String,
    pub choice: Choice,
    pub hint: String,
}

/// The words.
pub open spec fn named_names(list: Seq<Named>) -> Seq<Seq<char>> {
    list.map_values(|n: Named| n.name@)
}

/// Whether each word comes with what it stands for and what is said of that.
pub open spec fn named_right(list: Seq<Named>, skills: Seq<SkillView>) -> bool {
    forall|k: int|
        0 <= k < list.len() ==> {
            let n = #[trigger] list[k];
            n.choice.wf() && choice_of(skills, n.name@) == Some(n.choice@) && n.hint@ == choice_hint(skills, n.choice@)
        }
}

fn can_type(name: &str) -> (r: bool)
    ensures
        r == typable(name@),
{
    let chars = text::chars(name);
    if chars.len() == 0 {
        return false;
    }
    let mut i: usize = 0;
    while i < chars.len()
        invariant
            i <= chars@.len(),
            chars@ == name@,
            forall|k: int| 0 <= k < i ==> nameable(#[trigger] name@[k], letter_or_number(name@[k])),
        decreases chars@.len() - i,
    {
        let c = chars[i];
        if !(alphanumeric(c) || c == '-' || c == '_' || c == '.') {
            assert(!nameable(name@[i as int], letter_or_number(name@[i as int])));
            return false;
        }
        i += 1;
    }
    true
}

fn find_builtin(word: &str) -> (r: Option<BuiltinKind>)
    ensures
        r == builtin_named(word@),
{
    if text::same(word, "/model") {
        Some(BuiltinKind::Model)
    } else if text::same(word, "/new") {
        Some(BuiltinKind::New)
    } else if text::same(word, "/resume") {
        Some(BuiltinKind::Resume)
    } else if text::same(word, "/tree") {
        Some(BuiltinKind::Tree)
    } else if text::same(word, "/copy") {
        Some(BuiltinKind::Copy)
    } else if text::same(word, "/quit") {
        Some(BuiltinKind::Quit)
    } else {
        None
    }
}

/// What `word` stands for.
pub fn choice(word: &str, skills: &Vec<Skill>) -> (r: Option<Choice>)
    ensures
        r is Some <==> choice_of(skill_views(skills@), word@) is Some,
        r matches Some(c) ==> c.wf() && choice_of(skill_views(skills@), word@) == Some(c@),
        r matches Some(Choice::Skill(i)) ==> i < skills@.len(),
{
    if let Some(kind) = find_builtin(word) {
        return Some(Choice::Builtin(builtin(kind)));
    }
    let ghost all = skill_views(skills@);
    let mut i: usize = skills.len();
    assert(all.take(i as int) =~= all);
    while i > 0
        invariant
            i <= skills@.len(),
            all == skill_views(skills@),
            builtin_named(word@) is None,
            skill_named(all, word@) == skill_named(all.take(i as int), word@),
        decreases i,
    {
        i -= 1;
        proof {
            assert(all.take(i + 1).drop_last() =~= all.take(i as int));
            assert(all.take(i + 1).last() == skills@[i as int]@);
        }
        if can_type(&skills[i].name) && text::same(&text::cat("/", &skills[i].name), word) {
            return Some(Choice::Skill(i));
        }
    }
    None
}

proof fn lemma_skill_named(skills: Seq<SkillView>, word: Seq<char>)
    ensures
        skill_named(skills, word) is Some <==> exists|i: int|
            0 <= i < skills.len() && typable((#[trigger] skills[i]).name) && skill_name(skills[i]) == word,
        skill_named(skills, word) matches Some(i) ==> 0 <= i < skills.len() && skill_name(skills[i]) == word,
    decreases skills.len(),
{
    if skills.len() > 0 {
        let start = skills.drop_last();
        lemma_skill_named(start, word);
        if skill_named(start, word) is Some {
            let i = choose|i: int|
                0 <= i < start.len() && typable((#[trigger] start[i]).name) && skill_name(start[i]) == word;
            assert(skills[i] == start[i]);
        }
        if skill_named(skills, word) is None {
            assert forall|i: int| 0 <= i < skills.len() implies !(typable((#[trigger] skills[i]).name) && skill_name(
                skills[i],
            ) == word) by {
                if i < start.len() {
                    assert(skills[i] == start[i]);
                }
            }
        } else {
            assert(skills.last() == skills[skills.len() - 1]);
        }
    }
}

/// The names of the commands of the program.
spec fn builtin_names() -> Seq<Seq<char>> {
    seq!["/model"@, "/new"@, "/resume"@, "/tree"@, "/copy"@, "/quit"@]
}

/// All words that stand for something, with what they stand for. Completion and
/// submission both go by them.
pub fn choices(skills: &Vec<Skill>) -> (r: Vec<Named>)
    ensures
        named_names(r@) == all_names(skill_views(skills@)),
        lists(named_names(r@), skill_views(skills@)),
        named_right(r@, skill_views(skills@)),
{
    let ghost all = skill_views(skills@);
    let mut names: Vec<String> = vec![
        "/model".to_owned(),
        "/new".to_owned(),
        "/resume".to_owned(),
        "/tree".to_owned(),
        "/copy".to_owned(),
        "/quit".to_owned(),
    ];
    let ghost first = texts(names@);
    assert(first =~= builtin_names());
    let mut i: usize = 0;
    proof {
        assert forall|word: Seq<char>| #[trigger] first.contains(word) <==> builtin_named(word) is Some by {
            if builtin_named(word) is Some {
                assert(word == first[0] || word == first[1] || word == first[2] || word == first[3] || word == first[4]
                    || word == first[5]);
            }
        }
    }
    while i < skills.len()
        invariant
            i <= skills@.len(),
            all == skill_views(skills@),
            forall|word: Seq<char>|
                #[trigger] texts(names@).contains(word) <==> choice_of(all.take(i as int), word) is Some,
        decreases skills@.len() - i,
    {
        let ghost done = texts(names@);
        let ghost next = all.take(i + 1);
        proof {
            assert(next.drop_last() =~= all.take(i as int));
            assert(next.last() == skills@[i as int]@);
        }
        if can_type(&skills[i].name) {
            let name = text::cat("/", &skills[i].name);
            let ghost n = name@;
            names.push(name);
            proof {
                assert(texts(names@) =~= done.push(n));
                assert forall|word: Seq<char>| #[trigger] texts(names@).contains(word) <==> choice_of(next, word)
                    is Some by {
                    order::lemma_contains_push(done, n, word);
                    assert(done.contains(word) <==> choice_of(all.take(i as int), word) is Some);
                }
            }
        } else {
            proof {
                assert forall|word: Seq<char>| #[trigger] texts(names@).contains(word) <==> choice_of(next, word)
                    is Some by {
                    assert(done.contains(word) <==> choice_of(all.take(i as int), word) is Some);
                }
            }
        }
        i += 1;
    }
    assert(all.take(i as int) =~= all);
    let names = order::sort_distinct(names);
    let ghost list = texts(names@);
    let mut out: Vec<Named> = Vec::new();
    let mut k: usize = 0;
    while k < names.len()
        invariant
            k <= names@.len(),
            all == skill_views(skills@),
            list == texts(names@),
            lists(list, all),
            out@.len() == k,
            named_right(out@, all),
            forall|j: int| 0 <= j < k ==> (#[trigger] out@[j]).name@ == list[j],
        decreases names@.len() - k,
    {
        let name = &names[k];
        proof {
            assert(list[k as int] == name@);
            assert(list.contains(list[k as int]));
            lemma_skill_named(all, name@);
        }
        let chosen = match choice(name, skills) {
            Some(c) => c,
            None => vstd::pervasive::unreached(),
        };
        let hint = match chosen {
            Choice::Builtin(b) => b.hint.to_owned(),
            Choice::Skill(j) => skills[j].description.clone(),
        };
        out.push(Named { name: name.clone(), choice: chosen, hint });
        k += 1;
    }
    assert(named_names(out@) =~= list);
    proof {
        law_choices_are_unique(list, all_names(all), all);
    }
    out
}

/// The words that begin with `start`.
pub open spec fn beginning_with(names: Seq<Seq<char>>, start: Seq<char>) -> Seq<Seq<char>>
    decreases names.len(),
{
    if names.len() == 0 {
        seq![]
    } else {
        let before = beginning_with(names.drop_last(), start);
        if start.is_prefix_of(names.last()) {
            before.push(names.last())
        } else {
            before
        }
    }
}

/// What a word is taken for: itself, or else the one word that it begins.
pub open spec fn resolved(skills: Seq<SkillView>, word: Seq<char>) -> Result<(Seq<char>, ChoiceView), Seq<char>> {
    let found = beginning_with(all_names(skills), word);
    if choice_of(skills, word) is Some {
        Ok((word, choice_of(skills, word)->0))
    } else if found.len() == 1 {
        Ok((found[0], choice_of(skills, found[0])->0))
    } else if found.len() == 0 {
        Err("Unknown command or skill: "@ + word)
    } else {
        Err("Choose a command: "@ + join(found, ", "@))
    }
}

proof fn lemma_beginning_with(names: Seq<Seq<char>>, start: Seq<char>)
    ensures
        forall|k: int|
            0 <= k < beginning_with(names, start).len() ==> names.contains(#[trigger] beginning_with(names, start)[k]),
    decreases names.len(),
{
    if names.len() > 0 {
        let rest = names.drop_last();
        let found = beginning_with(names, start);
        lemma_beginning_with(rest, start);
        assert forall|k: int| 0 <= k < found.len() implies names.contains(#[trigger] found[k]) by {
            let before = beginning_with(rest, start);
            if k < before.len() {
                assert(found[k] == before[k]);
                let j = choose|j: int| 0 <= j < rest.len() && rest[j] == before[k];
                assert(names[j] == found[k]);
            } else {
                assert(names[names.len() - 1] == found[k]);
            }
        }
    }
}

/// What came of a word.
pub open spec fn resolved_view(r: Result<(String, Choice), String>) -> Result<(Seq<char>, ChoiceView), Seq<char>> {
    match r {
        Ok((name, choice)) => Ok((name@, choice@)),
        Err(e) => Err(e@),
    }
}

/// Takes a word for a command or a skill. The skill that is chosen is one of
/// them.
pub fn resolve(word: &str, skills: &Vec<Skill>) -> (r: Result<(String, Choice), String>)
    ensures
        r matches Ok((_, Choice::Skill(i))) ==> i < skills@.len(),
        r matches Ok((_, choice)) ==> choice.wf(),
        resolved_view(r) == resolved(skill_views(skills@), word@),
{
    let list = choices(skills);
    let ghost names = named_names(list@);
    if let Some(chosen) = choice(word, skills) {
        return Ok((word.to_owned(), chosen));
    }
    let start = text::chars(word);
    let mut found: Vec<Vec<char>> = Vec::new();
    let mut i: usize = 0;
    assert(text::views(found@) =~= beginning_with(names.take(0), word@));
    while i < list.len()
        invariant
            i <= list@.len(),
            names == named_names(list@),
            start@ == word@,
            text::views(found@) == beginning_with(names.take(i as int), word@),
        decreases list@.len() - i,
    {
        let name = text::chars(&list[i].name);
        proof {
            assert(names.take(i + 1).drop_last() =~= names.take(i as int));
            assert(names.take(i + 1).last() == name@);
        }
        if text::starts_with(&name, &start) {
            let ghost done = found@;
            found.push(name);
            assert(text::views(found@) =~= text::views(done).push(name@));
        }
        i += 1;
    }
    proof {
        assert(names.take(i as int) =~= names);
        lemma_beginning_with(names, word@);
    }
    let ghost matching = text::views(found@);
    if found.len() == 0 {
        return Err(text::cat("Unknown command or skill: ", word));
    }
    if found.len() == 1 {
        let name = text::string(&found[0]);
        proof {
            assert(matching[0] == name@);
            assert(names.contains(matching[0]));
        }
        match choice(&name, skills) {
            Some(chosen) => return Ok((name, chosen)),
            None => vstd::pervasive::unreached(),
        }
    }
    let shown = text::string(&text::joined(&found, &text::chars(", ")));
    Err(text::cat("Choose a command: ", &shown))
}

/// The words that stand for something are pinned down by their order.
pub proof fn law_choices_are_unique(a: Seq<Seq<char>>, b: Seq<Seq<char>>, skills: Seq<SkillView>)
    requires
        lists(a, skills),
        lists(b, skills),
    ensures
        a == b,
{
    assert forall|word: Seq<char>| #[trigger] a.contains(word) <==> b.contains(word) by {
        assert(a.contains(word) <==> choice_of(skills, word) is Some);
        assert(b.contains(word) <==> choice_of(skills, word) is Some);
    }
    order::law_distinct_order_is_unique(a, b);
}

/// A command of the program is never hidden by a skill of the same name.
pub proof fn law_commands_come_first(skills: Seq<SkillView>, kind: BuiltinKind)
    ensures
        choice_of(skills, builtin_name(kind)) == Some(ChoiceView::Builtin(kind)),
{
    reveal_strlit("/model");
    reveal_strlit("/new");
    reveal_strlit("/resume");
    reveal_strlit("/tree");
    reveal_strlit("/copy");
    reveal_strlit("/quit");
    assert("/model"@[1] == 'm' && "/new"@[1] == 'n' && "/resume"@[1] == 'r' && "/tree"@[1] == 't' && "/copy"@[1] == 'c'
        && "/quit"@[1] == 'q');
}

/// Of skills with the same name, the last one is taken.
pub proof fn law_last_skill_wins(skills: Seq<SkillView>, skill: SkillView)
    requires
        typable(skill.name),
        builtin_named(skill_name(skill)) is None,
    ensures
        choice_of(skills.push(skill), skill_name(skill)) == Some(ChoiceView::Skill(skills.len() as int)),
{
}

/// What the commands are typed as, and that nothing else is one.
pub proof fn law_commands_are_typed_by_name(word: Seq<char>)
    ensures
        builtin_name(BuiltinKind::Model) == "/model"@,
        builtin_name(BuiltinKind::New) == "/new"@,
        builtin_name(BuiltinKind::Resume) == "/resume"@,
        builtin_name(BuiltinKind::Tree) == "/tree"@,
        builtin_name(BuiltinKind::Copy) == "/copy"@,
        builtin_name(BuiltinKind::Quit) == "/quit"@,
        builtin_named(word) matches Some(kind) ==> word == builtin_name(kind),
        builtin_named(word) is None ==> word != "/model"@ && word != "/new"@ && word != "/resume"@ && word != "/tree"@
            && word != "/copy"@ && word != "/quit"@,
{
}

/// A skill is typed by a slash and its name, where the name can be typed and no
/// command has it; of several of one name the last is taken. Nothing else stands
/// for a skill.
pub proof fn law_skills_are_typed_by_name(skills: Seq<SkillView>, word: Seq<char>, i: int)
    ensures
        choice_of(skills, word) matches Some(ChoiceView::Skill(k)) ==> 0 <= k < skills.len() && word == "/"@
            + skills[k].name && typable(skills[k].name) && builtin_named(word) is None && forall|j: int|
            k < j < skills.len() ==> !(typable((#[trigger] skills[j]).name) && word == "/"@ + skills[j].name),
        0 <= i < skills.len() && typable(skills[i].name) && word == "/"@ + skills[i].name && builtin_named(word) is None
            ==> choice_of(skills, word) is Some,
        choice_of(skills, word) matches Some(ChoiceView::Builtin(kind)) ==> word == builtin_name(kind),
{
    lemma_last_skill(skills, word);
    lemma_skill_named(skills, word);
    if 0 <= i < skills.len() && typable(skills[i].name) && word == "/"@ + skills[i].name {
        assert(skill_name(skills[i]) == word);
    }
}

proof fn lemma_last_skill(skills: Seq<SkillView>, word: Seq<char>)
    ensures
        skill_named(skills, word) matches Some(k) ==> 0 <= k < skills.len() && typable(skills[k].name) && word
            == skill_name(skills[k]) && forall|j: int|
            k < j < skills.len() ==> !(typable((#[trigger] skills[j]).name) && word == skill_name(skills[j])),
    decreases skills.len(),
{
    if skills.len() > 0 && !(typable(skills.last().name) && skill_name(skills.last()) == word) {
        let start = skills.drop_last();
        lemma_last_skill(start, word);
        if let Some(k) = skill_named(start, word) {
            assert forall|j: int| k < j < skills.len() implies !(typable((#[trigger] skills[j]).name) && word == skill_name(
                skills[j],
            )) by {
                if j < start.len() {
                    assert(start[j] == skills[j]);
                }
            }
        }
    }
}

/// Letters, numbers, dashes, underscores and dots can be typed in a name; an
/// empty name cannot.
pub proof fn law_names_that_can_be_typed(name: Seq<char>)
    ensures
        typable(name) <==> name.len() > 0 && forall|k: int|
            0 <= k < name.len() ==> letter_or_number(#[trigger] name[k]) || name[k] == '-' || name[k] == '_' || name[k]
                == '.',
{
    if typable(name) {
        assert forall|k: int| 0 <= k < name.len() implies letter_or_number(#[trigger] name[k]) || name[k] == '-'
            || name[k] == '_' || name[k] == '.' by {
            assert(nameable(name[k], letter_or_number(name[k])));
        }
    }
}

/// The words that begin with a text are those of all words, in their order.
pub proof fn law_beginnings_are_found(names: Seq<Seq<char>>, name: Seq<char>, start: Seq<char>)
    ensures
        beginning_with(seq![], start) == Seq::<Seq<char>>::empty(),
        start.is_prefix_of(name) ==> beginning_with(names.push(name), start) == beginning_with(names, start).push(name),
        !start.is_prefix_of(name) ==> beginning_with(names.push(name), start) == beginning_with(names, start),
{
    assert(names.push(name).drop_last() =~= names);
}

/// What is typed is taken for the word that it is, or else for the one word that
/// it begins; where it begins none or several, that is told, with all of them.
pub proof fn law_words_are_taken_for_what_they_begin(skills: Seq<SkillView>, word: Seq<char>)
    ensures
        ({
            let found = beginning_with(all_names(skills), word);
            let r = resolved(skills, word);
            &&& choice_of(skills, word) matches Some(c) ==> r == Ok::<(Seq<char>, ChoiceView), Seq<char>>((word, c))
            &&& choice_of(skills, word) is None && found.len() == 1 && choice_of(skills, found[0]) is Some ==> r == Ok::<
                (Seq<char>, ChoiceView),
                Seq<char>,
            >((found[0], choice_of(skills, found[0])->0))
            &&& choice_of(skills, word) is None && found.len() == 0 ==> r == Err::<(Seq<char>, ChoiceView), Seq<char>>(
                "Unknown command or skill: "@ + word,
            )
            &&& choice_of(skills, word) is None && found.len() > 1 ==> r == Err::<(Seq<char>, ChoiceView), Seq<char>>(
                "Choose a command: "@ + join(found, ", "@),
            )
        }),
        forall|kind: BuiltinKind| #[trigger]
            choice_hint(skills, ChoiceView::Builtin(kind)) == builtin_hint(kind),
        forall|i: int| 0 <= i < skills.len() ==> choice_hint(skills, ChoiceView::Skill(i)) == (
        #[trigger] skills[i]).description,
{
}

/// What is said of each command: what it takes, or what it does.
pub proof fn law_commands_say_what_they_take()
    ensures
        builtin_hint(BuiltinKind::Model) == "<model> [effort|-] [context]"@,
        builtin_hint(BuiltinKind::New) == "new conversation"@,
        builtin_hint(BuiltinKind::Resume) == "resume session"@,
        builtin_hint(BuiltinKind::Tree) == "conversation tree"@,
        builtin_hint(BuiltinKind::Copy) == "[agent|user]"@,
        builtin_hint(BuiltinKind::Quit) == "quit"@,
{
}

} // verus!
