//! Skills: where they are found, and what they say of themselves.
use crate::block::option_view;
use crate::order;
use crate::text::{self, join, lines, texts, trim, views};
use vstd::prelude::*;
use vstd::string::StringExecFns;

verus! {

/// Whether a line fences the front matter.
pub open spec fn fence(line: Seq<char>) -> bool {
    trim(line) == "---"@
}

/// The first fence from line `k` on, or the number of lines.
pub open spec fn fence_from(ls: Seq<Seq<char>>, k: int) -> int
    decreases ls.len() - k,
{
    if k < 0 || k >= ls.len() || fence(ls[k]) {
        k
    } else {
        fence_from(ls, k + 1)
    }
}

/// The lines of the front matter of a text that begins with one.
pub open spec fn front(s: Seq<char>) -> Option<Seq<Seq<char>>> {
    let ls = lines(s);
    if ls.len() == 0 || !fence(ls[0]) {
        None
    } else {
        Some(ls.subrange(1, fence_from(ls, 1)))
    }
}

/// Whether a value is given by the indented lines that follow.
pub open spec fn folded(value: Seq<char>) -> bool {
    value == ">"@ || value == "|"@ || value == ">-"@ || value == "|-"@
}

/// The first line from `k` on that is not indented, or the number of lines.
pub open spec fn indented_to(ls: Seq<Seq<char>>, k: int) -> int
    decreases ls.len() - k,
{
    if k < 0 || k >= ls.len() || ls[k].len() == 0 || ls[k][0] != ' ' {
        k
    } else {
        indented_to(ls, k + 1)
    }
}

/// Quotation marks.
pub open spec fn quotation() -> spec_fn(char) -> bool {
    |c: char| c == '\'' || c == '"'
}

/// `s` without quotation marks at either end.
pub open spec fn unquoted(s: Seq<char>) -> Seq<char> {
    let t = s.skip(text::span(s, quotation()));
    t.take(t.len() - text::span_back(t, quotation()))
}

/// Each line without white space around it.
pub open spec fn trimmed_lines(ls: Seq<Seq<char>>) -> Seq<Seq<char>> {
    ls.map_values(|l: Seq<char>| trim(l))
}

/// The value that the first line from `k` on which begins with `key` gives.
pub open spec fn value_from(ls: Seq<Seq<char>>, key: Seq<char>, k: int) -> Option<Seq<char>>
    decreases ls.len() - k,
{
    if k < 0 || k >= ls.len() {
        None
    } else if key.is_prefix_of(ls[k]) {
        let value = trim(ls[k].skip(key.len() as int));
        if folded(value) {
            Some(join(trimmed_lines(ls.subrange(k + 1, indented_to(ls, k + 1))), " "@))
        } else {
            Some(unquoted(value))
        }
    } else {
        value_from(ls, key, k + 1)
    }
}

/// The value of a field in the front matter of a text.
pub open spec fn field_value(s: Seq<char>, field: Seq<char>) -> Option<Seq<char>> {
    match front(s) {
        Some(ls) => value_from(ls, field + ":"@, 0),
        None => None,
    }
}

fn is_fence(line: &[char]) -> (r: bool)
    ensures
        r == fence(line@),
{
    text::same(&text::string(&text::trimmed(line)), "---")
}

fn without_quotes(s: &[char]) -> (r: Vec<char>)
    ensures
        r@ == unquoted(s@),
{
    let mut start: usize = 0;
    while start < s.len() && (s[start] == '\'' || s[start] == '"')
        invariant
            start <= s@.len(),
            forall|k: int| 0 <= k < start ==> quotation()(#[trigger] s@[k]),
        decreases s@.len() - start,
    {
        start += 1;
    }
    proof {
        text::lemma_span_is(s@, quotation(), start as int);
    }
    let t = text::slice(s, start, s.len());
    assert(t@ =~= s@.skip(start as int));
    let mut end: usize = t.len();
    while end > 0 && (t[end - 1] == '\'' || t[end - 1] == '"')
        invariant
            end <= t@.len(),
            forall|k: int| end <= k < t@.len() ==> quotation()(#[trigger] t@[k]),
        decreases end,
    {
        end -= 1;
    }
    proof {
        text::lemma_span_back_is(t@, quotation(), t@.len() - end);
    }
    let u = text::slice(&t, 0, end);
    assert(u@ =~= unquoted(s@));
    u
}

fn is_folded(value: &str) -> (r: bool)
    ensures
        r == folded(value@),
{
    text::same(value, ">") || text::same(value, "|") || text::same(value, ">-") || text::same(value, "|-")
}

/// The indented lines from `k` on, as one line.
fn unfold(ls: &Vec<Vec<char>>, k: usize, end: usize) -> (r: String)
    requires
        k <= end <= ls@.len(),
    ensures
        r@ == join(
            trimmed_lines(
                views(ls@).take(end as int).subrange(
                    k as int,
                    indented_to(views(ls@).take(end as int), k as int),
                ),
            ),
            " "@,
        ),
{
    let ghost all = views(ls@).take(end as int);
    let mut found: Vec<Vec<char>> = Vec::new();
    let mut i: usize = k;
    while i < end && ls[i].len() > 0 && ls[i][0] == ' '
        invariant
            k <= i <= end <= ls@.len(),
            all == views(ls@).take(end as int),
            indented_to(all, k as int) == indented_to(all, i as int),
            views(found@) == trimmed_lines(all.subrange(k as int, i as int)),
        decreases end - i,
    {
        let ghost done = found@;
        found.push(text::trimmed(&ls[i]));
        assert(views(found@) =~= views(done).push(trim(all[i as int])));
        assert(trimmed_lines(all.subrange(k as int, i + 1)) =~= trimmed_lines(
            all.subrange(k as int, i as int),
        ).push(trim(all[i as int])));
        i += 1;
    }
    text::string(&text::joined(&found, &text::chars(" ")))
}

/// The value of a field in the front matter of a text.
pub fn frontmatter(source: &str, field: &str) -> (r: Option<String>)
    ensures
        option_view(r) == field_value(source@, field@),
{
    let ls = text::line_pieces(&text::chars(source));
    let ghost all = views(ls@);
    if ls.len() == 0 || !is_fence(&ls[0]) {
        return None;
    }
    let mut end: usize = 1;
    while end < ls.len() && !is_fence(&ls[end])
        invariant
            1 <= end <= ls@.len(),
            all == views(ls@),
            fence_from(all, 1) == fence_from(all, end as int),
        decreases ls@.len() - end,
    {
        end += 1;
    }
    let key = text::chars(&text::cat(field, ":"));
    let ghost front = all.subrange(1, end as int);
    let mut i: usize = 1;
    while i < end
        invariant
            1 <= i <= end <= ls@.len(),
            all == views(ls@),
            front == all.subrange(1, end as int),
            key@ == field@ + ":"@,
            field_value(source@, field@) == value_from(front, key@, i - 1),
        decreases end - i,
    {
        let line = &ls[i];
        assert(front[i - 1] == line@);
        if text::starts_with(line, &key) {
            let rest = text::slice(line, key.len(), line.len());
            assert(rest@ =~= line@.skip(key@.len() as int));
            let value = text::trimmed(&rest);
            if is_folded(&text::string(&value)) {
                proof {
                    assert(front =~= all.take(end as int).skip(1));
                    lemma_indented_shift(all.take(end as int), front, i + 1);
                    assert(all.take(end as int).subrange(
                        i + 1,
                        indented_to(all.take(end as int), i + 1),
                    ) =~= front.subrange(i as int, indented_to(front, i as int)));
                }
                return Some(unfold(&ls, i + 1, end));
            }
            return Some(text::string(&without_quotes(&value)));
        }
        i += 1;
    }
    None
}

proof fn lemma_indented_shift(ls: Seq<Seq<char>>, rest: Seq<Seq<char>>, k: int)
    requires
        1 <= k <= ls.len(),
        rest == ls.skip(1),
    ensures
        indented_to(ls, k) == indented_to(rest, k - 1) + 1,
        k <= indented_to(ls, k) <= ls.len(),
    decreases ls.len() - k,
{
    if k < ls.len() {
        assert(rest[k - 1] == ls[k]);
        if ls[k].len() > 0 && ls[k][0] == ' ' {
            lemma_indented_shift(ls, rest, k + 1);
        }
    }
}

/// A skill: its name, the file that explains it, and what it is for.
#[derive(Debug)]
pub struct Skill {
    pub name: String,
    pub path: String,
    pub description: String,
}

/// The model of [`Skill`].
pub struct SkillView {
    pub name: Seq<char>,
    pub path: Seq<char>,
    pub description: Seq<char>,
}

impl View for Skill {
    type V = SkillView;

    open spec fn view(&self) -> SkillView {
        SkillView { name: self.name@, path: self.path@, description: self.description@ }
    }
}

impl Clone for Skill {
    fn clone(&self) -> (r: Skill)
        ensures
            r@ == self@,
    {
        Skill { name: self.name.clone(), path: self.path.clone(), description: self.description.clone() }
    }
}

/// What each skill says.
pub open spec fn skill_views(skills: Seq<Skill>) -> Seq<SkillView> {
    skills.map_values(|s: Skill| s@)
}

/// A file that may explain a skill: where it was found, the file that it really
/// is, what it holds, and the name of the folder that it stands in.
#[derive(Debug)]
pub struct SkillFile {
    pub path: String,
    pub target: Option<String>,
    pub source: Option<String>,
    pub folder: String,
}

/// The model of [`SkillFile`].
pub struct SkillFileView {
    pub path: Seq<char>,
    pub target: Option<Seq<char>>,
    pub source: Option<Seq<char>>,
    pub folder: Seq<char>,
}

impl View for SkillFile {
    type V = SkillFileView;

    open spec fn view(&self) -> SkillFileView {
        SkillFileView {
            path: self.path@,
            target: option_view(self.target),
            source: option_view(self.source),
            folder: self.folder@,
        }
    }
}

/// What each file says.
pub open spec fn file_views(files: Seq<SkillFile>) -> Seq<SkillFileView> {
    files.map_values(|f: SkillFile| f@)
}

/// Whether one of the files is `target`.
pub open spec fn names_target(files: Seq<SkillFileView>, target: Seq<char>) -> bool {
    exists|j: int| 0 <= j < files.len() && (#[trigger] files[j]).target == Some(target)
}

/// The skill that a file explains, behind the files found before it: none where
/// its target was found before, where it cannot be read, or where it does not
/// say what the skill is for. Its name is that of the folder unless it gives
/// one, and its path is the one where it was found.
pub open spec fn skill_of(found: Seq<SkillFileView>, file: SkillFileView) -> Option<SkillView> {
    if file.target is None || names_target(found, file.target->0) || file.source is None {
        None
    } else {
        match field_value(file.source->0, "description"@) {
            None => None,
            Some(description) => Some(
                SkillView {
                    name: match field_value(file.source->0, "name"@) {
                        Some(name) => name,
                        None => file.folder,
                    },
                    path: file.path,
                    description,
                },
            ),
        }
    }
}

/// The skills that files explain, in the order in which they were found.
pub open spec fn skill_list(files: Seq<SkillFileView>) -> Seq<SkillView>
    decreases files.len(),
{
    if files.len() == 0 {
        seq![]
    } else {
        let before = skill_list(files.drop_last());
        match skill_of(files.drop_last(), files.last()) {
            Some(skill) => before.push(skill),
            None => before,
        }
    }
}

/// Whether one of the files before `n` is `target`.
fn seen(files: &Vec<SkillFile>, n: usize, target: &str) -> (r: bool)
    requires
        n <= files@.len(),
    ensures
        r == names_target(file_views(files@).take(n as int), target@),
{
    let ghost all = file_views(files@).take(n as int);
    let mut j: usize = 0;
    while j < n
        invariant
            j <= n <= files@.len(),
            all == file_views(files@).take(n as int),
            forall|k: int| 0 <= k < j ==> (#[trigger] all[k]).target != Some(target@),
        decreases n - j,
    {
        assert(all[j as int] == files@[j as int]@);
        if let Some(other) = &files[j].target {
            if text::same(other, target) {
                return true;
            }
        }
        j += 1;
    }
    false
}

/// The skills that files explain. A file that is found twice counts once, where
/// it was found first.
pub fn skills(files: &Vec<SkillFile>) -> (r: Vec<Skill>)
    ensures
        skill_views(r@) == skill_list(file_views(files@)),
{
    let ghost all = file_views(files@);
    let mut out: Vec<Skill> = Vec::new();
    let mut i: usize = 0;
    assert(skill_views(out@) =~= seq![]);
    while i < files.len()
        invariant
            i <= files@.len(),
            all == file_views(files@),
            skill_views(out@) == skill_list(all.take(i as int)),
        decreases files@.len() - i,
    {
        let file = &files[i];
        proof {
            assert(all.take(i + 1).drop_last() =~= all.take(i as int));
            assert(all.take(i + 1).last() == file@);
        }
        if let Some(target) = &file.target {
            if !seen(files, i, target) {
                if let Some(source) = &file.source {
                    if let Some(description) = frontmatter(source, "description") {
                        let name = match frontmatter(source, "name") {
                            Some(name) => name,
                            None => file.folder.clone(),
                        };
                        let ghost done = out@;
                        let skill = Skill { name, path: file.path.clone(), description };
                        out.push(skill);
                        assert(skill_views(out@) =~= skill_views(done).push(skill@));
                    }
                }
            }
        }
        i += 1;
    }
    assert(all.take(i as int) =~= all);
    out
}

/// The deepest folder, below the one where the search begins, that is looked at.
pub const DEPTH: usize = 4;

/// A search for skills: the folders still to be looked at, the next one last,
/// and the files found.
#[derive(Debug)]
pub struct Search {
    todo: Vec<(String, usize)>,
    found: Vec<String>,
}

/// The model of [`Search`].
pub struct SearchView {
    pub todo: Seq<(Seq<char>, usize)>,
    pub found: Seq<Seq<char>>,
}

impl View for Search {
    type V = SearchView;

    closed spec fn view(&self) -> SearchView {
        SearchView { todo: todo_views(self.todo@), found: texts(self.found@) }
    }
}

spec fn todo_views(todo: Seq<(String, usize)>) -> Seq<(Seq<char>, usize)> {
    todo.map_values(|p: (String, usize)| (p.0@, p.1))
}

/// Folders at one depth, to be looked at in their order.
pub open spec fn stacked(folders: Seq<Seq<char>>, depth: usize) -> Seq<(Seq<char>, usize)> {
    folders.map_values(|f: Seq<char>| (f, depth)).reverse()
}

/// The file that explains the skill in a folder.
pub open spec fn explained(folder: Seq<char>) -> Seq<char> {
    folder + "/SKILL.md"@
}

impl SearchView {
    /// The search once a folder was looked at: a folder with a skill is that
    /// skill, and the folders in another are looked at next, down to `DEPTH`.
    pub open spec fn visited(
        self,
        folder: Seq<char>,
        depth: usize,
        skill: bool,
        inner: Seq<Seq<char>>,
    ) -> SearchView {
        if skill {
            SearchView { todo: self.todo, found: self.found.push(explained(folder)) }
        } else if depth < DEPTH {
            SearchView { todo: self.todo + stacked(inner, (depth + 1) as usize), found: self.found }
        } else {
            self
        }
    }
}

fn stack(todo: &mut Vec<(String, usize)>, folders: Vec<String>, depth: usize)
    ensures
        todo_views(final(todo)@) == todo_views(old(todo)@) + stacked(texts(folders@), depth),
{
    let ghost all = texts(folders@);
    let ghost start = todo_views(todo@);
    let ghost target = stacked(all, depth);
    let mut folders = folders;
    assert(start + target.take(0) =~= start);
    while folders.len() > 0
        invariant
            texts(folders@) == all.take(folders@.len() as int),
            folders@.len() <= all.len(),
            target == stacked(all, depth),
            todo_views(todo@) == start + target.take(all.len() - folders@.len()),
        decreases folders@.len(),
    {
        let ghost rest = texts(folders@);
        let ghost held = folders@;
        let ghost before = todo_views(todo@);
        let folder = folders.pop().unwrap();
        let ghost n = all.len() - folders@.len();
        todo.push((folder, depth));
        proof {
            assert(texts(folders@) =~= rest.drop_last());
            assert(folder == held.last());
            assert(rest[rest.len() - 1] == folder@);
            assert(target[n - 1] == (folder@, depth));
            assert(todo_views(todo@) =~= before.push((folder@, depth)));
            assert(target.take(n) =~= target.take(n - 1).push((folder@, depth)));
            assert(todo_views(todo@) =~= start + target.take(n));
        }
    }
    assert(target.take(all.len() as int) =~= target);
}

impl Search {
    /// A search that looks at `roots` in their order.
    pub fn new(roots: Vec<String>) -> (r: Search)
        ensures
            r@ == (SearchView { todo: stacked(texts(roots@), 0), found: seq![] }),
    {
        let mut todo: Vec<(String, usize)> = Vec::new();
        let ghost empty = todo_views(todo@);
        stack(&mut todo, roots, 0);
        let r = Search { todo, found: Vec::new() };
        assert(empty =~= seq![]);
        assert(r@.todo =~= stacked(texts(roots@), 0));
        assert(r@.found =~= seq![]);
        r
    }

    /// The next folder to look at, and its depth.
    pub fn next(&mut self) -> (r: Option<(String, usize)>)
        ensures
            match r {
                None => old(self)@.todo.len() == 0 && final(self)@ == old(self)@,
                Some((folder, depth)) => old(self)@.todo.len() > 0 && (folder@, depth) == old(self)@.todo.last()
                    && final(self)@ == (SearchView { todo: old(self)@.todo.drop_last(), ..old(self)@ }),
            },
    {
        let ghost before = self@;
        let r = self.todo.pop();
        proof {
            if r is Some {
                assert(self@.todo =~= before.todo.drop_last());
            }
        }
        r
    }

    /// Takes in what is in a folder: whether it holds a skill, and the folders
    /// in it, which are sorted.
    pub fn visit(&mut self, folder: String, depth: usize, skill: bool, folders: Vec<String>)
        ensures
            final(self)@ == old(self)@.visited(folder@, depth, skill, order::ordered_list(texts(folders@))),
    {
        let ghost before = self@;
        let inner = order::sort_texts(folders);
        let ghost names = texts(inner@);
        if skill {
            let mut path = folder;
            path.append("/SKILL.md");
            self.found.push(path);
            assert(self@.found =~= before.found.push(explained(folder@)));
        } else if depth < DEPTH {
            stack(&mut self.todo, inner, depth + 1);
        }
        assert(self@ == before.visited(folder@, depth, skill, names));
    }

    /// The files found.
    pub fn found(self) -> (r: Vec<String>)
        ensures
            texts(r@) == self@.found,
    {
        self.found
    }
}

/// A folder: where it is, whether it holds a skill, and the folders in it, in
/// their order.
pub struct Folder {
    pub path: Seq<char>,
    pub skill: bool,
    pub inner: Seq<Folder>,
}

/// The skills at or below a folder, by the order of the folders: one in a
/// folder hides those below it, and below `DEPTH` none is looked for.
pub open spec fn walk(folder: Folder, depth: nat) -> Seq<Seq<char>>
    decreases folder, folder.inner.len() + 1,
{
    if depth > DEPTH {
        seq![]
    } else if folder.skill {
        seq![explained(folder.path)]
    } else {
        walk_all(folder, 0, depth + 1)
    }
}

/// The skills in the folders in a folder, from the `k`th on.
pub open spec fn walk_all(folder: Folder, k: nat, depth: nat) -> Seq<Seq<char>>
    decreases folder, folder.inner.len() - k,
{
    if k >= folder.inner.len() {
        seq![]
    } else {
        walk(folder.inner[k as int], depth) + walk_all(folder, k + 1, depth)
    }
}

/// The skills in folders still to be looked at, the next one last.
pub open spec fn walk_stack(todo: Seq<(Folder, nat)>) -> Seq<Seq<char>>
    decreases todo.len(),
{
    if todo.len() == 0 {
        seq![]
    } else {
        walk(todo.last().0, todo.last().1) + walk_stack(todo.drop_last())
    }
}

/// The folders in a folder, to be looked at in their order.
pub open spec fn stacked_folders(folder: Folder, k: nat, depth: nat) -> Seq<(Folder, nat)>
    decreases folder.inner.len() - k,
{
    if k >= folder.inner.len() {
        seq![]
    } else {
        stacked_folders(folder, k + 1, depth).push((folder.inner[k as int], depth))
    }
}

proof fn lemma_walk_stacked(todo: Seq<(Folder, nat)>, folder: Folder, k: nat, depth: nat)
    ensures
        walk_stack(todo + stacked_folders(folder, k, depth)) == walk_all(folder, k, depth) + walk_stack(todo),
    decreases folder.inner.len() - k,
{
    if k >= folder.inner.len() {
        assert(todo + stacked_folders(folder, k, depth) =~= todo);
        assert(walk_all(folder, k, depth) + walk_stack(todo) =~= walk_stack(todo));
    } else {
        lemma_walk_stacked(todo, folder, k + 1, depth);
        let rest = stacked_folders(folder, k + 1, depth);
        let all = todo + stacked_folders(folder, k, depth);
        assert(all.drop_last() =~= todo + rest);
        let a = walk(folder.inner[k as int], depth);
        let b = walk_all(folder, k + 1, depth);
        assert(walk_stack(all) =~= a + (b + walk_stack(todo)));
        assert(a + (b + walk_stack(todo)) =~= (a + b) + walk_stack(todo));
    }
}

/// The order of a search: whatever a look at the next folder finds, the files
/// found so far and those still to be found are together the same.
pub proof fn law_search_keeps_its_order(found: Seq<Seq<char>>, todo: Seq<(Folder, nat)>)
    requires
        todo.len() > 0,
        todo.last().1 <= DEPTH,
    ensures
        ({
            let (folder, depth) = todo.last();
            let rest = todo.drop_last();
            found + walk_stack(todo) == (if folder.skill {
                found.push(explained(folder.path)) + walk_stack(rest)
            } else if depth < DEPTH {
                found + walk_stack(rest + stacked_folders(folder, 0, depth + 1))
            } else {
                found + walk_stack(rest)
            })
        }),
{
    let (folder, depth) = todo.last();
    let rest = todo.drop_last();
    if folder.skill {
        assert(found + walk_stack(todo) =~= found.push(explained(folder.path)) + walk_stack(rest));
    } else if depth < DEPTH {
        lemma_walk_stacked(rest, folder, 0, depth + 1);
    } else {
        lemma_too_deep(folder, 0, depth + 1);
        assert(walk_stack(todo) =~= walk_stack(rest));
    }
}

proof fn lemma_too_deep(folder: Folder, k: nat, depth: nat)
    requires
        depth > DEPTH,
    ensures
        walk_all(folder, k, depth) == Seq::<Seq<char>>::empty(),
    decreases folder.inner.len() - k,
{
    if k < folder.inner.len() {
        lemma_too_deep(folder, k + 1, depth);
        assert(walk(folder.inner[k as int], depth) =~= seq![]);
    }
    assert(walk_all(folder, k, depth) =~= Seq::<Seq<char>>::empty());
}

/// Every file that says what its skill is for gives a skill, in the order in
/// which the files were found: named as it says, or else after its folder, and
/// with the path where it was found. A file that was found before, by whatever
/// path, that cannot be read or that does not say what it is for gives none.
pub proof fn law_files_give_their_skills(files: Seq<SkillFileView>, file: SkillFileView)
    ensures
        skill_list(Seq::empty()) == Seq::<SkillView>::empty(),
        ({
            let known = file.target is None || (exists|j: int|
                0 <= j < files.len() && (#[trigger] files[j]).target == file.target);
            let all = skill_list(files.push(file));
            let before = skill_list(files);
            &&& known || file.source is None ==> all == before
            &&& !known && file.source is Some ==> match field_value(file.source->0, "description"@) {
                None => all == before,
                Some(d) => all == before.push(
                    SkillView {
                        name: match field_value(file.source->0, "name"@) {
                            Some(name) => name,
                            None => file.folder,
                        },
                        path: file.path,
                        description: d,
                    },
                ),
            }
        }),
{
    assert(files.push(file).drop_last() =~= files);
    if file.target is Some {
        let known = exists|j: int| 0 <= j < files.len() && (#[trigger] files[j]).target == file.target;
        assert(names_target(files, file.target->0) == known);
    }
}

proof fn lemma_fence_from(ls: Seq<Seq<char>>, k: int, n: int)
    requires
        0 <= k <= n <= ls.len(),
        forall|j: int| k <= j < n ==> !fence(#[trigger] ls[j]),
        n < ls.len() ==> fence(ls[n]),
    ensures
        fence_from(ls, k) == n,
    decreases n - k,
{
    if k < n {
        assert(!fence(ls[k]));
        lemma_fence_from(ls, k + 1, n);
    }
}

/// The front matter stands between a first line of three dashes and the next
/// such line, or the end; a text that does not begin with one has none.
pub proof fn law_front_matter_is_fenced(s: Seq<char>, n: int)
    requires
        1 <= n <= lines(s).len(),
        forall|j: int| 1 <= j < n ==> trim(#[trigger] lines(s)[j]) != "---"@,
        n < lines(s).len() ==> trim(lines(s)[n]) == "---"@,
    ensures
        trim(lines(s)[0]) == "---"@ ==> front(s) == Some(lines(s).subrange(1, n)),
        trim(lines(s)[0]) != "---"@ ==> front(s) is None,
{
    let ls = lines(s);
    assert forall|j: int| 1 <= j < n implies !fence(#[trigger] ls[j]) by {
        assert(trim(ls[j]) != "---"@);
    }
    lemma_fence_from(ls, 1, n);
}

/// A field is what stands behind its name and a colon on the first line that
/// begins so, without white space and without quotation marks around it.
pub proof fn law_fields_are_read(ls: Seq<Seq<char>>, key: Seq<char>, k: int)
    requires
        0 <= k < ls.len(),
        key.is_prefix_of(ls[k]),
        forall|j: int| 0 <= j < k ==> !key.is_prefix_of(#[trigger] ls[j]),
    ensures
        ({
            let value = trim(ls[k].skip(key.len() as int));
            value != ">"@ && value != "|"@ && value != ">-"@ && value != "|-"@ ==> value_from(ls, key, 0) == Some(
                unquoted(value),
            )
        }),
{
    lemma_value_at(ls, key, 0, k);
}

proof fn lemma_value_at(ls: Seq<Seq<char>>, key: Seq<char>, from: int, k: int)
    requires
        0 <= from <= k < ls.len(),
        forall|j: int| from <= j < k ==> !key.is_prefix_of(#[trigger] ls[j]),
    ensures
        value_from(ls, key, from) == value_from(ls, key, k),
    decreases k - from,
{
    if from < k {
        assert(!key.is_prefix_of(ls[from]));
        lemma_value_at(ls, key, from + 1, k);
    }
}

/// A field that is folded is all of the indented lines behind its name, joined
/// by a space, and none that is not indented.
pub proof fn law_folded_fields_are_read(ls: Seq<Seq<char>>, key: Seq<char>, k: int, n: int)
    requires
        0 <= k < n <= ls.len(),
        key.is_prefix_of(ls[k]),
        forall|j: int| 0 <= j < k ==> !key.is_prefix_of(#[trigger] ls[j]),
        ({
            let value = trim(ls[k].skip(key.len() as int));
            value == ">"@ || value == "|"@ || value == ">-"@ || value == "|-"@
        }),
        forall|j: int| k < j < n ==> (#[trigger] ls[j]).len() > 0 && ls[j][0] == ' ',
        n < ls.len() ==> ls[n].len() == 0 || ls[n][0] != ' ',
    ensures
        value_from(ls, key, 0) == Some(join(ls.subrange(k + 1, n).map_values(|l: Seq<char>| trim(l)), " "@)),
{
    lemma_value_at(ls, key, 0, k);
    lemma_indented(ls, k + 1, n);
    assert(trimmed_lines(ls.subrange(k + 1, n)) =~= ls.subrange(k + 1, n).map_values(|l: Seq<char>| trim(l)));
}

proof fn lemma_indented(ls: Seq<Seq<char>>, k: int, n: int)
    requires
        0 <= k <= n <= ls.len(),
        forall|j: int| k <= j < n ==> (#[trigger] ls[j]).len() > 0 && ls[j][0] == ' ',
        n < ls.len() ==> ls[n].len() == 0 || ls[n][0] != ' ',
    ensures
        indented_to(ls, k) == n,
    decreases n - k,
{
    if k < n {
        assert(ls[k].len() > 0 && ls[k][0] == ' ');
        lemma_indented(ls, k + 1, n);
    }
}

/// A field that no line names is not there.
pub proof fn law_missing_fields_are_not_read(ls: Seq<Seq<char>>, key: Seq<char>, from: int)
    requires
        0 <= from <= ls.len(),
        forall|j: int| from <= j < ls.len() ==> !key.is_prefix_of(#[trigger] ls[j]),
    ensures
        value_from(ls, key, from) is None,
    decreases ls.len() - from,
{
    if from < ls.len() {
        assert(!key.is_prefix_of(ls[from]));
        law_missing_fields_are_not_read(ls, key, from + 1);
    }
}

/// Quotation marks around a value are no part of it; nothing else goes.
pub proof fn law_quotation_marks_are_taken_off(s: Seq<char>)
    requires
        s.len() > 0,
        s[0] != '\'' && s[0] != '"' && s.last() != '\'' && s.last() != '"',
    ensures
        unquoted(s) == s,
        unquoted(seq!['"'] + s + seq!['"']) == s,
        unquoted(seq!['\''] + s + seq!['\'']) == s,
{
    let q = quotation();
    assert(q('"') && q('\'') && !q(s[0]) && !q(s.last()));
    text::lemma_span_is(s, q, 0);
    assert(s.skip(0) =~= s);
    text::lemma_span_back_is(s, q, 0);
    assert(s.take(s.len() as int) =~= s);
    lemma_unquoted(s, '"');
    lemma_unquoted(s, '\'');
}

proof fn lemma_unquoted(s: Seq<char>, c: char)
    requires
        s.len() > 0,
        c == '"' || c == '\'',
        s[0] != '\'' && s[0] != '"' && s.last() != '\'' && s.last() != '"',
    ensures
        unquoted(seq![c] + s + seq![c]) == s,
{
    let q = quotation();
    let t = seq![c] + s + seq![c];
    assert(q(c) && !q(s[0]) && !q(s.last()));
    assert(t[1] == s[0]);
    text::lemma_span_is(t, q, 1);
    let u = t.skip(1);
    assert(u =~= s + seq![c]);
    text::lemma_span_back_is(u, q, 1);
    assert(u.take(u.len() - 1) =~= s);
}

/// A search looks at the folders in their order, takes a folder with a skill for
/// that skill and looks no further in it, and goes no deeper than four folders.
pub proof fn law_searches_find_skills(search: SearchView, folder: Seq<char>, depth: usize, inner: Seq<Seq<char>>)
    ensures
        search.visited(folder, depth, true, inner) == (SearchView {
            todo: search.todo,
            found: search.found.push(folder + "/SKILL.md"@),
        }),
        depth >= 4 ==> search.visited(folder, depth, false, inner) == search,
        depth < 4 ==> {
            let next = search.visited(folder, depth, false, inner);
            &&& next.found == search.found
            &&& next.todo.len() == search.todo.len() + inner.len()
            &&& next.todo.take(search.todo.len() as int) == search.todo
            &&& forall|k: int|
                0 <= k < inner.len() ==> next.todo[next.todo.len() - 1 - k] == (#[trigger] inner[k], (depth + 1) as usize)
        },
{
    if depth < 4 {
        let next = search.visited(folder, depth, false, inner);
        assert(next.todo.take(search.todo.len() as int) =~= search.todo);
    }
}

/// A field stands in the front matter under its name and a colon; a file without
/// front matter has none.
pub proof fn law_fields_stand_in_the_front_matter(s: Seq<char>, field: Seq<char>)
    ensures
        front(s) is None ==> field_value(s, field) is None,
        front(s) matches Some(ls) ==> field_value(s, field) == value_from(ls, field.push(':'), 0),
{
    reveal_strlit(":");
    assert(field + ":"@ =~= field.push(':'));
}

} // verus!
