//! What the user types: files that are mentioned, and what is offered to
//! complete it.
use crate::block::option_view;
use crate::commands::{self, choice_hint, choice_of, named_names, named_right};
use crate::json;
use crate::order::{self, Ranked};
use crate::process::Exit;
use crate::session::{record_views, Record, RecordView};
use crate::skills::{skill_views, Skill, SkillView};
use crate::sse;
use crate::text::{self, is_control, is_space, texts};
use crate::tools::count;
use vstd::prelude::*;
use vstd::string::StringExecFns;
use vstd::utf8::encode_utf8;

verus! {

/// A mention of a file: where it stands, the path that it names, whether that
/// is quoted, and whether the quotation is closed.
#[derive(Debug)]
pub struct Mention {
    pub start: usize,
    pub end: usize,
    pub path: String,
    pub quoted: bool,
    pub closed: bool,
}

/// The model of [`Mention`].
pub struct MentionView {
    pub start: int,
    pub end: int,
    pub path: Seq<char>,
    pub quoted: bool,
    pub closed: bool,
}

impl View for Mention {
    type V = MentionView;

    open spec fn view(&self) -> MentionView {
        MentionView {
            start: self.start as int,
            end: self.end as int,
            path: self.path@,
            quoted: self.quoted,
            closed: self.closed,
        }
    }
}

/// What each mention says.
pub open spec fn mention_views(found: Seq<Mention>) -> Seq<MentionView> {
    found.map_values(|m: Mention| m@)
}

/// Whether a mention begins at `i`: an `@` behind white space or at the very
/// beginning, with no other `@` behind it.
pub open spec fn begins_at(s: Seq<char>, i: int) -> bool {
    s[i] == '@' && (i == 0 || is_space(s[i - 1])) && !(i + 1 < s.len() && s[i + 1] == '@')
}

/// What a quotation holds, from `i` on: the text, where it ends, and whether it
/// is closed. A backslash takes a quotation mark or a backslash as it is.
pub open spec fn quotation(s: Seq<char>, i: int) -> (Seq<char>, int, bool)
    decreases s.len() - i,
{
    if i < 0 || i >= s.len() {
        (seq![], i, false)
    } else if s[i] == '"' {
        (seq![], i + 1, true)
    } else if s[i] == '\\' && i + 1 < s.len() && (s[i + 1] == '"' || s[i + 1] == '\\') {
        let (rest, end, closed) = quotation(s, i + 2);
        (seq![s[i + 1]] + rest, end, closed)
    } else {
        let (rest, end, closed) = quotation(s, i + 1);
        (seq![s[i]] + rest, end, closed)
    }
}

/// The end of the word at `i`.
pub open spec fn word_end(s: Seq<char>, i: int) -> int
    decreases s.len() - i,
{
    if i < 0 || i >= s.len() || is_space(s[i]) {
        i
    } else {
        word_end(s, i + 1)
    }
}

/// The mention that begins at `i`.
pub open spec fn mention_at(s: Seq<char>, i: int) -> MentionView {
    if i + 1 < s.len() && s[i + 1] == '"' {
        let (path, end, closed) = quotation(s, i + 2);
        MentionView { start: i, end, path, quoted: true, closed }
    } else {
        let end = word_end(s, i + 1);
        MentionView { start: i, end, path: s.subrange(i + 1, end), quoted: false, closed: true }
    }
}

/// The mentions from `i` on.
pub open spec fn mentions_from(s: Seq<char>, i: int) -> Seq<MentionView>
    decreases s.len() - i,
{
    if i < 0 || i >= s.len() {
        seq![]
    } else if begins_at(s, i) && i < mention_at(s, i).end <= s.len() {
        seq![mention_at(s, i)] + mentions_from(s, mention_at(s, i).end)
    } else {
        mentions_from(s, i + 1)
    }
}

/// The mentions in `s`.
pub open spec fn mentions_in(s: Seq<char>) -> Seq<MentionView> {
    mentions_from(s, 0)
}

proof fn lemma_quotation(s: Seq<char>, i: int)
    requires
        0 <= i <= s.len(),
    ensures
        i <= quotation(s, i).1 <= s.len(),
    decreases s.len() - i,
{
    if i < s.len() && s[i] != '"' {
        if s[i] == '\\' && i + 1 < s.len() && (s[i + 1] == '"' || s[i + 1] == '\\') {
            lemma_quotation(s, i + 2);
        } else {
            lemma_quotation(s, i + 1);
        }
    }
}

proof fn lemma_word_end(s: Seq<char>, i: int)
    requires
        0 <= i <= s.len(),
    ensures
        i <= word_end(s, i) <= s.len(),
        forall|k: int| i <= k < word_end(s, i) ==> !is_space(#[trigger] s[k]),
        word_end(s, i) < s.len() ==> is_space(s[word_end(s, i)]),
    decreases s.len() - i,
{
    if i < s.len() && !is_space(s[i]) {
        lemma_word_end(s, i + 1);
    }
}

proof fn lemma_word_end_is(s: Seq<char>, i: int, n: int)
    requires
        0 <= i <= n <= s.len(),
        forall|k: int| i <= k < n ==> !is_space(#[trigger] s[k]),
        n < s.len() ==> is_space(s[n]),
    ensures
        word_end(s, i) == n,
    decreases n - i,
{
    if i < n {
        lemma_word_end_is(s, i + 1, n);
    }
}

/// Reads the mention that begins at `start`.
fn read_mention(chars: &[char], start: usize) -> (r: Mention)
    requires
        start < chars@.len(),
        chars@[start as int] == '@',
    ensures
        r@ == mention_at(chars@, start as int),
        start < r.end <= chars@.len(),
{
    let ghost s = chars@;
    let len: usize = chars.len();
    let mut i: usize = start + 1;
    let mut path: Vec<char> = Vec::new();
    if i < len && chars[i] == '"' {
        i += 1;
        let ghost want = quotation(s, i as int);
        assert(path@ + quotation(s, i as int).0 =~= want.0);
        while i < chars.len() && chars[i] != '"'
            invariant
                start + 2 <= i <= chars@.len(),
                s == chars@,
                want == quotation(s, start + 2),
                path@ + quotation(s, i as int).0 == want.0,
                quotation(s, i as int).1 == want.1,
                quotation(s, i as int).2 == want.2,
            decreases chars@.len() - i,
        {
            let ghost held = path@;
            if chars[i] == '\\' && i + 1 < chars.len() && (chars[i + 1] == '"' || chars[i + 1] == '\\') {
                path.push(chars[i + 1]);
                assert(path@ + quotation(s, i + 2).0 =~= held + quotation(s, i as int).0);
                i += 2;
            } else {
                path.push(chars[i]);
                assert(path@ + quotation(s, i + 1).0 =~= held + quotation(s, i as int).0);
                i += 1;
            }
        }
        let closed = i < chars.len();
        assert(path@ =~= want.0);
        let end: usize = if closed {
            i + 1
        } else {
            i
        };
        Mention { start, end, path: text::string(&path), quoted: true, closed }
    } else {
        while i < chars.len() && !text::space(chars[i])
            invariant
                start + 1 <= i <= chars@.len(),
                s == chars@,
                forall|k: int| start + 1 <= k < i ==> !is_space(#[trigger] s[k]),
            decreases chars@.len() - i,
        {
            i += 1;
        }
        proof {
            lemma_word_end_is(s, start + 1, i as int);
        }
        let path = text::slice(chars, start + 1, i);
        Mention { start, end: i, path: text::string(&path), quoted: false, closed: true }
    }
}

/// The files that a text mentions.
pub fn mentions(source: &str) -> (r: Vec<Mention>)
    ensures
        mention_views(r@) == mentions_in(source@),
        forall|k: int| 0 <= k < r@.len() ==> (#[trigger] r@[k]).start < r@[k].end <= source@.len(),
{
    let chars = text::chars(source);
    let ghost s = chars@;
    let mut found: Vec<Mention> = Vec::new();
    let mut i: usize = 0;
    assert(mention_views(found@) + mentions_from(s, 0) =~= mentions_from(s, 0));
    while i < chars.len()
        invariant
            i <= chars@.len(),
            s == chars@,
            mention_views(found@) + mentions_from(s, i as int) == mentions_in(s),
            forall|k: int| 0 <= k < found@.len() ==> (#[trigger] found@[k]).start < found@[k].end <= s.len(),
        decreases chars@.len() - i,
    {
        if chars[i] != '@' || (i > 0 && !text::space(chars[i - 1])) || (i + 1 < chars.len() && chars[i + 1] == '@') {
            i += 1;
            continue;
        }
        let m = read_mention(&chars, i);
        let ghost done = mention_views(found@);
        let ghost rest = mentions_from(s, m.end as int);
        i = m.end;
        found.push(m);
        proof {
            assert(mention_views(found@) =~= done.push(m@));
            assert(mention_views(found@) + rest =~= done + (seq![m@] + rest));
        }
    }
    assert(mention_views(found@) + mentions_from(s, i as int) =~= mention_views(found@));
    found
}

/// A thing to complete with: the text that it puts in, and how it is shown.
#[derive(Debug)]
pub struct Entry {
    pub text: String,
    pub label: String,
}

/// The model of [`Entry`].
pub struct EntryView {
    pub text: Seq<char>,
    pub label: Seq<char>,
}

impl View for Entry {
    type V = EntryView;

    open spec fn view(&self) -> EntryView {
        EntryView { text: self.text@, label: self.label@ }
    }
}

/// What each entry says.
pub open spec fn entry_views(entries: Seq<Entry>) -> Seq<EntryView> {
    entries.map_values(|e: Entry| e@)
}

/// Whether a name cannot be mentioned as it is.
pub open spec fn needs_quotes(name: Seq<char>) -> bool {
    (exists|k: int| 0 <= k < name.len() && (is_space(#[trigger] name[k]) || name[k] == '"' || name[k] == '\\')) || (
    name.len() > 0 && name[0] == '@')
}

/// Whether a name is that of a folder.
pub open spec fn is_folder(name: Seq<char>) -> bool {
    name.len() > 0 && name.last() == '/'
}

/// How a name is mentioned. The quotation of a folder is left open, so that the
/// way can go on.
pub open spec fn mention_of(name: Seq<char>) -> Seq<char> {
    if !needs_quotes(name) {
        name
    } else if is_folder(name) {
        json::quoted(name).drop_last()
    } else {
        json::quoted(name)
    }
}

/// What is put in for a file or a folder.
pub open spec fn file_text(name: Seq<char>) -> Seq<char> {
    if is_folder(name) {
        "@"@ + mention_of(name)
    } else {
        "@"@ + mention_of(name) + " "@
    }
}

/// The entry for a file or a folder.
pub open spec fn file_entry_view(name: Seq<char>) -> EntryView {
    EntryView { text: file_text(name), label: name }
}

fn wants_quotes(name: &[char]) -> (r: bool)
    ensures
        r == needs_quotes(name@),
{
    if name.len() > 0 && name[0] == '@' {
        return true;
    }
    let mut i: usize = 0;
    while i < name.len()
        invariant
            i <= name@.len(),
            !(name@.len() > 0 && name@[0] == '@'),
            forall|k: int| 0 <= k < i ==> !(is_space(#[trigger] name@[k]) || name@[k] == '"' || name@[k] == '\\'),
        decreases name@.len() - i,
    {
        if text::space(name[i]) || name[i] == '"' || name[i] == '\\' {
            return true;
        }
        i += 1;
    }
    false
}

/// The entry for a file or a folder.
pub fn file_entry(name: String) -> (r: Entry)
    ensures
        r@ == file_entry_view(name@),
{
    let chars = text::chars(&name);
    let folder = chars.len() > 0 && chars[chars.len() - 1] == '/';
    let mut out = "@".to_owned();
    if wants_quotes(&chars) {
        let mut quoted = text::chars(&json::quote(&name));
        if folder {
            let ghost all = quoted@;
            let _ = quoted.pop();
            assert(quoted@ =~= all.drop_last());
        }
        out.append(&text::string(&quoted));
    } else {
        out.append(&name);
    }
    if !folder {
        out.append(" ");
    }
    Entry { text: out, label: name }
}

/// Whether no character has to be written as an escape that a mention does not
/// read.
pub open spec fn mentionable(name: Seq<char>) -> bool {
    forall|k: int| 0 <= k < name.len() ==> !is_control(#[trigger] name[k])
}

/// Reading a quotation gives back what was quoted.
proof fn lemma_quotation_reads(name: Seq<char>, n: int, s: Seq<char>, i: int)
    requires
        0 <= n <= name.len(),
        mentionable(name),
        0 <= i,
        i + json::escaped(name.skip(n)).len() <= s.len(),
        s.subrange(i, i + json::escaped(name.skip(n)).len()) == json::escaped(name.skip(n)),
    ensures
        ({
            let end = i + json::escaped(name.skip(n)).len();
            quotation(s, i) == (name.skip(n) + quotation(s, end).0, quotation(s, end).1, quotation(s, end).2)
        }),
    decreases name.len() - n,
{
    let rest = name.skip(n);
    let coded = json::escaped(rest);
    let end = i + coded.len();
    if n == name.len() {
        assert(rest + quotation(s, end).0 =~= quotation(s, end).0);
    } else {
        let c = name[n];
        let tail = name.skip(n + 1);
        lemma_escaped_first(rest);
        assert(rest.drop_first() =~= tail);
        assert(rest[0] == c);
        let head = json::escaped_char(c);
        assert(!is_control(c));
        lemma_plain_escape(c);
        let part = s.subrange(i, end);
        assert(s[i] == part[0]);
        let next = i + head.len();
        assert(s.subrange(next, end) =~= json::escaped(tail)) by {
            assert forall|k: int| 0 <= k < end - next implies s.subrange(next, end)[k] == json::escaped(tail)[k] by {
                assert(s[next + k] == part[head.len() + k]);
            }
        }
        lemma_quotation_reads(name, n + 1, s, next);
        if head.len() == 2 {
            assert(s[i + 1] == part[1]);
        }
        assert(rest + quotation(s, end).0 =~= seq![c] + (tail + quotation(s, end).0));
    }
}

proof fn lemma_plain_escape(c: char)
    requires
        !is_control(c),
    ensures
        json::escaped_char(c) == (if c == '"' || c == '\\' {
            seq!['\\', c]
        } else {
            seq![c]
        }),
{
}

proof fn lemma_escaped_first(s: Seq<char>)
    requires
        s.len() > 0,
    ensures
        json::escaped(s) == json::escaped_char(s[0]) + json::escaped(s.drop_first()),
    decreases s.len(),
{
    let t = s.drop_last();
    if t.len() == 0 {
        assert(s.drop_first() =~= seq![]);
        assert(json::escaped(t) =~= seq![]);
        assert(json::escaped(s) =~= json::escaped_char(s[0]) + json::escaped(s.drop_first()));
    } else {
        lemma_escaped_first(t);
        assert(s.drop_first().drop_last() =~= t.drop_first());
        assert(s.drop_first().last() == s.last());
        assert(json::escaped(s) =~= json::escaped_char(s[0]) + json::escaped(s.drop_first()));
    }
}

/// What completion puts in for a file or a folder is read back as a mention of
/// it, and of nothing else. Only the quotation of a folder is left open, so
/// that the way can go on; what is put in for a folder ends with the mention.
pub proof fn law_completion_mentions_the_file(name: Seq<char>)
    requires
        mentionable(name),
    ensures
        mentions_in(file_text(name)).len() == 1,
        mentions_in(file_text(name))[0].path == name,
        mentions_in(file_text(name))[0].start == 0,
        mentions_in(file_text(name))[0].closed == !(needs_quotes(name) && is_folder(name)),
        is_folder(name) ==> mentions_in(file_text(name))[0].end == file_text(name).len(),
        mentions_in(file_text(name))[0].quoted == needs_quotes(name),
{
    let s = file_text(name);
    reveal_strlit("@");
    reveal_strlit(" ");
    let m = mention_at(s, 0);
    if needs_quotes(name) {
        let coded = json::escaped(name);
        let q = json::quoted(name);
        assert(q.len() == coded.len() + 2);
        assert(s[0] == '@');
        assert(s[1] == '"');
        let end = 2 + coded.len();
        assert(name.skip(0) =~= name);
        assert(s.subrange(2, end as int) =~= coded);
        lemma_quotation_reads(name, 0, s, 2);
        if is_folder(name) {
            assert(s.len() == end);
            assert(name + quotation(s, end as int).0 =~= name);
        } else {
            assert(s[end as int] == '"');
            assert(s.len() == end + 2);
            assert(name + quotation(s, end as int).0 =~= name);
            assert(s[end as int + 1] == ' ');
        }
    } else {
        let end = 1 + name.len();
        assert(s[0] == '@');
        if name.len() > 0 {
            assert(s[1] == name[0]);
            assert(!is_space(name[0]) && name[0] != '"' && name[0] != '\\');
        } else {
            assert(s[1] == ' ');
        }
        assert forall|k: int| 1 <= k < end implies !is_space(#[trigger] s[k]) by {
            assert(s[k] == name[k - 1]);
        }
        if !is_folder(name) {
            assert(s[end as int] == ' ');
        }
        lemma_word_end_is(s, 1, end as int);
        assert(s.subrange(1, end as int) =~= name);
    }
    assert(mentions_from(s, 0) == seq![m] + mentions_from(s, m.end));
    if m.end < s.len() {
        assert(s[m.end] == ' ');
        assert(mentions_from(s, m.end) == mentions_from(s, m.end + 1));
        assert(mentions_from(s, m.end + 1) =~= seq![]);
    } else {
        assert(mentions_from(s, m.end) =~= seq![]);
    }
}

/// A path below a folder, or an absolute one as it is.
pub open spec fn below(folder: Seq<char>, name: Seq<char>) -> Seq<char> {
    if name.len() > 0 && name[0] == '/' || folder.len() == 0 {
        name
    } else if folder.last() == '/' {
        folder + name
    } else {
        folder + "/"@ + name
    }
}

/// The path that a mention names: in the folder of the user behind `~/`, and
/// else from the current folder.
pub open spec fn located(cwd: Seq<char>, home: Seq<char>, name: Seq<char>) -> Seq<char> {
    if "~/"@.is_prefix_of(name) {
        below(home, name.skip(2))
    } else {
        below(cwd, name)
    }
}

/// A path below a folder, or an absolute one as it is.
pub fn join_path(folder: &str, name: &str) -> (r: String)
    ensures
        r@ == below(folder@, name@),
{
    let start = text::chars(folder);
    let chars = text::chars(name);
    if (chars.len() > 0 && chars[0] == '/') || start.len() == 0 {
        name.to_owned()
    } else if start[start.len() - 1] == '/' {
        text::cat(folder, name)
    } else {
        let mut out = text::cat(folder, "/");
        out.append(name);
        out
    }
}

/// The path that a mention names.
pub fn path(cwd: &str, home: &str, name: &str) -> (r: String)
    ensures
        r@ == located(cwd@, home@, name@),
{
    let chars = text::chars(name);
    proof {
        reveal_strlit("~/");
    }
    if text::starts_with(&chars, &text::chars("~/")) {
        let rest = text::slice(&chars, 2, chars.len());
        assert(rest@ =~= name@.skip(2));
        join_path(home, &text::string(&rest))
    } else {
        join_path(cwd, name)
    }
}

/// The largest file that can be mentioned, in bytes.
pub const TEXT_LIMIT: usize = 1048576;

/// The most that one message may carry, in bytes.
pub const CONTEXT_LIMIT: usize = 4194304;

/// Why a file cannot be attached, if it cannot: what `bytes` were read of it, up
/// to one more than the limit.
pub open spec fn text_refused(path: Seq<char>, regular: bool, bytes: Seq<u8>) -> Option<Seq<char>> {
    if !regular {
        Some(path + " is not a regular file"@)
    } else if bytes.len() > TEXT_LIMIT {
        Some(path + " exceeds 1 MiB"@)
    } else if bytes.contains(0) {
        Some(path + " is binary; @ mentions accept text files"@)
    } else if !vstd::utf8::valid_utf8(bytes) {
        Some(sse::utf8_error(bytes))
    } else {
        None
    }
}

/// The text of a file that is attached.
pub fn read_text(path: &str, regular: bool, bytes: Vec<u8>) -> (r: Result<String, String>)
    ensures
        match text_refused(path@, regular, bytes@) {
            Some(e) => r is Err && r->Err_0@ == e,
            None => r is Ok && r->Ok_0@ == vstd::utf8::decode_utf8(bytes@),
        },
{
    if !regular {
        return Err(text::cat(path, " is not a regular file"));
    }
    if bytes.len() > TEXT_LIMIT {
        return Err(text::cat(path, " exceeds 1 MiB"));
    }
    let mut i: usize = 0;
    while i < bytes.len()
        invariant
            i <= bytes@.len(),
            regular,
            bytes@.len() <= TEXT_LIMIT,
            forall|k: int| 0 <= k < i ==> #[trigger] bytes@[k] != 0,
        decreases bytes@.len() - i,
    {
        if bytes[i] == 0 {
            assert(bytes@.contains(0));
            return Err(text::cat(path, " is binary; @ mentions accept text files"));
        }
        i += 1;
    }
    sse::from_utf8(bytes)
}

/// A file that a message is to carry: what it is called, where it is, and
/// whether that place is shown rather than the file that it really is.
#[derive(Debug)]
pub struct Wanted {
    pub label: String,
    pub path: String,
    pub keep: bool,
}

/// The model of [`Wanted`].
pub struct WantedView {
    pub label: Seq<char>,
    pub path: Seq<char>,
    pub keep: bool,
}

impl View for Wanted {
    type V = WantedView;

    open spec fn view(&self) -> WantedView {
        WantedView { label: self.label@, path: self.path@, keep: self.keep }
    }
}

/// What each file to be carried says.
pub open spec fn wanted_views(wanted: Seq<Wanted>) -> Seq<WantedView> {
    wanted.map_values(|w: Wanted| w@)
}

/// The skill that a message is to carry. Its path stays as it was found, so that
/// the model sees the same one as in its instructions.
pub open spec fn wanted_skill(skill: SkillView) -> WantedView {
    WantedView { label: "Skill: /"@ + skill.name, path: skill.path, keep: true }
}

/// The files that mentions name. A mention of nothing names none.
pub open spec fn wanted_files(found: Seq<MentionView>, cwd: Seq<char>, home: Seq<char>) -> Seq<WantedView>
    decreases found.len(),
{
    if found.len() == 0 {
        seq![]
    } else {
        let before = wanted_files(found.drop_last(), cwd, home);
        let path = found.last().path;
        if path.len() == 0 {
            before
        } else {
            before.push(WantedView { label: "File"@, path: located(cwd, home, path), keep: false })
        }
    }
}

/// Whether a quotation is left open.
pub open spec fn left_open(found: Seq<MentionView>) -> bool {
    exists|k: int| 0 <= k < found.len() && !(#[trigger] found[k]).closed
}

/// What a message is to carry: the skill, and the files that it mentions.
pub open spec fn wanted_of(
    source: Seq<char>,
    cwd: Seq<char>,
    home: Seq<char>,
    skill: Option<SkillView>,
) -> Seq<WantedView> {
    (match skill {
        Some(skill) => seq![wanted_skill(skill)],
        None => seq![],
    }) + wanted_files(mentions_in(source), cwd, home)
}

/// What a message is to carry. A quotation that is left open is refused.
pub fn wanted(source: &str, cwd: &str, home: &str, skill: Option<&Skill>) -> (r: Result<Vec<Wanted>, String>)
    ensures
        left_open(mentions_in(source@)) ==> r is Err && r->Err_0@ == "Unclosed @\"file name\" mention"@,
        !left_open(mentions_in(source@)) ==> r is Ok && wanted_views(r->Ok_0@) == wanted_of(
            source@,
            cwd@,
            home@,
            match skill {
                Some(skill) => Some(skill@),
                None => None,
            },
        ),
{
    let mut out: Vec<Wanted> = Vec::new();
    assert(wanted_views(out@) =~= seq![]);
    if let Some(skill) = skill {
        out.push(Wanted { label: text::cat("Skill: /", &skill.name), path: skill.path.clone(), keep: true });
        assert(wanted_views(out@) =~= seq![wanted_skill(skill@)]);
    }
    let ghost first = wanted_views(out@);
    let found = mentions(source);
    let ghost all = mention_views(found@);
    let mut i: usize = 0;
    assert(first + wanted_files(all.take(0), cwd@, home@) =~= first);
    while i < found.len()
        invariant
            i <= found@.len(),
            all == mention_views(found@),
            all == mentions_in(source@),
            wanted_views(out@) == first + wanted_files(all.take(i as int), cwd@, home@),
            forall|k: int| 0 <= k < i ==> (#[trigger] all[k]).closed,
        decreases found@.len() - i,
    {
        let mention = &found[i];
        proof {
            assert(all[i as int] == mention@);
            assert(all.take(i + 1).drop_last() =~= all.take(i as int));
            assert(all.take(i + 1).last() == mention@);
        }
        if !mention.closed {
            assert(left_open(all));
            return Err("Unclosed @\"file name\" mention".to_owned());
        }
        if !mention.path.as_str().is_empty() {
            let ghost done = wanted_views(out@);
            let one = Wanted { label: "File".to_owned(), path: path(cwd, home, &mention.path), keep: false };
            out.push(one);
            proof {
                assert(wanted_views(out@) =~= done.push(one@));
                assert(wanted_views(out@) =~= first + wanted_files(all.take(i + 1), cwd@, home@));
            }
        }
        i += 1;
    }
    assert(all.take(i as int) =~= all);
    Ok(out)
}

/// What was found of a file: the file that it really is, and its text.
#[derive(Debug)]
pub struct Snapshot {
    pub wanted: Wanted,
    pub target: Result<String, String>,
    pub body: Result<String, String>,
}

/// The model of [`Snapshot`].
pub struct SnapshotView {
    pub wanted: WantedView,
    pub target: Result<Seq<char>, Seq<char>>,
    pub body: Result<Seq<char>, Seq<char>>,
}

/// A text, or the words of an error.
pub open spec fn text_result(r: Result<String, String>) -> Result<Seq<char>, Seq<char>> {
    match r {
        Ok(s) => Ok(s@),
        Err(e) => Err(e@),
    }
}

impl View for Snapshot {
    type V = SnapshotView;

    open spec fn view(&self) -> SnapshotView {
        SnapshotView { wanted: self.wanted@, target: text_result(self.target), body: text_result(self.body) }
    }
}

/// What was found of each file.
pub open spec fn snapshot_views(files: Seq<Snapshot>) -> Seq<SnapshotView> {
    files.map_values(|f: Snapshot| f@)
}

/// A message of the user with what it carries.
#[derive(Debug)]
pub struct Message {
    pub text: String,
    pub attachments: Vec<Record>,
}

/// The model of [`Message`].
pub struct MessageView {
    pub text: Seq<char>,
    pub attachments: Seq<RecordView>,
}

impl View for Message {
    type V = MessageView;

    open spec fn view(&self) -> MessageView {
        MessageView { text: self.text@, attachments: record_views(self.attachments@) }
    }
}

/// What each message says.
pub open spec fn message_views(messages: Seq<Message>) -> Seq<MessageView> {
    messages.map_values(|m: Message| m@)
}

/// The bytes of a text.
pub open spec fn bytes_of(s: Seq<char>) -> nat {
    encode_utf8(s).len()
}

/// What a message carries so far: its size in bytes, and the attachments.
pub struct Carried {
    pub size: nat,
    pub attachments: Seq<RecordView>,
}

/// Whether one of the files is `target`.
pub open spec fn targets(files: Seq<SnapshotView>, target: Seq<char>) -> bool {
    exists|j: int| 0 <= j < files.len() && (#[trigger] files[j]).target == Ok::<Seq<char>, Seq<char>>(target)
}

/// What a message of `size` bytes carries of the files, or why it is refused. A
/// file that was carried already is left out.
pub open spec fn carried(size: nat, files: Seq<SnapshotView>) -> Result<Carried, Seq<char>>
    decreases files.len(),
{
    if files.len() == 0 {
        Ok(Carried { size, attachments: seq![] })
    } else {
        match carried(size, files.drop_last()) {
            Err(e) => Err(e),
            Ok(before) => {
                let file = files.last();
                match file.target {
                    Err(e) => Err(file.wanted.path + ": "@ + e),
                    Ok(target) => if targets(files.drop_last(), target) {
                        Ok(before)
                    } else {
                        match file.body {
                            Err(e) => Err(file.wanted.path + ": "@ + e),
                            Ok(body) => {
                                let shown = if file.wanted.keep {
                                    file.wanted.path
                                } else {
                                    target
                                };
                                let more = before.size + bytes_of(body) + bytes_of(file.wanted.label) + bytes_of(
                                    shown,
                                ) + 5;
                                if more > CONTEXT_LIMIT {
                                    Err("Attached context exceeds 4 MiB"@)
                                } else {
                                    Ok(
                                        Carried {
                                            size: more,
                                            attachments: before.attachments.push(
                                                RecordView::Attachment {
                                                    label: file.wanted.label,
                                                    path: shown,
                                                    text: body,
                                                },
                                            ),
                                        },
                                    )
                                }
                            },
                        }
                    },
                }
            },
        }
    }
}

proof fn lemma_carried_fails(size: nat, files: Seq<SnapshotView>, n: int)
    requires
        0 <= n <= files.len(),
        carried(size, files.take(n)) is Err,
    ensures
        carried(size, files) == carried(size, files.take(n)),
    decreases files.len(),
{
    if n == files.len() {
        assert(files.take(n) =~= files);
    } else {
        assert(files.drop_last().take(n) =~= files.take(n));
        lemma_carried_fails(size, files.drop_last(), n);
    }
}

fn has_target(files: &Vec<String>, target: &str) -> (r: bool)
    ensures
        r == texts(files@).contains(target@),
{
    let mut j: usize = 0;
    while j < files.len()
        invariant
            j <= files@.len(),
            forall|k: int| 0 <= k < j ==> (#[trigger] texts(files@)[k]) != target@,
        decreases files@.len() - j,
    {
        if text::same(&files[j], target) {
            assert(texts(files@)[j as int] == target@);
            return true;
        }
        j += 1;
    }
    false
}

fn byte_len(s: &str) -> (r: usize)
    ensures
        r == bytes_of(s@),
{
    s.as_bytes().len()
}

/// A message of the user with what was found of the files that it is to carry.
pub fn prepare(source: String, files: Vec<Snapshot>) -> (r: Result<Message, String>)
    ensures
        match carried(bytes_of(source@), snapshot_views(files@)) {
            Err(e) => r is Err && r->Err_0@ == e,
            Ok(c) => r is Ok && r->Ok_0@ == (MessageView { text: source@, attachments: c.attachments }),
        },
{
    let ghost all = snapshot_views(files@);
    let mut size: usize = byte_len(&source);
    let ghost start = size as nat;
    let mut seen: Vec<String> = Vec::new();
    let mut attachments: Vec<Record> = Vec::new();
    assert(record_views(attachments@) =~= seq![]);
    for file in it: files
        invariant
            it.seq() == files@,
            all == snapshot_views(files@),
            start == bytes_of(source@),
            carried(start, all.take(it.index())) == Ok::<Carried, Seq<char>>(
                Carried { size: size as nat, attachments: record_views(attachments@) },
            ),
            forall|t: Seq<char>|
                #[trigger] texts(seen@).contains(t) <==> targets(all.take(it.index()), t),
    {
        let ghost k = it.index();
        let ghost before = all.take(k);
        let ghost now = file@;
        proof {
            assert(all.take(k + 1).drop_last() =~= before);
            assert(all[k] == now);
            assert(all.take(k + 1).last() == now);
        }
        let wanted = file.wanted;
        let target = match file.target {
            Ok(target) => target,
            Err(e) => {
                proof {
                    lemma_carried_fails(start, all, k + 1);
                }
                let mut words = text::cat(&wanted.path, ": ");
                words.append(&e);
                return Err(words);
            },
        };
        let ghost t0 = target@;
        let ghost seen0 = texts(seen@);
        let again = has_target(&seen, &target);
        if !again {
            let body = match file.body {
                Ok(body) => body,
                Err(e) => {
                    proof {
                        lemma_carried_fails(start, all, k + 1);
                    }
                    let mut words = text::cat(&wanted.path, ": ");
                    words.append(&e);
                    return Err(words);
                },
            };
            let shown = if wanted.keep {
                wanted.path.clone()
            } else {
                target.clone()
            };
            size = size.saturating_add(byte_len(&body)).saturating_add(byte_len(&wanted.label)).saturating_add(
                byte_len(&shown),
            ).saturating_add(5);
            if size > CONTEXT_LIMIT {
                proof {
                    lemma_carried_fails(start, all, k + 1);
                }
                return Err("Attached context exceeds 4 MiB".to_owned());
            }
            let ghost held = record_views(attachments@);
            let record = Record::Attachment { label: wanted.label, path: shown, text: body };
            attachments.push(record);
            seen.push(target);
            proof {
                assert(record_views(attachments@) =~= held.push(record@));
                assert(texts(seen@) =~= seen0.push(t0));
            }
        }
        proof {
            assert forall|t: Seq<char>| #[trigger] texts(seen@).contains(t) <==> targets(all.take(k + 1), t) by {
                lemma_targets_push(before, now, t);
                assert(all.take(k + 1) =~= before.push(now));
                assert(seen0.contains(t) <==> targets(before, t));
                if !again {
                    order::lemma_contains_push(seen0, t0, t);
                }
            }
        }
    }
    assert(all.take(all.len() as int) =~= all);
    Ok(Message { text: source, attachments })
}

proof fn lemma_targets_push(files: Seq<SnapshotView>, file: SnapshotView, t: Seq<char>)
    ensures
        targets(files.push(file), t) <==> targets(files, t) || file.target == Ok::<Seq<char>, Seq<char>>(t),
{
    let all = files.push(file);
    if targets(files, t) {
        let j = choose|j: int|
            0 <= j < files.len() && (#[trigger] files[j]).target == Ok::<Seq<char>, Seq<char>>(t);
        assert(all[j].target == Ok::<Seq<char>, Seq<char>>(t));
    }
    if file.target == Ok::<Seq<char>, Seq<char>>(t) {
        assert(all[files.len() as int].target == Ok::<Seq<char>, Seq<char>>(t));
    }
    if targets(all, t) {
        let j = choose|j: int| 0 <= j < all.len() && (#[trigger] all[j]).target == Ok::<Seq<char>, Seq<char>>(t);
        if j < files.len() {
            assert(files[j].target == Ok::<Seq<char>, Seq<char>>(t));
        }
    }
}

/// A file is carried once: one that is there already changes nothing, by
/// whatever path it is mentioned.
pub proof fn law_files_are_carried_once(size: nat, files: Seq<SnapshotView>, again: SnapshotView)
    requires
        carried(size, files) is Ok,
        again.target matches Ok(target) && targets(files, target),
    ensures
        carried(size, files.push(again)) == carried(size, files),
{
    assert(files.push(again).drop_last() =~= files);
}

/// The bytes that attachments count for.
pub open spec fn attached_bytes(attachments: Seq<RecordView>) -> nat
    decreases attachments.len(),
{
    if attachments.len() == 0 {
        0
    } else {
        attached_bytes(attachments.drop_last()) + (match attachments.last() {
            RecordView::Attachment { label, path, text } => bytes_of(label) + bytes_of(path) + bytes_of(text) + 5,
            _ => 0,
        })
    }
}

/// A message with attachments has no more than 4 MiB, all of them counted.
pub proof fn law_context_is_bounded(size: nat, files: Seq<SnapshotView>)
    ensures
        carried(size, files) matches Ok(c) ==> c.size == size + attached_bytes(c.attachments) && (
        c.attachments.len() > 0 ==> c.size <= CONTEXT_LIMIT),
    decreases files.len(),
{
    if files.len() > 0 {
        law_context_is_bounded(size, files.drop_last());
        if let Ok(before) = carried(size, files.drop_last()) {
            if let Ok(c) = carried(size, files) {
                if c.attachments.len() > before.attachments.len() {
                    assert(c.attachments.drop_last() =~= before.attachments);
                }
            }
        }
    }
}

/// A text in lower case, as std does it.
pub uninterp spec fn lower_case(s: Seq<char>) -> Seq<char>;

/// An ASCII letter in lower case.
pub open spec fn ascii_lower(c: char) -> char {
    if 'A' <= c && c <= 'Z' {
        (c as u32 + 32) as char
    } else {
        c
    }
}

/// Whether all characters are ASCII.
pub open spec fn is_ascii(s: Seq<char>) -> bool {
    forall|k: int| 0 <= k < s.len() ==> #[trigger] s[k] <= '\u{7f}'
}

/// `str::to_lowercase` of std: the text in lower case. Of ASCII it lowers the
/// letters, and it depends on the text alone.
#[verifier::external_body]
fn lowered(s: &str) -> (r: String)
    ensures
        r@ == lower_case(s@),
        is_ascii(s@) ==> r@ == s@.map_values(|c: char| ascii_lower(c)),
{
    s.to_lowercase()
}

/// How many bytes are passed over where the characters of `query` are looked
/// for in `rest` one after the other.
pub open spec fn gaps(rest: Seq<char>, query: Seq<char>) -> Option<nat>
    decreases query.len(),
{
    if query.len() == 0 {
        Some(0)
    } else {
        let i = text::first(rest, query[0]);
        if i >= rest.len() {
            None
        } else {
            match gaps(rest.skip(i + 1), query.drop_first()) {
                Some(n) => Some(bytes_of(rest.take(i)) + n),
                None => None,
            }
        }
    }
}

/// How well `query` fits a name, the lower the better: it begins the name, or
/// the last part of it, or else its characters stand in it in their order.
pub open spec fn rank_of(name: Seq<char>, query: Seq<char>) -> Option<usize> {
    if query.is_prefix_of(name) {
        Some(0)
    } else if query.is_prefix_of(name.skip(text::last(name, '/') + 1)) {
        Some(1)
    } else {
        match gaps(name, query) {
            Some(n) => Some(count(2 + n)),
            None => None,
        }
    }
}

/// How well `query` fits a name; both are in lower case.
pub fn rank(name: &[char], query: &[char]) -> (r: Option<usize>)
    ensures
        r == rank_of(name@, query@),
{
    if text::starts_with(name, query) {
        return Some(0);
    }
    let len: usize = name.len();
    let leaf = match text::find_last(name, '/') {
        Some(i) => text::slice(name, i + 1, len),
        None => text::slice(name, 0, len),
    };
    assert(leaf@ =~= name@.skip(text::last(name@, '/') + 1));
    if text::starts_with(&leaf, query) {
        return Some(1);
    }
    let mut rest = text::slice(name, 0, name.len());
    assert(rest@ =~= name@);
    let mut passed: usize = 2;
    let ghost mut before: nat = 0;
    let mut i: usize = 0;
    assert(query@.skip(0) =~= query@);
    while i < query.len()
        invariant
            i <= query@.len(),
            passed == count(2 + before),
            match gaps(rest@, query@.skip(i as int)) {
                Some(n) => gaps(name@, query@) == Some(before + n),
                None => gaps(name@, query@) is None,
            },
            !query@.is_prefix_of(name@),
            !query@.is_prefix_of(name@.skip(text::last(name@, '/') + 1)),
        decreases query@.len() - i,
    {
        assert(query@.skip(i as int)[0] == query@[i as int]);
        assert(query@.skip(i as int).drop_first() =~= query@.skip(i + 1));
        match text::find(&rest, query[i]) {
            None => return None,
            Some(k) => {
                let part = text::slice(&rest, 0, k);
                assert(part@ =~= rest@.take(k as int));
                passed = passed.saturating_add(byte_len(&text::string(&part)));
                proof {
                    before = before + bytes_of(part@);
                }
                let end: usize = rest.len();
                let next = text::slice(&rest, k + 1, end);
                assert(next@ =~= rest@.skip(k + 1));
                rest = next;
            },
        }
        i += 1;
    }
    Some(passed)
}

/// How well `query` fits a name, the lower the better.
pub fn score(candidate: &str, query: &str) -> (r: Option<usize>)
    ensures
        r == rank_of(lower_case(candidate@), lower_case(query@)),
{
    rank(&text::chars(&lowered(candidate)), &text::chars(&lowered(query)))
}

/// What is to be completed: a command, or the name of a file.
pub enum AskView {
    Command { start: int, end: int, word: Seq<char> },
    File { start: int, end: int, query: Seq<char> },
}

/// What is to be completed in `s`, with the cursor behind `cursor` characters.
pub open spec fn asked(s: Seq<char>, cursor: int) -> Option<AskView> {
    let prefix = if cursor <= s.len() {
        s.take(cursor)
    } else {
        s
    };
    let start = text::leading_spaces(prefix);
    let trimmed = text::trim_start(prefix);
    if trimmed.len() > 0 && trimmed[0] == '/' && word_end(trimmed, 0) == trimmed.len() {
        Some(AskView::Command { start, end: word_end(s, start), word: trimmed })
    } else {
        let found = mentions_in(prefix);
        if found.len() == 0 {
            None
        } else {
            let mention = found.last();
            if mention.end != cursor || (mention.quoted && mention.closed) {
                None
            } else {
                match mention_from(mentions_in(s), mention.start, 0) {
                    None => None,
                    Some(whole) => Some(
                        AskView::File { start: whole.start, end: whole.end, query: mention.path },
                    ),
                }
            }
        }
    }
}

/// The first mention from the `k`th on that begins at `start`.
pub open spec fn mention_from(found: Seq<MentionView>, start: int, k: int) -> Option<MentionView>
    decreases found.len() - k,
{
    if k < 0 || k >= found.len() {
        None
    } else if found[k].start == start {
        Some(found[k])
    } else {
        mention_from(found, start, k + 1)
    }
}

/// What is to be completed: a command, or the name of a file.
#[derive(Debug)]
pub enum Ask {
    Command { start: usize, end: usize, word: String },
    File { start: usize, end: usize, query: String },
}

impl View for Ask {
    type V = AskView;

    open spec fn view(&self) -> AskView {
        match self {
            Ask::Command { start, end, word } => AskView::Command { start: *start as int, end: *end as int, word: word@ },
            Ask::File { start, end, query } => AskView::File { start: *start as int, end: *end as int, query: query@ },
        }
    }
}

/// What may be completed.
pub open spec fn ask_view(ask: Option<Ask>) -> Option<AskView> {
    match ask {
        Some(ask) => Some(ask@),
        None => None,
    }
}

impl AskView {
    /// What is to be completed is a part of a text of `len` characters.
    pub open spec fn within(self, len: int) -> bool {
        match self {
            AskView::Command { start, end, .. } => 0 <= start <= end <= len,
            AskView::File { start, end, .. } => 0 <= start <= end <= len,
        }
    }
}

/// What is to be completed, with the cursor behind `cursor` characters.
pub fn ask(source: &str, cursor: usize) -> (r: Option<Ask>)
    ensures
        ask_view(r) == asked(source@, cursor as int),
        r matches Some(a) ==> a@.within(source@.len() as int),
{
    let chars = text::chars(source);
    let ghost s = chars@;
    let end: usize = if cursor <= chars.len() {
        cursor
    } else {
        chars.len()
    };
    let prefix = text::slice(&chars, 0, end);
    assert(prefix@ =~= (if cursor <= s.len() {
        s.take(cursor as int)
    } else {
        s
    }));
    let start = text::count_leading_spaces(&prefix);
    let trimmed = text::trimmed_start(&prefix);
    if trimmed.len() > 0 && trimmed[0] == '/' && end_of_word(&trimmed, 0) == trimmed.len() {
        let word = text::string(&trimmed);
        proof {
            lemma_word_end(s, start as int);
        }
        return Some(Ask::Command { start, end: end_of_word(&chars, start), word });
    }
    let mut found = mentions(&text::string(&prefix));
    let ghost before = mention_views(found@);
    let mention = match found.pop() {
        Some(mention) => mention,
        None => return None,
    };
    assert(before.last() == mention@);
    if mention.end != cursor || (mention.quoted && mention.closed) {
        return None;
    }
    let all = mentions(source);
    let ghost views = mention_views(all@);
    let mut k: usize = 0;
    while k < all.len()
        invariant
            k <= all@.len(),
            views == mention_views(all@),
            forall|j: int| 0 <= j < all@.len() ==> (#[trigger] all@[j]).start < all@[j].end <= source@.len(),
            mention_from(views, mention.start as int, 0) == mention_from(views, mention.start as int, k as int),
            ({
                let want = mention_from(views, mention.start as int, 0);
                asked(source@, cursor as int) == (match want {
                    None => None,
                    Some(whole) => Some(
                        AskView::File { start: whole.start, end: whole.end, query: mention.path@ },
                    ),
                })
            }),
        decreases all@.len() - k,
    {
        assert(views[k as int] == all@[k as int]@);
        if all[k].start == mention.start {
            return Some(Ask::File { start: all[k].start, end: all[k].end, query: mention.path });
        }
        k += 1;
    }
    None
}

fn end_of_word(s: &[char], from: usize) -> (r: usize)
    requires
        from <= s@.len(),
    ensures
        r == word_end(s@, from as int),
{
    let mut i: usize = from;
    while i < s.len() && !text::space(s[i])
        invariant
            from <= i <= s@.len(),
            forall|k: int| from <= k < i ==> !is_space(#[trigger] s@[k]),
        decreases s@.len() - i,
    {
        i += 1;
    }
    proof {
        lemma_word_end_is(s@, from as int, i as int);
    }
    i
}

/// What is offered to complete a part of the input, and which of it is chosen.
#[derive(Debug)]
pub struct Menu {
    pub range: std::ops::Range<usize>,
    pub query: String,
    pub file: bool,
    pub exact_file: bool,
    pub entries: Vec<Entry>,
    pub selected: usize,
    pub explicit: bool,
}

/// The model of [`Menu`].
pub struct MenuView {
    pub start: int,
    pub end: int,
    pub query: Seq<char>,
    pub file: bool,
    pub exact_file: bool,
    pub entries: Seq<EntryView>,
    pub selected: int,
    pub explicit: bool,
}

impl View for Menu {
    type V = MenuView;

    open spec fn view(&self) -> MenuView {
        MenuView {
            start: self.range.start as int,
            end: self.range.end as int,
            query: self.query@,
            file: self.file,
            exact_file: self.exact_file,
            entries: entry_views(self.entries@),
            selected: self.selected as int,
            explicit: self.explicit,
        }
    }
}

impl MenuView {
    /// The text that the chosen entry puts in.
    pub open spec fn replacement(self) -> Option<Seq<char>> {
        if 0 <= self.selected < self.entries.len() {
            Some(self.entries[self.selected].text)
        } else {
            None
        }
    }
}

impl Menu {
    /// The text that the chosen entry puts in.
    pub fn replacement(&self) -> (r: Option<String>)
        ensures
            option_view(r) == self@.replacement(),
    {
        if self.selected < self.entries.len() {
            Some(self.entries[self.selected].text.clone())
        } else {
            None
        }
    }
}

/// The folder that a query names, with its slash, and what a name in it begins
/// with, where the query is a path of its own.
pub open spec fn folder_of(query: Seq<char>) -> Option<(Seq<char>, Seq<char>)> {
    if "/"@.is_prefix_of(query) || "~/"@.is_prefix_of(query) || "./"@.is_prefix_of(query) || "../"@.is_prefix_of(
        query,
    ) {
        let cut = text::last(query, '/') + 1;
        Some((query.take(cut), query.skip(cut)))
    } else {
        None
    }
}

/// The folder that a query names, with its slash, and what a name in it begins
/// with.
pub fn folder(query: &str) -> (r: Option<(String, String)>)
    ensures
        match folder_of(query@) {
            None => r is None,
            Some((parent, leaf)) => r matches Some((p, l)) && p@ == parent && l@ == leaf,
        },
{
    let chars = text::chars(query);
    let len: usize = chars.len();
    if text::starts_with(&chars, &text::chars("/")) || text::starts_with(&chars, &text::chars("~/")) || text::starts_with(
        &chars,
        &text::chars("./"),
    ) || text::starts_with(&chars, &text::chars("../")) {
        let cut: usize = match text::find_last(&chars, '/') {
            Some(i) => i + 1,
            None => 0,
        };
        let parent = text::slice(&chars, 0, cut);
        let leaf = text::slice(&chars, cut, len);
        assert(parent@ =~= query@.take(cut as int));
        assert(leaf@ =~= query@.skip(cut as int));
        Some((text::string(&parent), text::string(&leaf)))
    } else {
        None
    }
}

/// How many names of a folder are looked at.
pub const LISTED: usize = 4096;

/// How many files are offered.
pub const OFFERED: usize = 40;

/// Whether a name holds a control character.
pub open spec fn has_control(name: Seq<char>) -> bool {
    exists|k: int| 0 <= k < name.len() && is_control(#[trigger] name[k])
}

fn holds_control(name: &[char]) -> (r: bool)
    ensures
        r == has_control(name@),
{
    let mut i: usize = 0;
    while i < name.len()
        invariant
            i <= name@.len(),
            forall|k: int| 0 <= k < i ==> !is_control(#[trigger] name@[k]),
        decreases name@.len() - i,
    {
        if text::control(name[i]) {
            return true;
        }
        i += 1;
    }
    false
}

/// What a folder holds.
pub open spec fn listed_views(listed: Seq<(String, bool)>) -> Seq<(Seq<char>, bool)> {
    listed.map_values(|p: (String, bool)| (p.0@, p.1))
}

/// What a folder offers: the names that begin with `leaf`, a folder with a slash
/// behind it.
pub open spec fn in_folder(listed: Seq<(Seq<char>, bool)>, parent: Seq<char>, leaf: Seq<char>) -> Seq<Ranked>
    decreases listed.len(),
{
    if listed.len() == 0 {
        seq![]
    } else {
        let before = in_folder(listed.drop_last(), parent, leaf);
        let (name, folder) = listed.last();
        if !leaf.is_prefix_of(name) || has_control(name) {
            before
        } else {
            before.push((0, parent + name + (if folder { "/"@ } else { ""@ })))
        }
    }
}

/// The files that a query fits.
pub open spec fn fitting(files: Seq<Seq<char>>, query: Seq<char>) -> Seq<Ranked>
    decreases files.len(),
{
    if files.len() == 0 {
        seq![]
    } else {
        let before = fitting(files.drop_last(), query);
        match rank_of(lower_case(files.last()), lower_case(query)) {
            Some(rank) => before.push((rank, files.last())),
            None => before,
        }
    }
}

/// At most the first `n`.
pub open spec fn at_most<A>(list: Seq<A>, n: int) -> Seq<A> {
    if list.len() <= n {
        list
    } else {
        list.take(n)
    }
}

/// The files that a query fits; of a query for nothing, the first.
pub open spec fn matches_of(query: Seq<char>, files: Seq<Seq<char>>, listed: Seq<(Seq<char>, bool)>) -> Seq<Ranked> {
    match folder_of(query) {
        Some((parent, leaf)) => in_folder(at_most(listed, LISTED as int), parent, leaf),
        None => fitting(
            if query.len() == 0 {
                at_most(files, OFFERED as int)
            } else {
                files
            },
            query,
        ),
    }
}

/// The entries for files in this order.
pub open spec fn file_entries(list: Seq<Ranked>) -> Seq<EntryView> {
    list.map_values(|p: Ranked| file_entry_view(p.1))
}

/// The files that are offered of those that fit: the first, the best before the
/// others and else by name.
pub open spec fn offered(fit: Seq<Ranked>) -> Seq<EntryView> {
    file_entries(at_most(order::sorted_list(fit), OFFERED as int))
}

/// The entry for a command.
pub open spec fn command_entry(skills: Seq<SkillView>, name: Seq<char>) -> EntryView {
    EntryView {
        text: name + " "@,
        label: name + "  "@ + choice_hint(skills, choice_of(skills, name)->0),
    }
}

/// The entries for commands.
pub open spec fn command_entries(skills: Seq<SkillView>, names: Seq<Seq<char>>) -> Seq<EntryView> {
    names.map_values(|n: Seq<char>| command_entry(skills, n))
}

/// The commands that begin with `word`.
pub open spec fn commands_for(skills: Seq<SkillView>, word: Seq<char>) -> Seq<EntryView> {
    command_entries(skills, commands::beginning_with(commands::all_names(skills), word))
}

fn command_menu(word: &str, skills: &Vec<Skill>) -> (r: Vec<Entry>)
    ensures
        entry_views(r@) == commands_for(skill_views(skills@), word@),
{
    let ghost all = skill_views(skills@);
    let list = commands::choices(skills);
    let ghost names = named_names(list@);
    let start = text::chars(word);
    let mut entries: Vec<Entry> = Vec::new();
    let mut i: usize = 0;
    assert(entry_views(entries@) =~= command_entries(all, commands::beginning_with(names.take(0), word@)));
    while i < list.len()
        invariant
            i <= list@.len(),
            start@ == word@,
            names == named_names(list@),
            named_right(list@, all),
            entry_views(entries@) == command_entries(all, commands::beginning_with(names.take(i as int), word@)),
        decreases list@.len() - i,
    {
        let named = &list[i];
        proof {
            assert(names.take(i + 1).drop_last() =~= names.take(i as int));
            assert(names.take(i + 1).last() == named.name@);
        }
        if text::starts_with(&text::chars(&named.name), &start) {
            let ghost done = entry_views(entries@);
            let mut label = text::cat(&named.name, "  ");
            label.append(&named.hint);
            let entry = Entry { text: text::cat(&named.name, " "), label };
            entries.push(entry);
            proof {
                assert(entry@ == command_entry(all, named.name@));
                assert(entry_views(entries@) =~= done.push(entry@));
                let before = commands::beginning_with(names.take(i as int), word@);
                assert(command_entries(all, before.push(named.name@)) =~= command_entries(all, before).push(entry@));
            }
        }
        i += 1;
    }
    assert(names.take(i as int) =~= names);
    entries
}

fn folder_matches(listed: &Vec<(String, bool)>, parent: &str, leaf: &str) -> (r: Vec<(usize, Vec<char>)>)
    ensures
        order::ranked(r@) == in_folder(at_most(listed_views(listed@), LISTED as int), parent@, leaf@),
{
    let ghost all = listed_views(listed@);
    let n: usize = if listed.len() <= LISTED {
        listed.len()
    } else {
        LISTED
    };
    let start = text::chars(leaf);
    let mut out: Vec<(usize, Vec<char>)> = Vec::new();
    let mut i: usize = 0;
    assert(order::ranked(out@) =~= in_folder(all.take(0), parent@, leaf@));
    while i < n
        invariant
            i <= n <= listed@.len(),
            all == listed_views(listed@),
            start@ == leaf@,
            order::ranked(out@) == in_folder(all.take(i as int), parent@, leaf@),
        decreases n - i,
    {
        let name = text::chars(&listed[i].0);
        proof {
            assert(all.take(i + 1).drop_last() =~= all.take(i as int));
            assert(all.take(i + 1).last() == (name@, listed@[i as int].1));
        }
        if text::starts_with(&name, &start) && !holds_control(&name) {
            let ghost done = order::ranked(out@);
            let mut full = text::cat(parent, &listed[i].0);
            full.append(if listed[i].1 { "/" } else { "" });
            let item = (0usize, text::chars(&full));
            out.push(item);
            assert(order::ranked(out@) =~= done.push((0, full@)));
        }
        i += 1;
    }
    assert(all.take(n as int) =~= at_most(all, LISTED as int));
    out
}

fn file_matches(files: &Vec<String>, query: &str) -> (r: Vec<(usize, Vec<char>)>)
    ensures
        order::ranked(r@) == fitting(
            if query@.len() == 0 {
                at_most(texts(files@), OFFERED as int)
            } else {
                texts(files@)
            },
            query@,
        ),
{
    let ghost all = texts(files@);
    let n: usize = if query.is_empty() && files.len() > OFFERED {
        OFFERED
    } else {
        files.len()
    };
    let wanted = text::chars(&lowered(query));
    let mut out: Vec<(usize, Vec<char>)> = Vec::new();
    let mut i: usize = 0;
    assert(order::ranked(out@) =~= fitting(all.take(0), query@));
    while i < n
        invariant
            i <= n <= files@.len(),
            all == texts(files@),
            wanted@ == lower_case(query@),
            order::ranked(out@) == fitting(all.take(i as int), query@),
        decreases n - i,
    {
        proof {
            assert(all.take(i + 1).drop_last() =~= all.take(i as int));
            assert(all.take(i + 1).last() == files@[i as int]@);
        }
        if let Some(rank) = rank(&text::chars(&lowered(&files[i])), &wanted) {
            let ghost done = order::ranked(out@);
            let item = (rank, text::chars(&files[i]));
            out.push(item);
            assert(order::ranked(out@) =~= done.push((rank, files@[i as int]@)));
        }
        i += 1;
    }
    assert(all.take(n as int) =~= (if query@.len() == 0 {
        at_most(all, OFFERED as int)
    } else {
        all
    }));
    out
}

/// The entries for files, the best first.
fn file_menu(found: Vec<(usize, Vec<char>)>) -> (r: Vec<Entry>)
    ensures
        entry_views(r@) == offered(order::ranked(found@)),
{
    let ghost fit = order::ranked(found@);
    let found = order::sort(found);
    let ghost list = order::ranked(found@);
    let n: usize = if found.len() <= OFFERED {
        found.len()
    } else {
        OFFERED
    };
    let mut entries: Vec<Entry> = Vec::new();
    let mut i: usize = 0;
    while i < n
        invariant
            i <= n <= found@.len(),
            list == order::ranked(found@),
            entries@.len() == i,
            forall|k: int| 0 <= k < i ==> (#[trigger] entries@[k])@ == file_entry_view(list[k].1),
        decreases n - i,
    {
        entries.push(file_entry(text::string(&found[i].1)));
        i += 1;
    }
    assert(list == order::sorted_list(fit));
    assert(entry_views(entries@) =~= file_entries(at_most(list, OFFERED as int)));
    entries
}

/// What is offered for what is to be completed.
pub open spec fn menu_of(
    ask: AskView,
    skills: Seq<SkillView>,
    files: Seq<Seq<char>>,
    listed: Seq<(Seq<char>, bool)>,
    exact: bool,
) -> MenuView {
    match ask {
        AskView::Command { start, end, word } => MenuView {
            start,
            end,
            query: word,
            file: false,
            exact_file: false,
            entries: commands_for(skills, word),
            selected: 0,
            explicit: false,
        },
        AskView::File { start, end, query } => MenuView {
            start,
            end,
            query,
            file: true,
            exact_file: query.len() > 0 && exact,
            entries: offered(matches_of(query, files, listed)),
            selected: 0,
            explicit: false,
        },
    }
}

/// What is offered for what is to be completed. For the name of a file, `files`
/// are the files of the project, `listed` is what the folder holds that the name
/// leads to, and `exact` whether the name is that of a file.
pub fn menu(ask: Ask, skills: &Vec<Skill>, files: &Vec<String>, listed: &Vec<(String, bool)>, exact: bool) -> (r: Menu)
    ensures
        r@ == menu_of(ask@, skill_views(skills@), texts(files@), listed_views(listed@), exact),
{
    match ask {
        Ask::Command { start, end, word } => {
            let entries = command_menu(&word, skills);
            Menu { range: start..end, query: word, file: false, exact_file: false, entries, selected: 0, explicit: false }
        },
        Ask::File { start, end, query } => {
            let found = match folder(&query) {
                Some((parent, leaf)) => folder_matches(listed, &parent, &leaf),
                None => file_matches(files, &query),
            };
            let entries = file_menu(found);
            let exact_file = !query.as_str().is_empty() && exact;
            Menu { range: start..end, query, file: true, exact_file, entries, selected: 0, explicit: false }
        },
    }
}

/// The largest index of files, in bytes.
pub const INDEX_LIMIT: usize = 8388608;

/// Gathers an index of files: `held` bytes and `more`.
pub fn index_fits(held: usize, more: usize) -> (r: Result<(), String>)
    ensures
        held + more <= INDEX_LIMIT ==> r is Ok,
        held + more > INDEX_LIMIT ==> r is Err && r->Err_0@ == "File index exceeds 8 MiB; use @./directory/ instead"@,
{
    if held.saturating_add(more) > INDEX_LIMIT {
        Err("File index exceeds 8 MiB; use @./directory/ instead".to_owned())
    } else {
        Ok(())
    }
}

/// The names in an index: what stands between zero bytes, is text, and holds no
/// control character.
pub open spec fn indexed(data: Seq<u8>, name: Seq<char>) -> bool {
    exists|i: int, j: int| #[trigger] piece_at(data, i, j) && name_in(data.subrange(i, j), name)
}

/// Whether `i..j` is a piece between zero bytes.
pub open spec fn piece_at(data: Seq<u8>, i: int, j: int) -> bool {
    &&& 0 <= i <= j <= data.len()
    &&& i == 0 || data[i - 1] == 0
    &&& j == data.len() || data[j] == 0
    &&& forall|k: int| i <= k < j ==> #[trigger] data[k] != 0
}

/// Whether a piece is the name of a file.
pub open spec fn name_in(piece: Seq<u8>, name: Seq<char>) -> bool {
    vstd::utf8::valid_utf8(piece) && name == vstd::utf8::decode_utf8(piece) && name.len() > 0 && !has_control(name)
}

/// The names of the files in an index, in order, each once.
fn read_index(data: &[u8]) -> (r: Vec<String>)
    ensures
        order::strictly_sorted(texts(r@)),
        forall|name: Seq<char>| #[trigger] texts(r@).contains(name) <==> indexed(data@, name),
{
    let ghost s = data@;
    let mut names: Vec<String> = Vec::new();
    let mut start: usize = 0;
    let mut i: usize = 0;
    let end: usize = data.len();
    let mut done = false;
    assert(texts(names@) =~= seq![]);
    while !done
        invariant
            end == s.len(),
            s == data@,
            start <= i <= end,
            done || start == 0 || s[start - 1] == 0,
            forall|k: int| start <= k < i ==> #[trigger] s[k] != 0,
            done ==> start == end && i == end,
            forall|name: Seq<char>|
                #[trigger] texts(names@).contains(name) <==> exists|a: int, b: int| #[trigger]
                    piece_at(s, a, b) && (b < start || done) && name_in(s.subrange(a, b), name),
        decreases end - i, (if done { 0int } else { 1int }),
    {
        if i < end && data[i] != 0 {
            i += 1;
            continue;
        }
        let bytes = vstd::slice::slice_to_vec(vstd::slice::slice_subrange(data, start, i));
        let ghost piece = s.subrange(start as int, i as int);
        let ghost held = texts(names@);
        assert(bytes@ =~= piece);
        assert(piece_at(s, start as int, i as int));
        let ghost mut added: Option<Seq<char>> = None;
        if let Ok(name) = sse::from_utf8(bytes) {
            let chars = text::chars(&name);
            if chars.len() > 0 && !holds_control(&chars) {
                proof {
                    added = Some(name@);
                }
                names.push(name);
                assert(texts(names@) =~= held.push(name@));
            }
        }
        let ghost a0 = start as int;
        let ghost b0 = i as int;
        let ghost was = start as int;
        if i < end {
            i += 1;
            start = i;
        } else {
            start = end;
            done = true;
        }
        proof {
            let now = texts(names@);
            assert forall|name: Seq<char>|
                #[trigger] now.contains(name) <==> exists|a: int, b: int| #[trigger]
                    piece_at(s, a, b) && (b < start || done) && name_in(s.subrange(a, b), name) by {
                if added is Some {
                    order::lemma_contains_push(held, added->0, name);
                }
                assert(held.contains(name) <==> exists|a: int, b: int| #[trigger]
                    piece_at(s, a, b) && b < was && name_in(s.subrange(a, b), name));
                if held.contains(name) {
                    let (a, b) = choose|a: int, b: int| #[trigger]
                        piece_at(s, a, b) && b < was && name_in(s.subrange(a, b), name);
                    assert(piece_at(s, a, b));
                }
                if exists|a: int, b: int| #[trigger]
                    piece_at(s, a, b) && (b < start || done) && name_in(s.subrange(a, b), name) {
                    let (a, b) = choose|a: int, b: int| #[trigger]
                        piece_at(s, a, b) && (b < start || done) && name_in(s.subrange(a, b), name);
                    if b >= was {
                        lemma_same_piece(s, a, b, a0, b0);
                    }
                }
            }
        }
    }
    proof {
        let now = texts(names@);
        assert forall|name: Seq<char>| #[trigger] now.contains(name) <==> indexed(s, name) by {
            if now.contains(name) {
                let (a, b) = choose|a: int, b: int| #[trigger]
                    piece_at(s, a, b) && (b < start || done) && name_in(s.subrange(a, b), name);
                assert(piece_at(s, a, b));
            }
            if indexed(s, name) {
                let (a, b) = choose|a: int, b: int| #[trigger] piece_at(s, a, b) && name_in(s.subrange(a, b), name);
                assert(piece_at(s, a, b));
            }
        }
    }
    order::sort_distinct(names)
}

proof fn lemma_same_piece(s: Seq<u8>, a: int, b: int, a0: int, b0: int)
    requires
        piece_at(s, a, b),
        piece_at(s, a0, b0),
        a0 <= b <= b0,
    ensures
        a == a0,
        b == b0,
{
    if b < b0 {
        assert(s[b] != 0);
    }
    if a < a0 {
        assert(s[a0 - 1] != 0);
    } else if a > a0 {
        assert(s[a - 1] != 0);
    }
}

/// The result of a search for files: why it is of no use, or the files.
pub fn search_result(exit: Exit, data: &[u8]) -> (r: Result<Vec<String>, String>)
    ensures
        exit.timed_out || exit.code > 1 ==> r is Err && r->Err_0@
            == "File search failed; check ripgrep (rg) or use an explicit path"@,
        !exit.timed_out && exit.code <= 1 ==> r is Ok && order::strictly_sorted(texts(r->Ok_0@)) && forall|
            name: Seq<char>,
        | #[trigger]
            texts(r->Ok_0@).contains(name) <==> indexed(data@, name),
{
    if exit.timed_out || exit.code > 1 {
        return Err("File search failed; check ripgrep (rg) or use an explicit path".to_owned());
    }
    Ok(read_index(data))
}

/// The files of the current folder, and the search for them.
#[derive(Debug)]
pub struct FileSearch {
    pub cwd: Option<String>,
    pub files: Vec<String>,
    pub running: bool,
}

/// The model of [`FileSearch`].
pub struct FileSearchView {
    pub cwd: Option<Seq<char>>,
    pub files: Seq<Seq<char>>,
    pub running: bool,
}

impl View for FileSearch {
    type V = FileSearchView;

    open spec fn view(&self) -> FileSearchView {
        FileSearchView { cwd: option_view(self.cwd), files: texts(self.files@), running: self.running }
    }
}

impl Default for FileSearch {
    fn default() -> (r: FileSearch)
        ensures
            r@ == (FileSearchView { cwd: None, files: seq![], running: false }),
    {
        let r = FileSearch { cwd: None, files: Vec::new(), running: false };
        assert(r@.files =~= seq![]);
        r
    }
}

impl FileSearch {
    /// Whether a search is running.
    pub fn pending(&self) -> (r: bool)
        ensures
            r == self@.running,
    {
        self.running
    }

    /// Turns to a folder: whether a search is to begin there. None begins in the
    /// folder that was searched last; in another, the files found are dropped.
    pub fn start(&mut self, cwd: &str) -> (r: bool)
        ensures
            r == (old(self)@.cwd != Some(cwd@)),
            !r ==> final(self)@ == old(self)@,
            r ==> final(self)@ == (FileSearchView { cwd: Some(cwd@), files: seq![], running: true }),
    {
        let same = match &self.cwd {
            Some(last) => text::same(last, cwd),
            None => false,
        };
        if same {
            return false;
        }
        self.cwd = Some(cwd.to_owned());
        self.files = Vec::new();
        self.running = true;
        assert(self@.files =~= seq![]);
        true
    }

    /// Takes in the result of the search, once it has ended.
    pub fn poll(&mut self, ended: Option<Result<Vec<String>, String>>) -> (r: Option<Result<(), String>>)
        ensures
            !old(self)@.running || ended is None ==> r is None && final(self)@ == old(self)@,
            old(self)@.running && ended is Some ==> r is Some && !final(self)@.running && final(self)@.cwd
                == old(self)@.cwd,
            old(self)@.running ==> (ended matches Some(Ok(files)) ==> r->0 is Ok && final(self)@.files == texts(
                files@,
            )),
            old(self)@.running ==> (ended matches Some(Err(e)) ==> r->0 is Err && r->0->Err_0@ == e@
                && final(self)@.files == old(self)@.files),
    {
        if !self.running {
            return None;
        }
        match ended {
            None => None,
            Some(result) => {
                self.running = false;
                match result {
                    Ok(files) => {
                        self.files = files;
                        Some(Ok(()))
                    },
                    Err(e) => Some(Err(e)),
                }
            },
        }
    }
}

/// Whether an `@` at `i` begins a mention: it stands at the beginning or behind
/// white space, and no other `@` follows.
pub open spec fn stands_alone(s: Seq<char>, i: int) -> bool {
    &&& 0 <= i < s.len()
    &&& s[i] == '@'
    &&& i == 0 || is_space(s[i - 1])
    &&& i + 1 == s.len() || s[i + 1] != '@'
}

/// Whether a mention is right: it begins with such an `@`; without quotes it goes
/// to the next white space and names what it covers; with quotes it goes to where
/// the quotation ends.
pub open spec fn rightly_found(s: Seq<char>, m: MentionView) -> bool {
    &&& stands_alone(s, m.start)
    &&& m.start < m.end <= s.len()
    &&& m.quoted <==> m.start + 1 < s.len() && s[m.start + 1] == '"'
    &&& !m.quoted ==> m.closed && m.path == s.subrange(m.start + 1, m.end) && (m.end == s.len() || is_space(s[m.end]))
        && (forall|k: int| m.start < k < m.end ==> !is_space(#[trigger] s[k]))
    &&& m.quoted && m.closed ==> s[m.end - 1] == '"' && m.end >= m.start + 3
    &&& m.quoted && !m.closed ==> m.end == s.len()
    &&& m.quoted && (forall|k: int| m.start + 1 < k < m.end ==> #[trigger] s[k] != '\\') ==> {
        let stop = if m.closed { m.end - 1 } else { m.end };
        m.path == s.subrange(m.start + 2, stop) && forall|k: int| m.start + 2 <= k < stop ==> #[trigger] s[k] != '"'
    }
}

proof fn lemma_quotation_plain(s: Seq<char>, i: int)
    requires
        0 <= i <= s.len(),
    ensures
        ({
            let (path, end, closed) = quotation(s, i);
            &&& i <= end <= s.len()
            &&& closed ==> end > i && s[end - 1] == '"'
            &&& !closed ==> end == s.len()
            &&& (forall|k: int| i <= k < end ==> #[trigger] s[k] != '\\') ==> {
                let stop = if closed { end - 1 } else { end };
                path == s.subrange(i, stop) && forall|k: int| i <= k < stop ==> #[trigger] s[k] != '"'
            }
        }),
    decreases s.len() - i,
{
    let (path, end, closed) = quotation(s, i);
    if i < s.len() && s[i] != '"' {
        if s[i] == '\\' && i + 1 < s.len() && (s[i + 1] == '"' || s[i + 1] == '\\') {
            lemma_quotation_plain(s, i + 2);
            assert(s[i] == '\\');
        } else {
            lemma_quotation_plain(s, i + 1);
            if forall|k: int| i <= k < end ==> #[trigger] s[k] != '\\' {
                let stop = if closed { end - 1 } else { end };
                assert(path =~= s.subrange(i, stop));
            }
        }
    } else if i < s.len() {
        assert(path =~= s.subrange(i, i));
    } else {
        assert(path =~= s.subrange(i, i));
    }
}

proof fn lemma_mention_right(s: Seq<char>, i: int)
    requires
        stands_alone(s, i),
    ensures
        rightly_found(s, mention_at(s, i)),
        begins_at(s, i),
{
    let m = mention_at(s, i);
    if i + 1 < s.len() && s[i + 1] == '"' {
        lemma_quotation_plain(s, i + 2);
        if forall|k: int| m.start + 1 < k < m.end ==> #[trigger] s[k] != '\\' {
            assert forall|k: int| i + 2 <= k < m.end implies #[trigger] s[k] != '\\' by {}
        }
    } else {
        lemma_word_end(s, i + 1);
        assert(m.path =~= s.subrange(m.start + 1, m.end));
    }
}

/// Every mention in a text is found, and rightly: whatever begins one is one, or
/// stands inside one that began before it, and nothing else is taken for one.
/// Mentions stand in the order of the text and do not overlap.
pub proof fn law_every_mention_is_found(s: Seq<char>, i: int)
    ensures
        forall|k: int| 0 <= k < mentions_in(s).len() ==> rightly_found(s, #[trigger] mentions_in(s)[k]),
        forall|k: int|
            0 <= k && k + 1 < mentions_in(s).len() ==> (#[trigger] mentions_in(s)[k]).end <= mentions_in(s)[k + 1].start,
        stands_alone(s, i) ==> exists|k: int|
            0 <= k < mentions_in(s).len() && #[trigger] covers(mentions_in(s)[k], i),
{
    lemma_mentions(s, 0, i);
    if stands_alone(s, i) {
        let k = choose|k: int| 0 <= k < mentions_from(s, 0).len() && #[trigger] covers(mentions_from(s, 0)[k], i);
        assert(covers(mentions_in(s)[k], i));
    }
}

/// Whether the place `i` is in a mention.
pub open spec fn covers(m: MentionView, i: int) -> bool {
    m.start <= i && i < m.end
}

proof fn lemma_mentions(s: Seq<char>, from: int, i: int)
    requires
        0 <= from <= s.len(),
    ensures
        ({
            let all = mentions_from(s, from);
            &&& forall|k: int| 0 <= k < all.len() ==> rightly_found(s, #[trigger] all[k]) && from <= all[k].start
            &&& forall|k: int| 0 <= k && k + 1 < all.len() ==> (#[trigger] all[k]).end <= all[k + 1].start
            &&& stands_alone(s, i) && from <= i ==> exists|k: int|
                0 <= k < all.len() && #[trigger] covers(all[k], i)
        }),
    decreases s.len() - from,
{
    let all = mentions_from(s, from);
    if from < s.len() {
        if begins_at(s, from) {
            let m = mention_at(s, from);
            lemma_mention_right(s, from);
            lemma_mentions(s, m.end, i);
            let rest = mentions_from(s, m.end);
            assert(all == seq![m] + rest);
            assert forall|k: int| 0 <= k < all.len() implies rightly_found(s, #[trigger] all[k]) && from <= all[k].start by {
                if k > 0 {
                    assert(all[k] == rest[k - 1]);
                }
            }
            assert forall|k: int| 0 <= k && k + 1 < all.len() implies (#[trigger] all[k]).end <= all[k + 1].start by {
                assert(all[k + 1] == rest[k]);
                if k > 0 {
                    assert(all[k] == rest[k - 1]);
                }
            }
            if stands_alone(s, i) && from <= i {
                if i < m.end {
                    assert(covers(all[0], i));
                } else {
                    let k = choose|k: int| 0 <= k < rest.len() && #[trigger] covers(rest[k], i);
                    assert(all[k + 1] == rest[k]);
                    assert(covers(all[k + 1], i));
                }
            }
        } else {
            if stands_alone(s, from) {
                lemma_mention_right(s, from);
            }
            lemma_mentions(s, from + 1, i);
            if stands_alone(s, i) && from <= i {
                let k = choose|k: int| 0 <= k < mentions_from(s, from + 1).len() && #[trigger] covers(mentions_from(s, from + 1)[k], i);
                assert(covers(all[k], i));
            }
        }
    }
}

/// Where a mention leads: a path of its own is taken as it is, `~/` goes to the
/// home of the user, and anything else to the folder of the session.
pub proof fn law_mentions_lead_to_files(cwd: Seq<char>, home: Seq<char>, name: Seq<char>)
    requires
        name.len() > 0,
        cwd.len() > 0 && cwd.last() != '/',
        home.len() > 0 && home.last() != '/',
    ensures
        name[0] == '/' ==> located(cwd, home, name) == name,
        name[0] != '/' && name[0] != '~' ==> located(cwd, home, name) == cwd + "/"@ + name,
        name[0] != '/' ==> located(cwd, home, "~/"@ + name) == home + "/"@ + name,
        name[0] != '/' ==> below(cwd.push('/'), name) == cwd.push('/') + name,
        name[0] != '/' ==> below(seq![], name) == name,
{
    reveal_strlit("~/");
    if "~/"@.is_prefix_of(name) {
        assert(name.take(2)[0] == name[0]);
        assert("~/"@[0] == '~');
    }
    let far = "~/"@ + name;
    assert(far.take(2) =~= "~/"@);
    assert("~/"@.is_prefix_of(far));
    assert(far.skip(2) =~= name);
}

/// A file is refused where it is no regular file, is larger than a mebibyte, or
/// is no text, and is taken otherwise.
pub proof fn law_texts_are_taken(path: Seq<char>, regular: bool, bytes: Seq<u8>)
    ensures
        text_refused(path, regular, bytes) is None <==> regular && bytes.len() <= 1024 * 1024 && !bytes.contains(0)
            && vstd::utf8::valid_utf8(bytes),
        !regular ==> text_refused(path, regular, bytes) == Some(path + " is not a regular file"@),
        regular && bytes.len() > 1024 * 1024 ==> text_refused(path, regular, bytes) == Some(path + " exceeds 1 MiB"@),
        regular && bytes.len() <= 1024 * 1024 && bytes.contains(0) ==> text_refused(path, regular, bytes) == Some(
            path + " is binary; @ mentions accept text files"@,
        ),
{
}

/// A message carries the skill that it was called with, first, and then every
/// file that it mentions, in their order; a mention of nothing carries nothing.
pub proof fn law_messages_carry_what_they_mention(
    found: Seq<MentionView>,
    m: MentionView,
    cwd: Seq<char>,
    home: Seq<char>,
    source: Seq<char>,
    skill: SkillView,
)
    ensures
        wanted_files(Seq::empty(), cwd, home) == Seq::<WantedView>::empty(),
        m.path.len() == 0 ==> wanted_files(found.push(m), cwd, home) == wanted_files(found, cwd, home),
        m.path.len() > 0 ==> wanted_files(found.push(m), cwd, home) == wanted_files(found, cwd, home).push(
            WantedView { label: "File"@, path: located(cwd, home, m.path), keep: false },
        ),
        wanted_of(source, cwd, home, None) == wanted_files(mentions_in(source), cwd, home),
        wanted_of(source, cwd, home, Some(skill)) == seq![
            WantedView { label: "Skill: /"@ + skill.name, path: skill.path, keep: true },
        ] + wanted_files(mentions_in(source), cwd, home),
        left_open(found.push(m)) <==> left_open(found) || !m.closed,
        !left_open(Seq::empty()),
{
    assert(found.push(m).drop_last() =~= found);
    let files = wanted_files(mentions_in(source), cwd, home);
    assert(Seq::<WantedView>::empty() + files =~= files);
    let all = found.push(m);
    if left_open(found) {
        let k = choose|k: int| 0 <= k < found.len() && !(#[trigger] found[k]).closed;
        assert(!all[k].closed);
    }
    if !m.closed {
        assert(!all[found.len() as int].closed);
    }
    if left_open(all) {
        let k = choose|k: int| 0 <= k < all.len() && !(#[trigger] all[k]).closed;
        if k < found.len() {
            assert(!found[k].closed);
        }
    }
}

/// A file that is not carried yet is carried whole, behind the others, under the
/// name of what it really is, or for a skill that where it was found; and what
/// cannot be found or read, or is too much, refuses the message with the reason.
pub proof fn law_files_are_carried_whole(size: nat, files: Seq<SnapshotView>, file: SnapshotView)
    requires
        carried(size, files) is Ok,
    ensures
        ({
            let before = carried(size, files)->Ok_0;
            let after = carried(size, files.push(file));
            &&& file.target matches Err(e) ==> after == Err::<Carried, Seq<char>>(file.wanted.path + ": "@ + e)
            &&& file.target matches Ok(target) ==> (!(exists|j: int|
                0 <= j < files.len() && (#[trigger] files[j]).target == file.target) ==> match file.body {
                Err(e) => after == Err::<Carried, Seq<char>>(file.wanted.path + ": "@ + e),
                Ok(body) => {
                    let path = if file.wanted.keep { file.wanted.path } else { target };
                    let more = before.size + bytes_of(body) + bytes_of(file.wanted.label) + bytes_of(path) + 5;
                    &&& more <= 4 * 1024 * 1024 ==> (after matches Ok(c) && c.size == more && c.attachments
                        == before.attachments.push(
                        RecordView::Attachment { label: file.wanted.label, path, text: body },
                    ))
                    &&& more > 4 * 1024 * 1024 ==> after == Err::<Carried, Seq<char>>(
                        "Attached context exceeds 4 MiB"@,
                    )
                },
            })
        }),
        carried(size, Seq::empty()) matches Ok(c) && c.size == size && c.attachments.len() == 0,
{
    assert(files.push(file).drop_last() =~= files);
    if let Ok(target) = file.target {
        if targets(files, target) {
            let j = choose|j: int| 0 <= j < files.len() && (#[trigger] files[j]).target == Ok::<Seq<char>, Seq<char>>(target);
            assert(files[j].target == file.target);
        }
    }
}

/// Whether the characters of `query` stand in `name` in their order, at the
/// places `at`.
pub open spec fn stands_at(name: Seq<char>, query: Seq<char>, at: Seq<int>) -> bool {
    &&& at.len() == query.len()
    &&& forall|k: int| 0 <= k < at.len() ==> 0 <= #[trigger] at[k] < name.len() && name[at[k]] == query[k]
    &&& forall|i: int, j: int| 0 <= i < j < at.len() ==> #[trigger] at[i] < #[trigger] at[j]
}

proof fn lemma_gaps_found(name: Seq<char>, query: Seq<char>, at: Seq<int>)
    requires
        stands_at(name, query, at),
    ensures
        gaps(name, query) is Some,
    decreases query.len(),
{
    if query.len() > 0 {
        let p = text::other_than(query[0]);
        text::lemma_span(name, p);
        let i = text::first(name, query[0]);
        assert(name[at[0]] == query[0]);
        if i > at[0] {
            assert(p(name[at[0]]));
        }
        let rest = name.skip(i + 1);
        let later = Seq::new((at.len() - 1) as nat, |k: int| at[k + 1] - (i + 1));
        let more = query.drop_first();
        assert forall|k: int| 0 <= k < later.len() implies 0 <= #[trigger] later[k] < rest.len() && rest[later[k]]
            == more[k] by {
            assert(at[0] < at[k + 1]);
            assert(name[at[k + 1]] == query[k + 1]);
        }
        assert forall|a: int, b: int| 0 <= a < b < later.len() implies #[trigger] later[a] < #[trigger] later[b] by {
            assert(at[a + 1] < at[b + 1]);
        }
        lemma_gaps_found(rest, more, later);
    }
}

/// A name fits what was typed where its characters stand in it in their order.
/// The best is a name that begins with it, then one whose last part does, and
/// then the others, the fewer bytes are passed over the better.
pub proof fn law_names_fit_what_was_typed(name: Seq<char>, query: Seq<char>, at: Seq<int>)
    ensures
        query.is_prefix_of(name) ==> rank_of(name, query) == Some(0usize),
        !query.is_prefix_of(name) && query.is_prefix_of(name.skip(text::last(name, '/') + 1)) ==> rank_of(name, query)
            == Some(1usize),
        stands_at(name, query, at) ==> rank_of(name, query) is Some,
        !query.is_prefix_of(name) && !query.is_prefix_of(name.skip(text::last(name, '/') + 1)) ==> rank_of(name, query)
            == match gaps(name, query) {
            Some(n) => Some(if 2 + n <= usize::MAX { (2 + n) as usize } else { usize::MAX }),
            None => None,
        },
{
    if stands_at(name, query, at) {
        lemma_gaps_found(name, query, at);
    }
}

/// What is passed over is counted in bytes, up to the first place of each
/// character behind the one before it.
pub proof fn law_gaps_are_counted(passed: Seq<char>, c: char, rest: Seq<char>, query: Seq<char>)
    requires
        !passed.contains(c),
    ensures
        gaps(passed + seq![c] + rest, seq![c] + query) == match gaps(rest, query) {
            Some(n) => Some(bytes_of(passed) + n),
            None => None,
        },
        gaps(rest, seq![]) == Some(0nat),
        gaps(passed, seq![c] + query) is None,
{
    let name = passed + seq![c] + rest;
    let all = seq![c] + query;
    let p = text::other_than(c);
    assert forall|k: int| 0 <= k < passed.len() implies p(#[trigger] passed[k]) by {
        if passed[k] == c {
            assert(passed.contains(c));
        }
    }
    assert forall|k: int| 0 <= k < passed.len() implies p(#[trigger] name[k]) by {
        assert(name[k] == passed[k]);
    }
    assert(name[passed.len() as int] == c);
    text::lemma_span_is(name, p, passed.len() as int);
    assert(name.take(passed.len() as int) =~= passed);
    assert(name.skip(passed.len() as int + 1) =~= rest);
    assert(all.drop_first() =~= query);
    text::lemma_span_is(passed, p, passed.len() as int);
}

/// A path of its own is cut behind its last slash: what is before names the
/// folder, what is behind begins a name in it, and together they are the path.
pub proof fn law_paths_are_cut_at_the_last_slash(query: Seq<char>)
    ensures
        folder_of(query) is Some <==> "/"@.is_prefix_of(query) || "~/"@.is_prefix_of(query) || "./"@.is_prefix_of(query)
            || "../"@.is_prefix_of(query),
        folder_of(query) matches Some((parent, leaf)) ==> parent + leaf == query && parent.len() > 0 && parent.last()
            == '/' && !leaf.contains('/'),
{
    reveal_strlit("/");
    reveal_strlit("~/");
    reveal_strlit("./");
    reveal_strlit("../");
    if folder_of(query) is Some {
        let p = text::other_than('/');
        text::lemma_span_back(query, p);
        let cut = text::last(query, '/') + 1;
        let slash = if "/"@.is_prefix_of(query) {
            0int
        } else if "~/"@.is_prefix_of(query) {
            1int
        } else if "./"@.is_prefix_of(query) {
            1int
        } else {
            2int
        };
        assert(query.take(slash + 1)[slash] == query[slash]);
        assert(query[slash] == '/') by {
            if "/"@.is_prefix_of(query) {
                assert(query.take(1)[0] == "/"@[0]);
            } else if "~/"@.is_prefix_of(query) {
                assert(query.take(2)[1] == "~/"@[1]);
            } else if "./"@.is_prefix_of(query) {
                assert(query.take(2)[1] == "./"@[1]);
            } else {
                assert(query.take(3)[2] == "../"@[2]);
            }
        }
        if cut == 0 {
            assert(p(query[slash]));
        }
        let (parent, leaf) = folder_of(query)->0;
        assert(parent + leaf =~= query);
        assert(!p(query[cut - 1]));
        if leaf.contains('/') {
            let k = choose|k: int| 0 <= k < leaf.len() && leaf[k] == '/';
            assert(p(query[cut + k]));
        }
    }
}

/// A folder offers each of its names that begins with what was typed, in its
/// order and with the way to it, folders with a slash; names that would control
/// the terminal are not offered.
pub proof fn law_folders_offer_their_names(
    listed: Seq<(Seq<char>, bool)>,
    name: Seq<char>,
    folder: bool,
    parent: Seq<char>,
    leaf: Seq<char>,
)
    ensures
        in_folder(seq![], parent, leaf) == Seq::<Ranked>::empty(),
        !leaf.is_prefix_of(name) || has_control(name) ==> in_folder(listed.push((name, folder)), parent, leaf)
            == in_folder(listed, parent, leaf),
        leaf.is_prefix_of(name) && !has_control(name) ==> in_folder(listed.push((name, folder)), parent, leaf)
            == in_folder(listed, parent, leaf).push((0usize, if folder { parent + name + "/"@ } else { parent + name })),
{
    reveal_strlit("");
    assert(listed.push((name, folder)).drop_last() =~= listed);
    assert(""@ =~= Seq::empty());
    assert(parent + name + ""@ =~= parent + name);
}

/// The files of the project that fit are offered, each with how well it fits.
pub proof fn law_fitting_files_are_offered(files: Seq<Seq<char>>, file: Seq<char>, query: Seq<char>)
    ensures
        fitting(seq![], query) == Seq::<Ranked>::empty(),
        fitting(files.push(file), query) == match rank_of(lower_case(file), lower_case(query)) {
            Some(rank) => fitting(files, query).push((rank, file)),
            None => fitting(files, query),
        },
{
    assert(files.push(file).drop_last() =~= files);
}

/// Of what fits, the best forty are offered, in order, each as a mention of the
/// file; of a folder no more than 4096 names are looked at.
pub proof fn law_best_files_are_offered(fit: Seq<Ranked>, list: Seq<Ranked>, query: Seq<char>, files: Seq<Seq<char>>, listed: Seq<(Seq<char>, bool)>)
    requires
        order::sorts(list, fit),
    ensures
        offered(fit).len() == (if list.len() <= 40 { list.len() } else { 40 }),
        forall|k: int|
            0 <= k < offered(fit).len() ==> (#[trigger] offered(fit)[k]).label == list[k].1 && offered(fit)[k].text
                == file_text(list[k].1),
        folder_of(query) matches Some((parent, leaf)) ==> (listed.len() <= 4096 ==> matches_of(query, files, listed)
            == in_folder(listed, parent, leaf)) && (listed.len() > 4096 ==> matches_of(query, files, listed)
            == in_folder(listed.take(4096), parent, leaf)),
        folder_of(query) is None && query.len() > 0 ==> matches_of(query, files, listed) == fitting(files, query),
        folder_of(query) is None && query.len() == 0 && files.len() <= 40 ==> matches_of(query, files, listed)
            == fitting(files, query),
        folder_of(query) is None && query.len() == 0 && files.len() > 40 ==> matches_of(query, files, listed)
            == fitting(files.take(40), query),
{
    assert(order::sorts(order::sorted_list(fit), fit));
    order::law_sorting_is_unique(list, order::sorted_list(fit), fit);
}

/// A menu is for what is to be completed, and offers the commands that begin so,
/// or the files that fit; the first is chosen, but not on purpose.
pub proof fn law_menus_offer_what_fits(
    start: int,
    end: int,
    word: Seq<char>,
    skills: Seq<SkillView>,
    files: Seq<Seq<char>>,
    listed: Seq<(Seq<char>, bool)>,
    exact: bool,
)
    ensures
        ({
            let m = menu_of(AskView::Command { start, end, word }, skills, files, listed, exact);
            let names = commands::beginning_with(commands::all_names(skills), word);
            &&& m.start == start && m.end == end && m.query == word && !m.file && m.selected == 0 && !m.explicit
            &&& m.entries.len() == names.len()
            &&& forall|k: int|
                0 <= k < names.len() ==> (#[trigger] m.entries[k]).text == names[k] + " "@ && m.entries[k].label == names[k]
                    + "  "@ + choice_hint(skills, choice_of(skills, names[k])->0)
        }),
        ({
            let m = menu_of(AskView::File { start, end, query: word }, skills, files, listed, exact);
            &&& m.start == start && m.end == end && m.query == word && m.file && m.selected == 0 && !m.explicit
            &&& m.exact_file <==> word.len() > 0 && exact
            &&& m.entries == offered(matches_of(word, files, listed))
        }),
{
}

/// A command is completed where the text up to the cursor is one word that
/// begins with a slash; the whole word is replaced.
pub proof fn law_commands_are_completed(spaces: Seq<char>, word: Seq<char>, rest: Seq<char>)
    requires
        forall|k: int| 0 <= k < spaces.len() ==> is_space(#[trigger] spaces[k]),
        word.len() > 0 && word[0] == '/',
        forall|k: int| 0 <= k < word.len() ==> !is_space(#[trigger] word[k]),
        rest.len() == 0 || is_space(rest[0]),
    ensures
        asked(spaces + word + rest, (spaces.len() + word.len()) as int) == Some(
            AskView::Command { start: spaces.len() as int, end: (spaces.len() + word.len()) as int, word },
        ),
{
    let s = spaces + word + rest;
    let n = (spaces.len() + word.len()) as int;
    let prefix = s.take(n);
    let p = |c: char| is_space(c);
    assert(prefix =~= spaces + word);
    assert forall|k: int| 0 <= k < spaces.len() implies p(#[trigger] prefix[k]) by {
        assert(prefix[k] == spaces[k]);
        assert(is_space(spaces[k]));
    }
    assert(prefix[spaces.len() as int] == word[0]);
    assert(!is_space(word[0]));
    text::lemma_span_is(prefix, p, spaces.len() as int);
    assert(text::trim_start(prefix) =~= word);
    lemma_word_end_is(word, 0, word.len() as int);
    assert forall|k: int| spaces.len() <= k < n implies !is_space(#[trigger] s[k]) by {
        assert(s[k] == word[k - spaces.len()]);
    }
    if n < s.len() {
        assert(s[n] == rest[0]);
    }
    lemma_word_end_is(s, spaces.len() as int, n);
}

/// An index names what stands between zero bytes: the first piece, where it is
/// text without control characters and not empty, and the names behind the zero
/// byte.
pub proof fn law_index_is_cut_at_zero_bytes(piece: Seq<u8>, rest: Seq<u8>, name: Seq<char>)
    requires
        forall|k: int| 0 <= k < piece.len() ==> #[trigger] piece[k] != 0,
    ensures
        indexed(piece, name) <==> vstd::utf8::valid_utf8(piece) && vstd::utf8::decode_utf8(piece) == name && name.len()
            > 0 && !has_control(name),
        indexed(piece.push(0) + rest, name) <==> indexed(piece, name) || indexed(rest, name),
{
    let data = piece.push(0) + rest;
    let n = piece.len() as int;
    assert(piece_at(piece, 0, n));
    assert(piece.subrange(0, n) =~= piece);
    assert(data[n] == 0);
    assert forall|k: int| 0 <= k < n implies #[trigger] data[k] != 0 by {
        assert(data[k] == piece[k]);
    }
    assert(piece_at(data, 0, n));
    assert(data.subrange(0, n) =~= piece);
    if indexed(piece, name) {
        let (i, j) = choose|i: int, j: int| #[trigger] piece_at(piece, i, j) && name_in(piece.subrange(i, j), name);
        if i > 0 {
            assert(piece[i - 1] != 0);
        }
        if j < n {
            assert(piece[j] != 0);
        }
        assert(piece.subrange(i, j) =~= piece);
        assert(indexed(data, name));
    }
    if indexed(rest, name) {
        let (i, j) = choose|i: int, j: int| #[trigger] piece_at(rest, i, j) && name_in(rest.subrange(i, j), name);
        assert forall|k: int| n + 1 + i <= k < n + 1 + j implies #[trigger] data[k] != 0 by {
            assert(data[k] == rest[k - n - 1]);
        }
        assert(piece_at(data, n + 1 + i, n + 1 + j));
        assert(data.subrange(n + 1 + i, n + 1 + j) =~= rest.subrange(i, j));
    }
    if indexed(data, name) {
        let (i, j) = choose|i: int, j: int| #[trigger] piece_at(data, i, j) && name_in(data.subrange(i, j), name);
        if i <= n {
            if i > 0 {
                assert(data[i - 1] != 0);
            }
            if j > n {
                assert(data[n] != 0);
            }
            if j < n {
                assert(data[j] != 0);
            }
            assert(data.subrange(i, j) =~= piece);
            assert(indexed(piece, name));
        } else {
            assert forall|k: int| i - n - 1 <= k < j - n - 1 implies #[trigger] rest[k] != 0 by {
                assert(rest[k] == data[k + n + 1]);
            }
            assert(piece_at(rest, i - n - 1, j - n - 1));
            assert(data.subrange(i, j) =~= rest.subrange(i - n - 1, j - n - 1));
            assert(indexed(rest, name));
        }
    }
}

/// A name holds a control character wherever one stands in it.
pub proof fn law_control_characters_are_seen(start: Seq<char>, c: char, end: Seq<char>)
    ensures
        has_control(start.push(c) + end) <==> has_control(start) || is_control(c) || has_control(end),
        !has_control(seq![]),
{
    let name = start.push(c) + end;
    let n = start.len() as int;
    assert(name[n] == c);
    assert forall|k: int| 0 <= k < n implies name[k] == #[trigger] start[k] by {}
    assert forall|k: int| 0 <= k < end.len() implies name[n + 1 + k] == #[trigger] end[k] by {}
    if has_control(name) {
        let k = choose|k: int| 0 <= k < name.len() && is_control(#[trigger] name[k]);
        if k < n {
            assert(is_control(start[k]));
        } else if k > n {
            assert(is_control(end[k - n - 1]));
        }
    }
}

proof fn lemma_mention_from(found: Seq<MentionView>, start: int, k: int)
    requires
        0 <= k,
    ensures
        mention_from(found, start, k) matches Some(m) ==> m.start == start && exists|j: int|
            k <= j < found.len() && #[trigger] found[j] == m,
        mention_from(found, start, k) is None ==> forall|j: int|
            k <= j < found.len() ==> (#[trigger] found[j]).start != start,
    decreases found.len() - k,
{
    if k < found.len() && found[k].start != start {
        lemma_mention_from(found, start, k + 1);
    }
}

/// A file is completed in the mention that the cursor stands in: what was typed
/// of it up to the cursor is looked for, and the whole mention is replaced.
pub proof fn law_files_are_completed_in_their_mention(s: Seq<char>, cursor: int)
    requires
        0 <= cursor <= s.len(),
        asked(s, cursor) is Some,
        asked(s, cursor)->0 is File,
    ensures
        ({
            let start = asked(s, cursor)->0->File_start;
            let end = asked(s, cursor)->0->File_end;
            let query = asked(s, cursor)->0->query;
            let plain = start + 1 == s.len() || s[start + 1] != '"';
            &&& stands_alone(s, start)
            &&& start < cursor && start < end <= s.len()
            &&& plain || cursor == start + 1 ==> query == s.subrange(start + 1, cursor)
            &&& plain ==> (end == s.len() || is_space(s[end])) && forall|k: int| start < k < end ==> !is_space(#[trigger] s[k])
            &&& plain ==> cursor <= end
        }),
{
    let prefix = s.take(cursor);
    let found = mentions_in(prefix);
    let mention = found.last();
    law_every_mention_is_found(prefix, 0);
    law_every_mention_is_found(s, 0);
    assert(rightly_found(prefix, found[found.len() - 1]));
    let all = mentions_in(s);
    lemma_mention_from(all, mention.start, 0);
    let whole = mention_from(all, mention.start, 0)->0;
    let j = choose|j: int| 0 <= j < all.len() && #[trigger] all[j] == whole;
    assert(rightly_found(s, all[j]));
    let start = mention.start;
    assert(whole.start == start);
    if start + 1 < cursor {
        assert(prefix[start + 1] == s[start + 1]);
    }
    assert(prefix.subrange(start + 1, cursor) =~= s.subrange(start + 1, cursor));
    if start + 1 == s.len() || s[start + 1] != '"' {
        if whole.end < cursor {
            assert(is_space(s[whole.end]));
            assert(prefix[whole.end] == s[whole.end]);
        }
    }
}

/// The chosen entry of a menu is what it puts in; one that is not there puts in
/// nothing.
pub proof fn law_chosen_entry_is_put_in(m: MenuView)
    ensures
        0 <= m.selected < m.entries.len() ==> m.replacement() == Some(m.entries[m.selected].text),
        m.selected < 0 || m.selected >= m.entries.len() ==> m.replacement() is None,
{
}

/// A file is put in with a space behind it; behind a folder, which ends with a
/// slash, the way goes on without one.
pub proof fn law_folders_are_put_in_without_a_space(name: Seq<char>)
    requires
        name.len() > 0,
        !needs_quotes(name),
    ensures
        file_text(name) == seq!['@'] + name + (if name.last() == '/' {
            seq![]
        } else {
            seq![' ']
        }),
        file_entry_view(name).label == name,
        file_entry_view(name).text == file_text(name),
{
    reveal_strlit("@");
    reveal_strlit(" ");
    assert("@"@ =~= seq!['@']);
    assert(" "@ =~= seq![' ']);
    assert(file_text(name) =~= seq!['@'] + name + (if name.last() == '/' {
        seq![]
    } else {
        seq![' ']
    }));
}

/// An index is read up to eight mebibytes.
pub proof fn law_indexes_are_read_up_to_a_limit()
    ensures
        INDEX_LIMIT == 8 * 1024 * 1024,
{
}

} // verus!
