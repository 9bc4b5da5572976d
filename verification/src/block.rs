//! The blocks of a transcript and the tool calls in it.
use crate::json::{self, Json, Tree};
use crate::text;
use vstd::prelude::*;
use vstd::string::StringExecFns;

verus! {

/// What a block of the transcript is.
#[derive(Clone, Copy, PartialEq, Eq, Structural, Debug)]
pub enum Kind {
    User,
    Agent,
    Thought,
    Call,
    Notice,
    Warning,
}

/// How far a tool call has come.
#[derive(Clone, Copy, PartialEq, Eq, Structural, Debug)]
pub enum ToolStatus {
    Pending,
    Running,
    Exited(i32),
    TimedOut(u64),
    Cancelled,
    Error,
}

impl ToolStatus {
    /// The note on a call that did not simply succeed.
    pub open spec fn note(self) -> Option<Seq<char>> {
        match self {
            ToolStatus::Error => None,
            ToolStatus::Pending => Some("pending"@),
            ToolStatus::Running => Some("running"@),
            ToolStatus::Exited(code) => if code == 0 {
                None
            } else {
                Some("exit "@ + text::signed_decimal(code as int))
            },
            ToolStatus::TimedOut(ms) => Some(
                "timed out after "@ + text::decimal(ms as nat) + " ms; process group killed"@,
            ),
            ToolStatus::Cancelled => Some("cancelled; process group killed"@),
        }
    }

    /// A short note on the call; none for a success and for an error that its
    /// own output tells.
    pub fn summary(self) -> (r: Option<String>)
        ensures
            r is Some <==> self.note() is Some,
            r matches Some(s) ==> self.note() == Some(s@),
    {
        match self {
            ToolStatus::Error => None,
            ToolStatus::Pending => Some("pending".to_owned()),
            ToolStatus::Running => Some("running".to_owned()),
            ToolStatus::Exited(code) => {
                if code == 0 {
                    None
                } else {
                    Some(text::cat("exit ", &text::signed_digits(code)))
                }
            },
            ToolStatus::TimedOut(ms) => {
                let mut out = text::cat("timed out after ", &text::digits(ms));
                out.append(" ms; process group killed");
                Some(out)
            },
            ToolStatus::Cancelled => Some("cancelled; process group killed".to_owned()),
        }
    }
}

/// What a tool printed: a preview, and where the whole of it was logged.
#[derive(Debug)]
pub struct ToolOutput {
    pub text: String,
    pub log: Option<String>,
    pub truncated: bool,
}

/// The model of [`ToolOutput`].
pub struct OutputView {
    pub text: Seq<char>,
    pub log: Option<Seq<char>>,
    pub truncated: bool,
}

/// What an optional text says.
pub open spec fn option_view(s: Option<String>) -> Option<Seq<char>> {
    match s {
        Some(s) => Some(s@),
        None => None,
    }
}

/// A copy of an optional text.
pub fn copy_option(s: &Option<String>) -> (r: Option<String>)
    ensures
        r == *s,
{
    match s {
        Some(s) => Some(s.clone()),
        None => None,
    }
}

impl View for ToolOutput {
    type V = OutputView;

    open spec fn view(&self) -> OutputView {
        OutputView { text: self.text@, log: option_view(self.log), truncated: self.truncated }
    }
}

/// No output at all.
pub open spec fn no_output() -> OutputView {
    OutputView { text: Seq::empty(), log: None, truncated: false }
}

impl Default for ToolOutput {
    fn default() -> (r: ToolOutput)
        ensures
            r@ == no_output(),
    {
        ToolOutput { text: String::new(), log: None, truncated: false }
    }
}

impl Clone for ToolOutput {
    fn clone(&self) -> (r: ToolOutput)
        ensures
            r == *self,
    {
        ToolOutput { text: self.text.clone(), log: copy_option(&self.log), truncated: self.truncated }
    }
}

/// A tool call of the model and what came of it.
#[derive(Debug)]
pub struct Tool {
    pub call_id: String,
    pub status: ToolStatus,
    pub output: ToolOutput,
}

/// The model of [`Tool`].
pub struct ToolView {
    pub call_id: Seq<char>,
    pub status: ToolStatus,
    pub output: OutputView,
}

impl View for Tool {
    type V = ToolView;

    open spec fn view(&self) -> ToolView {
        ToolView { call_id: self.call_id@, status: self.status, output: self.output@ }
    }
}

impl Clone for Tool {
    fn clone(&self) -> (r: Tool)
        ensures
            r == *self,
    {
        Tool { call_id: self.call_id.clone(), status: self.status, output: self.output.clone() }
    }
}

impl ToolView {
    /// What the model is told of the call's outcome.
    pub open spec fn report(self) -> Seq<char> {
        let noted = match self.status.note() {
            Some(note) => self.output.text + "\n["@ + note + "]"@,
            None => self.output.text,
        };
        match self.output.log {
            Some(log) => if self.output.truncated {
                noted + "\n[Output log (temporary): "@ + log + " — read needed ranges with sed, tail, or grep]"@
            } else {
                noted
            },
            None => noted,
        }
    }

    /// The call's outcome as an item of the conversation.
    pub open spec fn item(self) -> Tree {
        Tree::Object(
            seq![
                ("type"@, Tree::Text("function_call_output"@)),
                ("call_id"@, Tree::Text(self.call_id)),
                ("output"@, Tree::Text(self.report())),
            ],
        )
    }
}

impl Tool {
    /// The call's outcome as an item of the conversation.
    pub fn item(&self) -> (r: Json)
        ensures
            r@ == self@.item(),
    {
        let mut report = self.output.text.clone();
        if let Some(summary) = self.status.summary() {
            report.append("\n[");
            report.append(&summary);
            report.append("]");
        }
        if self.output.truncated {
            if let Some(log) = &self.output.log {
                report.append("\n[Output log (temporary): ");
                report.append(log);
                report.append(" — read needed ranges with sed, tail, or grep]");
            }
        }
        let mut fields: Vec<(String, Json)> = Vec::new();
        fields.push(("type".to_owned(), Json::Text("function_call_output".to_owned())));
        fields.push(("call_id".to_owned(), Json::Text(self.call_id.clone())));
        fields.push(("output".to_owned(), Json::Text(report)));
        proof {
            assert(json::field_trees(fields@) =~= self@.item()->Object_0);
        }
        json::object(fields)
    }
}

/// A block of the transcript.
#[derive(Debug)]
pub struct Block {
    pub kind: Kind,
    pub text: String,
    pub tool: Option<Tool>,
}

/// The model of [`Block`].
pub struct BlockView {
    pub kind: Kind,
    pub text: Seq<char>,
    pub tool: Option<ToolView>,
}

impl View for Block {
    type V = BlockView;

    open spec fn view(&self) -> BlockView {
        BlockView {
            kind: self.kind,
            text: self.text@,
            tool: match self.tool {
                Some(t) => Some(t@),
                None => None,
            },
        }
    }
}

impl Clone for Block {
    fn clone(&self) -> (r: Block)
        ensures
            r == *self,
    {
        let tool = match &self.tool {
            Some(t) => Some(t.clone()),
            None => None,
        };
        Block { kind: self.kind, text: self.text.clone(), tool }
    }
}

/// A block of text alone.
pub open spec fn plain(kind: Kind, text: Seq<char>) -> BlockView {
    BlockView { kind, text, tool: None }
}

/// What each block says.
pub open spec fn block_views(blocks: Seq<Block>) -> Seq<BlockView> {
    blocks.map_values(|b: Block| b@)
}

/// The texts of the parts of type `typ`.
pub open spec fn typed_texts(parts: Seq<Tree>, typ: Seq<char>) -> Seq<Seq<char>>
    decreases parts.len(),
{
    if parts.len() == 0 {
        seq![]
    } else {
        let rest = typed_texts(parts.drop_last(), typ);
        if parts.last().text("type"@) == Some(typ) {
            match parts.last().text("text"@) {
                Some(t) => rest.push(t),
                None => rest,
            }
        } else {
            rest
        }
    }
}

/// The texts of the parts of type `typ` in field `field`, one per line.
pub open spec fn gathered(item: Tree, field: Seq<char>, typ: Seq<char>) -> Seq<char> {
    match item.at(field).as_array() {
        Some(parts) => text::join(typed_texts(parts, typ), "\n"@),
        None => Seq::empty(),
    }
}

/// The refusals among the parts, one after the other.
pub open spec fn refusals(parts: Seq<Tree>) -> Seq<char>
    decreases parts.len(),
{
    if parts.len() == 0 {
        Seq::empty()
    } else {
        match parts.last().text("refusal"@) {
            Some(t) => refusals(parts.drop_last()) + t,
            None => refusals(parts.drop_last()),
        }
    }
}

/// The `command` among the arguments `raw` of a call, where they are complete.
pub open spec fn command_of(raw: Seq<char>) -> Option<Seq<char>> {
    match json::json_parse(raw) {
        Ok(args) => args.text("command"@),
        Err(_) => None,
    }
}

/// `s` behind the character `c`, if it begins with it.
pub open spec fn behind(s: Seq<char>, c: char) -> Option<Seq<char>> {
    if s.len() > 0 && s[0] == c {
        Some(s.skip(1))
    } else {
        None
    }
}

/// The longest readable start of the unfinished JSON string `cut`: the missing
/// quote is supplied, and an unfinished escape is given up.
pub open spec fn closed(cut: Seq<char>) -> Option<Seq<char>>
    decreases cut.len(),
    via closed_decreases
{
    let whole = cut.push('"');
    match json::json_parse(whole) {
        Ok(Tree::Text(t)) => Some(t),
        _ => {
            let at = text::last(whole, '\\');
            if at < 0 {
                None
            } else {
                closed(whole.take(at))
            }
        },
    }
}

proof fn lemma_last(cut: Seq<char>)
    ensures
        text::last(cut.push('"'), '\\') < cut.len(),
{
    let whole = cut.push('"');
    text::lemma_span_back(whole, text::other_than('\\'));
    assert(text::other_than('\\')('"'));
    if text::span_back(whole, text::other_than('\\')) == 0 {
        assert(whole[whole.len() - 1] == '"');
    }
}

#[via_fn]
proof fn closed_decreases(cut: Seq<char>) {
    lemma_last(cut);
    text::lemma_span_back(cut.push('"'), text::other_than('\\'));
}

/// The readable start of the JSON string that `raw` begins with.
pub open spec fn string_start(raw: Seq<char>) -> Option<Seq<char>> {
    match json::json_leading_text(raw) {
        json::LeadView::Text(t, _) => Some(t),
        json::LeadView::Partial => closed(raw),
        _ => None,
    }
}

/// The readable start of the field `command` in the unfinished object whose
/// fields are `rest`; the fields before it are complete.
pub open spec fn command_in(rest: Seq<char>) -> Option<Seq<char>>
    decreases rest.len(),
{
    match json::json_leading_text(rest) {
        json::LeadView::Text(name, after_name) => match behind(text::trim_start(after_name), ':') {
            Some(tail) => {
                let value = text::trim_start(tail);
                if name == "command"@ {
                    string_start(value)
                } else {
                    match json::json_after_value(value) {
                        Some(after) => match behind(text::trim_start(after), ',') {
                            Some(next) => if next.len() < rest.len() {
                                command_in(next)
                            } else {
                                None
                            },
                            None => None,
                        },
                        None => None,
                    }
                }
            },
            None => None,
        },
        _ => None,
    }
}

/// The readable start of the top-level `command` of an unfinished object.
pub open spec fn command_start(raw: Seq<char>) -> Option<Seq<char>> {
    match behind(text::trim_start(raw), '{') {
        Some(rest) => command_in(rest),
        None => None,
    }
}

fn strip(s: &[char], c: char) -> (r: Option<Vec<char>>)
    ensures
        r is Some <==> behind(text::trim_start(s@), c) is Some,
        r matches Some(t) ==> behind(text::trim_start(s@), c) == Some(t@) && t@.len() < s@.len(),
{
    let n = text::count_leading_spaces(s);
    if n < s.len() && s[n] == c {
        let t = text::slice(s, n + 1, s.len());
        proof {
            assert(t@ =~= text::trim_start(s@).skip(1));
        }
        Some(t)
    } else {
        None
    }
}

/// The command in unfinished arguments, for display: only a top-level
/// `command` is read, behind complete fields.
pub fn command_prefix(raw: &str) -> (r: Option<String>)
    ensures
        option_view(r) == command_start(raw@),
{
    let mut rest: Vec<char> = match strip(&text::chars(raw), '{') {
        Some(rest) => rest,
        None => return None,
    };
    loop
        invariant
            command_start(raw@) == command_in(rest@),
        decreases rest@.len(),
    {
        let (name, after_name) = match json::leading_text(&text::string(&rest)) {
            json::Lead::Text(name, after_name) => (name, after_name),
            _ => return None,
        };
        let tail = match strip(&text::chars(&after_name), ':') {
            Some(tail) => tail,
            None => return None,
        };
        let value = text::trimmed_start(&tail);
        if text::same(&name, "command") {
            return string_prefix(&text::string(&value));
        }
        let after = match json::after_value(&text::string(&value)) {
            Some(after) => after,
            None => return None,
        };
        let next = match strip(&text::chars(&after), ',') {
            Some(next) => next,
            None => return None,
        };
        proof {
            text::lemma_span(tail@, |c: char| text::is_space(c));
            assert(next@.len() < rest@.len());
        }
        rest = next;
    }
}

/// The text of the JSON string that `raw` begins with, as far as it goes.
pub fn string_prefix(raw: &str) -> (r: Option<String>)
    ensures
        option_view(r) == string_start(raw@),
{
    match json::leading_text(raw) {
        json::Lead::Text(t, _) => return Some(t),
        json::Lead::Partial => (),
        _ => return None,
    }
    let mut prefix: Vec<char> = text::chars(raw);
    loop
        invariant
            string_start(raw@) == closed(prefix@),
        decreases prefix@.len(),
    {
        let ghost cut = prefix@;
        prefix.push('"');
        if let Ok(Json::Text(t)) = Json::parse(&text::string(&prefix)) {
            return Some(t);
        }
        match text::find_last(&prefix, '\\') {
            Some(at) => {
                proof {
                    lemma_last(cut);
                }
                prefix.truncate(at);
                proof {
                    assert(prefix@ =~= cut.push('"').take(at as int));
                }
            },
            None => return None,
        }
    }
}

/// What is shown of a call of tool `name` with arguments `raw`, of which
/// `command` is the command and `start` the beginning of one.
pub open spec fn call_words(
    name: Seq<char>,
    raw: Seq<char>,
    partial: bool,
    command: Option<Seq<char>>,
    start: Option<Seq<char>>,
) -> Seq<char> {
    if name != "bash"@ {
        name + " "@ + raw
    } else if command is Some {
        command->0
    } else if partial && start is Some {
        start->0
    } else if partial || raw.len() == 0 {
        "bash …"@
    } else {
        raw
    }
}

/// What is shown of a call of tool `name` with arguments `raw`.
pub open spec fn call_text(name: Seq<char>, raw: Seq<char>, partial: bool) -> Seq<char> {
    call_words(name, raw, partial, command_of(raw), command_start(raw))
}

/// `s`, or else `default`.
pub open spec fn or_else(s: Option<Seq<char>>, default: Seq<char>) -> Seq<char> {
    match s {
        Some(s) => s,
        None => default,
    }
}

/// The block that shows an item that calls a tool.
pub open spec fn call_block(item: Tree, partial: bool) -> BlockView {
    BlockView {
        kind: Kind::Call,
        text: call_text(
            or_else(item.text("name"@), "tool"@),
            or_else(item.text("arguments"@), ""@),
            partial,
        ),
        tool: Some(
            ToolView {
                call_id: or_else(item.text("call_id"@), ""@),
                status: ToolStatus::Pending,
                output: no_output(),
            },
        ),
    }
}

/// What a message of the model says: its texts, and then its refusals.
pub open spec fn message_text(item: Tree) -> Seq<char> {
    gathered(item, "content"@, "output_text"@) + match item.at("content"@).as_array() {
        Some(parts) => refusals(parts),
        None => Seq::empty(),
    }
}

/// The block that stands for an item in the conversation; none for an item of
/// an unknown type. While it is still being received, `partial` holds.
pub open spec fn item_block(item: Tree, partial: bool) -> Option<BlockView> {
    if item.text("role"@) == Some("user"@) && item.text("content"@) is Some {
        Some(plain(Kind::User, item.text("content"@)->0))
    } else {
        match item.text("type"@) {
            None => None,
            Some(typ) => if typ == "message"@ {
                Some(plain(Kind::Agent, message_text(item)))
            } else if typ == "reasoning"@ {
                let summary = gathered(item, "summary"@, "summary_text"@);
                Some(
                    plain(
                        Kind::Thought,
                        if summary.len() == 0 {
                            gathered(item, "content"@, "reasoning_text"@)
                        } else {
                            summary
                        },
                    ),
                )
            } else if typ == "function_call"@ {
                Some(call_block(item, partial))
            } else {
                None
            },
        }
    }
}

/// The texts of the parts of type `typ` in a field.
pub(crate) fn gather(item: &Json, field: &str, typ: &str) -> (r: String)
    ensures
        r@ == gathered(item@, field@, typ@),
{
    match item.array(field) {
        None => String::new(),
        Some(parts) => {
            let ghost all = json::trees(parts@);
            let mut found: Vec<Vec<char>> = Vec::new();
            let mut i: usize = 0;
            proof {
                assert(text::views(found@) =~= typed_texts(all.take(0), typ@));
            }
            while i < parts.len()
                invariant
                    i <= parts@.len(),
                    all == json::trees(parts@),
                    text::views(found@) == typed_texts(all.take(i as int), typ@),
                decreases parts@.len() - i,
            {
                let part = &parts[i];
                proof {
                    assert(all.take(i + 1).drop_last() =~= all.take(i as int));
                    assert(all.take(i + 1).last() == part@);
                }
                if part.text_is("type", typ) {
                    if let Some(t) = part.text("text") {
                        let ghost before = found@;
                        found.push(text::chars(t));
                        proof {
                            assert(text::views(found@) =~= text::views(before).push(t@));
                        }
                    }
                }
                i += 1;
            }
            proof {
                assert(all.take(i as int) =~= all);
            }
            text::string(&text::joined(&found, &text::chars("\n")))
        },
    }
}

/// What a message of the model says.
pub(crate) fn said(item: &Json) -> (r: String)
    ensures
        r@ == message_text(item@),
{
    let mut said = gather(item, "content", "output_text");
    if let Some(parts) = item.array("content") {
        let ghost all = json::trees(parts@);
        let ghost before = said@;
        let mut i: usize = 0;
        assert(before + refusals(all.take(0)) =~= before);
        while i < parts.len()
            invariant
                i <= parts@.len(),
                all == json::trees(parts@),
                said@ == before + refusals(all.take(i as int)),
            decreases parts@.len() - i,
        {
            let part = &parts[i];
            proof {
                assert(all.take(i + 1).drop_last() =~= all.take(i as int));
                assert(all.take(i + 1).last() == part@);
            }
            if let Some(refusal) = part.text("refusal") {
                said.append(refusal);
                proof {
                    assert(said@ =~= before + (refusals(all.take(i as int)) + refusal@));
                }
            }
            i += 1;
        }
        proof {
            assert(all.take(i as int) =~= all);
        }
    } else {
        assert(said@ + Seq::<char>::empty() =~= said@);
    }
    said
}

fn copy_or(s: Option<&String>, default: &str) -> (r: String)
    ensures
        s matches Some(s) ==> r@ == s@,
        s is None ==> r@ == default@,
{
    match s {
        Some(s) => s.clone(),
        None => default.to_owned(),
    }
}

/// What is shown of a call, given the command in its arguments and the
/// beginning of one.
pub fn shown_call(
    name: &str,
    raw: &str,
    partial: bool,
    command: Option<String>,
    start: Option<String>,
) -> (r: String)
    ensures
        r@ == call_words(name@, raw@, partial, option_view(command), option_view(start)),
{
    if !text::same(name, "bash") {
        let mut out = text::cat(name, " ");
        out.append(raw);
        return out;
    }
    if let Some(command) = command {
        return command;
    }
    if partial {
        if let Some(start) = start {
            return start;
        }
    }
    if partial || raw.is_empty() {
        "bash …".to_owned()
    } else {
        raw.to_owned()
    }
}

/// The command in complete arguments.
fn command(raw: &str) -> (r: Option<String>)
    ensures
        option_view(r) == command_of(raw@),
{
    match Json::parse(raw) {
        Ok(args) => match args.text("command") {
            Some(command) => Some(command.clone()),
            None => None,
        },
        Err(_) => None,
    }
}

impl Block {
    /// A block of text alone.
    pub fn new(kind: Kind, text: String) -> (r: Block)
        ensures
            r.kind == kind,
            r.text == text,
            r.tool is None,
            r@ == plain(kind, text@),
    {
        Block { kind, text, tool: None }
    }

    /// The block that shows an item that calls a tool.
    pub fn of_call(item: &Json, partial: bool) -> (r: Block)
        ensures
            r@ == call_block(item@, partial),
    {
        let name = copy_or(item.text("name"), "tool");
        let raw = copy_or(item.text("arguments"), "");
        let call_id = copy_or(item.text("call_id"), "");
        let start = if partial {
            command_prefix(&raw)
        } else {
            None
        };
        let shown = shown_call(&name, &raw, partial, command(&raw), start);
        let tool = Tool { call_id, status: ToolStatus::Pending, output: ToolOutput::default() };
        Block { kind: Kind::Call, text: shown, tool: Some(tool) }
    }

    /// The block that stands for an item in the conversation.
    pub fn from_item(item: &Json, partial: bool) -> (r: Option<Block>)
        ensures
            r is Some <==> item_block(item@, partial) is Some,
            r matches Some(b) ==> item_block(item@, partial) == Some(b@),
    {
        if item.text_is("role", "user") {
            if let Some(content) = item.text("content") {
                return Some(Block::new(Kind::User, content.clone()));
            }
        }
        let typ = match item.text("type") {
            Some(typ) => typ,
            None => return None,
        };
        if text::same(typ, "message") {
            Some(Block::new(Kind::Agent, said(item)))
        } else if text::same(typ, "reasoning") {
            let mut thought = gather(item, "summary", "summary_text");
            if thought.as_str().is_empty() {
                thought = gather(item, "content", "reasoning_text");
            }
            Some(Block::new(Kind::Thought, thought))
        } else if text::same(typ, "function_call") {
            Some(Block::of_call(item, partial))
        } else {
            None
        }
    }
}

/// The text of a part, if it is of type `typ` and has one.
pub open spec fn part_text(part: Tree, typ: Seq<char>) -> Option<Seq<char>> {
    if part.text("type"@) == Some(typ) {
        part.text("text"@)
    } else {
        None
    }
}

/// Whether a part of type `typ` has a text.
pub open spec fn any_text(parts: Seq<Tree>, typ: Seq<char>) -> bool {
    exists|k: int| 0 <= k < parts.len() && part_text(#[trigger] parts[k], typ) is Some
}

proof fn lemma_typed_texts(parts: Seq<Tree>, typ: Seq<char>)
    ensures
        typed_texts(parts, typ).len() > 0 <==> any_text(parts, typ),
    decreases parts.len(),
{
    if parts.len() > 0 {
        let start = parts.drop_last();
        lemma_typed_texts(start, typ);
        if any_text(start, typ) {
            let k = choose|k: int| 0 <= k < start.len() && part_text(#[trigger] start[k], typ) is Some;
            assert(part_text(parts[k], typ) is Some);
        }
        if any_text(parts, typ) {
            let k = choose|k: int| 0 <= k < parts.len() && part_text(#[trigger] parts[k], typ) is Some;
            if k < start.len() {
                assert(part_text(start[k], typ) is Some);
            }
        }
        if part_text(parts.last(), typ) is Some {
            assert(part_text(parts[parts.len() - 1], typ) is Some);
        }
    }
}

/// No part is lost: one more part of the type that is gathered adds its text, on
/// a line of its own behind those before it; any other part adds nothing; and
/// without parts there is no text.
pub proof fn law_parts_stand_one_per_line(
    item: Tree,
    longer: Tree,
    field: Seq<char>,
    typ: Seq<char>,
    parts: Seq<Tree>,
    part: Tree,
)
    requires
        item.at(field) == Tree::Array(parts),
        longer.at(field) == Tree::Array(parts.push(part)),
    ensures
        parts.len() == 0 ==> gathered(item, field, typ) == Seq::<char>::empty(),
        gathered(longer, field, typ) == match part_text(part, typ) {
            Some(t) => if any_text(parts, typ) {
                gathered(item, field, typ) + "\n"@ + t
            } else {
                t
            },
            None => gathered(item, field, typ),
        },
        refusals(parts.push(part)) == match part.text("refusal"@) {
            Some(t) => refusals(parts) + t,
            None => refusals(parts),
        },
        parts.len() == 0 ==> refusals(parts) == Seq::<char>::empty(),
{
    assert(parts.push(part).drop_last() =~= parts);
    lemma_typed_texts(parts, typ);
    let before = typed_texts(parts, typ);
    if let Some(t) = part_text(part, typ) {
        let after = typed_texts(parts.push(part), typ);
        assert(after == before.push(t));
        assert(after.drop_last() =~= before);
        assert(after.last() == t);
    }
}

/// What stands for each kind of item in the conversation: a text of the user as
/// it is; of a message all its texts and then its refusals; of a thought its
/// summary, or the reasoning itself where there is none; of a call the call,
/// with nothing come of it yet; and of anything else nothing.
pub proof fn law_items_stand_as_blocks(item: Tree, partial: bool)
    ensures
        item.text("role"@) == Some("user"@) && item.text("content"@) is Some ==> item_block(item, partial) == Some(
            plain(Kind::User, item.text("content"@)->0),
        ),
        !(item.text("role"@) == Some("user"@) && item.text("content"@) is Some) ==> {
            let summary = gathered(item, "summary"@, "summary_text"@);
            let content = item.at("content"@);
            &&& item.text("type"@) == Some("message"@) && content is Array ==> item_block(item, partial) == Some(
                plain(Kind::Agent, gathered(item, "content"@, "output_text"@) + refusals(content->Array_0)),
            )
            &&& item.text("type"@) == Some("message"@) && !(content is Array) ==> item_block(item, partial) == Some(
                plain(Kind::Agent, Seq::empty()),
            )
            &&& item.text("type"@) == Some("reasoning"@) && summary.len() > 0 ==> item_block(item, partial) == Some(
                plain(Kind::Thought, summary),
            )
            &&& item.text("type"@) == Some("reasoning"@) && summary.len() == 0 ==> item_block(item, partial) == Some(
                plain(Kind::Thought, gathered(item, "content"@, "reasoning_text"@)),
            )
            &&& item.text("type"@) == Some("function_call"@) ==> item_block(item, partial) == Some(
                BlockView {
                    kind: Kind::Call,
                    text: call_text(
                        or_else(item.text("name"@), "tool"@),
                        or_else(item.text("arguments"@), ""@),
                        partial,
                    ),
                    tool: Some(
                        ToolView {
                            call_id: or_else(item.text("call_id"@), ""@),
                            status: ToolStatus::Pending,
                            output: OutputView { text: Seq::empty(), log: None, truncated: false },
                        },
                    ),
                },
            )
            &&& item.text("type"@) != Some("message"@) && item.text("type"@) != Some("reasoning"@) && item.text(
                "type"@,
            ) != Some("function_call"@) ==> item_block(item, partial) is None
        },
{
    reveal_strlit("message");
    reveal_strlit("reasoning");
    reveal_strlit("function_call");
    assert("message"@.len() == 7 && "reasoning"@.len() == 9 && "function_call"@.len() == 13);
    assert(gathered(item, "content"@, "output_text"@) + Seq::<char>::empty() =~= gathered(
        item,
        "content"@,
        "output_text"@,
    ));
}

/// What is shown of a call: a tool that is not known by its name and its
/// arguments; the shell by its command, as far as it has come; and where no
/// command can be read, a mark while it is still coming, and else the arguments
/// themselves.
pub proof fn law_calls_show_their_command(name: Seq<char>, raw: Seq<char>, partial: bool)
    ensures
        name != "bash"@ ==> call_text(name, raw, partial) == name + " "@ + raw,
        name == "bash"@ ==> {
            &&& command_of(raw) matches Some(c) ==> call_text(name, raw, partial) == c
            &&& command_of(raw) is None && partial && command_start(raw) is Some ==> call_text(name, raw, partial)
                == command_start(raw)->0
            &&& command_of(raw) is None && (partial && command_start(raw) is None || raw.len() == 0 && !partial)
                ==> call_text(name, raw, partial) == "bash …"@
            &&& command_of(raw) is None && !partial && raw.len() > 0 ==> call_text(name, raw, partial) == raw
        },
        json::json_parse(raw) matches Ok(args) ==> command_of(raw) == args.text("command"@),
        json::json_parse(raw) is Err ==> command_of(raw) is None,
{
}

/// The words on every outcome. A plain success needs none, nor does an error,
/// which its output tells.
pub proof fn law_notes_tell_the_outcome(code: i32, ms: u64)
    ensures
        ToolStatus::Exited(0).note() is None,
        ToolStatus::Error.note() is None,
        code != 0 ==> ToolStatus::Exited(code).note() == Some("exit "@ + text::signed_decimal(code as int)),
        ToolStatus::TimedOut(ms).note() == Some(
            "timed out after "@ + text::decimal(ms as nat) + " ms; process group killed"@,
        ),
        ToolStatus::Cancelled.note() == Some("cancelled; process group killed"@),
        ToolStatus::Pending.note() == Some("pending"@),
        ToolStatus::Running.note() == Some("running"@),
{
}

/// The model is told all that a call printed, then how it ended where that is
/// worth a note, and then where the whole output is, where it was cut. Nothing
/// else is added.
pub proof fn law_reports_tell_output_and_outcome(tool: ToolView)
    ensures
        tool.output.text.is_prefix_of(tool.report()),
        ({
            let noted = match tool.status.note() {
                Some(note) => tool.output.text + "\n["@ + note + "]"@,
                None => tool.output.text,
            };
            &&& noted.is_prefix_of(tool.report())
            &&& !tool.output.truncated || tool.output.log is None ==> tool.report() == noted
            &&& tool.output.truncated && tool.output.log is Some ==> tool.report() == noted
                + "\n[Output log (temporary): "@ + tool.output.log->0
                + " — read needed ranges with sed, tail, or grep]"@
        }),
        tool.item().text("type"@) == Some("function_call_output"@),
        tool.item().text("call_id"@) == Some(tool.call_id),
        tool.item().text("output"@) == Some(tool.report()),
{
    let noted = match tool.status.note() {
        Some(note) => tool.output.text + "\n["@ + note + "]"@,
        None => tool.output.text,
    };
    assert(tool.report().take(noted.len() as int) =~= noted);
    assert(tool.report().take(tool.output.text.len() as int) =~= tool.output.text);
    reveal_strlit("type");
    reveal_strlit("call_id");
    reveal_strlit("output");
    assert("type"@.len() == 4 && "call_id"@.len() == 7 && "output"@.len() == 6);
    let fields = tool.item()->Object_0;
    reveal_with_fuel(json::lookup, 4);
    assert(fields[0].0 == "type"@ && fields[1].0 == "call_id"@ && fields[2].0 == "output"@);
}

/// A command that simply succeeded is never reported like one with the same
/// output that did not.
pub proof fn law_success_is_told_from_failure(good: ToolView, bad: ToolView)
    requires
        good.output == bad.output,
        good.status == ToolStatus::Exited(0),
        bad.status != ToolStatus::Exited(0),
        bad.status != ToolStatus::Error,
    ensures
        good.report() != bad.report(),
        good.report().len() < bad.report().len(),
{
    law_reports_tell_output_and_outcome(good);
    law_reports_tell_output_and_outcome(bad);
    reveal_strlit("\n[");
    assert("\n["@.len() == 2);
}

/// Two calls that ended differently are told apart, but for a success and a
/// failure that its own output tells: a note says which exit code it was, or
/// after how long the call was stopped.
pub proof fn law_outcomes_are_told_apart(a: ToolStatus, b: ToolStatus)
    requires
        a.note() == b.note(),
        a.note() is Some,
    ensures
        a == b,
{
    reveal_strlit("pending");
    reveal_strlit("running");
    reveal_strlit("exit ");
    reveal_strlit("timed out after ");
    reveal_strlit(" ms; process group killed");
    reveal_strlit("cancelled; process group killed");
    let s = a.note()->0;
    assert(a is Pending ==> s[0] == 'p');
    assert(b is Pending ==> s[0] == 'p');
    assert(a is Running ==> s[0] == 'r');
    assert(b is Running ==> s[0] == 'r');
    assert(a is Cancelled ==> s[0] == 'c');
    assert(b is Cancelled ==> s[0] == 'c');
    assert(a is Exited ==> s[0] == 'e');
    assert(b is Exited ==> s[0] == 'e');
    assert(a is TimedOut ==> s[0] == 't');
    assert(b is TimedOut ==> s[0] == 't');
    if let (ToolStatus::Exited(x), ToolStatus::Exited(y)) = (a, b) {
        let p = "exit "@;
        assert((p + text::signed_decimal(x as int)).skip(5) =~= text::signed_decimal(x as int));
        assert((p + text::signed_decimal(y as int)).skip(5) =~= text::signed_decimal(y as int));
        text::law_numbers_are_told_apart(x as int, y as int);
    }
    if let (ToolStatus::TimedOut(x), ToolStatus::TimedOut(y)) = (a, b) {
        let p = "timed out after "@;
        let q = " ms; process group killed"@;
        let u = text::decimal(x as nat);
        let v = text::decimal(y as nat);
        assert(s.len() == 16 + u.len() + 25);
        assert(u.len() == v.len());
        assert(s.subrange(16, 16 + u.len() as int) =~= u);
        assert(s.subrange(16, 16 + u.len() as int) =~= v);
        text::law_numbers_are_told_apart(x as int, y as int);
    }
}

/// The command of unfinished arguments is looked for in an object, field by
/// field: one that is not the command is passed over where it is complete, and
/// the first that is gives its text as far as it has come.
pub proof fn law_command_stands_behind_complete_fields(raw: Seq<char>, rest: Seq<char>)
    ensures
        ({
            let start = text::trim_start(raw);
            &&& start.len() > 0 && start[0] == '{' ==> command_start(raw) == command_in(start.skip(1))
            &&& start.len() == 0 || start[0] != '{' ==> command_start(raw) is None
        }),
        json::json_leading_text(rest) matches json::LeadView::Text(name, after) ==> ({
            let colon = text::trim_start(after);
            let value = text::trim_start(colon.skip(1));
            &&& colon.len() == 0 || colon[0] != ':' ==> command_in(rest) is None
            &&& colon.len() > 0 && colon[0] == ':' && name == "command"@ ==> command_in(rest) == string_start(value)
            &&& colon.len() > 0 && colon[0] == ':' && name != "command"@ ==> (match json::json_after_value(value) {
                None => command_in(rest) is None,
                Some(behind_value) => {
                    let comma = text::trim_start(behind_value);
                    &&& comma.len() == 0 || comma[0] != ',' ==> command_in(rest) is None
                    &&& 0 < comma.len() <= rest.len() && comma[0] == ',' ==> command_in(rest) == command_in(comma.skip(1))
                },
            })
        }),
        !(json::json_leading_text(rest) is Text) ==> command_in(rest) is None,
{
}

/// An unfinished text is read up to where it was cut: the missing quotation mark
/// is supplied, and where what is left is still no text, the last escape is given
/// up with all behind it. A finished one is read as it is.
pub proof fn law_unfinished_text_is_read(cut: Seq<char>, start: Seq<char>, end: Seq<char>)
    requires
        cut == start.push('\\') + end,
        forall|k: int| 0 <= k < end.len() ==> #[trigger] end[k] != '\\',
    ensures
        json::json_parse(cut.push('"')) matches Ok(Tree::Text(t)) ==> closed(cut) == Some(t),
        !(json::json_parse(cut.push('"')) matches Ok(Tree::Text(t))) ==> closed(cut) == closed(start),
        json::json_parse(end.push('"')) matches Ok(Tree::Text(t)) ==> closed(end) == Some(t),
        !(json::json_parse(end.push('"')) matches Ok(Tree::Text(t))) ==> closed(end) is None,
        json::json_leading_text(cut) matches json::LeadView::Text(t, _) ==> string_start(cut) == Some(t),
        json::json_leading_text(cut) is Partial ==> string_start(cut) == closed(cut),
        !(json::json_leading_text(cut) is Partial) && !(json::json_leading_text(cut) is Text) ==> string_start(
            cut,
        ) is None,
{
    let p = text::other_than('\\');
    let whole = cut.push('"');
    let n = start.len() as int;
    assert(whole[n] == '\\');
    assert forall|k: int| n + 1 <= k < whole.len() implies p(#[trigger] whole[k]) by {
        if k < cut.len() {
            assert(whole[k] == end[k - n - 1]);
        }
    }
    text::lemma_span_back_is(whole, p, whole.len() - n - 1);
    assert(text::last(whole, '\\') == n);
    assert(whole.take(n) =~= start);
    let other = end.push('"');
    assert forall|k: int| 0 <= k < other.len() implies p(#[trigger] other[k]) by {
        if k < end.len() {
            assert(other[k] == end[k]);
        }
    }
    text::lemma_span_back_is(other, p, other.len() as int);
}

} // verus!
