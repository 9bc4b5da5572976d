//! The session: a log of records that is both the file on disk and the history
//! in memory. Nodes index ranges of the log and form a tree.
use crate::block::{
    block_views, item_block, option_view, plain, Block, BlockView, Kind, Tool, ToolView,
};
use crate::json::{self, Json, Tree};
use crate::sse::line_end;
use crate::text;
use vstd::prelude::*;
use vstd::string::StringExecFns;

verus! {

/// The tokens that one response took.
#[derive(Clone, Copy, PartialEq, Eq, Structural, Debug)]
pub struct Usage {
    pub input: u64,
    pub output: u64,
    pub cached: Option<u64>,
}

/// No tokens, and nothing known of the cache.
pub open spec fn no_usage() -> Usage {
    Usage { input: 0, output: 0, cached: None }
}

impl Default for Usage {
    fn default() -> (r: Usage)
        ensures
            r == no_usage(),
    {
        Usage { input: 0, output: 0, cached: None }
    }
}

/// `n`, or zero.
pub open spec fn or_zero(n: Option<u64>) -> u64 {
    match n {
        Some(n) => n,
        None => 0,
    }
}

/// The usage that a response reports; a count that is missing is zero.
pub open spec fn usage_of(v: Tree) -> Usage {
    Usage {
        input: or_zero(v.at("input_tokens"@).as_unsigned()),
        output: or_zero(v.at("output_tokens"@).as_unsigned()),
        cached: v.at("input_tokens_details"@).at("cached_tokens"@).as_unsigned(),
    }
}

impl Usage {
    /// Whether a prefix that was cached before was not read from the cache.
    pub open spec fn missed(self, previous: Usage) -> bool {
        or_zero(previous.cached) > 0 && self.cached == Some(0u64) && self.input >= previous.input
    }

    /// The usage that a response reports.
    pub fn from_json(v: &Json) -> (r: Usage)
        ensures
            r == usage_of(v@),
    {
        let cached = match v.get("input_tokens_details") {
            Some(details) => details.unsigned("cached_tokens"),
            None => None,
        };
        Usage {
            input: v.unsigned("input_tokens").unwrap_or(0),
            output: v.unsigned("output_tokens").unwrap_or(0),
            cached,
        }
    }

    /// Whether a prefix that was cached before was not read from the cache.
    pub fn cache_miss(self, previous: Usage) -> (r: bool)
        ensures
            r == self.missed(previous),
    {
        let uncached = match self.cached {
            Some(n) => n == 0,
            None => false,
        };
        previous.cached.unwrap_or(0) > 0 && uncached && self.input >= previous.input
    }
}

/// A model, the effort asked of it and the size of its context.
#[derive(PartialEq, Eq, Debug)]
pub struct Model {
    pub name: String,
    pub effort: Option<String>,
    pub context: u64,
}

/// The model of [`Model`].
pub struct ModelView {
    pub name: Seq<char>,
    pub effort: Option<Seq<char>>,
    pub context: u64,
}

impl View for Model {
    type V = ModelView;

    open spec fn view(&self) -> ModelView {
        ModelView { name: self.name@, effort: option_view(self.effort), context: self.context }
    }
}

impl Clone for Model {
    fn clone(&self) -> (r: Model)
        ensures
            r == *self,
    {
        Model { name: self.name.clone(), effort: crate::block::copy_option(&self.effort), context: self.context }
    }
}

impl Model {
    /// Whether two models are set up alike.
    pub fn same(&self, other: &Model) -> (r: bool)
        ensures
            r == (self@ == other@),
    {
        let efforts = match (&self.effort, &other.effort) {
            (Some(a), Some(b)) => text::same(a, b),
            (None, None) => true,
            _ => false,
        };
        text::same(&self.name, &other.name) && efforts && self.context == other.context
    }
}

/// The first line of a session file.
#[derive(Debug)]
pub struct Header {
    pub version: u32,
    pub id: String,
    pub title: String,
    pub cwd: String,
    pub instructions: String,
    pub model: Model,
}

/// The model of [`Header`].
pub struct HeaderView {
    pub version: u32,
    pub id: Seq<char>,
    pub title: Seq<char>,
    pub cwd: Seq<char>,
    pub instructions: Seq<char>,
    pub model: ModelView,
}

impl View for Header {
    type V = HeaderView;

    open spec fn view(&self) -> HeaderView {
        HeaderView {
            version: self.version,
            id: self.id@,
            title: self.title@,
            cwd: self.cwd@,
            instructions: self.instructions@,
            model: self.model@,
        }
    }
}

/// A committed step of the conversation: the entries of the log from `start`
/// up to the node, hung below `parent`.
#[derive(Debug)]
pub struct Node {
    pub parent: Option<usize>,
    pub usage: Option<Usage>,
    pub start: usize,
    pub blocks: Vec<Block>,
}

/// The model of [`Node`].
pub struct NodeView {
    pub parent: Option<usize>,
    pub usage: Option<Usage>,
    pub start: int,
    pub blocks: Seq<BlockView>,
}

impl View for Node {
    type V = NodeView;

    open spec fn view(&self) -> NodeView {
        NodeView {
            parent: self.parent,
            usage: self.usage,
            start: self.start as int,
            blocks: block_views(self.blocks@),
        }
    }
}

/// One line of the log.
#[derive(Debug)]
pub enum Record {
    Item { item: Json },
    Attachment { label: String, path: String, text: String },
    Tool(Tool),
    Notice { text: String },
    Node(Node),
    Cursor { node: Option<usize> },
    Model(Model),
}

/// The model of [`Record`].
pub enum RecordView {
    Item(Tree),
    Attachment { label: Seq<char>, path: Seq<char>, text: Seq<char> },
    Tool(ToolView),
    Notice(Seq<char>),
    Node(NodeView),
    Cursor(Option<usize>),
    Model(ModelView),
}

impl View for Record {
    type V = RecordView;

    open spec fn view(&self) -> RecordView {
        match self {
            Record::Item { item } => RecordView::Item(item@),
            Record::Attachment { label, path, text } => RecordView::Attachment {
                label: label@,
                path: path@,
                text: text@,
            },
            Record::Tool(tool) => RecordView::Tool(tool@),
            Record::Notice { text } => RecordView::Notice(text@),
            Record::Node(node) => RecordView::Node(node@),
            Record::Cursor { node } => RecordView::Cursor(*node),
            Record::Model(model) => RecordView::Model(model@),
        }
    }
}

/// What each record says.
pub open spec fn record_views(records: Seq<Record>) -> Seq<RecordView> {
    records.map_values(|r: Record| r@)
}

impl RecordView {
    /// Whether the record belongs to the node that follows it.
    pub open spec fn is_entry(self) -> bool {
        self is Item || self is Attachment || self is Tool || self is Notice
    }

    /// What the model is sent for the record.
    pub open spec fn input(self) -> Option<Tree> {
        match self {
            RecordView::Item(item) => Some(item),
            RecordView::Attachment { label, path, text } => Some(
                user_item(label + ": "@ + path + "\n"@ + text),
            ),
            RecordView::Tool(tool) => Some(tool.item()),
            _ => None,
        }
    }

    /// The record as it stands on disk: a node's start and blocks are found
    /// again when it is read.
    pub open spec fn bare(self) -> RecordView {
        match self {
            RecordView::Node(node) => RecordView::Node(
                NodeView { parent: node.parent, usage: node.usage, start: 0, blocks: Seq::empty() },
            ),
            other => other,
        }
    }
}

/// A message of the user.
pub open spec fn user_item(content: Seq<char>) -> Tree {
    Tree::Object(seq![("role"@, Tree::Text("user"@)), ("content"@, Tree::Text(content))])
}

/// A message of the user.
pub fn user_message(content: String) -> (r: Json)
    ensures
        r@ == user_item(content@),
{
    let mut fields: Vec<(String, Json)> = Vec::new();
    fields.push(("role".to_owned(), Json::Text("user".to_owned())));
    fields.push(("content".to_owned(), Json::Text(content)));
    proof {
        assert(json::field_trees(fields@) =~= user_item(content@)->Object_0);
    }
    json::object(fields)
}

impl Record {
    /// Whether the record belongs to the node that follows it.
    pub fn is_entry(&self) -> (r: bool)
        ensures
            r == self@.is_entry(),
    {
        match self {
            Record::Item { .. } => true,
            Record::Attachment { .. } => true,
            Record::Tool(_) => true,
            Record::Notice { .. } => true,
            _ => false,
        }
    }

    /// What the model is sent for the record.
    pub fn input(&self) -> (r: Option<Json>)
        ensures
            r is Some <==> self@.input() is Some,
            r matches Some(v) ==> self@.input() == Some(v@),
    {
        match self {
            Record::Item { item } => Some(item.clone()),
            Record::Attachment { label, path, text } => {
                let mut content = text::cat(label, ": ");
                content.append(path);
                content.append("\n");
                content.append(text);
                Some(user_message(content))
            },
            Record::Tool(tool) => Some(tool.item()),
            _ => None,
        }
    }
}

/// Why a session or a record of it is refused.
#[derive(Clone, Copy, PartialEq, Eq, Structural, Debug)]
pub enum SessionError {
    Uncommitted,
    Parent,
    Cursor,
    Header,
    Incomplete,
}

impl SessionError {
    /// The words for the error.
    pub open spec fn words(self) -> Seq<char> {
        match self {
            SessionError::Uncommitted => "Uncommitted session entries"@,
            SessionError::Parent => "Invalid session parent"@,
            SessionError::Cursor => "Invalid session cursor"@,
            SessionError::Header => "Invalid session header"@,
            SessionError::Incomplete => "Incomplete session header"@,
        }
    }

    /// The words for the error.
    pub fn message(self) -> (r: String)
        ensures
            r@ == self.words(),
    {
        match self {
            SessionError::Uncommitted => "Uncommitted session entries".to_owned(),
            SessionError::Parent => "Invalid session parent".to_owned(),
            SessionError::Cursor => "Invalid session cursor".to_owned(),
            SessionError::Header => "Invalid session header".to_owned(),
            SessionError::Incomplete => "Incomplete session header".to_owned(),
        }
    }
}

/// Whether position `i` of the log is a node.
pub open spec fn node_at(rs: Seq<RecordView>, i: int) -> bool {
    0 <= i < rs.len() && rs[i] is Node
}

/// Where the run of entries at the end of the log begins.
pub open spec fn entries_start(rs: Seq<RecordView>) -> int
    decreases rs.len(),
{
    if rs.len() == 0 || !rs.last().is_entry() {
        rs.len() as int
    } else {
        entries_start(rs.drop_last())
    }
}

/// The blocks with the last call that `tool` answers filled in.
pub open spec fn attach(blocks: Seq<BlockView>, tool: ToolView) -> Seq<BlockView>
    decreases blocks.len(),
{
    if blocks.len() == 0 {
        blocks
    } else if answers(tool, blocks.last()) {
        blocks.drop_last().push(BlockView { tool: Some(tool), ..blocks.last() })
    } else {
        attach(blocks.drop_last(), tool).push(blocks.last())
    }
}

/// Whether `tool` is the outcome of the call that `block` shows.
pub open spec fn answers(tool: ToolView, block: BlockView) -> bool {
    match block.tool {
        Some(t) => t.call_id == tool.call_id,
        None => false,
    }
}

/// The blocks after one more entry.
pub open spec fn with_entry(blocks: Seq<BlockView>, entry: RecordView) -> Seq<BlockView> {
    match entry {
        RecordView::Item(item) => match item_block(item, false) {
            Some(b) => blocks.push(b),
            None => blocks,
        },
        RecordView::Attachment { label, path, .. } => blocks.push(plain(Kind::Notice, label + ": "@ + path)),
        RecordView::Tool(tool) => attach(blocks, tool),
        RecordView::Notice(text) => blocks.push(plain(Kind::Warning, text)),
        _ => blocks,
    }
}

/// The blocks that the entries show, after `blocks`.
pub open spec fn with_entries(blocks: Seq<BlockView>, entries: Seq<RecordView>) -> Seq<BlockView>
    decreases entries.len(),
{
    if entries.len() == 0 {
        blocks
    } else {
        with_entry(with_entries(blocks, entries.drop_last()), entries.last())
    }
}

/// The node as it stands in the log behind the records `rs`.
pub open spec fn committed(rs: Seq<RecordView>, node: NodeView) -> NodeView {
    NodeView {
        parent: node.parent,
        usage: node.usage,
        start: entries_start(rs),
        blocks: with_entries(node.blocks, rs.skip(entries_start(rs))),
    }
}

/// The log after one more record, or why it is refused: a control record does
/// not split the entries of a node, and a parent or cursor is a node that is
/// already there.
pub open spec fn recorded(rs: Seq<RecordView>, record: RecordView) -> Result<Seq<RecordView>, SessionError> {
    if !record.is_entry() && !(record is Node) && rs.len() > 0 && rs.last().is_entry() {
        Err(SessionError::Uncommitted)
    } else {
        match record {
            RecordView::Node(node) => match node.parent {
                Some(p) => if node_at(rs, p as int) {
                    Ok(rs.push(RecordView::Node(committed(rs, node))))
                } else {
                    Err(SessionError::Parent)
                },
                None => Ok(rs.push(RecordView::Node(committed(rs, node)))),
            },
            RecordView::Cursor(Some(p)) => if node_at(rs, p as int) {
                Ok(rs.push(record))
            } else {
                Err(SessionError::Cursor)
            },
            _ => Ok(rs.push(record)),
        }
    }
}

/// Whether the record at `i` fits the log before it.
pub open spec fn linked_at(rs: Seq<RecordView>, i: int) -> bool {
    match rs[i] {
        RecordView::Node(node) => {
            &&& node.parent matches Some(p) ==> p < i && rs[p as int] is Node
            &&& node.start == entries_start(rs.take(i))
        },
        RecordView::Cursor(target) => {
            &&& target matches Some(p) ==> p < i && rs[p as int] is Node
            &&& i > 0 ==> !rs[i - 1].is_entry()
        },
        RecordView::Model(_) => i > 0 ==> !rs[i - 1].is_entry(),
        _ => true,
    }
}

/// The invariant of a log: every parent and every cursor is a node further up,
/// a node begins where the entries before it do, and a control record never
/// stands behind an entry.
pub open spec fn linked(rs: Seq<RecordView>) -> bool {
    forall|i: int| 0 <= i < rs.len() ==> #[trigger] linked_at(rs, i)
}

/// The blocks of every node are those of its own entries.
pub open spec fn rendered(rs: Seq<RecordView>) -> bool {
    forall|i: int|
        0 <= i < rs.len() ==> (#[trigger] rs[i] matches RecordView::Node(node) ==> node.blocks == with_entries(
            Seq::empty(),
            rs.take(i).skip(node.start),
        ))
}

pub proof fn lemma_entries_start(rs: Seq<RecordView>)
    ensures
        0 <= entries_start(rs) <= rs.len(),
        forall|k: int| entries_start(rs) <= k < rs.len() ==> (#[trigger] rs[k]).is_entry(),
        entries_start(rs) > 0 ==> !rs[entries_start(rs) - 1].is_entry(),
    decreases rs.len(),
{
    if rs.len() > 0 && rs.last().is_entry() {
        let t = rs.drop_last();
        lemma_entries_start(t);
        assert forall|k: int| entries_start(rs) <= k < rs.len() implies (#[trigger] rs[k]).is_entry() by {
            if k < t.len() {
                assert(rs[k] == t[k]);
            }
        }
        if entries_start(rs) > 0 {
            assert(t[entries_start(t) - 1] == rs[entries_start(rs) - 1]);
        }
    }
}

pub proof fn lemma_entries_start_is(rs: Seq<RecordView>, n: int)
    requires
        0 <= n <= rs.len(),
        forall|k: int| n <= k < rs.len() ==> (#[trigger] rs[k]).is_entry(),
        n > 0 ==> !rs[n - 1].is_entry(),
    ensures
        entries_start(rs) == n,
{
    lemma_entries_start(rs);
    let m = entries_start(rs);
    if m < n {
        assert(rs[n - 1].is_entry());
    } else if n < m {
        assert(rs[m - 1].is_entry());
    }
}

/// A record of the log fits what stands before it, whatever follows.
pub proof fn lemma_linked_prefix(rs: Seq<RecordView>, n: int)
    requires
        linked(rs),
        0 <= n <= rs.len(),
    ensures
        linked(rs.take(n)),
{
    let t = rs.take(n);
    assert forall|i: int| 0 <= i < t.len() implies #[trigger] linked_at(t, i) by {
        assert(linked_at(rs, i));
        assert(t.take(i) =~= rs.take(i));
    }
}

pub proof fn lemma_linked_push(rs: Seq<RecordView>, r: RecordView)
    requires
        linked(rs),
        linked_at(rs.push(r), rs.len() as int),
    ensures
        linked(rs.push(r)),
{
    let t = rs.push(r);
    assert forall|i: int| 0 <= i < t.len() implies #[trigger] linked_at(t, i) by {
        if i < rs.len() {
            assert(linked_at(rs, i));
            assert(t.take(i) =~= rs.take(i));
        }
    }
}

/// Recording keeps the invariant of the log: every parent and cursor is an
/// already committed node, and no control record splits a node.
pub proof fn law_recording_keeps_links(rs: Seq<RecordView>, record: RecordView)
    requires
        linked(rs),
    ensures
        recorded(rs, record) matches Ok(next) ==> linked(next),
{
    if let Ok(next) = recorded(rs, record) {
        let r = next.last();
        assert(next =~= rs.push(r));
        assert(next.take(rs.len() as int) =~= rs);
        lemma_linked_push(rs, r);
    }
}

/// The node that new entries continue from.
pub open spec fn cursor_of(rs: Seq<RecordView>) -> Option<usize>
    decreases rs.len(),
{
    if rs.len() == 0 {
        None
    } else {
        match rs.last() {
            RecordView::Node(_) => Some((rs.len() - 1) as usize),
            RecordView::Cursor(target) => target,
            _ => cursor_of(rs.drop_last()),
        }
    }
}

pub proof fn lemma_cursor(rs: Seq<RecordView>)
    requires
        linked(rs),
        rs.len() <= usize::MAX,
    ensures
        cursor_of(rs) matches Some(i) ==> node_at(rs, i as int),
    decreases rs.len(),
{
    if rs.len() > 0 {
        assert(linked_at(rs, rs.len() - 1));
        let t = rs.drop_last();
        assert(t =~= rs.take(rs.len() - 1));
        lemma_linked_prefix(rs, rs.len() - 1);
        lemma_cursor(t);
    }
}

/// The model in force: the last one recorded, or else the first.
pub open spec fn model_of(rs: Seq<RecordView>, first: ModelView) -> ModelView
    decreases rs.len(),
{
    if rs.len() == 0 {
        first
    } else {
        match rs.last() {
            RecordView::Model(model) => model,
            _ => model_of(rs.drop_last(), first),
        }
    }
}

/// The node above node `i`.
pub open spec fn parent_of(rs: Seq<RecordView>, i: usize) -> Option<usize> {
    if node_at(rs, i as int) {
        match rs[i as int]->Node_0.parent {
            Some(p) => if p < i {
                Some(p)
            } else {
                None
            },
            None => None,
        }
    } else {
        None
    }
}

/// How far `at` is from the root at most.
pub open spec fn height(at: Option<usize>) -> int {
    match at {
        Some(i) => i + 1,
        None => 0,
    }
}

/// The nodes from `at` up to the root.
pub open spec fn lineage(rs: Seq<RecordView>, at: Option<usize>) -> Seq<usize>
    decreases height(at),
{
    match at {
        Some(i) => seq![i] + lineage(rs, parent_of(rs, i)),
        None => seq![],
    }
}

/// Each node of a lineage is followed by its parent.
pub proof fn lemma_lineage(rs: Seq<RecordView>, at: Option<usize>, k: int)
    requires
        linked(rs),
        at matches Some(i) ==> node_at(rs, i as int),
        0 <= k < lineage(rs, at).len(),
    ensures
        node_at(rs, lineage(rs, at)[k] as int),
        parent_of(rs, lineage(rs, at)[k]) == (if k + 1 < lineage(rs, at).len() {
            Some(lineage(rs, at)[k + 1])
        } else {
            None
        }),
        k == 0 ==> at == Some(lineage(rs, at)[0]),
    decreases height(at),
{
    let i = at->0;
    assert(linked_at(rs, i as int));
    let up = parent_of(rs, i);
    let rest = lineage(rs, up);
    assert(lineage(rs, at) == seq![i] + rest);
    if k == 0 {
        if rest.len() > 0 {
            lemma_lineage(rs, up, 0);
        } else {
            if up is Some {
                assert(lineage(rs, up).len() > 0);
            }
        }
    } else {
        lemma_lineage(rs, up, k - 1);
        assert(lineage(rs, at)[k] == rest[k - 1]);
        if k + 1 < lineage(rs, at).len() {
            assert(lineage(rs, at)[k + 1] == rest[k]);
        }
    }
}

/// What the model is sent for the entries.
pub open spec fn inputs_of(entries: Seq<RecordView>) -> Seq<Tree>
    decreases entries.len(),
{
    if entries.len() == 0 {
        seq![]
    } else {
        match entries.last().input() {
            Some(v) => inputs_of(entries.drop_last()).push(v),
            None => inputs_of(entries.drop_last()),
        }
    }
}

/// The entries of node `i`.
pub open spec fn entries_of(rs: Seq<RecordView>, i: usize) -> Seq<RecordView> {
    rs.subrange(rs[i as int]->Node_0.start, i as int)
}

/// What the model is sent for the conversation that ends in `at`.
pub open spec fn conversation(rs: Seq<RecordView>, at: Option<usize>) -> Seq<Tree>
    decreases height(at),
{
    match at {
        Some(i) => conversation(rs, parent_of(rs, i)) + inputs_of(entries_of(rs, i)),
        None => seq![],
    }
}

/// The usages from `at` up to the root, as far as nodes have one.
pub open spec fn usages(rs: Seq<RecordView>, at: Option<usize>) -> Seq<Usage>
    decreases height(at),
{
    match at {
        Some(i) => match rs[i as int]->Node_0.usage {
            Some(u) => seq![u] + usages(rs, parent_of(rs, i)),
            None => usages(rs, parent_of(rs, i)),
        },
        None => seq![],
    }
}

/// The sum of `f` over the usages.
pub open spec fn sum(us: Seq<Usage>, f: spec_fn(Usage) -> nat) -> nat
    decreases us.len(),
{
    if us.len() == 0 {
        0
    } else {
        sum(us.drop_last(), f) + f(us.last())
    }
}

/// `n`, or the greatest count where it is beyond.
pub open spec fn capped(n: nat) -> u64 {
    if n <= u64::MAX {
        n as u64
    } else {
        u64::MAX
    }
}

/// Input tokens.
pub open spec fn input_count() -> spec_fn(Usage) -> nat {
    |u: Usage| u.input as nat
}

/// Output tokens.
pub open spec fn output_count() -> spec_fn(Usage) -> nat {
    |u: Usage| u.output as nat
}

/// Input tokens read from the cache.
pub open spec fn cached_count() -> spec_fn(Usage) -> nat {
    |u: Usage| or_zero(u.cached) as nat
}

/// Input tokens that were not read from the cache.
pub open spec fn uncached_count() -> spec_fn(Usage) -> nat {
    |u: Usage|
        if u.input >= or_zero(u.cached) {
            (u.input - or_zero(u.cached)) as nat
        } else {
            0nat
        }
}

/// The usages together; the cached tokens are known only where all are.
pub open spec fn total(us: Seq<Usage>) -> Usage {
    Usage {
        input: capped(sum(us, input_count())),
        output: capped(sum(us, output_count())),
        cached: if forall|k: int| 0 <= k < us.len() ==> (#[trigger] us[k]).cached is Some {
            Some(capped(sum(us, cached_count())))
        } else {
            None
        },
    }
}

fn add_capped(a: u64, b: u64) -> (r: u64)
    ensures
        r == capped((a + b) as nat),
{
    if b <= u64::MAX - a {
        a + b
    } else {
        u64::MAX
    }
}

/// The text of the last block of kind `kind`.
pub open spec fn last_of(blocks: Seq<BlockView>, kind: Kind) -> Option<Seq<char>>
    decreases blocks.len(),
{
    if blocks.len() == 0 {
        None
    } else if blocks.last().kind == kind {
        Some(blocks.last().text)
    } else {
        last_of(blocks.drop_last(), kind)
    }
}

/// The text of the newest block of kind `kind` in the conversation that ends
/// in `at`.
pub open spec fn newest(rs: Seq<RecordView>, at: Option<usize>, kind: Kind) -> Option<Seq<char>>
    decreases height(at),
{
    match at {
        Some(i) => match last_of(rs[i as int]->Node_0.blocks, kind) {
            Some(t) => Some(t),
            None => newest(rs, parent_of(rs, i), kind),
        },
        None => None,
    }
}

/// The first line of `s`, cut to `n` characters.
pub open spec fn headline(s: Seq<char>, n: int) -> Seq<char> {
    let line = if text::lines(s).len() > 0 {
        text::lines(s)[0]
    } else {
        Seq::empty()
    };
    if line.len() <= n {
        line
    } else {
        line.take(n)
    }
}

/// The first line of `s`, cut to `n` characters.
pub fn first_line(s: &str, n: usize) -> (r: String)
    ensures
        r@ == headline(s@, n as int),
{
    let pieces = text::line_pieces(&text::chars(s));
    if pieces.len() == 0 {
        return String::new();
    }
    proof {
        assert(text::lines(s@)[0] == pieces@[0]@);
    }
    let line = &pieces[0];
    if line.len() <= n {
        text::string(line)
    } else {
        text::string(&text::slice(line, 0, n))
    }
}

/// Whether the log holds a node.
pub open spec fn has_node(rs: Seq<RecordView>) -> bool {
    exists|i: int| 0 <= i < rs.len() && (#[trigger] rs[i]) is Node
}

/// A session: its header, its log, and how much of the log is on disk.
#[derive(Debug)]
pub struct Session {
    header: Header,
    records: Vec<Record>,
    filed: bool,
    saved: usize,
    offset: u64,
}

/// The model of [`Session`]. `filed` tells whether its file is open, `saved`
/// how many records the file holds, and `offset` how long it is.
pub struct SessionView {
    pub header: HeaderView,
    pub records: Seq<RecordView>,
    pub filed: bool,
    pub saved: int,
    pub offset: u64,
}

impl View for Session {
    type V = SessionView;

    closed spec fn view(&self) -> SessionView {
        SessionView {
            header: self.header@,
            records: record_views(self.records@),
            filed: self.filed,
            saved: self.saved as int,
            offset: self.offset,
        }
    }
}

impl SessionView {
    /// The node that new entries continue from.
    pub open spec fn cursor(self) -> Option<usize> {
        cursor_of(self.records)
    }

    /// The session after `entries` were committed as a node.
    pub open spec fn pushed(self, entries: Seq<RecordView>, usage: Option<Usage>) -> SessionView {
        let rs = self.records + entries;
        SessionView {
            records: rs.push(
                RecordView::Node(
                    committed(
                        rs,
                        NodeView { parent: self.cursor(), usage, start: 0, blocks: Seq::empty() },
                    ),
                ),
            ),
            ..self
        }
    }

    /// The session with the title that a first message `content` gives it.
    pub open spec fn titled(self, content: Seq<char>) -> SessionView {
        if !self.filed && !has_node(self.records) {
            SessionView { header: HeaderView { title: headline(content, 60), ..self.header }, ..self }
        } else {
            self
        }
    }
}

/// Whether every record belongs to the node that follows.
pub open spec fn all_entries(rs: Seq<RecordView>) -> bool {
    forall|k: int| 0 <= k < rs.len() ==> (#[trigger] rs[k]).is_entry()
}

impl Session {
    /// The invariant of a session.
    pub open spec fn wf(&self) -> bool {
        &&& linked(self@.records)
        &&& 0 <= self@.saved <= self@.records.len()
        &&& self@.records.len() <= usize::MAX
    }

    /// A new session with an empty log. The id is one that no other session
    /// has; the instructions are those for `cwd`.
    pub fn new(id: String, cwd: String, instructions: String, model: Model) -> (r: Session)
        ensures
            r.wf(),
            r@.header == (HeaderView {
                version: 1,
                id: id@,
                title: Seq::empty(),
                cwd: cwd@,
                instructions: instructions@,
                model: model@,
            }),
            r@.records.len() == 0,
            !r@.filed,
            r@.saved == 0,
            r@.offset == 0,
    {
        let header = Header { version: 1, id, title: String::new(), cwd, instructions, model };
        Session { header, records: Vec::new(), filed: false, saved: 0, offset: 0 }
    }

    /// The header.
    pub fn header(&self) -> (r: &Header)
        ensures
            r@ == self@.header,
    {
        &self.header
    }

    /// The log.
    pub fn records(&self) -> (r: &Vec<Record>)
        ensures
            record_views(r@) == self@.records,
    {
        &self.records
    }

    /// The model in force.
    pub fn model(&self) -> (r: &Model)
        ensures
            r@ == model_of(self@.records, self@.header.model),
    {
        let ghost rs = self@.records;
        let mut i: usize = self.records.len();
        assert(rs.take(i as int) =~= rs);
        while i > 0
            invariant
                i <= rs.len(),
                rs == record_views(self.records@),
                rs == self@.records,
                model_of(rs, self@.header.model) == model_of(rs.take(i as int), self@.header.model),
            decreases i,
        {
            let record = &self.records[i - 1];
            proof {
                assert(rs.take(i as int).last() == record@);
                assert(rs.take(i as int).drop_last() =~= rs.take(i - 1));
            }
            if let Record::Model(model) = record {
                return model;
            }
            i -= 1;
        }
        &self.header.model
    }

    /// The node that new entries continue from.
    pub fn cursor(&self) -> (r: Option<usize>)
        requires
            self.wf(),
        ensures
            r == self@.cursor(),
            r matches Some(i) ==> node_at(self@.records, i as int),
    {
        let ghost rs = self@.records;
        let mut i: usize = self.records.len();
        proof {
            lemma_cursor(rs);
            assert(rs.take(i as int) =~= rs);
        }
        while i > 0
            invariant
                i <= rs.len(),
                rs == record_views(self.records@),
                rs == self@.records,
                self@.cursor() == cursor_of(rs.take(i as int)),
                self@.cursor() matches Some(i) ==> node_at(rs, i as int),
            decreases i,
        {
            let record = &self.records[i - 1];
            proof {
                assert(rs.take(i as int).last() == record@);
                assert(rs.take(i as int).drop_last() =~= rs.take(i - 1));
            }
            match record {
                Record::Node(_) => return Some(i - 1),
                Record::Cursor { node } => return *node,
                _ => (),
            }
            i -= 1;
        }
        None
    }

    /// The node at position `i`.
    pub fn node(&self, i: usize) -> (r: &Node)
        requires
            node_at(self@.records, i as int),
        ensures
            RecordView::Node(r@) == self@.records[i as int],
    {
        assert(self@.records[i as int] == self.records@[i as int]@);
        match &self.records[i] {
            Record::Node(node) => node,
            _ => {
                vstd::pervasive::unreached()
            },
        }
    }

    /// The nodes from the cursor up to the root.
    pub fn ancestors(&self) -> (r: Vec<usize>)
        requires
            self.wf(),
        ensures
            r@ == lineage(self@.records, self@.cursor()),
    {
        let ghost rs = self@.records;
        let mut out: Vec<usize> = Vec::new();
        let mut at = self.cursor();
        proof {
            assert(out@ + lineage(rs, at) =~= lineage(rs, at));
        }
        while at.is_some()
            invariant
                self.wf(),
                rs == self@.records,
                at matches Some(i) ==> node_at(rs, i as int),
                out@ + lineage(rs, at) == lineage(rs, self@.cursor()),
            decreases height(at),
        {
            let i: usize = at.unwrap();
            let node = self.node(i);
            proof {
                assert(linked_at(rs, i as int));
                assert(parent_of(rs, i) == node.parent);
                assert(out@ + (seq![i] + lineage(rs, node.parent)) =~= out@.push(i) + lineage(rs, node.parent));
            }
            out.push(i);
            at = node.parent;
        }
        assert(out@ + lineage(rs, at) =~= out@);
        out
    }

    /// The nodes from the root down to the cursor.
    pub fn path(&self) -> (r: Vec<usize>)
        requires
            self.wf(),
        ensures
            r@ == lineage(self@.records, self@.cursor()).reverse(),
    {
        let chain = self.ancestors();
        let mut out: Vec<usize> = Vec::new();
        let mut i: usize = chain.len();
        while i > 0
            invariant
                i <= chain@.len(),
                out@.len() == chain@.len() - i,
                forall|k: int| 0 <= k < out@.len() ==> out@[k] == chain@[chain@.len() - 1 - k],
            decreases i,
        {
            out.push(chain[i - 1]);
            i -= 1;
        }
        assert(out@ =~= chain@.reverse());
        out
    }

    /// What the model is sent: the conversation from the root to the cursor.
    pub fn input(&self) -> (r: Vec<Json>)
        requires
            self.wf(),
        ensures
            json::trees(r@) == conversation(self@.records, self@.cursor()),
    {
        let ghost rs = self@.records;
        let ghost at = self@.cursor();
        let chain = self.ancestors();
        let cursor = self.cursor();
        let mut out: Vec<Json> = Vec::new();
        let mut k: usize = chain.len();
        assert(json::trees(out@) =~= seq![]);
        while k > 0
            invariant
                self.wf(),
                rs == self@.records,
                rs == record_views(self.records@),
                at == self@.cursor(),
                at matches Some(i) ==> node_at(rs, i as int),
                chain@ == lineage(rs, at),
                k <= chain@.len(),
                json::trees(out@) == conversation(
                    rs,
                    if k < chain@.len() {
                        Some(chain@[k as int])
                    } else {
                        None
                    },
                ),
            decreases k,
        {
            let i = chain[k - 1];
            proof {
                lemma_lineage(rs, at, k - 1);
                assert(linked_at(rs, i as int));
                lemma_entries_start(rs.take(i as int));
            }
            let node = self.node(i);
            let mut j: usize = node.start;
            let ghost before = json::trees(out@);
            let ghost entries = entries_of(rs, i);
            assert(before + inputs_of(entries.take(0)) =~= before);
            while j < i
                invariant
                    node_at(rs, i as int),
                    rs == record_views(self.records@),
                    RecordView::Node(node@) == rs[i as int],
                    entries == entries_of(rs, i),
                    node.start <= j <= i,
                    json::trees(out@) == before + inputs_of(entries.take(j - node.start)),
                decreases i - j,
            {
                let record = &self.records[j];
                let ghost n = j - node.start;
                let ghost so_far = out@;
                proof {
                    assert(record@ == rs[j as int]);
                    assert(entries.take(n + 1).last() == record@);
                    assert(entries.take(n + 1).drop_last() =~= entries.take(n));
                }
                if let Some(v) = record.input() {
                    out.push(v);
                    proof {
                        assert(json::trees(out@) =~= json::trees(so_far).push(v@));
                        assert(json::trees(out@) =~= before + inputs_of(entries.take(n + 1)));
                    }
                }
                j += 1;
            }
            proof {
                assert(entries.take(j - node.start) =~= entries);
            }
            k -= 1;
        }
        proof {
            if chain@.len() > 0 {
                lemma_lineage(rs, at, 0);
            } else if at is Some {
                assert(lineage(rs, at).len() > 0);
            }
        }
        out
    }

    fn usages(&self) -> (r: Vec<Usage>)
        requires
            self.wf(),
        ensures
            r@ == usages(self@.records, self@.cursor()),
    {
        let ghost rs = self@.records;
        let mut out: Vec<Usage> = Vec::new();
        let mut at = self.cursor();
        assert(out@ + usages(rs, at) =~= usages(rs, at));
        while at.is_some()
            invariant
                self.wf(),
                rs == self@.records,
                at matches Some(i) ==> node_at(rs, i as int),
                out@ + usages(rs, at) == usages(rs, self@.cursor()),
            decreases height(at),
        {
            let i: usize = at.unwrap();
            let node = self.node(i);
            proof {
                assert(linked_at(rs, i as int));
                assert(parent_of(rs, i) == node.parent);
            }
            if let Some(u) = node.usage {
                proof {
                    assert(out@ + (seq![u] + usages(rs, node.parent)) =~= out@.push(u) + usages(rs, node.parent));
                }
                out.push(u);
            }
            at = node.parent;
        }
        assert(out@ + usages(rs, at) =~= out@);
        out
    }

    /// The usage of the newest response of the conversation.
    pub fn usage(&self) -> (r: Usage)
        requires
            self.wf(),
        ensures
            r == (if usages(self@.records, self@.cursor()).len() > 0 {
                usages(self@.records, self@.cursor())[0]
            } else {
                no_usage()
            }),
    {
        let us = self.usages();
        if us.len() > 0 {
            us[0]
        } else {
            Usage::default()
        }
    }

    /// The usage of the whole conversation.
    pub fn total_usage(&self) -> (r: Usage)
        requires
            self.wf(),
        ensures
            r == total(usages(self@.records, self@.cursor())),
    {
        let us = self.usages();
        let mut sums = Usage { input: 0, output: 0, cached: Some(0) };
        let mut k: usize = 0;
        while k < us.len()
            invariant
                k <= us@.len(),
                sums.input == capped(sum(us@.take(k as int), input_count())),
                sums.output == capped(sum(us@.take(k as int), output_count())),
                sums.cached is Some <==> forall|j: int| 0 <= j < k ==> (#[trigger] us@[j]).cached is Some,
                sums.cached matches Some(c) ==> c == capped(sum(us@.take(k as int), cached_count())),
            decreases us@.len() - k,
        {
            let u = us[k];
            proof {
                assert(us@.take(k + 1).drop_last() =~= us@.take(k as int));
                assert(us@.take(k + 1).last() == u);
            }
            sums.input = add_capped(sums.input, u.input);
            sums.output = add_capped(sums.output, u.output);
            let known = match (sums.cached, u.cached) {
                (Some(a), Some(b)) => Some(add_capped(a, b)),
                _ => None,
            };
            sums.cached = known;
            k += 1;
        }
        assert(us@.take(k as int) =~= us@);
        sums
    }

    /// The input tokens of the conversation that were not read from the cache.
    pub fn uncached_input(&self) -> (r: u64)
        requires
            self.wf(),
        ensures
            r == capped(sum(usages(self@.records, self@.cursor()), uncached_count())),
    {
        let us = self.usages();
        let mut count: u64 = 0;
        let mut k: usize = 0;
        while k < us.len()
            invariant
                k <= us@.len(),
                count == capped(sum(us@.take(k as int), uncached_count())),
            decreases us@.len() - k,
        {
            let u = us[k];
            proof {
                assert(us@.take(k + 1).drop_last() =~= us@.take(k as int));
                assert(us@.take(k + 1).last() == u);
            }
            let cached: u64 = u.cached.unwrap_or(0);
            let fresh: u64 = if u.input >= cached {
                u.input - cached
            } else {
                0
            };
            count = add_capped(count, fresh);
            k += 1;
        }
        assert(us@.take(k as int) =~= us@);
        count
    }

    /// The text of the newest block of kind `kind` in the conversation.
    pub fn last_text(&self, kind: Kind) -> (r: Option<String>)
        requires
            self.wf(),
        ensures
            option_view(r) == newest(self@.records, self@.cursor(), kind),
    {
        let ghost rs = self@.records;
        let mut at = self.cursor();
        while at.is_some()
            invariant
                self.wf(),
                rs == self@.records,
                at matches Some(i) ==> node_at(rs, i as int),
                newest(rs, at, kind) == newest(rs, self@.cursor(), kind),
            decreases height(at),
        {
            let i: usize = at.unwrap();
            let node = self.node(i);
            proof {
                assert(linked_at(rs, i as int));
                assert(parent_of(rs, i) == node.parent);
            }
            let ghost blocks = block_views(node.blocks@);
            let mut j: usize = node.blocks.len();
            assert(blocks.take(j as int) =~= blocks);
            while j > 0
                invariant
                    j <= node.blocks@.len(),
                    rs == self@.records,
                    blocks == block_views(node.blocks@),
                    RecordView::Node(node@) == rs[i as int],
                    newest(rs, Some(i), kind) == newest(rs, self@.cursor(), kind),
                    last_of(blocks, kind) == last_of(blocks.take(j as int), kind),
                decreases j,
            {
                let block = &node.blocks[j - 1];
                proof {
                    assert(blocks.take(j as int).last() == block@);
                    assert(blocks.take(j as int).drop_last() =~= blocks.take(j - 1));
                }
                if block.kind == kind {
                    return Some(block.text.clone());
                }
                j -= 1;
            }
            at = node.parent;
        }
        None
    }
}

fn attach_tool(blocks: &mut Vec<Block>, tool: &Tool)
    ensures
        block_views(final(blocks)@) == attach(block_views(old(blocks)@), tool@),
{
    let ghost all = block_views(blocks@);
    let mut i: usize = blocks.len();
    assert(all.take(i as int) =~= all);
    assert(attach(all, tool@) + all.skip(i as int) =~= attach(all, tool@));
    while i > 0
        invariant
            i <= blocks@.len(),
            blocks@ == old(blocks)@,
            all == block_views(blocks@),
            attach(all, tool@) == attach(all.take(i as int), tool@) + all.skip(i as int),
        decreases i,
    {
        let hit = match &blocks[i - 1].tool {
            Some(t) => text::same(&t.call_id, &tool.call_id),
            None => false,
        };
        let ghost head = all.take(i as int);
        proof {
            assert(head.last() == blocks@[i - 1]@);
            assert(head.drop_last() =~= all.take(i - 1));
        }
        if hit {
            let mut block = blocks[i - 1].clone();
            block.tool = Some(tool.clone());
            let ghost changed = BlockView { tool: Some(tool@), ..head.last() };
            assert(block@ == changed);
            blocks[i - 1] = block;
            proof {
                assert(block_views(blocks@) =~= all.update(i - 1, changed));
                assert(all.update(i - 1, changed) =~= all.take(i - 1).push(changed) + all.skip(i as int));
            }
            return;
        }
        proof {
            assert(attach(all.take(i - 1), tool@).push(head.last()) + all.skip(i as int) =~= attach(
                all.take(i - 1),
                tool@,
            ) + all.skip(i - 1));
        }
        i -= 1;
    }
    proof {
        assert(all.skip(0) =~= all);
        assert(attach(all.take(0), tool@) + all =~= all);
    }
}

fn show_entry(blocks: &mut Vec<Block>, entry: &Record)
    ensures
        block_views(final(blocks)@) == with_entry(block_views(old(blocks)@), entry@),
{
    match entry {
        Record::Item { item } => {
            if let Some(b) = Block::from_item(item, false) {
                blocks.push(b);
                assert(block_views(blocks@) =~= block_views(old(blocks)@).push(b@));
            }
        },
        Record::Attachment { label, path, .. } => {
            let mut shown = text::cat(label, ": ");
            shown.append(path);
            let b = Block::new(Kind::Notice, shown);
            blocks.push(b);
            assert(block_views(blocks@) =~= block_views(old(blocks)@).push(b@));
        },
        Record::Tool(tool) => attach_tool(blocks, tool),
        Record::Notice { text } => {
            let b = Block::new(Kind::Warning, text.clone());
            blocks.push(b);
            assert(block_views(blocks@) =~= block_views(old(blocks)@).push(b@));
        },
        _ => (),
    }
}

impl Session {
    /// Appends a record. Live changes and the replay of a file come this way.
    pub fn record(&mut self, record: Record) -> (r: Result<(), SessionError>)
        ensures
            match recorded(old(self)@.records, record@) {
                Ok(next) => r is Ok && final(self)@ == (SessionView { records: next, ..old(self)@ }),
                Err(e) => r == Err::<(), SessionError>(e) && final(self)@ == old(self)@,
            },
            old(self).wf() ==> final(self).wf(),
    {
        let ghost rs = self@.records;
        let ghost asked = record@;
        let n = self.records.len();
        proof {
            if old(self).wf() {
                law_recording_keeps_links(rs, record@);
            }
        }
        let is_node = match &record {
            Record::Node(_) => true,
            _ => false,
        };
        if !record.is_entry() && !is_node && n > 0 {
            assert(rs.last() == self.records@[n - 1]@);
            if self.records[n - 1].is_entry() {
                return Err(SessionError::Uncommitted);
            }
        }
        let stored = match record {
            Record::Node(node) => {
                let ghost given = node@;
                if let Some(p) = node.parent {
                    if !self.is_node(p) {
                        return Err(SessionError::Parent);
                    }
                }
                let mut start: usize = n;
                while start > 0 && self.records[start - 1].is_entry()
                    invariant
                        start <= n,
                        n == self.records@.len(),
                        rs == record_views(self.records@),
                        forall|k: int| start <= k < n ==> (#[trigger] rs[k]).is_entry(),
                    decreases start,
                {
                    assert(rs[start - 1] == self.records@[start - 1]@);
                    start -= 1;
                }
                proof {
                    if start > 0 {
                        assert(rs[start - 1] == self.records@[start - 1]@);
                    }
                    lemma_entries_start_is(rs, start as int);
                }
                let ghost entries = rs.skip(start as int);
                let mut blocks = node.blocks;
                let mut j: usize = start;
                assert(entries.take(0) =~= seq![]);
                while j < n
                    invariant
                        start <= j <= n,
                        n == self.records@.len(),
                        rs == record_views(self.records@),
                        entries == rs.skip(start as int),
                        block_views(blocks@) == with_entries(given.blocks, entries.take(j - start)),
                    decreases n - j,
                {
                    let entry = &self.records[j];
                    proof {
                        assert(entries.take(j - start + 1).last() == entry@);
                        assert(entries.take(j - start + 1).drop_last() =~= entries.take(j - start));
                    }
                    show_entry(&mut blocks, entry);
                    j += 1;
                }
                assert(entries.take(n - start) =~= entries);
                Record::Node(Node { parent: node.parent, usage: node.usage, start, blocks })
            },
            Record::Cursor { node } => {
                if let Some(p) = node {
                    if !self.is_node(p) {
                        return Err(SessionError::Cursor);
                    }
                }
                Record::Cursor { node }
            },
            other => other,
        };
        self.records.push(stored);
        proof {
            assert(self.records.len() == self.records@.len());
            assert(self@.records =~= rs.push(stored@));
            assert(recorded(rs, asked) == Ok::<Seq<RecordView>, SessionError>(rs.push(stored@)));
        }
        Ok(())
    }

    fn is_node(&self, i: usize) -> (r: bool)
        ensures
            r == node_at(self@.records, i as int),
    {
        if i < self.records.len() {
            assert(self@.records[i as int] == self.records@[i as int]@);
            match &self.records[i] {
                Record::Node(_) => true,
                _ => false,
            }
        } else {
            false
        }
    }

    fn any_node(&self) -> (r: bool)
        ensures
            r == has_node(self@.records),
    {
        let mut i: usize = 0;
        while i < self.records.len()
            invariant
                i <= self.records@.len(),
                self@.records == record_views(self.records@),
                forall|k: int| 0 <= k < i ==> !((#[trigger] self@.records[k]) is Node),
            decreases self.records@.len() - i,
        {
            if self.is_node(i) {
                assert(self@.records[i as int] is Node);
                return true;
            }
            i += 1;
        }
        false
    }

    /// Commits entries as a node below the cursor.
    pub fn push(&mut self, entries: Vec<Record>, usage: Option<Usage>)
        requires
            old(self).wf(),
            all_entries(record_views(entries@)),
        ensures
            final(self).wf(),
            final(self)@ == old(self)@.pushed(record_views(entries@), usage),
            rendered(old(self)@.records) ==> rendered(final(self)@.records),
    {
        let parent = self.cursor();
        let ghost rs = self@.records;
        let ghost added = record_views(entries@);
        let mut entries = entries;
        self.records.append(&mut entries);
        let ghost longer = rs + added;
        proof {
            assert(self.records.len() == self.records@.len());
            assert(self@.records =~= longer);
            lemma_entries_keep_links(rs, added);
            if rendered(rs) {
                lemma_entries_keep_rendering(rs, added);
                law_recording_keeps_rendering(
                    longer,
                    RecordView::Node(NodeView { parent, usage, start: 0, blocks: Seq::empty() }),
                );
            }
            if let Some(p) = parent {
                assert(node_at(longer, p as int));
            }
        }
        let node = Node { parent, usage, start: 0, blocks: Vec::new() };
        proof {
            assert(block_views(node.blocks@) =~= Seq::empty());
        }
        let _ = self.record(Record::Node(node));
    }

    /// Commits a message of the user with what is attached to it. The first
    /// one gives the session its title.
    pub fn user(&mut self, content: String, attachments: Vec<Record>)
        requires
            old(self).wf(),
            all_entries(record_views(attachments@)),
        ensures
            final(self).wf(),
            final(self)@ == old(self)@.titled(content@).pushed(
                seq![RecordView::Item(user_item(content@))] + record_views(attachments@),
                None,
            ),
            rendered(old(self)@.records) ==> rendered(final(self)@.records),
    {
        if !self.filed && !self.any_node() {
            self.header.title = first_line(&content, 60);
        }
        assert(self@ == old(self)@.titled(content@));
        let mut entries: Vec<Record> = Vec::new();
        entries.push(Record::Item { item: user_message(content) });
        let mut attachments = attachments;
        let ghost added = record_views(attachments@);
        entries.append(&mut attachments);
        proof {
            assert(record_views(entries@) =~= seq![RecordView::Item(user_item(content@))] + added);
        }
        self.push(entries, None);
    }
}

/// Entries alone never break a log.
pub proof fn lemma_entries_keep_links(rs: Seq<RecordView>, entries: Seq<RecordView>)
    requires
        linked(rs),
        all_entries(entries),
    ensures
        linked(rs + entries),
{
    let t = rs + entries;
    assert forall|i: int| 0 <= i < t.len() implies #[trigger] linked_at(t, i) by {
        if i < rs.len() {
            assert(linked_at(rs, i));
            assert(t.take(i) =~= rs.take(i));
        } else {
            assert(t[i] == entries[i - rs.len()]);
        }
    }
}

/// What is to be written to the session's file.
#[derive(Clone, Copy, PartialEq, Eq, Structural, Debug)]
pub struct Unsaved {
    /// The file is to be created first.
    pub create: bool,
    /// The header is to be written before the records.
    pub header: bool,
    /// The first record to be written.
    pub from: usize,
    /// Where in the file to write; what lies behind is cut off.
    pub offset: u64,
}

/// The file name of a session's log.
pub fn file_name(id: &str) -> (r: String)
    ensures
        r@ == id@ + ".jsonl"@,
{
    text::cat(id, ".jsonl")
}

impl SessionView {
    /// What is to be written, from the last synced boundary on; `None` where
    /// the file is up to date or nothing has been committed yet.
    pub open spec fn unsaved(self) -> Option<Unsaved> {
        if self.saved == self.records.len() || !has_node(self.records) {
            None
        } else {
            Some(
                Unsaved {
                    create: !self.filed,
                    header: self.offset == 0,
                    from: self.saved as usize,
                    offset: self.offset,
                },
            )
        }
    }

    /// The session with everything written and synced to a file that is `offset`
    /// bytes long.
    pub open spec fn synced(self, offset: u64) -> SessionView {
        SessionView { saved: self.records.len() as int, offset, ..self }
    }
}

impl Session {
    /// What is to be written, from the last synced boundary on; `None` where
    /// the file is up to date or nothing has been committed yet.
    pub fn unsaved(&self) -> (r: Option<Unsaved>)
        requires
            self.wf(),
        ensures
            r == self@.unsaved(),
    {
        if self.saved == self.records.len() || !self.any_node() {
            None
        } else {
            Some(
                Unsaved {
                    create: !self.filed,
                    header: self.offset == 0,
                    from: self.saved,
                    offset: self.offset,
                },
            )
        }
    }

    /// How long the file is, up to the last synced boundary. What lies behind
    /// it in the file was not finished.
    pub fn offset(&self) -> (r: u64)
        ensures
            r == self@.offset,
    {
        self.offset
    }

    /// The file was created.
    pub fn created(&mut self)
        ensures
            final(self)@ == (SessionView { filed: true, ..old(self)@ }),
            old(self).wf() ==> final(self).wf(),
    {
        self.filed = true;
    }

    /// Everything was written and synced; the file is `offset` bytes long.
    pub fn synced(&mut self, offset: u64)
        requires
            old(self).wf(),
        ensures
            final(self)@ == old(self)@.synced(offset),
            final(self).wf(),
    {
        self.saved = self.records.len();
        self.offset = offset;
    }
}

/// The log that comes of recording `lines` one after the other.
pub open spec fn replay(lines: Seq<RecordView>) -> Result<Seq<RecordView>, SessionError>
    decreases lines.len(),
{
    if lines.len() == 0 {
        Ok(Seq::empty())
    } else {
        match replay(lines.drop_last()) {
            Ok(rs) => recorded(rs, lines.last()),
            Err(e) => Err(e),
        }
    }
}

/// Whether a file named `stem` may begin with this header.
pub open spec fn header_valid(header: HeaderView, stem: Option<Seq<char>>) -> bool {
    &&& header.version == 1
    &&& stem == Some(header.id)
    &&& header.id.len() > 0
    &&& forall|k: int| 0 <= k < header.id.len() ==> text::is_digit(#[trigger] header.id[k]) || header.id[k] == '-'
}

/// Replaying lengthens the log by one record per line, keeps its invariant,
/// and keeps which records are entries.
pub proof fn lemma_replay(lines: Seq<RecordView>)
    requires
        replay(lines) is Ok,
    ensures
        replay(lines)->Ok_0.len() == lines.len(),
        linked(replay(lines)->Ok_0),
        forall|k: int|
            0 <= k < lines.len() ==> (#[trigger] replay(lines)->Ok_0[k]).is_entry() == lines[k].is_entry(),
        entries_start(replay(lines)->Ok_0) == entries_start(lines),
    decreases lines.len(),
{
    if lines.len() > 0 {
        let shorter = lines.drop_last();
        lemma_replay(shorter);
        let before = replay(shorter)->Ok_0;
        law_recording_keeps_links(before, lines.last());
        let rs = replay(lines)->Ok_0;
        assert forall|k: int| 0 <= k < lines.len() implies (#[trigger] rs[k]).is_entry() == lines[k].is_entry() by {
            if k < shorter.len() {
                assert(rs[k] == before[k]);
                assert(shorter[k] == lines[k]);
            }
        }
    }
    let rs = replay(lines)->Ok_0;
    lemma_entries_start(lines);
    let n = entries_start(lines);
    assert forall|k: int| n <= k < rs.len() implies (#[trigger] rs[k]).is_entry() by {
        assert(lines[k].is_entry());
    }
    if n > 0 {
        assert(!rs[n - 1].is_entry());
    }
    lemma_entries_start_is(rs, n);
}

pub proof fn lemma_replay_prefix(lines: Seq<RecordView>, n: int)
    requires
        replay(lines) is Ok,
        0 <= n <= lines.len(),
    ensures
        replay(lines.take(n)) == Ok::<Seq<RecordView>, SessionError>(replay(lines)->Ok_0.take(n)),
    decreases lines.len(),
{
    lemma_replay(lines);
    if n == lines.len() {
        assert(lines.take(n) =~= lines);
        assert(replay(lines)->Ok_0.take(n) =~= replay(lines)->Ok_0);
    } else {
        let shorter = lines.drop_last();
        lemma_replay(shorter);
        lemma_replay_prefix(shorter, n);
        assert(shorter.take(n) =~= lines.take(n));
        assert(replay(shorter)->Ok_0.take(n) =~= replay(lines)->Ok_0.take(n));
    }
}

/// Where the line at `k` ends, with the header alone before the first.
pub open spec fn end_of(header_len: u64, ends: Seq<u64>, k: int) -> u64 {
    if k == 0 {
        header_len
    } else {
        ends[k - 1]
    }
}

impl Session {
    /// The session that a file named `stem` holds: its header, `header_len`
    /// bytes long, and for each complete line behind it the record and where
    /// the line ends. Entries that no node commits are dropped.
    pub fn load(stem: Option<&str>, header: Header, header_len: u64, lines: Vec<(Record, u64)>) -> (r: Result<
        Session,
        SessionError,
    >)
        ensures
            ({
                let stem = match stem {
                    Some(s) => Some(s@),
                    None => None,
                };
                let rs = lines@.map_values(|l: (Record, u64)| l.0@);
                let ends = lines@.map_values(|l: (Record, u64)| l.1);
                let kept = entries_start(rs);
                match (header_valid(header@, stem), replay(rs)) {
                    (false, _) => r == Err::<Session, SessionError>(SessionError::Header),
                    (true, Err(e)) => r == Err::<Session, SessionError>(e),
                    (true, Ok(all)) => {
                        &&& r is Ok
                        &&& r->Ok_0.wf()
                        &&& r->Ok_0@ == (SessionView {
                            header: header@,
                            records: all.take(kept),
                            filed: true,
                            saved: kept,
                            offset: end_of(header_len, ends, kept),
                        })
                    },
                }
            }),
    {
        let named = match stem {
            Some(s) => text::same(s, &header.id),
            None => false,
        };
        let id = text::chars(&header.id);
        let mut plain_id = true;
        let mut i: usize = 0;
        while i < id.len()
            invariant
                i <= id@.len(),
                plain_id <==> forall|k: int|
                    0 <= k < i ==> text::is_digit(#[trigger] id@[k]) || id@[k] == '-',
            decreases id@.len() - i,
        {
            if !(text::digit(id[i]) || id[i] == '-') {
                plain_id = false;
            }
            i += 1;
        }
        if header.version != 1 || !named || id.len() == 0 || !plain_id {
            return Err(SessionError::Header);
        }
        let ghost rs = lines@.map_values(|l: (Record, u64)| l.0@);
        let ghost ends = lines@.map_values(|l: (Record, u64)| l.1);
        let mut session = Session { header, records: Vec::new(), filed: true, saved: 0, offset: header_len };
        assert(session@.records =~= Seq::empty());
        assert(rs.take(0) =~= seq![]);
        for line in it: lines
            invariant
                it.seq() == lines@,
                rs == lines@.map_values(|l: (Record, u64)| l.0@),
                ends == lines@.map_values(|l: (Record, u64)| l.1),
                0 <= it.index() <= rs.len(),
                replay(rs.take(it.index())) == Ok::<Seq<RecordView>, SessionError>(session@.records),
                session@.header == header@,
                session@.filed,
                session@.saved == entries_start(rs.take(it.index())),
                session@.offset == end_of(header_len, ends, session@.saved),
                header_valid(header@, match stem {
                    Some(s) => Some(s@),
                    None => None,
                }),
        {
            let ghost k = it.index();
            let (record, end) = line;
            let committed = !record.is_entry();
            proof {
                assert(rs[k] == record@);
                assert(ends[k] == end);
                assert(rs.take(k + 1).drop_last() =~= rs.take(k));
                assert(rs.take(k + 1).last() == record@);
                lemma_replay(rs.take(k));
            }
            match session.record(record) {
                Ok(()) => (),
                Err(e) => {
                    proof {
                        lemma_replay_error(rs, k + 1);
                    }
                    return Err(e);
                },
            }
            if committed {
                session.saved = session.records.len();
                session.offset = end;
            }
            proof {
                lemma_replay(rs.take(k + 1));
                assert(session@.records.len() == k + 1);
            }
        }
        let kept = session.saved;
        proof {
            assert(rs.take(rs.len() as int) =~= rs);
            lemma_replay(rs);
            lemma_entries_start(rs);
            lemma_linked_prefix(session@.records, kept as int);
        }
        let ghost all = session@.records;
        session.records.truncate(kept);
        proof {
            assert(session.records.len() == session.records@.len());
            assert(session@.records =~= all.take(kept as int));
        }
        Ok(session)
    }
}

pub proof fn lemma_replay_error(lines: Seq<RecordView>, n: int)
    requires
        0 <= n <= lines.len(),
        replay(lines.take(n)) is Err,
    ensures
        replay(lines) == replay(lines.take(n)),
    decreases lines.len(),
{
    if n == lines.len() {
        assert(lines.take(n) =~= lines);
    } else {
        let shorter = lines.drop_last();
        assert(shorter.take(n) =~= lines.take(n));
        lemma_replay_error(shorter, n);
    }
}

/// What a log writes down.
pub open spec fn bare(rs: Seq<RecordView>) -> Seq<RecordView> {
    rs.map_values(|r: RecordView| r.bare())
}

/// A log read back from what it wrote down is the log itself: live changes
/// and replay come to the same.
pub proof fn law_replay_restores_the_log(rs: Seq<RecordView>)
    requires
        linked(rs),
        rendered(rs),
    ensures
        replay(bare(rs)) == Ok::<Seq<RecordView>, SessionError>(rs),
    decreases rs.len(),
{
    if rs.len() == 0 {
        assert(rs =~= Seq::empty());
    } else {
        let n = rs.len() - 1;
        let p = rs.drop_last();
        let r = rs.last();
        assert(p =~= rs.take(n));
        lemma_linked_prefix(rs, n);
        assert forall|i: int| 0 <= i < p.len() implies (#[trigger] p[i] matches RecordView::Node(node) ==> node.blocks
            == with_entries(Seq::empty(), p.take(i).skip(node.start))) by {
            assert(rs[i] == p[i]);
            assert(p.take(i) =~= rs.take(i));
        }
        law_replay_restores_the_log(p);
        assert(bare(rs).drop_last() =~= bare(p));
        assert(bare(rs).last() == r.bare());
        assert(linked_at(rs, n));
        assert(rs[n] == r);
        if n > 0 {
            assert(p.last() == rs[n - 1]);
        }
        assert(p.push(r) =~= rs);
    }
}

/// A log stays rendered when a record read from disk is added.
pub proof fn law_recording_keeps_rendering(rs: Seq<RecordView>, record: RecordView)
    requires
        rendered(rs),
        record matches RecordView::Node(node) ==> node.blocks.len() == 0,
    ensures
        recorded(rs, record) matches Ok(next) ==> rendered(next),
{
    if let Ok(next) = recorded(rs, record) {
        let r = next.last();
        assert(next =~= rs.push(r));
        assert forall|i: int| 0 <= i < next.len() implies (#[trigger] next[i] matches RecordView::Node(node)
            ==> node.blocks == with_entries(Seq::empty(), next.take(i).skip(node.start))) by {
            assert(next.take(i) =~= rs.take(i) || i == rs.len());
            if i < rs.len() {
                assert(next[i] == rs[i]);
            } else {
                assert(next.take(i) =~= rs);
                if let RecordView::Node(node) = record {
                    assert(node.blocks =~= Seq::empty());
                }
            }
        }
    }
}

/// Whether nodes are as they stand on disk, without blocks.
pub open spec fn unrendered(lines: Seq<RecordView>) -> bool {
    forall|k: int|
        0 <= k < lines.len() ==> (#[trigger] lines[k] matches RecordView::Node(node) ==> node.blocks.len() == 0)
}

/// A log that is read from disk is rendered as it is read, and so is any
/// beginning of it.
pub proof fn law_read_logs_are_rendered(lines: Seq<RecordView>, n: int)
    requires
        unrendered(lines),
        replay(lines) is Ok,
        0 <= n <= lines.len(),
    ensures
        rendered(replay(lines)->Ok_0),
        rendered(replay(lines)->Ok_0.take(n)),
    decreases lines.len(),
{
    lemma_replay(lines);
    let all = replay(lines)->Ok_0;
    if lines.len() > 0 {
        let start = lines.drop_last();
        assert forall|k: int| 0 <= k < start.len() implies (#[trigger] start[k] matches RecordView::Node(node)
            ==> node.blocks.len() == 0) by {
            assert(start[k] == lines[k]);
        }
        law_read_logs_are_rendered(start, 0);
        assert(lines.last() == lines[lines.len() - 1]);
        law_recording_keeps_rendering(replay(start)->Ok_0, lines.last());
    }
    let part = all.take(n);
    assert forall|i: int| 0 <= i < part.len() implies (#[trigger] part[i] matches RecordView::Node(node)
        ==> node.blocks == with_entries(Seq::empty(), part.take(i).skip(node.start))) by {
        assert(part[i] == all[i]);
        assert(part.take(i) =~= all.take(i));
    }
}

/// Only an unfinished tail is lost: entries behind the last committed record
/// change nothing of what is read.
pub proof fn law_unfinished_tail_is_dropped(lines: Seq<RecordView>, tail: Seq<RecordView>)
    requires
        replay(lines) is Ok,
        all_entries(tail),
    ensures
        entries_start(lines + tail) == entries_start(lines),
        replay(lines + tail) is Ok,
        replay(lines + tail)->Ok_0.take(entries_start(lines)) == replay(lines)->Ok_0.take(entries_start(lines)),
    decreases tail.len(),
{
    if tail.len() == 0 {
        assert(lines + tail =~= lines);
    } else {
        let shorter = tail.drop_last();
        law_unfinished_tail_is_dropped(lines, shorter);
        assert((lines + tail).drop_last() =~= lines + shorter);
        assert((lines + tail).last() == tail.last());
        lemma_replay(lines);
        lemma_replay(lines + shorter);
        lemma_entries_start(lines);
        let n = entries_start(lines);
        assert(replay(lines + tail)->Ok_0.take(n) =~= replay(lines + shorter)->Ok_0.take(n));
    }
}

/// Entries alone leave the blocks of the nodes as they are.
pub proof fn lemma_entries_keep_rendering(rs: Seq<RecordView>, entries: Seq<RecordView>)
    requires
        rendered(rs),
        all_entries(entries),
    ensures
        rendered(rs + entries),
{
    let t = rs + entries;
    assert forall|i: int| 0 <= i < t.len() implies (#[trigger] t[i] matches RecordView::Node(node) ==> node.blocks
        == with_entries(Seq::empty(), t.take(i).skip(node.start))) by {
        if i < rs.len() {
            assert(t[i] == rs[i]);
            assert(t.take(i) =~= rs.take(i));
        } else {
            assert(t[i] == entries[i - rs.len()]);
        }
    }
}

/// What a session has committed is what its file gives back: reading the lines
/// that the log writes down yields the log, up to entries that no node commits.
pub proof fn law_committed_records_survive(rs: Seq<RecordView>)
    requires
        linked(rs),
        rendered(rs),
    ensures
        replay(bare(rs)) is Ok,
        entries_start(bare(rs)) == entries_start(rs),
        replay(bare(rs))->Ok_0.take(entries_start(bare(rs))) == rs.take(entries_start(rs)),
{
    law_replay_restores_the_log(rs);
    lemma_replay(bare(rs));
}

/// The id of a session that is begun now, in the process `pid`.
pub fn unique_id(nanos: u128, pid: u32) -> (r: String)
    ensures
        r@ == text::decimal(nanos as nat) + "-"@ + text::decimal(pid as nat),
{
    let mut out = text::string(&text::number(nanos));
    out.append("-");
    out.append(&text::digits(pid as u64));
    out
}

/// A file that may be a session: when it was last changed, and the header on
/// its first line if that is complete and readable.
#[derive(Debug)]
pub struct Found {
    pub path: String,
    pub modified: Option<u128>,
    pub header: Option<Header>,
}

/// The model of [`Found`].
pub struct FoundView {
    pub path: Seq<char>,
    pub modified: Option<u128>,
    pub header: Option<HeaderView>,
}

impl View for Found {
    type V = FoundView;

    open spec fn view(&self) -> FoundView {
        FoundView {
            path: self.path@,
            modified: self.modified,
            header: match self.header {
                Some(h) => Some(h@),
                None => None,
            },
        }
    }
}

/// What each file says.
pub open spec fn found_views(files: Seq<Found>) -> Seq<FoundView> {
    files.map_values(|f: Found| f@)
}

/// Whether a change at `a` is later than one at `b`; an unknown time is the
/// earliest.
pub open spec fn later(a: Option<u128>, b: Option<u128>) -> bool {
    match (a, b) {
        (Some(x), Some(y)) => x > y,
        (Some(_), None) => true,
        _ => false,
    }
}

/// `sorted` with `file` behind all that are no older.
pub open spec fn placed(sorted: Seq<FoundView>, file: FoundView) -> Seq<FoundView>
    decreases sorted.len(),
{
    if sorted.len() > 0 && later(file.modified, sorted.last().modified) {
        placed(sorted.drop_last(), file).push(sorted.last())
    } else {
        sorted.push(file)
    }
}

/// The files, the last changed first; files changed at one time keep their
/// order.
pub open spec fn newest_first(files: Seq<FoundView>) -> Seq<FoundView>
    decreases files.len(),
{
    if files.len() == 0 {
        files
    } else {
        placed(newest_first(files.drop_last()), files.last())
    }
}

/// What the list of sessions says of a header; nothing of another version.
pub open spec fn session_label(header: Option<HeaderView>) -> Option<Seq<char>> {
    match header {
        Some(h) => if h.version == 1 {
            Some(h.id + "  "@ + h.title + "  ["@ + h.cwd + "]"@)
        } else {
            None
        },
        None => None,
    }
}

/// The sessions among the files, in their order.
pub open spec fn session_list(files: Seq<FoundView>) -> Seq<(Seq<char>, Seq<char>)>
    decreases files.len(),
{
    if files.len() == 0 {
        seq![]
    } else {
        match session_label(files.last().header) {
            Some(label) => session_list(files.drop_last()).push((files.last().path, label)),
            None => session_list(files.drop_last()),
        }
    }
}

/// What each line of the list says.
pub open spec fn pair_views(out: Seq<(String, String)>) -> Seq<(Seq<char>, Seq<char>)> {
    out.map_values(|p: (String, String)| (p.0@, p.1@))
}

fn place(sorted: &mut Vec<Found>, file: Found)
    ensures
        found_views(final(sorted)@) == placed(found_views(old(sorted)@), file@),
{
    let ghost all = found_views(sorted@);
    let mut i: usize = sorted.len();
    let mut ahead = true;
    assert(all.take(i as int) =~= all);
    assert(placed(all, file@) + all.skip(i as int) =~= placed(all, file@));
    while i > 0 && ahead
        invariant
            i <= sorted@.len(),
            sorted@ == old(sorted)@,
            all == found_views(sorted@),
            placed(all, file@) == placed(all.take(i as int), file@) + all.skip(i as int),
            !ahead ==> i > 0 && !later(file.modified, all[i - 1].modified),
        decreases i, (if ahead { 1int } else { 0int }),
    {
        let other = sorted[i - 1].modified;
        let ghost head = all.take(i as int);
        proof {
            assert(head.last() == sorted@[i - 1]@);
            assert(head.drop_last() =~= all.take(i - 1));
        }
        ahead = match (file.modified, other) {
            (Some(x), Some(y)) => x > y,
            (Some(_), None) => true,
            _ => false,
        };
        if ahead {
            proof {
                assert(placed(all.take(i - 1), file@).push(head.last()) + all.skip(i as int) =~= placed(
                    all.take(i - 1),
                    file@,
                ) + all.skip(i - 1));
            }
            i -= 1;
        }
    }
    proof {
        let head = all.take(i as int);
        if i > 0 {
            assert(head.last() == all[i - 1]);
        }
        assert(placed(head, file@) == head.push(file@));
    }
    sorted.insert(i, file);
    proof {
        assert(found_views(sorted@) =~= all.take(i as int).push(file@) + all.skip(i as int));
    }
}

/// The sessions among the files found, each with its label, the last changed
/// first.
pub fn sessions(files: Vec<Found>) -> (r: Vec<(String, String)>)
    ensures
        pair_views(r@) == session_list(newest_first(found_views(files@))),
{
    let ghost all = found_views(files@);
    let mut sorted: Vec<Found> = Vec::new();
    assert(found_views(sorted@) =~= newest_first(all.take(0)));
    for file in it: files
        invariant
            it.seq() == files@,
            all == found_views(files@),
            found_views(sorted@) == newest_first(all.take(it.index())),
    {
        let ghost k = it.index();
        assert(all[k] == file@);
        assert(all.take(k + 1).drop_last() =~= all.take(k));
        assert(all.take(k + 1).last() == file@);
        place(&mut sorted, file);
    }
    assert(all.take(all.len() as int) =~= all);
    let ghost order = found_views(sorted@);
    let mut out: Vec<(String, String)> = Vec::new();
    assert(pair_views(out@) =~= session_list(order.take(0)));
    let mut i: usize = 0;
    while i < sorted.len()
        invariant
            i <= sorted@.len(),
            order == found_views(sorted@),
            pair_views(out@) == session_list(order.take(i as int)),
        decreases sorted@.len() - i,
    {
        let file = &sorted[i];
        let ghost before = out@;
        proof {
            assert(order.take(i + 1).drop_last() =~= order.take(i as int));
            assert(order.take(i + 1).last() == file@);
        }
        if let Some(h) = &file.header {
            if h.version == 1 {
                let mut label = text::cat(&h.id, "  ");
                label.append(&h.title);
                label.append("  [");
                label.append(&h.cwd);
                label.append("]");
                out.push((file.path.clone(), label));
                assert(pair_views(out@) =~= pair_views(before).push((file.path@, label@)));
            }
        }
        i += 1;
    }
    assert(order.take(i as int) =~= order);
    out
}

/// Whether a file of this name is the log of a session.
pub fn is_log(name: &str) -> (r: bool)
    ensures
        r == (name@.len() > 6 && name@.skip(name@.len() - 6) == ".jsonl"@),
{
    let name = text::chars(name);
    let suffix = text::chars(".jsonl");
    proof {
        reveal_strlit(".jsonl");
    }
    if name.len() <= 6 {
        return false;
    }
    let tail = text::slice(&name, name.len() - 6, name.len());
    proof {
        assert(tail@ =~= name@.skip(name@.len() - 6));
    }
    text::same(&text::string(&tail), &text::string(&suffix))
}

/// The lines of a file that end with a line feed, with the line feed, and where
/// each of them ends.
pub open spec fn complete_lines(bytes: Seq<u8>, offset: int) -> Seq<(Seq<u8>, int)>
    decreases bytes.len(),
{
    let n = line_end(bytes);
    if n < 0 || n >= bytes.len() {
        seq![]
    } else {
        seq![(bytes.take(n + 1), offset + n + 1)] + complete_lines(bytes.skip(n + 1), offset + n + 1)
    }
}

/// Lines with where they end.
pub open spec fn line_pairs(lines: Seq<(Vec<u8>, u64)>) -> Seq<(Seq<u8>, int)> {
    lines.map_values(|l: (Vec<u8>, u64)| (l.0@, l.1 as int))
}

/// The lines of a file that end with a line feed, and where each of them ends.
/// What stands behind the last one was not finished.
pub fn read_lines(bytes: &[u8]) -> (r: Vec<(Vec<u8>, u64)>)
    ensures
        line_pairs(r@) == complete_lines(bytes@, 0),
{
    let mut out: Vec<(Vec<u8>, u64)> = Vec::new();
    let mut start: usize = 0;
    let mut i: usize = 0;
    let len: usize = bytes.len();
    proof {
        assert(bytes@.skip(0) =~= bytes@);
        assert(line_pairs(out@) + complete_lines(bytes@, 0) =~= complete_lines(bytes@, 0));
    }
    while i < len
        invariant
            start <= i <= len,
            len == bytes@.len(),
            forall|k: int| start <= k < i ==> #[trigger] bytes@[k] != 10,
            line_pairs(out@) + complete_lines(bytes@.skip(start as int), start as int) == complete_lines(bytes@, 0),
        decreases len - i,
    {
        if bytes[i] == 10 {
            let ghost done = line_pairs(out@);
            let ghost rest = bytes@.skip(start as int);
            let line = vstd::slice::slice_to_vec(vstd::slice::slice_subrange(bytes, start, i + 1));
            proof {
                crate::sse::lemma_line_end_is(rest, i - start);
                assert(rest.take(i - start + 1) =~= line@);
                assert(rest.skip(i - start + 1) =~= bytes@.skip(i + 1));
            }
            out.push((line, (i + 1) as u64));
            start = i + 1;
            proof {
                let next = complete_lines(bytes@.skip(start as int), start as int);
                assert(line_pairs(out@) =~= done.push((line@, start as int)));
                assert(line_pairs(out@) + next =~= done + (seq![(line@, start as int)] + next));
            }
        }
        i += 1;
    }
    proof {
        let rest = bytes@.skip(start as int);
        crate::sse::lemma_line_end_is(rest, rest.len() as int);
        assert(line_pairs(out@) + seq![] =~= line_pairs(out@));
    }
    out
}

/// The header of a session file, and the lines behind it.
#[derive(Debug)]
pub struct Contents {
    pub header: Vec<u8>,
    pub header_len: u64,
    pub lines: Vec<(Vec<u8>, u64)>,
}

/// Takes a session file apart. A file whose first line was not finished holds
/// no session.
pub fn contents(bytes: &[u8]) -> (r: Result<Contents, SessionError>)
    ensures
        ({
            let all = complete_lines(bytes@, 0);
            if all.len() == 0 {
                r == Err::<Contents, SessionError>(SessionError::Incomplete)
            } else {
                &&& r is Ok
                &&& r->Ok_0.header@ == all[0].0
                &&& r->Ok_0.header_len == all[0].1
                &&& line_pairs(r->Ok_0.lines@) == all.skip(1)
            }
        }),
{
    let mut lines = read_lines(bytes);
    let ghost all = line_pairs(lines@);
    if lines.len() == 0 {
        return Err(SessionError::Incomplete);
    }
    let (header, header_len) = lines.remove(0);
    proof {
        assert(all[0] == (header@, header_len as int));
        assert(line_pairs(lines@) =~= all.skip(1));
    }
    Ok(Contents { header, header_len, lines })
}

/// Lines, one behind the other.
pub open spec fn file_of(lines: Seq<Seq<u8>>) -> Seq<u8>
    decreases lines.len(),
{
    if lines.len() == 0 {
        seq![]
    } else {
        lines[0] + file_of(lines.drop_first())
    }
}

/// Whether a line ends with its one line feed.
pub open spec fn is_line(line: Seq<u8>) -> bool {
    line.len() > 0 && line.last() == 10 && forall|k: int| 0 <= k < line.len() - 1 ==> #[trigger] line[k] != 10
}

/// What is written line by line is read back line by line, whatever unfinished
/// piece of a line stands behind it.
pub proof fn law_written_lines_are_read_back(lines: Seq<Seq<u8>>, tail: Seq<u8>, offset: int)
    requires
        forall|k: int| 0 <= k < lines.len() ==> is_line(#[trigger] lines[k]),
        !tail.contains(10),
    ensures
        complete_lines(file_of(lines) + tail, offset).map_values(|l: (Seq<u8>, int)| l.0) == lines,
        complete_lines(file_of(lines) + tail, offset).len() > 0 ==> complete_lines(
            file_of(lines) + tail,
            offset,
        ).last().1 == offset + file_of(lines).len(),
    decreases lines.len(),
{
    let bytes = file_of(lines) + tail;
    if lines.len() == 0 {
        assert(bytes =~= tail);
        assert forall|k: int| 0 <= k < tail.len() implies #[trigger] tail[k] != 10 by {
            if tail[k] == 10 {
                assert(tail.contains(10));
            }
        }
        crate::sse::lemma_line_end_is(tail, tail.len() as int);
        assert(complete_lines(bytes, offset).map_values(|l: (Seq<u8>, int)| l.0) =~= lines);
    } else {
        let first = lines[0];
        let rest = lines.drop_first();
        assert(is_line(first));
        let n = first.len() - 1;
        assert forall|k: int| 0 <= k < n implies #[trigger] bytes[k] != 10 by {
            assert(bytes[k] == first[k]);
        }
        assert(bytes[n] == first[n]);
        crate::sse::lemma_line_end_is(bytes, n);
        assert(bytes.take(n + 1) =~= first);
        assert(bytes.skip(n + 1) =~= file_of(rest) + tail);
        assert forall|k: int| 0 <= k < rest.len() implies is_line(#[trigger] rest[k]) by {
            assert(rest[k] == lines[k + 1]);
        }
        law_written_lines_are_read_back(rest, tail, offset + n + 1);
        let more = complete_lines(file_of(rest) + tail, offset + n + 1);
        let all = complete_lines(bytes, offset);
        assert(all == seq![(first, offset + n + 1)] + more);
        let f = |l: (Seq<u8>, int)| l.0;
        assert(all.map_values(f) =~= seq![first] + more.map_values(f));
        assert(seq![first] + rest =~= lines);
        if more.len() > 0 {
            assert(all.last() == more.last());
        } else {
            assert(rest.len() == more.map_values(f).len());
            assert(file_of(rest) =~= seq![]);
        }
    }
}

/// What a line of a session's file says.
pub enum LineView {
    Header(HeaderView),
    Record(RecordView),
}

/// What the lines of a log say.
pub open spec fn logged(rs: Seq<RecordView>) -> Seq<LineView> {
    rs.map_values(|r: RecordView| LineView::Record(r.bare()))
}

impl SessionView {
    /// What the file of the session is to say: the header, and then the log.
    pub open spec fn lines(self) -> Seq<LineView> {
        seq![LineView::Header(self.header)] + logged(self.records)
    }

    /// What the file says up to the last synced boundary.
    pub open spec fn held(self) -> Seq<LineView> {
        if self.offset == 0 {
            seq![]
        } else {
            self.lines().take(1 + self.saved)
        }
    }

    /// What is to be written.
    pub open spec fn missing(self) -> Seq<LineView> {
        match self.unsaved() {
            None => seq![],
            Some(u) => if u.header {
                seq![LineView::Header(self.header)] + logged(self.records).skip(u.from as int)
            } else {
                logged(self.records).skip(u.from as int)
            },
        }
    }
}

/// Whether `lines` are lines and say `said`, as `reads` reads them.
pub open spec fn tells(
    lines: Seq<Seq<u8>>,
    reads: spec_fn(Seq<u8>) -> Option<LineView>,
    said: Seq<LineView>,
) -> bool {
    &&& lines.len() == said.len()
    &&& forall|k: int| 0 <= k < lines.len() ==> is_line(#[trigger] lines[k]) && reads(lines[k]) == Some(said[k])
}

/// Whether `file` begins with the lines `held`, and these are what the session
/// has synced. What lies behind them is what a failed append has left.
pub open spec fn filed_in(
    session: SessionView,
    file: Seq<u8>,
    held: Seq<Seq<u8>>,
    reads: spec_fn(Seq<u8>) -> Option<LineView>,
) -> bool {
    &&& 0 <= session.saved <= session.records.len()
    &&& session.offset == 0 ==> session.saved == 0
    &&& !session.filed ==> session.offset == 0
    &&& file_of(held).is_prefix_of(file)
    &&& file_of(held).len() == session.offset
    &&& tells(held, reads, session.held())
}

/// What a file holds once the lines `written` were written to it as the session
/// asks.
pub open spec fn after_saving(file: Seq<u8>, session: SessionView, written: Seq<Seq<u8>>) -> Seq<u8> {
    match session.unsaved() {
        None => file,
        Some(u) => file.take(u.offset as int) + file_of(written),
    }
}

proof fn lemma_file_of(lines: Seq<Seq<u8>>, more: Seq<Seq<u8>>)
    ensures
        file_of(lines + more) == file_of(lines) + file_of(more),
    decreases lines.len(),
{
    if lines.len() == 0 {
        assert(lines + more =~= more);
        assert(file_of(lines) + file_of(more) =~= file_of(more));
    } else {
        lemma_file_of(lines.drop_first(), more);
        assert((lines + more).drop_first() =~= lines.drop_first() + more);
        assert(file_of(lines + more) =~= file_of(lines) + file_of(more));
    }
}

/// Saving never duplicates anything and leaves nothing over: whatever a failed
/// append has left behind the last synced boundary, the file then holds the
/// header, first and once, and each record of the log once and in order, and
/// not a byte more. Reading it gives the lines and the log back. Nothing is
/// changed in memory but how far the file goes, and until something is
/// recorded nothing is to be written again.
pub proof fn law_saving_does_not_duplicate(
    session: SessionView,
    file: Seq<u8>,
    held: Seq<Seq<u8>>,
    written: Seq<Seq<u8>>,
    reads: spec_fn(Seq<u8>) -> Option<LineView>,
)
    requires
        linked(session.records),
        rendered(session.records),
        session.records.len() <= usize::MAX,
        filed_in(session, file, held, reads),
        session.filed,
        session.unsaved() is Some,
        tells(written, reads, session.missing()),
        after_saving(file, session, written).len() <= u64::MAX,
    ensures
        after_saving(file, session, written) == file_of(held + written),
        tells(held + written, reads, session.lines()),
        complete_lines(after_saving(file, session, written), 0).map_values(|l: (Seq<u8>, int)| l.0) == held + written,
        replay(bare(session.records)) == Ok::<Seq<RecordView>, SessionError>(session.records),
        ({
            let after = after_saving(file, session, written);
            let next = session.synced(after.len() as u64);
            &&& next.records == session.records
            &&& next.header == session.header
            &&& next.offset == after.len()
            &&& next.unsaved() is None
            &&& next.held() == session.lines()
            &&& filed_in(next, after, held + written, reads)
        }),
{
    let after = after_saving(file, session, written);
    let all = held + written;
    let log = logged(session.records);
    lemma_file_of(held, written);
    assert(file.take(session.offset as int) =~= file_of(held));
    assert(after == file_of(all));
    assert(session.held() + session.missing() =~= session.lines()) by {
        if session.offset == 0 {
            assert(log.skip(0) =~= log);
        } else {
            assert(session.lines().take(1 + session.saved) =~= seq![LineView::Header(session.header)] + log.take(
                session.saved,
            ));
            assert(log.take(session.saved) + log.skip(session.saved) =~= log);
        }
    }
    assert forall|k: int| 0 <= k < all.len() implies is_line(#[trigger] all[k]) && reads(all[k]) == Some(
        session.lines()[k],
    ) by {
        if k < held.len() {
            assert(all[k] == held[k]);
        } else {
            assert(all[k] == written[k - held.len()]);
        }
    }
    law_written_lines_are_read_back(all, seq![], 0);
    assert(file_of(all) + seq![] =~= file_of(all));
    law_replay_restores_the_log(session.records);
    let next = session.synced(after.len() as u64);
    assert(is_line(all[0]));
    assert(file_of(all) == all[0] + file_of(all.drop_first()));
    assert(next.offset > 0);
    assert(next.held() =~= session.lines());
}

/// A new session has synced nothing, to whatever file.
pub proof fn law_new_session_has_no_lines(
    session: SessionView,
    file: Seq<u8>,
    reads: spec_fn(Seq<u8>) -> Option<LineView>,
)
    requires
        session.records.len() == 0,
        !session.filed,
        session.saved == 0,
        session.offset == 0,
    ensures
        filed_in(session, file, seq![], reads),
        session.unsaved() is None,
{
}

/// What was synced stays the beginning of the file: a session that its file
/// was created for and whose append failed, whatever that has left, a session
/// that was given a title, and one that records or commits something more
/// still have the lines that they had.
pub proof fn law_synced_lines_stay(
    session: SessionView,
    file: Seq<u8>,
    held: Seq<Seq<u8>>,
    reads: spec_fn(Seq<u8>) -> Option<LineView>,
    torn: Seq<u8>,
    record: RecordView,
    entries: Seq<RecordView>,
    usage: Option<Usage>,
    content: Seq<char>,
)
    requires
        filed_in(session, file, held, reads),
    ensures
        filed_in(
            (SessionView { filed: true, ..session }),
            file.take(session.offset as int) + torn,
            held,
            reads,
        ),
        filed_in(session.titled(content), file, held, reads),
        filed_in(session.pushed(entries, usage), file, held, reads),
        recorded(session.records, record) matches Ok(next) ==> filed_in(
            (SessionView { records: next, ..session }),
            file,
            held,
            reads,
        ),
{
    let cut = file.take(session.offset as int) + torn;
    assert(file_of(held).is_prefix_of(cut)) by {
        assert(cut.take(session.offset as int) =~= file_of(held));
    }
    let filed = SessionView { filed: true, ..session };
    assert(filed.held() == session.held());
    assert(session.titled(content).held() =~= session.held());
    let pushed = session.pushed(entries, usage);
    assert(pushed.held() =~= session.held()) by {
        lemma_held(session, pushed.records);
    }
    if let Ok(next) = recorded(session.records, record) {
        lemma_held(session, next);
    }
}

proof fn lemma_held(session: SessionView, records: Seq<RecordView>)
    requires
        0 <= session.saved <= session.records.len(),
        session.records.is_prefix_of(records),
    ensures
        (SessionView { records, ..session }).held() == session.held(),
{
    let next = SessionView { records, ..session };
    assert forall|k: int| 0 <= k < session.records.len() implies #[trigger] next.records[k] == session.records[k] by {
        assert(records.take(session.records.len() as int)[k] == records[k]);
    }
    assert(next.held() =~= session.held());
}

proof fn lemma_complete_lines(bytes: Seq<u8>, offset: int, n: int)
    requires
        0 <= n <= complete_lines(bytes, offset).len(),
    ensures
        ({
            let all = complete_lines(bytes, offset);
            let lines = all.map_values(|l: (Seq<u8>, int)| l.0).take(n);
            &&& file_of(lines).is_prefix_of(bytes)
            &&& n > 0 ==> offset + file_of(lines).len() == all[n - 1].1
            &&& forall|k: int| 0 <= k < n ==> is_line(#[trigger] lines[k])
        }),
    decreases n,
{
    let all = complete_lines(bytes, offset);
    let f = |l: (Seq<u8>, int)| l.0;
    let lines = all.map_values(f).take(n);
    if n == 0 {
        assert(file_of(lines) =~= seq![]);
    } else {
        let m = line_end(bytes);
        crate::sse::lemma_line_end(bytes);
        let first = bytes.take(m + 1);
        let rest = bytes.skip(m + 1);
        let more = complete_lines(rest, offset + m + 1);
        lemma_complete_lines(rest, offset + m + 1, n - 1);
        let tail = more.map_values(f).take(n - 1);
        assert(all == seq![(first, offset + m + 1)] + more);
        assert(lines.drop_first() =~= tail);
        assert(lines[0] == first);
        assert(is_line(first));
        assert forall|k: int| 0 <= k < n implies is_line(#[trigger] lines[k]) by {
            if k > 0 {
                assert(lines[k] == tail[k - 1]);
            }
        }
        assert(file_of(lines) == first + file_of(tail));
        assert(bytes =~= first + rest);
        assert(file_of(lines) =~= bytes.take(file_of(lines).len() as int));
        if n > 1 {
            assert(all[n - 1] == more[n - 2]);
        } else {
            assert(file_of(tail) =~= seq![]);
        }
    }
}

/// A session that is read from a file has synced the lines that it was read
/// from, up to the last one that commits something: saving goes on behind it.
pub proof fn law_loaded_session_goes_on(
    bytes: Seq<u8>,
    reads: spec_fn(Seq<u8>) -> Option<LineView>,
    header: HeaderView,
    header_len: u64,
    rs: Seq<RecordView>,
    ends: Seq<u64>,
)
    requires
        ({
            let all = complete_lines(bytes, 0);
            &&& all.len() == 1 + rs.len()
            &&& rs.len() == ends.len()
            &&& reads(all[0].0) == Some(LineView::Header(header))
            &&& header_len == all[0].1
            &&& forall|k: int|
                0 <= k < rs.len() ==> reads(#[trigger] all[k + 1].0) == Some(LineView::Record(rs[k].bare()))
            &&& forall|k: int| 0 <= k < rs.len() ==> #[trigger] ends[k] == all[k + 1].1
        }),
        replay(rs) is Ok,
    ensures
        ({
            let kept = entries_start(rs);
            let lines = complete_lines(bytes, 0).map_values(|l: (Seq<u8>, int)| l.0);
            let session = SessionView {
                header,
                records: replay(rs)->Ok_0.take(kept),
                filed: true,
                saved: kept,
                offset: end_of(header_len, ends, kept),
            };
            &&& filed_in(session, bytes, lines.take(1 + kept), reads)
            &&& session.unsaved() is None
        }),
{
    let all = complete_lines(bytes, 0);
    let kept = entries_start(rs);
    let lines = all.map_values(|l: (Seq<u8>, int)| l.0);
    lemma_replay(rs);
    lemma_entries_start(rs);
    let records = replay(rs)->Ok_0.take(kept);
    let session = SessionView {
        header,
        records,
        filed: true,
        saved: kept,
        offset: end_of(header_len, ends, kept),
    };
    lemma_complete_lines(bytes, 0, 1 + kept);
    let held = lines.take(1 + kept);
    assert(session.offset == all[kept].1) by {
        if kept > 0 {
            assert(ends[kept - 1] == all[kept].1);
        }
    }
    assert(is_line(held[0]));
    assert(file_of(held) == held[0] + file_of(held.drop_first()));
    lemma_replay_is_bare(rs);
    assert(session.held() =~= session.lines());
    assert forall|k: int| 0 <= k < held.len() implies is_line(#[trigger] held[k]) && reads(held[k]) == Some(
        session.held()[k],
    ) by {
        if k > 0 {
            let read = all[(k - 1) + 1].0;
            assert(reads(read) == Some(LineView::Record(rs[k - 1].bare())));
            assert(bare(replay(rs)->Ok_0)[k - 1] == bare(rs)[k - 1]);
        }
    }
}

proof fn lemma_replay_is_bare(rs: Seq<RecordView>)
    requires
        replay(rs) is Ok,
    ensures
        bare(replay(rs)->Ok_0) == bare(rs),
    decreases rs.len(),
{
    if rs.len() == 0 {
        assert(bare(replay(rs)->Ok_0) =~= bare(rs));
    } else {
        let start = rs.drop_last();
        lemma_replay_is_bare(start);
        let before = replay(start)->Ok_0;
        let after = replay(rs)->Ok_0;
        assert(after =~= before.push(after.last()));
        assert(after.last().bare() == rs.last().bare());
        assert(bare(after) =~= bare(before).push(rs.last().bare()));
        assert(bare(rs) =~= bare(start).push(rs.last().bare()));
    }
}

/// The words for a line that cannot be read.
pub open spec fn broken_words(offset: u64, e: Seq<char>) -> Seq<char> {
    "Session near byte "@ + text::decimal(offset as nat) + ": "@ + e
}

impl Session {
    /// Opens a session from its file: its header, the records of its lines with
    /// where these end, and the line that cannot be read, if there is one, with
    /// where it ends.
    pub fn open(
        stem: Option<&str>,
        header: Header,
        header_len: u64,
        lines: Vec<(Record, u64)>,
        broken: Option<(u64, String)>,
    ) -> (r: Result<Session, String>)
        ensures
            ({
                let name = match stem {
                    Some(s) => Some(s@),
                    None => None,
                };
                let rs = lines@.map_values(|l: (Record, u64)| l.0@);
                let ends = lines@.map_values(|l: (Record, u64)| l.1);
                if !header_valid(header@, name) {
                    r is Err && r->Err_0@ == SessionError::Header.words()
                } else {
                    match replay(rs) {
                        Err(e) => r is Err && r->Err_0@ == e.words(),
                        Ok(all) => match broken {
                            Some((offset, e)) => r is Err && r->Err_0@ == broken_words(offset, e@),
                            None => r is Ok && r->Ok_0.wf() && r->Ok_0@ == (SessionView {
                                header: header@,
                                records: all.take(entries_start(rs)),
                                filed: true,
                                saved: entries_start(rs),
                                offset: end_of(header_len, ends, entries_start(rs)),
                            }),
                        },
                    }
                }
            }),
    {
        match Session::load(stem, header, header_len, lines) {
            Err(e) => Err(e.message()),
            Ok(session) => match broken {
                Some((offset, e)) => {
                    let mut words = text::cat("Session near byte ", &text::digits(offset));
                    words.append(": ");
                    words.append(&e);
                    Err(words)
                },
                None => Ok(session),
            },
        }
    }
}

/// The folder that sessions are kept in.
pub fn state_dir(state_home: Option<&str>, home: &str) -> (r: String)
    ensures
        r@ == crate::input::below(
            match state_home {
                Some(dir) => dir@,
                None => crate::input::below(home@, ".local/state"@),
            },
            "mu"@,
        ),
{
    match state_home {
        Some(dir) => crate::input::join_path(dir, "mu"),
        None => crate::input::join_path(&crate::input::join_path(home, ".local/state"), "mu"),
    }
}

/// Whether a block shows the call `id`.
pub open spec fn shows_call(block: BlockView, id: Seq<char>) -> bool {
    block.tool matches Some(t) && t.call_id == id
}

/// An outcome goes to the last block that shows its call, whole and as it is:
/// its state, its output and its log. The block keeps its kind and its text, and
/// every other block stays as it was.
pub proof fn law_outcomes_fill_their_call(blocks: Seq<BlockView>, tool: ToolView, k: int)
    requires
        0 <= k < blocks.len(),
        shows_call(blocks[k], tool.call_id),
        forall|j: int| k < j < blocks.len() ==> !shows_call(#[trigger] blocks[j], tool.call_id),
    ensures
        attach(blocks, tool) == blocks.update(
            k,
            BlockView { kind: blocks[k].kind, text: blocks[k].text, tool: Some(tool) },
        ),
    decreases blocks.len(),
{
    let start = blocks.drop_last();
    if k == blocks.len() - 1 {
        assert(attach(blocks, tool) =~= blocks.update(
            k,
            BlockView { kind: blocks[k].kind, text: blocks[k].text, tool: Some(tool) },
        ));
    } else {
        assert(!shows_call(blocks[blocks.len() - 1], tool.call_id));
        assert forall|j: int| k < j < start.len() implies !shows_call(#[trigger] start[j], tool.call_id) by {
            assert(start[j] == blocks[j]);
        }
        law_outcomes_fill_their_call(start, tool, k);
        assert(attach(blocks, tool) =~= blocks.update(
            k,
            BlockView { kind: blocks[k].kind, text: blocks[k].text, tool: Some(tool) },
        ));
    }
}

/// An outcome of a call that no block shows changes nothing, and no outcome
/// changes a block that shows another call, or none.
pub proof fn law_outcomes_leave_other_blocks(blocks: Seq<BlockView>, tool: ToolView)
    ensures
        attach(blocks, tool).len() == blocks.len(),
        forall|k: int|
            0 <= k < blocks.len() && !shows_call(#[trigger] blocks[k], tool.call_id) ==> attach(blocks, tool)[k]
                == blocks[k],
        forall|k: int|
            0 <= k < blocks.len() ==> {
                &&& attach(blocks, tool)[k].kind == (#[trigger] blocks[k]).kind
                &&& attach(blocks, tool)[k].text == blocks[k].text
                &&& shows_call(blocks[k], tool.call_id) ==> shows_call(attach(blocks, tool)[k], tool.call_id)
            },
    decreases blocks.len(),
{
    if blocks.len() > 0 {
        let start = blocks.drop_last();
        law_outcomes_leave_other_blocks(start, tool);
        let after = attach(blocks, tool);
        assert forall|k: int| 0 <= k < blocks.len() implies {
            &&& !shows_call(#[trigger] blocks[k], tool.call_id) ==> after[k] == blocks[k]
            &&& after[k].kind == blocks[k].kind
            &&& after[k].text == blocks[k].text
            &&& shows_call(blocks[k], tool.call_id) ==> shows_call(after[k], tool.call_id)
        } by {
            if k < start.len() {
                assert(start[k] == blocks[k]);
            }
        }
    }
}

/// What each entry shows: an item its block, an attachment its name and place, a
/// notice a warning; an outcome adds no block. Entries are shown one after the
/// other, and nothing that was shown goes away.
pub proof fn law_entries_are_shown_in_order(blocks: Seq<BlockView>, entries: Seq<RecordView>, entry: RecordView)
    ensures
        with_entries(blocks, Seq::empty()) == blocks,
        with_entries(blocks, entries.push(entry)) == with_entry(with_entries(blocks, entries), entry),
        entry matches RecordView::Item(item) ==> with_entry(blocks, entry) == match item_block(item, false) {
            Some(block) => blocks.push(block),
            None => blocks,
        },
        entry matches RecordView::Attachment { label, path, text } ==> with_entry(blocks, entry) == blocks.push(
            BlockView { kind: Kind::Notice, text: label + ": "@ + path, tool: None },
        ),
        entry matches RecordView::Notice(text) ==> with_entry(blocks, entry) == blocks.push(
            BlockView { kind: Kind::Warning, text, tool: None },
        ),
        entry is Tool ==> with_entry(blocks, entry).len() == blocks.len(),
        with_entry(blocks, entry).len() >= blocks.len(),
{
    assert(entries.push(entry).drop_last() =~= entries);
    if let RecordView::Tool(tool) = entry {
        law_outcomes_leave_other_blocks(blocks, tool);
    }
}

proof fn lemma_with_entries_append(blocks: Seq<BlockView>, a: Seq<RecordView>, b: Seq<RecordView>)
    ensures
        with_entries(blocks, a + b) == with_entries(with_entries(blocks, a), b),
    decreases b.len(),
{
    if b.len() == 0 {
        assert(a + b =~= a);
    } else {
        lemma_with_entries_append(blocks, a, b.drop_last());
        assert((a + b).drop_last() =~= a + b.drop_last());
        assert((a + b).last() == b.last());
    }
}

/// Whether an entry is the call `id`.
pub open spec fn calls(entry: RecordView, id: Seq<char>) -> bool {
    entry matches RecordView::Item(item) && item_block(item, false) matches Some(block) && shows_call(block, id)
}

/// Whether an entry is an outcome of the call `id`.
pub open spec fn ends(entry: RecordView, id: Seq<char>) -> bool {
    entry matches RecordView::Tool(tool) && tool.call_id == id
}

proof fn lemma_call_stays(blocks: Seq<BlockView>, entries: Seq<RecordView>, k: int, id: Seq<char>)
    requires
        0 <= k < blocks.len(),
        shows_call(blocks[k], id),
    ensures
        ({
            let after = with_entries(blocks, entries);
            &&& k < blocks.len() <= after.len()
            &&& after[k].kind == blocks[k].kind
            &&& after[k].text == blocks[k].text
            &&& shows_call(after[k], id)
            &&& (forall|j: int| 0 <= j < entries.len() ==> !ends(#[trigger] entries[j], id)) ==> after[k]
                == blocks[k]
            &&& (forall|j: int| 0 <= j < entries.len() ==> !calls(#[trigger] entries[j], id)) && (forall|j: int|
                k < j < blocks.len() ==> !shows_call(#[trigger] blocks[j], id)) ==> (forall|j: int|
                k < j < after.len() ==> !shows_call(#[trigger] after[j], id))
        }),
    decreases entries.len(),
{
    if entries.len() > 0 {
        let start = entries.drop_last();
        let last = entries.last();
        lemma_call_stays(blocks, start, k, id);
        let before = with_entries(blocks, start);
        let after = with_entries(blocks, entries);
        if forall|j: int| 0 <= j < entries.len() ==> !ends(#[trigger] entries[j], id) {
            assert forall|j: int| 0 <= j < start.len() implies !ends(#[trigger] start[j], id) by {
                assert(start[j] == entries[j]);
            }
            assert(!ends(entries[entries.len() - 1], id));
        }
        if let RecordView::Tool(tool) = last {
            law_outcomes_leave_other_blocks(before, tool);
            lemma_attach_ids(before, tool);
        }
        if (forall|j: int| 0 <= j < entries.len() ==> !calls(#[trigger] entries[j], id)) && (forall|j: int|
            k < j < blocks.len() ==> !shows_call(#[trigger] blocks[j], id)) {
            assert forall|j: int| 0 <= j < start.len() implies !calls(#[trigger] start[j], id) by {
                assert(start[j] == entries[j]);
            }
            assert(!calls(entries[entries.len() - 1], id));
            assert forall|j: int| k < j < after.len() implies !shows_call(#[trigger] after[j], id) by {
                if j < before.len() {
                    assert(!shows_call(before[j], id));
                }
            }
        }
    }
}

proof fn lemma_attach_ids(blocks: Seq<BlockView>, tool: ToolView)
    ensures
        attach(blocks, tool).len() == blocks.len(),
        forall|k: int, id: Seq<char>|
            0 <= k < blocks.len() ==> #[trigger] shows_call(attach(blocks, tool)[k], id) == shows_call(blocks[k], id),
    decreases blocks.len(),
{
    if blocks.len() > 0 {
        let start = blocks.drop_last();
        lemma_attach_ids(start, tool);
        let after = attach(blocks, tool);
        assert forall|k: int, id: Seq<char>| 0 <= k < blocks.len() implies #[trigger] shows_call(after[k], id)
            == shows_call(blocks[k], id) by {
            if k < start.len() {
                assert(start[k] == blocks[k]);
                if answers(tool, blocks.last()) {
                    assert(after[k] == start[k]);
                } else {
                    assert(after[k] == attach(start, tool)[k]);
                    assert(shows_call(attach(start, tool)[k], id) == shows_call(start[k], id));
                }
            }
        }
    }
}

/// A node shows of each call what came of it, as it was recorded: the block of
/// the call holds the last outcome of it, whatever else stands before, between
/// and behind the two.
pub proof fn law_nodes_show_what_came_of_calls(
    before: Seq<RecordView>,
    call: Tree,
    between: Seq<RecordView>,
    tool: ToolView,
    behind: Seq<RecordView>,
)
    requires
        calls(RecordView::Item(call), tool.call_id),
        forall|j: int| 0 <= j < between.len() ==> !calls(#[trigger] between[j], tool.call_id),
        forall|j: int| 0 <= j < behind.len() ==> !ends(#[trigger] behind[j], tool.call_id),
    ensures
        ({
            let entries = before.push(RecordView::Item(call)) + between.push(RecordView::Tool(tool)) + behind;
            let blocks = with_entries(Seq::empty(), entries);
            let k = with_entries(Seq::empty(), before).len() as int;
            let shown = item_block(call, false)->0;
            &&& k < blocks.len()
            &&& blocks[k].tool == Some(tool)
            &&& blocks[k].kind == shown.kind
            &&& blocks[k].text == shown.text
        }),
{
    let id = tool.call_id;
    let empty = Seq::<BlockView>::empty();
    let first = before.push(RecordView::Item(call));
    let second = between.push(RecordView::Tool(tool));
    let k = with_entries(empty, before).len() as int;
    assert(first.drop_last() =~= before);
    let a = with_entries(empty, first);
    assert(a == with_entries(empty, before).push(item_block(call, false)->0));
    assert(second.drop_last() =~= between);
    lemma_with_entries_append(empty, first, second);
    lemma_with_entries_append(empty, first + second, behind);
    lemma_call_stays(a, between, k, id);
    let b = with_entries(a, between);
    law_outcomes_fill_their_call(b, tool, k);
    let c = attach(b, tool);
    assert(with_entries(a, second) == c);
    assert(shows_call(c[k], id));
    lemma_call_stays(c, behind, k, id);
}

/// Committing appends the entries as they are and one node behind them: it hangs
/// below the cursor, takes the entries and no others, shows them, has the usage
/// that was given, and is the new cursor. Nothing that was there changes.
pub proof fn law_commits_append_a_node(session: SessionView, entries: Seq<RecordView>, usage: Option<Usage>)
    requires
        all_entries(entries),
        session.records.len() == 0 || !session.records.last().is_entry(),
        session.records.len() + entries.len() < usize::MAX,
    ensures
        ({
            let next = session.pushed(entries, usage);
            let n = session.records.len() + entries.len();
            &&& next.records.len() == n + 1
            &&& next.records.take(n as int) == session.records + entries
            &&& next.records[n as int] == RecordView::Node(
                NodeView {
                    parent: session.cursor(),
                    usage,
                    start: session.records.len() as int,
                    blocks: with_entries(Seq::empty(), entries),
                },
            )
            &&& next.cursor() == Some(n as usize)
            &&& next.header == session.header
            &&& next.saved == session.saved
            &&& next.offset == session.offset
            &&& next.filed == session.filed
        }),
{
    let rs = session.records + entries;
    let next = session.pushed(entries, usage);
    assert forall|k: int| session.records.len() <= k < rs.len() implies (#[trigger] rs[k]).is_entry() by {
        assert(rs[k] == entries[k - session.records.len()]);
    }
    if session.records.len() > 0 {
        assert(rs[session.records.len() - 1] == session.records.last());
    }
    lemma_entries_start_is(rs, session.records.len() as int);
    assert(rs.skip(session.records.len() as int) =~= entries);
    assert(next.records.take(rs.len() as int) =~= rs);
}

pub proof fn lemma_conversation_stays(rs: Seq<RecordView>, more: Seq<RecordView>, at: Option<usize>)
    requires
        linked(rs),
        at matches Some(i) ==> node_at(rs, i as int),
    ensures
        conversation(rs + more, at) == conversation(rs, at),
        usages(rs + more, at) == usages(rs, at),
        lineage(rs + more, at) == lineage(rs, at),
    decreases height(at),
{
    if let Some(i) = at {
        let all = rs + more;
        assert(all[i as int] == rs[i as int]);
        assert(linked_at(rs, i as int));
        lemma_entries_start(rs.take(i as int));
        assert(parent_of(all, i) == parent_of(rs, i));
        assert(entries_of(all, i) =~= entries_of(rs, i));
        lemma_conversation_stays(rs, more, parent_of(rs, i));
    }
}

/// What is sent grows by what is committed: behind the conversation that was
/// sent before come the new entries, and no others, wherever in the tree the
/// cursor was. The same holds of the nodes that it is made of.
pub proof fn law_sent_conversation_grows(session: SessionView, entries: Seq<RecordView>, usage: Option<Usage>)
    requires
        linked(session.records),
        all_entries(entries),
        session.records.len() == 0 || !session.records.last().is_entry(),
        session.records.len() + entries.len() < usize::MAX,
    ensures
        ({
            let next = session.pushed(entries, usage);
            &&& conversation(next.records, next.cursor()) == conversation(session.records, session.cursor())
                + inputs_of(entries)
            &&& lineage(next.records, next.cursor()) == seq![(next.records.len() - 1) as usize] + lineage(
                session.records,
                session.cursor(),
            )
        }),
{
    let next = session.pushed(entries, usage);
    law_commits_append_a_node(session, entries, usage);
    lemma_cursor(session.records);
    let n = (next.records.len() - 1) as usize;
    let more = next.records.skip(session.records.len() as int);
    assert(session.records + more =~= next.records) by {
        assert forall|k: int| 0 <= k < session.records.len() implies next.records[k] == #[trigger] session.records[k] by {
            assert(next.records.take(n as int)[k] == (session.records + entries)[k]);
        }
    }
    lemma_conversation_stays(session.records, more, session.cursor());
    assert(parent_of(next.records, n) == session.cursor());
    assert(entries_of(next.records, n) =~= entries) by {
        assert forall|k: int| 0 <= k < entries.len() implies next.records[session.records.len() + k] == #[trigger] entries[k] by {
            assert(next.records.take(n as int)[session.records.len() + k] == (session.records + entries)[session.records.len() + k]);
        }
    }
}

/// Going back to a node makes the conversation what it was when the node was
/// committed: whatever was said since, on whatever branch, is not sent. At the
/// root nothing is sent.
pub proof fn law_going_back_restores_the_conversation(rs: Seq<RecordView>, since: Seq<RecordView>)
    requires
        rs.len() > 0,
        rs.last() is Node,
        linked(rs),
        rs.len() <= usize::MAX,
        since.len() > 0 ==> !since.last().is_entry(),
    ensures
        ({
            let p = (rs.len() - 1) as usize;
            let back = recorded(rs + since, RecordView::Cursor(Some(p)));
            &&& cursor_of(rs) == Some(p)
            &&& back is Ok
            &&& cursor_of(back->Ok_0) == Some(p)
            &&& conversation(back->Ok_0, cursor_of(back->Ok_0)) == conversation(rs, cursor_of(rs))
            &&& usages(back->Ok_0, cursor_of(back->Ok_0)) == usages(rs, cursor_of(rs))
            &&& lineage(back->Ok_0, cursor_of(back->Ok_0)) == lineage(rs, cursor_of(rs))
        }),
        ({
            let root = recorded(rs + since, RecordView::Cursor(None));
            root is Ok && conversation(root->Ok_0, cursor_of(root->Ok_0)) == Seq::<Tree>::empty()
        }),
{
    let p = (rs.len() - 1) as usize;
    let all = rs + since;
    assert(all[p as int] == rs[p as int]);
    if since.len() > 0 {
        assert(all.last() == since.last());
    } else {
        assert(all =~= rs);
    }
    let more = since.push(RecordView::Cursor(Some(p)));
    assert(all.push(RecordView::Cursor(Some(p))) =~= rs + more);
    lemma_conversation_stays(rs, more, Some(p));
}

/// What is sent for each entry: an item as it is, an attachment as a message of
/// the user with its name, its place and its text, an outcome as the report on
/// it, and a notice not at all. What is sent for entries stands in their order.
pub proof fn law_every_entry_is_sent(entries: Seq<RecordView>, entry: RecordView)
    ensures
        inputs_of(Seq::empty()) == Seq::<Tree>::empty(),
        entry matches RecordView::Item(item) ==> inputs_of(entries.push(entry)) == inputs_of(entries).push(item),
        entry matches RecordView::Tool(tool) ==> inputs_of(entries.push(entry)) == inputs_of(entries).push(
            tool.item(),
        ),
        entry matches RecordView::Attachment { label, path, text } ==> inputs_of(entries.push(entry)) == inputs_of(
            entries,
        ).push(
            Tree::Object(
                seq![
                    ("role"@, Tree::Text("user"@)),
                    ("content"@, Tree::Text(label + ": "@ + path + "\n"@ + text)),
                ],
            ),
        ),
        entry is Notice ==> inputs_of(entries.push(entry)) == inputs_of(entries),
{
    assert(entries.push(entry).drop_last() =~= entries);
}

/// The cursor is the last node, or where it was last moved to; the model is the
/// one last chosen, or else the first. Other records change neither.
pub proof fn law_last_word_counts(rs: Seq<RecordView>, record: RecordView, first: ModelView)
    requires
        rs.len() < usize::MAX,
    ensures
        cursor_of(Seq::empty()) is None,
        cursor_of(rs.push(record)) == match record {
            RecordView::Node(_) => Some(rs.len() as usize),
            RecordView::Cursor(to) => to,
            _ => cursor_of(rs),
        },
        model_of(Seq::empty(), first) == first,
        model_of(rs.push(record), first) == match record {
            RecordView::Model(model) => model,
            _ => model_of(rs, first),
        },
{
    assert(rs.push(record).drop_last() =~= rs);
}

/// A log takes a record only at its end and changes nothing before it. It
/// refuses a parent or a cursor that is no node, and a change of the cursor or
/// the model behind entries that no node has taken, and nothing else. What it
/// takes says on disk what it was given to say.
pub proof fn law_logs_are_appended_to(rs: Seq<RecordView>, record: RecordView)
    ensures
        recorded(rs, record) matches Ok(next) ==> next.len() == rs.len() + 1 && next.take(rs.len() as int) == rs
            && next.last().bare() == record.bare(),
        recorded(rs, record) is Err <==> {
            ||| record matches RecordView::Node(node) && node.parent matches Some(p) && !(p < rs.len()
                && rs[p as int] is Node)
            ||| record matches RecordView::Cursor(Some(p)) && !(p < rs.len() && rs[p as int] is Node)
            ||| (record is Cursor || record is Model) && rs.len() > 0 && (rs.last() is Item || rs.last() is Attachment
                || rs.last() is Tool || rs.last() is Notice)
        },
{
    if let Ok(next) = recorded(rs, record) {
        assert(next.take(rs.len() as int) =~= rs);
    }
}

/// The newest usage is that of the last response on the way to the root, and the
/// totals are the sums over that way, up to the greatest count.
pub proof fn law_usage_follows_the_conversation(session: SessionView, entries: Seq<RecordView>, usage: Option<Usage>)
    requires
        linked(session.records),
        all_entries(entries),
        session.records.len() == 0 || !session.records.last().is_entry(),
        session.records.len() + entries.len() < usize::MAX,
    ensures
        ({
            let next = session.pushed(entries, usage);
            let before = usages(session.records, session.cursor());
            let after = usages(next.records, next.cursor());
            &&& usage is None ==> after == before
            &&& usage matches Some(u) ==> {
                &&& after == seq![u] + before
                &&& total(after).input == capped((total(before).input + u.input) as nat)
                &&& total(after).output == capped((total(before).output + u.output) as nat)
                &&& total(after).cached is Some <==> total(before).cached is Some && u.cached is Some
                &&& total(after).cached matches Some(c) ==> c == capped(
                    (total(before).cached->0 + u.cached->0) as nat,
                )
            }
        }),
        total(Seq::empty()) == (Usage { input: 0, output: 0, cached: Some(0) }),
{
    let next = session.pushed(entries, usage);
    law_commits_append_a_node(session, entries, usage);
    lemma_cursor(session.records);
    let n = (next.records.len() - 1) as usize;
    let more = next.records.skip(session.records.len() as int);
    assert(session.records + more =~= next.records) by {
        assert forall|k: int| 0 <= k < session.records.len() implies next.records[k] == #[trigger] session.records[k] by {
            assert(next.records.take(n as int)[k] == (session.records + entries)[k]);
        }
    }
    lemma_conversation_stays(session.records, more, session.cursor());
    assert(parent_of(next.records, n) == session.cursor());
    let before = usages(session.records, session.cursor());
    if let Some(u) = usage {
        let after = seq![u] + before;
        lemma_sum_first(u, before, input_count());
        lemma_sum_first(u, before, output_count());
        lemma_sum_first(u, before, cached_count());
        let known = forall|k: int| 0 <= k < before.len() ==> (#[trigger] before[k]).cached is Some;
        if known && u.cached is Some {
            assert forall|k: int| 0 <= k < after.len() implies (#[trigger] after[k]).cached is Some by {
                if k > 0 {
                    assert(after[k] == before[k - 1]);
                }
            }
        }
        if forall|k: int| 0 <= k < after.len() ==> (#[trigger] after[k]).cached is Some {
            assert(after[0].cached is Some);
            assert forall|k: int| 0 <= k < before.len() implies (#[trigger] before[k]).cached is Some by {
                assert(after[k + 1].cached is Some);
            }
        }
    }
}

proof fn lemma_sum_first(u: Usage, us: Seq<Usage>, f: spec_fn(Usage) -> nat)
    ensures
        sum(seq![u] + us, f) == f(u) + sum(us, f),
    decreases us.len(),
{
    let all = seq![u] + us;
    if us.len() == 0 {
        assert(all.drop_last() =~= us);
        assert(sum(all.drop_last(), f) == 0);
    } else {
        lemma_sum_first(u, us.drop_last(), f);
        assert(all.drop_last() =~= seq![u] + us.drop_last());
        assert(all.last() == us.last());
    }
}

/// What a usage says is what the response reported, a count that it left out
/// being zero; and a cache was missed exactly where something was cached before,
/// nothing was read from it now, and no less was sent.
pub proof fn law_usage_is_what_was_reported(v: Tree, now: Usage, before: Usage)
    ensures
        v.at("input_tokens"@) matches Tree::Unsigned(n) ==> usage_of(v).input == n,
        !(v.at("input_tokens"@) is Unsigned) ==> usage_of(v).input == 0,
        v.at("output_tokens"@) matches Tree::Unsigned(n) ==> usage_of(v).output == n,
        !(v.at("output_tokens"@) is Unsigned) ==> usage_of(v).output == 0,
        v.at("input_tokens_details"@).at("cached_tokens"@) matches Tree::Unsigned(n) ==> usage_of(v).cached == Some(n),
        !(v.at("input_tokens_details"@).at("cached_tokens"@) is Unsigned) ==> usage_of(v).cached is None,
        now.missed(before) <==> (before.cached matches Some(n) && n > 0) && now.cached == Some(0u64) && now.input
            >= before.input,
{
}

/// Whether the block at `k` is the last of its kind.
pub open spec fn last_of_kind(blocks: Seq<BlockView>, kind: Kind, k: int) -> bool {
    &&& 0 <= k < blocks.len()
    &&& blocks[k].kind == kind
    &&& forall|j: int| k < j < blocks.len() ==> (#[trigger] blocks[j]).kind != kind
}

/// The newest text of a kind is that of the last block of the kind in what was
/// committed last, or else what it was before.
pub proof fn law_newest_text_is_the_last(
    session: SessionView,
    entries: Seq<RecordView>,
    usage: Option<Usage>,
    kind: Kind,
    k: int,
)
    requires
        linked(session.records),
        all_entries(entries),
        session.records.len() == 0 || !session.records.last().is_entry(),
        session.records.len() + entries.len() < usize::MAX,
    ensures
        ({
            let next = session.pushed(entries, usage);
            let blocks = with_entries(Seq::empty(), entries);
            &&& last_of_kind(blocks, kind, k) ==> newest(next.records, next.cursor(), kind) == Some(blocks[k].text)
            &&& (forall|j: int| 0 <= j < blocks.len() ==> (#[trigger] blocks[j]).kind != kind) ==> newest(
                next.records,
                next.cursor(),
                kind,
            ) == newest(session.records, session.cursor(), kind)
        }),
        newest(session.records, None, kind) is None,
{
    let next = session.pushed(entries, usage);
    law_commits_append_a_node(session, entries, usage);
    lemma_cursor(session.records);
    let n = (next.records.len() - 1) as usize;
    let more = next.records.skip(session.records.len() as int);
    assert(session.records + more =~= next.records) by {
        assert forall|i: int| 0 <= i < session.records.len() implies next.records[i] == #[trigger] session.records[i] by {
            assert(next.records.take(n as int)[i] == (session.records + entries)[i]);
        }
    }
    lemma_newest_stays(session.records, more, session.cursor(), kind);
    assert(parent_of(next.records, n) == session.cursor());
    let blocks = with_entries(Seq::empty(), entries);
    if last_of_kind(blocks, kind, k) {
        lemma_last_of(blocks, kind, k);
    }
    if forall|j: int| 0 <= j < blocks.len() ==> (#[trigger] blocks[j]).kind != kind {
        lemma_none_of(blocks, kind);
    }
}

proof fn lemma_newest_stays(rs: Seq<RecordView>, more: Seq<RecordView>, at: Option<usize>, kind: Kind)
    requires
        linked(rs),
        at matches Some(i) ==> node_at(rs, i as int),
    ensures
        newest(rs + more, at, kind) == newest(rs, at, kind),
    decreases height(at),
{
    if let Some(i) = at {
        assert((rs + more)[i as int] == rs[i as int]);
        assert(linked_at(rs, i as int));
        lemma_newest_stays(rs, more, parent_of(rs, i), kind);
    }
}

proof fn lemma_last_of(blocks: Seq<BlockView>, kind: Kind, k: int)
    requires
        last_of_kind(blocks, kind, k),
    ensures
        last_of(blocks, kind) == Some(blocks[k].text),
    decreases blocks.len(),
{
    if k < blocks.len() - 1 {
        let start = blocks.drop_last();
        assert(blocks[blocks.len() - 1].kind != kind);
        assert forall|j: int| k < j < start.len() implies (#[trigger] start[j]).kind != kind by {
            assert(start[j] == blocks[j]);
        }
        lemma_last_of(start, kind, k);
    }
}

proof fn lemma_none_of(blocks: Seq<BlockView>, kind: Kind)
    requires
        forall|j: int| 0 <= j < blocks.len() ==> (#[trigger] blocks[j]).kind != kind,
    ensures
        last_of(blocks, kind) is None,
    decreases blocks.len(),
{
    if blocks.len() > 0 {
        let start = blocks.drop_last();
        assert(blocks[blocks.len() - 1].kind != kind);
        assert forall|j: int| 0 <= j < start.len() implies (#[trigger] start[j]).kind != kind by {
            assert(start[j] == blocks[j]);
        }
        lemma_none_of(start, kind);
    }
}

/// A session is named after its first message, by its first line, at most sixty
/// characters of it; the name of a session that has begun does not change.
pub proof fn law_first_message_gives_the_title(session: SessionView, content: Seq<char>)
    ensures
        session.filed || has_node(session.records) ==> session.titled(content) == session,
        !session.filed && !has_node(session.records) ==> {
            let title = session.titled(content).header.title;
            &&& title.len() <= 60
            &&& !title.contains('\n')
            &&& title.is_prefix_of(content)
            &&& title.len() < 60 && title.len() < content.len() ==> content[title.len() as int] == '\n' || (
            content[title.len() as int] == '\r' && title.len() + 1 < content.len() && content[title.len() as int + 1] == '\n')
            &&& session.titled(content).records == session.records
            &&& session.titled(content).header == (HeaderView { title, ..session.header })
        },
{
    lemma_headline(content, 60);
}

pub proof fn lemma_headline(s: Seq<char>, n: int)
    requires
        n > 0,
    ensures
        headline(s, n).len() <= n,
        !headline(s, n).contains('\n'),
        headline(s, n).is_prefix_of(s),
        headline(s, n).len() < n && headline(s, n).len() < s.len() ==> s[headline(s, n).len() as int] == '\n' || (
        s[headline(s, n).len() as int] == '\r' && headline(s, n).len() + 1 < s.len() && s[headline(s, n).len() as int + 1]
            == '\n'),
{
    let p = text::other_than('\n');
    text::lemma_span(s, p);
    let i = text::first(s, '\n');
    let title = headline(s, n);
    if s.len() > 0 {
        let line = text::lines(s)[0];
        if i < s.len() {
            assert(s[i] == '\n') by {
                assert(!p(s[i]));
            }
            let whole = s.take(i);
            assert(line == text::without_return(whole));
        }
        assert(line.is_prefix_of(s));
        if title.contains('\n') {
            let k = choose|k: int| 0 <= k < title.len() && title[k] == '\n';
            assert(p(s[k]));
        }
    }
}

/// Whether files stand with the last changed first.
pub open spec fn newest_come_first(files: Seq<FoundView>) -> bool {
    forall|i: int, j: int|
        0 <= i < j < files.len() ==> !later((#[trigger] files[j]).modified, (#[trigger] files[i]).modified)
}

proof fn lemma_placed(sorted: Seq<FoundView>, file: FoundView) -> (k: int)
    requires
        newest_come_first(sorted),
    ensures
        0 <= k <= sorted.len(),
        placed(sorted, file) == sorted.insert(k, file),
        forall|j: int| 0 <= j < k ==> !later(file.modified, (#[trigger] sorted[j]).modified),
        forall|j: int| k <= j < sorted.len() ==> later(file.modified, (#[trigger] sorted[j]).modified),
    decreases sorted.len(),
{
    let n = sorted.len() as int;
    if n > 0 && later(file.modified, sorted.last().modified) {
        let start = sorted.drop_last();
        assert forall|i: int, j: int| 0 <= i < j < start.len() implies !later(
            (#[trigger] start[j]).modified,
            (#[trigger] start[i]).modified,
        ) by {
            assert(start[i] == sorted[i] && start[j] == sorted[j]);
        }
        let k = lemma_placed(start, file);
        assert(placed(sorted, file) =~= sorted.insert(k, file));
        assert forall|j: int| 0 <= j < k implies !later(file.modified, (#[trigger] sorted[j]).modified) by {
            assert(start[j] == sorted[j]);
        }
        assert forall|j: int| k <= j < sorted.len() implies later(file.modified, (#[trigger] sorted[j]).modified) by {
            if j < start.len() {
                assert(start[j] == sorted[j]);
            }
        }
        k
    } else {
        assert(placed(sorted, file) =~= sorted.insert(n, file));
        assert forall|j: int| 0 <= j < n implies !later(file.modified, (#[trigger] sorted[j]).modified) by {
            if j < n - 1 {
                assert(!later(sorted[n - 1].modified, sorted[j].modified));
            }
        }
        n
    }
}

/// The sessions that were changed last come first, files of one time stay in the
/// order in which they were found, and none is lost or doubled: one more file
/// takes its place behind all that are no older, and moves no other.
pub proof fn law_newest_sessions_come_first(files: Seq<FoundView>, file: FoundView)
    ensures
        newest_come_first(newest_first(files)),
        newest_first(files).len() == files.len(),
        exists|k: int|
            0 <= k <= files.len() && #[trigger] newest_first(files).insert(k, file) == newest_first(files.push(file)) && (
            forall|j: int| 0 <= j < k ==> !later(file.modified, (#[trigger] newest_first(files)[j]).modified)) && (forall|j: int|
                k <= j < files.len() ==> later(file.modified, (#[trigger] newest_first(files)[j]).modified)),
        later(Some(2u128), Some(1u128)) && later(Some(0u128), None) && !later(None, None),
        forall|a: u128, b: u128| #[trigger] later(Some(a), Some(b)) <==> a > b,
    decreases files.len(),
{
    if files.len() > 0 {
        let start = files.drop_last();
        law_newest_sessions_come_first(start, files.last());
        assert(start.push(files.last()) =~= files);
        let k = lemma_placed(newest_first(start), files.last());
        let before = newest_first(start);
        let after = newest_first(files);
        assert(after == before.insert(k, files.last()));
        assert forall|i: int, j: int| 0 <= i < j < after.len() implies !later(
            (#[trigger] after[j]).modified,
            (#[trigger] after[i]).modified,
        ) by {
            let a = if i < k { i } else { i - 1 };
            let b = if j < k { j } else { j - 1 };
            if i != k {
                assert(after[i] == before[a]);
            }
            if j != k {
                assert(after[j] == before[b]);
            }
            if i == k {
                assert(later(files.last().modified, before[b].modified));
            } else if j == k {
                assert(!later(files.last().modified, before[a].modified));
            }
        }
    }
    let k = lemma_placed(newest_first(files), file);
    assert(files.push(file).drop_last() =~= files);
    assert(newest_first(files).insert(k, file) == newest_first(files.push(file)));
}

/// Every session of a readable file is listed, in the order of the files, with
/// its id, its title and its folder; a file without a readable header, or of
/// another version, is not.
pub proof fn law_every_session_is_listed(files: Seq<FoundView>, file: FoundView)
    ensures
        session_list(Seq::empty()) == Seq::<(Seq<char>, Seq<char>)>::empty(),
        session_list(files.push(file)) == match file.header {
            Some(h) => if h.version == 1 {
                session_list(files).push((file.path, h.id + "  "@ + h.title + "  ["@ + h.cwd + "]"@))
            } else {
                session_list(files)
            },
            None => session_list(files),
        },
{
    assert(files.push(file).drop_last() =~= files);
}

/// A file is that of a session only where its header is of the version that is
/// known, and names the session as the file does, by digits and dashes.
pub proof fn law_headers_name_their_file(header: HeaderView, stem: Option<Seq<char>>)
    ensures
        header_valid(header, stem) <==> header.version == 1 && stem == Some(header.id) && header.id.len() > 0 && (forall|k: int|
            0 <= k < header.id.len() ==> '0' <= #[trigger] header.id[k] <= '9' || header.id[k] == '-'),
{
    if header_valid(header, stem) {
        assert forall|k: int| 0 <= k < header.id.len() implies '0' <= #[trigger] header.id[k] <= '9' || header.id[k] == '-' by {
            text::law_spaces_and_controls(header.id[k]);
            assert(text::is_digit(header.id[k]) || header.id[k] == '-');
        }
    }
    if forall|k: int| 0 <= k < header.id.len() ==> '0' <= #[trigger] header.id[k] <= '9' || header.id[k] == '-' {
        assert forall|k: int| 0 <= k < header.id.len() implies text::is_digit(#[trigger] header.id[k]) || header.id[k]
            == '-' by {
            text::law_spaces_and_controls(header.id[k]);
            assert('0' <= header.id[k] <= '9' || header.id[k] == '-');
        }
    }
}

/// Only entries that no node has taken are dropped on reading, and all of those:
/// what is kept ends with a record that is none.
pub proof fn law_uncommitted_entries_are_those_at_the_end(rs: Seq<RecordView>)
    ensures
        0 <= entries_start(rs) <= rs.len(),
        forall|k: int|
            entries_start(rs) <= k < rs.len() ==> (#[trigger] rs[k]) is Item || rs[k] is Attachment || rs[k] is Tool
                || rs[k] is Notice,
        entries_start(rs) > 0 ==> rs[entries_start(rs) - 1] is Node || rs[entries_start(rs) - 1] is Cursor
            || rs[entries_start(rs) - 1] is Model,
{
    lemma_entries_start(rs);
}

/// What was sent anew is what was sent without what was read from the cache; a
/// count that is not known counts as none, and sums stop at the greatest count.
pub proof fn law_sums_stop_at_the_greatest_count(u: Usage, us: Seq<Usage>, n: nat)
    ensures
        n <= u64::MAX ==> capped(n) == n,
        n > u64::MAX ==> capped(n) == u64::MAX,
        sum(seq![u] + us, uncached_count()) == sum(us, uncached_count()) + (match u.cached {
            None => u.input as int,
            Some(c) => if c <= u.input {
                u.input - c
            } else {
                0
            },
        }),
        sum(Seq::<Usage>::empty(), uncached_count()) == 0,
{
    lemma_sum_first(u, us, uncached_count());
}

/// A line that cannot be read is told with where it stands and why.
pub proof fn law_broken_lines_are_told(offset: u64, e: Seq<char>)
    ensures
        broken_words(offset, e) == "Session near byte "@ + text::decimal(offset as nat) + ": "@ + e,
{
}

/// A session has begun once its log holds a node, wherever it stands.
pub proof fn law_any_node_begins_a_session(rs: Seq<RecordView>, r: RecordView)
    ensures
        !has_node(Seq::<RecordView>::empty()),
        has_node(rs.push(r)) <==> has_node(rs) || r is Node,
{
    let more = rs.push(r);
    assert(more[rs.len() as int] == r);
    assert forall|i: int| 0 <= i < rs.len() implies more[i] == #[trigger] rs[i] by {}
    if has_node(more) {
        let i = choose|i: int| 0 <= i < more.len() && (#[trigger] more[i]) is Node;
        if i < rs.len() {
            assert(rs[i] is Node);
        }
    }
}

/// Each way in which a session is refused has its own words.
pub proof fn law_refusals_are_told_apart(a: SessionError, b: SessionError)
    ensures
        SessionError::Uncommitted.words() == "Uncommitted session entries"@,
        SessionError::Parent.words() == "Invalid session parent"@,
        SessionError::Cursor.words() == "Invalid session cursor"@,
        SessionError::Header.words() == "Invalid session header"@,
        SessionError::Incomplete.words() == "Incomplete session header"@,
        a.words() == b.words() ==> a == b,
{
    reveal_strlit("Uncommitted session entries");
    reveal_strlit("Invalid session parent");
    reveal_strlit("Invalid session cursor");
    reveal_strlit("Invalid session header");
    reveal_strlit("Incomplete session header");
    assert("Uncommitted session entries"@[0] == 'U');
    assert("Incomplete session header"@.len() == 25);
    assert("Invalid session parent"@.len() == 22 && "Invalid session parent"@[16] == 'p');
    assert("Invalid session cursor"@.len() == 22 && "Invalid session cursor"@[16] == 'c');
    assert("Invalid session header"@.len() == 22 && "Invalid session header"@[16] == 'h');
}

} // verus!
