//! The conversation with the model: the request, the streamed reply and the
//! step that it makes.
use crate::block::{
    self, call_block, gathered, item_block, message_text, option_view, plain, Block, BlockView, Kind, OutputView, Tool,
    ToolOutput, ToolStatus, ToolView,
};
use crate::json::{self, compacted, trees, Json, Tree};
use crate::session::{inputs_of, record_views, usage_of, Record, RecordView, Usage};
use crate::process::Exit;
use crate::sse::{self, payload_views, Payload, PayloadView, Sse, SseView};
use crate::text;
use crate::tools::BashResult;
use vstd::prelude::*;
use vstd::string::StringExecFns;

verus! {

/// What a model is asked.
#[derive(Debug)]
pub struct Request {
    pub instructions: String,
    pub model: String,
    pub effort: Option<String>,
    pub input: Vec<Json>,
    pub cwd: String,
    pub previous_usage: Usage,
}

/// The JSON object with one field.
pub open spec fn single(name: Seq<char>, value: Tree) -> Tree {
    Tree::Object(seq![(name, value)])
}

/// The description of the one tool.
pub open spec fn bash_tool() -> Tree {
    Tree::Object(
        seq![
            ("type"@, Tree::Text("function"@)),
            ("name"@, Tree::Text("bash"@)),
            ("description"@, Tree::Text("Special bash commands: view_image"@)),
            ("parameters"@, bash_parameters()),
            ("strict"@, Tree::Bool(false)),
        ],
    )
}

/// The schema of the tool's arguments.
pub open spec fn bash_parameters() -> Tree {
    Tree::Object(
        seq![
            ("type"@, Tree::Text("object"@)),
            (
                "properties"@,
                Tree::Object(
                    seq![
                        ("command"@, single("type"@, Tree::Text("string"@))),
                        ("timeoutMs"@, single("type"@, Tree::Text("integer"@))),
                    ],
                ),
            ),
            ("required"@, Tree::Array(seq![Tree::Text("command"@)])),
            ("additionalProperties"@, Tree::Bool(false)),
        ],
    )
}

/// The fields of every request.
pub open spec fn body_fields(model: Seq<char>, instructions: Seq<char>, input: Seq<Tree>) -> Seq<(Seq<char>, Tree)> {
    seq![
        ("model"@, Tree::Text(model)),
        ("instructions"@, Tree::Text(instructions)),
        ("input"@, Tree::Array(input)),
        ("stream"@, Tree::Bool(true)),
        ("store"@, Tree::Bool(false)),
        ("include"@, Tree::Array(seq![Tree::Text("reasoning.encrypted_content"@)])),
        ("parallel_tool_calls"@, Tree::Bool(true)),
        ("tools"@, Tree::Array(seq![bash_tool()])),
    ]
}

/// How much effort is asked for.
pub open spec fn reasoning(effort: Seq<char>) -> Tree {
    Tree::Object(seq![("effort"@, Tree::Text(effort)), ("summary"@, Tree::Text("auto"@))])
}

/// The body of a request.
pub open spec fn body_tree(
    model: Seq<char>,
    instructions: Seq<char>,
    input: Seq<Tree>,
    effort: Option<Seq<char>>,
) -> Tree {
    let fields = body_fields(model, instructions, input);
    Tree::Object(
        match effort {
            None => fields,
            Some(e) => fields.push(("reasoning"@, reasoning(e))),
        },
    )
}

fn text_value(s: &str) -> (r: Json)
    ensures
        r@ == Tree::Text(s@),
{
    Json::Text(s.to_owned())
}

fn field(name: &str, value: Json) -> (r: (String, Json))
    ensures
        r.0@ == name@,
        r.1@ == value@,
{
    (name.to_owned(), value)
}

fn one_field(name: &str, value: Json) -> (r: Json)
    ensures
        r@ == single(name@, value@),
{
    let fields = vec![field(name, value)];
    assert(json::field_trees(fields@) =~= single(name@, value@)->Object_0);
    json::object(fields)
}

fn one_item(value: Json) -> (r: Json)
    ensures
        r@ == Tree::Array(seq![value@]),
{
    let items = vec![value];
    assert(trees(items@) =~= seq![value@]);
    json::array(items)
}

fn parameters() -> (r: Json)
    ensures
        r@ == bash_parameters(),
{
    let command = one_field("type", text_value("string"));
    let timeout = one_field("type", text_value("integer"));
    let properties = vec![field("command", command), field("timeoutMs", timeout)];
    let fields = vec![
        field("type", text_value("object")),
        field("properties", json::object(properties)),
        field("required", one_item(text_value("command"))),
        field("additionalProperties", Json::Bool(false)),
    ];
    proof {
        let want = bash_parameters()->Object_0;
        assert(json::field_trees(properties@) =~= want[1].1->Object_0);
        assert(json::field_trees(fields@) =~= want);
    }
    json::object(fields)
}

fn tool_description() -> (r: Json)
    ensures
        r@ == bash_tool(),
{
    let fields = vec![
        field("type", text_value("function")),
        field("name", text_value("bash")),
        field("description", text_value("Special bash commands: view_image")),
        field("parameters", parameters()),
        field("strict", Json::Bool(false)),
    ];
    assert(json::field_trees(fields@) =~= bash_tool()->Object_0);
    json::object(fields)
}

/// Copies of the items.
fn copies(items: &[Json]) -> (r: Vec<Json>)
    ensures
        trees(r@) == trees(items@),
{
    let mut out: Vec<Json> = Vec::new();
    let mut i: usize = 0;
    while i < items.len()
        invariant
            i <= items@.len(),
            out@.len() == i,
            forall|k: int| 0 <= k < i ==> #[trigger] out@[k]@ == items@[k]@,
        decreases items@.len() - i,
    {
        out.push(items[i].clone());
        i += 1;
    }
    assert(trees(out@) =~= trees(items@));
    out
}

impl Request {
    /// The body of the request.
    pub fn body(&self) -> (r: Json)
        ensures
            r@ == body_tree(self.model@, self.instructions@, trees(self.input@), option_view(self.effort)),
    {
        let mut fields = vec![
            field("model", Json::Text(self.model.clone())),
            field("instructions", Json::Text(self.instructions.clone())),
            field("input", json::array(copies(&self.input))),
            field("stream", Json::Bool(true)),
            field("store", Json::Bool(false)),
            field("include", one_item(text_value("reasoning.encrypted_content"))),
            field("parallel_tool_calls", Json::Bool(true)),
            field("tools", one_item(tool_description())),
        ];
        let ghost all = body_fields(self.model@, self.instructions@, trees(self.input@));
        assert(json::field_trees(fields@) =~= all);
        if let Some(effort) = &self.effort {
            let asked = vec![field("effort", Json::Text(effort.clone())), field("summary", text_value("auto"))];
            assert(json::field_trees(asked@) =~= reasoning(effort@)->Object_0);
            fields.push(field("reasoning", json::object(asked)));
            assert(json::field_trees(fields@) =~= all.push(("reasoning"@, reasoning(effort@))));
        }
        json::object(fields)
    }
}

/// What a step of the conversation adds to it.
#[derive(Debug)]
pub struct Step {
    pub entries: Vec<Record>,
    pub usage: Usage,
    pub again: bool,
}

/// The model of [`Step`].
pub struct StepView {
    pub entries: Seq<RecordView>,
    pub usage: Usage,
    pub again: bool,
}

impl View for Step {
    type V = StepView;

    open spec fn view(&self) -> StepView {
        StepView { entries: record_views(self.entries@), usage: self.usage, again: self.again }
    }
}

/// What happens while a reply comes in. Blocks are numbered in the order in
/// which they were pushed.
#[derive(Debug)]
pub enum Event {
    Push(Block),
    Delta(usize, String),
    Replace(usize, Block),
    ToolOutput(usize, ToolOutput),
    CacheMiss,
    Done(Result<Step, String>),
}

/// The model of [`Event`].
pub enum EventView {
    Push(BlockView),
    Delta(int, Seq<char>),
    Replace(int, BlockView),
    ToolOutput(int, OutputView),
    CacheMiss,
    Done(Result<StepView, Seq<char>>),
}

impl View for Event {
    type V = EventView;

    open spec fn view(&self) -> EventView {
        match self {
            Event::Push(block) => EventView::Push(block@),
            Event::Delta(slot, text) => EventView::Delta(*slot as int, text@),
            Event::Replace(slot, block) => EventView::Replace(*slot as int, block@),
            Event::ToolOutput(slot, output) => EventView::ToolOutput(*slot as int, output@),
            Event::CacheMiss => EventView::CacheMiss,
            Event::Done(Ok(step)) => EventView::Done(Ok(step@)),
            Event::Done(Err(e)) => EventView::Done(Err(e@)),
        }
    }
}

/// What each event says.
pub open spec fn event_views(events: Seq<Event>) -> Seq<EventView> {
    events.map_values(|e: Event| e@)
}

/// The block that shows output `index`, from block `from` on; the number of
/// blocks if there is none. `slots` holds the output that each block shows.
pub open spec fn slot_from(slots: Seq<usize>, index: usize, from: int) -> int
    decreases slots.len() - from,
{
    if from < 0 || from >= slots.len() || slots[from] == index {
        from
    } else {
        slot_from(slots, index, from + 1)
    }
}

/// The block that shows output `index`, or else the next one.
pub open spec fn slot_of(slots: Seq<usize>, index: usize) -> int {
    slot_from(slots, index, 0)
}

proof fn lemma_slot(slots: Seq<usize>, index: usize, from: int)
    requires
        0 <= from <= slots.len(),
    ensures
        from <= slot_from(slots, index, from) <= slots.len(),
        slot_from(slots, index, from) < slots.len() ==> slots[slot_from(slots, index, from)] == index,
        forall|k: int| from <= k < slot_from(slots, index, from) ==> slots[k] != index,
    decreases slots.len() - from,
{
    if from < slots.len() && slots[from] != index {
        lemma_slot(slots, index, from + 1);
    }
}

/// The blocks once output `index` is shown.
pub open spec fn shown(slots: Seq<usize>, index: usize) -> Seq<usize> {
    if slot_of(slots, index) < slots.len() {
        slots
    } else {
        slots.push(index)
    }
}

/// The event that shows `block` for output `index`.
pub open spec fn shows(slots: Seq<usize>, index: usize, block: BlockView) -> EventView {
    if slot_of(slots, index) < slots.len() {
        EventView::Replace(slot_of(slots, index), block)
    } else {
        EventView::Push(block)
    }
}

/// The block that shows an item while a reply comes in: what the model says, the
/// summary of what it thinks, or its call of a tool; none for an item of another
/// type. While the item is still being received, `partial` holds.
pub open spec fn displayed(item: Tree, partial: bool) -> Option<BlockView> {
    match item.text("type"@) {
        None => None,
        Some(typ) => if typ == "message"@ {
            Some(plain(Kind::Agent, message_text(item)))
        } else if typ == "reasoning"@ {
            Some(plain(Kind::Thought, gathered(item, "summary"@, "summary_text"@)))
        } else if typ == "function_call"@ {
            Some(call_block(item, partial))
        } else {
            None
        },
    }
}

/// The block that shows an item while a reply comes in.
pub fn display(item: &Json, partial: bool) -> (r: Option<Block>)
    ensures
        r is Some <==> displayed(item@, partial) is Some,
        r matches Some(b) ==> displayed(item@, partial) == Some(b@),
{
    let typ = match item.text("type") {
        Some(typ) => typ,
        None => return None,
    };
    if text::same(typ, "message") {
        Some(Block::new(Kind::Agent, block::said(item)))
    } else if text::same(typ, "reasoning") {
        Some(Block::new(Kind::Thought, block::gather(item, "summary", "summary_text")))
    } else if text::same(typ, "function_call") {
        Some(Block::of_call(item, partial))
    } else {
        None
    }
}

/// An item is shown while it comes in as it is in the conversation afterwards.
/// The exceptions are a text of the user, and a thought without a summary, of
/// which the conversation shows the reasoning itself.
pub proof fn law_items_are_shown_as_committed(item: Tree, partial: bool)
    requires
        !(item.text("role"@) == Some("user"@) && item.text("content"@) is Some),
        item.text("type"@) == Some("reasoning"@) && gathered(item, "summary"@, "summary_text"@).len() == 0
            ==> gathered(item, "content"@, "reasoning_text"@).len() == 0,
    ensures
        displayed(item, partial) == item_block(item, partial),
{
    if item.text("type"@) == Some("reasoning"@) {
        assert(item_block(item, partial)->0.text =~= displayed(item, partial)->0.text);
    }
}

/// What is known of a reply: the outputs that the blocks show, the items in the
/// order of their outputs, and the response once it is complete.
pub struct ReplyView {
    pub slots: Seq<usize>,
    pub items: Seq<(usize, Tree)>,
    pub completed: Option<Tree>,
}

/// The place of output `index` among the items.
pub open spec fn place_of(items: Seq<(usize, Tree)>, index: usize) -> int
    decreases items.len(),
{
    if items.len() == 0 || items[0].0 >= index {
        0
    } else {
        1 + place_of(items.drop_first(), index)
    }
}

/// The item of output `index`.
pub open spec fn item_at(items: Seq<(usize, Tree)>, index: usize) -> Option<Tree> {
    let k = place_of(items, index);
    if 0 <= k < items.len() && items[k].0 == index {
        Some(items[k].1)
    } else {
        None
    }
}

/// The items with `item` for output `index`.
pub open spec fn item_put(items: Seq<(usize, Tree)>, index: usize, item: Tree) -> Seq<(usize, Tree)> {
    let k = place_of(items, index);
    if item_at(items, index) is Some {
        items.update(k, (index, item))
    } else {
        items.insert(k, (index, item))
    }
}

/// The output that an event is about.
pub open spec fn output_index(event: Tree) -> usize {
    crate::session::or_zero(event.at("output_index"@).as_unsigned()) as usize
}

/// The type of an event.
pub open spec fn event_type(event: Tree) -> Seq<char> {
    crate::block::or_else(event.text("type"@), ""@)
}

/// The kind of block that an event of type `typ` adds text to.
pub open spec fn delta_kind(typ: Seq<char>) -> Option<Kind> {
    if typ == "response.output_text.delta"@ || typ == "response.refusal.delta"@ {
        Some(Kind::Agent)
    } else if typ == "response.reasoning_summary_text.delta"@ || typ == "response.reasoning_text.delta"@ {
        Some(Kind::Thought)
    } else {
        None
    }
}

/// What an event does: the reply after it, and what is shown.
pub struct Taken {
    pub reply: ReplyView,
    pub events: Seq<EventView>,
}

/// `reply` with `item` for output `index`, and shown where it can be.
pub open spec fn with_item(reply: ReplyView, index: usize, item: Tree, partial: bool) -> Taken {
    let items = item_put(reply.items, index, item);
    match displayed(item, partial) {
        Some(block) => Taken {
            reply: ReplyView { slots: shown(reply.slots, index), items, completed: reply.completed },
            events: seq![shows(reply.slots, index, block)],
        },
        None => Taken {
            reply: ReplyView { slots: reply.slots, items, completed: reply.completed },
            events: seq![],
        },
    }
}

/// `reply` with text added to output `index`.
pub open spec fn with_delta(reply: ReplyView, index: usize, kind: Kind, delta: Seq<char>) -> Taken {
    let tail = EventView::Delta(slot_of(reply.slots, index), delta);
    Taken {
        reply: ReplyView { slots: shown(reply.slots, index), ..reply },
        events: if slot_of(reply.slots, index) < reply.slots.len() {
            seq![tail]
        } else {
            seq![EventView::Push(plain(kind, ""@)), tail]
        },
    }
}

/// The item of output `index`, or a call that nothing is known of.
pub open spec fn call_at(reply: ReplyView, index: usize) -> Tree {
    match item_at(reply.items, index) {
        Some(item) => item,
        None => single("type"@, Tree::Text("function_call"@)),
    }
}

/// The words for an event that ends the reply.
pub open spec fn refused(source: Seq<char>) -> Seq<char> {
    "Responses API: "@ + crate::block::or_else(compacted(source), source)
}

/// What an event does to a reply: what is known and shown after it, or why the
/// reply is given up. Arguments cannot be given to an item that is no object.
pub open spec fn taken(reply: ReplyView, previous: Usage, event: PayloadView) -> Result<Taken, Seq<char>> {
    let index = output_index(event.value);
    let typ = event_type(event.value);
    if typ == "response.output_item.added"@ || typ == "response.output_item.done"@ {
        Ok(with_item(reply, index, event.value.at("item"@), typ == "response.output_item.added"@))
    } else if delta_kind(typ) is Some {
        Ok(
            with_delta(
                reply,
                index,
                delta_kind(typ)->0,
                crate::block::or_else(event.value.text("delta"@), ""@),
            ),
        )
    } else if typ == "response.function_call_arguments.delta"@ || typ
        == "response.function_call_arguments.done"@ {
        let item = call_at(reply, index);
        let more = typ == "response.function_call_arguments.delta"@;
        let arguments = if more {
            Tree::Text(
                crate::block::or_else(item.text("arguments"@), ""@) + crate::block::or_else(
                    event.value.text("delta"@),
                    ""@,
                ),
            )
        } else {
            event.value.at("arguments"@)
        };
        if item.settable() {
            Ok(with_item(reply, index, item.set("arguments"@, arguments), more))
        } else {
            Err(refused(event.source))
        }
    } else if typ == "response.completed"@ {
        let response = event.value.at("response"@);
        Ok(
            Taken {
                reply: ReplyView { completed: Some(response), ..reply },
                events: if usage_of(response.at("usage"@)).missed(previous) {
                    seq![EventView::CacheMiss]
                } else {
                    seq![]
                },
            },
        )
    } else if typ == "response.failed"@ || typ == "response.incomplete"@ || typ == "error"@ {
        Err(refused(event.source))
    } else {
        Ok(Taken { reply, events: seq![] })
    }
}

/// What events do in turn, up to the first that ends the reply.
pub open spec fn taken_all(reply: ReplyView, previous: Usage, events: Seq<PayloadView>) -> (Taken, Option<Seq<char>>)
    decreases events.len(),
{
    if events.len() == 0 {
        (Taken { reply, events: seq![] }, None)
    } else {
        let (before, failure) = taken_all(reply, previous, events.drop_last());
        match failure {
            Some(e) => (before, Some(e)),
            None => match taken(before.reply, previous, events.last()) {
                Err(e) => (before, Some(e)),
                Ok(t) => (Taken { reply: t.reply, events: before.events + t.events }, None),
            },
        }
    }
}

/// The items that are held, by output.
pub open spec fn item_views(items: Seq<(usize, Json)>) -> Seq<(usize, Tree)> {
    items.map_values(|p: (usize, Json)| (p.0, p.1@))
}

/// A reply as it comes in.
#[derive(Debug)]
pub struct Reply {
    slots: Vec<usize>,
    items: Vec<(usize, Json)>,
    completed: Option<Json>,
}

impl View for Reply {
    type V = ReplyView;

    closed spec fn view(&self) -> ReplyView {
        ReplyView {
            slots: self.slots@,
            items: item_views(self.items@),
            completed: match self.completed {
                Some(v) => Some(v@),
                None => None,
            },
        }
    }
}

/// A reply of which nothing has come in.
pub open spec fn no_reply() -> ReplyView {
    ReplyView { slots: seq![], items: seq![], completed: None }
}

impl Default for Reply {
    fn default() -> (r: Reply)
        ensures
            r@ == no_reply(),
    {
        let r = Reply { slots: Vec::new(), items: Vec::new(), completed: None };
        assert(r@.items =~= no_reply().items);
        r
    }
}

proof fn lemma_place(items: Seq<(usize, Tree)>, index: usize, k: int)
    requires
        0 <= k <= items.len(),
        forall|j: int| 0 <= j < k ==> (#[trigger] items[j]).0 < index,
        k < items.len() ==> items[k].0 >= index,
    ensures
        place_of(items, index) == k,
    decreases items.len(),
{
    if k > 0 {
        let rest = items.drop_first();
        assert(items[0].0 < index);
        assert forall|j: int| 0 <= j < k - 1 implies (#[trigger] rest[j]).0 < index by {
            assert(rest[j] == items[j + 1]);
        }
        lemma_place(rest, index, k - 1);
    }
}

impl Reply {
    /// The block that shows output `index`, or else the next one.
    fn slot(&self, index: usize) -> (r: usize)
        ensures
            r == slot_of(self@.slots, index),
            r <= self.slots@.len(),
    {
        let mut k: usize = 0;
        while k < self.slots.len() && self.slots[k] != index
            invariant
                k <= self.slots@.len(),
                slot_of(self.slots@, index) == slot_from(self.slots@, index, k as int),
            decreases self.slots@.len() - k,
        {
            k += 1;
        }
        k
    }

    /// The place of output `index` among the items.
    fn place(&self, index: usize) -> (r: usize)
        ensures
            r == place_of(self@.items, index),
            r <= self.items@.len(),
    {
        let mut k: usize = 0;
        while k < self.items.len() && self.items[k].0 < index
            invariant
                k <= self.items@.len(),
                forall|j: int| 0 <= j < k ==> (#[trigger] self@.items[j]).0 < index,
            decreases self.items@.len() - k,
        {
            assert(self@.items[k as int].0 == self.items@[k as int].0);
            k += 1;
        }
        proof {
            if k < self.items@.len() {
                assert(self@.items[k as int].0 == self.items@[k as int].0);
            }
            lemma_place(self@.items, index, k as int);
        }
        k
    }

    /// Shows `block` for output `index`.
    fn upsert(&mut self, index: usize, block: Block) -> (r: Event)
        ensures
            r@ == shows(old(self)@.slots, index, block@),
            final(self)@ == (ReplyView { slots: shown(old(self)@.slots, index), ..old(self)@ }),
    {
        let slot = self.slot(index);
        if slot < self.slots.len() {
            Event::Replace(slot, block)
        } else {
            self.slots.push(index);
            Event::Push(block)
        }
    }

    /// Adds text to output `index`.
    fn delta(&mut self, index: usize, kind: Kind, text: String) -> (r: Vec<Event>)
        ensures
            final(self)@ == with_delta(old(self)@, index, kind, text@).reply,
            event_views(r@) == with_delta(old(self)@, index, kind, text@).events,
    {
        let mut events: Vec<Event> = Vec::new();
        let slot = self.slot(index);
        if slot == self.slots.len() {
            events.push(Event::Push(Block::new(kind, "".to_owned())));
            self.slots.push(index);
        }
        events.push(Event::Delta(slot, text));
        assert(event_views(events@) =~= with_delta(old(self)@, index, kind, text@).events);
        events
    }

    /// Takes over the item of output `index`.
    fn put(&mut self, index: usize, item: Json, partial: bool) -> (r: Vec<Event>)
        ensures
            final(self)@ == with_item(old(self)@, index, item@, partial).reply,
            event_views(r@) == with_item(old(self)@, index, item@, partial).events,
    {
        let ghost after = with_item(self@, index, item@, partial);
        let mut events: Vec<Event> = Vec::new();
        if let Some(block) = display(&item, partial) {
            events.push(self.upsert(index, block));
        }
        assert(event_views(events@) =~= after.events);
        let k = self.place(index);
        let ghost items = self.items@;
        if k < self.items.len() && self.items[k].0 == index {
            self.items[k] = (index, item);
            assert(item_views(self.items@) =~= item_views(items).update(k as int, (index, item@)));
        } else {
            self.items.insert(k, (index, item));
            assert(item_views(self.items@) =~= item_views(items).insert(k as int, (index, item@)));
        }
        events
    }

    /// The item of output `index`, or a call that nothing is known of.
    fn call(&self, index: usize) -> (r: Json)
        ensures
            r@ == call_at(self@, index),
    {
        let k = self.place(index);
        if k < self.items.len() && self.items[k].0 == index {
            self.items[k].1.clone()
        } else {
            one_field("type", text_value("function_call"))
        }
    }

    /// Takes in one event of the stream: what is shown, or why the reply is
    /// given up.
    pub fn take(&mut self, previous: Usage, event: &Payload) -> (r: Result<Vec<Event>, String>)
        ensures
            match taken(old(self)@, previous, event@) {
                Ok(t) => r is Ok && event_views(r->Ok_0@) == t.events && final(self)@ == t.reply,
                Err(e) => r is Err && r->Err_0@ == e && final(self)@ == old(self)@,
            },
    {
        let value = &event.value;
        let index = value.unsigned("output_index").unwrap_or(0) as usize;
        let typ = text_or_none(value.text("type"));
        if text::same(&typ, "response.output_item.added") || text::same(&typ, "response.output_item.done") {
            let item = value.at("item");
            return Ok(self.put(index, item, text::same(&typ, "response.output_item.added")));
        }
        if let Some(kind) = kind_of_delta(&typ) {
            return Ok(self.delta(index, kind, text_or_none(value.text("delta"))));
        }
        let more = text::same(&typ, "response.function_call_arguments.delta");
        if more || text::same(&typ, "response.function_call_arguments.done") {
            let mut item = self.call(index);
            let arguments = if more {
                let mut raw = text_or_none(item.text("arguments"));
                raw.append(&text_or_none(value.text("delta")));
                Json::Text(raw)
            } else {
                value.at("arguments")
            };
            let settable = match &item {
                Json::Object(_) => true,
                Json::Null => true,
                _ => false,
            };
            if !settable {
                return Err(refusal(&event.source));
            }
            item.set("arguments", arguments);
            return Ok(self.put(index, item, more));
        }
        let mut events: Vec<Event> = Vec::new();
        if text::same(&typ, "response.completed") {
            let response = value.at("response");
            if Usage::from_json(&response.at("usage")).cache_miss(previous) {
                events.push(Event::CacheMiss);
            }
            self.completed = Some(response);
        } else if text::same(&typ, "response.failed") || text::same(&typ, "response.incomplete") || text::same(
            &typ,
            "error",
        ) {
            return Err(refusal(&event.source));
        }
        assert(event_views(events@) =~= taken(old(self)@, previous, event@)->Ok_0.events);
        Ok(events)
    }
}

fn text_or_none(s: Option<&String>) -> (r: String)
    ensures
        s matches Some(s) ==> r@ == s@,
        s is None ==> r@ == ""@,
{
    match s {
        Some(s) => s.clone(),
        None => "".to_owned(),
    }
}

fn kind_of_delta(typ: &str) -> (r: Option<Kind>)
    ensures
        r == delta_kind(typ@),
{
    if text::same(typ, "response.output_text.delta") || text::same(typ, "response.refusal.delta") {
        Some(Kind::Agent)
    } else if text::same(typ, "response.reasoning_summary_text.delta") || text::same(
        typ,
        "response.reasoning_text.delta",
    ) {
        Some(Kind::Thought)
    } else {
        None
    }
}

fn refusal(source: &str) -> (r: String)
    ensures
        r@ == refused(source@),
{
    match json::compact(source) {
        Some(event) => text::cat("Responses API: ", &event),
        None => text::cat("Responses API: ", source),
    }
}

/// How much is kept of what the transport complains about.
pub const ERROR_LIMIT: usize = 8192;

/// How much is kept of the beginning of the stream.
pub const PREVIEW_LIMIT: usize = 2048;

/// A response as it is received.
#[derive(Debug)]
pub struct Stream {
    sse: Sse,
    reply: Reply,
    errors: Vec<u8>,
    preview: Vec<u8>,
    previous: Usage,
}

/// The model of [`Stream`].
pub struct StreamView {
    pub sse: SseView,
    pub reply: ReplyView,
    pub errors: Seq<u8>,
    pub preview: Seq<u8>,
    pub previous: Usage,
}

impl View for Stream {
    type V = StreamView;

    closed spec fn view(&self) -> StreamView {
        StreamView {
            sse: self.sse@,
            reply: self.reply@,
            errors: self.errors@,
            preview: self.preview@,
            previous: self.previous,
        }
    }
}

/// The first bytes of `bytes`, at most `limit`.
pub open spec fn beginning(bytes: Seq<u8>, limit: usize) -> Seq<u8> {
    if bytes.len() <= limit {
        bytes
    } else {
        bytes.take(limit as int)
    }
}

fn keep(held: &mut Vec<u8>, bytes: &[u8], limit: usize)
    requires
        old(held)@.len() <= limit,
    ensures
        final(held)@ == beginning(old(held)@ + bytes@, limit),
        final(held)@.len() <= limit,
{
    let ghost before = held@;
    let room = limit - held.len();
    if bytes.len() <= room {
        held.extend_from_slice(bytes);
        assert(held@ =~= before + bytes@);
    } else {
        held.extend_from_slice(vstd::slice::slice_subrange(bytes, 0, room));
        assert(held@ =~= (before + bytes@).take(limit as int));
    }
}

/// What bytes of the response do: what is shown, and why the reply is given up.
pub open spec fn received(stream: StreamView, bytes: Seq<u8>) -> (Taken, Option<Seq<char>>) {
    let all = sse::fed(stream.sse, bytes);
    let nothing = Taken { reply: stream.reply, events: seq![] };
    if sse::too_long(all) {
        (nothing, Some(sse::StreamErrorView::TooLong.words()))
    } else {
        match sse::drained(all) {
            Err(b) => (nothing, Some(b.error.words())),
            Ok(d) => taken_all(stream.reply, stream.previous, d.events),
        }
    }
}

/// What is left of the stream once bytes were taken in.
pub open spec fn left_over(sse: SseView, bytes: Seq<u8>) -> SseView {
    let all = sse::fed(sse, bytes);
    if sse::too_long(all) {
        all
    } else {
        match sse::drained(all) {
            Err(b) => b.left,
            Ok(d) => d.left,
        }
    }
}

impl Stream {
    /// What is kept for an error message is bounded.
    pub open spec fn wf(&self) -> bool {
        self@.errors.len() <= ERROR_LIMIT && self@.preview.len() <= PREVIEW_LIMIT
    }

    /// A response of which nothing has come in; `previous` is what the response
    /// before it took.
    pub fn new(previous: Usage) -> (r: Stream)
        ensures
            r.wf(),
            r@.sse == (SseView { pending: seq![], data: seq![] }),
            r@.reply == no_reply(),
            r@.errors == Seq::<u8>::empty(),
            r@.preview == Seq::<u8>::empty(),
            r@.previous == previous,
    {
        let sse = Sse::default();
        assert(sse@.pending =~= seq![]);
        assert(sse@.data =~= seq![]);
        Stream { sse, reply: Reply::default(), errors: Vec::new(), preview: Vec::new(), previous }
    }

    /// Takes in bytes of the response, or of the complaints about it: what is
    /// shown, and why the reply is given up.
    pub fn chunk(&mut self, stderr: bool, bytes: &[u8]) -> (r: (Vec<Event>, Option<String>))
        requires
            old(self).wf(),
        ensures
            final(self).wf(),
            stderr ==> r.0@.len() == 0 && r.1 is None && final(self)@ == (StreamView {
                errors: beginning(old(self)@.errors + bytes@, ERROR_LIMIT),
                ..old(self)@
            }),
            !stderr ==> event_views(r.0@) == received(old(self)@, bytes@).0.events,
            !stderr ==> option_view(r.1) == received(old(self)@, bytes@).1,
            !stderr ==> final(self)@ == (StreamView {
                sse: left_over(old(self)@.sse, bytes@),
                reply: received(old(self)@, bytes@).0.reply,
                preview: beginning(old(self)@.preview + bytes@, PREVIEW_LIMIT),
                ..old(self)@
            }),
    {
        if stderr {
            keep(&mut self.errors, bytes, ERROR_LIMIT);
            return (Vec::new(), None);
        }
        keep(&mut self.preview, bytes, PREVIEW_LIMIT);
        let mut out: Vec<Event> = Vec::new();
        let ghost reply = self.reply@;
        let ghost want = received(old(self)@, bytes@);
        assert(event_views(out@) =~= seq![]);
        let payloads = match self.sse.feed(bytes) {
            Ok(payloads) => payloads,
            Err(e) => return (out, Some(e.message())),
        };
        let ghost all = payload_views(payloads@);
        let mut i: usize = 0;
        while i < payloads.len()
            invariant
                i <= payloads@.len(),
                !stderr,
                all == payload_views(payloads@),
                want == received(old(self)@, bytes@),
                want == taken_all(reply, self.previous, all),
                self.reply@ == taken_all(reply, self.previous, all.take(i as int)).0.reply,
                event_views(out@) == taken_all(reply, self.previous, all.take(i as int)).0.events,
                taken_all(reply, self.previous, all.take(i as int)).1 is None,
                self.errors@.len() <= ERROR_LIMIT && self.preview@.len() <= PREVIEW_LIMIT,
                self.sse@ == left_over(old(self)@.sse, bytes@),
                self.preview@ == beginning(old(self)@.preview + bytes@, PREVIEW_LIMIT),
                self.errors@ == old(self)@.errors,
                self.previous == old(self)@.previous,
            decreases payloads@.len() - i,
        {
            proof {
                assert(all.take(i + 1).drop_last() =~= all.take(i as int));
                assert(all.take(i + 1).last() == payloads@[i as int]@);
            }
            match self.reply.take(self.previous, &payloads[i]) {
                Err(e) => {
                    proof {
                        lemma_failure_stays(reply, self.previous, all, i + 1);
                    }
                    return (out, Some(e));
                },
                Ok(events) => {
                    let mut events = events;
                    let ghost before = out@;
                    let ghost more = events@;
                    out.append(&mut events);
                    assert(event_views(out@) =~= event_views(before) + event_views(more));
                },
            }
            i += 1;
        }
        assert(all.take(i as int) =~= all);
        (out, None)
    }
}

/// Nothing is taken in behind an event that ends the reply.
proof fn lemma_failure_stays(reply: ReplyView, previous: Usage, events: Seq<PayloadView>, n: int)
    requires
        0 <= n <= events.len(),
        taken_all(reply, previous, events.take(n)).1 is Some,
    ensures
        taken_all(reply, previous, events) == taken_all(reply, previous, events.take(n)),
    decreases events.len(),
{
    if n == events.len() {
        assert(events.take(n) =~= events);
    } else {
        assert(events.drop_last().take(n) =~= events.take(n));
        lemma_failure_stays(reply, previous, events.drop_last(), n);
    }
}

/// What two runs of events do is what the first does, and then the second.
proof fn lemma_taken_append(reply: ReplyView, previous: Usage, a: Seq<PayloadView>, b: Seq<PayloadView>)
    requires
        taken_all(reply, previous, a).1 is None,
    ensures
        ({
            let (first, _) = taken_all(reply, previous, a);
            let (second, failure) = taken_all(first.reply, previous, b);
            taken_all(reply, previous, a + b) == (
                Taken { reply: second.reply, events: first.events + second.events },
                failure,
            )
        }),
    decreases b.len(),
{
    let first = taken_all(reply, previous, a).0;
    if b.len() == 0 {
        assert(a + b =~= a);
        assert(first.events + Seq::<EventView>::empty() =~= first.events);
    } else {
        lemma_taken_append(reply, previous, a, b.drop_last());
        assert((a + b).drop_last() =~= a + b.drop_last());
        assert((a + b).last() == b.last());
        let before = taken_all(first.reply, previous, b.drop_last()).0;
        if let Ok(t) = taken(before.reply, previous, b.last()) {
            assert((first.events + before.events) + t.events =~= first.events + (before.events + t.events));
        }
    }
}

/// A reply is the same however it is cut into chunks, as long as no event is too
/// long: the same is known and shown, and it is given up for the same reason.
pub proof fn law_replies_ignore_chunks(stream: StreamView, first: Seq<u8>, second: Seq<u8>)
    requires
        !sse::too_long(sse::fed(stream.sse, first)),
        !sse::too_long(sse::fed(stream.sse, first + second)),
        !sse::too_long(sse::fed(left_over(stream.sse, first), second)),
        received(stream, first).1 is None,
        sse::drained(sse::fed(stream.sse, first + second)) is Ok,
    ensures
        ({
            let a = received(stream, first).0;
            let between = StreamView { sse: left_over(stream.sse, first), reply: a.reply, ..stream };
            let (b, failure) = received(between, second);
            &&& received(stream, first + second) == (
                Taken { reply: b.reply, events: a.events + b.events },
                failure,
            )
            &&& left_over(stream.sse, first + second) == left_over(between.sse, second)
        }),
{
    sse::law_chunks_do_not_matter(stream.sse, first, second);
    let a = sse::drained(sse::fed(stream.sse, first));
    if let Ok(d) = a {
        let rest = sse::drained(sse::fed(d.left, second));
        lemma_taken_append(stream.reply, stream.previous, d.events, rest->Ok_0.events);
    }
}

/// What is shown of the items of the final output: the outputs of the blocks
/// after it, and the events.
pub open spec fn shown_all(slots: Seq<usize>, output: Seq<Tree>) -> (Seq<usize>, Seq<EventView>)
    decreases output.len(),
{
    if output.len() == 0 {
        (slots, seq![])
    } else {
        let (before, events) = shown_all(slots, output.drop_last());
        let index = (output.len() - 1) as usize;
        match displayed(output.last(), false) {
            Some(block) => (shown(before, index), events.push(shows(before, index, block))),
            None => (before, events),
        }
    }
}

/// Whether an item is a call of a tool.
pub open spec fn is_call(item: Tree) -> bool {
    item.text("type"@) == Some("function_call"@)
}

/// A call of a tool: the block that shows it, and what is to be run.
#[derive(Debug)]
pub struct Call {
    pub slot: usize,
    pub block: Block,
    pub bash: bool,
    pub arguments: String,
}

/// The model of [`Call`].
pub struct CallView {
    pub slot: int,
    pub block: BlockView,
    pub bash: bool,
    pub arguments: Seq<char>,
}

impl View for Call {
    type V = CallView;

    open spec fn view(&self) -> CallView {
        CallView {
            slot: self.slot as int,
            block: self.block@,
            bash: self.bash,
            arguments: self.arguments@,
        }
    }
}

/// What each call says.
pub open spec fn call_views(calls: Seq<Call>) -> Seq<CallView> {
    calls.map_values(|c: Call| c@)
}

/// The call that item `index` makes.
pub open spec fn call_of(slots: Seq<usize>, item: Tree, index: usize) -> CallView {
    CallView {
        slot: slot_of(slots, index),
        block: call_block(item, false),
        bash: item.text("name"@) == Some("bash"@),
        arguments: crate::block::or_else(item.text("arguments"@), ""@),
    }
}

/// The calls among the items, in their order.
pub open spec fn calls_of(slots: Seq<usize>, output: Seq<Tree>) -> Seq<CallView>
    decreases output.len(),
{
    if output.len() == 0 {
        seq![]
    } else {
        let before = calls_of(slots, output.drop_last());
        if is_call(output.last()) {
            before.push(call_of(slots, output.last(), (output.len() - 1) as usize))
        } else {
            before
        }
    }
}

/// A complete response: its items, what it took, what is shown of it and the
/// calls that it makes.
#[derive(Debug)]
pub struct Turn {
    pub output: Vec<Json>,
    pub usage: Usage,
    pub events: Vec<Event>,
    pub calls: Vec<Call>,
}

/// The final items: those of the response, or else those that came in.
pub open spec fn final_output(reply: ReplyView) -> Seq<Tree> {
    match reply.completed->0.at("output"@).as_array() {
        Some(output) => output,
        None => reply.items.map_values(|p: (usize, Tree)| p.1),
    }
}

/// Why a response is of no use, if it is not.
pub open spec fn failed(stream: StreamView, exit: Exit) -> Option<Seq<char>> {
    if exit.cancelled {
        Some("Cancelled (partial response not saved)"@)
    } else if exit.timed_out || exit.code != 0 {
        Some(
            "HTTP request failed ("@ + text::signed_decimal(exit.code as int) + "): "@ + sse::lossy_text(stream.errors)
                + " "@ + sse::lossy_text(stream.preview),
        )
    } else if stream.reply.completed is None {
        Some("Stream ended without response.completed: "@ + sse::lossy_text(stream.preview))
    } else {
        None
    }
}

impl Reply {
    /// Shows the items of the final output.
    fn show(&mut self, output: &[Json]) -> (r: Vec<Event>)
        ensures
            final(self)@.slots == shown_all(old(self)@.slots, trees(output@)).0,
            event_views(r@) == shown_all(old(self)@.slots, trees(output@)).1,
    {
        let ghost all = trees(output@);
        let ghost slots = self@.slots;
        let mut events: Vec<Event> = Vec::new();
        let mut i: usize = 0;
        assert(event_views(events@) =~= seq![]);
        while i < output.len()
            invariant
                i <= output@.len(),
                all == trees(output@),
                self@.slots == shown_all(slots, all.take(i as int)).0,
                event_views(events@) == shown_all(slots, all.take(i as int)).1,
            decreases output@.len() - i,
        {
            proof {
                assert(all.take(i + 1).drop_last() =~= all.take(i as int));
                assert(all.take(i + 1).last() == output@[i as int]@);
            }
            if let Some(block) = display(&output[i], false) {
                let ghost before = events@;
                let event = self.upsert(i, block);
                events.push(event);
                assert(event_views(events@) =~= event_views(before).push(event@));
            }
            i += 1;
        }
        assert(all.take(i as int) =~= all);
        events
    }

    /// The calls among the items of the final output.
    fn calls(&self, output: &[Json]) -> (r: Vec<Call>)
        ensures
            call_views(r@) == calls_of(self@.slots, trees(output@)),
            forall|k: int| 0 <= k < r@.len() ==> (#[trigger] r@[k]).wf(),
    {
        let ghost all = trees(output@);
        let mut calls: Vec<Call> = Vec::new();
        let mut i: usize = 0;
        assert(call_views(calls@) =~= seq![]);
        while i < output.len()
            invariant
                i <= output@.len(),
                all == trees(output@),
                call_views(calls@) == calls_of(self@.slots, all.take(i as int)),
                forall|k: int| 0 <= k < calls@.len() ==> (#[trigger] calls@[k]).wf(),
            decreases output@.len() - i,
        {
            let item = &output[i];
            proof {
                assert(all.take(i + 1).drop_last() =~= all.take(i as int));
                assert(all.take(i + 1).last() == item@);
            }
            if item.text_is("type", "function_call") {
                let ghost before = calls@;
                let call = Call {
                    slot: self.slot(i),
                    block: Block::of_call(item, false),
                    bash: item.text_is("name", "bash"),
                    arguments: text_or_none(item.text("arguments")),
                };
                calls.push(call);
                assert(call_views(calls@) =~= call_views(before).push(call@));
            }
            i += 1;
        }
        assert(all.take(i as int) =~= all);
        calls
    }
}

impl Stream {
    /// Ends the response once its transport has ended: the turn that it makes,
    /// or why it is of no use.
    pub fn finish(self, exit: Exit) -> (r: Result<Turn, String>)
        ensures
            match failed(self@, exit) {
                Some(e) => r is Err && r->Err_0@ == e,
                None => r is Ok && ({
                    let turn = r->Ok_0;
                    let output = final_output(self@.reply);
                    let (slots, events) = shown_all(self@.reply.slots, output);
                    &&& trees(turn.output@) == output
                    &&& turn.usage == usage_of(self@.reply.completed->0.at("usage"@))
                    &&& event_views(turn.events@) == events
                    &&& call_views(turn.calls@) == calls_of(slots, output)
                    &&& forall|k: int| 0 <= k < turn.calls@.len() ==> (#[trigger] turn.calls@[k]).wf()
                }),
            },
    {
        if exit.cancelled {
            return Err("Cancelled (partial response not saved)".to_owned());
        }
        if exit.timed_out || exit.code != 0 {
            let mut e = text::cat("HTTP request failed (", &text::signed_digits(exit.code));
            e.append("): ");
            e.append(&sse::lossy(&self.errors));
            e.append(" ");
            e.append(&sse::lossy(&self.preview));
            return Err(e);
        }
        let mut reply = self.reply;
        let response = match &reply.completed {
            Some(response) => response.clone(),
            None => {
                return Err(text::cat("Stream ended without response.completed: ", &sse::lossy(&self.preview)));
            },
        };
        let usage = Usage::from_json(&response.at("usage"));
        let output = match response.array("output") {
            Some(output) => copies(output),
            None => {
                let mut held: Vec<Json> = Vec::new();
                let mut i: usize = 0;
                while i < reply.items.len()
                    invariant
                        i <= reply.items@.len(),
                        held@.len() == i,
                        forall|k: int| 0 <= k < i ==> (#[trigger] held@[k])@ == reply.items@[k].1@,
                    decreases reply.items@.len() - i,
                {
                    held.push(reply.items[i].1.clone());
                    i += 1;
                }
                assert(trees(held@) =~= final_output(reply@));
                held
            },
        };
        assert(trees(output@) == final_output(self@.reply));
        let events = reply.show(&output);
        let calls = reply.calls(&output);
        Ok(Turn { output, usage, events, calls })
    }
}

/// `block` with its call in another state.
pub open spec fn with_tool(block: BlockView, tool: ToolView) -> BlockView {
    BlockView { tool: Some(tool), ..block }
}

/// What a call comes to: the output and status of the command, or the error
/// behind what had come out before.
pub open spec fn answer(
    call_id: Seq<char>,
    latest: OutputView,
    result: Result<(OutputView, ToolStatus), Seq<char>>,
) -> ToolView {
    match result {
        Ok((output, status)) => ToolView { call_id, status, output },
        Err(e) => ToolView {
            call_id,
            status: ToolStatus::Error,
            output: OutputView { text: latest.text + "\n[tool error: "@ + e + "]"@, ..latest },
        },
    }
}

/// A call that was made: the block that shows it, the tool's answer and the
/// pictures that it adds to the conversation.
#[derive(Debug)]
pub struct Answer {
    pub slot: usize,
    pub block: Block,
    pub tool: Tool,
    pub images: Vec<Json>,
}

/// What came of a command.
pub open spec fn result_view(result: Result<BashResult, String>) -> Result<(OutputView, ToolStatus), Seq<char>> {
    match result {
        Ok(done) => Ok((done.output@, done.status)),
        Err(e) => Err(e@),
    }
}

impl Call {
    /// The call is shown as one.
    pub open spec fn wf(&self) -> bool {
        self.block.tool is Some
    }

    /// Why the call cannot be made, if it cannot.
    pub fn refusal(&self) -> (r: Option<String>)
        ensures
            option_view(r) == (if self.bash {
                None::<Seq<char>>
            } else {
                Some("Unknown tool (only bash is available)"@)
            }),
    {
        if self.bash {
            None
        } else {
            Some("Unknown tool (only bash is available)".to_owned())
        }
    }

    /// The block while the call is being made.
    pub fn running(&self) -> (r: Block)
        requires
            self.wf(),
        ensures
            r@ == with_tool(
                self.block@,
                ToolView { status: ToolStatus::Running, ..self.block@.tool->0 },
            ),
    {
        let mut block = self.block.clone();
        if let Some(tool) = block.tool {
            block.tool = Some(Tool { call_id: tool.call_id, status: ToolStatus::Running, output: tool.output });
        }
        block
    }

    /// Ends the call with what came of it; `latest` is the output that was
    /// shown last.
    pub fn done(self, latest: ToolOutput, result: Result<BashResult, String>) -> (r: Answer)
        requires
            self.wf(),
        ensures
            r.slot == self.slot,
            r.tool@ == answer(self.block@.tool->0.call_id, latest@, result_view(result)),
            r.block@ == with_tool(self.block@, r.tool@),
            trees(r.images@) == (match result {
                Ok(done) => trees(done.images@),
                Err(_) => seq![],
            }),
    {
        let mut block = self.block;
        let call_id = match block.tool {
            Some(tool) => tool.call_id,
            None => vstd::pervasive::unreached(),
        };
        let mut images: Vec<Json> = Vec::new();
        assert(trees(images@) =~= seq![]);
        let tool = match result {
            Ok(done) => {
                images = done.images;
                Tool { call_id, status: done.status, output: done.output }
            },
            Err(e) => {
                let mut output = latest;
                output.text.append("\n[tool error: ");
                output.text.append(&e);
                output.text.append("]");
                Tool { call_id, status: ToolStatus::Error, output }
            },
        };
        block.tool = Some(tool.clone());
        Answer { slot: self.slot, block, tool, images }
    }
}

/// Items of the conversation, as entries of the log.
pub open spec fn item_entries(items: Seq<Tree>) -> Seq<RecordView> {
    items.map_values(|item: Tree| RecordView::Item(item))
}

/// The answers of the tools.
pub open spec fn answer_tools(answers: Seq<Answer>) -> Seq<ToolView> {
    answers.map_values(|a: Answer| a.tool@)
}

/// The pictures of all answers, in their order.
pub open spec fn answer_images(answers: Seq<Answer>) -> Seq<Tree>
    decreases answers.len(),
{
    if answers.len() == 0 {
        seq![]
    } else {
        answer_images(answers.drop_last()) + trees(answers.last().images@)
    }
}

/// What a turn adds to the conversation: its items, the answers to its calls in
/// the order of the calls, and then the pictures of all of them.
pub open spec fn step_entries(output: Seq<Tree>, tools: Seq<ToolView>, images: Seq<Tree>) -> Seq<RecordView> {
    item_entries(output) + tools.map_values(|tool: ToolView| RecordView::Tool(tool)) + item_entries(images)
}

/// Appends items as entries.
fn push_items(entries: &mut Vec<Record>, items: Vec<Json>)
    ensures
        record_views(final(entries)@) == record_views(old(entries)@) + item_entries(trees(items@)),
{
    let ghost before = entries@;
    let ghost all = items@;
    assert(record_views(before) + item_entries(trees(all.take(0))) =~= record_views(before));
    for item in it: items
        invariant
            it.seq() == all,
            record_views(entries@) == record_views(before) + item_entries(trees(all.take(it.index()))),
    {
        let ghost now = entries@;
        let ghost k = it.index();
        entries.push(Record::Item { item });
        proof {
            assert(record_views(entries@) =~= record_views(now).push(RecordView::Item(item@)));
            assert(item_entries(trees(all.take(k + 1))) =~= item_entries(trees(all.take(k))).push(
                RecordView::Item(item@),
            ));
            assert(record_views(entries@) =~= record_views(before) + item_entries(trees(all.take(k + 1))));
        }
    }
    assert(all.take(all.len() as int) =~= all);
}

/// The step that a turn makes once all of its calls were made. It is followed
/// by another where there were calls, unless the user has cancelled.
pub fn step(output: Vec<Json>, usage: Usage, answers: Vec<Answer>, cancelled: bool) -> (r: Step)
    ensures
        r@.entries == step_entries(trees(output@), answer_tools(answers@), answer_images(answers@)),
        r@.usage == usage,
        r@.again == (answers@.len() > 0 && !cancelled),
        crate::session::all_entries(r@.entries),
{
    let ghost all = answers@;
    let again = answers.len() > 0 && !cancelled;
    let mut entries: Vec<Record> = Vec::new();
    let ghost items = item_entries(trees(output@));
    push_items(&mut entries, output);
    assert(record_views(entries@) =~= items);
    let mut images: Vec<Json> = Vec::new();
    proof {
        assert(trees(images@) =~= answer_images(all.take(0)));
        assert(items + step_entries(seq![], answer_tools(all.take(0)), seq![]) =~= items);
    }
    for answer in it: answers
        invariant
            it.seq() == all,
            record_views(entries@) == items + step_entries(seq![], answer_tools(all.take(it.index())), seq![]),
            trees(images@) == answer_images(all.take(it.index())),
    {
        let ghost now = entries@;
        let ghost held = images@;
        let ghost k = it.index();
        let ghost told = answer.tool@;
        let ghost shown = answer.images@;
        entries.push(Record::Tool(answer.tool));
        let mut more = answer.images;
        images.append(&mut more);
        proof {
            assert(all.take(k + 1).drop_last() =~= all.take(k));
            assert(trees(images@) =~= trees(held) + trees(shown));
            assert(record_views(entries@) =~= record_views(now).push(RecordView::Tool(told)));
            assert(answer_tools(all.take(k + 1)) =~= answer_tools(all.take(k)).push(told));
            assert(record_views(entries@) =~= items + step_entries(
                seq![],
                answer_tools(all.take(k + 1)),
                seq![],
            ));
        }
    }
    assert(all.take(all.len() as int) =~= all);
    push_items(&mut entries, images);
    assert(record_views(entries@) =~= step_entries(trees(output@), answer_tools(all), answer_images(all)));
    Step { entries, usage, again }
}

proof fn lemma_inputs_of_items(items: Seq<Tree>)
    ensures
        inputs_of(item_entries(items)) == items,
    decreases items.len(),
{
    if items.len() > 0 {
        lemma_inputs_of_items(items.drop_last());
        assert(item_entries(items).drop_last() =~= item_entries(items.drop_last()));
        assert(items.drop_last().push(items.last()) =~= items);
    }
    assert(inputs_of(item_entries(items)) =~= items);
}

proof fn lemma_inputs_of_tools(tools: Seq<ToolView>)
    ensures
        inputs_of(tools.map_values(|tool: ToolView| RecordView::Tool(tool))) == tools.map_values(
            |tool: ToolView| tool.item(),
        ),
    decreases tools.len(),
{
    let entries = tools.map_values(|tool: ToolView| RecordView::Tool(tool));
    if tools.len() > 0 {
        lemma_inputs_of_tools(tools.drop_last());
        assert(entries.drop_last() =~= tools.drop_last().map_values(|tool: ToolView| RecordView::Tool(tool)));
    }
    assert(inputs_of(entries) =~= tools.map_values(|tool: ToolView| tool.item()));
}

/// What the model is sent for two runs of entries is what it is sent for each.
pub proof fn law_inputs_append(a: Seq<RecordView>, b: Seq<RecordView>)
    ensures
        inputs_of(a + b) == inputs_of(a) + inputs_of(b),
    decreases b.len(),
{
    if b.len() == 0 {
        assert(a + b =~= a);
        assert(inputs_of(a) + inputs_of(b) =~= inputs_of(a));
    } else {
        law_inputs_append(a, b.drop_last());
        assert((a + b).drop_last() =~= a + b.drop_last());
        assert(inputs_of(a + b) =~= inputs_of(a) + inputs_of(b));
    }
}

/// What the model is sent of a step is the items of the turn as they were
/// received, then the answers to its calls in the order of the calls, whatever
/// the order in which they ended, and then the pictures.
pub proof fn law_step_is_replayed_in_order(output: Seq<Tree>, tools: Seq<ToolView>, images: Seq<Tree>)
    ensures
        inputs_of(step_entries(output, tools, images)) == output + tools.map_values(|tool: ToolView| tool.item())
            + images,
{
    lemma_inputs_of_items(output);
    lemma_inputs_of_tools(tools);
    lemma_inputs_of_items(images);
    let said = tools.map_values(|tool: ToolView| RecordView::Tool(tool));
    law_inputs_append(item_entries(output), said);
    law_inputs_append(item_entries(output) + said, item_entries(images));
}

/// How many blocks are shown after the events, of `n` before; `None` if an
/// event speaks of a block that is not there.
pub open spec fn blocks_after(n: int, events: Seq<EventView>) -> Option<int>
    decreases events.len(),
{
    if events.len() == 0 {
        Some(n)
    } else {
        match blocks_after(n, events.drop_last()) {
            None => None,
            Some(m) => match events.last() {
                EventView::Push(_) => Some(m + 1),
                EventView::Delta(slot, _) => if 0 <= slot < m {
                    Some(m)
                } else {
                    None
                },
                EventView::Replace(slot, _) => if 0 <= slot < m {
                    Some(m)
                } else {
                    None
                },
                EventView::ToolOutput(slot, _) => if 0 <= slot < m {
                    Some(m)
                } else {
                    None
                },
                _ => Some(m),
            },
        }
    }
}

/// Every event speaks of a block that is there, and a block once given to an
/// output stays its block.
pub proof fn law_blocks_are_stable(reply: ReplyView, previous: Usage, event: PayloadView)
    ensures
        taken(reply, previous, event) matches Ok(t) ==> blocks_after(reply.slots.len() as int, t.events) == Some(
            t.reply.slots.len() as int,
        ) && reply.slots.is_prefix_of(t.reply.slots),
{
    reveal_with_fuel(blocks_after, 3);
    lemma_slot(reply.slots, output_index(event.value), 0);
    if let Ok(t) = taken(reply, previous, event) {
        if t.events.len() == 2 {
            assert(t.events.drop_last() =~= seq![t.events[0]]);
            assert(t.events.drop_last().drop_last() =~= seq![]);
        } else if t.events.len() == 1 {
            assert(t.events.drop_last() =~= seq![]);
        }
    }
}

/// The final items are shown in the blocks that they have, and an item that is
/// shown has a block of its own.
pub proof fn law_final_items_have_blocks(slots: Seq<usize>, output: Seq<Tree>)
    requires
        output.len() <= usize::MAX,
    ensures
        blocks_after(slots.len() as int, shown_all(slots, output).1) == Some(shown_all(slots, output).0.len() as int),
        slots.is_prefix_of(shown_all(slots, output).0),
        forall|i: int|
            0 <= i < output.len() && displayed(#[trigger] output[i], false) is Some ==> ({
                let after = shown_all(slots, output).0;
                let slot = slot_of(after, i as usize);
                0 <= slot < after.len() && after[slot] == i
            }),
    decreases output.len(),
{
    if output.len() > 0 {
        let start = output.drop_last();
        law_final_items_have_blocks(slots, start);
        let (before, events) = shown_all(slots, start);
        let index = (output.len() - 1) as usize;
        let after = shown_all(slots, output).0;
        lemma_slot(before, index, 0);
        lemma_slot(after, index, 0);
        if let Some(block) = displayed(output.last(), false) {
            assert(events.push(shows(before, index, block)).drop_last() =~= events);
            if slot_of(before, index) == before.len() {
                assert(after[before.len() as int] == index);
            }
        }
        assert forall|i: int| 0 <= i < output.len() && displayed(#[trigger] output[i], false) is Some implies ({
            let slot = slot_of(after, i as usize);
            0 <= slot < after.len() && after[slot] == i
        }) by {
            if i < start.len() {
                assert(output[i] == start[i]);
                let slot = slot_of(before, i as usize);
                lemma_slot(before, i as usize, 0);
                lemma_slot(after, i as usize, 0);
                assert(after[slot] == i);
            }
        }
    }
}

/// What is shown of an output: a block in place of what was shown of it, or text
/// behind that.
pub enum Show {
    Block(usize, BlockView),
    Text(usize, Kind, Seq<char>),
}

impl Show {
    /// The output.
    pub open spec fn index(self) -> usize {
        match self {
            Show::Block(index, _) => index,
            Show::Text(index, _, _) => index,
        }
    }

    /// The events that show it where the blocks show the outputs `slots`.
    pub open spec fn events(self, slots: Seq<usize>) -> Seq<EventView> {
        match self {
            Show::Block(index, block) => seq![shows(slots, index, block)],
            Show::Text(index, kind, more) => with_delta(
                (ReplyView { slots, ..no_reply() }),
                index,
                kind,
                more,
            ).events,
        }
    }

    /// The block of the output after it, of what was shown `before`.
    pub open spec fn block(self, before: Option<BlockView>) -> BlockView {
        match (self, before) {
            (Show::Block(_, block), _) => block,
            (Show::Text(_, _, more), Some(block)) => BlockView { text: block.text + more, ..block },
            (Show::Text(_, kind, more), None) => plain(kind, ""@ + more),
        }
    }
}

/// The outputs that the blocks show after a run, from an empty view on.
pub open spec fn run_slots(run: Seq<Show>) -> Seq<usize>
    decreases run.len(),
{
    if run.len() == 0 {
        seq![]
    } else {
        shown(run_slots(run.drop_last()), run.last().index())
    }
}

/// The events of a run, from an empty view on.
pub open spec fn run_events(run: Seq<Show>) -> Seq<EventView>
    decreases run.len(),
{
    if run.len() == 0 {
        seq![]
    } else {
        run_events(run.drop_last()) + run.last().events(run_slots(run.drop_last()))
    }
}

/// The outputs of a run, each once, in the order in which they first appear.
pub open spec fn firsts(run: Seq<Show>) -> Seq<usize>
    decreases run.len(),
{
    if run.len() == 0 {
        seq![]
    } else {
        let before = firsts(run.drop_last());
        let index = run.last().index();
        if before.contains(index) {
            before
        } else {
            before.push(index)
        }
    }
}

/// What a run shows last of output `index`.
pub open spec fn latest(run: Seq<Show>, index: usize) -> Option<BlockView>
    decreases run.len(),
{
    if run.len() == 0 {
        None
    } else {
        let before = latest(run.drop_last(), index);
        if run.last().index() == index {
            Some(run.last().block(before))
        } else {
            before
        }
    }
}

/// The blocks that a run leaves: the latest of each output, in the order in
/// which the outputs first appear.
pub open spec fn run_blocks(run: Seq<Show>) -> Seq<BlockView> {
    firsts(run).map_values(|index: usize| latest(run, index)->0)
}

/// The blocks after an event.
pub open spec fn redrawn(blocks: Seq<BlockView>, event: EventView) -> Seq<BlockView> {
    match event {
        EventView::Push(block) => blocks.push(block),
        EventView::Delta(i, more) => if 0 <= i < blocks.len() {
            blocks.update(i, BlockView { text: blocks[i].text + more, ..blocks[i] })
        } else {
            blocks
        },
        EventView::Replace(i, block) => if 0 <= i < blocks.len() {
            blocks.update(i, block)
        } else {
            blocks
        },
        EventView::ToolOutput(i, output) => if 0 <= i < blocks.len() && blocks[i].tool is Some {
            let tool = ToolView { output, ..blocks[i].tool->0 };
            blocks.update(i, BlockView { tool: Some(tool), ..blocks[i] })
        } else {
            blocks
        },
        _ => blocks,
    }
}

/// The blocks after events, one after the other.
pub open spec fn redrawn_all(blocks: Seq<BlockView>, events: Seq<EventView>) -> Seq<BlockView>
    decreases events.len(),
{
    if events.len() == 0 {
        blocks
    } else {
        redrawn(redrawn_all(blocks, events.drop_last()), events.last())
    }
}

proof fn lemma_redrawn_append(blocks: Seq<BlockView>, a: Seq<EventView>, b: Seq<EventView>)
    ensures
        redrawn_all(blocks, a + b) == redrawn_all(redrawn_all(blocks, a), b),
    decreases b.len(),
{
    if b.len() == 0 {
        assert(a + b =~= a);
    } else {
        lemma_redrawn_append(blocks, a, b.drop_last());
        assert((a + b).drop_last() =~= a + b.drop_last());
        assert((a + b).last() == b.last());
    }
}

proof fn lemma_firsts(run: Seq<Show>)
    ensures
        run_slots(run) == firsts(run),
        firsts(run).no_duplicates(),
        forall|index: usize| #[trigger] firsts(run).contains(index) <==> latest(run, index) is Some,
        forall|k: int| 0 <= k < run.len() ==> firsts(run).contains((#[trigger] run[k]).index()),
    decreases run.len(),
{
    if run.len() == 0 {
        assert forall|index: usize| !(#[trigger] firsts(run).contains(index)) by {
            if firsts(run).contains(index) {
                assert(false);
            }
        }
    } else {
        let start = run.drop_last();
        lemma_firsts(start);
        let before = firsts(start);
        let after = firsts(run);
        let last = run.last().index();
        lemma_slot(before, last, 0);
        if before.contains(last) {
            let k = choose|k: int| 0 <= k < before.len() && before[k] == last;
            assert(slot_of(before, last) < before.len());
        } else {
            if slot_of(before, last) < before.len() {
                assert(before.contains(before[slot_of(before, last)]));
            }
            assert(after[before.len() as int] == last);
        }
        assert forall|index: usize| before.contains(index) implies #[trigger] after.contains(index) by {
            let k = choose|k: int| 0 <= k < before.len() && before[k] == index;
            assert(after[k] == index);
        }
        assert forall|index: usize| #[trigger] after.contains(index) <==> latest(run, index) is Some by {
            if after.contains(index) && index != last {
                let k = choose|k: int| 0 <= k < after.len() && after[k] == index;
                assert(before[k] == index);
            }
            assert(before.contains(index) <==> latest(start, index) is Some);
        }
        assert forall|k: int| 0 <= k < run.len() implies after.contains((#[trigger] run[k]).index()) by {
            if k < start.len() {
                assert(start[k] == run[k]);
            }
        }
    }
}

/// Showing one thing more, in the blocks that a run has left.
proof fn lemma_show(run: Seq<Show>, show: Show)
    ensures
        firsts(run.push(show)) == shown(firsts(run), show.index()),
        redrawn_all(run_blocks(run), show.events(firsts(run))) == run_blocks(run.push(show)),
{
    let all = run.push(show);
    assert(all.drop_last() =~= run);
    lemma_firsts(run);
    lemma_firsts(all);
    let slots = firsts(run);
    let index = show.index();
    lemma_slot(slots, index, 0);
    let slot = slot_of(slots, index);
    let blocks = run_blocks(run);
    let events = show.events(slots);
    reveal_with_fuel(redrawn_all, 3);
    if events.len() == 2 {
        assert(events.drop_last() =~= seq![events[0]]);
        assert(events.drop_last().drop_last() =~= seq![]);
    } else {
        assert(events.drop_last() =~= seq![]);
    }
    let after = redrawn_all(blocks, events);
    assert(after.len() == firsts(all).len());
    assert forall|k: int| 0 <= k < after.len() implies #[trigger] after[k] == run_blocks(all)[k] by {
        if k < slots.len() {
            assert(slots.contains(slots[k]));
            assert(firsts(all)[k] == slots[k]);
            if k != slot {
                assert(slots[k] != index);
            }
        } else {
            assert(!slots.contains(index));
        }
    }
    assert(after =~= run_blocks(all));
}

/// However the outputs come in, the view holds one block for each, in the order
/// in which they first appeared, and in it what was last shown of the output.
pub proof fn law_run_leaves_the_latest(run: Seq<Show>)
    ensures
        run_slots(run) == firsts(run),
        firsts(run).no_duplicates(),
        forall|index: usize| #[trigger] firsts(run).contains(index) <==> latest(run, index) is Some,
        redrawn_all(seq![], run_events(run)) == run_blocks(run),
    decreases run.len(),
{
    lemma_firsts(run);
    if run.len() == 0 {
        assert(run_blocks(run) =~= seq![]);
    } else {
        let start = run.drop_last();
        law_run_leaves_the_latest(start);
        lemma_show(start, run.last());
        assert(start.push(run.last()) =~= run);
        lemma_redrawn_append(seq![], run_events(start), run.last().events(run_slots(start)));
    }
}

/// A block is shown by exactly one event: it is added where its output was not
/// shown before, and else takes the place of the block of its output. That place
/// is the number of outputs that appeared before this one first did, at `j`.
/// Text goes to the same place, behind an empty block where there was none.
pub proof fn law_outputs_keep_their_place(run: Seq<Show>, j: int, k: int)
    requires
        0 <= j <= k < run.len(),
        run[j].index() == run[k].index(),
        forall|m: int| 0 <= m < j ==> (#[trigger] run[m]).index() != run[k].index(),
    ensures
        run_events(run.take(k + 1)) == run_events(run.take(k)) + run[k].events(run_slots(run.take(k))),
        run[k] matches Show::Block(_, block) ==> run[k].events(run_slots(run.take(k))) == seq![
            if j == k {
                EventView::Push(block)
            } else {
                EventView::Replace(firsts(run.take(j)).len() as int, block)
            },
        ],
        run[k] matches Show::Text(_, kind, more) ==> run[k].events(run_slots(run.take(k))) == (if j == k {
            seq![EventView::Push(plain(kind, ""@))]
        } else {
            seq![]
        }) + seq![EventView::Delta(firsts(run.take(j)).len() as int, more)],
{
    let index = run[k].index();
    let earlier = run.take(j);
    let slots = firsts(run.take(k));
    lemma_firsts(run.take(k));
    lemma_slot(slots, index, 0);
    assert(run.take(k + 1).drop_last() =~= run.take(k));
    assert(run.take(k + 1).last() == run[k]);
    lemma_not_yet(earlier, index);
    if j < k {
        lemma_place_stays(run, j, k);
        if slot_of(slots, index) != earlier_len(run, j) {
            assert(slots[slot_of(slots, index)] == slots[earlier_len(run, j)]);
        }
    } else if slot_of(slots, index) < slots.len() {
        assert(slots.contains(slots[slot_of(slots, index)]));
    }
    if let Show::Text(_, kind, more) = run[k] {
        let tail = seq![EventView::Delta(slot_of(slots, index), more)];
        assert(seq![] + tail =~= tail);
        assert(seq![EventView::Push(plain(kind, ""@))] + tail =~= seq![
            EventView::Push(plain(kind, ""@)),
            EventView::Delta(slot_of(slots, index), more),
        ]);
    }
}

/// How many outputs have appeared before the `j`th thing is shown.
spec fn earlier_len(run: Seq<Show>, j: int) -> int {
    firsts(run.take(j)).len() as int
}

proof fn lemma_not_yet(run: Seq<Show>, index: usize)
    requires
        forall|m: int| 0 <= m < run.len() ==> (#[trigger] run[m]).index() != index,
    ensures
        !firsts(run).contains(index),
    decreases run.len(),
{
    if run.len() > 0 {
        let start = run.drop_last();
        assert forall|m: int| 0 <= m < start.len() implies (#[trigger] start[m]).index() != index by {
            assert(start[m] == run[m]);
        }
        lemma_not_yet(start, index);
        assert(run.last() == run[run.len() - 1]);
        if firsts(run).contains(index) {
            let k = choose|k: int| 0 <= k < firsts(run).len() && firsts(run)[k] == index;
            assert(firsts(start)[k] == index);
        }
    }
}

proof fn lemma_place_stays(run: Seq<Show>, j: int, k: int)
    requires
        0 <= j < k <= run.len(),
        !firsts(run.take(j)).contains(run[j].index()),
    ensures
        earlier_len(run, j) < firsts(run.take(k)).len(),
        firsts(run.take(k))[earlier_len(run, j)] == run[j].index(),
    decreases k,
{
    assert(run.take(k).drop_last() =~= run.take(k - 1));
    if j < k - 1 {
        lemma_place_stays(run, j, k - 1);
    }
}

/// What is shown of an item.
pub open spec fn item_shows(index: usize, item: Tree, partial: bool) -> Seq<Show> {
    match displayed(item, partial) {
        Some(block) => seq![Show::Block(index, block)],
        None => seq![],
    }
}

/// What an event that is taken shows: the item of its output as it then is, or
/// the text that it brings.
pub open spec fn event_shows(reply: ReplyView, event: PayloadView) -> Seq<Show> {
    let index = output_index(event.value);
    let typ = event_type(event.value);
    if typ == "response.output_item.added"@ || typ == "response.output_item.done"@ {
        item_shows(index, event.value.at("item"@), typ == "response.output_item.added"@)
    } else if delta_kind(typ) is Some {
        seq![Show::Text(index, delta_kind(typ)->0, crate::block::or_else(event.value.text("delta"@), ""@))]
    } else if typ == "response.function_call_arguments.delta"@ || typ
        == "response.function_call_arguments.done"@ {
        let more = typ == "response.function_call_arguments.delta"@;
        let arguments = if more {
            Tree::Text(
                crate::block::or_else(call_at(reply, index).text("arguments"@), ""@) + crate::block::or_else(
                    event.value.text("delta"@),
                    ""@,
                ),
            )
        } else {
            event.value.at("arguments"@)
        };
        item_shows(index, call_at(reply, index).set("arguments"@, arguments), more)
    } else {
        seq![]
    }
}

/// What the events of a reply show, up to the first that ends it.
pub open spec fn reply_run(previous: Usage, events: Seq<PayloadView>) -> Seq<Show>
    decreases events.len(),
{
    if events.len() == 0 {
        seq![]
    } else {
        let (before, failure) = taken_all(no_reply(), previous, events.drop_last());
        let run = reply_run(previous, events.drop_last());
        if failure is None && taken(before.reply, previous, events.last()) is Ok {
            run + event_shows(before.reply, events.last())
        } else {
            run
        }
    }
}

/// What the final output shows.
pub open spec fn output_run(output: Seq<Tree>) -> Seq<Show>
    decreases output.len(),
{
    if output.len() == 0 {
        seq![]
    } else {
        output_run(output.drop_last()) + item_shows((output.len() - 1) as usize, output.last(), false)
    }
}

proof fn lemma_taken_shows(run: Seq<Show>, reply: ReplyView, previous: Usage, event: PayloadView)
    requires
        reply.slots == firsts(run),
    ensures
        taken(reply, previous, event) matches Ok(t) ==> {
            let all = run + event_shows(reply, event);
            t.reply.slots == firsts(all) && redrawn_all(run_blocks(run), t.events) == run_blocks(all)
        },
{
    if let Ok(t) = taken(reply, previous, event) {
        let more = event_shows(reply, event);
        reveal_with_fuel(redrawn_all, 2);
        if more.len() == 0 {
            assert(run + more =~= run);
            if t.events.len() == 1 {
                assert(t.events.drop_last() =~= seq![]);
            }
        } else {
            assert(run + more =~= run.push(more[0]));
            lemma_show(run, more[0]);
            assert(t.events =~= more[0].events(firsts(run)));
        }
    }
}

/// A reply shows each of its outputs in one block, in the order in which they
/// first came, each as it last came; and the final output goes into the same
/// blocks.
pub proof fn law_replies_show_their_outputs(previous: Usage, events: Seq<PayloadView>, output: Seq<Tree>)
    ensures
        ({
            let taken = taken_all(no_reply(), previous, events).0;
            let run = reply_run(previous, events);
            let (slots, more) = shown_all(taken.reply.slots, output);
            let all = run + output_run(output);
            &&& taken.reply.slots == firsts(run)
            &&& redrawn_all(seq![], taken.events) == run_blocks(run)
            &&& slots == firsts(all)
            &&& redrawn_all(run_blocks(run), more) == run_blocks(all)
        }),
    decreases events.len() + output.len(),
{
    let run = reply_run(previous, events);
    let (all_taken, _) = taken_all(no_reply(), previous, events);
    if output.len() > 0 {
        let start = output.drop_last();
        law_replies_show_their_outputs(previous, events, start);
        let (before, shown_before) = shown_all(all_taken.reply.slots, start);
        let more = shown_all(all_taken.reply.slots, output).1;
        let index = (output.len() - 1) as usize;
        let last = item_shows(index, output.last(), false);
        let all = run + output_run(start);
        if last.len() == 0 {
            assert(output_run(output) =~= output_run(start));
        } else {
            assert(run + output_run(output) =~= all.push(last[0]));
            lemma_show(all, last[0]);
            let tail = last[0].events(firsts(all));
            assert(more =~= shown_before + tail);
            lemma_redrawn_append(run_blocks(run), shown_before, tail);
        }
    } else {
        assert(run + output_run(output) =~= run);
        if events.len() == 0 {
            assert(run_blocks(run) =~= seq![]);
        } else {
            let start = events.drop_last();
            law_replies_show_their_outputs(previous, start, seq![]);
            let (before, failure) = taken_all(no_reply(), previous, start);
            assert(reply_run(previous, start) + output_run(seq![]) =~= reply_run(previous, start));
            if failure is None {
                if let Ok(t) = taken(before.reply, previous, events.last()) {
                    lemma_taken_shows(reply_run(previous, start), before.reply, previous, events.last());
                    lemma_redrawn_append(seq![], before.events, t.events);
                }
            }
        }
    }
}

/// The address of the service, without its end.
pub open spec fn without_slashes(base: Seq<char>) -> Seq<char> {
    base.take(base.len() - text::span_back(base, slash()))
}

/// A slash.
pub open spec fn slash() -> spec_fn(char) -> bool {
    |c: char| c == '/'
}

/// The address that requests go to.
pub fn endpoint(base: Option<&str>) -> (r: String)
    ensures
        r@ == without_slashes(
            match base {
                Some(base) => base@,
                None => "http://127.0.0.1:8317/v1"@,
            },
        ) + "/responses"@,
{
    let base = text::chars(
        match base {
            Some(base) => base,
            None => "http://127.0.0.1:8317/v1",
        },
    );
    let mut end: usize = base.len();
    while end > 0 && base[end - 1] == '/'
        invariant
            end <= base@.len(),
            forall|k: int| end <= k < base@.len() ==> slash()(#[trigger] base@[k]),
        decreases end,
    {
        end -= 1;
    }
    proof {
        text::lemma_span_back_is(base@, slash(), base@.len() - end);
    }
    let start = text::slice(&base, 0, end);
    assert(start@ =~= without_slashes(base@));
    text::cat(&text::string(&start), "/responses")
}

/// Whether a key would break the header that carries it.
pub open spec fn breaks_header(key: Seq<char>) -> bool {
    exists|k: int| 0 <= k < key.len() && (#[trigger] key[k] == '\r' || key[k] == '\n')
}

/// The header that carries the key, where there is one: the program's own key
/// before the general one. A key with a line break is refused.
pub fn authorization(own: Option<&str>, general: Option<&str>) -> (r: Result<Option<String>, String>)
    ensures
        ({
            let key = if own is Some {
                own
            } else {
                general
            };
            match key {
                None => r == Ok::<Option<String>, String>(None),
                Some(key) => if breaks_header(key@) {
                    r is Err && r->Err_0@ == "API key contains a newline"@
                } else {
                    r is Ok && r->Ok_0 is Some && r->Ok_0->0@ == "Authorization: Bearer "@ + key@
                },
            }
        }),
{
    let key = match own {
        Some(key) => key,
        None => match general {
            Some(key) => key,
            None => return Ok(None),
        },
    };
    let chars = text::chars(key);
    let mut i: usize = 0;
    while i < chars.len()
        invariant
            i <= chars@.len(),
            chars@ == key@,
            key == (if own is Some {
                own->0
            } else {
                general->0
            }),
            own is Some || general is Some,
            forall|k: int| 0 <= k < i ==> (#[trigger] chars@[k]) != '\r' && chars@[k] != '\n',
        decreases chars@.len() - i,
    {
        if chars[i] == '\r' || chars[i] == '\n' {
            assert(breaks_header(key@));
            return Err("API key contains a newline".to_owned());
        }
        i += 1;
    }
    Ok(Some(text::cat("Authorization: Bearer ", key)))
}

/// Every event of a reply can be taken in by the program.
pub proof fn law_replies_can_be_heard(reply: ReplyView, previous: Usage, event: PayloadView)
    ensures
        taken(reply, previous, event) matches Ok(t) ==> forall|k: int|
            0 <= k < t.events.len() ==> crate::app::hearable(#[trigger] t.events[k]),
{
}

/// Every event that shows the final items can be taken in by the program.
pub proof fn law_final_items_can_be_heard(slots: Seq<usize>, output: Seq<Tree>)
    ensures
        forall|k: int|
            0 <= k < shown_all(slots, output).1.len() ==> crate::app::hearable(
                #[trigger] shown_all(slots, output).1[k],
            ),
    decreases output.len(),
{
    if output.len() > 0 {
        law_final_items_can_be_heard(slots, output.drop_last());
        let before = shown_all(slots, output.drop_last()).1;
        let all = shown_all(slots, output).1;
        assert forall|k: int| 0 <= k < all.len() implies crate::app::hearable(#[trigger] all[k]) by {
            if k < before.len() {
                assert(all[k] == before[k]);
            }
        }
    }
}

/// What is shown of each kind of item while a reply comes in: of a message all
/// its texts and then its refusals, of a thought its summary, of a call the call,
/// with nothing come of it yet; and of anything else nothing.
pub proof fn law_items_are_displayed(item: Tree, partial: bool)
    ensures
        ({
            let content = item.at("content"@);
            &&& item.text("type"@) == Some("message"@) && content is Array ==> displayed(item, partial) == Some(
                BlockView {
                    kind: Kind::Agent,
                    text: gathered(item, "content"@, "output_text"@) + block::refusals(content->Array_0),
                    tool: None,
                },
            )
            &&& item.text("type"@) == Some("message"@) && !(content is Array) ==> displayed(item, partial) == Some(
                BlockView { kind: Kind::Agent, text: Seq::empty(), tool: None },
            )
            &&& item.text("type"@) == Some("reasoning"@) ==> displayed(item, partial) == Some(
                BlockView { kind: Kind::Thought, text: gathered(item, "summary"@, "summary_text"@), tool: None },
            )
            &&& item.text("type"@) == Some("function_call"@) ==> displayed(item, partial) == Some(
                BlockView {
                    kind: Kind::Call,
                    text: block::call_text(
                        block::or_else(item.text("name"@), "tool"@),
                        block::or_else(item.text("arguments"@), ""@),
                        partial,
                    ),
                    tool: Some(
                        ToolView {
                            call_id: block::or_else(item.text("call_id"@), ""@),
                            status: ToolStatus::Pending,
                            output: OutputView { text: Seq::empty(), log: None, truncated: false },
                        },
                    ),
                },
            )
            &&& item.text("type"@) != Some("message"@) && item.text("type"@) != Some("reasoning"@) && item.text(
                "type"@,
            ) != Some("function_call"@) ==> displayed(item, partial) is None
        }),
{
    reveal_strlit("message");
    reveal_strlit("reasoning");
    reveal_strlit("function_call");
    assert("message"@.len() == 7 && "reasoning"@.len() == 9 && "function_call"@.len() == 13);
    assert(gathered(item, "content"@, "output_text"@) + Seq::<char>::empty() =~= gathered(
        item,
        "content"@,
        "output_text"@,
    ));
}

/// Every part of a message is in the block that shows it: one more text stands
/// on a line of its own behind those before it, and a refusal behind everything.
pub proof fn law_messages_are_shown_whole(item: Tree, longer: Tree, parts: Seq<Tree>, part: Tree, partial: bool)
    requires
        item.text("type"@) == Some("message"@),
        longer.text("type"@) == Some("message"@),
        item.at("content"@) == Tree::Array(parts),
        longer.at("content"@) == Tree::Array(parts.push(part)),
    ensures
        displayed(item, partial) is Some && displayed(longer, partial) is Some,
        ({
            let before = displayed(item, partial)->0.text;
            let after = displayed(longer, partial)->0.text;
            &&& block::part_text(part, "output_text"@) is None && part.text("refusal"@) is None ==> after == before
            &&& block::part_text(part, "output_text"@) is None && part.text("refusal"@) is Some ==> after == before
                + part.text("refusal"@)->0
            &&& (forall|k: int| 0 <= k < parts.len() ==> (#[trigger] parts[k]).text("refusal"@) is None) && part.text(
                "refusal"@,
            ) is None && block::part_text(part, "output_text"@) is Some ==> after == (if block::any_text(
                parts,
                "output_text"@,
            ) {
                before + "\n"@ + part.text("text"@)->0
            } else {
                part.text("text"@)->0
            })
            &&& parts.len() == 0 ==> before.len() == 0
        }),
{
    block::law_parts_stand_one_per_line(item, longer, "content"@, "output_text"@, parts, part);
    law_items_are_displayed(item, partial);
    law_items_are_displayed(longer, partial);
    let before = displayed(item, partial)->0.text;
    let after = displayed(longer, partial)->0.text;
    if forall|k: int| 0 <= k < parts.len() ==> (#[trigger] parts[k]).text("refusal"@) is None {
        lemma_no_refusals(parts);
        assert(before =~= gathered(item, "content"@, "output_text"@));
    }
    if part.text("refusal"@) is Some {
        assert(after =~= gathered(longer, "content"@, "output_text"@) + block::refusals(parts) + part.text("refusal"@)->0);
    }
    assert(after =~= gathered(longer, "content"@, "output_text"@) + block::refusals(parts.push(part)));
    if parts.len() == 0 {
        assert(block::refusals(parts).len() == 0);
    }
}

proof fn lemma_no_refusals(parts: Seq<Tree>)
    requires
        forall|k: int| 0 <= k < parts.len() ==> (#[trigger] parts[k]).text("refusal"@) is None,
    ensures
        block::refusals(parts) == Seq::<char>::empty(),
    decreases parts.len(),
{
    if parts.len() > 0 {
        let start = parts.drop_last();
        assert forall|k: int| 0 <= k < start.len() implies (#[trigger] start[k]).text("refusal"@) is None by {
            assert(start[k] == parts[k]);
        }
        assert(parts[parts.len() - 1].text("refusal"@) is None);
        lemma_no_refusals(start);
    }
}

/// Every part of a summary is in the block that shows the thought, live and in
/// the conversation: one more part stands on a line of its own behind those
/// before it.
pub proof fn law_summaries_are_shown_whole(item: Tree, longer: Tree, parts: Seq<Tree>, part: Tree, t: Seq<char>)
    requires
        item.text("type"@) == Some("reasoning"@),
        longer.text("type"@) == Some("reasoning"@),
        item.text("role"@) is None,
        longer.text("role"@) is None,
        item.at("summary"@) == Tree::Array(parts),
        longer.at("summary"@) == Tree::Array(parts.push(part)),
        part.text("type"@) == Some("summary_text"@),
        part.text("text"@) == Some(t),
        t.len() > 0,
    ensures
        ({
            let before = displayed(item, false)->0.text;
            let after = displayed(longer, false)->0.text;
            &&& after == (if block::any_text(parts, "summary_text"@) { before + "\n"@ + t } else { t })
            &&& displayed(longer, false)->0.kind == Kind::Thought
            &&& item_block(longer, false) == displayed(longer, false)
        }),
{
    block::law_parts_stand_one_per_line(item, longer, "summary"@, "summary_text"@, parts, part);
    law_items_are_displayed(item, false);
    law_items_are_displayed(longer, false);
    block::law_items_stand_as_blocks(longer, false);
}

/// Whether items stand in the order of their outputs, one for each.
pub open spec fn in_order(items: Seq<(usize, Tree)>) -> bool {
    forall|i: int, j: int| 0 <= i < j < items.len() ==> (#[trigger] items[i]).0 < (#[trigger] items[j]).0
}

proof fn lemma_place_of(items: Seq<(usize, Tree)>, index: usize)
    requires
        in_order(items),
    ensures
        0 <= place_of(items, index) <= items.len(),
        forall|k: int| 0 <= k < place_of(items, index) ==> (#[trigger] items[k]).0 < index,
        forall|k: int| place_of(items, index) <= k < items.len() ==> (#[trigger] items[k]).0 >= index,
    decreases items.len(),
{
    if items.len() > 0 && items[0].0 < index {
        let rest = items.drop_first();
        assert forall|i: int, j: int| 0 <= i < j < rest.len() implies (#[trigger] rest[i]).0 < (#[trigger] rest[j]).0 by {
            assert(rest[i] == items[i + 1] && rest[j] == items[j + 1]);
        }
        lemma_place_of(rest, index);
        assert forall|k: int| 0 <= k < place_of(items, index) implies (#[trigger] items[k]).0 < index by {
            if k > 0 {
                assert(items[k] == rest[k - 1]);
            }
        }
        assert forall|k: int| place_of(items, index) <= k < items.len() implies (#[trigger] items[k]).0 >= index by {
            assert(items[k] == rest[k - 1]);
        }
    } else if items.len() > 0 {
        assert forall|k: int| 0 <= k < items.len() implies (#[trigger] items[k]).0 >= index by {
            if k > 0 {
                assert(items[0].0 < items[k].0);
            }
        }
    }
}

/// The item of an output is the last that came for it; the items of the other
/// outputs stay, and all stand in the order of their outputs.
pub proof fn law_items_are_kept_by_output(items: Seq<(usize, Tree)>, index: usize, other: usize, item: Tree)
    requires
        in_order(items),
        other != index,
    ensures
        in_order(item_put(items, index, item)),
        item_at(item_put(items, index, item), index) == Some(item),
        item_at(item_put(items, index, item), other) == item_at(items, other),
        forall|k: int|
            0 <= k < items.len() ==> item_at(items, (#[trigger] items[k]).0) == Some(items[k].1),
{
    lemma_place_of(items, index);
    let k = place_of(items, index);
    let after = item_put(items, index, item);
    assert(in_order(after)) by {
        assert forall|i: int, j: int| 0 <= i < j < after.len() implies (#[trigger] after[i]).0 < (#[trigger] after[j]).0 by {
            if item_at(items, index) is Some {
                if i != k && j != k {
                    assert(after[i] == items[i] && after[j] == items[j]);
                } else if i == k {
                    assert(after[j] == items[j] && items[k].0 < items[j].0);
                } else {
                    assert(after[i] == items[i] && items[i].0 < items[k].0);
                }
            } else {
                let a = if i < k { i } else { i - 1 };
                let b = if j < k { j } else { j - 1 };
                if i != k {
                    assert(after[i] == items[a]);
                }
                if j != k {
                    assert(after[j] == items[b]);
                }
                if i == k {
                    assert(items[b].0 >= index);
                    if items[k].0 == index {
                        assert(item_at(items, index) is Some);
                    }
                    if b > k {
                        assert(items[k].0 < items[b].0);
                    }
                }
            }
        }
    }
    lemma_found(after, index, k);
    lemma_place_of(items, other);
    let m = place_of(items, other);
    if item_at(items, other) is Some {
        if item_at(items, index) is Some {
            assert(after[m] == items[m]);
            lemma_found(after, other, m);
        } else {
            let n = if m < k { m } else { m + 1 };
            assert(after == items.insert(k, (index, item)));
            if m < k {
                assert(items.insert(k, (index, item))[m] == items[m]);
            } else {
                assert(items.insert(k, (index, item))[m + 1] == items[m]);
            }
            assert(after[n] == items[m]);
            lemma_found(after, other, n);
        }
    } else {
        lemma_place_of(after, other);
        let n = place_of(after, other);
        if n < after.len() && after[n].0 == other {
            let a = if item_at(items, index) is Some || n < k { n } else { n - 1 };
            assert(after[n] == items[a]);
            lemma_found(items, other, a);
        }
    }
    assert forall|i: int| 0 <= i < items.len() implies item_at(items, (#[trigger] items[i]).0) == Some(items[i].1) by {
        lemma_found(items, items[i].0, i);
    }
}

proof fn lemma_found(items: Seq<(usize, Tree)>, index: usize, k: int)
    requires
        in_order(items),
        0 <= k < items.len(),
        items[k].0 == index,
    ensures
        item_at(items, index) == Some(items[k].1),
        place_of(items, index) == k,
{
    lemma_place_of(items, index);
    let n = place_of(items, index);
    if n < k {
        assert(items[n].0 < items[k].0);
    } else if k < n {
        assert(items[k].0 < index);
    }
}

/// What each event of a reply does: an item takes its place and is shown,
/// unfinished where it was only added; text and arguments go behind what was
/// there, or begin it; finished arguments replace it; the completed response is
/// kept; a failure ends the reply; and other events do nothing.
pub proof fn law_events_build_the_reply(reply: ReplyView, previous: Usage, event: PayloadView)
    ensures
        ({
            let v = event.value;
            let typ = v.text("type"@);
            let index = match v.at("output_index"@) {
                Tree::Unsigned(n) => n as usize,
                _ => 0usize,
            };
            let delta = match v.text("delta"@) {
                Some(d) => d,
                None => Seq::empty(),
            };
            let call = match item_at(reply.items, index) {
                Some(item) => item,
                None => Tree::Object(seq![("type"@, Tree::Text("function_call"@))]),
            };
            let t = taken(reply, previous, event);
            &&& typ == Some("response.output_item.added"@) ==> t == Ok::<Taken, Seq<char>>(with_item(reply, index, v.at("item"@), true))
            &&& typ == Some("response.output_item.done"@) ==> t == Ok::<Taken, Seq<char>>(with_item(reply, index, v.at("item"@), false))
            &&& typ == Some("response.output_text.delta"@) || typ == Some("response.refusal.delta"@) ==> t == Ok::<Taken, Seq<char>>(
                with_delta(reply, index, Kind::Agent, delta),
            )
            &&& typ == Some("response.reasoning_summary_text.delta"@) || typ == Some("response.reasoning_text.delta"@)
                ==> t == Ok::<Taken, Seq<char>>(with_delta(reply, index, Kind::Thought, delta))
            &&& typ == Some("response.function_call_arguments.delta"@) && (call is Object || call is Null) ==> t == Ok::<Taken, Seq<char>>(
                with_item(
                    reply,
                    index,
                    call.set(
                        "arguments"@,
                        Tree::Text(
                            match call.text("arguments"@) {
                                Some(s) => s + delta,
                                None => delta,
                            },
                        ),
                    ),
                    true,
                ),
            )
            &&& typ == Some("response.function_call_arguments.done"@) && (call is Object || call is Null) ==> t == Ok::<Taken, Seq<char>>(
                with_item(reply, index, call.set("arguments"@, v.at("arguments"@)), false),
            )
            &&& typ == Some("response.completed"@) ==> t is Ok && t->Ok_0.reply == (ReplyView {
                completed: Some(v.at("response"@)),
                ..reply
            }) && t->Ok_0.events == (if usage_of(v.at("response"@).at("usage"@)).missed(previous) {
                seq![EventView::CacheMiss]
            } else {
                seq![]
            })
            &&& typ == Some("response.failed"@) || typ == Some("response.incomplete"@) || typ == Some("error"@) ==> t == Err::<Taken, Seq<char>>(
                "Responses API: "@ + match json::json_parse(event.source) {
                    Ok(tree) => json::json_printed(tree),
                    Err(_) => event.source,
                },
            )
            &&& typ is None ==> t == Ok::<Taken, Seq<char>>(Taken { reply, events: seq![] })
        }),
        ({
            let (item, partial) = (event.value, true);
            let t = with_item(reply, 0, item, partial);
            &&& t.reply.items == item_put(reply.items, 0, item)
            &&& t.reply.completed == reply.completed
        }),
{
    reveal_strlit("");
    assert(""@ =~= Seq::empty());
    reveal_strlit("response.output_item.added");
    reveal_strlit("response.output_item.done");
    reveal_strlit("response.output_text.delta");
    reveal_strlit("response.refusal.delta");
    reveal_strlit("response.reasoning_summary_text.delta");
    reveal_strlit("response.reasoning_text.delta");
    reveal_strlit("response.function_call_arguments.delta");
    reveal_strlit("response.function_call_arguments.done");
    reveal_strlit("response.completed");
    reveal_strlit("response.failed");
    reveal_strlit("response.incomplete");
    reveal_strlit("error");
    assert("response.output_item.added"@.len() == 26 && "response.output_item.done"@.len() == 25
        && "response.output_text.delta"@.len() == 26 && "response.refusal.delta"@.len() == 22
        && "response.reasoning_summary_text.delta"@.len() == 37 && "response.reasoning_text.delta"@.len() == 29
        && "response.function_call_arguments.delta"@.len() == 38 && "response.function_call_arguments.done"@.len() == 37
        && "response.completed"@.len() == 18 && "response.failed"@.len() == 15 && "response.incomplete"@.len() == 19
        && "error"@.len() == 5);
    assert("response.output_item.added"@[16] == 'i' && "response.output_text.delta"@[16] == 't');
    assert("response.reasoning_summary_text.delta"@[9] == 'r' && "response.function_call_arguments.done"@[9] == 'f');
    let call = call_at(reply, output_index(event.value));
    let delta = crate::block::or_else(event.value.text("delta"@), ""@);
    assert(Seq::<char>::empty() + delta =~= delta);
}

/// The calls of a turn are the items that call a tool, in their order: each with
/// its own block, the command that it was given, and whether it is the shell.
pub proof fn law_calls_are_made_in_order(slots: Seq<usize>, output: Seq<Tree>, item: Tree)
    requires
        output.len() < usize::MAX,
    ensures
        calls_of(slots, seq![]) == Seq::<CallView>::empty(),
        item.text("type"@) != Some("function_call"@) ==> calls_of(slots, output.push(item)) == calls_of(slots, output),
        item.text("type"@) == Some("function_call"@) ==> ({
            let call = calls_of(slots, output.push(item)).last();
            &&& calls_of(slots, output.push(item)).drop_last() == calls_of(slots, output)
            &&& displayed(item, false) == Some(call.block)
            &&& call.bash <==> item.text("name"@) == Some("bash"@)
            &&& call.arguments == (match item.text("arguments"@) {
                Some(s) => s,
                None => Seq::empty(),
            })
            &&& 0 <= call.slot <= slots.len()
            &&& call.slot < slots.len() ==> slots[call.slot] == output.len()
            &&& call.slot == slots.len() ==> !slots.contains(output.len() as usize)
        }),
{
    reveal_strlit("");
    assert(""@ =~= Seq::empty());
    reveal_strlit("message");
    reveal_strlit("reasoning");
    reveal_strlit("function_call");
    assert("message"@.len() == 7 && "reasoning"@.len() == 9 && "function_call"@.len() == 13);
    let all = output.push(item);
    assert(all.drop_last() =~= output);
    let index = output.len() as usize;
    lemma_slot(slots, index, 0);
    if is_call(item) {
        let before = calls_of(slots, output);
        assert(before.push(call_of(slots, item, index)).drop_last() =~= before);
        if slot_of(slots, index) == slots.len() && slots.contains(index) {
            let k = choose|k: int| 0 <= k < slots.len() && slots[k] == index;
            assert(slots[k] != index);
        }
    }
}

/// A response is of no use where the user has cancelled it, where its transport
/// failed, which is told with what it said, or where it was not completed; and of
/// use otherwise.
pub proof fn law_useless_responses_are_told(stream: StreamView, exit: Exit)
    ensures
        exit.cancelled ==> failed(stream, exit) == Some("Cancelled (partial response not saved)"@),
        !exit.cancelled && (exit.timed_out || exit.code != 0) ==> failed(stream, exit) == Some(
            "HTTP request failed ("@ + text::signed_decimal(exit.code as int) + "): "@ + sse::lossy_text(stream.errors)
                + " "@ + sse::lossy_text(stream.preview),
        ),
        !exit.cancelled && !exit.timed_out && exit.code == 0 && stream.reply.completed is None ==> failed(stream, exit)
            == Some("Stream ended without response.completed: "@ + sse::lossy_text(stream.preview)),
        failed(stream, exit) is None <==> !exit.cancelled && !exit.timed_out && exit.code == 0
            && stream.reply.completed is Some,
{
}

/// The items of a turn are those of the completed response, or where it has
/// none, those that came in, in the order of their outputs.
pub proof fn law_final_output_is_that_of_the_response(reply: ReplyView, response: Tree)
    requires
        reply.completed == Some(response),
    ensures
        response.at("output"@) matches Tree::Array(output) ==> final_output(reply) == output,
        !(response.at("output"@) is Array) ==> final_output(reply).len() == reply.items.len() && forall|k: int|
            0 <= k < reply.items.len() ==> final_output(reply)[k] == (#[trigger] reply.items[k]).1,
{
}

/// What a call comes to: the output and the state of the command, as they are;
/// or the error, behind what had come out before. It answers the call that was
/// made.
pub proof fn law_answers_tell_what_happened(id: Seq<char>, latest: OutputView, output: OutputView, status: ToolStatus, e: Seq<char>)
    ensures
        answer(id, latest, Ok((output, status))) == (ToolView { call_id: id, status, output }),
        answer(id, latest, Err(e)) == (ToolView {
            call_id: id,
            status: ToolStatus::Error,
            output: OutputView {
                text: latest.text + "\n[tool error: "@ + e + "]"@,
                log: latest.log,
                truncated: latest.truncated,
            },
        }),
        forall|block: BlockView, tool: ToolView| #[trigger]
            with_tool(block, tool) == (BlockView { kind: block.kind, text: block.text, tool: Some(tool) }),
{
}

/// A step holds the items of the turn, then an outcome for each call in the
/// order of the calls, then the pictures, and nothing else: with what was called
/// comes what came of it.
pub proof fn law_steps_hold_everything(output: Seq<Tree>, tools: Seq<ToolView>, images: Seq<Tree>)
    ensures
        ({
            let entries = step_entries(output, tools, images);
            &&& entries.len() == output.len() + tools.len() + images.len()
            &&& forall|k: int| 0 <= k < output.len() ==> entries[k] == RecordView::Item(#[trigger] output[k])
            &&& forall|k: int| 0 <= k < tools.len() ==> entries[output.len() + k] == RecordView::Tool(#[trigger] tools[k])
            &&& forall|k: int|
                0 <= k < images.len() ==> entries[output.len() + tools.len() + k] == RecordView::Item(#[trigger] images[k])
        }),
{
}

/// The pictures of the answers come one after the other, none left out.
pub proof fn law_pictures_come_in_order(answers: Seq<Answer>, answer: Answer)
    ensures
        answer_images(answers.push(answer)) == answer_images(answers) + trees(answer.images@),
        answer_images(Seq::empty()) == Seq::<Tree>::empty(),
{
    assert(answers.push(answer).drop_last() =~= answers);
}

/// The body of a request says what is asked, as the service wants it: the model,
/// the instructions and the conversation as they are; streamed and not stored;
/// with the shell as the one tool, and the effort only where one is asked for.
pub proof fn law_requests_say_what_is_asked(
    model: Seq<char>,
    instructions: Seq<char>,
    input: Seq<Tree>,
    effort: Option<Seq<char>>,
)
    ensures
        ({
            let body = body_tree(model, instructions, input, effort);
            &&& body.at("model"@) == Tree::Text(model)
            &&& body.at("instructions"@) == Tree::Text(instructions)
            &&& body.at("input"@) == Tree::Array(input)
            &&& body.at("stream"@) == Tree::Bool(true)
            &&& body.at("store"@) == Tree::Bool(false)
            &&& body.at("include"@) == Tree::Array(seq![Tree::Text("reasoning.encrypted_content"@)])
            &&& body.at("parallel_tool_calls"@) == Tree::Bool(true)
            &&& body.at("tools"@) == Tree::Array(seq![bash_tool()])
            &&& effort matches Some(e) ==> body.at("reasoning"@) == Tree::Object(
                seq![("effort"@, Tree::Text(e)), ("summary"@, Tree::Text("auto"@))],
            )
            &&& effort is None ==> body.at("reasoning"@) == Tree::Null
        }),
{
    reveal_strlit("model");
    reveal_strlit("instructions");
    reveal_strlit("input");
    reveal_strlit("stream");
    reveal_strlit("store");
    reveal_strlit("include");
    reveal_strlit("parallel_tool_calls");
    reveal_strlit("tools");
    reveal_strlit("reasoning");
    assert("model"@[0] == 'm' && "model"@.len() == 5);
    assert("instructions"@.len() == 12);
    assert("input"@.len() == 5 && "input"@[0] == 'i' && "input"@[2] == 'p');
    assert("stream"@.len() == 6);
    assert("store"@.len() == 5 && "store"@[0] == 's');
    assert("include"@.len() == 7);
    assert("parallel_tool_calls"@.len() == 19);
    assert("tools"@.len() == 5 && "tools"@[0] == 't');
    assert("reasoning"@.len() == 9);
    let fields = body_tree(model, instructions, input, effort)->Object_0;
    reveal_with_fuel(json::lookup, 11);
    assert(fields[0].0 == "model"@ && fields[1].0 == "instructions"@ && fields[2].0 == "input"@ && fields[3].0
        == "stream"@ && fields[4].0 == "store"@ && fields[5].0 == "include"@ && fields[6].0 == "parallel_tool_calls"@
        && fields[7].0 == "tools"@);
    if effort is Some {
        assert(fields[8].0 == "reasoning"@);
    }
}

/// Slashes at the end of the address make no difference, and nothing else of it
/// is lost.
pub proof fn law_slashes_at_the_end_do_not_matter(base: Seq<char>)
    ensures
        without_slashes(base.push('/')) == without_slashes(base),
        without_slashes(base).is_prefix_of(base),
        without_slashes(base).len() > 0 ==> without_slashes(base).last() != '/',
        base.len() > 0 && base.last() != '/' ==> without_slashes(base) == base,
        forall|k: int| without_slashes(base).len() <= k < base.len() ==> #[trigger] base[k] == '/',
{
    let p = slash();
    text::lemma_span_back(base, p);
    let longer = base.push('/');
    assert(longer.drop_last() =~= base);
    assert(p('/'));
    assert(text::span_back(longer, p) == 1 + text::span_back(base, p));
    assert(without_slashes(longer) =~= without_slashes(base));
    if base.len() > 0 && base.last() != '/' {
        assert(!p(base.last()));
        assert(without_slashes(base) =~= base);
    }
    assert forall|k: int| without_slashes(base).len() <= k < base.len() implies #[trigger] base[k] == '/' by {
        assert(p(base[k]));
    }
    if without_slashes(base).len() > 0 {
        assert(!p(base[base.len() - text::span_back(base, p) - 1]));
    }
}

/// What is kept of a long text is its beginning, as much as is allowed, however
/// it comes in.
pub proof fn law_beginnings_ignore_chunks(held: Seq<u8>, first: Seq<u8>, second: Seq<u8>, limit: usize)
    ensures
        beginning(held, limit).is_prefix_of(held),
        held.len() <= limit ==> beginning(held, limit) == held,
        held.len() > limit ==> beginning(held, limit).len() == limit,
        beginning(beginning(held + first, limit) + second, limit) == beginning(held + first + second, limit),
{
    assert(beginning(beginning(held + first, limit) + second, limit) =~= beginning(held + first + second, limit));
}

/// A key that holds a line break anywhere breaks its header, and no other does.
pub proof fn law_line_breaks_break_headers(start: Seq<char>, c: char, end: Seq<char>)
    ensures
        c == '\n' || c == '\r' ==> breaks_header(start.push(c) + end),
        c != '\n' && c != '\r' ==> (breaks_header(start.push(c) + end) <==> breaks_header(start) || breaks_header(end)),
        !breaks_header(seq![]),
{
    let key = start.push(c) + end;
    let n = start.len() as int;
    assert(key[n] == c);
    assert forall|k: int| 0 <= k < n implies key[k] == #[trigger] start[k] by {}
    assert forall|k: int| 0 <= k < end.len() implies key[n + 1 + k] == #[trigger] end[k] by {}
    if c != '\n' && c != '\r' && breaks_header(key) {
        let k = choose|k: int| 0 <= k < key.len() && (#[trigger] key[k] == '\r' || key[k] == '\n');
        if k < n {
            assert(start[k] == key[k]);
        } else {
            assert(end[k - n - 1] == key[k]);
        }
    }
}

/// The shell is described to the model as the function `bash`: it must be given
/// a command, may be given a timeout, and nothing else.
pub proof fn law_shell_is_described()
    ensures
        bash_tool().at("type"@) == Tree::Text("function"@),
        bash_tool().at("name"@) == Tree::Text("bash"@),
        bash_tool().at("description"@) == Tree::Text("Special bash commands: view_image"@),
        bash_tool().at("strict"@) == Tree::Bool(false),
        ({
            let given = bash_tool().at("parameters"@);
            &&& given.at("type"@) == Tree::Text("object"@)
            &&& given.at("properties"@) == Tree::Object(
                seq![
                    ("command"@, Tree::Object(seq![("type"@, Tree::Text("string"@))])),
                    ("timeoutMs"@, Tree::Object(seq![("type"@, Tree::Text("integer"@))])),
                ],
            )
            &&& given.at("required"@) == Tree::Array(seq![Tree::Text("command"@)])
            &&& given.at("additionalProperties"@) == Tree::Bool(false)
        }),
{
    reveal_strlit("type");
    reveal_strlit("name");
    reveal_strlit("description");
    reveal_strlit("parameters");
    reveal_strlit("strict");
    reveal_strlit("properties");
    reveal_strlit("required");
    reveal_strlit("additionalProperties");
    assert("type"@.len() == 4 && "type"@[0] == 't');
    assert("name"@.len() == 4 && "name"@[0] == 'n');
    assert("description"@.len() == 11);
    assert("parameters"@.len() == 10 && "parameters"@[1] == 'a');
    assert("strict"@.len() == 6);
    assert("properties"@.len() == 10 && "properties"@[1] == 'r');
    assert("required"@.len() == 8);
    assert("additionalProperties"@.len() == 20);
    reveal_with_fuel(json::lookup, 7);
    let fields = bash_tool()->Object_0;
    assert(fields[0].0 == "type"@ && fields[1].0 == "name"@ && fields[2].0 == "description"@ && fields[3].0
        == "parameters"@ && fields[4].0 == "strict"@);
    let given = bash_parameters()->Object_0;
    assert(given[0].0 == "type"@ && given[1].0 == "properties"@ && given[2].0 == "required"@ && given[3].0
        == "additionalProperties"@);
}

/// Of a failed answer the first eight kibibytes are kept, and of any answer the
/// first two for a look at it.
pub proof fn law_little_is_kept_of_an_answer()
    ensures
        ERROR_LIMIT == 8 * 1024,
        PREVIEW_LIMIT == 2 * 1024,
{
}

/// Bytes that come in are added to what is held, and the events that they finish
/// go to the reply in their order. Where more is held than an event may have, or
/// what came cannot be read, that is told, and the reply stays as it was.
pub proof fn law_received_bytes_are_read(stream: StreamView, bytes: Seq<u8>)
    ensures
        ({
            let all = sse::fed(stream.sse, bytes);
            let (taken, failure) = received(stream, bytes);
            &&& sse::too_long(all) ==> taken.reply == stream.reply && taken.events.len() == 0 && failure == Some(
                "SSE event exceeds 32 MiB"@,
            ) && left_over(stream.sse, bytes) == all
            &&& !sse::too_long(all) ==> (match sse::drained(all) {
                Err(b) => taken.reply == stream.reply && taken.events.len() == 0 && failure == Some(b.error.words())
                    && left_over(stream.sse, bytes) == b.left,
                Ok(d) => (taken, failure) == taken_all(stream.reply, stream.previous, d.events) && left_over(
                    stream.sse,
                    bytes,
                ) == d.left,
            })
        }),
{
}

} // verus!
