//! The program as a machine: what the user and the model do, and what is to be
//! done about it.
use crate::api::{Event, EventView, Request, Step, StepView};
use crate::block::{block_views, option_view, plain, Block, BlockView, Kind, ToolOutput, ToolView};
use crate::commands::{self, Builtin, BuiltinKind, Choice, ChoiceView};
use crate::counts;
use crate::editor::{Editor, EditorView};
use crate::input::{
    self, message_views, wanted_views, FileSearch, FileSearchView, Menu, MenuView, Message, MessageView, Snapshot, Wanted,
    WantedView,
};
use crate::json::trees;
use crate::session::{
    all_entries, conversation, model_of, record_views, recorded, usages, user_item, Model, ModelView, Record, RecordView,
    Session, SessionView, Usage,
};
use crate::skills::{skill_views, Skill, SkillView};
use crate::text::{self, texts};
use crate::tools;
use crate::transcript;
use crate::ui;
use vstd::prelude::*;
use vstd::string::StringExecFns;

verus! {

/// What can be picked: a node of the conversation, or a session.
#[derive(Debug)]
pub enum Target {
    Node(Option<usize>),
    Session(String),
}

/// The model of [`Target`].
pub enum TargetView {
    Node(Option<usize>),
    Session(Seq<char>),
}

impl View for Target {
    type V = TargetView;

    open spec fn view(&self) -> TargetView {
        match self {
            Target::Node(node) => TargetView::Node(*node),
            Target::Session(path) => TargetView::Session(path@),
        }
    }
}

/// What the user picks from, and which of it is chosen.
#[derive(Debug)]
pub struct Picker {
    pub title: &'static str,
    pub entries: Vec<(Target, String)>,
    pub selected: usize,
}

/// The model of [`Picker`].
pub struct PickerView {
    pub title: Seq<char>,
    pub entries: Seq<(TargetView, Seq<char>)>,
    pub selected: usize,
}

/// What can be picked.
pub open spec fn pick_views(entries: Seq<(Target, String)>) -> Seq<(TargetView, Seq<char>)> {
    entries.map_values(|e: (Target, String)| (e.0@, e.1@))
}

impl View for Picker {
    type V = PickerView;

    open spec fn view(&self) -> PickerView {
        PickerView { title: self.title@, entries: pick_views(self.entries@), selected: self.selected }
    }
}

/// How the last turn ended.
#[derive(Clone, Copy, PartialEq, Eq, Structural, Debug)]
pub enum TitleStatus {
    Ready,
    Failed,
    Finished,
}

/// The layout of the transcript when the user left its end.
#[derive(Clone, Copy, PartialEq, Eq, Structural, Debug)]
pub struct ScrollAnchor {
    pub width: usize,
    pub expanded: bool,
    pub total: usize,
}

/// The state of the program. `working` tells whether a turn is being taken, and
/// `stopping` whether it was cancelled.
#[derive(Debug)]
pub struct App {
    pub session: Session,
    pub editor: Editor,
    pub live: Vec<Block>,
    pub live_notice: Option<Block>,
    pub feedback: Vec<Block>,
    pub queued: Vec<Message>,
    pub skills: Vec<Skill>,
    pub completion: Option<Menu>,
    pub dismissed: bool,
    pub files: FileSearch,
    pub working: bool,
    pub stopping: bool,
    pub picker: Option<Picker>,
    pub expanded: bool,
    pub scroll: usize,
    pub scroll_layout: Option<ScrollAnchor>,
    pub quitting: bool,
    pub title_status: TitleStatus,
}

/// The model of [`App`].
pub struct AppView {
    pub session: SessionView,
    pub editor: EditorView,
    pub live: Seq<BlockView>,
    pub live_notice: Option<BlockView>,
    pub feedback: Seq<BlockView>,
    pub queued: Seq<MessageView>,
    pub skills: Seq<SkillView>,
    pub completion: Option<MenuView>,
    pub dismissed: bool,
    pub files: FileSearchView,
    pub working: bool,
    pub stopping: bool,
    pub picker: Option<PickerView>,
    pub expanded: bool,
    pub scroll: usize,
    pub layout: Option<ScrollAnchor>,
    pub quitting: bool,
    pub title: TitleStatus,
}

impl View for App {
    type V = AppView;

    open spec fn view(&self) -> AppView {
        AppView {
            session: self.session@,
            editor: self.editor@,
            live: block_views(self.live@),
            live_notice: match self.live_notice {
                Some(b) => Some(b@),
                None => None,
            },
            feedback: block_views(self.feedback@),
            queued: message_views(self.queued@),
            skills: skill_views(self.skills@),
            completion: match self.completion {
                Some(m) => Some(m@),
                None => None,
            },
            dismissed: self.dismissed,
            files: self.files@,
            working: self.working,
            stopping: self.stopping,
            picker: match self.picker {
                Some(p) => Some(p@),
                None => None,
            },
            expanded: self.expanded,
            scroll: self.scroll,
            layout: self.scroll_layout,
            quitting: self.quitting,
            title: self.title_status,
        }
    }
}

/// Whether every block can be shown.
pub open spec fn showable(blocks: Seq<BlockView>) -> bool {
    forall|k: int| 0 <= k < blocks.len() ==> (#[trigger] blocks[k]).wf()
}

/// Whether the blocks of every node can be shown.
pub open spec fn log_showable(rs: Seq<RecordView>) -> bool {
    forall|i: int| 0 <= i < rs.len() ==> (#[trigger] rs[i] matches RecordView::Node(node) ==> showable(node.blocks))
}

/// Whether what every message carries can be committed with it.
pub open spec fn queue_wf(queued: Seq<MessageView>) -> bool {
    forall|k: int| 0 <= k < queued.len() ==> all_entries((#[trigger] queued[k]).attachments)
}

/// Whether every node that can be picked is one of the log.
pub open spec fn picks_wf(picker: Option<PickerView>, rs: Seq<RecordView>) -> bool {
    picker matches Some(p) ==> forall|k: int|
        0 <= k < p.entries.len() ==> ((#[trigger] p.entries[k]).0 matches TargetView::Node(Some(i))
            ==> crate::session::node_at(rs, i as int))
}

impl App {
    /// The invariant of the program.
    pub open spec fn wf(&self) -> bool {
        &&& self.session.wf()
        &&& log_showable(self@.session.records)
        &&& self@.editor.wf()
        &&& showable(self@.live)
        &&& self@.live_notice matches Some(b) ==> b.wf()
        &&& showable(self@.feedback)
        &&& self@.feedback.len() <= FEEDBACK
        &&& queue_wf(self@.queued)
        &&& picks_wf(self@.picker, self@.session.records)
    }

    /// The menu is one for the input as it is, and one of its entries is chosen.
    pub open spec fn fresh(&self) -> bool {
        self@.completion matches Some(m) ==> {
            &&& m.start <= m.end <= self@.editor.chars.len()
            &&& m.entries.len() > 0 ==> m.selected < m.entries.len()
        }
    }
}

/// How many words of feedback are kept.
pub const FEEDBACK: usize = 20;

impl AppView {
    /// The program with one more word of feedback; of too many, the first goes.
    pub open spec fn noted(self, kind: Kind, words: Seq<char>) -> AppView {
        let all = self.feedback.push(plain(kind, words));
        AppView {
            feedback: if all.len() > FEEDBACK {
                all.skip(1)
            } else {
                all
            },
            ..self
        }
    }

    /// The program with a notice.
    pub open spec fn noticed(self, words: Seq<char>) -> AppView {
        self.noted(Kind::Notice, words)
    }

    /// The program with a warning.
    pub open spec fn warned(self, words: Seq<char>) -> AppView {
        self.noted(Kind::Warning, words)
    }

    /// The program with an empty view.
    pub open spec fn reset(self) -> AppView {
        AppView {
            live: seq![],
            live_notice: None,
            feedback: seq![],
            queued: seq![],
            scroll: 0,
            layout: None,
            title: TitleStatus::Ready,
            ..self
        }
    }

    /// The program with its queue sent.
    pub open spec fn drained(self) -> AppView {
        AppView { session: sent(self.session, self.queued), queued: seq![], ..self }
    }

    /// The program after the newest queued message was taken back.
    pub open spec fn recalled(self) -> AppView {
        if self.editor.chars.len() > 0 {
            self.noticed("Clear the input before restoring a queued message."@)
        } else if self.queued.len() > 0 {
            let at = self.editor.cursor;
            AppView {
                editor: self.editor.replaced(at, at, ui::cleaned(self.queued.last().text)),
                queued: self.queued.drop_last(),
                ..self
            }.noticed("Restored newest queued message to input."@)
        } else {
            self.noticed("No queued messages."@)
        }
    }

    /// The program told to stop its turn.
    pub open spec fn stopped(self) -> AppView {
        AppView { stopping: self.stopping || self.working, ..self }
    }

    /// The program at the end of the transcript.
    pub open spec fn at_end(self) -> AppView {
        AppView { scroll: 0, layout: None, ..self }
    }
}

/// A session after messages were committed in their order.
pub open spec fn sent(session: SessionView, queued: Seq<MessageView>) -> SessionView
    decreases queued.len(),
{
    if queued.len() == 0 {
        session
    } else {
        let m = queued.last();
        sent(session, queued.drop_last()).titled(m.text).pushed(
            seq![RecordView::Item(user_item(m.text))] + m.attachments,
            None,
        )
    }
}

/// The blocks of a committed node can be shown.
proof fn lemma_entries_showable(blocks: Seq<BlockView>, entries: Seq<RecordView>)
    requires
        showable(blocks),
    ensures
        showable(crate::session::with_entries(blocks, entries)),
    decreases entries.len(),
{
    if entries.len() > 0 {
        lemma_entries_showable(blocks, entries.drop_last());
        let before = crate::session::with_entries(blocks, entries.drop_last());
        if let RecordView::Tool(tool) = entries.last() {
            lemma_attach_showable(before, tool);
        }
    }
}

proof fn lemma_attach_showable(blocks: Seq<BlockView>, tool: ToolView)
    requires
        showable(blocks),
    ensures
        showable(crate::session::attach(blocks, tool)),
        crate::session::attach(blocks, tool).len() == blocks.len(),
    decreases blocks.len(),
{
    if blocks.len() > 0 {
        let start = blocks.drop_last();
        assert forall|k: int| 0 <= k < start.len() implies (#[trigger] start[k]).wf() by {
            assert(start[k] == blocks[k]);
        }
        lemma_attach_showable(start, tool);
        assert(blocks.last() == blocks[blocks.len() - 1]);
    }
}

proof fn lemma_pushed_showable(session: SessionView, entries: Seq<RecordView>, usage: Option<Usage>)
    requires
        log_showable(session.records),
        all_entries(entries),
    ensures
        log_showable(session.pushed(entries, usage).records),
{
    let after = session.pushed(entries, usage).records;
    let rs = session.records + entries;
    lemma_entries_showable(Seq::empty(), rs.skip(crate::session::entries_start(rs)));
    assert forall|i: int| 0 <= i < after.len() implies (#[trigger] after[i] matches RecordView::Node(node) ==> showable(
        node.blocks,
    )) by {
        if i < session.records.len() {
            assert(after[i] == session.records[i]);
        } else if i < rs.len() {
            assert(after[i] == entries[i - session.records.len()]);
        }
    }
}

/// A log whose blocks are those of its entries can be shown.
pub proof fn law_rendered_logs_are_showable(rs: Seq<RecordView>)
    requires
        crate::session::rendered(rs),
    ensures
        log_showable(rs),
{
    assert forall|i: int| 0 <= i < rs.len() implies (#[trigger] rs[i] matches RecordView::Node(node) ==> showable(
        node.blocks,
    )) by {
        if let RecordView::Node(node) = rs[i] {
            lemma_entries_showable(Seq::empty(), rs.take(i).skip(node.start));
        }
    }
}

/// A session that is opened from disk can be shown.
pub proof fn law_read_logs_are_showable(lines: Seq<RecordView>, n: int)
    requires
        crate::session::unrendered(lines),
        crate::session::replay(lines) is Ok,
        0 <= n <= lines.len(),
    ensures
        log_showable(crate::session::replay(lines)->Ok_0.take(n)),
{
    crate::session::law_read_logs_are_rendered(lines, n);
    law_rendered_logs_are_showable(crate::session::replay(lines)->Ok_0.take(n));
}

proof fn lemma_picks_stay(picker: Option<PickerView>, rs: Seq<RecordView>, more: Seq<RecordView>)
    requires
        picks_wf(picker, rs),
        rs.is_prefix_of(more),
    ensures
        picks_wf(picker, more),
{
    if let Some(p) = picker {
        assert forall|k: int| 0 <= k < p.entries.len() implies ((#[trigger] p.entries[k]).0 matches TargetView::Node(
            Some(i),
        ) ==> crate::session::node_at(more, i as int)) by {
            if let TargetView::Node(Some(i)) = p.entries[k].0 {
                assert(crate::session::node_at(rs, i as int));
                assert(more[i as int] == rs[i as int]);
            }
        }
    }
}

impl App {
    /// Adds a word of feedback.
    pub fn push_feedback(&mut self, kind: Kind, words: String)
        requires
            old(self).wf(),
            kind != Kind::Call,
        ensures
            final(self).wf(),
            final(self)@ == old(self)@.noted(kind, words@),
    {
        let ghost before = self@;
        let block = Block::new(kind, words);
        self.feedback.push(block);
        let ghost all = block_views(self.feedback@);
        assert(all =~= before.feedback.push(plain(kind, words@)));
        if self.feedback.len() > FEEDBACK {
            let _ = self.feedback.remove(0);
            assert(block_views(self.feedback@) =~= all.skip(1));
        }
        assert forall|k: int| 0 <= k < self@.feedback.len() implies (#[trigger] self@.feedback[k]).wf() by {
            let j = if all.len() > FEEDBACK {
                k + 1
            } else {
                k
            };
            assert(self@.feedback[k] == all[j]);
            if j < before.feedback.len() {
                assert(all[j] == before.feedback[j]);
            }
        }
    }

    /// Tells the user something.
    pub fn notice(&mut self, words: &str)
        requires
            old(self).wf(),
        ensures
            final(self).wf(),
            final(self)@ == old(self)@.noticed(words@),
    {
        self.push_feedback(Kind::Notice, words.to_owned());
    }

    /// Warns the user of something.
    pub fn warn(&mut self, words: &str)
        requires
            old(self).wf(),
        ensures
            final(self).wf(),
            final(self)@ == old(self)@.warned(words@),
    {
        self.push_feedback(Kind::Warning, words.to_owned());
    }

    /// Empties the view.
    pub fn reset_view(&mut self)
        requires
            old(self).wf(),
        ensures
            final(self).wf(),
            final(self)@ == old(self)@.reset(),
    {
        self.live = Vec::new();
        self.live_notice = None;
        self.feedback = Vec::new();
        self.queued = Vec::new();
        self.scroll = 0;
        self.scroll_layout = None;
        self.title_status = TitleStatus::Ready;
        assert(self@.live =~= seq![]);
        assert(self@.feedback =~= seq![]);
        assert(self@.queued =~= seq![]);
    }

    /// Commits the queued messages, in their order.
    pub fn drain_queue(&mut self)
        requires
            old(self).wf(),
        ensures
            final(self).wf(),
            final(self)@ == old(self)@.drained(),
    {
        let ghost before = self@;
        let mut queued: Vec<Message> = Vec::new();
        std::mem::swap(&mut queued, &mut self.queued);
        let ghost all = message_views(queued@);
        assert(all == before.queued);
        assert(message_views(self.queued@) =~= seq![]);
        assert(all.take(0) =~= seq![]);
        for message in it: queued
            invariant
                it.seq() == queued@,
                all == message_views(queued@),
                all == before.queued,
                queue_wf(all),
                self.wf(),
                self@ == (AppView {
                    session: sent(before.session, all.take(it.index())),
                    queued: seq![],
                    ..before
                }),
        {
            let ghost k = it.index();
            proof {
                assert(all[k] == message@);
                assert(all.take(k + 1).drop_last() =~= all.take(k));
                assert(all.take(k + 1).last() == all[k]);
                let attachments = record_views(message.attachments@);
                let entries = seq![RecordView::Item(user_item(message.text@))] + attachments;
                assert(all_entries(attachments));
                assert forall|j: int| 0 <= j < entries.len() implies (#[trigger] entries[j]).is_entry() by {
                    if j > 0 {
                        assert(entries[j] == attachments[j - 1]);
                    }
                }
                let titled = self@.session.titled(message.text@);
                lemma_pushed_showable(titled, entries, None);
                assert(self@.session.records.is_prefix_of(titled.pushed(entries, None).records));
                lemma_picks_stay(self@.picker, self@.session.records, titled.pushed(entries, None).records);
            }
            self.session.user(message.text, message.attachments);
        }
        assert(all.take(all.len() as int) =~= all);
    }

    /// Takes back the newest queued message.
    pub fn recall_queued(&mut self)
        requires
            old(self).wf(),
        ensures
            final(self).wf(),
            final(self)@ == old(self)@.recalled(),
    {
        let ghost before = self@;
        if self.editor.text().as_str().is_empty() {
            match self.queued.pop() {
                Some(message) => {
                    proof {
                        assert(message_views(self.queued@) =~= before.queued.drop_last());
                        assert(before.queued.last() == message@);
                        assert forall|k: int| 0 <= k < self@.queued.len() implies all_entries(
                            (#[trigger] self@.queued[k]).attachments,
                        ) by {
                            assert(self@.queued[k] == before.queued[k]);
                        }
                    }
                    self.editor.insert(&message.text);
                    self.notice("Restored newest queued message to input.");
                },
                None => self.notice("No queued messages."),
            }
        } else {
            self.notice("Clear the input before restoring a queued message.");
        }
    }

    /// Tells a turn to stop.
    pub fn stop(&mut self)
        requires
            old(self).wf(),
        ensures
            final(self).wf(),
            final(self)@ == old(self)@.stopped(),
    {
        if self.working {
            self.stopping = true;
        }
    }
}

/// What the outside is asked to do. Where it has a result, that is handed back.
#[derive(Debug)]
pub enum Effect {
    Nothing,
    /// Save the session; to `saved`.
    Save,
    /// Save the session; to `begin`.
    Start,
    /// Put a text on the clipboard; to `copied`.
    Copy(String),
    /// Make a new session in the folder of this one; to `renewed`.
    Renew,
    /// List the saved sessions; to `listed`.
    List,
    /// Read what a message is to carry; to `attached`.
    Attach(String, Vec<Wanted>),
    /// Open a session, which is read from its file if `true`; to `opened`.
    Open(String, bool),
}

/// The model of [`Effect`].
pub enum EffectView {
    Nothing,
    Save,
    Start,
    Copy(Seq<char>),
    Renew,
    List,
    Attach(Seq<char>, Seq<WantedView>),
    Open(Seq<char>, bool),
}

impl View for Effect {
    type V = EffectView;

    open spec fn view(&self) -> EffectView {
        match self {
            Effect::Nothing => EffectView::Nothing,
            Effect::Save => EffectView::Save,
            Effect::Start => EffectView::Start,
            Effect::Copy(s) => EffectView::Copy(s@),
            Effect::Renew => EffectView::Renew,
            Effect::List => EffectView::List,
            Effect::Attach(s, wanted) => EffectView::Attach(s@, wanted_views(wanted@)),
            Effect::Open(path, load) => EffectView::Open(path@, *load),
        }
    }
}

/// What the latest response took.
pub open spec fn latest_usage(session: SessionView) -> Usage {
    let all = usages(session.records, session.cursor());
    if all.len() > 0 {
        all[0]
    } else {
        crate::session::no_usage()
    }
}

/// The words on a prefix that was not read from the cache.
pub open spec fn cache_miss_words() -> Seq<char> {
    "Cache miss · previously cached prefix was not read"@
}

/// The words on a prefix that was not read from the cache.
pub fn cache_miss_text() -> (r: &'static str)
    ensures
        r@ == cache_miss_words(),
{
    "Cache miss · previously cached prefix was not read"
}

/// The entries of a step, behind a mark where a cached prefix was not read.
pub open spec fn marked_entries(step: StepView, previous: Usage) -> Seq<RecordView> {
    if step.usage.missed(previous) {
        seq![RecordView::Notice(cache_miss_words())] + step.entries
    } else {
        step.entries
    }
}

impl AppView {
    /// The program after the session was saved, or was not.
    pub open spec fn after_save(self, e: Option<Seq<char>>) -> AppView {
        match e {
            None => self,
            Some(e) => self.warned("Session not saved: "@ + e),
        }
    }

    /// Whether a turn can begin.
    pub open spec fn startable(self) -> bool {
        !self.working && self.session.cursor() is Some
    }

    /// The program as a turn begins.
    pub open spec fn begun(self) -> AppView {
        AppView {
            live: seq![],
            live_notice: None,
            working: true,
            stopping: false,
            title: TitleStatus::Ready,
            ..self
        }.at_end()
    }

    /// The program after a turn that was taken: its step is committed, and what
    /// was queued meanwhile is sent, unless the user has stopped or leaves.
    pub open spec fn advanced(self, step: StepView) -> (AppView, EffectView) {
        let cancelled = self.stopping;
        let entries = marked_entries(step, latest_usage(self.session));
        let committed = AppView {
            session: self.session.pushed(entries, Some(step.usage)),
            live: seq![],
            live_notice: None,
            working: false,
            stopping: false,
            ..self
        };
        let goes_on = !cancelled && !self.quitting;
        let again = step.again || (goes_on && self.queued.len() > 0);
        let sent = if goes_on {
            committed.drained()
        } else {
            committed
        };
        let told = if cancelled {
            sent.warned("Stopped. Tool side effects are not undone. Enter to continue."@)
        } else {
            sent
        };
        (
            AppView {
                title: if cancelled {
                    TitleStatus::Ready
                } else if again && !self.quitting {
                    TitleStatus::Failed
                } else {
                    TitleStatus::Finished
                },
                ..told
            },
            if again && goes_on {
                EffectView::Start
            } else {
                EffectView::Save
            },
        )
    }

    /// The program after a turn that failed.
    pub open spec fn failed(self, e: Seq<char>) -> AppView {
        let told = AppView {
            title: if self.stopping {
                TitleStatus::Ready
            } else {
                TitleStatus::Failed
            },
            live_notice: None,
            working: false,
            stopping: false,
            ..self
        }.warned(e);
        if self.queued.len() > 0 {
            told.noticed("Steering still queued. Send a message to retry, /new to discard."@)
        } else {
            told
        }
    }

    /// The program after an event of the model, and what is to be done about it.
    pub open spec fn heard(self, event: EventView) -> (AppView, EffectView) {
        match event {
            EventView::Push(block) => (AppView { live: self.live.push(block), ..self }, EffectView::Nothing),
            EventView::Delta(i, more) => (
                if 0 <= i < self.live.len() {
                    let block = self.live[i];
                    AppView {
                        live: self.live.update(i, BlockView { text: block.text + more, ..block }),
                        ..self
                    }
                } else {
                    self
                },
                EffectView::Nothing,
            ),
            EventView::Replace(i, block) => (
                if 0 <= i < self.live.len() {
                    AppView { live: self.live.update(i, block), ..self }
                } else {
                    self
                },
                EffectView::Nothing,
            ),
            EventView::ToolOutput(i, output) => (
                if 0 <= i < self.live.len() && self.live[i].tool is Some {
                    let block = self.live[i];
                    let tool = ToolView { output, ..block.tool->0 };
                    AppView { live: self.live.update(i, BlockView { tool: Some(tool), ..block }), ..self }
                } else {
                    self
                },
                EffectView::Nothing,
            ),
            EventView::CacheMiss => (
                AppView { live_notice: Some(plain(Kind::Warning, cache_miss_words())), ..self },
                EffectView::Nothing,
            ),
            EventView::Done(Ok(step)) => self.advanced(step),
            EventView::Done(Err(e)) => (self.failed(e), EffectView::Nothing),
        }
    }
}

/// Whether an event can be taken in: a block can be shown, and a step committed.
pub open spec fn hearable(event: EventView) -> bool {
    match event {
        EventView::Push(block) => block.wf(),
        EventView::Replace(_, block) => block.wf(),
        EventView::Done(Ok(step)) => all_entries(step.entries),
        _ => true,
    }
}

/// The words of an error.
pub open spec fn error_of(r: Result<(), String>) -> Option<Seq<char>> {
    match r {
        Ok(_) => None,
        Err(e) => Some(e@),
    }
}

impl App {
    /// Takes in that the session was saved, or was not.
    pub fn saved(&mut self, result: Result<(), String>)
        requires
            old(self).wf(),
        ensures
            final(self).wf(),
            final(self)@ == old(self)@.after_save(error_of(result)),
    {
        if let Err(e) = result {
            self.warn(&text::cat("Session not saved: ", &e));
        }
    }

    /// What to do for a turn to begin.
    pub fn start(&self) -> (r: Effect)
        requires
            self.wf(),
        ensures
            r@ == (if self@.startable() {
                EffectView::Start
            } else {
                EffectView::Nothing
            }),
    {
        if self.working || self.session.cursor().is_none() {
            Effect::Nothing
        } else {
            Effect::Start
        }
    }

    /// Begins a turn once the session was saved: what the model is asked. A
    /// session that was not saved is not gone on with.
    pub fn begin(&mut self, result: Result<(), String>) -> (r: Option<Request>)
        requires
            old(self).wf(),
        ensures
            final(self).wf(),
            result is Err ==> r is None && final(self)@ == old(self)@.after_save(error_of(result)),
            result is Ok ==> r is Some && final(self)@ == old(self)@.begun(),
            r matches Some(request) ==> {
                let session = old(self)@.session;
                let model = model_of(session.records, session.header.model);
                &&& request.instructions@ == session.header.instructions
                &&& request.model@ == model.name
                &&& option_view(request.effort) == model.effort
                &&& trees(request.input@) == conversation(session.records, session.cursor())
                &&& request.cwd@ == session.header.cwd
                &&& request.previous_usage == latest_usage(session)
            },
    {
        if result.is_err() {
            self.saved(result);
            return None;
        }
        self.live = Vec::new();
        self.live_notice = None;
        self.scroll = 0;
        self.scroll_layout = None;
        self.working = true;
        self.stopping = false;
        self.title_status = TitleStatus::Ready;
        assert(self@.live =~= seq![]);
        let header = self.session.header();
        let model = self.session.model();
        Some(
            Request {
                instructions: header.instructions.clone(),
                model: model.name.clone(),
                effort: crate::block::copy_option(&model.effort),
                input: self.session.input(),
                cwd: header.cwd.clone(),
                previous_usage: self.session.usage(),
            },
        )
    }

    /// Takes in how a turn ended, and says what to do next.
    pub fn finish(&mut self, result: Result<Step, String>) -> (r: Effect)
        requires
            old(self).wf(),
            result matches Ok(step) ==> all_entries(step@.entries),
        ensures
            final(self).wf(),
            match result {
                Ok(step) => (final(self)@, r@) == old(self)@.advanced(step@),
                Err(e) => final(self)@ == old(self)@.failed(e@) && r@ == EffectView::Nothing,
            },
    {
        let ghost before = self@;
        let cancelled = self.stopping;
        self.working = false;
        self.stopping = false;
        match result {
            Ok(step) => {
                let ghost told = step@;
                let missed = step.usage.cache_miss(self.session.usage());
                let mut entries = step.entries;
                if missed {
                    let ghost old_entries = record_views(entries@);
                    entries.insert(0, Record::Notice { text: cache_miss_text().to_owned() });
                    assert(record_views(entries@) =~= seq![RecordView::Notice(cache_miss_words())] + old_entries);
                }
                let ghost all = marked_entries(told, latest_usage(before.session));
                proof {
                    assert(record_views(entries@) == all);
                    assert forall|k: int| 0 <= k < all.len() implies (#[trigger] all[k]).is_entry() by {
                        if missed && k > 0 {
                            assert(all[k] == told.entries[k - 1]);
                        }
                    }
                    lemma_pushed_showable(before.session, all, Some(step.usage));
                    let after = before.session.pushed(all, Some(step.usage)).records;
                    assert(before.session.records.is_prefix_of(after));
                    lemma_picks_stay(before.picker, before.session.records, after);
                }
                self.live = Vec::new();
                self.live_notice = None;
                assert(self@.live =~= seq![]);
                self.session.push(entries, Some(step.usage));
                let mut again = step.again;
                let goes_on = !cancelled && !self.quitting;
                if goes_on {
                    again = again || self.queued.len() > 0;
                    self.drain_queue();
                }
                if cancelled {
                    self.warn("Stopped. Tool side effects are not undone. Enter to continue.");
                }
                self.title_status = if cancelled {
                    TitleStatus::Ready
                } else if again && !self.quitting {
                    TitleStatus::Failed
                } else {
                    TitleStatus::Finished
                };
                if again && goes_on {
                    Effect::Start
                } else {
                    Effect::Save
                }
            },
            Err(e) => {
                self.title_status = if cancelled {
                    TitleStatus::Ready
                } else {
                    TitleStatus::Failed
                };
                self.live_notice = None;
                self.warn(&e);
                if self.queued.len() > 0 {
                    self.notice("Steering still queued. Send a message to retry, /new to discard.");
                }
                Effect::Nothing
            },
        }
    }

    /// Shows one more block.
    fn push_live(&mut self, block: Block)
        requires
            old(self).wf(),
            block.wf(),
        ensures
            final(self).wf(),
            final(self)@ == (AppView { live: old(self)@.live.push(block@), ..old(self)@ }),
    {
        let ghost before = self@;
        self.live.push(block);
        proof {
            assert(self@.live =~= before.live.push(block@));
            lemma_showable_push(before.live, block@);
        }
    }

    /// Shows a block in the place of another.
    fn set_live(&mut self, i: usize, block: Block)
        requires
            old(self).wf(),
            i < old(self)@.live.len(),
            block.wf(),
        ensures
            final(self).wf(),
            final(self)@ == (AppView { live: old(self)@.live.update(i as int, block@), ..old(self)@ }),
    {
        let ghost before = self@;
        self.live[i] = block;
        proof {
            assert(self@.live =~= before.live.update(i as int, block@));
            lemma_showable_update(before.live, i as int, block@);
        }
    }

    /// Takes in an event of the model, and says what to do about it.
    pub fn hear(&mut self, event: Event) -> (r: Effect)
        requires
            old(self).wf(),
            hearable(event@),
        ensures
            final(self).wf(),
            (final(self)@, r@) == old(self)@.heard(event@),
    {
        match event {
            Event::Push(block) => {
                self.push_live(block);
                Effect::Nothing
            },
            Event::Delta(i, more) => {
                if i < self.live.len() {
                    let mut block = self.live[i].clone();
                    assert(self@.live[i as int].wf());
                    block.text.append(&more);
                    self.set_live(i, block);
                }
                Effect::Nothing
            },
            Event::Replace(i, block) => {
                if i < self.live.len() {
                    self.set_live(i, block);
                }
                Effect::Nothing
            },
            Event::ToolOutput(i, output) => {
                if i < self.live.len() {
                    let mut block = self.live[i].clone();
                    if let Some(tool) = block.tool {
                        block.tool = Some(crate::block::Tool { call_id: tool.call_id, status: tool.status, output });
                        self.set_live(i, block);
                    }
                }
                Effect::Nothing
            },
            Event::CacheMiss => {
                self.live_notice = Some(Block::new(Kind::Warning, cache_miss_text().to_owned()));
                Effect::Nothing
            },
            Event::Done(result) => self.finish(result),
        }
    }
}

proof fn lemma_showable_push(blocks: Seq<BlockView>, block: BlockView)
    requires
        showable(blocks),
        block.wf(),
    ensures
        showable(blocks.push(block)),
{
    assert forall|k: int| 0 <= k < blocks.push(block).len() implies (#[trigger] blocks.push(block)[k]).wf() by {
        if k < blocks.len() {
            assert(blocks.push(block)[k] == blocks[k]);
        }
    }
}

proof fn lemma_showable_update(blocks: Seq<BlockView>, i: int, block: BlockView)
    requires
        showable(blocks),
        0 <= i < blocks.len(),
        block.wf(),
    ensures
        showable(blocks.update(i, block)),
{
    let after = blocks.update(i, block);
    assert forall|k: int| 0 <= k < after.len() implies (#[trigger] after[k]).wf() by {
        if k != i {
            assert(after[k] == blocks[k]);
        }
    }
}

/// The words that a command is typed with.
pub open spec fn usage_words(kind: BuiltinKind) -> Seq<char> {
    "Usage: "@ + commands::builtin_name(kind) + " "@ + commands::builtin_hint(kind)
}

/// Whose text is copied; `None` for a wrong argument.
pub open spec fn copied_kind(args: Seq<Seq<char>>) -> Option<Kind> {
    if args.len() < 2 || args[1] == "agent"@ {
        Some(Kind::Agent)
    } else if args[1] == "user"@ {
        Some(Kind::User)
    } else {
        None
    }
}

/// The model that arguments ask for, where `now` is the one in force.
pub open spec fn asked_model(args: Seq<Seq<char>>, now: ModelView) -> Result<ModelView, Seq<char>> {
    if !(2 <= args.len() <= 4) {
        Err(usage_words(BuiltinKind::Model))
    } else if args.len() == 4 && counts::valid_count(args[3]) is None {
        Err("Context must be a positive token count (e.g. 128k or 1.5m)"@)
    } else {
        Ok(
            ModelView {
                name: args[1],
                effort: if args.len() >= 3 && args[2] != "-"@ {
                    Some(args[2])
                } else {
                    None
                },
                context: if args.len() == 4 {
                    counts::valid_count(args[3])->0
                } else {
                    now.context
                },
            },
        )
    }
}

/// What the tree offers: each node with a mark for the cursor.
pub open spec fn tree_picks(rows: Seq<(Option<usize>, Seq<char>)>, cursor: Option<usize>) -> Seq<(TargetView, Seq<char>)> {
    rows.map_values(
        |r: (Option<usize>, Seq<char>)|
            (TargetView::Node(r.0), (if r.0 == cursor { "● "@ } else { "  "@ }) + r.1),
    )
}

/// The first row of the cursor from the `k`th on, or else the first of all.
pub open spec fn cursor_row(rows: Seq<(Option<usize>, Seq<char>)>, cursor: Option<usize>, k: int) -> int
    decreases rows.len() - k,
{
    if k < 0 || k >= rows.len() {
        0
    } else if rows[k].0 == cursor {
        k
    } else {
        cursor_row(rows, cursor, k + 1)
    }
}

/// The rows of the conversation tree.
pub open spec fn tree_of(session: SessionView) -> Seq<(Option<usize>, Seq<char>)> {
    crate::tree::rows(session.records, None, Seq::empty(), Seq::empty(), 0)
}

impl AppView {
    /// The program after a command of its own, with what is to be done about it,
    /// or why it is refused.
    pub open spec fn commanded(self, kind: BuiltinKind, args: Seq<Seq<char>>) -> (AppView, Result<EffectView, Seq<char>>) {
        if kind != BuiltinKind::Quit && kind != BuiltinKind::Copy && self.working {
            (self, Err("Stop the agent with Esc before changing sessions or models"@))
        } else {
            match kind {
                BuiltinKind::Quit => (AppView { quitting: true, ..self }.stopped(), Ok(EffectView::Nothing)),
                BuiltinKind::Copy => (
                    self,
                    match copied_kind(args) {
                        None => Err(usage_words(BuiltinKind::Copy)),
                        Some(kind) => match crate::session::newest(
                            self.session.records,
                            self.session.cursor(),
                            kind,
                        ) {
                            None => Err("Nothing to copy"@),
                            Some(s) => Ok(EffectView::Copy(s)),
                        },
                    },
                ),
                BuiltinKind::Model => {
                    let now = model_of(self.session.records, self.session.header.model);
                    match asked_model(args, now) {
                        Err(e) => (self, Err(e)),
                        Ok(model) => if model == now {
                            (self, Ok(EffectView::Save))
                        } else {
                            match recorded(self.session.records, RecordView::Model(model)) {
                                Err(e) => (self, Err(e.words())),
                                Ok(records) => (
                                    AppView {
                                        session: SessionView { records, ..self.session },
                                        ..self
                                    },
                                    Ok(EffectView::Save),
                                ),
                            }
                        },
                    }
                },
                BuiltinKind::New => (self, Ok(EffectView::Renew)),
                BuiltinKind::Tree => {
                    let rows = tree_of(self.session);
                    let cursor = self.session.cursor();
                    (
                        AppView {
                            picker: Some(
                                PickerView {
                                    title: "conversation tree"@,
                                    entries: tree_picks(rows, cursor),
                                    selected: cursor_row(rows, cursor, 0) as usize,
                                },
                            ),
                            ..self
                        },
                        Ok(EffectView::Nothing),
                    )
                },
                BuiltinKind::Resume => (self, Ok(EffectView::List)),
            }
        }
    }
}

/// What came of a command.
pub open spec fn effect_result(r: Result<Effect, String>) -> Result<EffectView, Seq<char>> {
    match r {
        Ok(effect) => Ok(effect@),
        Err(e) => Err(e@),
    }
}

fn usage_error(command: Builtin) -> (r: String)
    requires
        command.wf(),
    ensures
        r@ == usage_words(command.kind),
{
    let mut words = text::cat("Usage: ", command.name);
    words.append(" ");
    words.append(command.hint);
    words
}

/// The model that arguments ask for, where `now` is the one in force.
fn read_model(args: &Vec<Vec<char>>, now: &Model) -> (r: Result<Model, String>)
    ensures
        match asked_model(text::views(args@), now@) {
            Ok(model) => r is Ok && r->Ok_0@ == model,
            Err(e) => r is Err && r->Err_0@ == e,
        },
{
    if args.len() < 2 || args.len() > 4 {
        let mut words = text::cat("Usage: ", "/model");
        words.append(" ");
        words.append("<model> [effort|-] [context]");
        return Err(words);
    }
    let context: u64 = if args.len() == 4 {
        match counts::parse(&text::string(&args[3])) {
            Some(n) => n,
            None => {
                return Err("Context must be a positive token count (e.g. 128k or 1.5m)".to_owned());
            },
        }
    } else {
        now.context
    };
    let effort = if args.len() >= 3 {
        let effort = text::string(&args[2]);
        if text::same(&effort, "-") {
            None
        } else {
            Some(effort)
        }
    } else {
        None
    };
    Ok(Model { name: text::string(&args[1]), effort, context })
}

impl App {
    /// The picker for the conversation tree.
    fn tree_picker(&self) -> (r: Picker)
        requires
            self.wf(),
        ensures
            ({
                let rows = tree_of(self@.session);
                let cursor = self@.session.cursor();
                r@ == (PickerView {
                    title: "conversation tree"@,
                    entries: tree_picks(rows, cursor),
                    selected: cursor_row(rows, cursor, 0) as usize,
                })
            }),
    {
        let tree = self.session.tree();
        let cursor = self.session.cursor();
        let ghost rows = crate::tree::row_views(tree@);
        let ghost want = tree_picks(rows, cursor);
        let mut selected: usize = 0;
        while selected < tree.len() && !same_node(tree[selected].0, cursor)
            invariant
                selected <= tree@.len(),
                rows == crate::tree::row_views(tree@),
                cursor_row(rows, cursor, 0) == cursor_row(rows, cursor, selected as int),
            decreases tree@.len() - selected,
        {
            assert(rows[selected as int].0 == tree@[selected as int].0);
            selected += 1;
        }
        if selected == tree.len() {
            selected = 0;
        } else {
            assert(rows[selected as int].0 == tree@[selected as int].0);
        }
        let mut entries: Vec<(Target, String)> = Vec::new();
        let mut i: usize = 0;
        while i < tree.len()
            invariant
                i <= tree@.len(),
                rows == crate::tree::row_views(tree@),
                want == tree_picks(rows, cursor),
                entries@.len() == i,
                forall|k: int| 0 <= k < i ==> pick_views(entries@)[k] == #[trigger] want[k],
            decreases tree@.len() - i,
        {
            let ghost done = pick_views(entries@);
            let mark = if same_node(tree[i].0, cursor) {
                "● "
            } else {
                "  "
            };
            let entry = (Target::Node(tree[i].0), text::cat(mark, &tree[i].1));
            entries.push(entry);
            proof {
                assert(rows[i as int] == (tree@[i as int].0, tree@[i as int].1@));
                assert(pick_views(entries@) =~= done.push((entry.0@, entry.1@)));
                assert(want[i as int] == (entry.0@, entry.1@));
            }
            i += 1;
        }
        assert(pick_views(entries@) =~= want);
        Picker { title: "conversation tree", entries, selected }
    }

    /// Runs a command of the program that was typed as `source`.
    pub fn command(&mut self, command: Builtin, source: &str) -> (r: Result<Effect, String>)
        requires
            old(self).wf(),
            command.wf(),
        ensures
            final(self).wf(),
            (final(self)@, effect_result(r)) == old(self)@.commanded(command.kind, text::words(source@)),
            final(self)@.editor == old(self)@.editor,
    {
        let args = text::split_words(&text::chars(source));
        let free = match command.kind {
            BuiltinKind::Quit => true,
            BuiltinKind::Copy => true,
            _ => false,
        };
        if !free && self.working {
            return Err("Stop the agent with Esc before changing sessions or models".to_owned());
        }
        match command.kind {
            BuiltinKind::Quit => {
                self.quitting = true;
                self.stop();
                Ok(Effect::Nothing)
            },
            BuiltinKind::Copy => {
                let kind = if args.len() < 2 {
                    Kind::Agent
                } else {
                    let who = text::string(&args[1]);
                    if text::same(&who, "agent") {
                        Kind::Agent
                    } else if text::same(&who, "user") {
                        Kind::User
                    } else {
                        return Err(usage_error(command));
                    }
                };
                match self.session.last_text(kind) {
                    None => Err("Nothing to copy".to_owned()),
                    Some(s) => Ok(Effect::Copy(s)),
                }
            },
            BuiltinKind::Model => {
                let model = match read_model(&args, self.session.model()) {
                    Ok(model) => model,
                    Err(e) => return Err(e),
                };
                if !model.same(self.session.model()) {
                    let ghost before = self@.session.records;
                    match self.session.record(Record::Model(model)) {
                        Ok(_) => {
                            proof {
                                lemma_showable_log_push(before, RecordView::Model(model@));
                                lemma_picks_stay(self@.picker, before, self@.session.records);
                            }
                        },
                        Err(e) => return Err(e.message()),
                    }
                }
                Ok(Effect::Save)
            },
            BuiltinKind::New => Ok(Effect::Renew),
            BuiltinKind::Tree => {
                self.picker = Some(self.tree_picker());
                proof {
                    let rows = tree_of(self@.session);
                    crate::tree::law_tree_lists_nodes(self@.session.records);
                    let picks = tree_picks(rows, self@.session.cursor());
                    assert forall|k: int| 0 <= k < picks.len() implies ((#[trigger] picks[k]).0 matches TargetView::Node(
                        Some(i),
                    ) ==> crate::session::node_at(self@.session.records, i as int)) by {
                        assert(picks[k].0 == TargetView::Node(rows[k].0));
                    }
                }
                Ok(Effect::Nothing)
            },
            BuiltinKind::Resume => Ok(Effect::List),
        }
    }
}

fn same_node(a: Option<usize>, b: Option<usize>) -> (r: bool)
    ensures
        r == (a == b),
{
    match (a, b) {
        (Some(a), Some(b)) => a == b,
        (None, None) => true,
        _ => false,
    }
}

proof fn lemma_showable_log_push(rs: Seq<RecordView>, r: RecordView)
    requires
        log_showable(rs),
        !(r is Node),
    ensures
        log_showable(rs.push(r)),
{
    let after = rs.push(r);
    assert forall|i: int| 0 <= i < after.len() implies (#[trigger] after[i] matches RecordView::Node(node) ==> showable(
        node.blocks,
    )) by {
        if i < rs.len() {
            assert(after[i] == rs[i]);
        }
    }
}

/// An empty input.
pub open spec fn no_input() -> EditorView {
    EditorView { chars: seq![], cursor: 0, column: None }
}

impl AppView {
    /// The program with an empty input.
    pub open spec fn input_cleared(self) -> AppView {
        AppView { editor: no_input(), ..self }
    }

    /// The program with a warning where something failed.
    pub open spec fn warned_of(self, result: Result<EffectView, Seq<char>>) -> (AppView, EffectView) {
        match result {
            Ok(effect) => (self, effect),
            Err(e) => (self.warned(e), EffectView::Nothing),
        }
    }

    /// The program before a message is read for what it carries.
    pub open spec fn attaching(self, source: Seq<char>, home: Seq<char>, skill: Option<SkillView>) -> (AppView, EffectView) {
        if input::left_open(input::mentions_in(source)) {
            (self.warned("Unclosed @\"file name\" mention"@), EffectView::Nothing)
        } else {
            (
                self,
                EffectView::Attach(source, input::wanted_of(source, self.session.header.cwd, home, skill)),
            )
        }
    }

    /// The program after the input was sent. What begins with a slash is a
    /// command, or a message that carries a skill.
    pub open spec fn input_sent(self, home: Seq<char>) -> (AppView, EffectView) {
        let source = self.editor.chars;
        let start = text::trim_start(source);
        if start.len() > 0 && start[0] == '/' {
            let word = start.take(text::word_len(start));
            match commands::resolved(self.skills, word) {
                Err(e) => (self.warned(e), EffectView::Nothing),
                Ok((name, choice)) => {
                    let whole = name + start.skip(word.len() as int);
                    match choice {
                        ChoiceView::Builtin(kind) => {
                            let (after, result) = self.commanded(kind, text::words(whole));
                            after.input_cleared().warned_of(result)
                        },
                        ChoiceView::Skill(i) => self.attaching(whole, home, Some(self.skills[i])),
                    }
                },
            }
        } else {
            self.attaching(source, home, None)
        }
    }

    /// The program after the input was submitted. Nothing but white space is not
    /// sent.
    pub open spec fn submitted(self, home: Seq<char>) -> (AppView, EffectView) {
        if text::trim(self.editor.chars).len() == 0 {
            (self, EffectView::Nothing)
        } else {
            let (after, effect) = self.input_sent(home);
            (after.at_end(), effect)
        }
    }

    /// The program after a message was read for what it carries: it is queued,
    /// and sent at once unless a turn is being taken.
    pub open spec fn received(self, source: Seq<char>, files: Seq<input::SnapshotView>) -> (AppView, EffectView) {
        match input::carried(input::bytes_of(source), files) {
            Err(e) => (self.warned(e), EffectView::Nothing),
            Ok(c) => {
                let cleared = self.input_cleared();
                let queued = if text::trim(source).len() > 0 {
                    AppView {
                        queued: cleared.queued.push(MessageView { text: source, attachments: c.attachments }),
                        ..cleared
                    }
                } else {
                    cleared
                };
                if self.working {
                    (queued, EffectView::Nothing)
                } else {
                    let sent = AppView { feedback: seq![], ..queued }.drained();
                    (
                        sent,
                        if sent.startable() {
                            EffectView::Start
                        } else {
                            EffectView::Nothing
                        },
                    )
                }
            },
        }
    }
}

proof fn lemma_carried_entries(size: nat, files: Seq<input::SnapshotView>)
    ensures
        input::carried(size, files) matches Ok(c) ==> all_entries(c.attachments),
    decreases files.len(),
{
    if files.len() > 0 {
        lemma_carried_entries(size, files.drop_last());
    }
}

impl App {
    /// Removes the input.
    fn clear_input(&mut self)
        requires
            old(self).wf(),
        ensures
            final(self).wf(),
            final(self)@ == old(self)@.input_cleared(),
    {
        self.editor.clear();
        assert(self@.editor.chars =~= seq![]);
    }

    /// What to do with a result: it, or a warning.
    fn or_warn(&mut self, result: Result<Effect, String>) -> (r: Effect)
        requires
            old(self).wf(),
        ensures
            final(self).wf(),
            (final(self)@, r@) == old(self)@.warned_of(effect_result(result)),
    {
        match result {
            Ok(effect) => effect,
            Err(e) => {
                self.warn(&e);
                Effect::Nothing
            },
        }
    }

    /// Asks for what a message is to carry.
    fn attach(&mut self, source: String, home: &str, skill: Option<usize>) -> (r: Effect)
        requires
            old(self).wf(),
            skill matches Some(i) ==> i < old(self)@.skills.len(),
        ensures
            final(self).wf(),
            (final(self)@, r@) == old(self)@.attaching(
                source@,
                home@,
                match skill {
                    Some(i) => Some(old(self)@.skills[i as int]),
                    None => None,
                },
            ),
    {
        let wanted = match skill {
            Some(i) => input::wanted(&source, &self.session.header().cwd, home, Some(&self.skills[i])),
            None => input::wanted(&source, &self.session.header().cwd, home, None),
        };
        match wanted {
            Ok(wanted) => Effect::Attach(source, wanted),
            Err(e) => {
                self.warn(&e);
                Effect::Nothing
            },
        }
    }

    /// Sends the input.
    fn send_input(&mut self, home: &str) -> (r: Effect)
        requires
            old(self).wf(),
        ensures
            final(self).wf(),
            (final(self)@, r@) == old(self)@.input_sent(home@),
    {
        let source = self.editor.text();
        let start = text::trimmed_start(&text::chars(&source));
        if start.len() == 0 || start[0] != '/' {
            return self.attach(source, home, None);
        }
        let mut n: usize = 0;
        while n < start.len() && !text::space(start[n])
            invariant
                n <= start@.len(),
                forall|k: int| 0 <= k < n ==> !text::is_space(#[trigger] start@[k]),
            decreases start@.len() - n,
        {
            n += 1;
        }
        proof {
            text::lemma_span_is(start@, |c: char| !text::is_space(c), n as int);
        }
        let word = text::slice(&start, 0, n);
        assert(word@ =~= start@.take(text::word_len(start@)));
        let rest = text::slice(&start, n, start.len());
        assert(rest@ =~= start@.skip(word@.len() as int));
        let (name, choice) = match commands::resolve(&text::string(&word), &self.skills) {
            Ok(found) => found,
            Err(e) => {
                self.warn(&e);
                return Effect::Nothing;
            },
        };
        let whole = text::cat(&name, &text::string(&rest));
        match choice {
            Choice::Builtin(command) => {
                let result = self.command(command, &whole);
                self.clear_input();
                self.or_warn(result)
            },
            Choice::Skill(i) => self.attach(whole, home, Some(i)),
        }
    }

    /// Submits the input.
    pub fn submit(&mut self, home: &str) -> (r: Effect)
        requires
            old(self).wf(),
        ensures
            final(self).wf(),
            (final(self)@, r@) == old(self)@.submitted(home@),
    {
        if text::trimmed(&self.editor.chars).len() == 0 {
            return Effect::Nothing;
        }
        let effect = self.send_input(home);
        self.scroll = 0;
        self.scroll_layout = None;
        effect
    }

    /// Takes in what a message carries.
    pub fn attached(&mut self, source: String, files: Vec<Snapshot>) -> (r: Effect)
        requires
            old(self).wf(),
        ensures
            final(self).wf(),
            (final(self)@, r@) == old(self)@.received(source@, input::snapshot_views(files@)),
    {
        let ghost all = input::snapshot_views(files@);
        let ghost said = source@;
        proof {
            lemma_carried_entries(input::bytes_of(said), all);
        }
        let message = match input::prepare(source, files) {
            Ok(message) => message,
            Err(e) => {
                self.warn(&e);
                return Effect::Nothing;
            },
        };
        self.clear_input();
        if text::trimmed(&text::chars(&message.text)).len() > 0 {
            let ghost before = self@.queued;
            self.queued.push(message);
            proof {
                let m = message@;
                assert(self@.queued =~= before.push(m));
                assert forall|k: int| 0 <= k < self@.queued.len() implies all_entries(
                    (#[trigger] self@.queued[k]).attachments,
                ) by {
                    if k < before.len() {
                        assert(self@.queued[k] == before[k]);
                    }
                }
            }
        }
        if self.working {
            return Effect::Nothing;
        }
        self.feedback = Vec::new();
        assert(self@.feedback =~= seq![]);
        self.drain_queue();
        self.start()
    }
}

/// No files, and no search for them.
pub open spec fn no_search() -> FileSearchView {
    FileSearchView { cwd: None, files: seq![], running: false }
}

/// The name of a session's file without its ending.
pub open spec fn stem_of(path: Seq<char>) -> Seq<char> {
    let name = path.skip(text::last(path, '/') + 1);
    let dot = text::last(name, '.');
    if dot <= 0 {
        name
    } else {
        name.take(dot)
    }
}

/// The name of a session's file without its ending.
pub fn stem(path: &str) -> (r: String)
    ensures
        r@ == stem_of(path@),
{
    let chars = text::chars(path);
    let len: usize = chars.len();
    let start: usize = match text::find_last(&chars, '/') {
        Some(i) => i + 1,
        None => 0,
    };
    let name = text::slice(&chars, start, len);
    assert(name@ =~= path@.skip(text::last(path@, '/') + 1));
    match text::find_last(&name, '.') {
        Some(dot) => if dot == 0 {
            text::string(&name)
        } else {
            let cut = text::slice(&name, 0, dot);
            assert(cut@ =~= name@.take(dot as int));
            text::string(&cut)
        },
        None => text::string(&name),
    }
}

/// The first text of the user among blocks, from the `k`th on.
pub open spec fn user_text(blocks: Seq<BlockView>, k: int) -> Option<Seq<char>>
    decreases blocks.len() - k,
{
    if k < 0 || k >= blocks.len() {
        None
    } else if blocks[k].kind == Kind::User {
        Some(blocks[k].text)
    } else {
        user_text(blocks, k + 1)
    }
}

/// Where to go for a node, and what to put in: a message of the user is taken
/// back to be written anew below its parent.
pub open spec fn destination(rs: Seq<RecordView>, node: Option<usize>) -> (Option<usize>, Option<Seq<char>>) {
    match node {
        None => (None, None),
        Some(i) => match user_text(rs[i as int]->Node_0.blocks, 0) {
            Some(draft) => (rs[i as int]->Node_0.parent, Some(draft)),
            None => (node, None),
        },
    }
}

impl AppView {
    /// The program after a text was put on the clipboard, or was not.
    pub open spec fn after_copy(self, e: Option<Seq<char>>) -> AppView {
        match e {
            None => self.noticed("Copied."@),
            Some(e) => self.warned(e),
        }
    }

    /// The program with another session and its skills.
    pub open spec fn turned_to(self, session: SessionView, skills: Seq<SkillView>) -> AppView {
        AppView { session, skills, files: no_search(), ..self }.reset()
    }

    /// The program after the saved sessions were listed, or were not.
    pub open spec fn offered(self, list: Result<Seq<(Seq<char>, Seq<char>)>, Seq<char>>) -> AppView {
        match list {
            Err(e) => self.warned(e),
            Ok(list) => if list.len() == 0 {
                self.warned("No saved sessions"@)
            } else {
                AppView {
                    picker: Some(
                        PickerView {
                            title: "resume session"@,
                            entries: list.map_values(
                                |p: (Seq<char>, Seq<char>)| (TargetView::Session(p.0), p.1),
                            ),
                            selected: 0,
                        },
                    ),
                    ..self
                }
            },
        }
    }

    /// The program at another node.
    pub open spec fn went_to(self, node: Option<usize>) -> (AppView, EffectView) {
        let (cursor, draft) = destination(self.session.records, node);
        let changed = self.session.cursor() != cursor;
        let records = if changed {
            recorded(self.session.records, RecordView::Cursor(cursor))
        } else {
            Ok(self.session.records)
        };
        match records {
            Err(e) => (self.warned(e.words()), EffectView::Nothing),
            Ok(records) => {
                let there = AppView { session: SessionView { records, ..self.session }, ..self };
                let drafted = match draft {
                    Some(s) => AppView { editor: no_input().replaced(0, 0, ui::cleaned(s)), ..there },
                    None => there,
                };
                (
                    drafted.reset(),
                    if changed {
                        EffectView::Save
                    } else {
                        EffectView::Nothing
                    },
                )
            },
        }
    }

    /// The program after the user has picked.
    pub open spec fn picked(self) -> (AppView, EffectView) {
        match self.picker {
            None => (self, EffectView::Nothing),
            Some(p) => {
                let closed = AppView { picker: None, ..self };
                if p.selected >= p.entries.len() {
                    (closed, EffectView::Nothing)
                } else {
                    match p.entries[p.selected as int].0 {
                        TargetView::Node(node) => closed.went_to(node),
                        TargetView::Session(path) => (
                            closed,
                            EffectView::Open(path, stem_of(path) != self.session.header.id),
                        ),
                    }
                }
            },
        }
    }
}

/// The sessions that were listed, or why they were not.
pub open spec fn list_view(list: Result<Vec<(String, String)>, String>) -> Result<
    Seq<(Seq<char>, Seq<char>)>,
    Seq<char>,
> {
    match list {
        Ok(list) => Ok(crate::session::pair_views(list@)),
        Err(e) => Err(e@),
    }
}

impl App {
    /// Takes in that a text was put on the clipboard, or was not.
    pub fn copied(&mut self, result: Result<(), String>)
        requires
            old(self).wf(),
        ensures
            final(self).wf(),
            final(self)@ == old(self)@.after_copy(error_of(result)),
    {
        match result {
            Ok(_) => self.notice("Copied."),
            Err(e) => self.warn(&e),
        }
    }

    /// Turns to a new session.
    pub fn renewed(&mut self, session: Session, skills: Vec<Skill>)
        requires
            old(self).wf(),
            old(self)@.picker is None,
            session.wf(),
            log_showable(session@.records),
        ensures
            final(self).wf(),
            final(self)@ == old(self)@.turned_to(session@, skill_views(skills@)),
    {
        self.skills = skills;
        self.session = session;
        self.files = FileSearch::default();
        self.reset_view();
    }

    /// Takes in the saved sessions, to be picked from.
    pub fn listed(&mut self, list: Result<Vec<(String, String)>, String>)
        requires
            old(self).wf(),
        ensures
            final(self).wf(),
            final(self)@ == old(self)@.offered(list_view(list)),
    {
        let list = match list {
            Ok(list) => list,
            Err(e) => {
                self.warn(&e);
                return;
            },
        };
        if list.len() == 0 {
            self.warn("No saved sessions");
            return;
        }
        let ghost all = crate::session::pair_views(list@);
        let ghost want = all.map_values(|p: (Seq<char>, Seq<char>)| (TargetView::Session(p.0), p.1));
        let mut entries: Vec<(Target, String)> = Vec::new();
        for (path, label) in it: list
            invariant
                it.seq() == list@,
                all == crate::session::pair_views(list@),
                want == all.map_values(|p: (Seq<char>, Seq<char>)| (TargetView::Session(p.0), p.1)),
                pick_views(entries@) == want.take(it.index()),
        {
            let ghost k = it.index();
            let ghost done = pick_views(entries@);
            let entry = (Target::Session(path), label);
            entries.push(entry);
            proof {
                assert(all[k] == (path@, label@));
                assert(pick_views(entries@) =~= done.push((entry.0@, entry.1@)));
                assert(want.take(k + 1) =~= want.take(k).push(want[k]));
            }
        }
        assert(want.take(want.len() as int) =~= want);
        self.picker = Some(Picker { title: "resume session", entries, selected: 0 });
        proof {
            let p = self@.picker->0;
            assert forall|k: int| 0 <= k < p.entries.len() implies ((#[trigger] p.entries[k]).0 matches TargetView::Node(
                Some(i),
            ) ==> crate::session::node_at(self@.session.records, i as int)) by {
                assert(p.entries[k] == want[k]);
            }
        }
    }

    /// Turns to another node.
    fn go_to(&mut self, node: Option<usize>) -> (r: Effect)
        requires
            old(self).wf(),
            node matches Some(i) ==> crate::session::node_at(old(self)@.session.records, i as int),
        ensures
            final(self).wf(),
            (final(self)@, r@) == old(self)@.went_to(node),
    {
        let ghost before = self@;
        let mut cursor = node;
        let mut draft: Option<String> = None;
        if let Some(i) = node {
            let there = self.session.node(i);
            let ghost blocks = block_views(there.blocks@);
            assert(before.session.records[i as int] == RecordView::Node(there@));
            let mut k: usize = 0;
            while k < there.blocks.len() && !is_user(there.blocks[k].kind)
                invariant
                    k <= there.blocks@.len(),
                    blocks == block_views(there.blocks@),
                    user_text(blocks, 0) == user_text(blocks, k as int),
                decreases there.blocks@.len() - k,
            {
                assert(blocks[k as int] == there.blocks@[k as int]@);
                k += 1;
            }
            if k < there.blocks.len() {
                assert(blocks[k as int] == there.blocks@[k as int]@);
                cursor = there.parent;
                draft = Some(there.blocks[k].text.clone());
            }
        }
        assert(destination(before.session.records, node) == (cursor, option_view(draft)));
        let changed = !same_node(self.session.cursor(), cursor);
        if changed {
            match self.session.record(Record::Cursor { node: cursor }) {
                Ok(_) => {
                    proof {
                        lemma_showable_log_push(before.session.records, RecordView::Cursor(cursor));
                        lemma_picks_stay(self@.picker, before.session.records, self@.session.records);
                    }
                },
                Err(e) => {
                    self.warn(&e.message());
                    return Effect::Nothing;
                },
            }
        }
        if let Some(s) = draft {
            self.clear_input();
            self.editor.insert(&s);
        }
        self.reset_view();
        if changed {
            Effect::Save
        } else {
            Effect::Nothing
        }
    }

    /// Takes what the user has picked.
    pub fn select(&mut self) -> (r: Effect)
        requires
            old(self).wf(),
        ensures
            final(self).wf(),
            (final(self)@, r@) == old(self)@.picked(),
    {
        let mut picker: Option<Picker> = None;
        std::mem::swap(&mut picker, &mut self.picker);
        match picker {
            None => Effect::Nothing,
            Some(p) => {
                if p.selected >= p.entries.len() {
                    return Effect::Nothing;
                }
                let ghost entries = pick_views(p.entries@);
                assert(entries[p.selected as int].0 == p.entries@[p.selected as int].0@);
                match &p.entries[p.selected].0 {
                    Target::Node(node) => self.go_to(*node),
                    Target::Session(path) => {
                        let load = !text::same(&stem(path), &self.session.header().id);
                        Effect::Open(path.clone(), load)
                    },
                }
            },
        }
    }

    /// Turns to a session that was opened: another one where it was read from
    /// its file, and else the same, with the skills of its folder.
    pub fn opened(&mut self, result: Result<Option<Session>, String>, skills: Vec<Skill>)
        requires
            old(self).wf(),
            old(self)@.picker is None,
            result matches Ok(Some(session)) ==> session.wf() && log_showable(session@.records),
        ensures
            final(self).wf(),
            final(self)@ == (match result {
                Err(e) => old(self)@.warned(e@),
                Ok(None) => old(self)@.turned_to(old(self)@.session, skill_views(skills@)),
                Ok(Some(session)) => old(self)@.turned_to(session@, skill_views(skills@)),
            }),
    {
        match result {
            Err(e) => self.warn(&e),
            Ok(opened) => {
                if let Some(session) = opened {
                    self.session = session;
                }
                self.skills = skills;
                self.files = FileSearch::default();
                self.reset_view();
            },
        }
    }
}

fn is_user(kind: Kind) -> (r: bool)
    ensures
        r == (kind == Kind::User),
{
    match kind {
        Kind::User => true,
        _ => false,
    }
}

/// A key.
#[derive(Clone, Copy, PartialEq, Eq, Structural, Debug)]
pub enum Key {
    Char(char),
    Enter,
    Esc,
    Tab,
    Up,
    Down,
    Left,
    Right,
    Home,
    End,
    PageUp,
    PageDown,
    Backspace,
    Delete,
    Other,
}

/// A key that was pressed, with those held, or that was released.
#[derive(Clone, Copy, PartialEq, Eq, Structural, Debug)]
pub struct Press {
    pub key: Key,
    pub ctrl: bool,
    pub shift: bool,
    pub alt: bool,
    pub released: bool,
}

/// The last index of `n` entries.
pub open spec fn last_of(n: nat) -> int {
    if n > 0 {
        n - 1
    } else {
        0
    }
}

/// The entry before or behind the one that is chosen, as far as there is one.
pub open spec fn neighbour(selected: int, n: nat, up: bool) -> int {
    if up {
        if selected > 0 {
            selected - 1
        } else {
            0
        }
    } else if selected + 1 < last_of(n) {
        selected + 1
    } else {
        last_of(n)
    }
}

/// The columns of the input on a screen of `width` columns.
pub open spec fn input_width(width: Option<usize>) -> usize {
    match width {
        Some(w) => ui::less_by(w, 3),
        None => 1,
    }
}

impl AppView {
    /// The program with the chosen entry put in.
    pub open spec fn completed(self) -> AppView {
        match self.completion {
            None => self,
            Some(m) => match m.replacement() {
                None => self,
                Some(s) => AppView { editor: self.editor.replaced(m.start, m.end, s), ..self },
            },
        }
    }

    /// The program with another input.
    pub open spec fn edited(self, editor: EditorView) -> AppView {
        AppView { editor, ..self }
    }

    /// The program with text put in at the cursor.
    pub open spec fn typed(self, s: Seq<char>) -> AppView {
        let at = self.editor.cursor;
        self.edited(self.editor.replaced(at, at, ui::cleaned(s)))
    }

    /// The program scrolled up. Where that leaves the end of the transcript, the
    /// layout is kept.
    pub open spec fn scrolled_up(self, amount: usize, width: Option<usize>) -> AppView {
        let layout = if self.scroll == 0 && self.picker is None && width is Some {
            Some(
                ScrollAnchor {
                    width: width->0,
                    expanded: self.expanded,
                    total: transcript::all_rows(
                        transcript::shown_blocks(self),
                        ui::less_by(width->0, 1),
                        self.expanded,
                    ).len() as usize,
                },
            )
        } else {
            self.layout
        };
        AppView {
            layout,
            scroll: if self.scroll + amount <= usize::MAX {
                (self.scroll + amount) as usize
            } else {
                usize::MAX
            },
            ..self
        }
    }

    /// The program scrolled down.
    pub open spec fn scrolled_down(self, amount: usize) -> AppView {
        let scroll = ui::less_by(self.scroll, amount as int);
        AppView {
            scroll,
            layout: if scroll == 0 {
                None
            } else {
                self.layout
            },
            ..self
        }
    }

    /// The program after a key while the user picks.
    pub open spec fn picking(self, p: PickerView, key: Key) -> (AppView, EffectView) {
        let at = |selected: int|
            (AppView { picker: Some(PickerView { selected: selected as usize, ..p }), ..self }, EffectView::Nothing);
        match key {
            Key::Esc => (AppView { picker: None, ..self }, EffectView::Nothing),
            Key::Up => at(neighbour(p.selected as int, p.entries.len(), true)),
            Key::Down => at(neighbour(p.selected as int, p.entries.len(), false)),
            Key::Home => at(0),
            Key::End => at(last_of(p.entries.len())),
            Key::Enter => self.picked(),
            Key::Char(c) => if c == 'k' {
                at(neighbour(p.selected as int, p.entries.len(), true))
            } else if c == 'j' {
                at(neighbour(p.selected as int, p.entries.len(), false))
            } else {
                (self, EffectView::Nothing)
            },
            _ => (self, EffectView::Nothing),
        }
    }

    /// The program after a character with the control key held.
    pub open spec fn controlled(self, c: char) -> AppView {
        let editor = self.editor;
        if c == 'c' {
            if self.working {
                self.stopped()
            } else if editor.chars.len() > 0 {
                self.input_cleared()
            } else {
                AppView { quitting: true, ..self }
            }
        } else if c == 'd' {
            if editor.chars.len() == 0 {
                AppView { quitting: true, ..self }.stopped()
            } else {
                self
            }
        } else if c == 'j' {
            self.typed("\n"@)
        } else if c == 'a' {
            self.edited(editor.at(crate::editor::line_start(editor.chars, editor.cursor)))
        } else if c == 'e' {
            self.edited(editor.at(crate::editor::line_end(editor.chars, editor.cursor)))
        } else if c == 'u' {
            self.edited(editor.line_cleared())
        } else if c == 'w' {
            self.edited(editor.word_erased())
        } else {
            self
        }
    }

    /// The program after a key that no picker and no menu takes.
    pub open spec fn editing(self, press: Press, width: Option<usize>, home: Seq<char>) -> (AppView, EffectView) {
        let editor = self.editor;
        let places = crate::ui::insertions(
            editor.chars,
            crate::ui::measured(editor.chars),
            ui::at_least_one(input_width(width)),
        );
        match press.key {
            Key::Enter => if press.shift {
                (self.typed("\n"@), EffectView::Nothing)
            } else {
                self.submitted(home)
            },
            Key::Char(c) => (
                if press.ctrl {
                    self.controlled(c)
                } else if press.alt {
                    self
                } else {
                    self.typed(seq![c])
                },
                EffectView::Nothing,
            ),
            Key::Esc => (self.stopped(), EffectView::Nothing),
            Key::PageUp => (self.scrolled_up(10, width), EffectView::Nothing),
            Key::PageDown => (self.scrolled_down(10), EffectView::Nothing),
            Key::Left => (self.edited(editor.stepped_left()), EffectView::Nothing),
            Key::Right => (self.edited(editor.stepped_right()), EffectView::Nothing),
            Key::Up => (self.edited(editor.moved(places, true)), EffectView::Nothing),
            Key::Down => (self.edited(editor.moved(places, false)), EffectView::Nothing),
            Key::Home => (
                self.edited(editor.at(crate::editor::line_start(editor.chars, editor.cursor))),
                EffectView::Nothing,
            ),
            Key::End => (
                self.edited(editor.at(crate::editor::line_end(editor.chars, editor.cursor))),
                EffectView::Nothing,
            ),
            Key::Backspace => (self.edited(editor.erased_before()), EffectView::Nothing),
            Key::Delete => (self.edited(editor.erased_behind()), EffectView::Nothing),
            _ => (self, EffectView::Nothing),
        }
    }

    /// The program after a key while a menu is open: whether the menu takes it,
    /// and the program before anything else does.
    pub open spec fn choosing(self, m: MenuView, press: Press) -> (AppView, bool) {
        match press.key {
            Key::Up => if m.entries.len() > 0 {
                (self.chosen(m, true), true)
            } else {
                (self, false)
            },
            Key::Down => if m.entries.len() > 0 {
                (self.chosen(m, false), true)
            } else {
                (self, false)
            },
            Key::Esc => (AppView { completion: None, dismissed: true, ..self }, true),
            Key::Tab => (self.completed(), true),
            Key::Enter => if press.shift {
                (self, false)
            } else if m.file {
                if (!m.exact_file || m.explicit) && m.entries.len() > 0 {
                    (self.completed(), true)
                } else {
                    (self, false)
                }
            } else if m.explicit {
                (self.completed(), false)
            } else {
                (self, false)
            },
            _ => (self, false),
        }
    }

    /// The program with another entry chosen.
    pub open spec fn chosen(self, m: MenuView, up: bool) -> AppView {
        AppView {
            completion: Some(
                MenuView { selected: neighbour(m.selected, m.entries.len(), up), explicit: true, ..m },
            ),
            ..self
        }
    }

    /// The program after a key, with what is to be done about it.
    pub open spec fn pressed(self, press: Press, width: Option<usize>, home: Seq<char>) -> (AppView, EffectView) {
        if press.released {
            (self, EffectView::Nothing)
        } else if press.ctrl && press.key == Key::Char('o') {
            (AppView { expanded: !self.expanded, layout: None, ..self }, EffectView::Nothing)
        } else if self.picker is Some {
            self.picking(self.picker->0, press.key)
        } else if press.ctrl && press.key == Key::Up {
            (self.recalled(), EffectView::Nothing)
        } else if self.completion is Some {
            let (after, taken) = self.choosing(self.completion->0, press);
            if taken {
                (after, EffectView::Nothing)
            } else {
                after.editing(press, width, home)
            }
        } else {
            self.editing(press, width, home)
        }
    }
}

fn step(selected: usize, n: usize, up: bool) -> (r: usize)
    ensures
        r == neighbour(selected as int, n as nat, up),
{
    let last = n.saturating_sub(1);
    if up {
        selected.saturating_sub(1)
    } else if selected < last {
        selected + 1
    } else {
        last
    }
}

impl App {
    /// Puts in the chosen entry.
    pub fn complete(&mut self)
        requires
            old(self).wf(),
            old(self).fresh(),
        ensures
            final(self).wf(),
            final(self)@ == old(self)@.completed(),
    {
        if let Some(menu) = &self.completion {
            if let Some(s) = menu.replacement() {
                let range = menu.range.start..menu.range.end;
                self.editor.replace(range, &s);
            }
        }
    }

    /// Scrolls up; `width` is that of the screen, where it is known.
    pub fn scroll_up(&mut self, amount: usize, width: Option<usize>)
        requires
            old(self).wf(),
        ensures
            final(self).wf(),
            final(self)@ == old(self)@.scrolled_up(amount, width),
    {
        if self.scroll == 0 && self.picker.is_none() {
            if let Some(width) = width {
                let total = transcript::transcript_line_count(self, width.saturating_sub(1));
                self.scroll_layout = Some(ScrollAnchor { width, expanded: self.expanded, total });
            }
        }
        self.scroll = self.scroll.saturating_add(amount);
    }

    /// Scrolls down.
    pub fn scroll_down(&mut self, amount: usize)
        requires
            old(self).wf(),
        ensures
            final(self).wf(),
            final(self)@ == old(self)@.scrolled_down(amount),
    {
        self.scroll = self.scroll.saturating_sub(amount);
        if self.scroll == 0 {
            self.scroll_layout = None;
        }
    }

    /// Chooses another entry to pick.
    fn pick_at(&mut self, selected: usize)
        requires
            old(self).wf(),
            old(self)@.picker is Some,
        ensures
            final(self).wf(),
            final(self)@ == (AppView {
                picker: Some(PickerView { selected, ..old(self)@.picker->0 }),
                ..old(self)@
            }),
    {
        let mut picker: Option<Picker> = None;
        std::mem::swap(&mut picker, &mut self.picker);
        if let Some(p) = picker {
            self.picker = Some(Picker { title: p.title, entries: p.entries, selected });
        }
    }

    /// Takes a key while the user picks.
    fn pick(&mut self, key: Key) -> (r: Effect)
        requires
            old(self).wf(),
            old(self)@.picker is Some,
        ensures
            final(self).wf(),
            (final(self)@, r@) == old(self)@.picking(old(self)@.picker->0, key),
    {
        let (selected, n) = match &self.picker {
            Some(p) => (p.selected, p.entries.len()),
            None => vstd::pervasive::unreached(),
        };
        match key {
            Key::Esc => {
                self.picker = None;
            },
            Key::Up => self.pick_at(step(selected, n, true)),
            Key::Down => self.pick_at(step(selected, n, false)),
            Key::Home => self.pick_at(0),
            Key::End => self.pick_at(n.saturating_sub(1)),
            Key::Enter => return self.select(),
            Key::Char(c) => {
                if c == 'k' {
                    self.pick_at(step(selected, n, true));
                } else if c == 'j' {
                    self.pick_at(step(selected, n, false));
                }
            },
            _ => {},
        }
        Effect::Nothing
    }

    /// Takes a character with the control key held.
    fn control(&mut self, c: char)
        requires
            old(self).wf(),
        ensures
            final(self).wf(),
            final(self)@ == old(self)@.controlled(c),
    {
        if c == 'c' {
            if self.working {
                self.stop();
            } else if self.editor.chars.len() > 0 {
                self.clear_input();
            } else {
                self.quitting = true;
            }
        } else if c == 'd' {
            if self.editor.chars.len() == 0 {
                self.quitting = true;
                self.stop();
            }
        } else if c == 'j' {
            self.editor.insert("\n");
        } else if c == 'a' {
            self.editor.home();
        } else if c == 'e' {
            self.editor.end();
        } else if c == 'u' {
            self.editor.clear_line();
        } else if c == 'w' {
            self.editor.word_backspace();
        }
    }

    /// Takes a key that no picker and no menu takes.
    fn edit(&mut self, press: Press, width: Option<usize>, home: &str) -> (r: Effect)
        requires
            old(self).wf(),
        ensures
            final(self).wf(),
            (final(self)@, r@) == old(self)@.editing(press, width, home@),
    {
        match press.key {
            Key::Enter => {
                if !press.shift {
                    return self.submit(home);
                }
                self.editor.insert("\n");
            },
            Key::Char(c) => {
                if press.ctrl {
                    self.control(c);
                } else if !press.alt {
                    let typed = vec![c];
                    assert(typed@ =~= seq![c]);
                    self.editor.insert(&text::string(&typed));
                }
            },
            Key::Esc => self.stop(),
            Key::PageUp => self.scroll_up(10, width),
            Key::PageDown => self.scroll_down(10),
            Key::Left => self.editor.left(),
            Key::Right => self.editor.right(),
            Key::Up => self.move_rows(width, true),
            Key::Down => self.move_rows(width, false),
            Key::Home => self.editor.home(),
            Key::End => self.editor.end(),
            Key::Backspace => self.editor.backspace(),
            Key::Delete => self.editor.delete(),
            _ => {},
        }
        Effect::Nothing
    }

    /// Goes one row up or down in the input.
    fn move_rows(&mut self, width: Option<usize>, up: bool)
        requires
            old(self).wf(),
        ensures
            final(self).wf(),
            ({
                let editor = old(self)@.editor;
                let places = crate::ui::insertions(
                    editor.chars,
                    crate::ui::measured(editor.chars),
                    ui::at_least_one(input_width(width)),
                );
                final(self)@ == old(self)@.edited(editor.moved(places, up))
            }),
    {
        let columns: usize = match width {
            Some(w) => w.saturating_sub(3),
            None => 1,
        };
        self.editor.move_vertical(columns, up);
    }

    /// Chooses another entry of the menu.
    fn choose_at(&mut self, up: bool)
        requires
            old(self).wf(),
            old(self)@.completion is Some,
        ensures
            final(self).wf(),
            final(self)@ == old(self)@.chosen(old(self)@.completion->0, up),
    {
        let mut completion: Option<Menu> = None;
        std::mem::swap(&mut completion, &mut self.completion);
        if let Some(mut menu) = completion {
            menu.selected = step(menu.selected, menu.entries.len(), up);
            menu.explicit = true;
            self.completion = Some(menu);
        }
    }

    /// Takes a key while a menu is open: whether that was all.
    fn pick_entry(&mut self, press: Press) -> (r: bool)
        requires
            old(self).wf(),
            old(self).fresh(),
            old(self)@.completion is Some,
        ensures
            final(self).wf(),
            (final(self)@, r) == old(self)@.choosing(old(self)@.completion->0, press),
    {
        let (file, exact_file, explicit, empty) = match &self.completion {
            Some(menu) => (menu.file, menu.exact_file, menu.explicit, menu.entries.len() == 0),
            None => vstd::pervasive::unreached(),
        };
        match press.key {
            Key::Up => {
                if !empty {
                    self.choose_at(true);
                    return true;
                }
            },
            Key::Down => {
                if !empty {
                    self.choose_at(false);
                    return true;
                }
            },
            Key::Esc => {
                self.completion = None;
                self.dismissed = true;
                return true;
            },
            Key::Tab => {
                self.complete();
                return true;
            },
            Key::Enter => {
                if !press.shift {
                    if file {
                        if (!exact_file || explicit) && !empty {
                            self.complete();
                            return true;
                        }
                    } else if explicit {
                        self.complete();
                    }
                }
            },
            _ => {},
        }
        false
    }

    /// Takes a key, and says what to do about it. `width` is that of the screen,
    /// where it is known, and `home` the folder of the user.
    pub fn key(&mut self, press: Press, width: Option<usize>, home: &str) -> (r: Effect)
        requires
            old(self).wf(),
            old(self).fresh(),
        ensures
            final(self).wf(),
            (final(self)@, r@) == old(self)@.pressed(press, width, home@),
    {
        if press.released {
            return Effect::Nothing;
        }
        let expand = match press.key {
            Key::Char(c) => press.ctrl && c == 'o',
            _ => false,
        };
        if expand {
            self.expanded = !self.expanded;
            self.scroll_layout = None;
            return Effect::Nothing;
        }
        if self.picker.is_some() {
            return self.pick(press.key);
        }
        let recall = match press.key {
            Key::Up => press.ctrl,
            _ => false,
        };
        if recall {
            self.recall_queued();
            return Effect::Nothing;
        }
        if self.completion.is_some() {
            if self.pick_entry(press) {
                return Effect::Nothing;
            }
        }
        self.edit(press, width, home)
    }

    /// Puts in text that was pasted, unless the user picks.
    pub fn paste(&mut self, source: &str)
        requires
            old(self).wf(),
        ensures
            final(self).wf(),
            final(self)@ == (if old(self)@.picker is None {
                old(self)@.typed(source@)
            } else {
                old(self)@
            }),
    {
        if self.picker.is_none() {
            self.editor.insert(source);
        }
    }
}

/// What has to be looked up for a menu: what a folder holds, and whether a path
/// is that of a file.
#[derive(Debug)]
pub struct Lookup {
    pub folder: Option<String>,
    pub file: Option<String>,
}

/// A menu that goes on from the last one where it is for the same: with the same
/// entry chosen, as far as there is one.
pub open spec fn carried_on(new: MenuView, last: Option<MenuView>) -> MenuView {
    match last {
        None => new,
        Some(m) => if m.start == new.start && m.end == new.end && m.query == new.query && m.file == new.file {
            MenuView {
                selected: if m.selected < last_of(new.entries.len()) {
                    m.selected
                } else {
                    last_of(new.entries.len())
                },
                explicit: m.explicit,
                ..new
            }
        } else {
            new
        },
    }
}

/// The search for files turned to a folder.
pub open spec fn searching(files: FileSearchView, cwd: Seq<char>) -> FileSearchView {
    if files.cwd == Some(cwd) {
        files
    } else {
        FileSearchView { cwd: Some(cwd), files: seq![], running: true }
    }
}

impl AppView {
    /// What is to be completed, unless the user picks or has sent the menu away.
    pub open spec fn asking(self) -> Option<input::AskView> {
        if self.dismissed || self.picker is Some {
            None
        } else {
            input::asked(self.editor.chars, self.editor.cursor)
        }
    }

    /// The program with the menu for its input. Files of the project are searched
    /// for where a name that is no path of its own is to be completed.
    pub open spec fn refreshed(self, listed: Seq<(Seq<char>, bool)>, exact: bool) -> AppView {
        match self.asking() {
            None => AppView { completion: None, files: no_search(), ..self },
            Some(ask) => {
                let menu = carried_on(
                    input::menu_of(ask, self.skills, self.files.files, listed, exact),
                    self.completion,
                );
                AppView {
                    completion: Some(menu),
                    files: if menu.file && input::folder_of(menu.query) is None {
                        searching(self.files, self.session.header.cwd)
                    } else {
                        no_search()
                    },
                    ..self
                }
            },
        }
    }
}

/// What has to be looked up for a menu in folder `cwd`.
pub open spec fn lookup_of(ask: Option<input::AskView>, cwd: Seq<char>, home: Seq<char>) -> (Option<Seq<char>>, Option<Seq<char>>) {
    match ask {
        Some(input::AskView::File { query, .. }) => (
            match input::folder_of(query) {
                Some((parent, _)) => Some(input::located(cwd, home, parent)),
                None => None,
            },
            if query.len() > 0 {
                Some(input::located(cwd, home, query))
            } else {
                None
            },
        ),
        _ => (None, None),
    }
}

impl App {
    /// What is to be completed.
    fn asked(&self) -> (r: Option<input::Ask>)
        requires
            self.wf(),
        ensures
            input::ask_view(r) == self@.asking(),
            r matches Some(a) ==> a@.within(self@.editor.chars.len() as int),
    {
        if self.dismissed || self.picker.is_some() {
            None
        } else {
            input::ask(&self.editor.text(), self.editor.cursor)
        }
    }

    /// What has to be looked up for the menu.
    pub fn lookup(&self, home: &str) -> (r: Lookup)
        requires
            self.wf(),
        ensures
            (option_view(r.folder), option_view(r.file)) == lookup_of(
                self@.asking(),
                self@.session.header.cwd,
                home@,
            ),
    {
        match self.asked() {
            Some(input::Ask::File { start, end, query }) => {
                let cwd = &self.session.header().cwd;
                let folder = match input::folder(&query) {
                    Some((parent, _)) => Some(input::path(cwd, home, &parent)),
                    None => None,
                };
                let file = if query.as_str().is_empty() {
                    None
                } else {
                    Some(input::path(cwd, home, &query))
                };
                Lookup { folder, file }
            },
            _ => Lookup { folder: None, file: None },
        }
    }

    /// Makes the menu for the input anew: whether a search for files is to begin.
    /// `listed` is what the folder holds that was to be looked up, and `exact`
    /// whether the path is that of a file.
    pub fn refresh_completion(&mut self, listed: &Vec<(String, bool)>, exact: bool) -> (r: bool)
        requires
            old(self).wf(),
        ensures
            final(self).wf(),
            final(self).fresh(),
            final(self)@ == old(self)@.refreshed(input::listed_views(listed@), exact),
            r == (final(self)@.files.running && final(self)@.files != old(self)@.files),
    {
        let ask = match self.asked() {
            None => {
                self.completion = None;
                self.files = FileSearch::default();
                return false;
            },
            Some(ask) => ask,
        };
        let mut new = input::menu(ask, &self.skills, &self.files.files, listed, exact);
        if let Some(last) = &self.completion {
            if new.range.start == last.range.start && new.range.end == last.range.end && text::same(
                &new.query,
                &last.query,
            ) && new.file == last.file {
                let most = new.entries.len().saturating_sub(1);
                new.selected = if last.selected < most {
                    last.selected
                } else {
                    most
                };
                new.explicit = last.explicit;
            }
        }
        let own = match input::folder(&new.query) {
            Some(_) => true,
            None => false,
        };
        let search = if new.file && !own {
            let cwd = self.session.header().cwd.clone();
            self.files.start(&cwd)
        } else {
            self.files = FileSearch::default();
            false
        };
        self.completion = Some(new);
        search
    }

    /// Takes in the result of a search for files.
    pub fn searched(&mut self, result: Result<Vec<String>, String>)
        requires
            old(self).wf(),
        ensures
            final(self).wf(),
            final(self)@ == (if !old(self)@.files.running {
                old(self)@
            } else {
                match result {
                    Ok(files) => AppView {
                        files: FileSearchView { files: texts(files@), running: false, ..old(self)@.files },
                        ..old(self)@
                    },
                    Err(e) => AppView {
                        files: FileSearchView { running: false, ..old(self)@.files },
                        ..old(self)@
                    }.warned("File search: "@ + e@),
                }
            }),
    {
        if let Some(Err(e)) = self.files.poll(Some(result)) {
            self.warn(&text::cat("File search: ", &e));
        }
    }

    /// Opens the way for a menu again where the input has changed from `source`
    /// with the cursor at `cursor`.
    pub fn attend(&mut self, source: &str, cursor: usize)
        requires
            old(self).wf(),
        ensures
            final(self).wf(),
            final(self)@ == (AppView {
                dismissed: old(self)@.dismissed && old(self)@.editor.chars == source@ && old(self)@.editor.cursor
                    == cursor,
                ..old(self)@
            }),
    {
        if !text::same(&self.editor.text(), source) || self.editor.cursor != cursor {
            self.dismissed = false;
        }
    }

    /// Whether the program can end.
    pub fn over(&self) -> (r: bool)
        ensures
            r == (self@.quitting && !self@.working),
    {
        self.quitting && !self.working
    }

    /// How long to wait for the user, in milliseconds: not long while something
    /// else goes on.
    pub fn patience(&self) -> (r: u64)
        ensures
            r == (if self@.working || self@.files.running {
                33u64
            } else {
                1000u64
            }),
    {
        if self.working || self.files.pending() {
            33
        } else {
            1000
        }
    }

    /// The program at its beginning.
    pub fn new(session: Session, skills: Vec<Skill>) -> (r: App)
        requires
            session.wf(),
            log_showable(session@.records),
        ensures
            r.wf(),
            r.fresh(),
            r@ == (AppView {
                session: session@,
                editor: no_input(),
                live: seq![],
                live_notice: None,
                feedback: seq![],
                queued: seq![],
                skills: skill_views(skills@),
                completion: None,
                dismissed: false,
                files: no_search(),
                working: false,
                stopping: false,
                picker: None,
                expanded: false,
                scroll: 0,
                layout: None,
                quitting: false,
                title: TitleStatus::Ready,
            }),
    {
        let app = App {
            session,
            editor: Editor::default(),
            live: Vec::new(),
            live_notice: None,
            feedback: Vec::new(),
            queued: Vec::new(),
            skills,
            completion: None,
            dismissed: false,
            files: FileSearch::default(),
            working: false,
            stopping: false,
            picker: None,
            expanded: false,
            scroll: 0,
            scroll_layout: None,
            quitting: false,
            title_status: TitleStatus::Ready,
        };
        proof {
            assert(app@.live =~= seq![]);
            assert(app@.feedback =~= seq![]);
            assert(app@.queued =~= seq![]);
            assert(app@.editor.chars =~= seq![]);
        }
        app
    }
}

/// The size of the context where none is given.
pub const CONTEXT: u64 = 272_000;

/// The size of the context that a setting gives.
pub open spec fn context_of(setting: Option<Seq<char>>) -> u64 {
    match setting {
        None => CONTEXT,
        Some(s) => match counts::whole(s) {
            Some(n) => if 0 < n <= u64::MAX {
                n as u64
            } else {
                CONTEXT
            },
            None => CONTEXT,
        },
    }
}

/// The model that settings ask for.
pub fn first_model(name: Option<String>, effort: Option<String>, context: Option<String>) -> (r: Model)
    ensures
        r@.name == (match name {
            Some(name) => name@,
            None => "gpt-6-luna"@,
        }),
        r@.effort == Some(
            match effort {
                Some(effort) => effort@,
                None => "xhigh"@,
            },
        ),
        r@.context == context_of(option_view(context)),
{
    let size: u64 = match context {
        None => CONTEXT,
        Some(s) => match counts::read_whole(&text::chars(&s)) {
            Some(n) => if n > 0 {
                n
            } else {
                CONTEXT
            },
            None => CONTEXT,
        },
    };
    Model {
        name: match name {
            Some(name) => name,
            None => "gpt-6-luna".to_owned(),
        },
        effort: Some(
            match effort {
                Some(effort) => effort,
                None => "xhigh".to_owned(),
            },
        ),
        context: size,
    }
}

/// What puts a text on the clipboard of the terminal.
pub fn clipboard(source: &str) -> (r: String)
    requires
        4 * ((input::bytes_of(source@) + 2) / 3) <= isize::MAX,
    ensures
        r@ == "\u{1b}]52;c;"@ + tools::base64_text(vstd::utf8::encode_utf8(source@)) + "\u{7}"@,
{
    let mut out = text::cat("\u{1b}]52;c;", &tools::base64(source.as_bytes()));
    out.append("\u{7}");
    out
}

/// The program after events in turn, of which none ends the turn.
pub open spec fn heard_all(app: AppView, events: Seq<EventView>) -> AppView
    decreases events.len(),
{
    if events.len() == 0 {
        app
    } else {
        heard_all(app, events.drop_last()).heard(events.last()).0
    }
}

/// The events of a reply fill the view as they say: it holds the blocks that
/// they leave, as many as they speak of, and nothing else of the program changes
/// but a mark on the cache.
pub proof fn law_events_fill_the_view(app: AppView, events: Seq<EventView>)
    requires
        crate::api::blocks_after(app.live.len() as int, events) is Some,
        forall|k: int| 0 <= k < events.len() ==> !((#[trigger] events[k]) is Done),
    ensures
        Some(heard_all(app, events).live.len() as int) == crate::api::blocks_after(app.live.len() as int, events),
        heard_all(app, events).live == crate::api::redrawn_all(app.live, events),
        heard_all(app, events) == (AppView {
            live: heard_all(app, events).live,
            live_notice: heard_all(app, events).live_notice,
            ..app
        }),
    decreases events.len(),
{
    if events.len() > 0 {
        let start = events.drop_last();
        assert forall|k: int| 0 <= k < start.len() implies !((#[trigger] start[k]) is Done) by {
            assert(start[k] == events[k]);
        }
        law_events_fill_the_view(app, start);
        assert(events.last() == events[events.len() - 1]);
    }
}

/// A turn that the user has stopped is committed, but nothing goes on by itself:
/// what is queued stays queued, and no turn begins.
pub proof fn law_stopped_turns_end(app: AppView, step: StepView)
    requires
        app.stopping || app.quitting,
    ensures
        app.advanced(step).0.queued == app.queued,
        app.advanced(step).1 == EffectView::Save,
        app.advanced(step).0.session == app.session.pushed(
            marked_entries(step, latest_usage(app.session)),
            Some(step.usage),
        ),
{
}

/// A turn that failed changes neither the session nor what is queued.
pub proof fn law_failed_turns_change_nothing(app: AppView, e: Seq<char>)
    ensures
        app.failed(e).session == app.session,
        app.failed(e).queued == app.queued,
        !app.failed(e).working,
{
}

/// Steering is never lost: what was queued during a turn is committed behind it,
/// in order, and the next turn begins.
pub proof fn law_steering_is_sent(app: AppView, step: StepView)
    requires
        !app.stopping,
        !app.quitting,
        app.queued.len() > 0,
    ensures
        app.advanced(step).1 == EffectView::Start,
        app.advanced(step).0.queued.len() == 0,
        app.advanced(step).0.session == sent(
            app.session.pushed(marked_entries(step, latest_usage(app.session)), Some(step.usage)),
            app.queued,
        ),
{
}

/// Input that is refused stays in the editor: only a command that was taken for
/// one, or a message that was accepted, clears it.
pub proof fn law_refused_input_is_kept(app: AppView, source: Seq<char>, files: Seq<input::SnapshotView>)
    ensures
        input::carried(input::bytes_of(source), files) is Err ==> app.received(source, files).0.editor == app.editor,
        input::carried(input::bytes_of(source), files) is Ok ==> app.received(source, files).0.editor == no_input(),
        forall|home: Seq<char>, skill: Option<SkillView>|
            (#[trigger] app.attaching(source, home, skill)).0.editor == app.editor,
{
}

/// While a turn is being taken, no command changes the session.
pub proof fn law_turns_keep_their_session(app: AppView, kind: BuiltinKind, args: Seq<Seq<char>>)
    requires
        app.working,
    ensures
        app.commanded(kind, args).0.session == app.session,
        kind != BuiltinKind::Quit && kind != BuiltinKind::Copy ==> app.commanded(kind, args).1 is Err,
{
}

/// Whether the user has picked the node `node`.
pub open spec fn picks_node(app: AppView, node: Option<usize>) -> bool {
    app.picker matches Some(p) && p.selected < p.entries.len() && p.entries[p.selected as int].0 == TargetView::Node(
        node,
    )
}

/// Whether a log can take a change of the cursor: every entry has its node.
pub open spec fn at_rest(rs: Seq<RecordView>) -> bool {
    rs.len() == 0 || !rs.last().is_entry()
}

proof fn lemma_user_text(blocks: Seq<BlockView>, from: int, k: int)
    requires
        0 <= from <= k < blocks.len(),
        blocks[k].kind == Kind::User,
        forall|j: int| from <= j < k ==> (#[trigger] blocks[j]).kind != Kind::User,
    ensures
        user_text(blocks, from) == Some(blocks[k].text),
    decreases k - from,
{
    if from < k {
        assert(blocks[from].kind != Kind::User);
        lemma_user_text(blocks, from + 1, k);
    }
}

proof fn lemma_no_user_text(blocks: Seq<BlockView>, from: int)
    requires
        0 <= from <= blocks.len(),
        forall|j: int| from <= j < blocks.len() ==> (#[trigger] blocks[j]).kind != Kind::User,
    ensures
        user_text(blocks, from) is None,
    decreases blocks.len() - from,
{
    if from < blocks.len() {
        assert(blocks[from].kind != Kind::User);
        lemma_no_user_text(blocks, from + 1);
    }
}

/// The program at node `to`: the cursor is there, what is sent is the
/// conversation that ends there, nothing of the log is lost, and what was shown
/// of the turn before is gone. The session is saved where the cursor moved.
pub open spec fn arrived(app: AppView, to: Option<usize>) -> bool {
    let (next, effect) = app.picked();
    &&& next.session.cursor() == to
    &&& conversation(next.session.records, next.session.cursor()) == conversation(app.session.records, to)
    &&& app.session.records.is_prefix_of(next.session.records)
    &&& app.session.cursor() == to ==> next.session == app.session && effect == EffectView::Nothing
    &&& app.session.cursor() != to ==> effect == EffectView::Save && next.session.records
        == app.session.records.push(RecordView::Cursor(to))
    &&& next.session.header == app.session.header
    &&& next.picker is None
    &&& next.live.len() == 0 && next.live_notice is None && next.feedback.len() == 0 && next.queued.len() == 0
    &&& next.scroll == 0 && next.layout is None
    &&& next.skills == app.skills && next.working == app.working && next.quitting == app.quitting
}

proof fn lemma_arrives(app: AppView, node: Option<usize>)
    requires
        crate::session::linked(app.session.records),
        app.session.records.len() < usize::MAX,
        at_rest(app.session.records),
        picks_node(app, node),
        node matches Some(i) ==> crate::session::node_at(app.session.records, i as int),
    ensures
        arrived(app, destination(app.session.records, node).0),
{
    let rs = app.session.records;
    let to = destination(rs, node).0;
    if let Some(i) = node {
        assert(crate::session::linked_at(rs, i as int));
    }
    let moved = rs.push(RecordView::Cursor(to));
    assert(moved.drop_last() =~= rs);
    assert(moved.take(rs.len() as int) =~= rs);
    assert(rs.is_prefix_of(moved));
    assert(rs.take(rs.len() as int) =~= rs);
    assert(rs + seq![RecordView::Cursor(to)] =~= moved);
    crate::session::lemma_conversation_stays(rs, seq![RecordView::Cursor(to)], to);
}

/// Picking a message of the user takes it back to be written anew: the program
/// goes to the parent of its node, so that the message can be sent again beside
/// it, behind the conversation that it was sent behind; and the input holds the
/// message, with the cursor at its end.
pub proof fn law_picked_messages_are_taken_back(app: AppView, i: usize, k: int)
    requires
        crate::session::linked(app.session.records),
        app.session.records.len() < usize::MAX,
        at_rest(app.session.records),
        picks_node(app, Some(i)),
        crate::session::node_at(app.session.records, i as int),
        ({
            let blocks = app.session.records[i as int]->Node_0.blocks;
            &&& 0 <= k < blocks.len()
            &&& blocks[k].kind == Kind::User
            &&& forall|j: int| 0 <= j < k ==> (#[trigger] blocks[j]).kind != Kind::User
        }),
    ensures
        ({
            let node = app.session.records[i as int]->Node_0;
            let next = app.picked().0;
            &&& arrived(app, node.parent)
            &&& next.editor.chars == ui::cleaned(node.blocks[k].text)
            &&& next.editor.cursor == next.editor.chars.len()
            &&& forall|entries: Seq<RecordView>, usage: Option<Usage>| #[trigger]
                next.session.pushed(entries, usage).records.last()->Node_0.parent == node.parent
        }),
{
    let blocks = app.session.records[i as int]->Node_0.blocks;
    lemma_user_text(blocks, 0, k);
    lemma_arrives(app, Some(i));
    let said = ui::cleaned(blocks[k].text);
    assert(Seq::<char>::empty().take(0) + said + Seq::<char>::empty().skip(0) =~= said);
}

/// Picking any other node goes there, and leaves the input alone; picking the
/// root goes before the first message, where nothing is sent.
pub proof fn law_picked_nodes_are_gone_to(app: AppView, node: Option<usize>)
    requires
        crate::session::linked(app.session.records),
        app.session.records.len() < usize::MAX,
        at_rest(app.session.records),
        picks_node(app, node),
        node matches Some(i) ==> crate::session::node_at(app.session.records, i as int) && forall|j: int|
            0 <= j < app.session.records[i as int]->Node_0.blocks.len() ==> (
            #[trigger] app.session.records[i as int]->Node_0.blocks[j]).kind != Kind::User,
    ensures
        arrived(app, node),
        app.picked().0.editor == app.editor,
        node is None ==> conversation(app.picked().0.session.records, app.picked().0.session.cursor()).len() == 0,
{
    if let Some(i) = node {
        lemma_no_user_text(app.session.records[i as int]->Node_0.blocks, 0);
    }
    lemma_arrives(app, node);
}

/// Picking a session asks for it to be opened, from its file unless it is the
/// one that is open, which the name of the file tells; nothing else changes.
pub proof fn law_picked_sessions_are_opened(app: AppView, dir: Seq<char>, id: Seq<char>)
    requires
        id.len() > 0,
        !id.contains('/'),
        app.picker matches Some(p) && p.selected < p.entries.len() && p.entries[p.selected as int].0
            == TargetView::Session(dir + "/"@ + id + ".jsonl"@),
    ensures
        app.picked().1 == EffectView::Open(dir + "/"@ + id + ".jsonl"@, id != app.session.header.id),
        app.picked().0 == (AppView { picker: None, ..app }),
{
    reveal_strlit("/");
    reveal_strlit(".jsonl");
    let path = dir + "/"@ + id + ".jsonl"@;
    let name = id + ".jsonl"@;
    let p = text::other_than('/');
    let n = name.len() as int;
    assert forall|k: int| path.len() - n <= k < path.len() implies p(#[trigger] path[k]) by {
        let j = k - (path.len() - n);
        assert(path[k] == name[j]);
        if j < id.len() {
            assert(name[j] == id[j]);
            if id[j] == '/' {
                assert(id.contains('/'));
            }
        }
    }
    assert(path[path.len() - n - 1] == '/');
    text::lemma_span_back_is(path, p, n);
    assert(path.skip(text::last(path, '/') + 1) =~= name);
    text::lemma_span_back_is(name, text::other_than('.'), 5);
    assert(name.take(id.len() as int) =~= id);
}

/// Feedback is kept in order, the newest last; only where there would be more
/// than twenty words of it does the oldest go.
pub proof fn law_feedback_is_kept(app: AppView, kind: Kind, words: Seq<char>)
    requires
        app.feedback.len() <= 20,
    ensures
        ({
            let next = app.noted(kind, words);
            &&& next.feedback.len() == (if app.feedback.len() < 20 { app.feedback.len() + 1 } else { 20 })
            &&& next.feedback.last() == plain(kind, words)
            &&& app.feedback.len() < 20 ==> next.feedback.drop_last() == app.feedback
            &&& app.feedback.len() == 20 ==> next.feedback.drop_last() == app.feedback.drop_first()
            &&& next == (AppView { feedback: next.feedback, ..app })
        }),
        app.noticed(words) == app.noted(Kind::Notice, words),
        app.warned(words) == app.noted(Kind::Warning, words),
{
    let next = app.noted(kind, words);
    if app.feedback.len() < 20 {
        assert(next.feedback.drop_last() =~= app.feedback);
    } else {
        assert(next.feedback.drop_last() =~= app.feedback.drop_first());
    }
}

/// Messages are committed one after the other, each as a node of its own that
/// holds its text and what it carries: what is sent grows by them in their
/// order. The session of a log that is in order stays so.
pub proof fn law_messages_are_sent_in_order(session: SessionView, queued: Seq<MessageView>, m: MessageView)
    requires
        crate::session::linked(session.records),
        at_rest(session.records),
        queue_wf(queued.push(m)),
        sent(session, queued.push(m)).records.len() <= usize::MAX,
    ensures
        sent(session, Seq::empty()) == session,
        ({
            let before = sent(session, queued);
            let after = sent(session, queued.push(m));
            &&& crate::session::linked(after.records)
            &&& at_rest(after.records)
            &&& before.records.is_prefix_of(after.records)
            &&& conversation(after.records, after.cursor()) == conversation(before.records, before.cursor()) + (seq![
                user_item(m.text),
            ] + crate::session::inputs_of(m.attachments))
            &&& after.records.last() matches RecordView::Node(node) && node.parent == before.cursor() && node.usage is None
        }),
    decreases queued.len(),
{
    let all = queued.push(m);
    let entries = seq![RecordView::Item(user_item(m.text))] + m.attachments;
    assert(all.drop_last() =~= queued);
    assert(all[queued.len() as int] == m);
    assert forall|k: int| 0 <= k < queued.len() implies all_entries((#[trigger] queued[k]).attachments) by {
        assert(all[k] == queued[k]);
    }
    let before = sent(session, queued);
    let titled = before.titled(m.text);
    let after = sent(session, all);
    assert(titled.records == before.records);
    assert(after == titled.pushed(entries, None));
    assert(after.records.len() == before.records.len() + entries.len() + 1);
    if queued.len() > 0 {
        let start = queued.drop_last();
        assert(start.push(queued.last()) =~= queued);
        law_messages_are_sent_in_order(session, start, queued.last());
    }
    assert(all_entries(entries)) by {
        assert forall|k: int| 0 <= k < entries.len() implies (#[trigger] entries[k]).is_entry() by {
            if k > 0 {
                assert(entries[k] == m.attachments[k - 1]);
            }
        }
    }
    crate::session::law_sent_conversation_grows(titled, entries, None);
    crate::session::law_commits_append_a_node(titled, entries, None);
    crate::session::lemma_entries_keep_links(titled.records, entries);
    let rs = titled.records + entries;
    let record = RecordView::Node(crate::session::NodeView { parent: titled.cursor(), usage: None, start: 0, blocks: Seq::empty() });
    crate::session::lemma_cursor(titled.records);
    if let Some(p) = titled.cursor() {
        assert(rs[p as int] == titled.records[p as int]);
    }
    crate::session::law_recording_keeps_links(rs, record);
    assert(recorded(rs, record)->Ok_0 == after.records);
    crate::api::law_inputs_append(seq![RecordView::Item(user_item(m.text))], m.attachments);
    let one = seq![RecordView::Item(user_item(m.text))];
    crate::session::law_every_entry_is_sent(seq![], RecordView::Item(user_item(m.text)));
    assert(Seq::<RecordView>::empty().push(RecordView::Item(user_item(m.text))) =~= one);
    assert(crate::session::inputs_of(one) =~= seq![user_item(m.text)]);
    assert(before.records =~= after.records.take(before.records.len() as int)) by {
        assert forall|k: int| 0 <= k < before.records.len() implies #[trigger] before.records[k] == after.records[k] by {
            assert(after.records.take(rs.len() as int)[k] == rs[k]);
        }
    }
}

/// A turn that was taken is committed with all its entries, below the cursor and
/// with its usage; where a cached prefix was not read, a word on that stands
/// before them and nowhere else. What the turn showed while it ran goes.
pub proof fn law_turns_are_committed(app: AppView, step: StepView)
    ensures
        ({
            let previous = latest_usage(app.session);
            let marked = if step.usage.missed(previous) {
                seq![RecordView::Notice("Cache miss · previously cached prefix was not read"@)] + step.entries
            } else {
                step.entries
            };
            let committed = app.session.pushed(marked, Some(step.usage));
            let goes_on = !app.stopping && !app.quitting;
            let (next, effect) = app.advanced(step);
            &&& goes_on ==> next.session == sent(committed, app.queued) && next.queued.len() == 0 && next.feedback
                == app.feedback
            &&& !goes_on ==> next.session == committed && next.queued == app.queued
            &&& app.stopping ==> next.feedback == app.warned(
                "Stopped. Tool side effects are not undone. Enter to continue."@,
            ).feedback
            &&& !app.stopping ==> next.feedback == app.feedback
            &&& effect == (if goes_on && (step.again || app.queued.len() > 0) {
                EffectView::Start
            } else {
                EffectView::Save
            })
            &&& next.live.len() == 0 && next.live_notice is None && !next.working && !next.stopping
            &&& next.title == (if app.stopping {
                TitleStatus::Ready
            } else if (step.again || app.queued.len() > 0) && !app.quitting {
                TitleStatus::Failed
            } else if step.again && !app.quitting {
                TitleStatus::Failed
            } else {
                TitleStatus::Finished
            })
            &&& next.editor == app.editor && next.skills == app.skills && next.scroll == app.scroll
            &&& next.quitting == app.quitting && next.picker == app.picker
        }),
        usages(app.session.records, app.session.cursor()).len() > 0 ==> latest_usage(app.session) == usages(
            app.session.records,
            app.session.cursor(),
        )[0],
        usages(app.session.records, app.session.cursor()).len() == 0 ==> latest_usage(app.session) == (Usage {
            input: 0,
            output: 0,
            cached: None,
        }),
{
}

/// A turn that failed is told of, and of the messages that wait for the next
/// one; what it showed stays, and nothing is committed or sent.
pub proof fn law_failures_are_told(app: AppView, e: Seq<char>)
    requires
        app.feedback.len() <= 18,
    ensures
        ({
            let next = app.failed(e);
            let told = app.feedback.push(plain(Kind::Warning, e));
            &&& app.queued.len() == 0 ==> next.feedback == told
            &&& app.queued.len() > 0 ==> next.feedback == told.push(
                plain(Kind::Notice, "Steering still queued. Send a message to retry, /new to discard."@),
            )
            &&& next.live == app.live && next.live_notice is None
            &&& next.session == app.session && next.queued == app.queued && next.editor == app.editor
            &&& !next.working && !next.stopping
            &&& next.title == (if app.stopping { TitleStatus::Ready } else { TitleStatus::Failed })
            &&& app.heard(EventView::Done(Err(e))) == (next, EffectView::Nothing)
        }),
{
}

/// An event changes the block that it speaks of and no other: text is added at
/// its end, a block takes its place, an output replaces the one before and leaves
/// the state of the call alone. An event of a block that is not there changes
/// nothing.
pub proof fn law_events_change_their_block(app: AppView, i: int, more: Seq<char>, block: BlockView, output: crate::block::OutputView)
    ensures
        app.heard(EventView::Push(block)).0 == (AppView { live: app.live.push(block), ..app }),
        app.heard(EventView::CacheMiss).0 == (AppView {
            live_notice: Some(plain(Kind::Warning, "Cache miss · previously cached prefix was not read"@)),
            ..app
        }),
        0 <= i < app.live.len() ==> {
            let shown = app.live[i];
            &&& app.heard(EventView::Delta(i, more)).0 == (AppView {
                live: app.live.update(i, BlockView { kind: shown.kind, text: shown.text + more, tool: shown.tool }),
                ..app
            })
            &&& app.heard(EventView::Replace(i, block)).0 == (AppView { live: app.live.update(i, block), ..app })
            &&& shown.tool matches Some(t) ==> app.heard(EventView::ToolOutput(i, output)).0 == (AppView {
                live: app.live.update(
                    i,
                    BlockView {
                        kind: shown.kind,
                        text: shown.text,
                        tool: Some(ToolView { call_id: t.call_id, status: t.status, output }),
                    },
                ),
                ..app
            })
            &&& shown.tool is None ==> app.heard(EventView::ToolOutput(i, output)).0 == app
        },
        i >= app.live.len() ==> app.heard(EventView::Delta(i, more)).0 == app && app.heard(
            EventView::Replace(i, block),
        ).0 == app && app.heard(EventView::ToolOutput(i, output)).0 == app,
{
}

/// What the commands do where no turn is being taken.
pub proof fn law_commands_do_their_work(app: AppView, args: Seq<Seq<char>>)
    requires
        !app.working,
    ensures
        app.commanded(BuiltinKind::Quit, args) == (AppView { quitting: true, ..app }, Ok::<EffectView, Seq<char>>(
            EffectView::Nothing,
        )),
        app.commanded(BuiltinKind::New, args) == (app, Ok::<EffectView, Seq<char>>(EffectView::Renew)),
        app.commanded(BuiltinKind::Resume, args) == (app, Ok::<EffectView, Seq<char>>(EffectView::List)),
{
}

/// Leaving stops the turn that is being taken; copying is possible while one is.
pub proof fn law_leaving_stops_the_turn(app: AppView, args: Seq<Seq<char>>)
    ensures
        app.commanded(BuiltinKind::Quit, args) == (
            AppView { quitting: true, stopping: app.stopping || app.working, ..app },
            Ok::<EffectView, Seq<char>>(EffectView::Nothing),
        ),
        app.commanded(BuiltinKind::Copy, args).0 == app,
        ({
            let kind = if args.len() < 2 || args[1] == "agent"@ {
                Some(Kind::Agent)
            } else if args[1] == "user"@ {
                Some(Kind::User)
            } else {
                None::<Kind>
            };
            app.commanded(BuiltinKind::Copy, args).1 == match kind {
                None => Err::<EffectView, Seq<char>>("Usage: "@ + commands::builtin_name(BuiltinKind::Copy) + " "@ + commands::builtin_hint(BuiltinKind::Copy)),
                Some(kind) => match crate::session::newest(app.session.records, app.session.cursor(), kind) {
                    Some(s) => Ok(EffectView::Copy(s)),
                    None => Err("Nothing to copy"@),
                },
            }
        }),
{
}

/// A model that was chosen is in force from then on, and is recorded where it is
/// another one; what the arguments leave out of the context stays as it was, and
/// an effort that is not given, or is a dash, is none.
pub proof fn law_chosen_models_are_in_force(app: AppView, args: Seq<Seq<char>>)
    requires
        !app.working,
        at_rest(app.session.records),
    ensures
        ({
            let now = model_of(app.session.records, app.session.header.model);
            let (next, result) = app.commanded(BuiltinKind::Model, args);
            let then = model_of(next.session.records, next.session.header.model);
            let readable = args.len() == 2 || args.len() == 3 || args.len() == 4 && counts::valid_count(args[3]) is Some;
            &&& !readable ==> next == app && result is Err
            &&& readable ==> {
                &&& result == Ok::<EffectView, Seq<char>>(EffectView::Save)
                &&& then.name == args[1]
                &&& args.len() == 2 ==> then.effort is None
                &&& args.len() > 2 && args[2] == "-"@ ==> then.effort is None
                &&& args.len() > 2 && args[2] != "-"@ ==> then.effort == Some(args[2])
                &&& args.len() < 4 ==> then.context == now.context
                &&& args.len() == 4 ==> Some(then.context) == counts::valid_count(args[3])
                &&& then == now ==> next == app
                &&& then != now ==> next == (AppView {
                    session: SessionView {
                        records: app.session.records.push(RecordView::Model(then)),
                        ..app.session
                    },
                    ..app
                })
                &&& next.session.cursor() == app.session.cursor()
            }
        }),
{
    let now = model_of(app.session.records, app.session.header.model);
    if let Ok(model) = asked_model(args, now) {
        let longer = app.session.records.push(RecordView::Model(model));
        assert(longer.drop_last() =~= app.session.records);
    }
}

/// The tree offers every row of the conversation in its order, marks the one
/// that the conversation is at, and begins there.
pub proof fn law_tree_begins_at_the_cursor(app: AppView, args: Seq<Seq<char>>)
    requires
        !app.working,
        tree_of(app.session).len() <= usize::MAX,
    ensures
        ({
            let rows = tree_of(app.session);
            let cursor = app.session.cursor();
            let (next, result) = app.commanded(BuiltinKind::Tree, args);
            let p = next.picker->0;
            &&& result == Ok::<EffectView, Seq<char>>(EffectView::Nothing)
            &&& next.picker is Some
            &&& next == (AppView { picker: next.picker, ..app })
            &&& p.entries.len() == rows.len()
            &&& forall|k: int|
                0 <= k < rows.len() ==> (#[trigger] p.entries[k]).0 == TargetView::Node(rows[k].0) && p.entries[k].1 == (if rows[k].0
                    == cursor { "● "@ } else { "  "@ }) + rows[k].1
            &&& (exists|k: int| 0 <= k < rows.len() && (#[trigger] rows[k]).0 == cursor) ==> p.selected < rows.len()
                && rows[p.selected as int].0 == cursor
        }),
{
    let rows = tree_of(app.session);
    lemma_cursor_row(rows, app.session.cursor(), 0);
}

proof fn lemma_cursor_row(rows: Seq<(Option<usize>, Seq<char>)>, cursor: Option<usize>, from: int)
    requires
        0 <= from <= rows.len(),
    ensures
        0 <= cursor_row(rows, cursor, from) < rows.len() || cursor_row(rows, cursor, from) == 0,
        (exists|k: int| from <= k < rows.len() && (#[trigger] rows[k]).0 == cursor) ==> {
            let r = cursor_row(rows, cursor, from);
            0 <= r < rows.len() && rows[r].0 == cursor
        },
    decreases rows.len() - from,
{
    if from < rows.len() && rows[from].0 != cursor {
        lemma_cursor_row(rows, cursor, from + 1);
        if exists|k: int| from <= k < rows.len() && (#[trigger] rows[k]).0 == cursor {
            let k = choose|k: int| from <= k < rows.len() && (#[trigger] rows[k]).0 == cursor;
            assert(from + 1 <= k < rows.len() && rows[k].0 == cursor);
        }
    }
}

/// A message that was read is accepted as it stands, with what it carries: while
/// a turn is being taken it waits behind the others, and else it is sent with
/// them at once and a turn begins. The input is empty then. A message that cannot
/// be carried is refused with the reason, and changes nothing else.
pub proof fn law_messages_are_accepted(app: AppView, source: Seq<char>, files: Seq<input::SnapshotView>)
    ensures
        input::carried(input::bytes_of(source), files) matches Err(e) ==> app.received(source, files) == (
            app.warned(e),
            EffectView::Nothing,
        ),
        input::carried(input::bytes_of(source), files) matches Ok(c) ==> {
            let (next, effect) = app.received(source, files);
            let waiting = if text::trim(source).len() > 0 {
                app.queued.push(MessageView { text: source, attachments: c.attachments })
            } else {
                app.queued
            };
            &&& next.editor.chars.len() == 0 && next.editor.cursor == 0
            &&& app.working ==> next == (AppView { queued: waiting, editor: next.editor, ..app }) && effect
                == EffectView::Nothing
            &&& !app.working ==> {
                &&& next.session == sent(app.session, waiting)
                &&& next.queued.len() == 0
                &&& next.feedback.len() == 0
                &&& effect == (if next.session.cursor() is Some { EffectView::Start } else { EffectView::Nothing })
                &&& next == (AppView {
                    session: next.session,
                    queued: next.queued,
                    feedback: next.feedback,
                    editor: next.editor,
                    ..app
                })
            }
        },
{
}

/// What is typed is sent as it stands: nothing but white space not at all, what
/// begins with a slash as the command or the skill that it names, and anything
/// else as a message, unless a mention in it is left open. Sending goes to the
/// end of the transcript.
pub proof fn law_input_is_sent_as_it_stands(app: AppView, home: Seq<char>)
    ensures
        (forall|k: int| 0 <= k < app.editor.chars.len() ==> text::is_space(#[trigger] app.editor.chars[k]))
            ==> app.submitted(home) == (app, EffectView::Nothing),
        ({
            let s = app.editor.chars;
            let start = text::trim_start(s);
            text::trim(s).len() > 0 && start[0] != '/' && !input::left_open(input::mentions_in(s)) ==> app.submitted(
                home,
            ) == (
                AppView { scroll: 0, layout: None, ..app },
                EffectView::Attach(s, input::wanted_of(s, app.session.header.cwd, home, None)),
            )
        }),
        ({
            let s = app.editor.chars;
            let start = text::trim_start(s);
            text::trim(s).len() > 0 && start[0] != '/' && input::left_open(input::mentions_in(s)) ==> app.submitted(
                home,
            ) == (
                AppView { scroll: 0, layout: None, ..app.warned("Unclosed @\"file name\" mention"@) },
                EffectView::Nothing,
            )
        }),
{
    let s = app.editor.chars;
    let p = |c: char| text::is_space(c);
    if forall|k: int| 0 <= k < s.len() ==> text::is_space(#[trigger] s[k]) {
        assert forall|k: int| 0 <= k < s.len() implies p(#[trigger] s[k]) by {
            assert(text::is_space(s[k]));
        }
        text::lemma_span_is(s, p, s.len() as int);
        assert(text::trim_start(s).len() == 0);
    }
    text::lemma_span(s, p);
}

/// A slash and the name of a command does what the command does, with the words
/// behind it, and empties the input; the name of a skill sends the message with
/// the skill. A name that means nothing, or too much, is refused and kept.
pub proof fn law_slashes_name_commands_and_skills(app: AppView, home: Seq<char>)
    requires
        text::trim_start(app.editor.chars).len() > 0,
        text::trim_start(app.editor.chars)[0] == '/',
    ensures
        ({
            let start = text::trim_start(app.editor.chars);
            let word = start.take(text::word_len(start));
            let rest = start.skip(word.len() as int);
            let (next, effect) = app.input_sent(home);
            match commands::resolved(app.skills, word) {
                Err(e) => next == app.warned(e) && effect == EffectView::Nothing,
                Ok((name, ChoiceView::Builtin(kind))) => {
                    let (after, result) = app.commanded(kind, text::words(name + rest));
                    &&& next.editor.chars.len() == 0
                    &&& next.session == after.session && next.picker == after.picker && next.quitting == after.quitting
                        && next.stopping == after.stopping
                    &&& result matches Ok(done) ==> effect == done && next.feedback == after.feedback
                    &&& result matches Err(e) ==> effect == EffectView::Nothing && next.feedback == after.warned(
                        e,
                    ).feedback
                },
                Ok((name, ChoiceView::Skill(i))) => !input::left_open(input::mentions_in(name + rest)) ==> next == app
                    && effect == EffectView::Attach(
                    name + rest,
                    input::wanted_of(name + rest, app.session.header.cwd, home, Some(app.skills[i])),
                ),
            }
        }),
{
}

/// A turn begins only where none is being taken and there is something to go on
/// from; what the last one showed goes, and the end of the transcript is shown.
pub proof fn law_turns_begin_afresh(app: AppView)
    ensures
        app.startable() <==> !app.working && app.session.cursor() is Some,
        app.begun() == (AppView {
            live: seq![],
            live_notice: None,
            working: true,
            stopping: false,
            scroll: 0,
            layout: None,
            title: TitleStatus::Ready,
            ..app
        }),
        app.after_save(None) == app,
        forall|e: Seq<char>| #[trigger] app.after_save(Some(e)) == app.warned("Session not saved: "@ + e),
        app.after_copy(None) == app.noticed("Copied."@),
        forall|e: Seq<char>| #[trigger] app.after_copy(Some(e)) == app.warned(e),
{
}

/// A session that is turned to is shown alone: its skills come with it, and
/// nothing of the one before stays in the view or in the queue. The input stays.
pub proof fn law_sessions_are_turned_to(app: AppView, session: SessionView, skills: Seq<SkillView>)
    ensures
        app.turned_to(session, skills) == (AppView {
            session,
            skills,
            files: FileSearchView { cwd: None, files: seq![], running: false },
            live: seq![],
            live_notice: None,
            feedback: seq![],
            queued: seq![],
            scroll: 0,
            layout: None,
            title: TitleStatus::Ready,
            ..app
        }),
{
}

/// Saved sessions are offered in the order in which they were listed, the first
/// chosen; where there are none, or they cannot be listed, that is told.
pub proof fn law_sessions_are_offered(app: AppView, list: Seq<(Seq<char>, Seq<char>)>)
    ensures
        list.len() == 0 ==> app.offered(Ok(list)) == app.warned("No saved sessions"@),
        list.len() > 0 ==> {
            let next = app.offered(Ok(list));
            &&& next == (AppView { picker: next.picker, ..app })
            &&& next.picker matches Some(p) && p.selected == 0 && p.entries.len() == list.len() && forall|k: int|
                0 <= k < list.len() ==> #[trigger] p.entries[k] == (TargetView::Session(list[k].0), list[k].1)
        },
        forall|e: Seq<char>| #[trigger] app.offered(Err(e)) == app.warned(e),
{
}

/// The newest message in the queue is taken back where the input is empty: it
/// goes to the input, and the others stay queued. Else nothing is lost.
pub proof fn law_newest_queued_message_is_taken_back(app: AppView)
    requires
        app.feedback.len() < 20,
    ensures
        app.editor.chars.len() > 0 ==> app.recalled() == app.noticed(
            "Clear the input before restoring a queued message."@,
        ),
        app.editor.chars.len() == 0 && app.queued.len() == 0 ==> app.recalled() == app.noticed("No queued messages."@),
        app.editor.chars.len() == 0 && app.editor.cursor == 0 && app.queued.len() > 0 ==> {
            let next = app.recalled();
            &&& next.editor.chars == ui::cleaned(app.queued.last().text)
            &&& next.editor.cursor == next.editor.chars.len()
            &&& next.queued == app.queued.take(app.queued.len() - 1)
            &&& next.feedback == app.feedback.push(plain(Kind::Notice, "Restored newest queued message to input."@))
            &&& next.session == app.session
        },
{
    let empty = app.editor.chars;
    if empty.len() == 0 && app.queued.len() > 0 {
        let said = ui::cleaned(app.queued.last().text);
        assert(empty.take(0) + said + empty.skip(0) =~= said);
        assert(app.queued.drop_last() =~= app.queued.take(app.queued.len() - 1));
    }
}

/// A key that is let go does nothing; one that is pressed does the following,
/// whatever else is going on: `Ctrl+O` shows more or less of the transcript.
pub proof fn law_keys_that_always_work(app: AppView, press: Press, width: Option<usize>, home: Seq<char>)
    ensures
        press.released ==> app.pressed(press, width, home) == (app, EffectView::Nothing),
        !press.released && press.ctrl && press.key == Key::Char('o') ==> app.pressed(press, width, home) == (
            AppView { expanded: !app.expanded, layout: None, ..app },
            EffectView::Nothing,
        ),
        !press.released && app.picker is None && press.ctrl && press.key == Key::Up ==> app.pressed(press, width, home)
            == (app.recalled(), EffectView::Nothing),
{
}

/// While the user picks, the keys go to the picker: one up or down as far as
/// there are entries, to the first or the last, out of it, or to what is chosen.
/// Nothing else changes.
pub proof fn law_picker_keys(app: AppView, key: Key)
    requires
        app.picker matches Some(p) && p.selected < p.entries.len() <= usize::MAX,
    ensures
        ({
            let p = app.picker->0;
            let press = Press { key, ctrl: false, shift: false, alt: false, released: false };
            let (next, effect) = app.pressed(press, None, seq![]);
            let at = |selected: int| AppView { picker: Some(PickerView { selected: selected as usize, ..p }), ..app };
            &&& key != Key::Enter ==> effect == EffectView::Nothing
            &&& key == Key::Esc ==> next == (AppView { picker: None, ..app })
            &&& (key == Key::Up || key == Key::Char('k')) && p.selected > 0 ==> next == at(p.selected - 1)
            &&& (key == Key::Up || key == Key::Char('k')) && p.selected == 0 ==> next == at(0)
            &&& (key == Key::Down || key == Key::Char('j')) && p.selected + 1 < p.entries.len() ==> next == at(
                p.selected + 1,
            )
            &&& (key == Key::Down || key == Key::Char('j')) && p.selected + 1 == p.entries.len() ==> next == at(
                p.selected as int,
            )
            &&& key == Key::Home ==> next == at(0)
            &&& key == Key::End ==> next == at(p.entries.len() - 1)
            &&& key == Key::Enter ==> (next, effect) == app.picked()
            &&& (key == Key::Left || key == Key::Right || key == Key::Tab || key == Key::Backspace || key == Key::Delete
                || key == Key::PageUp || key == Key::PageDown) ==> next == app
        }),
{
}

/// A character that is typed stands at the cursor, which moves behind it, and
/// nothing else of the program changes; with a modifier it is not typed.
pub proof fn law_characters_are_typed(app: AppView, c: char, width: Option<usize>, home: Seq<char>)
    requires
        app.picker is None,
        app.completion is None,
        app.editor.wf(),
        ui::cleaned(seq![c]) == seq![c],
    ensures
        ({
            let press = Press { key: Key::Char(c), ctrl: false, shift: false, alt: false, released: false };
            let (next, effect) = app.pressed(press, width, home);
            let at = app.editor.cursor;
            &&& next.editor.chars == app.editor.chars.insert(at, c)
            &&& next.editor.cursor == at + 1
            &&& next == (AppView { editor: next.editor, ..app })
            &&& effect == EffectView::Nothing
            &&& app.pressed(Press { alt: true, ..press }, width, home) == (app, EffectView::Nothing)
            &&& c != 'a' && c != 'c' && c != 'd' && c != 'e' && c != 'j' && c != 'o' && c != 'u' && c != 'w'
                ==> app.pressed(Press { ctrl: true, ..press }, width, home) == (app, EffectView::Nothing)
        }),
{
    let at = app.editor.cursor;
    assert(app.editor.chars.take(at) + seq![c] + app.editor.chars.skip(at) =~= app.editor.chars.insert(at, c));
}

/// A new line is written with `Shift+Enter` and `Ctrl+J`; `Enter` alone sends.
pub proof fn law_enter_sends_and_shift_enter_breaks(app: AppView, width: Option<usize>, home: Seq<char>)
    requires
        app.picker is None,
        app.completion is None,
        app.editor.wf(),
    ensures
        ({
            let enter = Press { key: Key::Enter, ctrl: false, shift: false, alt: false, released: false };
            let broken = app.pressed(Press { shift: true, ..enter }, width, home);
            let at = app.editor.cursor;
            &&& app.pressed(enter, width, home) == app.submitted(home)
            &&& broken.0.editor.chars == app.editor.chars.insert(at, '\n')
            &&& broken.0.editor.cursor == at + 1
            &&& broken.0 == (AppView { editor: broken.0.editor, ..app })
            &&& broken.1 == EffectView::Nothing
            &&& app.pressed(Press { key: Key::Char('j'), ctrl: true, ..enter }, width, home) == broken
        }),
{
    reveal_strlit("\n");
    let at = app.editor.cursor;
    ui::law_harmless_is_kept("\n"@);
    assert("\n"@ =~= seq!['\n']);
    assert(app.editor.chars.take(at) + "\n"@ + app.editor.chars.skip(at) =~= app.editor.chars.insert(at, '\n'));
}

/// `Esc` and `Ctrl+C` stop the turn that is being taken. Where none is, `Esc`
/// does nothing, and `Ctrl+C` empties the input or leaves. `Ctrl+D` leaves where
/// the input is empty.
pub proof fn law_keys_that_stop_and_leave(app: AppView, width: Option<usize>, home: Seq<char>)
    requires
        app.picker is None,
        app.completion is None,
    ensures
        ({
            let esc = Press { key: Key::Esc, ctrl: false, shift: false, alt: false, released: false };
            let c = Press { key: Key::Char('c'), ctrl: true, ..esc };
            let d = Press { key: Key::Char('d'), ctrl: true, ..esc };
            &&& app.pressed(esc, width, home) == (
                AppView { stopping: app.stopping || app.working, ..app },
                EffectView::Nothing,
            )
            &&& app.working ==> app.pressed(c, width, home) == (AppView { stopping: true, ..app }, EffectView::Nothing)
            &&& !app.working && app.editor.chars.len() > 0 ==> {
                let next = app.pressed(c, width, home).0;
                next.editor.chars.len() == 0 && next.editor.cursor == 0 && next == (AppView {
                    editor: next.editor,
                    ..app
                })
            }
            &&& !app.working && app.editor.chars.len() == 0 ==> app.pressed(c, width, home).0 == (AppView {
                quitting: true,
                ..app
            })
            &&& app.editor.chars.len() == 0 ==> app.pressed(d, width, home).0 == (AppView {
                quitting: true,
                stopping: app.stopping || app.working,
                ..app
            })
            &&& app.editor.chars.len() > 0 ==> app.pressed(d, width, home).0 == app
        }),
{
}

/// Scrolling goes up and down by as much as is asked for; back at the end, the
/// layout that was kept on leaving it is let go. Pages are ten rows.
pub proof fn law_scrolling_goes_back(app: AppView, amount: usize, width: Option<usize>, home: Seq<char>)
    requires
        app.picker is None,
        app.completion is None,
        app.scroll + amount <= usize::MAX,
        app.scroll + 10 <= usize::MAX,
    ensures
        app.scrolled_up(amount, width).scroll == app.scroll + amount,
        app.scrolled_up(amount, width).scrolled_down(amount).scroll == app.scroll,
        app.scroll == 0 ==> app.scrolled_up(amount, width).scrolled_down(amount).layout is None,
        app.scroll > 0 ==> app.scrolled_up(amount, width).layout == app.layout,
        amount >= app.scroll ==> app.scrolled_down(amount).scroll == 0 && app.scrolled_down(amount).layout is None,
        amount < app.scroll ==> app.scrolled_down(amount).scroll == app.scroll - amount && app.scrolled_down(
            amount,
        ).layout == app.layout,
        app.scroll == 0 && width is Some ==> (app.scrolled_up(amount, width).layout matches Some(l) && l.width
            == width->0 && l.expanded == app.expanded),
        ({
            let up = Press { key: Key::PageUp, ctrl: false, shift: false, alt: false, released: false };
            &&& app.pressed(up, width, home).0 == app.scrolled_up(10, width)
            &&& app.pressed(Press { key: Key::PageDown, ..up }, width, home).0 == app.scrolled_down(10)
        }),
{
}

/// In an open menu, `Up` and `Down` choose the neighbour, as far as there is
/// one; `Esc` sends the menu away; `Tab` puts in what is chosen, in the place of
/// what it completes and with the cursor behind it.
pub proof fn law_menu_keys(app: AppView, width: Option<usize>, home: Seq<char>)
    requires
        app.picker is None,
        app.completion matches Some(m) && 0 <= m.start <= m.end <= app.editor.chars.len() && 0 <= m.selected
            < m.entries.len(),
    ensures
        ({
            let m = app.completion->0;
            let tab = Press { key: Key::Tab, ctrl: false, shift: false, alt: false, released: false };
            let put = app.pressed(tab, width, home).0;
            let said = m.entries[m.selected].text;
            let up = app.pressed(Press { key: Key::Up, ..tab }, width, home).0;
            let down = app.pressed(Press { key: Key::Down, ..tab }, width, home).0;
            &&& put.editor.chars == app.editor.chars.take(m.start) + said + app.editor.chars.skip(m.end)
            &&& put.editor.cursor == m.start + said.len()
            &&& put == (AppView { editor: put.editor, ..app })
            &&& app.pressed(Press { key: Key::Esc, ..tab }, width, home).0 == (AppView {
                completion: None,
                dismissed: true,
                ..app
            })
            &&& up == (AppView { completion: up.completion, ..app })
            &&& up.completion == Some(
                MenuView { selected: if m.selected > 0 { m.selected - 1 } else { 0 }, explicit: true, ..m },
            )
            &&& down == (AppView { completion: down.completion, ..app })
            &&& down.completion == Some(
                MenuView {
                    selected: if m.selected + 1 < m.entries.len() { m.selected + 1 } else { m.selected },
                    explicit: true,
                    ..m
                },
            )
        }),
{
}

/// `Enter` in an open menu puts in a file that was not named in full or that was
/// chosen on purpose, and sends nothing; a command that was chosen on purpose is
/// put in and sent; and else what is typed is sent as it is.
pub proof fn law_enter_in_a_menu(app: AppView, width: Option<usize>, home: Seq<char>)
    requires
        app.picker is None,
        app.completion is Some,
    ensures
        ({
            let m = app.completion->0;
            let enter = Press { key: Key::Enter, ctrl: false, shift: false, alt: false, released: false };
            let next = app.pressed(enter, width, home);
            &&& m.file && (!m.exact_file || m.explicit) && m.entries.len() > 0 ==> next == (
                app.completed(),
                EffectView::Nothing,
            )
            &&& m.file && (m.exact_file && !m.explicit || m.entries.len() == 0) ==> next == app.submitted(home)
            &&& !m.file && m.explicit ==> next == app.completed().submitted(home)
            &&& !m.file && !m.explicit ==> next == app.submitted(home)
        }),
{
}

/// A menu keeps the entry that was chosen while it is for the same text; a menu
/// for another text begins anew. No menu is shown while the user picks or after
/// it was sent away.
pub proof fn law_menus_keep_the_choice(app: AppView, new: MenuView, old: MenuView, listed: Seq<(Seq<char>, bool)>, exact: bool)
    requires
        0 <= old.selected,
        new.entries.len() > 0,
    ensures
        ({
            let same = new.start == old.start && new.end == old.end && new.query == old.query && new.file == old.file;
            let next = carried_on(new, Some(old));
            &&& same && old.selected < new.entries.len() ==> next.selected == old.selected
            &&& same && old.selected >= new.entries.len() ==> next.selected == new.entries.len() - 1
            &&& same ==> next.explicit == old.explicit && next.entries == new.entries
            &&& !same ==> next == new
            &&& carried_on(new, None) == new
        }),
        app.dismissed || app.picker is Some ==> app.refreshed(listed, exact).completion is None && app.refreshed(
            listed,
            exact,
        ).editor == app.editor,
{
}

/// The size of the context is the whole number that is set, where it is one
/// above zero, and else the usual one.
pub proof fn law_context_is_what_is_set(n: u64)
    requires
        n > 0,
    ensures
        context_of(Some(text::decimal(n as nat))) == n,
        context_of(None) == 272_000,
        context_of(Some(seq!['0'])) == 272_000,
{
    text::law_numbers_are_read_back(n as nat);
    let zero = seq!['0'];
    assert(zero.drop_last() =~= seq![]);
    assert(text::digits_value(zero.drop_last()) == 0);
    assert(text::digits_value(zero) == text::digits_value(zero.drop_last()) * 10 + text::digit_value('0'));
}

/// A menu of files needs the folder before the last slash of what was typed, and
/// the path that was typed itself, where anything was; other menus need nothing.
pub proof fn law_menus_look_up_what_was_typed(ask: input::AskView, cwd: Seq<char>, home: Seq<char>)
    ensures
        lookup_of(None, cwd, home) == (None::<Seq<char>>, None::<Seq<char>>),
        !(ask is File) ==> lookup_of(Some(ask), cwd, home) == (None::<Seq<char>>, None::<Seq<char>>),
        ask matches input::AskView::File { query, .. } ==> ({
            let (folder, path) = lookup_of(Some(ask), cwd, home);
            &&& query.len() == 0 <==> path is None
            &&& query.len() > 0 ==> path == Some(input::located(cwd, home, query))
            &&& input::folder_of(query) is None <==> folder is None
            &&& input::folder_of(query) matches Some((parent, _)) ==> folder == Some(input::located(cwd, home, parent))
        }),
{
}

/// While a turn is being taken, what would change the session or the model is
/// refused, and nothing changes.
pub proof fn law_sessions_are_kept_during_a_turn(app: AppView, kind: BuiltinKind, args: Seq<Seq<char>>)
    requires
        app.working,
        kind == BuiltinKind::Model || kind == BuiltinKind::New || kind == BuiltinKind::Resume || kind == BuiltinKind::Tree,
    ensures
        app.commanded(kind, args) == (app, Err::<EffectView, Seq<char>>(
            "Stop the agent with Esc before changing sessions or models"@,
        )),
{
}

/// Arguments that name no model are answered with how to give them, and a
/// context that is no count with what would be one.
pub proof fn law_wrong_models_are_told(args: Seq<Seq<char>>, now: ModelView)
    ensures
        args.len() < 2 || args.len() > 4 ==> asked_model(args, now) == Err::<ModelView, Seq<char>>(
            "Usage: "@ + "/model"@ + " "@ + "<model> [effort|-] [context]"@,
        ),
        args.len() == 4 && counts::valid_count(args[3]) is None ==> asked_model(args, now) == Err::<
            ModelView,
            Seq<char>,
        >("Context must be a positive token count (e.g. 128k or 1.5m)"@),
{
}

/// What the user picks from says what it is.
pub proof fn law_pickers_have_their_title(app: AppView, args: Seq<Seq<char>>, list: Seq<(Seq<char>, Seq<char>)>)
    ensures
        !app.working ==> (app.commanded(BuiltinKind::Tree, args).0.picker matches Some(p) && p.title
            == "conversation tree"@),
        list.len() > 0 ==> (app.offered(Ok(list)).picker matches Some(p) && p.title == "resume session"@),
{
}

/// The keys that move the cursor and take text away work on the input and on
/// nothing else. Rows are those of the input on the screen, which is three
/// columns narrower.
pub proof fn law_editing_keys(app: AppView, width: Option<usize>, home: Seq<char>)
    requires
        app.picker is None,
        app.completion is None,
    ensures
        ({
            let left = Press { key: Key::Left, ctrl: false, shift: false, alt: false, released: false };
            let after = |press: Press| app.pressed(press, width, home);
            let only = |editor: EditorView| (AppView { editor, ..app }, EffectView::Nothing);
            let e = app.editor;
            let start = e.at(crate::editor::line_start(e.chars, e.cursor));
            let end = e.at(crate::editor::line_end(e.chars, e.cursor));
            let columns = match width {
                Some(w) => if w > 3 {
                    (w - 3) as usize
                } else {
                    1
                },
                None => 1,
            };
            let places = ui::insertions(e.chars, ui::measured(e.chars), columns);
            &&& after(left) == only(e.stepped_left())
            &&& after(Press { key: Key::Right, ..left }) == only(e.stepped_right())
            &&& after(Press { key: Key::Up, ..left }) == only(e.moved(places, true))
            &&& after(Press { key: Key::Down, ..left }) == only(e.moved(places, false))
            &&& after(Press { key: Key::Home, ..left }) == only(start)
            &&& after(Press { key: Key::Char('a'), ctrl: true, ..left }) == only(start)
            &&& after(Press { key: Key::End, ..left }) == only(end)
            &&& after(Press { key: Key::Char('e'), ctrl: true, ..left }) == only(end)
            &&& after(Press { key: Key::Backspace, ..left }) == only(e.erased_before())
            &&& after(Press { key: Key::Delete, ..left }) == only(e.erased_behind())
            &&& after(Press { key: Key::Char('u'), ctrl: true, ..left }) == only(e.line_cleared())
            &&& after(Press { key: Key::Char('w'), ctrl: true, ..left }) == only(e.word_erased())
            &&& after(Press { key: Key::Tab, ..left }) == (app, EffectView::Nothing)
        }),
{
}

/// Leaving the end of the transcript keeps how many rows it had then, at the
/// width of the transcript.
pub proof fn law_rows_are_counted_on_leaving_the_end(app: AppView, amount: usize, width: usize)
    requires
        app.scroll == 0,
        app.picker is None,
        width > 0,
        transcript::all_rows(transcript::shown_blocks(app), (width - 1) as usize, app.expanded).len() <= usize::MAX,
    ensures
        app.scrolled_up(amount, Some(width)).layout matches Some(l) && l.total == transcript::all_rows(
            transcript::shown_blocks(app),
            (width - 1) as usize,
            app.expanded,
        ).len() && l.width == width && l.expanded == app.expanded,
{
}

/// Files of the project are searched for while a name in it is completed, and
/// only then: the search begins anew where the folder is another one, and goes on
/// with what it has found where it is the same. Nothing but the menu and the
/// search changes.
pub proof fn law_files_are_searched_while_needed(app: AppView, listed: Seq<(Seq<char>, bool)>, exact: bool)
    ensures
        ({
            let next = app.refreshed(listed, exact);
            let cwd = app.session.header.cwd;
            let wanted = next.completion is Some && next.completion->0.file && input::folder_of(
                next.completion->0.query,
            ) is None;
            &&& next == (AppView { completion: next.completion, files: next.files, ..app })
            &&& app.asking() is None <==> next.completion is None
            &&& !wanted ==> next.files.cwd is None && next.files.files.len() == 0 && !next.files.running
            &&& wanted && app.files.cwd == Some(cwd) ==> next.files == app.files
            &&& wanted && app.files.cwd != Some(cwd) ==> next.files.cwd == Some(cwd) && next.files.files.len() == 0
                && next.files.running
        }),
        app.dismissed || app.picker is Some ==> app.asking() is None,
        !app.dismissed && app.picker is None ==> app.asking() == input::asked(app.editor.chars, app.editor.cursor),
{
}

} // verus!
