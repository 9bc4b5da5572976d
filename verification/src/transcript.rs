//! The transcript: the blocks that are shown, and the part of their rows that is
//! on the screen.
use crate::app::{log_showable, showable, App, AppView};
use crate::block::{block_views, plain, Block, BlockView, Kind};
use crate::input::MessageView;
use crate::session::{lineage, node_at, RecordView};
use crate::text;
use crate::ui::{self, block_rows, line_views, Line, LineView};
use vstd::prelude::*;

verus! {

/// The blocks of nodes, in their order.
pub open spec fn path_blocks(rs: Seq<RecordView>, path: Seq<usize>) -> Seq<BlockView>
    decreases path.len(),
{
    if path.len() == 0 {
        seq![]
    } else {
        path_blocks(rs, path.drop_last()) + rs[path.last() as int]->Node_0.blocks
    }
}

/// The block that greets.
pub open spec fn welcome() -> BlockView {
    plain(Kind::Notice, "mu · Ctrl+O to expand/collapse · PgUp/PgDn to scroll"@)
}

/// The blocks for queued messages.
pub open spec fn queued_blocks(queued: Seq<MessageView>) -> Seq<BlockView> {
    queued.map_values(|m: MessageView| plain(Kind::Notice, "queued: "@ + m.text))
}

/// The blocks that are shown: the greeting, the conversation up to the cursor,
/// the turn that is being taken, feedback, and what is queued.
pub open spec fn shown_blocks(app: AppView) -> Seq<BlockView> {
    seq![welcome()] + path_blocks(app.session.records, lineage(app.session.records, app.session.cursor()).reverse()) + (
    match app.live_notice {
        Some(b) => seq![b],
        None => seq![],
    }) + app.live + app.feedback + queued_blocks(app.queued)
}

/// The rows of blocks, one behind the other.
pub open spec fn all_rows(blocks: Seq<BlockView>, width: usize, expanded: bool) -> Seq<LineView>
    decreases blocks.len(),
{
    if blocks.len() == 0 {
        seq![]
    } else {
        all_rows(blocks.drop_last(), width, expanded) + block_rows(blocks.last(), width, expanded)
    }
}

/// How far up the transcript is scrolled: no further than there are rows.
pub open spec fn scrolled(scroll: usize, rows: int, height: int) -> int {
    let most = if rows > height {
        rows - height
    } else {
        0
    };
    if scroll < most {
        scroll as int
    } else {
        most
    }
}

/// The rows that are on the screen.
pub open spec fn on_screen(rows: Seq<LineView>, height: int, scroll: int) -> Seq<LineView> {
    let end = rows.len() - scroll;
    rows.subrange(
        if end > height {
            end - height
        } else {
            0
        },
        end,
    )
}

/// What each block says.
pub open spec fn ref_views(blocks: Seq<&Block>) -> Seq<BlockView> {
    blocks.map_values(|b: &Block| b@)
}

fn extend_refs<'a>(out: &mut Vec<&'a Block>, blocks: &'a Vec<Block>)
    ensures
        ref_views(final(out)@) == ref_views(old(out)@) + block_views(blocks@),
{
    let ghost before = ref_views(out@);
    let ghost all = block_views(blocks@);
    let mut i: usize = 0;
    assert(before + all.take(0) =~= before);
    while i < blocks.len()
        invariant
            i <= blocks@.len(),
            all == block_views(blocks@),
            ref_views(out@) == before + all.take(i as int),
        decreases blocks@.len() - i,
    {
        let ghost done = ref_views(out@);
        let block = &blocks[i];
        out.push(block);
        assert(ref_views(out@) =~= done.push(block@));
        assert(ref_views(out@) =~= before + all.take(i + 1));
        i += 1;
    }
    assert(all.take(i as int) =~= all);
}

/// The blocks for queued messages.
fn queue_blocks(app: &App) -> (r: Vec<Block>)
    ensures
        block_views(r@) == queued_blocks(app@.queued),
{
    let mut out: Vec<Block> = Vec::new();
    let mut i: usize = 0;
    while i < app.queued.len()
        invariant
            i <= app.queued@.len(),
            out@.len() == i,
            forall|k: int|
                0 <= k < i ==> (#[trigger] out@[k])@ == plain(Kind::Notice, "queued: "@ + app.queued@[k].text@),
        decreases app.queued@.len() - i,
    {
        out.push(Block::new(Kind::Notice, text::cat("queued: ", &app.queued[i].text)));
        i += 1;
    }
    assert(block_views(out@) =~= queued_blocks(app@.queued));
    out
}

/// The blocks that are shown; `greeting` and `queued` are those that are only
/// made to be shown.
fn gather<'a>(app: &'a App, greeting: &'a Block, queued: &'a Vec<Block>) -> (r: Vec<&'a Block>)
    requires
        app.wf(),
        greeting@ == welcome(),
        block_views(queued@) == queued_blocks(app@.queued),
    ensures
        ref_views(r@) == shown_blocks(app@),
        showable(shown_blocks(app@)),
{
    let ghost rs = app@.session.records;
    let path = app.session.path();
    let mut out: Vec<&'a Block> = Vec::new();
    out.push(greeting);
    let ghost first = seq![welcome()];
    assert(ref_views(out@) =~= first);
    let mut i: usize = 0;
    assert(first + path_blocks(rs, path@.take(0)) =~= first);
    proof {
        crate::session::lemma_cursor(rs);
        lemma_path(rs, app@.session.cursor());
        lemma_path_showable(rs, path@.take(0));
    }
    while i < path.len()
        invariant
            i <= path@.len(),
            app.wf(),
            rs == app@.session.records,
            forall|k: int| 0 <= k < path@.len() ==> node_at(rs, #[trigger] path@[k] as int),
            ref_views(out@) == first + path_blocks(rs, path@.take(i as int)),
        decreases path@.len() - i,
    {
        let node = app.session.node(path[i]);
        let ghost done = ref_views(out@);
        extend_refs(&mut out, &node.blocks);
        proof {
            assert(path@.take(i + 1).drop_last() =~= path@.take(i as int));
            assert(path@.take(i + 1).last() == path@[i as int]);
            assert(rs[path@[i as int] as int] == RecordView::Node(node@));
            assert(ref_views(out@) =~= first + path_blocks(rs, path@.take(i + 1)));
        }
        i += 1;
    }
    assert(path@.take(i as int) =~= path@);
    proof {
        assert(forall|k: int| 0 <= k < path@.len() ==> node_at(rs, #[trigger] path@[k] as int));
        lemma_path_showable(rs, path@);
    }
    let ghost done = ref_views(out@);
    if let Some(notice) = &app.live_notice {
        out.push(notice);
        assert(ref_views(out@) =~= done + seq![notice@]);
    } else {
        assert(done + Seq::<BlockView>::empty() =~= done);
    }
    extend_refs(&mut out, &app.live);
    extend_refs(&mut out, &app.feedback);
    extend_refs(&mut out, queued);
    proof {
        let all = shown_blocks(app@);
        assert(ref_views(out@) =~= all);
        let a = path_blocks(rs, path@);
        let b = match app@.live_notice {
            Some(b) => seq![b],
            None => seq![],
        };
        lemma_showable_cat(first, a);
        lemma_showable_cat(first + a, b);
        lemma_showable_cat(first + a + b, app@.live);
        lemma_showable_cat(first + a + b + app@.live, app@.feedback);
        lemma_showable_cat(first + a + b + app@.live + app@.feedback, queued_blocks(app@.queued));
    }
    out
}

proof fn lemma_showable_cat(a: Seq<BlockView>, b: Seq<BlockView>)
    requires
        showable(a),
        showable(b),
    ensures
        showable(a + b),
{
    assert forall|k: int| 0 <= k < (a + b).len() implies (#[trigger] (a + b)[k]).wf() by {
        if k < a.len() {
            assert((a + b)[k] == a[k]);
        } else {
            assert((a + b)[k] == b[k - a.len()]);
        }
    }
}

proof fn lemma_path(rs: Seq<RecordView>, at: Option<usize>)
    requires
        crate::session::linked(rs),
        at matches Some(i) ==> node_at(rs, i as int),
    ensures
        forall|k: int|
            0 <= k < lineage(rs, at).reverse().len() ==> node_at(rs, #[trigger] lineage(rs, at).reverse()[k] as int),
{
    let chain = lineage(rs, at);
    assert forall|k: int| 0 <= k < chain.reverse().len() implies node_at(
        rs,
        #[trigger] chain.reverse()[k] as int,
    ) by {
        crate::session::lemma_lineage(rs, at, chain.len() - 1 - k);
    }
}

proof fn lemma_path_showable(rs: Seq<RecordView>, path: Seq<usize>)
    requires
        log_showable(rs),
        forall|k: int| 0 <= k < path.len() ==> node_at(rs, #[trigger] path[k] as int),
    ensures
        showable(path_blocks(rs, path)),
    decreases path.len(),
{
    if path.len() > 0 {
        let start = path.drop_last();
        assert forall|k: int| 0 <= k < start.len() implies node_at(rs, #[trigger] start[k] as int) by {
            assert(start[k] == path[k]);
        }
        lemma_path_showable(rs, start);
        assert(path.last() == path[path.len() - 1]);
        let node = rs[path.last() as int];
        assert(showable(node->Node_0.blocks));
        lemma_showable_cat(path_blocks(rs, start), node->Node_0.blocks);
    }
}

proof fn lemma_rows_split(blocks: Seq<BlockView>, k: int, width: usize, expanded: bool)
    requires
        0 <= k <= blocks.len(),
    ensures
        all_rows(blocks, width, expanded) == all_rows(blocks.take(k), width, expanded) + all_rows(
            blocks.skip(k),
            width,
            expanded,
        ),
    decreases blocks.len(),
{
    if k == blocks.len() {
        assert(blocks.take(k) =~= blocks);
        assert(blocks.skip(k) =~= seq![]);
        assert(all_rows(blocks, width, expanded) + Seq::<LineView>::empty() =~= all_rows(blocks, width, expanded));
    } else {
        let start = blocks.drop_last();
        lemma_rows_split(start, k, width, expanded);
        assert(start.take(k) =~= blocks.take(k));
        assert(blocks.skip(k).drop_last() =~= start.skip(k));
        assert(blocks.skip(k).last() == blocks.last());
        assert(all_rows(blocks, width, expanded) =~= all_rows(blocks.take(k), width, expanded) + all_rows(
            blocks.skip(k),
            width,
            expanded,
        ));
    }
}

/// The last rows of blocks, the last one first: at least `need` of them, where
/// there are so many.
fn last_rows(blocks: &Vec<&Block>, width: usize, expanded: bool, need: u128) -> (r: Vec<Line>)
    requires
        showable(ref_views(blocks@)),
    ensures
        ({
            let all = all_rows(ref_views(blocks@), width, expanded);
            &&& r@.len() <= all.len()
            &&& line_views(r@) == all.skip(all.len() - r@.len()).reverse()
            &&& r@.len() == all.len() || r@.len() >= need
        }),
{
    let ghost views = ref_views(blocks@);
    let ghost all = all_rows(views, width, expanded);
    let mut reversed: Vec<Line> = Vec::new();
    let mut k: usize = blocks.len();
    proof {
        assert(views.skip(k as int) =~= seq![]);
        assert(line_views(reversed@) =~= all_rows(views.skip(k as int), width, expanded).reverse());
    }
    while k > 0 && (reversed.len() as u128) < need
        invariant
            k <= blocks@.len(),
            views == ref_views(blocks@),
            showable(views),
            line_views(reversed@) == all_rows(views.skip(k as int), width, expanded).reverse(),
        decreases k,
    {
        k -= 1;
        let block = blocks[k];
        proof {
            assert(views[k as int] == block@);
            assert(views[k as int].wf());
        }
        let mut lines = ui::block_lines(block, width, expanded);
        let ghost tail = all_rows(views.skip(k + 1), width, expanded);
        let ghost rows = line_views(lines@);
        let ghost held = line_views(reversed@);
        assert(held =~= tail.reverse());
        while lines.len() > 0
            invariant
                line_views(lines@) == rows.take(lines@.len() as int),
                lines@.len() <= rows.len(),
                line_views(reversed@) == held + rows.skip(lines@.len() as int).reverse(),
            decreases lines@.len(),
        {
            let ghost before = line_views(lines@);
            let ghost done = line_views(reversed@);
            let line = lines.pop().unwrap();
            reversed.push(line);
            proof {
                let n = lines@.len() as int;
                assert(line_views(lines@) =~= before.drop_last());
                assert(before[n] == line@);
                assert(rows[n] == line@);
                assert(line_views(reversed@) =~= done.push(line@));
                assert(rows.skip(n).reverse() =~= rows.skip(n + 1).reverse().push(line@));
                assert(line_views(reversed@) =~= held + rows.skip(n).reverse());
            }
        }
        proof {
            assert(rows.skip(0) =~= rows);
            let rest = views.skip(k as int);
            lemma_rows_split(rest, 1, width, expanded);
            assert(rest.skip(1) =~= views.skip(k + 1));
            assert(rest.take(1).drop_last() =~= seq![]);
            assert(all_rows(rest.take(1).drop_last(), width, expanded) =~= seq![]);
            assert(rest.take(1).last() == block@);
            assert(all_rows(rest.take(1), width, expanded) =~= rows);
            assert(tail.reverse() + rows.reverse() =~= (rows + tail).reverse());
        }
    }
    proof {
        lemma_rows_split(views, k as int, width, expanded);
        let tail = all_rows(views.skip(k as int), width, expanded);
        assert(tail.reverse().len() == tail.len());
        assert(line_views(reversed@).len() == reversed@.len());
        assert(all.skip(all.len() - reversed@.len()) =~= tail);
        if k == 0 {
            assert(views.skip(0) =~= views);
        }
    }
    reversed
}

/// The part of the transcript that is on a screen `width` columns wide, where
/// it has `height` rows; and how far up it is scrolled.
pub fn visible(app: &App, width: usize, height: usize) -> (r: (Vec<Line>, usize))
    requires
        app.wf(),
    ensures
        ({
            let rows = all_rows(shown_blocks(app@), width, app@.expanded);
            let scroll = scrolled(app@.scroll, rows.len() as int, height as int);
            r.1 == scroll && line_views(r.0@) == on_screen(rows, height as int, scroll)
        }),
{
    let greeting = Block::new(
        Kind::Notice,
        "mu · Ctrl+O to expand/collapse · PgUp/PgDn to scroll".to_owned(),
    );
    let queued = queue_blocks(app);
    let blocks = gather(app, &greeting, &queued);
    let need: u128 = height as u128 + app.scroll as u128;
    let mut reversed = last_rows(&blocks, width, app.expanded, need);
    let ghost rows = all_rows(shown_blocks(app@), width, app@.expanded);
    let ghost back = line_views(reversed@);
    let most = reversed.len().saturating_sub(height);
    let scroll: usize = if app.scroll < most {
        app.scroll
    } else {
        most
    };
    let n: usize = if reversed.len() - scroll > height {
        height
    } else {
        reversed.len() - scroll
    };
    let ghost total = reversed@.len() as int;
    reversed.truncate(scroll + n);
    let mut lines: Vec<Line> = Vec::new();
    let ghost want = on_screen(rows, height as int, scroll as int);
    proof {
        assert(line_views(reversed@) =~= back.take(scroll + n));
        assert(want.len() == n);
        assert forall|i: int| 0 <= i < n implies want[i] == #[trigger] back[scroll + n - 1 - i] by {
            assert(back[scroll + n - 1 - i] == rows[rows.len() - 1 - (scroll + n - 1 - i)]);
        }
    }
    while lines.len() < n
        invariant
            lines@.len() <= n,
            want.len() == n,
            reversed@.len() == scroll + n - lines@.len(),
            line_views(reversed@) == back.take(reversed@.len() as int),
            back.len() == total,
            scroll + n <= total,
            forall|i: int| 0 <= i < n ==> want[i] == #[trigger] back[scroll + n - 1 - i],
            line_views(lines@) == want.take(lines@.len() as int),
        decreases n - lines@.len(),
    {
        let ghost before = line_views(reversed@);
        let ghost done = line_views(lines@);
        let line = reversed.pop().unwrap();
        lines.push(line);
        proof {
            let k = done.len() as int;
            assert(line_views(reversed@) =~= before.drop_last());
            assert(before[before.len() - 1] == line@);
            assert(back[scroll + n - 1 - k] == line@);
            assert(line_views(lines@) =~= done.push(line@));
            assert(want.take(k + 1) =~= want.take(k).push(line@));
        }
    }
    assert(want.take(n as int) =~= want);
    (lines, scroll)
}

/// How many rows the transcript has.
pub fn transcript_line_count(app: &App, width: usize) -> (r: usize)
    requires
        app.wf(),
    ensures
        r == all_rows(shown_blocks(app@), width, app@.expanded).len(),
{
    let greeting = Block::new(
        Kind::Notice,
        "mu · Ctrl+O to expand/collapse · PgUp/PgDn to scroll".to_owned(),
    );
    let queued = queue_blocks(app);
    let blocks = gather(app, &greeting, &queued);
    last_rows(&blocks, width, app.expanded, u128::MAX).len()
}

/// The blocks of a conversation are those of the conversation up to its parent,
/// and then its own: no node of the path is left out, none stands twice, and
/// nothing of another branch is among them.
pub proof fn law_conversations_grow_by_their_last_node(rs: Seq<RecordView>, i: usize)
    ensures
        path_blocks(rs, lineage(rs, None).reverse()) == Seq::<BlockView>::empty(),
        path_blocks(rs, lineage(rs, Some(i)).reverse()) == path_blocks(
            rs,
            lineage(rs, crate::session::parent_of(rs, i)).reverse(),
        ) + rs[i as int]->Node_0.blocks,
{
    let parent = crate::session::parent_of(rs, i);
    let above = lineage(rs, parent).reverse();
    let path = lineage(rs, Some(i)).reverse();
    assert(lineage(rs, Some(i)) == seq![i] + lineage(rs, parent));
    assert(path =~= above.push(i));
    assert(path.drop_last() =~= above);
    assert(lineage(rs, None).reverse() =~= seq![]);
}

/// What is shown at rest is the greeting and the conversation up to the cursor.
pub proof fn law_conversation_is_shown_behind_the_greeting(app: AppView)
    requires
        app.live_notice is None,
        app.live.len() == 0,
        app.feedback.len() == 0,
        app.queued.len() == 0,
    ensures
        shown_blocks(app) == seq![
            BlockView {
                kind: Kind::Notice,
                text: "mu · Ctrl+O to expand/collapse · PgUp/PgDn to scroll"@,
                tool: None,
            },
        ] + path_blocks(app.session.records, lineage(app.session.records, app.session.cursor()).reverse()),
{
}

/// One more queued message is shown last. One more feedback is shown behind all
/// but the queued messages, one more block of the turn behind all but these and
/// the feedback, and what the turn begins with before its blocks; nothing else
/// that is shown changes.
pub proof fn law_what_is_added_is_shown(app: AppView, m: MessageView, b: BlockView)
    ensures
        ({
            let s = shown_blocks(app);
            let n = s.len() as int;
            let q = n - app.queued.len();
            let f = q - app.feedback.len();
            let l = f - app.live.len();
            &&& shown_blocks(AppView { queued: app.queued.push(m), ..app }) == s.push(
                BlockView { kind: Kind::Notice, text: "queued: "@ + m.text, tool: None },
            )
            &&& shown_blocks(AppView { feedback: app.feedback.push(b), ..app }) == s.insert(q, b)
            &&& shown_blocks(AppView { live: app.live.push(b), ..app }) == s.insert(f, b)
            &&& app.live_notice is None ==> shown_blocks(AppView { live_notice: Some(b), ..app }) == s.insert(l, b)
        }),
{
    let s = shown_blocks(app);
    let q = s.len() - app.queued.len();
    let f = q - app.feedback.len();
    let l = f - app.live.len();
    assert(queued_blocks(app.queued.push(m)) =~= queued_blocks(app.queued).push(
        plain(Kind::Notice, "queued: "@ + m.text),
    ));
    assert(shown_blocks(AppView { queued: app.queued.push(m), ..app }) =~= s.push(
        plain(Kind::Notice, "queued: "@ + m.text),
    ));
    assert(shown_blocks(AppView { feedback: app.feedback.push(b), ..app }) =~= s.insert(q, b));
    assert(shown_blocks(AppView { live: app.live.push(b), ..app }) =~= s.insert(f, b));
    if app.live_notice is None {
        assert(shown_blocks(AppView { live_notice: Some(b), ..app }) =~= s.insert(l, b));
    }
}

/// The rows of one more block stand behind those of the others, and the rows of
/// blocks are those of their beginning and then those of their end.
pub proof fn law_rows_follow_their_blocks(blocks: Seq<BlockView>, b: BlockView, k: int, width: usize, expanded: bool)
    requires
        0 <= k <= blocks.len(),
    ensures
        all_rows(seq![], width, expanded) == Seq::<LineView>::empty(),
        all_rows(blocks.push(b), width, expanded) == all_rows(blocks, width, expanded) + block_rows(b, width, expanded),
        all_rows(blocks, width, expanded) == all_rows(blocks.take(k), width, expanded) + all_rows(
            blocks.skip(k),
            width,
            expanded,
        ),
{
    assert(blocks.push(b).drop_last() =~= blocks);
    lemma_rows_split(blocks, k, width, expanded);
}

/// The screen shows the last rows, or those `scroll` rows before them. It cannot
/// be scrolled past the first row, and shows all rows where they fit.
pub proof fn law_last_rows_are_on_the_screen(rows: Seq<LineView>, height: int, scroll: usize, k: int)
    requires
        height > 0,
    ensures
        ({
            let n = rows.len() as int;
            let by = scrolled(scroll, n, height);
            let shown = on_screen(rows, height, by);
            &&& n <= height ==> by == 0 && shown == rows
            &&& n > height && scroll <= n - height ==> by == scroll
            &&& n > height && scroll > n - height ==> by == n - height
            &&& n > height ==> shown.len() == height
            &&& n > height && 0 <= k < height ==> shown[k] == rows[n - by - height + k]
        }),
{
    let n = rows.len() as int;
    let by = scrolled(scroll, n, height);
    if n <= height {
        assert(rows.subrange(0, n) =~= rows);
    }
}

} // verus!
