//! The conversation tree: every node of a session in a row of its own.
use crate::block::{block_views, BlockView, Kind};
use crate::session::{
    first_line, headline, height, linked, linked_at, node_at, parent_of, record_views, Record, RecordView, Session,
};
use crate::text;
use vstd::prelude::*;
use vstd::string::StringExecFns;

verus! {

/// The first block that tells what a node is about.
pub open spec fn telling(blocks: Seq<BlockView>, from: int) -> Option<BlockView>
    decreases blocks.len() - from,
{
    if from < 0 || from >= blocks.len() {
        None
    } else if is_telling(blocks[from].kind) {
        Some(blocks[from])
    } else {
        telling(blocks, from + 1)
    }
}

/// Messages and calls tell what a node is about.
pub open spec fn is_telling(kind: Kind) -> bool {
    kind == Kind::User || kind == Kind::Agent || kind == Kind::Call
}

/// The name of a kind of block.
pub open spec fn kind_words(kind: Kind) -> Seq<char> {
    match kind {
        Kind::User => "User"@,
        Kind::Agent => "Agent"@,
        Kind::Thought => "Thought"@,
        Kind::Call => "Call"@,
        Kind::Notice => "Notice"@,
        Kind::Warning => "Warning"@,
    }
}

fn kind_name(kind: Kind) -> (r: String)
    ensures
        r@ == kind_words(kind),
{
    match kind {
        Kind::User => "User".to_owned(),
        Kind::Agent => "Agent".to_owned(),
        Kind::Thought => "Thought".to_owned(),
        Kind::Call => "Call".to_owned(),
        Kind::Notice => "Notice".to_owned(),
        Kind::Warning => "Warning".to_owned(),
    }
}

/// What the tree says of a node.
pub open spec fn node_label(rs: Seq<RecordView>, node: Option<usize>) -> Seq<char> {
    match node {
        None => "root"@,
        Some(i) => match telling(rs[i as int]->Node_0.blocks, 0) {
            Some(b) => kind_words(b.kind) + ": "@ + headline(b.text, 80),
            None => "step"@,
        },
    }
}

/// The nodes right below `node` among the first `n` records.
pub open spec fn children_before(rs: Seq<RecordView>, node: Option<usize>, n: int) -> Seq<usize>
    decreases n,
{
    if n <= 0 {
        seq![]
    } else {
        let rest = children_before(rs, node, n - 1);
        if node_at(rs, n - 1) && parent_of(rs, (n - 1) as usize) == node {
            rest.push((n - 1) as usize)
        } else {
            rest
        }
    }
}

/// The nodes right below `node`, oldest first.
pub open spec fn children(rs: Seq<RecordView>, node: Option<usize>) -> Seq<usize> {
    children_before(rs, node, rs.len() as int)
}

/// The guide in front of child `k` of `n`.
pub open spec fn line_guide(guide: Seq<char>, k: int, n: int) -> Seq<char> {
    if n > 1 {
        guide + (if k == n - 1 { "└─ "@ } else { "├─ "@ })
    } else {
        guide
    }
}

/// The guide in front of what hangs below child `k` of `n`; beyond a depth of
/// sixteen forks it grows no further.
pub open spec fn child_guide(guide: Seq<char>, k: int, n: int, depth: int) -> Seq<char> {
    if n > 1 && depth < 16 {
        guide + (if k == n - 1 { "     "@ } else { "│    "@ })
    } else {
        guide
    }
}

/// The number of forks above child `k` of `n`, up to sixteen.
pub open spec fn child_depth(n: int, depth: int) -> int {
    if n > 1 && depth < 16 {
        depth + 1
    } else {
        depth
    }
}

/// A row of the tree.
pub type Row = (Option<usize>, Seq<char>);

/// The rows for `node` and all below it, each node before its children.
pub open spec fn rows(
    rs: Seq<RecordView>,
    node: Option<usize>,
    line: Seq<char>,
    guide: Seq<char>,
    depth: int,
) -> Seq<Row>
    decreases rs.len() + 1 - height(node), 1int, 0int,
{
    if height(node) > rs.len() {
        seq![]
    } else {
        seq![(node, line + node_label(rs, node))] + branches(rs, node, 0, guide, depth)
    }
}

/// The rows for the children of `node` from child `k` on.
pub open spec fn branches(rs: Seq<RecordView>, node: Option<usize>, k: int, guide: Seq<char>, depth: int) -> Seq<Row>
    decreases rs.len() + 1 - height(node), 0int, children(rs, node).len() - k,
{
    let kids = children(rs, node);
    if k < 0 || k >= kids.len() || height(Some(kids[k])) > rs.len() || height(Some(kids[k]))
        <= height(node) {
        seq![]
    } else {
        rows(
            rs,
            Some(kids[k]),
            line_guide(guide, k, kids.len() as int),
            child_guide(guide, k, kids.len() as int, depth),
            child_depth(kids.len() as int, depth),
        ) + branches(rs, node, k + 1, guide, depth)
    }
}

pub proof fn lemma_children(rs: Seq<RecordView>, node: Option<usize>, n: int)
    requires
        0 <= n <= rs.len() <= usize::MAX,
    ensures
        forall|k: int|
            0 <= k < children_before(rs, node, n).len() ==> {
                let c = #[trigger] children_before(rs, node, n)[k];
                c < n && node_at(rs, c as int) && parent_of(rs, c) == node && height(Some(c)) > height(node)
            },
    decreases n,
{
    if n > 0 {
        lemma_children(rs, node, n - 1);
    }
}

struct Frame {
    node: Option<usize>,
    line: String,
    guide: String,
    depth: usize,
}

spec fn frame_rows(rs: Seq<RecordView>, f: Frame) -> Seq<Row> {
    rows(rs, f.node, f.line@, f.guide@, f.depth as int)
}

spec fn stack_rows(rs: Seq<RecordView>, stack: Seq<Frame>) -> Seq<Row>
    decreases stack.len(),
{
    if stack.len() == 0 {
        seq![]
    } else {
        frame_rows(rs, stack.last()) + stack_rows(rs, stack.drop_last())
    }
}

/// What each row says.
pub open spec fn row_views(out: Seq<(Option<usize>, String)>) -> Seq<Row> {
    out.map_values(|r: (Option<usize>, String)| (r.0, r.1@))
}

impl Session {
    fn label(&self, node: Option<usize>) -> (r: String)
        requires
            node matches Some(i) ==> node_at(self@.records, i as int),
        ensures
            r@ == node_label(self@.records, node),
    {
        match node {
            None => "root".to_owned(),
            Some(i) => {
                let found = self.node(i);
                let ghost blocks = block_views(found.blocks@);
                let mut k: usize = 0;
                while k < found.blocks.len()
                    invariant
                        k <= found.blocks@.len(),
                        node == Some(i),
                        RecordView::Node(found@) == self@.records[i as int],
                        blocks == block_views(found.blocks@),
                        telling(blocks, 0) == telling(blocks, k as int),
                    decreases found.blocks@.len() - k,
                {
                    let block = &found.blocks[k];
                    assert(blocks[k as int] == block@);
                    if block.kind == Kind::User || block.kind == Kind::Agent || block.kind == Kind::Call {
                        let mut out = text::cat(&kind_name(block.kind), ": ");
                        out.append(&first_line(&block.text, 80));
                        return out;
                    }
                    k += 1;
                }
                "step".to_owned()
            },
        }
    }

    /// The conversation tree, a row for the root and for every node, depth
    /// first. Guides tell the branches of a fork apart.
    pub fn tree(&self) -> (r: Vec<(Option<usize>, String)>)
        requires
            self.wf(),
        ensures
            row_views(r@) == rows(self@.records, None, Seq::empty(), Seq::empty(), 0),
    {
        let ghost rs = self@.records;
        let records = self.records();
        let n = records.len();
        let mut roots: Vec<usize> = Vec::new();
        let mut below: Vec<Vec<usize>> = Vec::new();
        let mut i: usize = 0;
        while i < n
            invariant
                self.wf(),
                rs == self@.records,
                rs == record_views(records@),
                n == records@.len(),
                i <= n,
                below@.len() == i,
                roots@ == children_before(rs, None, i as int),
                forall|p: int|
                    0 <= p < i ==> (#[trigger] below@[p])@ == children_before(rs, Some(p as usize), i as int),
            decreases n - i,
        {
            assert(rs[i as int] == records@[i as int]@);
            proof {
                assert(linked_at(rs, i as int));
                lemma_no_children_yet(rs, i as int);
            }
            let ghost before = below@;
            if let Record::Node(node) = &records[i] {
                assert(parent_of(rs, i) == node.parent);
                match node.parent {
                    None => roots.push(i),
                    Some(p) => {
                        let mut list: Vec<usize> = Vec::new();
                        std::mem::swap(&mut list, &mut below[p]);
                        list.push(i);
                        below[p] = list;
                        assert(forall|q: int| 0 <= q < i && q != p ==> below@[q] == before[q]);
                    },
                }
            }
            below.push(Vec::new());
            i += 1;
        }
        let mut out: Vec<(Option<usize>, String)> = Vec::new();
        let mut stack: Vec<Frame> = Vec::new();
        stack.push(Frame { node: None, line: String::new(), guide: String::new(), depth: 0 });
        let ghost whole = rows(rs, None, Seq::empty(), Seq::empty(), 0);
        proof {
            assert(stack@.drop_last() =~= Seq::<Frame>::empty());
            assert(frame_rows(rs, stack@.last()) == whole);
            assert(stack_rows(rs, stack@.drop_last()) =~= seq![]);
            assert(stack_rows(rs, stack@) =~= whole);
            assert(row_views(out@) + stack_rows(rs, stack@) =~= whole);
        }
        while stack.len() > 0
            invariant
                self.wf(),
                rs == self@.records,
                n == rs.len(),
                below@.len() == n,
                roots@ == children(rs, None),
                forall|p: int| 0 <= p < n ==> (#[trigger] below@[p])@ == children(rs, Some(p as usize)),
                forall|k: int|
                    0 <= k < stack@.len() ==> (#[trigger] stack@[k].node matches Some(i) ==> node_at(rs, i as int)),
                forall|k: int| 0 <= k < stack@.len() ==> (#[trigger] stack@[k]).depth <= 16,
                row_views(out@) + stack_rows(rs, stack@) == whole,
            decreases stack_rows(rs, stack@).len(),
        {
            let ghost full = stack@;
            let ghost done = row_views(out@);
            let frame = stack.pop().unwrap();
            let ghost base = stack@;
            assert(full.last() == frame);
            assert(full.drop_last() =~= base);
            assert(full[full.len() - 1].node matches Some(i) ==> node_at(rs, i as int));
            let mut shown = frame.line.clone();
            shown.append(&self.label(frame.node));
            out.push((frame.node, shown));
            assert(row_views(out@) =~= done.push((frame.node, shown@)));
            let siblings: &Vec<usize> = match frame.node {
                None => &roots,
                Some(i) => &below[i],
            };
            let count = siblings.len();
            let ghost kids = children(rs, frame.node);
            let ghost depth = frame.depth as int;
            proof {
                lemma_children(rs, frame.node, rs.len() as int);
                assert(branches(rs, frame.node, count as int, frame.guide@, depth) + stack_rows(rs, base)
                    =~= stack_rows(rs, base));
            }
            let mut k: usize = count;
            while k > 0
                invariant
                    self.wf(),
                    rs == self@.records,
                    k <= count,
                    siblings@ == kids,
                    count == kids.len(),
                    kids == children(rs, frame.node),
                    depth == frame.depth,
                    depth <= 16,
                    height(frame.node) <= rs.len(),
                    forall|j: int| 0 <= j < kids.len() ==> {
                        let c = #[trigger] kids[j];
                        c < rs.len() && node_at(rs, c as int) && height(Some(c)) > height(frame.node)
                    },
                    forall|j: int|
                        0 <= j < stack@.len() ==> (#[trigger] stack@[j].node matches Some(i) ==> node_at(rs, i as int)),
                    forall|j: int| 0 <= j < stack@.len() ==> (#[trigger] stack@[j]).depth <= 16,
                    stack_rows(rs, stack@) == branches(rs, frame.node, k as int, frame.guide@, depth) + stack_rows(
                        rs,
                        base,
                    ),
                decreases k,
            {
                let position: usize = k - 1;
                let child = siblings[position];
                let ghost before = stack@;
                let mut line = frame.guide.clone();
                let mut guide = frame.guide.clone();
                let mut deeper = frame.depth;
                if count > 1 {
                    let last = position == count - 1;
                    line.append(if last { "└─ " } else { "├─ " });
                    if frame.depth < 16 {
                        guide.append(if last { "     " } else { "│    " });
                        deeper = frame.depth + 1;
                    }
                }
                let next = Frame { node: Some(child), line, guide, depth: deeper };
                stack.push(next);
                proof {
                    assert(stack@.drop_last() =~= before);
                    let head = frame_rows(rs, next);
                    let tail = branches(rs, frame.node, k as int, frame.guide@, depth);
                    assert(branches(rs, frame.node, k - 1, frame.guide@, depth) == head + tail);
                    assert(head + (tail + stack_rows(rs, base)) =~= (head + tail) + stack_rows(rs, base));
                }
                k -= 1;
            }
            proof {
                let below_rows = branches(rs, frame.node, 0, frame.guide@, depth);
                let first = seq![(frame.node, shown@)];
                assert(frame_rows(rs, frame) == first + below_rows);
                assert(stack_rows(rs, full) == frame_rows(rs, frame) + stack_rows(rs, base));
                assert(done + ((first + below_rows) + stack_rows(rs, base)) =~= done.push((frame.node, shown@)) + (
                below_rows + stack_rows(rs, base)));
            }
        }
        assert(row_views(out@) + stack_rows(rs, stack@) =~= row_views(out@));
        out
    }
}

proof fn lemma_no_children_yet(rs: Seq<RecordView>, i: int)
    requires
        0 <= i < rs.len() <= usize::MAX,
    ensures
        children_before(rs, Some(i as usize), i + 1) =~= seq![],
{
    lemma_children(rs, Some(i as usize), i + 1);
    let kids = children_before(rs, Some(i as usize), i + 1);
    if kids.len() > 0 {
        assert(kids[0] < i + 1 && height(Some(kids[0])) > i + 1);
    }
}

/// How many of the rows are for `node`.
pub open spec fn listed(out: Seq<Row>, node: Option<usize>) -> nat
    decreases out.len(),
{
    if out.len() == 0 {
        0
    } else {
        listed(out.drop_last(), node) + (if out.last().0 == node {
            1nat
        } else {
            0nat
        })
    }
}

proof fn lemma_listed_concat(a: Seq<Row>, b: Seq<Row>, node: Option<usize>)
    ensures
        listed(a + b, node) == listed(a, node) + listed(b, node),
    decreases b.len(),
{
    if b.len() == 0 {
        assert(a + b =~= a);
    } else {
        lemma_listed_concat(a, b.drop_last(), node);
        assert((a + b).drop_last() =~= a + b.drop_last());
        assert((a + b).last() == b.last());
    }
}

/// Whether `at` is `node` or hangs below it.
pub open spec fn within(rs: Seq<RecordView>, node: Option<usize>, at: Option<usize>) -> bool
    decreases height(at),
{
    at == node || (at is Some && within(rs, node, parent_of(rs, at->0)))
}

/// The child of `node` that `at` hangs below or is.
spec fn toward(rs: Seq<RecordView>, node: Option<usize>, at: Option<usize>) -> Option<usize>
    decreases height(at),
{
    match at {
        None => None,
        Some(i) => if node_at(rs, i as int) && parent_of(rs, i) == node {
            Some(i)
        } else {
            toward(rs, node, parent_of(rs, i))
        },
    }
}

proof fn lemma_within_height(rs: Seq<RecordView>, node: Option<usize>, at: Option<usize>)
    requires
        within(rs, node, at),
    ensures
        height(node) <= height(at),
    decreases height(at),
{
    if at != node {
        lemma_within_height(rs, node, parent_of(rs, at->0));
    }
}

proof fn lemma_within_child(rs: Seq<RecordView>, node: Option<usize>, c: usize, at: Option<usize>)
    requires
        node_at(rs, c as int),
        parent_of(rs, c) == node,
    ensures
        within(rs, Some(c), at) <==> toward(rs, node, at) == Some(c),
    decreases height(at),
{
    if let Some(i) = at {
        if i != c {
            lemma_within_child(rs, node, c, parent_of(rs, i));
            if parent_of(rs, i) == node && within(rs, Some(c), node) {
                lemma_within_height(rs, Some(c), node);
            }
        }
    }
}

proof fn lemma_toward(rs: Seq<RecordView>, node: Option<usize>, at: Option<usize>)
    requires
        linked(rs),
        at matches Some(i) ==> node_at(rs, i as int),
    ensures
        (within(rs, node, at) && at != node) <==> toward(rs, node, at) is Some,
        toward(rs, node, at) matches Some(c) ==> node_at(rs, c as int) && parent_of(rs, c) == node,
    decreases height(at),
{
    if let Some(i) = at {
        assert(linked_at(rs, i as int));
        lemma_toward(rs, node, parent_of(rs, i));
        if at == node && toward(rs, node, at) is Some {
            let c = toward(rs, node, at)->0;
            assert(node_at(rs, c as int) && parent_of(rs, c) == node);
            lemma_within_child(rs, node, c, at);
            lemma_within_height(rs, Some(c), at);
            assert(height(node) < c + 1);
        }
        if at != node && parent_of(rs, i) == node {
            assert(within(rs, node, parent_of(rs, i)));
            assert(within(rs, node, at));
        }
        if at != node && parent_of(rs, i) != node {
            assert(within(rs, node, at) == within(rs, node, parent_of(rs, i)));
            assert(toward(rs, node, at) == toward(rs, node, parent_of(rs, i)));
        }
    }
}

proof fn lemma_children_complete(rs: Seq<RecordView>, node: Option<usize>, n: int, c: usize)
    requires
        0 <= n <= rs.len() <= usize::MAX,
        c < n,
        node_at(rs, c as int),
        parent_of(rs, c) == node,
    ensures
        children_before(rs, node, n).contains(c),
    decreases n,
{
    let kids = children_before(rs, node, n);
    if c == n - 1 {
        assert(kids.last() == c);
    } else {
        lemma_children_complete(rs, node, n - 1, c);
        let rest = children_before(rs, node, n - 1);
        let j = choose|j: int| 0 <= j < rest.len() && rest[j] == c;
        assert(kids[j] == c);
    }
}

proof fn lemma_children_rise(rs: Seq<RecordView>, node: Option<usize>, n: int)
    requires
        0 <= n <= rs.len() <= usize::MAX,
    ensures
        forall|a: int, b: int|
            0 <= a < b < children_before(rs, node, n).len() ==> children_before(rs, node, n)[a] < children_before(
                rs,
                node,
                n,
            )[b],
    decreases n,
{
    if n > 0 {
        lemma_children_rise(rs, node, n - 1);
        lemma_children(rs, node, n - 1);
    }
}

proof fn lemma_rows_once(
    rs: Seq<RecordView>,
    node: Option<usize>,
    line: Seq<char>,
    guide: Seq<char>,
    depth: int,
    at: Option<usize>,
)
    requires
        linked(rs),
        rs.len() <= usize::MAX,
        node matches Some(i) ==> node_at(rs, i as int),
        at matches Some(i) ==> node_at(rs, i as int),
    ensures
        listed(rows(rs, node, line, guide, depth), at) == (if within(rs, node, at) {
            1nat
        } else {
            0nat
        }),
    decreases rs.len() + 1 - height(node), 1int, 0int,
{
    let first = seq![(node, line + node_label(rs, node))];
    let rest = branches(rs, node, 0, guide, depth);
    lemma_listed_concat(first, rest, at);
    assert(first.drop_last() =~= seq![]);
    assert(listed(first.drop_last(), at) == 0);
    assert(first.last().0 == node);
    assert(listed(first, at) == (if at == node {
        1nat
    } else {
        0nat
    }));
    lemma_branches_once(rs, node, 0, guide, depth, at);
    lemma_toward(rs, node, at);
    if let Some(c) = toward(rs, node, at) {
        lemma_children_complete(rs, node, rs.len() as int, c);
        let kids = children(rs, node);
        let j = choose|j: int| 0 <= j < kids.len() && kids[j] == c;
        assert(0 <= j < kids.len() && kids[j] == c);
    }
}

proof fn lemma_branches_once(
    rs: Seq<RecordView>,
    node: Option<usize>,
    k: int,
    guide: Seq<char>,
    depth: int,
    at: Option<usize>,
)
    requires
        linked(rs),
        rs.len() <= usize::MAX,
        0 <= k <= children(rs, node).len(),
        node matches Some(i) ==> node_at(rs, i as int),
        at matches Some(i) ==> node_at(rs, i as int),
    ensures
        listed(branches(rs, node, k, guide, depth), at) == (if exists|j: int|
            k <= j < children(rs, node).len() && Some(#[trigger] children(rs, node)[j]) == toward(rs, node, at) {
            1nat
        } else {
            0nat
        }),
    decreases rs.len() + 1 - height(node), 0int, children(rs, node).len() - k,
{
    let kids = children(rs, node);
    lemma_children(rs, node, rs.len() as int);
    lemma_children_rise(rs, node, rs.len() as int);
    if k < kids.len() {
        let c = kids[k];
        let n = kids.len() as int;
        let head = rows(
            rs,
            Some(c),
            line_guide(guide, k, n),
            child_guide(guide, k, n, depth),
            child_depth(n, depth),
        );
        lemma_rows_once(
            rs,
            Some(c),
            line_guide(guide, k, n),
            child_guide(guide, k, n, depth),
            child_depth(n, depth),
            at,
        );
        lemma_branches_once(rs, node, k + 1, guide, depth, at);
        lemma_listed_concat(head, branches(rs, node, k + 1, guide, depth), at);
        lemma_within_child(rs, node, c, at);
        if toward(rs, node, at) == Some(c) {
            assert(k <= k < kids.len() && Some(kids[k]) == toward(rs, node, at));
        }
    }
}

proof fn lemma_rows_nodes(rs: Seq<RecordView>, node: Option<usize>, line: Seq<char>, guide: Seq<char>, depth: int)
    requires
        rs.len() <= usize::MAX,
        node matches Some(i) ==> node_at(rs, i as int),
    ensures
        all_nodes(rs, rows(rs, node, line, guide, depth)),
    decreases rs.len() + 1 - height(node), 1int, 0int,
{
    if height(node) <= rs.len() {
        lemma_branches_nodes(rs, node, 0, guide, depth);
        let first = seq![(node, line + node_label(rs, node))];
        let rest = branches(rs, node, 0, guide, depth);
        assert forall|k: int| 0 <= k < (first + rest).len() implies ((#[trigger] (first + rest)[k]).0 matches Some(i)
            ==> node_at(rs, i as int)) by {
            if k > 0 {
                assert((first + rest)[k] == rest[k - 1]);
            }
        }
    }
}

proof fn lemma_branches_nodes(rs: Seq<RecordView>, node: Option<usize>, k: int, guide: Seq<char>, depth: int)
    requires
        rs.len() <= usize::MAX,
        0 <= k,
    ensures
        all_nodes(rs, branches(rs, node, k, guide, depth)),
    decreases rs.len() + 1 - height(node), 0int, children(rs, node).len() - k,
{
    let kids = children(rs, node);
    if k < kids.len() && height(Some(kids[k])) <= rs.len() && height(Some(kids[k])) > height(node) {
        lemma_children(rs, node, rs.len() as int);
        let line = line_guide(guide, k, kids.len() as int);
        let inner = child_guide(guide, k, kids.len() as int, depth);
        let deeper = child_depth(kids.len() as int, depth);
        lemma_rows_nodes(rs, Some(kids[k]), line, inner, deeper);
        lemma_branches_nodes(rs, node, k + 1, guide, depth);
        let a = rows(rs, Some(kids[k]), line, inner, deeper);
        let b = branches(rs, node, k + 1, guide, depth);
        assert forall|j: int| 0 <= j < (a + b).len() implies ((#[trigger] (a + b)[j]).0 matches Some(i) ==> node_at(
            rs,
            i as int,
        )) by {
            if j < a.len() {
                assert((a + b)[j] == a[j]);
            } else {
                assert((a + b)[j] == b[j - a.len()]);
            }
        }
    }
}

/// Whether every row but that of the root is one of a node.
pub open spec fn all_nodes(rs: Seq<RecordView>, out: Seq<Row>) -> bool {
    forall|k: int| 0 <= k < out.len() ==> ((#[trigger] out[k]).0 matches Some(i) ==> node_at(rs, i as int))
}

/// The tree lists nothing but the root and nodes of the log.
pub proof fn law_tree_lists_nodes(rs: Seq<RecordView>)
    requires
        rs.len() <= usize::MAX,
    ensures
        all_nodes(rs, rows(rs, None, Seq::empty(), Seq::empty(), 0)),
{
    lemma_rows_nodes(rs, None, Seq::empty(), Seq::empty(), 0);
}

/// The tree begins with the root and lists every node of the log exactly
/// once.
pub proof fn law_tree_lists_every_node_once(rs: Seq<RecordView>, i: usize)
    requires
        linked(rs),
        rs.len() <= usize::MAX,
        node_at(rs, i as int),
    ensures
        rows(rs, None, Seq::empty(), Seq::empty(), 0).len() > 0,
        rows(rs, None, Seq::empty(), Seq::empty(), 0)[0].0 is None,
        listed(rows(rs, None, Seq::empty(), Seq::empty(), 0), None) == 1,
        listed(rows(rs, None, Seq::empty(), Seq::empty(), 0), Some(i)) == 1,
{
    lemma_rows_once(rs, None, Seq::empty(), Seq::empty(), 0, None);
    lemma_rows_once(rs, None, Seq::empty(), Seq::empty(), 0, Some(i));
    lemma_within_root(rs, Some(i));
}

proof fn lemma_within_root(rs: Seq<RecordView>, at: Option<usize>)
    ensures
        within(rs, None, at),
    decreases height(at),
{
    if let Some(i) = at {
        lemma_within_root(rs, parent_of(rs, i));
    }
}

/// The root is told as such, a node by the first of its blocks that is a message
/// or a call: its kind, and its first line, at most eighty characters of it. A
/// node that holds none is told as a step.
pub proof fn law_nodes_are_told_by_their_words(rs: Seq<RecordView>, i: usize, k: int)
    requires
        i < rs.len(),
        node_at(rs, i as int),
        0 <= k <= rs[i as int]->Node_0.blocks.len(),
        forall|j: int|
            0 <= j < k ==> {
                let kind = (#[trigger] rs[i as int]->Node_0.blocks[j]).kind;
                kind != Kind::User && kind != Kind::Agent && kind != Kind::Call
            },
    ensures
        node_label(rs, None) == "root"@,
        k == rs[i as int]->Node_0.blocks.len() ==> node_label(rs, Some(i)) == "step"@,
        k < rs[i as int]->Node_0.blocks.len() ==> ({
            let b = rs[i as int]->Node_0.blocks[k];
            let label = node_label(rs, Some(i));
            let h = crate::session::headline(b.text, 80);
            &&& b.kind == Kind::User ==> label == "User"@ + ": "@ + h
            &&& b.kind == Kind::Agent ==> label == "Agent"@ + ": "@ + h
            &&& b.kind == Kind::Call ==> label == "Call"@ + ": "@ + h
            &&& h.is_prefix_of(b.text)
            &&& h.len() <= 80
            &&& !h.contains('\n')
            &&& h.len() < 80 && h.len() < b.text.len() ==> b.text[h.len() as int] == '\n' || (b.text[h.len() as int]
                == '\r' && h.len() + 1 < b.text.len() && b.text[h.len() as int + 1] == '\n')
        }),
{
    let blocks = rs[i as int]->Node_0.blocks;
    lemma_telling(blocks, 0, k);
    if k < blocks.len() {
        crate::session::lemma_headline(blocks[k].text, 80);
    }
}

proof fn lemma_telling(blocks: Seq<BlockView>, from: int, k: int)
    requires
        0 <= from <= k <= blocks.len(),
        forall|j: int| from <= j < k ==> !is_telling((#[trigger] blocks[j]).kind),
    ensures
        telling(blocks, from) == telling(blocks, k),
    decreases k - from,
{
    if from < k {
        assert(!is_telling(blocks[from].kind));
        lemma_telling(blocks, from + 1, k);
    }
}

/// The children of a node are all the nodes that name it as their parent, each
/// once, oldest first.
pub proof fn law_children_are_those_that_name_it(rs: Seq<RecordView>, node: Option<usize>, c: usize)
    requires
        rs.len() <= usize::MAX,
    ensures
        children(rs, node).contains(c) <==> c < rs.len() && node_at(rs, c as int) && parent_of(rs, c) == node && height(
            Some(c),
        ) > height(node),
        forall|j: int, k: int| 0 <= j < k < children(rs, node).len() ==> children(rs, node)[j] < children(rs, node)[k],
{
    let n = rs.len() as int;
    lemma_children(rs, node, n);
    lemma_children_rise(rs, node, n);
    if c < rs.len() && node_at(rs, c as int) && parent_of(rs, c) == node && height(Some(c)) > height(node) {
        lemma_children_complete(rs, node, n, c);
    }
}

proof fn lemma_rest(rs: Seq<RecordView>, node: Option<usize>, i: int, j: int, guide: Seq<char>, depth: int) -> (at: int)
    requires
        rs.len() <= usize::MAX,
        0 <= i <= j <= children(rs, node).len(),
    ensures
        0 <= at <= branches(rs, node, i, guide, depth).len(),
        branches(rs, node, i, guide, depth).skip(at) == branches(rs, node, j, guide, depth),
    decreases j - i,
{
    let all = branches(rs, node, i, guide, depth);
    if i == j {
        assert(all.skip(0) =~= all);
        0
    } else {
        lemma_children(rs, node, rs.len() as int);
        let kids = children(rs, node);
        assert(kids[i] < rs.len());
        let first = rows(
            rs,
            Some(kids[i]),
            line_guide(guide, i, kids.len() as int),
            child_guide(guide, i, kids.len() as int, depth),
            child_depth(kids.len() as int, depth),
        );
        let at = lemma_rest(rs, node, i + 1, j, guide, depth);
        let rest = branches(rs, node, i + 1, guide, depth);
        assert(all == first + rest);
        assert(all.skip(first.len() + at) =~= rest.skip(at));
        first.len() + at
    }
}

/// A node stands before its children, each child with all that hangs below it,
/// and an older child before a younger one. An only child goes on where its
/// parent stands; where there are more, a guide leads to each, and, up to
/// sixteen forks deep, on through what hangs below it.
pub proof fn law_forks_are_drawn(
    rs: Seq<RecordView>,
    node: Option<usize>,
    line: Seq<char>,
    guide: Seq<char>,
    depth: int,
    j: int,
    k: int,
) -> (at: (int, int))
    requires
        rs.len() <= usize::MAX,
        height(node) <= rs.len(),
        0 <= j < k <= children(rs, node).len(),
    ensures
        ({
            let all = rows(rs, node, line, guide, depth);
            let kids = children(rs, node);
            let n = kids.len() as int;
            let deeper = if n > 1 && depth < 16 {
                depth + 1
            } else {
                depth
            };
            let first = rows(
                rs,
                Some(kids[j]),
                if n == 1 {
                    guide
                } else {
                    guide + (if j == n - 1 { "└─ "@ } else { "├─ "@ })
                },
                if n == 1 || depth >= 16 {
                    guide
                } else {
                    guide + (if j == n - 1 { "     "@ } else { "│    "@ })
                },
                deeper,
            );
            &&& all[0] == (node, line + node_label(rs, node))
            &&& 1 <= at.0 && at.0 + first.len() <= at.1 <= all.len()
            &&& all.subrange(at.0, at.0 + first.len()) == first
            &&& j == 0 ==> at.0 == 1
            &&& k == j + 1 ==> at.1 == at.0 + first.len()
            &&& k == n ==> at.1 == all.len()
            &&& k < n ==> all[at.1].0 == Some(kids[k])
        }),
{
    let all = rows(rs, node, line, guide, depth);
    let kids = children(rs, node);
    let n = kids.len() as int;
    lemma_children(rs, node, rs.len() as int);
    let below = branches(rs, node, 0, guide, depth);
    assert(all == seq![(node, line + node_label(rs, node))] + below);
    let a = lemma_rest(rs, node, 0, j, guide, depth);
    let from_j = branches(rs, node, j, guide, depth);
    assert(kids[j] < rs.len());
    let first = rows(
        rs,
        Some(kids[j]),
        line_guide(guide, j, n),
        child_guide(guide, j, n, depth),
        child_depth(n, depth),
    );
    assert(from_j == first + branches(rs, node, j + 1, guide, depth));
    let b = lemma_rest(rs, node, j + 1, k, guide, depth);
    let from_k = branches(rs, node, k, guide, depth);
    assert(all.skip(1 + a) =~= from_j);
    assert(all.subrange(1 + a, 1 + a + first.len()) =~= first);
    let behind = branches(rs, node, j + 1, guide, depth);
    assert(all.skip(1 + a + first.len()) =~= from_j.skip(first.len() as int));
    assert(from_j.skip(first.len() as int) =~= behind);
    assert(all.skip(1 + a + first.len() + b) =~= all.skip(1 + a + first.len()).skip(b));
    assert(all.skip(1 + a + first.len() + b) == from_k);
    if j == 0 {
        lemma_rest_none(rs, node, 0, guide, depth, a);
    }
    if k == j + 1 {
        lemma_rest_none(rs, node, k, guide, depth, b);
    }
    if k < n {
        assert(kids[k] < rs.len());
        let next = rows(
            rs,
            Some(kids[k]),
            line_guide(guide, k, n),
            child_guide(guide, k, n, depth),
            child_depth(n, depth),
        );
        assert(from_k == next + branches(rs, node, k + 1, guide, depth));
        assert(from_k[0] == next[0]);
        assert(all[1 + a + first.len() + b] == from_k[0]);
    }
    (1 + a, 1 + a + first.len() + b)
}

proof fn lemma_rest_none(rs: Seq<RecordView>, node: Option<usize>, i: int, guide: Seq<char>, depth: int, at: int)
    requires
        0 <= at <= branches(rs, node, i, guide, depth).len(),
        branches(rs, node, i, guide, depth).skip(at) == branches(rs, node, i, guide, depth),
    ensures
        at == 0,
{
    assert(branches(rs, node, i, guide, depth).skip(at).len() == branches(rs, node, i, guide, depth).len() - at);
}

} // verus!
