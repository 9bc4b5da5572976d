//! The screen: text made safe for it, cut to its width, and laid out in rows.
use crate::block::{Block, BlockView, Kind, Tool, ToolStatus, ToolView};
use crate::text::{self, is_control, join, trim, views};
use vstd::prelude::*;
use vstd::string::StringExecFns;

verus! {

/// The escape character.
pub open spec fn escape() -> char {
    '\u{1b}'
}

/// Where a control sequence ends that is read from `i` on: behind its final
/// character.
pub open spec fn sequence_end(s: Seq<char>, i: int) -> int
    decreases s.len() - i,
{
    if i < 0 || i >= s.len() {
        i
    } else if '@' <= s[i] && s[i] <= '~' {
        i + 1
    } else {
        sequence_end(s, i + 1)
    }
}

/// Where a control string ends that is read from `i` on: behind a bell, or a
/// backslash behind an escape. `after` holds behind an escape.
pub open spec fn string_end(s: Seq<char>, i: int, after: bool) -> int
    decreases s.len() - i,
{
    if i < 0 || i >= s.len() {
        i
    } else if s[i] == '\u{7}' || (after && s[i] == '\\') {
        i + 1
    } else {
        string_end(s, i + 1, s[i] == escape())
    }
}

/// Where the text goes on behind the escape at `i`.
pub open spec fn behind_escape(s: Seq<char>, i: int) -> int {
    if i + 1 >= s.len() {
        i + 1
    } else if s[i + 1] == '[' {
        sequence_end(s, i + 2)
    } else if s[i + 1] == ']' || s[i + 1] == 'P' || s[i + 1] == '_' || s[i + 1] == '^' {
        string_end(s, i + 2, false)
    } else {
        i + 2
    }
}

/// What a character that begins no sequence leaves.
pub open spec fn shown_char(c: char) -> Seq<char> {
    if c == '\t' {
        "    "@
    } else if c == '\n' || !is_control(c) {
        seq![c]
    } else {
        seq![]
    }
}

/// `s` from `i` on without what would control the terminal.
pub open spec fn cleaned_from(s: Seq<char>, i: int) -> Seq<char>
    decreases s.len() - i,
{
    if i < 0 || i >= s.len() {
        seq![]
    } else if s[i] == escape() {
        if i < behind_escape(s, i) <= s.len() {
            cleaned_from(s, behind_escape(s, i))
        } else {
            seq![]
        }
    } else {
        shown_char(s[i]) + cleaned_from(s, i + 1)
    }
}

/// `s` without what would control the terminal.
pub open spec fn cleaned(s: Seq<char>) -> Seq<char> {
    cleaned_from(s, 0)
}

proof fn lemma_sequence_end(s: Seq<char>, i: int)
    requires
        0 <= i <= s.len(),
    ensures
        i <= sequence_end(s, i) <= s.len(),
    decreases s.len() - i,
{
    if i < s.len() && !('@' <= s[i] && s[i] <= '~') {
        lemma_sequence_end(s, i + 1);
    }
}

proof fn lemma_string_end(s: Seq<char>, i: int, after: bool)
    requires
        0 <= i <= s.len(),
    ensures
        i <= string_end(s, i, after) <= s.len(),
    decreases s.len() - i,
{
    if i < s.len() && !(s[i] == '\u{7}' || (after && s[i] == '\\')) {
        lemma_string_end(s, i + 1, s[i] == escape());
    }
}

fn end_of_sequence(s: &[char], from: usize) -> (r: usize)
    requires
        from <= s@.len(),
    ensures
        r == sequence_end(s@, from as int),
        from <= r <= s@.len(),
{
    let mut i: usize = from;
    while i < s.len()
        invariant
            from <= i <= s@.len(),
            sequence_end(s@, from as int) == sequence_end(s@, i as int),
        decreases s@.len() - i,
    {
        if final_char(s[i]) {
            return i + 1;
        }
        i += 1;
    }
    i
}

fn final_char(c: char) -> (r: bool)
    ensures
        r == ('@' <= c && c <= '~'),
{
    let u = c as u32;
    0x40 <= u && u <= 0x7e
}

fn end_of_string(s: &[char], from: usize) -> (r: usize)
    requires
        from <= s@.len(),
    ensures
        r == string_end(s@, from as int, false),
        from <= r <= s@.len(),
{
    let mut i: usize = from;
    let mut after = false;
    while i < s.len()
        invariant
            from <= i <= s@.len(),
            string_end(s@, from as int, false) == string_end(s@, i as int, after),
        decreases s@.len() - i,
    {
        if s[i] == '\u{7}' || (after && s[i] == '\\') {
            return i + 1;
        }
        after = s[i] == '\u{1b}';
        i += 1;
    }
    i
}

/// The text without control sequences, which must not reach the terminal from a
/// tool or a model. A tab becomes four spaces.
pub fn clean_chars(s: &[char]) -> (r: Vec<char>)
    ensures
        r@ == cleaned(s@),
{
    let mut out: Vec<char> = Vec::new();
    let mut i: usize = 0;
    let len: usize = s.len();
    assert(out@ + cleaned_from(s@, 0) =~= cleaned(s@));
    while i < len
        invariant
            i <= len,
            len == s@.len(),
            out@ + cleaned_from(s@, i as int) == cleaned(s@),
        decreases len - i,
    {
        let c = s[i];
        let ghost held = out@;
        if c == '\u{1b}' {
            if i + 1 >= len {
                i = i + 1;
            } else if s[i + 1] == '[' {
                proof {
                    lemma_sequence_end(s@, i + 2);
                }
                i = end_of_sequence(s, i + 2);
            } else if s[i + 1] == ']' || s[i + 1] == 'P' || s[i + 1] == '_' || s[i + 1] == '^' {
                proof {
                    lemma_string_end(s@, i + 2, false);
                }
                i = end_of_string(s, i + 2);
            } else {
                i = i + 2;
            }
        } else {
            if c == '\t' {
                text::extend(&mut out, &text::chars("    "));
            } else if c == '\n' || !text::control(c) {
                out.push(c);
            }
            i = i + 1;
            assert(out@ =~= held + shown_char(c));
            assert(out@ + cleaned_from(s@, i as int) =~= held + (shown_char(c) + cleaned_from(s@, i as int)));
        }
    }
    assert(out@ + cleaned_from(s@, i as int) =~= out@);
    out
}

/// The text without control sequences.
pub fn clean(source: &str) -> (r: String)
    ensures
        r@ == cleaned(source@),
{
    text::string(&clean_chars(&text::chars(source)))
}

/// Whether nothing in `s` would control the terminal: no control character but
/// the line feed.
pub open spec fn harmless(s: Seq<char>) -> bool {
    forall|k: int| 0 <= k < s.len() ==> #[trigger] s[k] == '\n' || !is_control(s[k])
}

proof fn lemma_cleaned_harmless(s: Seq<char>, i: int)
    requires
        0 <= i,
    ensures
        harmless(cleaned_from(s, i)),
    decreases s.len() - i,
{
    if i < s.len() {
        if s[i] == escape() {
            if i < behind_escape(s, i) <= s.len() {
                lemma_cleaned_harmless(s, behind_escape(s, i));
            }
        } else {
            lemma_cleaned_harmless(s, i + 1);
            reveal_strlit("    ");
            let a = shown_char(s[i]);
            let b = cleaned_from(s, i + 1);
            assert forall|k: int| 0 <= k < (a + b).len() implies #[trigger] (a + b)[k] == '\n' || !is_control(
                (a + b)[k],
            ) by {
                if k < a.len() {
                    assert((a + b)[k] == a[k]);
                } else {
                    assert((a + b)[k] == b[k - a.len()]);
                }
            }
        }
    }
}

proof fn lemma_harmless_stays(s: Seq<char>, i: int)
    requires
        harmless(s),
        0 <= i <= s.len(),
    ensures
        cleaned_from(s, i) == s.skip(i),
    decreases s.len() - i,
{
    if i < s.len() {
        lemma_harmless_stays(s, i + 1);
        assert(is_control(escape()));
        assert(is_control('\t'));
        assert(s[i] == '\n' || !is_control(s[i]));
        assert(shown_char(s[i]) == seq![s[i]]);
        assert(seq![s[i]] + s.skip(i + 1) =~= s.skip(i));
    } else {
        assert(s.skip(i) =~= seq![]);
    }
}

/// Nothing that is cleaned controls the terminal.
pub proof fn law_cleaned_is_harmless(s: Seq<char>)
    ensures
        harmless(cleaned(s)),
{
    lemma_cleaned_harmless(s, 0);
}

/// What is harmless is left as it is; so cleaning twice is cleaning once.
pub proof fn law_harmless_is_kept(s: Seq<char>)
    ensures
        harmless(s) ==> cleaned(s) == s,
        cleaned(cleaned(s)) == cleaned(s),
{
    if harmless(s) {
        lemma_harmless_stays(s, 0);
        assert(s.skip(0) =~= s);
    }
    lemma_cleaned_harmless(s, 0);
    lemma_harmless_stays(cleaned(s), 0);
    assert(cleaned(s).skip(0) =~= cleaned(s));
}

/// The columns that `unicode_width` gives a character; `None` for one that
/// controls.
pub uninterp spec fn char_columns(c: char) -> Option<usize>;

/// Whether a character is one of ASCII that is seen.
pub open spec fn printable(c: char) -> bool {
    ' ' <= c && c <= '~'
}

/// `UnicodeWidthChar::width` of `unicode_width`: the columns that the character
/// takes, and `None` for the control characters and no others. A character of
/// ASCII that is seen takes one, and none takes more than three.
#[verifier::external_body]
fn measure_char(c: char) -> (r: Option<usize>)
    ensures
        r == char_columns(c),
        r is None <==> is_control(c),
        printable(c) ==> r == Some(1usize),
        r matches Some(w) ==> w <= 3,
{
    unicode_width::UnicodeWidthChar::width(c)
}

/// The columns that a character takes; none for one that controls.
pub open spec fn char_width(c: char) -> usize {
    match char_columns(c) {
        Some(w) => w,
        None => 0,
    }
}

/// The columns that a text takes.
pub uninterp spec fn text_width(s: Seq<char>) -> usize;

/// Whether all characters are of ASCII and seen.
pub open spec fn all_printable(s: Seq<char>) -> bool {
    forall|k: int| 0 <= k < s.len() ==> printable(#[trigger] s[k])
}

/// `UnicodeWidthStr::width` of `unicode_width`: the columns that the text takes.
/// It depends on the text alone; a text of ASCII that is seen takes one column
/// for each character.
#[verifier::external_body]
pub(crate) fn measure_text(s: &str) -> (r: usize)
    ensures
        r == text_width(s@),
        all_printable(s@) ==> r == s@.len(),
{
    unicode_width::UnicodeWidthStr::width(s)
}

/// The columns that each character takes.
pub open spec fn measured(s: Seq<char>) -> Seq<usize> {
    s.map_values(|c: char| char_width(c))
}

/// The columns that each character takes.
pub fn measure(s: &[char]) -> (r: Vec<usize>)
    ensures
        r@ == measured(s@),
        forall|k: int| 0 <= k < s@.len() && printable(#[trigger] s@[k]) ==> r@[k] == 1,
        forall|k: int| 0 <= k < s@.len() ==> #[trigger] r@[k] <= 3,
{
    let mut out: Vec<usize> = Vec::new();
    let mut i: usize = 0;
    while i < s.len()
        invariant
            i <= s@.len(),
            out@.len() == i,
            forall|k: int| 0 <= k < i ==> #[trigger] out@[k] == char_width(s@[k]),
            forall|k: int| 0 <= k < i && printable(#[trigger] s@[k]) ==> out@[k] == 1,
            forall|k: int| 0 <= k < i ==> #[trigger] out@[k] <= 3,
        decreases s@.len() - i,
    {
        let w: usize = match measure_char(s[i]) {
            Some(w) => w,
            None => 0,
        };
        out.push(w);
        i += 1;
    }
    assert(out@ =~= measured(s@));
    out
}

/// Text as it runs over rows: the full rows, the row it is in, and the columns
/// taken there.
pub struct Flow {
    pub rows: Seq<Seq<char>>,
    pub row: Seq<char>,
    pub col: nat,
}

/// One more character, of `w` columns: a line feed begins a row, and so does a
/// character that does not fit behind others. One that is wider than a row is
/// left out.
pub open spec fn put(f: Flow, c: char, w: usize, width: usize) -> Flow {
    if c == '\n' {
        Flow { rows: f.rows.push(f.row), row: seq![], col: 0 }
    } else {
        let g = if f.col + w > width && f.row.len() > 0 {
            Flow { rows: f.rows.push(f.row), row: seq![], col: 0 }
        } else {
            f
        };
        if w <= width {
            Flow { rows: g.rows, row: g.row.push(c), col: g.col + w as nat }
        } else {
            g
        }
    }
}

/// Text over rows of `width` columns, each character taking those of `widths`.
pub open spec fn flow(s: Seq<char>, widths: Seq<usize>, width: usize) -> Flow
    decreases s.len(),
{
    if s.len() == 0 {
        Flow { rows: seq![], row: seq![], col: 0 }
    } else {
        put(flow(s.drop_last(), widths.drop_last(), width), s.last(), widths.last(), width)
    }
}

/// The rows of a text.
pub open spec fn rows_of(s: Seq<char>, widths: Seq<usize>, width: usize) -> Seq<Seq<char>> {
    let f = flow(s, widths, width);
    f.rows.push(f.row)
}

/// At least one column.
pub open spec fn at_least_one(width: usize) -> usize {
    if width == 0 {
        1
    } else {
        width
    }
}

/// The rows of a text, `width` columns wide but at least one.
pub open spec fn wrapped(s: Seq<char>, width: usize) -> Seq<Seq<char>> {
    rows_of(s, measured(s), at_least_one(width))
}

/// Cuts a text into rows, each character taking the columns in `widths`.
pub fn wrap_measured(s: &[char], widths: &[usize], width: usize) -> (r: Vec<Vec<char>>)
    requires
        widths@.len() == s@.len(),
    ensures
        views(r@) == rows_of(s@, widths@, width),
        r@.len() > 0,
{
    let mut rows: Vec<Vec<char>> = Vec::new();
    let mut row: Vec<char> = Vec::new();
    let mut col: usize = 0;
    let mut i: usize = 0;
    assert(views(rows@) =~= seq![]);
    while i < s.len()
        invariant
            i <= s@.len(),
            widths@.len() == s@.len(),
            col <= width,
            ({
                let f = flow(s@.take(i as int), widths@.take(i as int), width);
                views(rows@) == f.rows && row@ == f.row && col == f.col
            }),
        decreases s@.len() - i,
    {
        proof {
            assert(s@.take(i + 1).drop_last() =~= s@.take(i as int));
            assert(widths@.take(i + 1).drop_last() =~= widths@.take(i as int));
        }
        let c = s[i];
        let w = widths[i];
        if c == '\n' || (w > width - col && row.len() > 0) {
            let ghost done = views(rows@);
            let full = row;
            rows.push(full);
            assert(views(rows@) =~= done.push(full@));
            row = Vec::new();
            col = 0;
        }
        if c != '\n' && w <= width {
            row.push(c);
            proof {
                lemma_empty_row(s@.take(i as int), widths@.take(i as int), width);
            }
            col = col + w;
        }
        i += 1;
    }
    proof {
        assert(s@.take(i as int) =~= s@);
        assert(widths@.take(i as int) =~= widths@);
    }
    let ghost done = views(rows@);
    let last = row;
    rows.push(last);
    assert(views(rows@) =~= done.push(last@));
    rows
}

/// An empty row takes no columns.
proof fn lemma_empty_row(s: Seq<char>, widths: Seq<usize>, width: usize)
    requires
        s.len() == widths.len(),
    ensures
        flow(s, widths, width).row.len() == 0 ==> flow(s, widths, width).col == 0,
        flow(s, widths, width).col <= width,
    decreases s.len(),
{
    if s.len() > 0 {
        lemma_empty_row(s.drop_last(), widths.drop_last(), width);
    }
}

/// Cuts a text into rows of `width` columns, but at least one.
pub fn wrap_chars(s: &[char], width: usize) -> (r: Vec<Vec<char>>)
    ensures
        views(r@) == wrapped(s@, width),
        r@.len() > 0,
{
    let width: usize = if width == 0 {
        1
    } else {
        width
    };
    wrap_measured(s, &measure(s), width)
}

/// Cuts a text into rows of `width` columns, but at least one.
pub fn wrap(source: &str, width: usize) -> (r: Vec<String>)
    ensures
        text::texts(r@) == wrapped(source@, width),
{
    let rows = wrap_chars(&text::chars(source), width);
    let mut out: Vec<String> = Vec::new();
    let mut i: usize = 0;
    while i < rows.len()
        invariant
            i <= rows@.len(),
            out@.len() == i,
            forall|k: int| 0 <= k < i ==> (#[trigger] out@[k])@ == rows@[k]@,
        decreases rows@.len() - i,
    {
        out.push(text::string(&rows[i]));
        i += 1;
    }
    assert(text::texts(out@) =~= views(rows@));
    out
}

/// The columns of a row.
pub open spec fn row_width(widths: Seq<usize>) -> nat
    decreases widths.len(),
{
    if widths.len() == 0 {
        0
    } else {
        row_width(widths.drop_last()) + widths.last() as nat
    }
}

/// The columns of a row of characters.
pub open spec fn columns(row: Seq<char>) -> nat {
    row_width(measured(row))
}

proof fn lemma_columns_push(row: Seq<char>, c: char)
    ensures
        columns(row.push(c)) == columns(row) + char_width(c),
{
    assert(measured(row.push(c)).drop_last() =~= measured(row));
}

/// No row is wider than it may be.
pub proof fn law_rows_fit(s: Seq<char>, width: usize)
    requires
        width > 0,
    ensures
        forall|k: int|
            0 <= k < wrapped(s, width).len() ==> columns(#[trigger] wrapped(s, width)[k]) <= width,
        flow(s, measured(s), width).col == columns(flow(s, measured(s), width).row),
        forall|k: int|
            0 <= k < flow(s, measured(s), width).rows.len() ==> columns(
                #[trigger] flow(s, measured(s), width).rows[k],
            ) <= width,
    decreases s.len(),
{
    let f = flow(s, measured(s), width);
    if s.len() > 0 {
        let t = s.drop_last();
        law_rows_fit(t, width);
        assert(measured(s).drop_last() =~= measured(t));
        let g = flow(t, measured(t), width);
        lemma_empty_row(t, measured(t), width);
        lemma_columns_push(g.row, s.last());
        lemma_columns_push(seq![], s.last());
        assert(Seq::<char>::empty().push(s.last()) =~= seq![s.last()]);
        assert(measured(seq![]) =~= seq![]);
        assert forall|k: int| 0 <= k < f.rows.len() implies columns(#[trigger] f.rows[k]) <= width by {
            if k < g.rows.len() {
                assert(f.rows[k] == g.rows[k]);
            }
        }
    } else {
        assert(measured(s) =~= seq![]);
    }
    lemma_empty_row(s, measured(s), width);
    assert forall|k: int| 0 <= k < wrapped(s, width).len() implies columns(#[trigger] wrapped(s, width)[k])
        <= width by {
        if k < f.rows.len() {
            assert(wrapped(s, width)[k] == f.rows[k]);
        }
    }
}

/// The rows of a text, one behind the other.
pub open spec fn unwrapped(rows: Seq<Seq<char>>) -> Seq<char>
    decreases rows.len(),
{
    if rows.len() == 0 {
        seq![]
    } else {
        unwrapped(rows.drop_last()) + rows.last()
    }
}

/// What of a text is shown: everything but line feeds and what is wider than a
/// row.
pub open spec fn shown_of(s: Seq<char>, width: usize) -> Seq<char>
    decreases s.len(),
{
    if s.len() == 0 {
        seq![]
    } else if s.last() == '\n' || char_width(s.last()) > width {
        shown_of(s.drop_last(), width)
    } else {
        shown_of(s.drop_last(), width).push(s.last())
    }
}

/// Cutting into rows loses nothing, and changes no order: the rows one behind
/// the other are the text, without line feeds and what is wider than a row.
pub proof fn law_rows_hold_the_text(s: Seq<char>, width: usize)
    requires
        width > 0,
    ensures
        unwrapped(wrapped(s, width)) == shown_of(s, width),
    decreases s.len(),
{
    let f = flow(s, measured(s), width);
    assert(wrapped(s, width).drop_last() =~= f.rows);
    if s.len() > 0 {
        let t = s.drop_last();
        law_rows_hold_the_text(t, width);
        assert(measured(s).drop_last() =~= measured(t));
        let g = flow(t, measured(t), width);
        assert(wrapped(t, width).drop_last() =~= g.rows);
        let c = s.last();
        let before = unwrapped(g.rows) + g.row;
        assert(g.rows.push(g.row).drop_last() =~= g.rows);
        assert(unwrapped(g.rows.push(g.row)) == before);
        if c == '\n' {
            assert(unwrapped(f.rows) + f.row =~= before);
        } else if char_width(c) <= width {
            assert(unwrapped(f.rows) + f.row =~= before.push(c));
        } else {
            assert(unwrapped(f.rows) + f.row =~= before);
        }
    } else {
        assert(unwrapped(f.rows) + f.row =~= seq![]);
    }
}

/// Where the text goes on: the row and the column.
pub struct Point {
    pub row: nat,
    pub col: nat,
}

/// Where the text goes on behind one more character.
pub open spec fn moved(p: Point, c: char, w: usize, width: usize) -> Point {
    if c == '\n' {
        Point { row: p.row + 1, col: 0 }
    } else if w > width {
        p
    } else if p.col + w > width && p.col > 0 {
        Point { row: p.row + 1, col: w as nat }
    } else {
        Point { row: p.row, col: p.col + w as nat }
    }
}

/// Where the text goes on behind `s`.
pub open spec fn point_behind(s: Seq<char>, widths: Seq<usize>, width: usize) -> Point
    decreases s.len(),
{
    if s.len() == 0 {
        Point { row: 0, col: 0 }
    } else {
        moved(point_behind(s.drop_last(), widths.drop_last(), width), s.last(), widths.last(), width)
    }
}

/// Where the cursor is shown: at the beginning of the next row behind a full one.
pub open spec fn insertion(p: Point, width: usize) -> (int, int) {
    if p.col == width {
        (p.row as int + 1, 0)
    } else {
        (p.row as int, p.col as int)
    }
}

/// Where the cursor is shown behind each number of characters.
pub open spec fn insertions(s: Seq<char>, widths: Seq<usize>, width: usize) -> Seq<(int, int)> {
    Seq::new(s.len() + 1, |k: int| insertion(point_behind(s.take(k), widths.take(k), width), width))
}

/// The rows and columns.
pub open spec fn position_views(positions: Seq<(usize, usize)>) -> Seq<(int, int)> {
    positions.map_values(|p: (usize, usize)| (p.0 as int, p.1 as int))
}

/// Adds where the cursor is shown.
fn push_insertion(out: &mut Vec<(usize, usize)>, row: usize, col: usize, width: usize)
    requires
        row <= old(out)@.len(),
    ensures
        final(out)@.len() == old(out)@.len() + 1,
        position_views(final(out)@) == position_views(old(out)@).push(
            insertion(Point { row: row as nat, col: col as nat }, width),
        ),
        final(out)@.len() <= usize::MAX,
{
    let ghost done = position_views(out@);
    out.push((row, col));
    let last: usize = out.len() - 1;
    if col == width {
        out[last] = (row + 1, 0);
    }
    assert(position_views(out@) =~= done.push(insertion(Point { row: row as nat, col: col as nat }, width)));
}

/// Where the cursor is shown behind each number of characters, each taking the
/// columns in `widths`.
pub fn positions_measured(s: &[char], widths: &[usize], width: usize) -> (r: Vec<(usize, usize)>)
    requires
        widths@.len() == s@.len(),
    ensures
        position_views(r@) == insertions(s@, widths@, width),
        r@.len() == s@.len() + 1,
{
    let mut out: Vec<(usize, usize)> = Vec::new();
    let mut row: usize = 0;
    let mut col: usize = 0;
    let mut i: usize = 0;
    let ghost want = insertions(s@, widths@, width);
    assert(s@.take(0) =~= seq![]);
    while i < s.len()
        invariant
            i <= s@.len(),
            widths@.len() == s@.len(),
            want == insertions(s@, widths@, width),
            out@.len() == i,
            row <= i,
            col <= width,
            forall|k: int| 0 <= k < i ==> #[trigger] position_views(out@)[k] == want[k],
            point_behind(s@.take(i as int), widths@.take(i as int), width) == (Point {
                row: row as nat,
                col: col as nat,
            }),
        decreases s@.len() - i,
    {
        proof {
            assert(s@.take(i + 1).drop_last() =~= s@.take(i as int));
            assert(widths@.take(i + 1).drop_last() =~= widths@.take(i as int));
        }
        let ghost done = position_views(out@);
        push_insertion(&mut out, row, col, width);
        assert(position_views(out@) =~= done.push(want[i as int]));
        let c = s[i];
        let w = widths[i];
        if c == '\n' {
            row += 1;
            col = 0;
        } else if w <= width {
            if w > width - col && col > 0 {
                row += 1;
                col = 0;
            }
            col = col + w;
        }
        i += 1;
    }
    let ghost done = position_views(out@);
    push_insertion(&mut out, row, col, width);
    assert(position_views(out@) =~= done.push(want[i as int]));
    assert(position_views(out@) =~= want);
    out
}

/// Whether no character that is wider than a row stands behind others in a row.
pub open spec fn unbroken(s: Seq<char>, widths: Seq<usize>, width: usize) -> bool {
    forall|k: int|
        0 <= k < s.len() && #[trigger] widths[k] > width && s[k] != '\n' ==> flow(
            s.take(k),
            widths.take(k),
            width,
        ).row.len() == 0
}

/// The cursor is shown where the text is: unless a character that is left out
/// breaks a row, the cursor behind `s` stands in the last row of `s` and a
/// space, at the column of that space.
pub proof fn law_cursor_stands_in_the_text(s: Seq<char>, widths: Seq<usize>, width: usize)
    requires
        width > 0,
        widths.len() == s.len(),
        unbroken(s, widths, width),
    ensures
        ({
            let f = flow(s.push(' '), widths.push(1), width);
            insertion(point_behind(s, widths, width), width) == (f.rows.len() as int, f.col - 1)
        }),
{
    lemma_point(s, widths, width);
    lemma_empty_row(s, widths, width);
    assert(s.push(' ').drop_last() =~= s);
    assert(widths.push(1).drop_last() =~= widths);
}

proof fn lemma_point(s: Seq<char>, widths: Seq<usize>, width: usize)
    requires
        width > 0,
        widths.len() == s.len(),
        unbroken(s, widths, width),
    ensures
        ({
            let f = flow(s, widths, width);
            point_behind(s, widths, width) == (Point { row: f.rows.len(), col: f.col })
        }),
    decreases s.len(),
{
    if s.len() > 0 {
        let start = s.drop_last();
        let t = widths.drop_last();
        assert forall|k: int| 0 <= k < start.len() && #[trigger] t[k] > width && start[k] != '\n' implies flow(
            start.take(k),
            t.take(k),
            width,
        ).row.len() == 0 by {
            assert(t[k] == widths[k]);
            assert(start.take(k) =~= s.take(k));
            assert(t.take(k) =~= widths.take(k));
        }
        lemma_point(start, t, width);
        lemma_empty_row(start, t, width);
        let n = s.len() - 1;
        assert(widths[n] == widths.last());
        assert(s.take(n) =~= start);
        assert(widths.take(n) =~= t);
    }
}

/// `s` with spaces for line feeds.
pub open spec fn one_line(s: Seq<char>) -> Seq<char> {
    s.map_values(|c: char| if c == '\n' { ' ' } else { c })
}

/// The beginning of a text that fits in `width` columns, but at least one, as one
/// line.
pub open spec fn clipped(s: Seq<char>, width: usize) -> Seq<char> {
    wrapped(one_line(cleaned(s)), width)[0]
}

/// The beginning of a text that fits in `width` columns.
pub fn clip(source: &str, width: usize) -> (r: String)
    ensures
        r@ == clipped(source@, width),
{
    let mut line = clean_chars(&text::chars(source));
    let ghost all = line@;
    let mut i: usize = 0;
    while i < line.len()
        invariant
            i <= line@.len(),
            line@.len() == all.len(),
            forall|k: int| 0 <= k < i ==> #[trigger] line@[k] == one_line(all)[k],
            forall|k: int| i <= k < line@.len() ==> #[trigger] line@[k] == all[k],
        decreases line@.len() - i,
    {
        if line[i] == '\n' {
            line[i] = ' ';
        }
        i += 1;
    }
    assert(line@ =~= one_line(all));
    let rows = wrap_chars(&line, width);
    assert(views(rows@)[0] == rows@[0]@);
    text::string(&rows[0])
}

/// A mark for what is left out, where `width` columns are too few for more.
pub open spec fn bare_ellipsis(width: usize) -> Seq<char> {
    if width == 0 {
        seq![]
    } else {
        "…"@
    }
}

/// `s` where it fits in `width` columns; else its beginning and a mark. `columns`
/// are those that `s` takes.
pub open spec fn shortened(s: Seq<char>, columns: usize, width: usize) -> Seq<char> {
    if columns <= width {
        s
    } else if width <= 1 {
        bare_ellipsis(width)
    } else {
        clipped(s, (width - 1) as usize) + "…"@
    }
}

/// How many of the last characters fit in `room` columns.
pub open spec fn fitting_end(widths: Seq<usize>, room: int) -> nat
    decreases widths.len(),
{
    if widths.len() == 0 || widths.last() > room {
        0
    } else {
        1 + fitting_end(widths.drop_last(), room - widths.last())
    }
}

/// `s` where it fits in `width` columns; else a mark and its end. `columns` are
/// those that `s` takes, and `widths` those of its characters.
pub open spec fn shortened_front(s: Seq<char>, columns: usize, widths: Seq<usize>, width: usize) -> Seq<char> {
    if columns <= width {
        s
    } else if width <= 1 {
        bare_ellipsis(width)
    } else {
        "…"@ + s.skip(s.len() - fitting_end(widths, width - 1))
    }
}

/// `s` shortened to `width` columns; `columns` are those that it takes.
pub fn shorten(source: &str, columns: usize, width: usize) -> (r: String)
    ensures
        r@ == shortened(source@, columns, width),
{
    if columns <= width {
        source.to_owned()
    } else if width == 0 {
        String::new()
    } else if width == 1 {
        "…".to_owned()
    } else {
        text::cat(&clip(source, width - 1), "…")
    }
}

/// `s` where it fits in `width` columns, and else its beginning and a mark.
pub open spec fn with_ellipsis(s: Seq<char>, width: usize) -> Seq<char> {
    shortened(s, text_width(s), width)
}

/// A text where it fits in `width` columns, and else its beginning and a mark.
pub fn ellipsis(source: &str, width: usize) -> (r: String)
    ensures
        r@ == with_ellipsis(source@, width),
{
    shorten(source, measure_text(source), width)
}

/// `s` shortened to `width` columns from the front; `columns` are those that it
/// takes, and `widths` those of its characters.
pub fn shorten_front(source: &str, columns: usize, widths: &[usize], width: usize) -> (r: String)
    requires
        widths@.len() == source@.len(),
    ensures
        r@ == shortened_front(source@, columns, widths@, width),
{
    if columns <= width {
        return source.to_owned();
    }
    if width == 0 {
        return String::new();
    }
    if width == 1 {
        return "…".to_owned();
    }
    let chars = text::chars(source);
    let mut start: usize = chars.len();
    let mut room: usize = width - 1;
    let ghost n = chars@.len() as int;
    assert(widths@.take(n) =~= widths@);
    while start > 0 && widths[start - 1] <= room
        invariant
            start <= chars@.len(),
            n == chars@.len(),
            widths@.len() == chars@.len(),
            fitting_end(widths@, width - 1) == (n - start) + fitting_end(widths@.take(start as int), room as int),
        decreases start,
    {
        assert(widths@.take(start as int).drop_last() =~= widths@.take(start - 1));
        room = room - widths[start - 1];
        start -= 1;
    }
    let end = text::slice(&chars, start, chars.len());
    assert(end@ =~= source@.skip(n - fitting_end(widths@, width - 1)));
    text::cat("…", &text::string(&end))
}

/// `s` where it fits in `width` columns, and else a mark and its end.
pub open spec fn with_front_ellipsis(s: Seq<char>, width: usize) -> Seq<char> {
    shortened_front(s, text_width(s), measured(s), width)
}

/// A text where it fits in `width` columns, and else a mark and its end.
pub fn tail_ellipsis(source: &str, width: usize) -> (r: String)
    ensures
        r@ == with_front_ellipsis(source@, width),
{
    shorten_front(source, measure_text(source), &measure(&text::chars(source)), width)
}

/// The colors of the screen.
#[derive(Clone, Copy, PartialEq, Eq, Structural, Debug)]
pub enum Color {
    Plain,
    Gray,
    Accent,
    Yellow,
    Green,
    Red,
}

/// A row of the transcript: its text and color, the color of the bullet that it
/// begins with, and whether it is slanted.
#[derive(Debug)]
pub struct Line {
    pub text: String,
    pub color: Color,
    pub bullet: Option<Color>,
    pub italic: bool,
}

/// The model of [`Line`].
pub struct LineView {
    pub text: Seq<char>,
    pub color: Color,
    pub bullet: Option<Color>,
    pub italic: bool,
}

impl View for Line {
    type V = LineView;

    open spec fn view(&self) -> LineView {
        LineView { text: self.text@, color: self.color, bullet: self.bullet, italic: self.italic }
    }
}

/// What each row says.
pub open spec fn line_views(lines: Seq<Line>) -> Seq<LineView> {
    lines.map_values(|l: Line| l@)
}

/// A row of one color.
pub open spec fn plain_line(s: Seq<char>, color: Color) -> LineView {
    LineView { text: s, color, bullet: None, italic: false }
}

impl Line {
    /// A row of one color.
    pub fn new(text: String, color: Color) -> (r: Line)
        ensures
            r@ == plain_line(text@, color),
    {
        Line { text, color, bullet: None, italic: false }
    }
}

/// The color of a call.
pub open spec fn status_color(status: ToolStatus) -> Color {
    match status {
        ToolStatus::Running => Color::Yellow,
        ToolStatus::TimedOut(_) => Color::Yellow,
        ToolStatus::Cancelled => Color::Yellow,
        ToolStatus::Exited(code) => if code == 0 {
            Color::Green
        } else {
            Color::Red
        },
        ToolStatus::Error => Color::Red,
        ToolStatus::Pending => Color::Gray,
    }
}

/// `n` less `m`, but at least zero.
pub open spec fn less_by(n: usize, m: int) -> usize {
    if n >= m {
        (n - m) as usize
    } else {
        0
    }
}

/// A command as one line.
pub open spec fn command_summary(command: Seq<char>) -> Seq<char> {
    join(crate::skills::trimmed_lines(text::lines(command)), " ↵ "@)
}

/// The rows of a command: all of it, or one. While it is still being written,
/// its end is shown.
pub open spec fn command_rows(command: Seq<char>, status: ToolStatus, width: usize, expanded: bool) -> Seq<Seq<char>> {
    let room = less_by(width, 2);
    if expanded {
        wrapped(command, room)
    } else if status == ToolStatus::Pending {
        seq![with_front_ellipsis(command_summary(command), room)]
    } else {
        seq![with_ellipsis(command_summary(command), room)]
    }
}

/// The rows of a command as they are shown.
pub open spec fn command_lines(rows: Seq<Seq<char>>, color: Color) -> Seq<LineView> {
    Seq::new(
        rows.len(),
        |i: int|
            LineView {
                text: (if i == 0 { "● "@ } else { "  "@ }) + rows[i],
                color: Color::Plain,
                bullet: if i == 0 {
                    Some(color)
                } else {
                    None
                },
                italic: false,
            },
    )
}

/// Line feeds.
pub open spec fn line_feed() -> spec_fn(char) -> bool {
    |c: char| c == '\n'
}

/// `s` without line feeds at its end.
pub open spec fn without_feeds(s: Seq<char>) -> Seq<char> {
    s.take(s.len() - text::span_back(s, line_feed()))
}

/// The rows of the output of a call.
pub open spec fn output_rows(output: Seq<char>, width: usize) -> Seq<Seq<char>> {
    let shown = without_feeds(cleaned(output));
    if shown.len() == 0 {
        seq![]
    } else {
        wrapped(shown, less_by(width, 4))
    }
}

/// How many rows of output are shown of a call that is not expanded.
pub const SHOWN_ROWS: usize = 3;

/// How many rows of output are hidden.
pub open spec fn hidden_rows(rows: int, expanded: bool) -> int {
    if expanded || rows <= SHOWN_ROWS {
        0
    } else {
        rows - SHOWN_ROWS
    }
}

/// The words on hidden rows.
pub open spec fn hidden_words(n: nat, truncated: bool) -> Seq<char> {
    "  │ … "@ + text::decimal(n) + " "@ + (if truncated { "preview "@ } else { ""@ }) + (if n == 1 {
        "line"@
    } else {
        "lines"@
    }) + " hidden · Ctrl+O to expand"@
}

/// The row that tells of what is hidden.
pub open spec fn hidden_line(
    command: Seq<char>,
    tool: ToolView,
    width: usize,
    expanded: bool,
    rows: int,
) -> Seq<LineView> {
    let n = hidden_rows(rows, expanded);
    if n > 0 {
        seq![plain_line(hidden_words(n as nat, tool.output.truncated), Color::Gray)]
    } else if !expanded && (command.contains('\n') || text_width(command_summary(command)) > less_by(width, 2)) {
        seq![plain_line("  │ … Ctrl+O to expand"@, Color::Gray)]
    } else {
        seq![]
    }
}

/// Rows behind a beginning, in gray.
pub open spec fn gray_rows(rows: Seq<Seq<char>>, start: Seq<char>) -> Seq<LineView> {
    rows.map_values(|r: Seq<char>| plain_line(start + r, Color::Gray))
}

/// What is said below a call.
pub open spec fn footer(tool: ToolView, expanded: bool) -> Seq<char> {
    let note = match tool.status.note() {
        Some(note) => seq![note],
        None => seq![],
    };
    let parts = if tool.output.truncated {
        note.push("preview only; overflow in temp file"@)
    } else {
        note
    };
    join(parts, " · "@) + (if expanded && tool.output.truncated && tool.output.log is Some {
        "\noutput log (temporary): "@ + cleaned(tool.output.log->0)
    } else {
        seq![]
    })
}

/// The rows below a call.
pub open spec fn footer_lines(words: Seq<char>, width: usize, expanded: bool) -> Seq<LineView> {
    let room = less_by(width, 4);
    let rows = if expanded {
        wrapped(words, room)
    } else {
        seq![with_ellipsis(words, room)]
    };
    if words.len() == 0 {
        seq![]
    } else {
        Seq::new(
            rows.len(),
            |i: int| plain_line("  "@ + (if i == 0 { "└"@ } else { " "@ }) + " "@ + rows[i], Color::Gray),
        )
    }
}

/// The rows of a call: the command, the end of its output and how it ended.
pub open spec fn tool_rows(command: Seq<char>, tool: ToolView, width: usize, expanded: bool) -> Seq<LineView> {
    let shown = cleaned(command);
    let rows = output_rows(tool.output.text, width);
    let n = hidden_rows(rows.len() as int, expanded);
    command_lines(command_rows(shown, tool.status, width, expanded), status_color(tool.status)) + hidden_line(
        shown,
        tool,
        width,
        expanded,
        rows.len() as int,
    ) + gray_rows(rows.skip(n), "  │ "@) + footer_lines(footer(tool, expanded), width, expanded) + seq![
        plain_line(""@, Color::Gray),
    ]
}

fn color_of(status: ToolStatus) -> (r: Color)
    ensures
        r == status_color(status),
{
    match status {
        ToolStatus::Running => Color::Yellow,
        ToolStatus::TimedOut(_) => Color::Yellow,
        ToolStatus::Cancelled => Color::Yellow,
        ToolStatus::Exited(code) => if code == 0 {
            Color::Green
        } else {
            Color::Red
        },
        ToolStatus::Error => Color::Red,
        ToolStatus::Pending => Color::Gray,
    }
}

fn summarize(command: &[char]) -> (r: String)
    ensures
        r@ == command_summary(command@),
{
    let lines = text::line_pieces(command);
    let mut parts: Vec<Vec<char>> = Vec::new();
    let mut i: usize = 0;
    while i < lines.len()
        invariant
            i <= lines@.len(),
            parts@.len() == i,
            forall|k: int| 0 <= k < i ==> (#[trigger] parts@[k])@ == trim(lines@[k]@),
        decreases lines@.len() - i,
    {
        parts.push(text::trimmed(&lines[i]));
        i += 1;
    }
    assert(views(parts@) =~= crate::skills::trimmed_lines(views(lines@)));
    text::string(&text::joined(&parts, &text::chars(" ↵ ")))
}

/// The rows of a command as they are shown.
fn command_part(command: &[char], summary: &str, status: ToolStatus, width: usize, expanded: bool) -> (r: Vec<Line>)
    requires
        summary@ == command_summary(command@),
    ensures
        line_views(r@) == command_lines(command_rows(command@, status, width, expanded), status_color(status)),
{
    let room = width.saturating_sub(2);
    let ghost want = command_rows(command@, status, width, expanded);
    let rows: Vec<Vec<char>> = if expanded {
        wrap_chars(command, room)
    } else {
        let row = match status {
            ToolStatus::Pending => tail_ellipsis(summary, room),
            _ => ellipsis(summary, room),
        };
        let rows = vec![text::chars(&row)];
        assert(views(rows@) =~= seq![row@]);
        rows
    };
    assert(views(rows@) == want);
    let color = color_of(status);
    let mut out: Vec<Line> = Vec::new();
    let mut i: usize = 0;
    while i < rows.len()
        invariant
            i <= rows@.len(),
            want == views(rows@),
            color == status_color(status),
            out@.len() == i,
            forall|k: int| 0 <= k < i ==> (#[trigger] out@[k])@ == command_lines(want, color)[k],
        decreases rows@.len() - i,
    {
        let start = if i == 0 {
            "● "
        } else {
            "  "
        };
        let bullet = if i == 0 {
            Some(color)
        } else {
            None
        };
        let row = text::cat(start, &text::string(&rows[i]));
        out.push(Line { text: row, color: Color::Plain, bullet, italic: false });
        i += 1;
    }
    assert(line_views(out@) =~= command_lines(want, color));
    out
}

/// The row that tells of what is hidden.
fn hidden_part(
    command: &[char],
    summary: &str,
    tool: &Tool,
    width: usize,
    expanded: bool,
    rows: usize,
) -> (r: Vec<Line>)
    requires
        summary@ == command_summary(command@),
    ensures
        line_views(r@) == hidden_line(command@, tool@, width, expanded, rows as int),
{
    let mut out: Vec<Line> = Vec::new();
    let ghost want = hidden_line(command@, tool@, width, expanded, rows as int);
    if !expanded && rows > SHOWN_ROWS {
        let n: usize = rows - SHOWN_ROWS;
        let mut words = text::cat("  │ … ", &text::string(&text::number(n as u128)));
        words.append(" ");
        words.append(if tool.output.truncated { "preview " } else { "" });
        words.append(if n == 1 { "line" } else { "lines" });
        words.append(" hidden · Ctrl+O to expand");
        out.push(Line::new(words, Color::Gray));
    } else if !expanded {
        let feed = match text::find(command, '\n') {
            Some(_) => true,
            None => false,
        };
        assert(feed == command@.contains('\n'));
        if feed || measure_text(summary) > width.saturating_sub(2) {
            out.push(Line::new("  │ … Ctrl+O to expand".to_owned(), Color::Gray));
        }
    }
    assert(line_views(out@) =~= want);
    out
}

/// The rows of the output of a call.
fn output_part(output: &str, width: usize) -> (r: Vec<Vec<char>>)
    ensures
        views(r@) == output_rows(output@, width),
{
    let shown = clean_chars(&text::chars(output));
    let mut end: usize = shown.len();
    while end > 0 && shown[end - 1] == '\n'
        invariant
            end <= shown@.len(),
            forall|k: int| end <= k < shown@.len() ==> line_feed()(#[trigger] shown@[k]),
        decreases end,
    {
        end -= 1;
    }
    proof {
        text::lemma_span_back_is(shown@, line_feed(), shown@.len() - end);
    }
    let shown = text::slice(&shown, 0, end);
    assert(shown@ =~= without_feeds(cleaned(output@)));
    if shown.len() == 0 {
        let none: Vec<Vec<char>> = Vec::new();
        assert(views(none@) =~= seq![]);
        none
    } else {
        wrap_chars(&shown, width.saturating_sub(4))
    }
}

/// What is said below a call.
fn footer_words(tool: &Tool, expanded: bool) -> (r: String)
    ensures
        r@ == footer(tool@, expanded),
{
    let mut parts: Vec<Vec<char>> = Vec::new();
    let ghost note = match tool.status.note() {
        Some(note) => seq![note],
        None => seq![],
    };
    if let Some(words) = tool.status.summary() {
        parts.push(text::chars(&words));
    }
    assert(views(parts@) =~= note);
    if tool.output.truncated {
        let ghost done = views(parts@);
        let words = text::chars("preview only; overflow in temp file");
        parts.push(words);
        assert(views(parts@) =~= done.push(words@));
    }
    let mut out = text::string(&text::joined(&parts, &text::chars(" · ")));
    let ghost joined = out@;
    assert(joined + Seq::<char>::empty() =~= joined);
    if expanded && tool.output.truncated {
        if let Some(log) = &tool.output.log {
            out.append("\noutput log (temporary): ");
            out.append(&clean(log));
            assert(out@ =~= footer(tool@, expanded));
        }
    }
    out
}

/// The rows below a call.
fn footer_part(words: &str, width: usize, expanded: bool) -> (r: Vec<Line>)
    ensures
        line_views(r@) == footer_lines(words@, width, expanded),
{
    let room = width.saturating_sub(4);
    let ghost want = footer_lines(words@, width, expanded);
    let mut out: Vec<Line> = Vec::new();
    if words.is_empty() {
        assert(line_views(out@) =~= want);
        return out;
    }
    let rows: Vec<Vec<char>> = if expanded {
        wrap_chars(&text::chars(words), room)
    } else {
        let row = ellipsis(words, room);
        let rows = vec![text::chars(&row)];
        assert(views(rows@) =~= seq![row@]);
        rows
    };
    let ghost all = views(rows@);
    let mut i: usize = 0;
    while i < rows.len()
        invariant
            i <= rows@.len(),
            all == views(rows@),
            want == footer_lines(words@, width, expanded),
            words@.len() > 0,
            want.len() == all.len(),
            forall|k: int|
                0 <= k < all.len() ==> #[trigger] want[k] == plain_line(
                    "  "@ + (if k == 0 { "└"@ } else { " "@ }) + " "@ + all[k],
                    Color::Gray,
                ),
            out@.len() == i,
            forall|k: int| 0 <= k < i ==> (#[trigger] out@[k])@ == want[k],
        decreases rows@.len() - i,
    {
        let mut row = text::cat("  ", if i == 0 { "└" } else { " " });
        row.append(" ");
        row.append(&text::string(&rows[i]));
        out.push(Line::new(row, Color::Gray));
        i += 1;
    }
    assert(line_views(out@) =~= want);
    out
}

/// The rows of a call.
pub fn tool_lines(command: &str, tool: &Tool, width: usize, expanded: bool) -> (r: Vec<Line>)
    ensures
        line_views(r@) == tool_rows(command@, tool@, width, expanded),
{
    let shown = clean_chars(&text::chars(command));
    let summary = summarize(&shown);
    let mut out = command_part(&shown, &summary, tool.status, width, expanded);
    let rows = output_part(&tool.output.text, width);
    let ghost all = views(rows@);
    let mut hidden = hidden_part(&shown, &summary, tool, width, expanded, rows.len());
    let ghost part1 = line_views(out@);
    let ghost part2 = line_views(hidden@);
    out.append(&mut hidden);
    assert(line_views(out@) =~= part1 + part2);
    let start: usize = if expanded {
        0
    } else {
        rows.len().saturating_sub(SHOWN_ROWS)
    };
    let ghost n = hidden_rows(all.len() as int, expanded);
    assert(start == n);
    let ghost part3 = gray_rows(all.skip(n), "  │ "@);
    let mut i: usize = start;
    assert(part3.take(0) =~= seq![]);
    while i < rows.len()
        invariant
            start <= i <= rows@.len(),
            all == views(rows@),
            n == start,
            part3 == gray_rows(all.skip(n), "  │ "@),
            line_views(out@) == part1 + part2 + part3.take(i - start),
        decreases rows@.len() - i,
    {
        let ghost done = line_views(out@);
        let line = Line::new(text::cat("  │ ", &text::string(&rows[i])), Color::Gray);
        out.push(line);
        proof {
            assert(part3[i - start] == line@);
            assert(line_views(out@) =~= done.push(line@));
            assert(part3.take(i + 1 - start) =~= part3.take(i - start).push(line@));
            assert(line_views(out@) =~= part1 + part2 + part3.take(i + 1 - start));
        }
        i += 1;
    }
    assert(part3.take(rows@.len() - start) =~= part3);
    let ghost before = line_views(out@);
    let mut below = footer_part(&footer_words(tool, expanded), width, expanded);
    let ghost part4 = line_views(below@);
    out.append(&mut below);
    assert(line_views(out@) =~= before + part4);
    let ghost before = line_views(out@);
    let blank = Line::new("".to_owned(), Color::Gray);
    out.push(blank);
    assert(line_views(out@) =~= before + seq![blank@]);
    out
}

/// Whether a row fences code.
pub open spec fn fences(row: Seq<char>) -> bool {
    "```"@.is_prefix_of(text::trim_start(row))
}

/// Whether row `i` stands behind the fence that begins code.
pub open spec fn in_code(rows: Seq<Seq<char>>, i: int) -> bool
    decreases i,
{
    if i <= 0 {
        false
    } else {
        in_code(rows, i - 1) != fences(rows[i - 1])
    }
}

/// The color of a row of the model's text.
pub open spec fn text_color(row: Seq<char>, code: bool) -> Color {
    let start = text::trim_start(row);
    if fences(row) {
        Color::Gray
    } else if code || "#"@.is_prefix_of(start) || "> "@.is_prefix_of(start) {
        Color::Accent
    } else {
        Color::Plain
    }
}

/// The color of row `i` of a block.
pub open spec fn row_color(kind: Kind, rows: Seq<Seq<char>>, i: int) -> Color {
    match kind {
        Kind::User => Color::Accent,
        Kind::Agent => text_color(rows[i], in_code(rows, i)),
        _ => Color::Gray,
    }
}

/// The rows of a text of the user or the model, as they are shown.
pub open spec fn text_lines(kind: Kind, rows: Seq<Seq<char>>) -> Seq<LineView> {
    Seq::new(
        rows.len(),
        |i: int|
            LineView {
                text: (if i == 0 && kind == Kind::User { "› "@ } else { "  "@ }) + rows[i],
                color: row_color(kind, rows, i),
                bullet: None,
                italic: kind == Kind::Thought,
            },
    )
}

/// How many rows are shown of a thought that is not expanded.
pub const THOUGHT_ROWS: usize = 2;

/// Whether rows are hidden.
pub open spec fn collapses(kind: Kind, rows: int, expanded: bool) -> bool {
    !expanded && kind == Kind::Thought && rows > THOUGHT_ROWS
}

/// The rows of a text of the user or the model.
pub open spec fn text_rows(kind: Kind, source: Seq<char>, width: usize, expanded: bool) -> Seq<LineView> {
    let shown = cleaned(source);
    let rows = wrapped(shown, less_by(width, 2));
    if shown.len() == 0 && kind == Kind::Thought {
        seq![]
    } else if collapses(kind, rows.len() as int, expanded) {
        text_lines(kind, rows.take(THOUGHT_ROWS as int)) + seq![
            LineView { text: "  … Ctrl+O to expand"@, color: Color::Gray, bullet: None, italic: true },
            plain_line(""@, Color::Gray),
        ]
    } else {
        text_lines(kind, rows) + seq![plain_line(""@, Color::Gray)]
    }
}

/// The rows of a notice.
pub open spec fn notice_rows(source: Seq<char>, width: usize) -> Seq<LineView> {
    wrapped("! "@ + cleaned(source), width).map_values(|r: Seq<char>| plain_line(r, Color::Yellow))
}

/// The rows of a block.
pub open spec fn block_rows(block: BlockView, width: usize, expanded: bool) -> Seq<LineView> {
    match block.kind {
        Kind::Call => tool_rows(block.text, block.tool->0, width, expanded),
        Kind::Notice => notice_rows(block.text, width),
        Kind::Warning => notice_rows(block.text, width),
        kind => text_rows(kind, block.text, width, expanded),
    }
}

fn is_fence(start: &[char]) -> (r: bool)
    ensures
        r == "```"@.is_prefix_of(start@),
{
    text::starts_with(start, &text::chars("```"))
}

/// The rows of a text of the user or the model, as they are shown.
fn show_text(kind: Kind, rows: &Vec<Vec<char>>, n: usize) -> (r: Vec<Line>)
    requires
        n <= rows@.len(),
        kind == Kind::User || kind == Kind::Agent || kind == Kind::Thought,
    ensures
        line_views(r@) == text_lines(kind, views(rows@).take(n as int)),
{
    let ghost all = views(rows@).take(n as int);
    let ghost want = text_lines(kind, all);
    let mut out: Vec<Line> = Vec::new();
    let mut code = false;
    let mut i: usize = 0;
    while i < n
        invariant
            i <= n <= rows@.len(),
            all == views(rows@).take(n as int),
            want == text_lines(kind, all),
            kind == Kind::User || kind == Kind::Agent || kind == Kind::Thought,
            code == in_code(all, i as int),
            out@.len() == i,
            forall|k: int| 0 <= k < i ==> (#[trigger] out@[k])@ == want[k],
        decreases n - i,
    {
        let row = &rows[i];
        assert(all[i as int] == row@);
        let start = text::trimmed_start(row);
        let fence = is_fence(&start);
        let color = match kind {
            Kind::User => Color::Accent,
            Kind::Agent => if fence {
                Color::Gray
            } else if code || text::starts_with(&start, &text::chars("#")) || text::starts_with(
                &start,
                &text::chars("> "),
            ) {
                Color::Accent
            } else {
                Color::Plain
            },
            _ => Color::Gray,
        };
        code = code != fence;
        let user = match kind {
            Kind::User => true,
            _ => false,
        };
        let italic = match kind {
            Kind::Thought => true,
            _ => false,
        };
        let beginning = if i == 0 && user {
            "› "
        } else {
            "  "
        };
        out.push(Line { text: text::cat(beginning, &text::string(row)), color, bullet: None, italic });
        i += 1;
    }
    assert(line_views(out@) =~= want);
    out
}

impl Block {
    /// A call is shown with what its tool says.
    pub open spec fn wf(&self) -> bool {
        self@.wf()
    }
}

impl BlockView {
    /// A call is shown with what its tool says.
    pub open spec fn wf(self) -> bool {
        self.kind == Kind::Call ==> self.tool is Some
    }
}

/// The rows of a block.
pub fn block_lines(block: &Block, width: usize, expanded: bool) -> (r: Vec<Line>)
    requires
        block.wf(),
    ensures
        line_views(r@) == block_rows(block@, width, expanded),
{
    match block.kind {
        Kind::Call => match &block.tool {
            Some(tool) => tool_lines(&block.text, tool, width, expanded),
            None => vstd::pervasive::unreached(),
        },
        Kind::Notice => notice_lines(&block.text, width),
        Kind::Warning => notice_lines(&block.text, width),
        kind => {
            let shown = clean_chars(&text::chars(&block.text));
            let thought = match kind {
                Kind::Thought => true,
                _ => false,
            };
            if shown.len() == 0 && thought {
                let none: Vec<Line> = Vec::new();
                assert(line_views(none@) =~= seq![]);
                return none;
            }
            let rows = wrap_chars(&shown, width.saturating_sub(2));
            let ghost all = views(rows@);
            let collapsed = !expanded && thought && rows.len() > THOUGHT_ROWS;
            let n: usize = if collapsed {
                THOUGHT_ROWS
            } else {
                rows.len()
            };
            assert(all.take(all.len() as int) =~= all);
            let mut out = show_text(kind, &rows, n);
            if collapsed {
                out.push(
                    Line { text: "  … Ctrl+O to expand".to_owned(), color: Color::Gray, bullet: None, italic: true },
                );
            }
            out.push(Line::new("".to_owned(), Color::Gray));
            assert(line_views(out@) =~= block_rows(block@, width, expanded));
            out
        },
    }
}

/// The rows of a notice.
fn notice_lines(source: &str, width: usize) -> (r: Vec<Line>)
    ensures
        line_views(r@) == notice_rows(source@, width),
{
    let rows = wrap(&text::cat("! ", &clean(source)), width);
    let mut out: Vec<Line> = Vec::new();
    let mut i: usize = 0;
    while i < rows.len()
        invariant
            i <= rows@.len(),
            out@.len() == i,
            forall|k: int| 0 <= k < i ==> (#[trigger] out@[k])@ == plain_line(rows@[k]@, Color::Yellow),
        decreases rows@.len() - i,
    {
        out.push(Line::new(rows[i].clone(), Color::Yellow));
        i += 1;
    }
    assert(line_views(out@) =~= notice_rows(source@, width)) by {
        assert(text::texts(rows@) == wrapped("! "@ + cleaned(source@), width));
        assert forall|k: int| 0 <= k < out@.len() implies line_views(out@)[k] == notice_rows(source@, width)[k] by {
            assert(text::texts(rows@)[k] == rows@[k]@);
        }
    }
    out
}

proof fn lemma_sequence_end_behind(s: Seq<char>, k: int, i: int)
    requires
        0 <= k <= s.len(),
        0 <= i <= s.len() - k,
    ensures
        sequence_end(s, k + i) == k + sequence_end(s.skip(k), i),
    decreases s.len() - k - i,
{
    if i < s.len() - k {
        assert(s.skip(k)[i] == s[k + i]);
        lemma_sequence_end_behind(s, k, i + 1);
    }
}

proof fn lemma_string_end_behind(s: Seq<char>, k: int, i: int, after: bool)
    requires
        0 <= k <= s.len(),
        0 <= i <= s.len() - k,
    ensures
        string_end(s, k + i, after) == k + string_end(s.skip(k), i, after),
    decreases s.len() - k - i,
{
    if i < s.len() - k {
        assert(s.skip(k)[i] == s[k + i]);
        lemma_string_end_behind(s, k, i + 1, s[k + i] == escape());
    }
}

/// What stands before a text does not change how it is cleaned.
proof fn lemma_cleaned_behind(s: Seq<char>, k: int, i: int)
    requires
        0 <= k <= s.len(),
        0 <= i <= s.len() - k,
    ensures
        cleaned_from(s, k + i) == cleaned_from(s.skip(k), i),
    decreases s.len() - k - i,
{
    let t = s.skip(k);
    if i < s.len() - k {
        assert(t[i] == s[k + i]);
        if s[k + i] == escape() {
            if i + 1 < t.len() {
                assert(t[i + 1] == s[k + i + 1]);
                lemma_sequence_end_behind(s, k, i + 2);
                lemma_string_end_behind(s, k, i + 2, false);
                lemma_sequence_end(t, i + 2);
                lemma_string_end(t, i + 2, false);
            }
            lemma_cleaned_behind(s, k, behind_escape(t, i));
        } else {
            lemma_cleaned_behind(s, k, i + 1);
        }
    }
}

proof fn lemma_cleaned_rest(start: Seq<char>, rest: Seq<char>)
    ensures
        cleaned_from(start + rest, start.len() as int) == cleaned(rest),
{
    lemma_cleaned_behind(start + rest, start.len() as int, 0);
    assert((start + rest).skip(start.len() as int) =~= rest);
}

/// Characters that are seen and line feeds are kept, a tab becomes four spaces,
/// and the other characters that control are left out; what follows is cleaned
/// as if it stood alone.
pub proof fn law_characters_are_cleaned(c: char, rest: Seq<char>)
    ensures
        c == '\n' || !is_control(c) ==> cleaned(seq![c] + rest) == seq![c] + cleaned(rest),
        c == '\t' ==> cleaned(seq![c] + rest) == seq![' ', ' ', ' ', ' '] + cleaned(rest),
        is_control(c) && c != '\n' && c != '\t' && c != '\u{1b}' ==> cleaned(seq![c] + rest) == cleaned(rest),
        cleaned(seq![]) == Seq::<char>::empty(),
{
    lemma_cleaned_rest(seq![c], rest);
    reveal_strlit("    ");
    assert("    "@ =~= seq![' ', ' ', ' ', ' ']);
    assert(is_control('\t'));
    assert(is_control('\u{1b}'));
    let s = seq![c] + rest;
    assert(s[0] == c);
    assert(Seq::<char>::empty() + cleaned(rest) =~= cleaned(rest));
}

/// A control sequence is left out with its parameters and its final character;
/// one that does not end is left out up to the end.
pub proof fn law_sequences_are_left_out(parameters: Seq<char>, last: char, rest: Seq<char>)
    requires
        forall|k: int| 0 <= k < parameters.len() ==> !('@' <= #[trigger] parameters[k] && parameters[k] <= '~'),
        '@' <= last && last <= '~',
    ensures
        cleaned(seq!['\u{1b}', '['] + parameters + seq![last] + rest) == cleaned(rest),
        cleaned(seq!['\u{1b}', '['] + parameters) == Seq::<char>::empty(),
{
    let start = seq!['\u{1b}', '['] + parameters;
    let whole = start + seq![last];
    let s = whole + rest;
    lemma_cleaned_rest(whole, rest);
    assert forall|k: int| 2 <= k < start.len() implies !('@' <= #[trigger] s[k] && s[k] <= '~') && s[k] == start[k] by {
        assert(s[k] == parameters[k - 2]);
    }
    assert(s[start.len() as int] == last);
    lemma_sequence_ends(s, 2, start.len() as int);
    assert(s[0] == '\u{1b}' && s[1] == '[');
    assert(behind_escape(s, 0) == whole.len());
    assert forall|k: int| 2 <= k < start.len() implies !('@' <= #[trigger] start[k] && start[k] <= '~') by {
        assert(start[k] == parameters[k - 2]);
    }
    lemma_sequence_ends(start, 2, start.len() as int);
    assert(start[0] == '\u{1b}' && start[1] == '[');
    assert(behind_escape(start, 0) == start.len());
    assert(cleaned_from(start, start.len() as int) =~= seq![]);
}

proof fn lemma_sequence_ends(s: Seq<char>, i: int, n: int)
    requires
        0 <= i <= n <= s.len(),
        forall|k: int| i <= k < n ==> !('@' <= #[trigger] s[k] && s[k] <= '~'),
        n < s.len() ==> '@' <= s[n] && s[n] <= '~',
    ensures
        sequence_end(s, i) == (if n < s.len() {
            n + 1
        } else {
            n
        }),
    decreases n - i,
{
    if i < n {
        lemma_sequence_ends(s, i + 1, n);
    }
}

/// A control string is left out up to a bell, or up to an escape with a
/// backslash behind it; one that does not end is left out up to the end.
pub proof fn law_strings_are_left_out(k: char, content: Seq<char>, rest: Seq<char>)
    requires
        k == ']' || k == 'P' || k == '_' || k == '^',
        forall|j: int| 0 <= j < content.len() ==> #[trigger] content[j] != '\u{7}' && content[j] != '\u{1b}',
    ensures
        cleaned(seq!['\u{1b}', k] + content + seq!['\u{7}'] + rest) == cleaned(rest),
        cleaned(seq!['\u{1b}', k] + content + seq!['\u{1b}', '\\'] + rest) == cleaned(rest),
        cleaned(seq!['\u{1b}', k] + content) == Seq::<char>::empty(),
{
    let start = seq!['\u{1b}', k] + content;
    let n = start.len() as int;
    let a = start + seq!['\u{7}'];
    let b = start + seq!['\u{1b}', '\\'];
    lemma_cleaned_rest(a, rest);
    lemma_cleaned_rest(b, rest);
    assert forall|j: int| 2 <= j < n implies #[trigger] start[j] != '\u{7}' && start[j] != '\u{1b}' by {
        assert(start[j] == content[j - 2]);
    }
    assert forall|j: int| 2 <= j < n implies #[trigger] (a + rest)[j] != '\u{7}' && (a + rest)[j] != '\u{1b}' by {
        assert((a + rest)[j] == start[j]);
    }
    assert forall|j: int| 2 <= j < n implies #[trigger] (b + rest)[j] != '\u{7}' && (b + rest)[j] != '\u{1b}' by {
        assert((b + rest)[j] == start[j]);
    }
    lemma_string_goes_on(start, 2, n);
    lemma_string_goes_on(a + rest, 2, n);
    lemma_string_goes_on(b + rest, 2, n);
    assert((a + rest)[0] == '\u{1b}' && (a + rest)[1] == k && (a + rest)[n] == '\u{7}');
    assert((b + rest)[0] == '\u{1b}' && (b + rest)[1] == k && (b + rest)[n] == '\u{1b}' && (b + rest)[n + 1] == '\\');
    assert(start[0] == '\u{1b}' && start[1] == k);
    reveal_with_fuel(string_end, 3);
    assert(behind_escape(a + rest, 0) == n + 1);
    assert(behind_escape(b + rest, 0) == n + 2);
    assert(behind_escape(start, 0) == n);
    assert(cleaned_from(start, n) =~= seq![]);
}

proof fn lemma_string_goes_on(s: Seq<char>, i: int, n: int)
    requires
        0 <= i <= n <= s.len(),
        forall|k: int| i <= k < n ==> #[trigger] s[k] != '\u{7}' && s[k] != '\u{1b}',
    ensures
        string_end(s, i, false) == string_end(s, n, false),
    decreases n - i,
{
    if i < n {
        lemma_string_goes_on(s, i + 1, n);
    }
}

/// Any other escape is left out with the character behind it.
pub proof fn law_short_escapes_are_left_out(c: char, rest: Seq<char>)
    ensures
        c != '[' && c != ']' && c != 'P' && c != '_' && c != '^' ==> cleaned(seq!['\u{1b}', c] + rest) == cleaned(rest),
        cleaned(seq!['\u{1b}']) == Seq::<char>::empty(),
{
    let s = seq!['\u{1b}', c] + rest;
    lemma_cleaned_rest(seq!['\u{1b}', c], rest);
    assert(s[0] == '\u{1b}' && s[1] == c);
    let t = seq!['\u{1b}'];
    assert(behind_escape(t, 0) == 1);
    assert(cleaned_from(t, 1) =~= seq![]);
}

/// How a text runs over rows: a line feed begins a row, a character stands
/// behind the others where it fits and begins a row where it does not, and one
/// that is wider than a row is left out but still ends the row.
pub proof fn law_text_runs_over_rows(s: Seq<char>, c: char, width: usize)
    requires
        width > 0,
    ensures
        ({
            let before = wrapped(s, width);
            let row = before.last();
            let after = wrapped(s.push(c), width);
            &&& before.len() > 0
            &&& c == '\n' ==> after == before.push(seq![])
            &&& c != '\n' && columns(row) + char_width(c) <= width ==> after == before.drop_last().push(row.push(c))
            &&& c != '\n' && char_width(c) <= width < columns(row) + char_width(c) ==> after == before.push(seq![c])
            &&& c != '\n' && char_width(c) > width && row.len() > 0 ==> after == before.push(seq![])
            &&& c != '\n' && char_width(c) > width && row.len() == 0 ==> after == before
        }),
        wrapped(seq![], width) == seq![Seq::<char>::empty()],
        wrapped(s, 0) == wrapped(s, 1),
{
    let f = flow(s, measured(s), width);
    let g = flow(s.push(c), measured(s.push(c)), width);
    let before = wrapped(s, width);
    assert(s.push(c).drop_last() =~= s);
    assert(measured(s.push(c)).drop_last() =~= measured(s));
    assert(measured(s.push(c)).last() == char_width(c));
    law_rows_fit(s, width);
    lemma_empty_row(s, measured(s), width);
    assert(before.drop_last() =~= f.rows);
    assert(Seq::<char>::empty().push(c) =~= seq![c]);
    assert(measured(Seq::<char>::empty()) =~= seq![]);
    assert(wrapped(seq![], width) =~= seq![Seq::<char>::empty()]);
}

/// A text in one line that holds nothing wider than a row is cut at the row's
/// end: its first row is as much of it as fits.
proof fn lemma_first_row(s: Seq<char>, width: usize) -> (n: int)
    requires
        width > 0,
        forall|k: int| 0 <= k < s.len() ==> #[trigger] s[k] != '\n' && char_width(s[k]) <= width,
    ensures
        0 <= n <= s.len(),
        wrapped(s, width)[0] == s.take(n),
        columns(s.take(n)) <= width,
        n == s.len() <==> wrapped(s, width).len() == 1,
        n < s.len() ==> columns(s.take(n + 1)) > width,
    decreases s.len(),
{
    if s.len() == 0 {
        law_text_runs_over_rows(s, ' ', width);
        assert(s =~= seq![]);
        assert(s.take(0) =~= s);
        assert(measured(s) =~= seq![]);
        0
    } else {
        let t = s.drop_last();
        let c = s.last();
        assert(c == s[s.len() - 1]);
        assert forall|k: int| 0 <= k < t.len() implies #[trigger] t[k] != '\n' && char_width(t[k]) <= width by {
            assert(t[k] == s[k]);
        }
        let n = lemma_first_row(t, width);
        law_text_runs_over_rows(t, c, width);
        lemma_columns_push(t, c);
        assert(t.push(c) =~= s);
        assert(t.take(n) =~= s.take(n));
        if n < t.len() {
            assert(t.take(n + 1) =~= s.take(n + 1));
            n
        } else {
            assert(t.take(n) =~= t);
            if columns(t) + char_width(c) <= width {
                assert(s.take(s.len() as int) =~= s);
                assert(wrapped(s, width)[0] == s);
                s.len() as int
            } else {
                assert(s.take(n + 1) =~= s);
                n
            }
        }
    }
}

/// A text is clipped to one line, with spaces for line feeds: all of it where it
/// fits, and else as much of its beginning as fits.
pub proof fn law_lines_are_clipped_at_the_end(s: Seq<char>, width: usize)
    requires
        width > 0,
        forall|k: int| 0 <= k < cleaned(s).len() ==> char_width(#[trigger] cleaned(s)[k]) <= width,
        char_width(' ') <= width,
    ensures
        ({
            let line = cleaned(s).map_values(|c: char| if c == '\n' { ' ' } else { c });
            let r = clipped(s, width);
            &&& r == line.take(r.len() as int) && r.len() <= line.len()
            &&& columns(r) <= width
            &&& r.len() < line.len() ==> columns(line.take(r.len() as int + 1)) > width
            &&& columns(line) <= width ==> r == line
        }),
{
    let line = cleaned(s).map_values(|c: char| if c == '\n' { ' ' } else { c });
    assert(line =~= one_line(cleaned(s)));
    assert forall|k: int| 0 <= k < line.len() implies #[trigger] line[k] != '\n' && char_width(line[k]) <= width by {
        assert(line[k] == if cleaned(s)[k] == '\n' { ' ' } else { cleaned(s)[k] });
    }
    let n = lemma_first_row(line, width);
    assert(line.take(line.len() as int) =~= line);
    if columns(line) <= width && n < line.len() {
        lemma_columns_rise(line, n + 1);
    }
}

proof fn lemma_columns_rise(s: Seq<char>, n: int)
    requires
        0 <= n <= s.len(),
    ensures
        columns(s.take(n)) <= columns(s),
    decreases s.len() - n,
{
    if n < s.len() {
        lemma_columns_rise(s, n + 1);
        lemma_columns_push(s.take(n), s[n]);
        assert(s.take(n).push(s[n]) =~= s.take(n + 1));
    } else {
        assert(s.take(n) =~= s);
    }
}

/// A text that fits is shown as it is, and of one that does not fit the
/// beginning with a mark behind it.
pub proof fn law_long_texts_end_with_a_mark(s: Seq<char>, columns: usize, width: usize)
    ensures
        columns <= width ==> shortened(s, columns, width) == s,
        columns > width > 1 ==> shortened(s, columns, width) == clipped(s, (width - 1) as usize) + seq!['…'],
        columns > width == 1 ==> shortened(s, columns, width) == seq!['…'],
        columns > width == 0 ==> shortened(s, columns, width) == Seq::<char>::empty(),
        with_ellipsis(s, width) == shortened(s, text_width(s), width),
{
    reveal_strlit("…");
    assert("…"@ =~= seq!['…']);
}

proof fn lemma_fitting_end(widths: Seq<usize>, room: int)
    requires
        room >= 0,
    ensures
        ({
            let n = fitting_end(widths, room);
            &&& n <= widths.len()
            &&& row_width(widths.skip(widths.len() - n)) <= room
            &&& n < widths.len() ==> row_width(widths.skip(widths.len() - n - 1)) > room
        }),
    decreases widths.len(),
{
    let len = widths.len() as int;
    if len == 0 {
        assert(widths.skip(0) =~= seq![]);
    } else if widths.last() > room {
        assert(widths.skip(len) =~= seq![]);
        let one = widths.skip(len - 1);
        assert(one.drop_last() =~= seq![]);
        assert(row_width(one.drop_last()) == 0);
        assert(row_width(one) == one.last());
    } else {
        let rest = widths.drop_last();
        let less = room - widths.last();
        lemma_fitting_end(rest, less);
        let n = fitting_end(rest, less) as int;
        let a = widths.skip(len - n - 1);
        assert(a.drop_last() =~= rest.skip(rest.len() - n));
        assert(row_width(a) == row_width(rest.skip(rest.len() - n)) + widths.last());
        if n < rest.len() {
            let b = widths.skip(len - n - 2);
            assert(b.drop_last() =~= rest.skip(rest.len() - n - 1));
            assert(row_width(b) == row_width(rest.skip(rest.len() - n - 1)) + widths.last());
        }
    }
}

/// Of a text whose end is shown, a mark stands before as much of its end as fits
/// behind it; one that fits is shown as it is.
pub proof fn law_long_texts_begin_with_a_mark(s: Seq<char>, columns: usize, widths: Seq<usize>, width: usize)
    requires
        widths.len() == s.len(),
    ensures
        columns <= width ==> shortened_front(s, columns, widths, width) == s,
        columns > width == 1 ==> shortened_front(s, columns, widths, width) == seq!['…'],
        columns > width == 0 ==> shortened_front(s, columns, widths, width) == Seq::<char>::empty(),
        columns > width > 1 ==> ({
            let r = shortened_front(s, columns, widths, width);
            let left = s.len() + 1 - r.len();
            &&& 0 <= left <= s.len()
            &&& r == seq!['…'] + s.skip(left)
            &&& row_width(widths.skip(left)) <= width - 1
            &&& left > 0 ==> row_width(widths.skip(left - 1)) > width - 1
        }),
        with_front_ellipsis(s, width) == shortened_front(s, text_width(s), s.map_values(|c: char| char_width(c)), width),
{
    reveal_strlit("…");
    assert("…"@ =~= seq!['…']);
    assert(s.map_values(|c: char| char_width(c)) =~= measured(s));
    if width > 1 {
        lemma_fitting_end(widths, width - 1);
    }
}

/// A command of several lines is told in one: its lines, without the space
/// around them, with a mark between them.
pub proof fn law_commands_are_told_in_one_line(line: Seq<char>, rest: Seq<char>)
    requires
        !line.contains('\n'),
        rest.len() > 0,
    ensures
        line.len() > 0 ==> command_summary(line) == trim(line),
        line.len() == 0 || line.last() != '\r' ==> command_summary(line.push('\n') + rest) == trim(line) + " ↵ "@
            + command_summary(rest),
{
    let whole = line.push('\n') + rest;
    text::lemma_span(line, text::other_than('\n'));
    text::lemma_span(whole, text::other_than('\n'));
    let i = text::first(whole, '\n');
    let n = line.len() as int;
    assert(whole[n] == '\n');
    if i < n {
        assert(whole[i] == line[i]);
        assert(line.contains(line[i]));
    }
    let j = text::first(line, '\n');
    if j < n {
        assert(line.contains(line[j]));
    }
    assert(whole.take(n) =~= line);
    assert(whole.skip(n + 1) =~= rest);
    let ls = text::lines(rest);
    let ts = crate::skills::trimmed_lines(ls);
    assert(crate::skills::trimmed_lines(seq![line]) =~= seq![trim(line)]);
    assert(crate::skills::trimmed_lines(seq![line] + ls) =~= seq![trim(line)] + ts);
    assert(ls.len() > 0);
    text::lemma_join_first(seq![trim(line)] + ts, " ↵ "@);
    assert((seq![trim(line)] + ts).drop_first() =~= ts);
}

/// The first row of a call begins with a bullet whose color tells how it went:
/// green for a success, red for a failure, yellow for one that runs or was
/// stopped, and gray for one that is still being written. No other row of the
/// command has a bullet, and an empty row ends the call.
pub proof fn law_bullets_tell_how_it_went(b: BlockView, width: usize, expanded: bool, k: int)
    requires
        b.kind == Kind::Call,
        b.tool is Some,
        0 <= k < block_rows(b, width, expanded).len(),
    ensures
        ({
            let rows = block_rows(b, width, expanded);
            let status = b.tool->0.status;
            &&& rows.len() >= 2
            &&& rows[0].bullet == Some(
                match status {
                    ToolStatus::Exited(code) => if code == 0 {
                        Color::Green
                    } else {
                        Color::Red
                    },
                    ToolStatus::Error => Color::Red,
                    ToolStatus::Pending => Color::Gray,
                    _ => Color::Yellow,
                },
            )
            &&& "● "@.is_prefix_of(rows[0].text)
            &&& rows[0].color == Color::Plain
            &&& k > 0 ==> rows[k].bullet is None
            &&& !rows[k].italic
            &&& rows.last() == LineView { text: ""@, color: Color::Gray, bullet: None, italic: false }
        }),
{
    let tool = b.tool->0;
    let shown = cleaned(b.text);
    let rows = command_rows(shown, tool.status, width, expanded);
    assert(rows.len() > 0);
    let first = command_lines(rows, status_color(tool.status));
    let all = block_rows(b, width, expanded);
    assert(all[0] == first[0]);
    assert("● "@.is_prefix_of(first[0].text)) by {
        assert(first[0].text.take("● "@.len() as int) =~= "● "@);
    }
    if 0 < k < first.len() {
        assert(all[k] == first[k]);
    }
}

/// An expanded call shows its command over as many rows as it takes, then every
/// row of its output.
pub proof fn law_expanded_calls_show_everything(b: BlockView, width: usize, k: int)
    requires
        width >= 4,
        b.kind == Kind::Call,
        b.tool is Some,
        harmless(b.tool->0.output.text),
        b.tool->0.output.text.len() > 0,
        b.tool->0.output.text.last() != '\n',
    ensures
        ({
            let rows = block_rows(b, width, true);
            let command = wrapped(cleaned(b.text), (width - 2) as usize);
            let output = wrapped(b.tool->0.output.text, (width - 4) as usize);
            &&& rows.len() >= command.len() + output.len() + 1
            &&& 0 <= k < command.len() ==> rows[k].text == (if k == 0 { "● "@ } else { "  "@ }) + command[k]
                && rows[k].color == Color::Plain
            &&& 0 <= k < output.len() ==> rows[command.len() + k] == (LineView {
                text: "  │ "@ + output[k],
                color: Color::Gray,
                bullet: None,
                italic: false,
            })
            &&& b.tool->0.status.note() is None && !b.tool->0.output.truncated ==> rows.len() == command.len()
                + output.len() + 1
        }),
{
    let tool = b.tool->0;
    let o = tool.output.text;
    law_harmless_is_kept(o);
    lemma_nothing_trimmed(o);
    let shown = cleaned(b.text);
    let rows = output_rows(o, width);
    let command = command_rows(shown, tool.status, width, true);
    let first = command_lines(command, status_color(tool.status));
    assert(hidden_line(shown, tool, width, true, rows.len() as int) =~= seq![]);
    assert(rows.skip(0) =~= rows);
    let all = block_rows(b, width, true);
    if 0 <= k < command.len() {
        assert(all[k] == first[k]);
    }
    if 0 <= k < rows.len() {
        assert(all[command.len() + k] == gray_rows(rows, "  │ "@)[k]);
    }
    if tool.status.note() is None && !tool.output.truncated {
        assert(footer(tool, true) =~= seq![]);
    }
}

proof fn lemma_nothing_trimmed(s: Seq<char>)
    requires
        s.len() > 0,
        s.last() != '\n',
    ensures
        without_feeds(s) == s,
{
    assert(text::span_back(s, line_feed()) == 0);
    assert(s.take(s.len() as int) =~= s);
}

/// A call that is not expanded shows its command in one row and no more than the
/// last three rows of its output; it tells how many are hidden.
pub proof fn law_long_output_is_hidden(b: BlockView, width: usize, k: int)
    requires
        width >= 4,
        b.kind == Kind::Call,
        b.tool is Some,
        harmless(b.tool->0.output.text),
        b.tool->0.output.text.len() > 0,
        b.tool->0.output.text.last() != '\n',
    ensures
        ({
            let rows = block_rows(b, width, false);
            let output = wrapped(b.tool->0.output.text, (width - 4) as usize);
            let n = output.len();
            let summary = command_summary(cleaned(b.text));
            let tells = cleaned(b.text).contains('\n') || text_width(summary) > width - 2;
            let top = if n > 3 || tells {
                2int
            } else {
                1int
            };
            let shown = if n > 3 {
                3int
            } else {
                n as int
            };
            &&& b.tool->0.status != ToolStatus::Pending ==> rows[0].text == "● "@ + with_ellipsis(
                summary,
                (width - 2) as usize,
            )
            &&& b.tool->0.status == ToolStatus::Pending ==> rows[0].text == "● "@ + with_front_ellipsis(
                summary,
                (width - 2) as usize,
            )
            &&& n > 3 ==> rows[1] == (LineView {
                text: "  │ … "@ + text::decimal((n - 3) as nat) + " "@ + (if b.tool->0.output.truncated {
                    "preview "@
                } else {
                    ""@
                }) + (if n == 4 { "line"@ } else { "lines"@ }) + " hidden · Ctrl+O to expand"@,
                color: Color::Gray,
                bullet: None,
                italic: false,
            })
            &&& n <= 3 && tells ==> rows[1] == (LineView {
                text: "  │ … Ctrl+O to expand"@,
                color: Color::Gray,
                bullet: None,
                italic: false,
            })
            &&& 0 <= k < shown ==> rows[top + k] == (LineView {
                text: "  │ "@ + output[n - shown + k],
                color: Color::Gray,
                bullet: None,
                italic: false,
            })
            &&& rows.len() == top + shown + (if b.tool->0.status.note() is Some || b.tool->0.output.truncated {
                2int
            } else {
                1
            })
        }),
{
    let tool = b.tool->0;
    let o = tool.output.text;
    law_harmless_is_kept(o);
    lemma_nothing_trimmed(o);
    let shown = cleaned(b.text);
    let rows = output_rows(o, width);
    let n = hidden_rows(rows.len() as int, false);
    let command = command_rows(shown, tool.status, width, false);
    let first = command_lines(command, status_color(tool.status));
    let second = hidden_line(shown, tool, width, false, rows.len() as int);
    let third = gray_rows(rows.skip(n), "  │ "@);
    let all = block_rows(b, width, false);
    assert(all[0] == first[0]);
    if second.len() > 0 {
        assert(all[1] == second[0]);
    }
    if 0 <= k < third.len() {
        assert(all[1 + second.len() + k] == third[k]);
        assert(rows.skip(n)[k] == rows[n + k]);
    }
    lemma_footer(tool, false);
}

proof fn lemma_footer(tool: ToolView, expanded: bool)
    ensures
        tool.status.note() is None && !tool.output.truncated ==> footer(tool, expanded).len() == 0,
        tool.status.note() is Some || tool.output.truncated ==> footer(tool, expanded).len() > 0,
        !expanded || !tool.output.truncated || tool.output.log is None ==> footer(tool, expanded) == (
        match tool.status.note() {
            Some(note) => if tool.output.truncated {
                note + " · "@ + "preview only; overflow in temp file"@
            } else {
                note
            },
            None => if tool.output.truncated {
                "preview only; overflow in temp file"@
            } else {
                seq![]
            },
        }),
        expanded && tool.output.truncated && tool.output.log is Some ==> footer(tool, expanded) == footer(tool, false)
            + "\noutput log (temporary): "@ + cleaned(tool.output.log->0),
{
    let sep = " · "@;
    let preview = "preview only; overflow in temp file"@;
    reveal_strlit("preview only; overflow in temp file");
    assert(Seq::<Seq<char>>::empty().push(preview) =~= seq![preview]);
    if let Some(note) = tool.status.note() {
        text::lemma_join_first(seq![note, preview], sep);
        assert(seq![note].push(preview) =~= seq![note, preview]);
        assert(seq![note, preview].drop_first() =~= seq![preview]);
        assert(note + sep + preview =~= note + (sep + preview));
        reveal_strlit("pending");
        reveal_strlit("running");
        reveal_strlit("exit ");
        reveal_strlit("timed out after ");
        reveal_strlit("cancelled; process group killed");
        assert(note.len() > 0);
    }
    let tail = "\noutput log (temporary): "@ + cleaned(tool.output.log->0);
    assert(footer(tool, false) =~= join(
        if tool.output.truncated {
            (match tool.status.note() {
                Some(note) => seq![note],
                None => seq![],
            }).push(preview)
        } else {
            match tool.status.note() {
                Some(note) => seq![note],
                None => seq![],
            }
        },
        sep,
    ));
    if expanded && tool.output.truncated && tool.output.log is Some {
        assert(footer(tool, expanded) =~= footer(tool, false) + tail);
        assert(footer(tool, false) + "\noutput log (temporary): "@ + cleaned(tool.output.log->0) =~= footer(tool, false)
            + tail);
    } else {
        assert(footer(tool, expanded) =~= footer(tool, false));
    }
}

/// Below its output a call tells how it ended, where that is worth a note, and
/// that it was cut; an expanded one also tells where the whole output is.
pub proof fn law_calls_tell_how_they_ended(b: BlockView, width: usize, expanded: bool, k: int)
    requires
        width >= 4,
        b.kind == Kind::Call,
        b.tool is Some,
        b.tool->0.status.note() is Some || b.tool->0.output.truncated,
    ensures
        ({
            let tool = b.tool->0;
            let preview = "preview only; overflow in temp file"@;
            let words = match tool.status.note() {
                Some(note) => if tool.output.truncated {
                    note + " · "@ + preview
                } else {
                    note
                },
                None => preview,
            };
            let told = if expanded && tool.output.truncated && tool.output.log is Some {
                words + "\noutput log (temporary): "@ + cleaned(tool.output.log->0)
            } else {
                words
            };
            let parts = if expanded {
                wrapped(told, (width - 4) as usize)
            } else {
                seq![with_ellipsis(told, (width - 4) as usize)]
            };
            let rows = block_rows(b, width, expanded);
            let at = rows.len() - 1 - parts.len();
            &&& at > 0
            &&& 0 <= k < parts.len() ==> rows[at + k] == (LineView {
                text: "  "@ + (if k == 0 { "└"@ } else { " "@ }) + " "@ + parts[k],
                color: Color::Gray,
                bullet: None,
                italic: false,
            })
        }),
{
    let tool = b.tool->0;
    lemma_footer(tool, expanded);
    lemma_footer(tool, false);
    let lines = footer_lines(footer(tool, expanded), width, expanded);
    let rows = block_rows(b, width, expanded);
    assert(rows.len() - 1 - lines.len() > 0);
    if 0 <= k < lines.len() {
        assert(rows[rows.len() - 1 - lines.len() + k] == lines[k]);
    }
}

/// Line feeds at the end of what a call printed are not shown, and what printed
/// nothing else takes no row.
pub proof fn law_line_feeds_at_the_end_are_not_shown(output: Seq<char>, width: usize)
    requires
        harmless(output),
    ensures
        output_rows(output.push('\n'), width) == output_rows(output, width),
        output.len() == 0 ==> output_rows(output, width).len() == 0,
{
    let more = output.push('\n');
    assert forall|k: int| 0 <= k < more.len() implies #[trigger] more[k] == '\n' || !is_control(more[k]) by {
        if k < output.len() {
            assert(more[k] == output[k]);
        }
    }
    law_harmless_is_kept(output);
    law_harmless_is_kept(more);
    assert(more.drop_last() =~= output);
    text::lemma_span_back(output, line_feed());
    assert(without_feeds(more) =~= without_feeds(output));
}

/// What the user and the model say, and what the model thinks, is shown over as
/// many rows as it takes, two columns in: a mark stands before the first row of
/// the user, thoughts are slanted, and an empty row follows.
pub proof fn law_texts_are_shown_whole(b: BlockView, width: usize, expanded: bool, k: int)
    requires
        width >= 2,
        b.kind == Kind::User || b.kind == Kind::Agent || (b.kind == Kind::Thought && expanded && cleaned(b.text).len() > 0),
    ensures
        ({
            let parts = wrapped(cleaned(b.text), (width - 2) as usize);
            let rows = block_rows(b, width, expanded);
            &&& rows.len() == parts.len() + 1
            &&& 0 <= k < parts.len() ==> {
                &&& rows[k].text == (if b.kind == Kind::User && k == 0 { "› "@ } else { "  "@ }) + parts[k]
                &&& rows[k].bullet is None
                &&& rows[k].italic == (b.kind == Kind::Thought)
                &&& b.kind == Kind::User ==> rows[k].color == Color::Accent
                &&& b.kind == Kind::Thought ==> rows[k].color == Color::Gray
            }
            &&& rows.last() == (LineView { text: ""@, color: Color::Gray, bullet: None, italic: false })
        }),
{
    let parts = wrapped(cleaned(b.text), (width - 2) as usize);
    let rows = block_rows(b, width, expanded);
    if 0 <= k < parts.len() {
        assert(rows[k] == text_lines(b.kind, parts)[k]);
    }
}

/// Of a thought that is not expanded two rows are shown, and then how to see the
/// rest; one that takes no more is shown whole, and one without words not at
/// all.
pub proof fn law_long_thoughts_are_cut(b: BlockView, width: usize, k: int)
    requires
        width >= 2,
        b.kind == Kind::Thought,
    ensures
        ({
            let parts = wrapped(cleaned(b.text), (width - 2) as usize);
            let rows = block_rows(b, width, false);
            let all = block_rows(b, width, true);
            &&& cleaned(b.text).len() == 0 ==> rows.len() == 0 && all.len() == 0
            &&& cleaned(b.text).len() > 0 && parts.len() <= 2 ==> rows == all
            &&& cleaned(b.text).len() > 0 && parts.len() > 2 ==> {
                &&& rows.len() == 4
                &&& 0 <= k < 2 ==> rows[k] == all[k]
                &&& rows[2] == (LineView {
                    text: "  … Ctrl+O to expand"@,
                    color: Color::Gray,
                    bullet: None,
                    italic: true,
                })
                &&& rows[3] == (LineView { text: ""@, color: Color::Gray, bullet: None, italic: false })
            }
        }),
{
    let parts = wrapped(cleaned(b.text), (width - 2) as usize);
    let rows = block_rows(b, width, false);
    let all = block_rows(b, width, true);
    if cleaned(b.text).len() > 0 && parts.len() > 2 && 0 <= k < 2 {
        assert(rows[k] == text_lines(b.kind, parts.take(2))[k]);
        assert(all[k] == text_lines(b.kind, parts)[k]);
        assert(parts.take(2)[k] == parts[k]);
    }
}

/// Whether none of the rows from `i` up to `j` fences code.
pub open spec fn no_fence(rows: Seq<Seq<char>>, i: int, j: int) -> bool {
    forall|k: int| i <= k < j ==> !"```"@.is_prefix_of(text::trim_start(#[trigger] rows[k]))
}

proof fn lemma_no_fence(rows: Seq<Seq<char>>, i: int, j: int)
    requires
        0 <= i <= j,
        no_fence(rows, i, j),
    ensures
        in_code(rows, j) == in_code(rows, i),
    decreases j - i,
{
    if i < j {
        assert(!"```"@.is_prefix_of(text::trim_start(rows[j - 1])));
        lemma_no_fence(rows, i, j - 1);
    }
}

/// Of the model's text, rows before the first fence are plain but for headings
/// and quotations, which stand out; the fences themselves are gray; rows between
/// the first fence and the second stand out; and behind the second it is as
/// before the first.
pub proof fn law_code_stands_out(b: BlockView, width: usize, expanded: bool, open: int, close: int, k: int)
    requires
        width >= 2,
        b.kind == Kind::Agent,
        ({
            let rows = wrapped(cleaned(b.text), (width - 2) as usize);
            &&& 0 <= k < rows.len()
            &&& 0 <= open < close <= rows.len()
            &&& no_fence(rows, 0, open)
            &&& "```"@.is_prefix_of(text::trim_start(rows[open]))
            &&& no_fence(rows, open + 1, close)
            &&& close < rows.len() ==> "```"@.is_prefix_of(text::trim_start(rows[close]))
            &&& close < k ==> no_fence(rows, close + 1, k + 1)
        }),
    ensures
        ({
            let row = text::trim_start(wrapped(cleaned(b.text), (width - 2) as usize)[k]);
            let color = block_rows(b, width, expanded)[k].color;
            &&& k == open || k == close ==> color == Color::Gray
            &&& open < k < close ==> color == Color::Accent
            &&& k < open || close < k ==> color == (if "#"@.is_prefix_of(row) || "> "@.is_prefix_of(row) {
                Color::Accent
            } else {
                Color::Plain
            })
        }),
{
    let rows = wrapped(cleaned(b.text), (width - 2) as usize);
    assert(block_rows(b, width, expanded)[k] == text_lines(b.kind, rows)[k]);
    lemma_no_fence(rows, 0, open);
    if k < open {
        lemma_no_fence(rows, 0, k);
        assert(!"```"@.is_prefix_of(text::trim_start(rows[k])));
    } else if open < k < close {
        lemma_no_fence(rows, open + 1, k);
        assert(!"```"@.is_prefix_of(text::trim_start(rows[k])));
    } else if close < k {
        lemma_no_fence(rows, open + 1, close);
        lemma_no_fence(rows, close + 1, k);
        assert(!"```"@.is_prefix_of(text::trim_start(rows[k])));
    }
}

/// Without a fence, headings and quotations stand out and nothing else does.
pub proof fn law_headings_stand_out(b: BlockView, width: usize, expanded: bool, k: int)
    requires
        width >= 2,
        b.kind == Kind::Agent,
        0 <= k < wrapped(cleaned(b.text), (width - 2) as usize).len(),
        no_fence(wrapped(cleaned(b.text), (width - 2) as usize), 0, k + 1),
    ensures
        ({
            let row = text::trim_start(wrapped(cleaned(b.text), (width - 2) as usize)[k]);
            block_rows(b, width, expanded)[k].color == (if "#"@.is_prefix_of(row) || "> "@.is_prefix_of(row) {
                Color::Accent
            } else {
                Color::Plain
            })
        }),
{
    let rows = wrapped(cleaned(b.text), (width - 2) as usize);
    assert(block_rows(b, width, expanded)[k] == text_lines(b.kind, rows)[k]);
    lemma_no_fence(rows, 0, k);
    assert(!"```"@.is_prefix_of(text::trim_start(rows[k])));
}

/// Notices and warnings are shown whole, in yellow, behind a mark.
pub proof fn law_notices_are_shown_whole(b: BlockView, width: usize, expanded: bool, k: int)
    requires
        b.kind == Kind::Notice || b.kind == Kind::Warning,
    ensures
        ({
            let parts = wrapped("! "@ + cleaned(b.text), width);
            let rows = block_rows(b, width, expanded);
            &&& rows.len() == parts.len()
            &&& 0 <= k < parts.len() ==> rows[k] == (LineView {
                text: parts[k],
                color: Color::Yellow,
                bullet: None,
                italic: false,
            })
        }),
{
}

/// The cursor goes on as the text does: a line feed begins a row, a character
/// that does not fit behind others stands in the next row, and a full row shows
/// the cursor at the beginning of the next. One wider than a row takes no room.
pub proof fn law_cursor_goes_with_the_text(s: Seq<char>, widths: Seq<usize>, width: usize, c: char, w: usize)
    requires
        widths.len() == s.len(),
        width > 0,
    ensures
        ({
            let p = point_behind(s, widths, width);
            let q = point_behind(s.push(c), widths.push(w), width);
            &&& c == '\n' ==> q.row == p.row + 1 && q.col == 0
            &&& c != '\n' && p.col + w <= width ==> q.row == p.row && q.col == p.col + w
            &&& c != '\n' && w <= width < p.col + w ==> q.row == p.row + 1 && q.col == w
            &&& c != '\n' && w > width ==> q == p
            &&& p.col <= width
        }),
        ({
            let p = point_behind(s, widths, width);
            let shown = insertions(s, widths, width);
            &&& shown.len() == s.len() + 1
            &&& p.col < width ==> shown.last() == (p.row as int, p.col as int)
            &&& p.col == width ==> shown.last() == (p.row as int + 1, 0int)
            &&& forall|k: int|
                0 <= k <= s.len() ==> #[trigger] shown[k] == insertions(s.take(k), widths.take(k), width).last()
        }),
        point_behind(seq![], seq![], width) == (Point { row: 0, col: 0 }),
{
    assert(s.push(c).drop_last() =~= s);
    assert(widths.push(w).drop_last() =~= widths);
    assert(s.take(s.len() as int) =~= s);
    assert(widths.take(s.len() as int) =~= widths);
    lemma_point_in_row(s, widths, width);
    let shown = insertions(s, widths, width);
    assert forall|k: int| 0 <= k <= s.len() implies #[trigger] shown[k] == insertions(
        s.take(k),
        widths.take(k),
        width,
    ).last() by {
        assert(s.take(k).take(k) =~= s.take(k));
        assert(widths.take(k).take(k) =~= widths.take(k));
    }
}

proof fn lemma_point_in_row(s: Seq<char>, widths: Seq<usize>, width: usize)
    requires
        widths.len() == s.len(),
    ensures
        point_behind(s, widths, width).col <= width,
    decreases s.len(),
{
    if s.len() > 0 {
        lemma_point_in_row(s.drop_last(), widths.drop_last(), width);
    }
}

} // verus!
