//! The line editor of the input.
use crate::text::{self, is_space};
use crate::ui::{self, insertions, measured, position_views};
use vstd::prelude::*;

verus! {

/// The input: its characters, where the cursor stands among them, and the column
/// that moving up and down keeps to.
#[derive(Debug)]
pub struct Editor {
    pub chars: Vec<char>,
    pub cursor: usize,
    pub preferred_col: Option<usize>,
}

/// The model of [`Editor`].
pub struct EditorView {
    pub chars: Seq<char>,
    pub cursor: int,
    pub column: Option<usize>,
}

impl View for Editor {
    type V = EditorView;

    open spec fn view(&self) -> EditorView {
        EditorView { chars: self.chars@, cursor: self.cursor as int, column: self.preferred_col }
    }
}

/// The first character of the line that the cursor is in.
pub open spec fn line_start(chars: Seq<char>, cursor: int) -> int
    decreases cursor,
{
    if cursor <= 0 || chars[cursor - 1] == '\n' {
        cursor
    } else {
        line_start(chars, cursor - 1)
    }
}

/// The end of the line that the cursor is in.
pub open spec fn line_end(chars: Seq<char>, cursor: int) -> int
    decreases chars.len() - cursor,
{
    if cursor >= chars.len() || chars[cursor] == '\n' {
        cursor
    } else {
        line_end(chars, cursor + 1)
    }
}

/// Where the white space before the cursor begins.
pub open spec fn space_start(chars: Seq<char>, cursor: int) -> int
    decreases cursor,
{
    if cursor <= 0 || !is_space(chars[cursor - 1]) {
        cursor
    } else {
        space_start(chars, cursor - 1)
    }
}

/// Where the word before the cursor begins.
pub open spec fn word_start(chars: Seq<char>, cursor: int) -> int
    decreases cursor,
{
    if cursor <= 0 || is_space(chars[cursor - 1]) {
        cursor
    } else {
        word_start(chars, cursor - 1)
    }
}

impl EditorView {
    /// The cursor stands among the characters.
    pub open spec fn wf(self) -> bool {
        0 <= self.cursor <= self.chars.len()
    }

    /// `from..to` replaced by `s`, with the cursor behind it.
    pub open spec fn replaced(self, from: int, to: int, s: Seq<char>) -> EditorView {
        EditorView {
            chars: self.chars.take(from) + s + self.chars.skip(to),
            cursor: from + s.len(),
            column: None,
        }
    }

    /// The cursor elsewhere.
    pub open spec fn at(self, cursor: int) -> EditorView {
        EditorView { chars: self.chars, cursor, column: None }
    }

    /// The character before the cursor removed.
    pub open spec fn erased_before(self) -> EditorView {
        if self.cursor > 0 {
            self.replaced(self.cursor - 1, self.cursor, seq![])
        } else {
            self.at(0)
        }
    }

    /// The character behind the cursor removed.
    pub open spec fn erased_behind(self) -> EditorView {
        if self.cursor < self.chars.len() {
            self.replaced(self.cursor, self.cursor + 1, seq![])
        } else {
            self.at(self.cursor)
        }
    }

    /// The cursor one character back.
    pub open spec fn stepped_left(self) -> EditorView {
        self.at(
            if self.cursor > 0 {
                self.cursor - 1
            } else {
                0
            },
        )
    }

    /// The cursor one character on.
    pub open spec fn stepped_right(self) -> EditorView {
        self.at(
            if self.cursor < self.chars.len() {
                self.cursor + 1
            } else {
                self.cursor
            },
        )
    }

    /// White space before the cursor removed, and the word before it.
    pub open spec fn word_erased(self) -> EditorView {
        if self.cursor > 0 {
            self.replaced(word_start(self.chars, space_start(self.chars, self.cursor)), self.cursor, seq![])
        } else {
            self
        }
    }

    /// The line of the cursor cleared; an empty one is joined to the one before
    /// it, and the first one to the one behind it.
    pub open spec fn line_cleared(self) -> EditorView {
        let start = line_start(self.chars, self.cursor);
        let end = line_end(self.chars, self.cursor);
        if start < end {
            self.replaced(start, end, seq![])
        } else if start > 0 {
            self.replaced(start - 1, start, seq![])
        } else if end < self.chars.len() {
            self.replaced(0, 1, seq![])
        } else {
            self.at(self.cursor)
        }
    }
}

proof fn lemma_line_start(chars: Seq<char>, cursor: int)
    requires
        0 <= cursor <= chars.len(),
    ensures
        0 <= line_start(chars, cursor) <= cursor,
        line_start(chars, cursor) > 0 ==> chars[line_start(chars, cursor) - 1] == '\n',
    decreases cursor,
{
    if cursor > 0 && chars[cursor - 1] != '\n' {
        lemma_line_start(chars, cursor - 1);
    }
}

impl Default for Editor {
    fn default() -> (r: Editor)
        ensures
            r@.wf(),
            r@.chars.len() == 0,
            r@.cursor == 0,
            r@.column is None,
    {
        Editor { chars: Vec::new(), cursor: 0, preferred_col: None }
    }
}

impl Editor {
    /// The input as text.
    pub fn text(&self) -> (r: String)
        ensures
            r@ == self@.chars,
    {
        text::string(&self.chars)
    }

    /// Puts in text at the cursor, without what would control the terminal.
    pub fn insert(&mut self, source: &str)
        requires
            old(self)@.wf(),
        ensures
            final(self)@.wf(),
            final(self)@ == old(self)@.replaced(old(self)@.cursor, old(self)@.cursor, ui::cleaned(source@)),
    {
        let at = self.cursor;
        self.replace(at..at, &ui::clean(source));
    }

    /// Replaces a range by a text, and puts the cursor behind it.
    pub fn replace(&mut self, range: std::ops::Range<usize>, source: &str)
        requires
            range.start <= range.end <= old(self)@.chars.len(),
        ensures
            final(self)@.wf(),
            final(self)@ == old(self)@.replaced(range.start as int, range.end as int, source@),
    {
        let ghost before = self@;
        let mut out = text::slice(&self.chars, 0, range.start);
        text::extend(&mut out, &text::chars(source));
        self.cursor = out.len();
        text::extend(&mut out, &text::slice(&self.chars, range.end, self.chars.len()));
        self.chars = out;
        self.preferred_col = None;
        assert(self@.chars =~= before.replaced(range.start as int, range.end as int, source@).chars);
    }

    /// Removes a range, and puts the cursor there.
    fn cut(&mut self, start: usize, end: usize)
        requires
            start <= end <= old(self)@.chars.len(),
        ensures
            final(self)@.wf(),
            final(self)@ == old(self)@.replaced(start as int, end as int, seq![]),
    {
        self.replace(start..end, "");
        proof {
            reveal_strlit("");
            assert(""@ =~= seq![]);
        }
    }

    /// Removes everything.
    pub fn clear(&mut self)
        ensures
            final(self)@.wf(),
            final(self)@.chars.len() == 0,
            final(self)@.cursor == 0,
            final(self)@.column is None,
    {
        self.chars = Vec::new();
        self.cursor = 0;
        self.preferred_col = None;
    }

    /// The beginning of the line that the cursor is in.
    fn start(&self) -> (r: usize)
        requires
            self@.wf(),
        ensures
            r == line_start(self@.chars, self@.cursor),
            r <= self@.cursor,
    {
        let mut i: usize = self.cursor;
        while i > 0 && self.chars[i - 1] != '\n'
            invariant
                i <= self.cursor <= self.chars@.len(),
                line_start(self.chars@, self.cursor as int) == line_start(self.chars@, i as int),
            decreases i,
        {
            i -= 1;
        }
        i
    }

    /// The end of the line that the cursor is in.
    fn stop(&self) -> (r: usize)
        requires
            self@.wf(),
        ensures
            r == line_end(self@.chars, self@.cursor),
            self@.cursor <= r <= self@.chars.len(),
    {
        let mut i: usize = self.cursor;
        while i < self.chars.len() && self.chars[i] != '\n'
            invariant
                self.cursor <= i <= self.chars@.len(),
                line_end(self.chars@, self.cursor as int) == line_end(self.chars@, i as int),
            decreases self.chars@.len() - i,
        {
            i += 1;
        }
        i
    }

    /// Clears the line of the cursor, or joins an empty one to another.
    pub fn clear_line(&mut self)
        requires
            old(self)@.wf(),
        ensures
            final(self)@.wf(),
            final(self)@ == old(self)@.line_cleared(),
    {
        let start = self.start();
        let end = self.stop();
        proof {
            lemma_line_start(self@.chars, self@.cursor);
        }
        if start < end {
            self.cut(start, end);
        } else if start > 0 {
            self.cut(start - 1, start);
        } else if end < self.chars.len() {
            self.cut(0, 1);
        } else {
            self.preferred_col = None;
        }
    }

    /// Removes the character before the cursor.
    pub fn backspace(&mut self)
        requires
            old(self)@.wf(),
        ensures
            final(self)@.wf(),
            final(self)@ == old(self)@.erased_before(),
    {
        if self.cursor > 0 {
            self.cut(self.cursor - 1, self.cursor);
        } else {
            self.preferred_col = None;
        }
    }

    /// Removes the character behind the cursor.
    pub fn delete(&mut self)
        requires
            old(self)@.wf(),
        ensures
            final(self)@.wf(),
            final(self)@ == old(self)@.erased_behind(),
    {
        if self.cursor < self.chars.len() {
            self.cut(self.cursor, self.cursor + 1);
        } else {
            self.preferred_col = None;
        }
    }

    /// Goes to the beginning of the line.
    pub fn home(&mut self)
        requires
            old(self)@.wf(),
        ensures
            final(self)@.wf(),
            final(self)@ == old(self)@.at(line_start(old(self)@.chars, old(self)@.cursor)),
    {
        self.cursor = self.start();
        self.preferred_col = None;
        proof {
            lemma_line_start(old(self)@.chars, old(self)@.cursor);
        }
    }

    /// Goes to the end of the line.
    pub fn end(&mut self)
        requires
            old(self)@.wf(),
        ensures
            final(self)@.wf(),
            final(self)@ == old(self)@.at(line_end(old(self)@.chars, old(self)@.cursor)),
    {
        self.cursor = self.stop();
        self.preferred_col = None;
    }

    /// Goes one character back.
    pub fn left(&mut self)
        requires
            old(self)@.wf(),
        ensures
            final(self)@.wf(),
            final(self)@ == old(self)@.stepped_left(),
    {
        self.cursor = self.cursor.saturating_sub(1);
        self.preferred_col = None;
    }

    /// Goes one character on.
    pub fn right(&mut self)
        requires
            old(self)@.wf(),
        ensures
            final(self)@.wf(),
            final(self)@ == old(self)@.stepped_right(),
    {
        if self.cursor < self.chars.len() {
            self.cursor = self.cursor + 1;
        }
        self.preferred_col = None;
    }

    /// Removes white space before the cursor, and then the word before it.
    pub fn word_backspace(&mut self)
        requires
            old(self)@.wf(),
        ensures
            final(self)@.wf(),
            final(self)@ == old(self)@.word_erased(),
    {
        let mut i: usize = self.cursor;
        while i > 0 && text::space(self.chars[i - 1])
            invariant
                i <= self.cursor <= self.chars@.len(),
                space_start(self.chars@, self.cursor as int) == space_start(self.chars@, i as int),
            decreases i,
        {
            i -= 1;
        }
        let ghost k = i as int;
        while i > 0 && !text::space(self.chars[i - 1])
            invariant
                i <= k <= self.cursor <= self.chars@.len(),
                word_start(self.chars@, k) == word_start(self.chars@, i as int),
            decreases i,
        {
            i -= 1;
        }
        if i < self.cursor {
            self.cut(i, self.cursor);
        }
    }

    /// Where the cursor is shown behind each number of characters, in rows of
    /// `width` columns but at least one.
    pub fn positions(&self, width: usize) -> (r: Vec<(usize, usize)>)
        ensures
            position_views(r@) == insertions(self@.chars, measured(self@.chars), ui::at_least_one(width)),
            r@.len() == self@.chars.len() + 1,
    {
        let width: usize = if width == 0 {
            1
        } else {
            width
        };
        ui::positions_measured(&self.chars, &ui::measure(&self.chars), width)
    }

    /// Goes one row up or down, as close as can be to the column where such
    /// moves began.
    pub fn move_vertical(&mut self, width: usize, up: bool)
        requires
            old(self)@.wf(),
        ensures
            final(self)@.wf(),
            ({
                let places = insertions(
                    old(self)@.chars,
                    measured(old(self)@.chars),
                    ui::at_least_one(width),
                );
                final(self)@ == old(self)@.moved(places, up)
            }),
    {
        let positions = self.positions(width);
        self.move_among(&positions, up);
    }

    /// Goes one row up or down, where `positions` are those of the cursor behind
    /// each number of characters.
    pub fn move_among(&mut self, positions: &Vec<(usize, usize)>, up: bool)
        requires
            old(self)@.wf(),
            positions@.len() == old(self)@.chars.len() + 1,
        ensures
            final(self)@.wf(),
            final(self)@ == old(self)@.moved(position_views(positions@), up),
    {
        let ghost places = position_views(positions@);
        let (row, col) = positions[self.cursor];
        assert(places[self.cursor as int] == (row as int, col as int));
        let target: usize = if up {
            if row == 0 {
                assert(no_place(places, -1));
                return;
            }
            row - 1
        } else {
            if row == usize::MAX {
                assert(no_place(places, row + 1));
                return;
            }
            row + 1
        };
        let preferred: usize = match self.preferred_col {
            Some(column) => column,
            None => col,
        };
        if let Some(i) = nearest(positions, target, preferred) {
            proof {
                let c = closest_place(places, target as int, preferred as int);
                assert(closest(places, target as int, preferred as int, i as int));
                assert(closest(places, target as int, preferred as int, c));
                assert(places[c].0 == target && places[i as int].0 == target);
            }
            self.cursor = i;
            self.preferred_col = Some(preferred);
        }
    }
}

/// How far two columns are apart.
pub open spec fn apart(a: int, b: int) -> int {
    if a < b {
        b - a
    } else {
        a - b
    }
}

/// Whether no place is in the row.
pub open spec fn no_place(places: Seq<(int, int)>, row: int) -> bool {
    forall|j: int| 0 <= j < places.len() ==> (#[trigger] places[j]).0 != row
}

/// Whether place `i` is the one in the row that is closest to the column, and
/// the last of those.
pub open spec fn closest(places: Seq<(int, int)>, row: int, column: int, i: int) -> bool {
    &&& 0 <= i < places.len()
    &&& places[i].0 == row
    &&& forall|j: int|
        0 <= j < places.len() && (#[trigger] places[j]).0 == row ==> apart(places[i].1, column) < apart(
            places[j].1,
            column,
        ) || (apart(places[i].1, column) == apart(places[j].1, column) && j <= i)
}

/// The place in the row that is closest to the column, and the last of those.
pub open spec fn closest_place(places: Seq<(int, int)>, row: int, column: int) -> int {
    choose|i: int| closest(places, row, column, i)
}

impl EditorView {
    /// The cursor one row up or down: at the place there that is closest to the
    /// column kept to, or where it was if there is no such row.
    pub open spec fn moved(self, places: Seq<(int, int)>, up: bool) -> EditorView {
        let (row, col) = places[self.cursor];
        let target = if up {
            row - 1
        } else {
            row + 1
        };
        let column = match self.column {
            Some(column) => column as int,
            None => col,
        };
        if no_place(places, target) {
            self
        } else {
            EditorView {
                chars: self.chars,
                cursor: closest_place(places, target, column),
                column: Some(column as usize),
            }
        }
    }
}

fn distance(a: usize, b: usize) -> (r: usize)
    ensures
        r == apart(a as int, b as int),
{
    if a < b {
        b - a
    } else {
        a - b
    }
}

/// The place in a row that is closest to a column, and the last of those.
pub fn nearest(positions: &Vec<(usize, usize)>, row: usize, column: usize) -> (r: Option<usize>)
    ensures
        r is None <==> no_place(position_views(positions@), row as int),
        r matches Some(i) ==> closest(position_views(positions@), row as int, column as int, i as int),
{
    let ghost places = position_views(positions@);
    let mut best: Option<usize> = None;
    let mut i: usize = 0;
    while i < positions.len()
        invariant
            i <= positions@.len(),
            places == position_views(positions@),
            best is None <==> no_place(places.take(i as int), row as int),
            best matches Some(b) ==> closest(places.take(i as int), row as int, column as int, b as int),
        decreases positions@.len() - i,
    {
        let (r, c) = positions[i];
        let ghost next = places.take(i + 1);
        let ghost before = places.take(i as int);
        proof {
            assert(places[i as int] == (r as int, c as int));
            assert(forall|j: int| 0 <= j < i ==> next[j] == #[trigger] before[j]);
            assert(forall|j: int| 0 <= j < i ==> #[trigger] next[j] == before[j]);
            assert(next[i as int] == (r as int, c as int));
        }
        if r == row {
            let better = match best {
                None => true,
                Some(b) => distance(c, column) <= distance(positions[b].1, column),
            };
            if better {
                best = Some(i);
            }
        }
        i += 1;
    }
    assert(places.take(i as int) =~= places);
    best
}

/// Removing a character undoes typing it, but for the column that was kept.
pub proof fn law_backspace_undoes_typing(editor: EditorView, c: char)
    requires
        editor.wf(),
    ensures
        editor.replaced(editor.cursor, editor.cursor, seq![c]).erased_before() == editor.at(editor.cursor),
        editor.replaced(editor.cursor, editor.cursor, seq![c]).stepped_left().erased_behind() == editor.at(
            editor.cursor,
        ),
{
    let typed = editor.replaced(editor.cursor, editor.cursor, seq![c]);
    assert(typed.erased_before().chars =~= editor.chars);
    assert(typed.stepped_left().erased_behind().chars =~= editor.chars);
}

proof fn lemma_line_end(chars: Seq<char>, cursor: int)
    requires
        0 <= cursor <= chars.len(),
    ensures
        cursor <= line_end(chars, cursor) <= chars.len(),
    decreases chars.len() - cursor,
{
    if cursor < chars.len() && chars[cursor] != '\n' {
        lemma_line_end(chars, cursor + 1);
    }
}

/// Clearing lines again and again ends in an empty input: as long as there is
/// text, clearing a line takes some of it, and the cursor stays in the rest.
pub proof fn law_clearing_lines_empties_the_input(editor: EditorView)
    requires
        editor.wf(),
    ensures
        editor.line_cleared().wf(),
        editor.chars.len() > 0 ==> editor.line_cleared().chars.len() < editor.chars.len(),
{
    lemma_line_start(editor.chars, editor.cursor);
    lemma_line_end(editor.chars, editor.cursor);
}

/// What is put in stands where it was put, what was before and behind it stays,
/// and the cursor stands behind it.
pub proof fn law_text_is_put_in_at_the_cursor(editor: EditorView, from: int, to: int, s: Seq<char>)
    requires
        0 <= from <= to <= editor.chars.len(),
    ensures
        ({
            let next = editor.replaced(from, to, s);
            &&& next.wf()
            &&& next.chars.len() == editor.chars.len() - (to - from) + s.len()
            &&& next.chars.take(from) == editor.chars.take(from)
            &&& next.chars.subrange(from, from + s.len()) == s
            &&& next.chars.skip(from + s.len()) == editor.chars.skip(to)
            &&& next.cursor == from + s.len()
            &&& next.column is None
        }),
{
    let next = editor.replaced(from, to, s);
    assert(next.chars.take(from) =~= editor.chars.take(from));
    assert(next.chars.subrange(from, from + s.len()) =~= s);
    assert(next.chars.skip(from + s.len()) =~= editor.chars.skip(to));
}

/// The keys that remove one character remove the one before or behind the
/// cursor, and at the end of the input nothing.
pub proof fn law_one_character_is_removed(editor: EditorView)
    requires
        editor.wf(),
    ensures
        editor.cursor > 0 ==> editor.erased_before().chars == editor.chars.remove(editor.cursor - 1)
            && editor.erased_before().cursor == editor.cursor - 1,
        editor.cursor == 0 ==> editor.erased_before().chars == editor.chars && editor.erased_before().cursor == 0,
        editor.cursor < editor.chars.len() ==> editor.erased_behind().chars == editor.chars.remove(editor.cursor)
            && editor.erased_behind().cursor == editor.cursor,
        editor.cursor == editor.chars.len() ==> editor.erased_behind().chars == editor.chars && editor.erased_behind().cursor
            == editor.cursor,
{
    if editor.cursor > 0 {
        assert(editor.erased_before().chars =~= editor.chars.remove(editor.cursor - 1));
    }
    if editor.cursor < editor.chars.len() {
        assert(editor.erased_behind().chars =~= editor.chars.remove(editor.cursor));
    }
}

/// The cursor steps by one character, as far as there is one, and the other way
/// brings it back; the text stays.
pub proof fn law_steps_go_back(editor: EditorView)
    requires
        editor.wf(),
    ensures
        editor.stepped_left().chars == editor.chars && editor.stepped_right().chars == editor.chars,
        editor.cursor > 0 ==> editor.stepped_left().cursor == editor.cursor - 1,
        editor.cursor == 0 ==> editor.stepped_left().cursor == 0,
        editor.cursor < editor.chars.len() ==> editor.stepped_right().cursor == editor.cursor + 1,
        editor.cursor == editor.chars.len() ==> editor.stepped_right().cursor == editor.cursor,
        editor.cursor > 0 ==> editor.stepped_left().stepped_right().cursor == editor.cursor,
        editor.cursor < editor.chars.len() ==> editor.stepped_right().stepped_left().cursor == editor.cursor,
{
}

/// The line of the cursor goes from behind the line feed before it, or the
/// beginning, to the next line feed, or the end.
pub proof fn law_lines_end_at_line_feeds(chars: Seq<char>, cursor: int)
    requires
        0 <= cursor <= chars.len(),
    ensures
        ({
            let start = line_start(chars, cursor);
            let end = line_end(chars, cursor);
            &&& 0 <= start <= cursor <= end <= chars.len()
            &&& start == 0 || chars[start - 1] == '\n'
            &&& end == chars.len() || chars[end] == '\n'
            &&& forall|k: int| start <= k < end ==> #[trigger] chars[k] != '\n'
        }),
{
    lemma_line_start_all(chars, cursor);
    lemma_line_end_all(chars, cursor);
}

proof fn lemma_line_start_all(chars: Seq<char>, cursor: int)
    requires
        0 <= cursor <= chars.len(),
    ensures
        0 <= line_start(chars, cursor) <= cursor,
        line_start(chars, cursor) == 0 || chars[line_start(chars, cursor) - 1] == '\n',
        forall|k: int| line_start(chars, cursor) <= k < cursor ==> #[trigger] chars[k] != '\n',
    decreases cursor,
{
    if cursor > 0 && chars[cursor - 1] != '\n' {
        lemma_line_start_all(chars, cursor - 1);
    }
}

proof fn lemma_line_end_all(chars: Seq<char>, cursor: int)
    requires
        0 <= cursor <= chars.len(),
    ensures
        cursor <= line_end(chars, cursor) <= chars.len(),
        line_end(chars, cursor) == chars.len() || chars[line_end(chars, cursor)] == '\n',
        forall|k: int| cursor <= k < line_end(chars, cursor) ==> #[trigger] chars[k] != '\n',
    decreases chars.len() - cursor,
{
    if cursor < chars.len() && chars[cursor] != '\n' {
        lemma_line_end_all(chars, cursor + 1);
    }
}

/// Clearing a line removes its text and leaves every other line; the cursor
/// stands where the line began. An empty line goes with the line feed before it,
/// or behind it where it is the first.
pub proof fn law_clearing_a_line(editor: EditorView)
    requires
        editor.wf(),
    ensures
        ({
            let start = line_start(editor.chars, editor.cursor);
            let end = line_end(editor.chars, editor.cursor);
            let next = editor.line_cleared();
            &&& start < end ==> next.chars == editor.chars.take(start) + editor.chars.skip(end) && next.cursor == start
            &&& start == end && start > 0 ==> next.chars == editor.chars.remove(start - 1) && next.cursor == start - 1
            &&& start == end && start == 0 && editor.chars.len() > 0 ==> next.chars == editor.chars.skip(1)
                && next.cursor == 0
            &&& editor.chars.len() == 0 ==> next.chars == editor.chars && next.cursor == editor.cursor
        }),
{
    let start = line_start(editor.chars, editor.cursor);
    let end = line_end(editor.chars, editor.cursor);
    law_lines_end_at_line_feeds(editor.chars, editor.cursor);
    let next = editor.line_cleared();
    if start < end {
        assert(next.chars =~= editor.chars.take(start) + editor.chars.skip(end));
    } else if start > 0 {
        assert(next.chars =~= editor.chars.remove(start - 1));
    } else if editor.chars.len() > 0 {
        assert(next.chars =~= editor.chars.skip(1));
    }
}

/// Removing a word removes the white space before the cursor and the word before
/// that, whole, and nothing else.
pub proof fn law_words_are_removed_whole(editor: EditorView)
    requires
        editor.wf(),
    ensures
        editor.cursor == 0 ==> editor.word_erased() == editor,
        editor.cursor > 0 ==> {
            let next = editor.word_erased();
            let from = next.cursor;
            &&& 0 <= from < editor.cursor
            &&& next.chars == editor.chars.take(from) + editor.chars.skip(editor.cursor)
            &&& from == 0 || is_space(editor.chars[from - 1])
            &&& exists|mid: int|
                from <= mid <= editor.cursor && (forall|k: int| from <= k < mid ==> !is_space(#[trigger] editor.chars[k]))
                    && (forall|k: int| mid <= k < editor.cursor ==> is_space(#[trigger] editor.chars[k])) && #[trigger] marks(
                    mid,
                ) && (mid > 0 ==> !is_space(editor.chars[mid - 1]))
        },
{
    if editor.cursor > 0 {
        let mid = space_start(editor.chars, editor.cursor);
        lemma_space_start(editor.chars, editor.cursor);
        lemma_word_start(editor.chars, mid);
        let from = word_start(editor.chars, mid);
        assert(marks(mid));
        assert(editor.word_erased().chars =~= editor.chars.take(from) + editor.chars.skip(editor.cursor));
    }
}

/// A place in the input.
pub open spec fn marks(place: int) -> bool {
    true
}

proof fn lemma_space_start(chars: Seq<char>, cursor: int)
    requires
        0 <= cursor <= chars.len(),
    ensures
        0 <= space_start(chars, cursor) <= cursor,
        space_start(chars, cursor) == 0 || !is_space(chars[space_start(chars, cursor) - 1]),
        forall|k: int| space_start(chars, cursor) <= k < cursor ==> is_space(#[trigger] chars[k]),
    decreases cursor,
{
    if cursor > 0 && is_space(chars[cursor - 1]) {
        lemma_space_start(chars, cursor - 1);
    }
}

proof fn lemma_word_start(chars: Seq<char>, cursor: int)
    requires
        0 <= cursor <= chars.len(),
    ensures
        0 <= word_start(chars, cursor) <= cursor,
        word_start(chars, cursor) == 0 || is_space(chars[word_start(chars, cursor) - 1]),
        forall|k: int| word_start(chars, cursor) <= k < cursor ==> !is_space(#[trigger] chars[k]),
        cursor > 0 && !is_space(chars[cursor - 1]) ==> word_start(chars, cursor) < cursor,
    decreases cursor,
{
    if cursor > 0 && !is_space(chars[cursor - 1]) {
        lemma_word_start(chars, cursor - 1);
    }
}

proof fn lemma_best_place(places: Seq<(int, int)>, row: int, column: int, n: int) -> (best: int)
    requires
        0 <= n <= places.len(),
    ensures
        best < 0 ==> forall|j: int| 0 <= j < n ==> (#[trigger] places[j]).0 != row,
        best >= 0 ==> best < n && places[best].0 == row && forall|j: int|
            0 <= j < n && (#[trigger] places[j]).0 == row ==> apart(places[best].1, column) < apart(places[j].1, column)
                || (apart(places[best].1, column) == apart(places[j].1, column) && j <= best),
    decreases n,
{
    if n == 0 {
        -1
    } else {
        let best = lemma_best_place(places, row, column, n - 1);
        if places[n - 1].0 == row && (best < 0 || apart(places[n - 1].1, column) <= apart(places[best].1, column)) {
            n - 1
        } else {
            best
        }
    }
}

/// The cursor goes to the row above or below it, to the place there that is
/// closest to the column it began in, the last of several; it keeps to that
/// column as it goes on. Where there is no such row it stays, and the text never
/// changes.
pub proof fn law_cursor_keeps_its_column(e: EditorView, places: Seq<(int, int)>, up: bool, j: int)
    requires
        e.wf(),
        places.len() == e.chars.len() + 1,
        0 <= places[e.cursor].1 <= usize::MAX,
    ensures
        ({
            let row = if up {
                places[e.cursor].0 - 1
            } else {
                places[e.cursor].0 + 1
            };
            let column = match e.column {
                Some(c) => c,
                None => places[e.cursor].1 as usize,
            };
            let to = e.moved(places, up);
            let far = |x: int|
                if x < column {
                    column - x
                } else {
                    x - column
                };
            &&& to.chars == e.chars
            &&& (forall|i: int| 0 <= i < places.len() ==> (#[trigger] places[i]).0 != row) ==> to == e
            &&& 0 <= j < places.len() && places[j].0 == row ==> {
                &&& 0 <= to.cursor <= e.chars.len()
                &&& places[to.cursor].0 == row
                &&& to.column == Some(column)
                &&& far(places[to.cursor].1) <= far(places[j].1)
                &&& far(places[to.cursor].1) == far(places[j].1) ==> j <= to.cursor
            }
        }),
{
    let row = if up {
        places[e.cursor].0 - 1
    } else {
        places[e.cursor].0 + 1
    };
    let column = match e.column {
        Some(c) => c as int,
        None => places[e.cursor].1,
    };
    if forall|i: int| 0 <= i < places.len() ==> (#[trigger] places[i]).0 != row {
        assert(no_place(places, row));
    }
    if 0 <= j < places.len() && places[j].0 == row {
        assert(!no_place(places, row));
        let best = lemma_best_place(places, row, column, places.len() as int);
        assert(closest(places, row, column, best));
        let c = closest_place(places, row, column);
        assert(closest(places, row, column, c));
    }
}

} // verus!
