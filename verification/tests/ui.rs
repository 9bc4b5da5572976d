use mu::block::{Block, Kind, Tool, ToolOutput, ToolStatus};
use mu::ui::{
    block_lines, clean, clip, ellipsis, measure, shorten, shorten_front, tail_ellipsis, tool_lines, wrap, wrap_measured,
    Color, Line,
};
use unicode_width::{UnicodeWidthChar, UnicodeWidthStr};

fn texts(lines: &[Line]) -> Vec<&str> {
    lines.iter().map(|l| l.text.as_str()).collect()
}

#[test]
fn control_sequences_are_taken_out() {
    assert_eq!(clean("a\x1b[31mb\x1b[0mc"), "abc");
    assert_eq!(clean("\x1b]0;title\x07x\x1b]8;;\x1b\\y"), "xy");
    assert_eq!(clean("\x1bPq\x1b\x1b\\z\x1b_a\x07\x1b^b\x1b\\w"), "zw");
    assert_eq!(clean("a\tb\r\nc\x00\x7f\u{9b}d"), "a    b\ncd");
    assert_eq!(clean("x\x1b"), "x");
    assert_eq!(clean("x\x1bcy"), "xy");
    assert_eq!(clean("x\x1b[12"), "x");
    assert_eq!(clean("x\x1b]never"), "x");
    assert_eq!(clean("é…\n"), "é…\n");
}

#[test]
fn nothing_harmful_is_left() {
    let mut seed: u32 = 7;
    let alphabet = ['\x1b', '[', ']', 'P', '\\', '\x07', 'm', '\n', '\t', '\u{9b}', 'é', '\r', '0'];
    for _ in 0..5_000 {
        let mut text = String::new();
        for _ in 0..12 {
            seed = seed.wrapping_mul(1664525).wrapping_add(1013904223);
            text.push(alphabet[(seed >> 16) as usize % alphabet.len()]);
        }
        let cleaned = clean(&text);
        assert!(cleaned.chars().all(|c| c == '\n' || !c.is_control()), "{text:?}");
        assert_eq!(clean(&cleaned), cleaned);
    }
}

#[test]
fn text_is_cut_into_rows() {
    assert_eq!(wrap("abcdef", 4), ["abcd", "ef"]);
    assert_eq!(wrap("ab\n\ncd", 4), ["ab", "", "cd"]);
    assert_eq!(wrap("", 4), [""]);
    assert_eq!(wrap("ab", 0), ["a", "b"]);
    assert_eq!(wrap("a界b", 2), ["a", "界", "b"]);
    assert_eq!(wrap("a界b", 1), ["a", "b"]);
    assert_eq!(wrap("e\u{301}e\u{301}", 1), ["e\u{301}", "e\u{301}"]);
    let chars: Vec<char> = "abc".chars().collect();
    assert_eq!(wrap_measured(&chars, &[3, 9, 3], 5), [vec!['a'], vec!['c']]);
}

#[test]
fn rows_fit_and_hold_the_text() {
    let text = "some 界界界 text\nwith é\u{301}\u{301} and 𝄞 more\u{17d8}\n\nend";
    for width in 1..20 {
        let rows = wrap(text, width);
        for row in &rows {
            let columns: usize = row.chars().map(|c| c.width().unwrap_or(0)).sum();
            assert!(columns <= width);
        }
        let kept: String = text.chars().filter(|c| *c != '\n' && c.width().unwrap_or(0) <= width).collect();
        assert_eq!(rows.concat(), kept);
    }
}

#[test]
fn widths_are_those_of_the_characters() {
    let text = "a界\u{301}\n\u{17d8}~ é";
    let chars: Vec<char> = text.chars().collect();
    let expected: Vec<usize> = chars.iter().map(|c| c.width().unwrap_or(0)).collect();
    assert_eq!(measure(&chars), expected);
    assert_eq!(measure(&['a', '界', '\u{301}', '\u{7}', '\u{9f}', '~']), [1, 2, 0, 0, 0, 1]);
    assert_eq!(expected, [1, 2, 0, 0, 3, 1, 1, 1]);
}

#[test]
fn long_texts_are_shortened() {
    assert_eq!(clip("a\nb\x1b[1mc", 10), "a bc");
    assert_eq!(clip("abcdef", 3), "abc");
    assert_eq!(ellipsis("abc", 3), "abc");
    assert_eq!(ellipsis("abcd", 3), "ab…");
    assert_eq!(ellipsis("abcd", 1), "…");
    assert_eq!(ellipsis("abcd", 0), "");
    assert_eq!(ellipsis("界界", 3), "界…");
    assert_eq!(tail_ellipsis("abc", 3), "abc");
    assert_eq!(tail_ellipsis("abcd", 3), "…cd");
    assert_eq!(tail_ellipsis("ab界", 3), "…界");
    assert_eq!(tail_ellipsis("界界", 2), "…");
    assert_eq!(tail_ellipsis("abcd", 1), "…");
    assert_eq!(tail_ellipsis("abcd", 0), "");
    assert_eq!(shorten("abcd", 9, 3), "ab…");
    assert_eq!(shorten_front("abcd", 9, &[1, 1, 2, 2], 4), "…d");
}

#[test]
fn emoji_take_the_columns_of_their_sequence() {
    let family = "👩‍👩‍👧";
    assert_eq!(family.width(), 2);
    assert_eq!(ellipsis(family, 2), family);
}

fn tool(status: ToolStatus, text: &str) -> Tool {
    Tool { call_id: "c".into(), status, output: ToolOutput { text: text.into(), log: None, truncated: false } }
}

#[test]
fn calls_are_shown_short() {
    let lines = tool_lines("ls -l", &tool(ToolStatus::Exited(0), "one\ntwo\n\n"), 40, false);
    assert_eq!(texts(&lines), ["● ls -l", "  │ one", "  │ two", ""]);
    assert_eq!(lines[0].bullet, Some(Color::Green));
    assert_eq!(lines[0].color, Color::Plain);
    assert_eq!(lines[1].color, Color::Gray);
    let lines = tool_lines("a\n b", &tool(ToolStatus::Exited(3), "1\n2\n3\n4\n5"), 40, false);
    assert_eq!(
        texts(&lines),
        ["● a ↵ b", "  │ … 2 lines hidden · Ctrl+O to expand", "  │ 3", "  │ 4", "  │ 5", "  └ exit 3", ""]
    );
    assert_eq!(lines[0].bullet, Some(Color::Red));
    let lines = tool_lines("a\nb", &tool(ToolStatus::Running, ""), 40, false);
    assert_eq!(texts(&lines), ["● a ↵ b", "  │ … Ctrl+O to expand", "  └ running", ""]);
    assert_eq!(lines[0].bullet, Some(Color::Yellow));
    let lines = tool_lines("abcdefgh", &tool(ToolStatus::Pending, ""), 7, false);
    assert_eq!(texts(&lines), ["● …efgh", "  │ … Ctrl+O to expand", "  └ pe…", ""]);
    assert_eq!(lines[0].bullet, Some(Color::Gray));
    let lines = tool_lines("abcdefgh", &tool(ToolStatus::Error, ""), 7, false);
    assert_eq!(texts(&lines), ["● abcd…", "  │ … Ctrl+O to expand", ""]);
}

#[test]
fn one_hidden_row_is_a_line() {
    let mut t = tool(ToolStatus::Exited(0), "1\n2\n3\n4");
    t.output.truncated = true;
    t.output.log = Some("/tmp/x\x1b[1m".into());
    let lines = tool_lines("x", &t, 60, false);
    assert_eq!(
        texts(&lines),
        [
            "● x",
            "  │ … 1 preview line hidden · Ctrl+O to expand",
            "  │ 2",
            "  │ 3",
            "  │ 4",
            "  └ preview only; overflow in temp file",
            ""
        ]
    );
    let lines = tool_lines("x", &t, 60, true);
    assert_eq!(
        texts(&lines),
        [
            "● x",
            "  │ 1",
            "  │ 2",
            "  │ 3",
            "  │ 4",
            "  └ preview only; overflow in temp file",
            "    output log (temporary): /tmp/x",
            ""
        ]
    );
}

#[test]
fn calls_are_shown_in_full() {
    let lines = tool_lines("ab\ncdef", &tool(ToolStatus::TimedOut(5), "x"), 4, true);
    assert_eq!(texts(&lines)[..3], ["● ab", "  cd", "  ef"]);
    assert_eq!(lines[1].bullet, None);
}

#[test]
fn blocks_are_shown_by_their_kind() {
    let show = |kind, text: &str, expanded| block_lines(&Block::new(kind, text.into()), 12, expanded);
    let lines = show(Kind::User, "hello\nthere", false);
    assert_eq!(texts(&lines), ["› hello", "  there", ""]);
    assert!(lines.iter().take(2).all(|l| l.color == Color::Accent && !l.italic));
    let lines = show(Kind::Agent, "text\n# head\n```x\ncode\n ```\n> q\nend", false);
    assert_eq!(texts(&lines), ["  text", "  # head", "  ```x", "  code", "   ```", "  > q", "  end", ""]);
    let colors: Vec<_> = lines.iter().map(|l| l.color).collect();
    assert_eq!(
        colors,
        [
            Color::Plain,
            Color::Accent,
            Color::Gray,
            Color::Accent,
            Color::Gray,
            Color::Accent,
            Color::Plain,
            Color::Gray
        ]
    );
    let lines = show(Kind::Thought, "1\n2\n3", false);
    assert_eq!(texts(&lines), ["  1", "  2", "  … Ctrl+O to expand", ""]);
    assert!(lines[0].italic && lines[2].italic && !lines[3].italic);
    assert_eq!(texts(&show(Kind::Thought, "1\n2\n3", true)), ["  1", "  2", "  3", ""]);
    assert_eq!(texts(&show(Kind::Thought, "1\n2", false)), ["  1", "  2", ""]);
    assert!(show(Kind::Thought, "\x1b[1m", false).is_empty());
    assert_eq!(texts(&show(Kind::Agent, "", false)), ["  ", ""]);
    for kind in [Kind::Notice, Kind::Warning] {
        let lines = show(kind, "something long", false);
        assert_eq!(texts(&lines), ["! something ", "long"]);
        assert!(lines.iter().all(|l| l.color == Color::Yellow));
    }
}
