use mu::editor::{nearest, Editor};
use mu::ui::{measure, positions_measured, wrap};

fn editor(text: &str, cursor: usize) -> Editor {
    let mut e = Editor::default();
    e.insert(text);
    e.cursor = cursor;
    e
}

fn after(text: &str, cursor: usize, f: impl Fn(&mut Editor)) -> (String, usize) {
    let mut e = editor(text, cursor);
    f(&mut e);
    (e.text(), e.cursor)
}

#[test]
fn text_is_put_in() {
    assert_eq!(after("ab", 1, |e| e.insert("x\ty\x1b[31m")), ("ax    yb".into(), 7));
    assert_eq!(after("abcd", 0, |e| e.replace(1..3, "é")), ("aéd".into(), 2));
    assert_eq!(after("ab", 1, |e| e.clear()), ("".into(), 0));
}

#[test]
fn characters_are_removed() {
    assert_eq!(after("ab", 1, |e| e.backspace()), ("b".into(), 0));
    assert_eq!(after("ab", 0, |e| e.backspace()), ("ab".into(), 0));
    assert_eq!(after("ab", 1, |e| e.delete()), ("a".into(), 1));
    assert_eq!(after("ab", 2, |e| e.delete()), ("ab".into(), 2));
}

#[test]
fn words_are_removed() {
    assert_eq!(after("one two  ", 9, |e| e.word_backspace()), ("one ".into(), 4));
    assert_eq!(after("one two", 5, |e| e.word_backspace()), ("one wo".into(), 4));
    assert_eq!(after("  x", 2, |e| e.word_backspace()), ("x".into(), 0));
    assert_eq!(after("x", 0, |e| e.word_backspace()), ("x".into(), 0));
}

#[test]
fn lines_are_cleared() {
    assert_eq!(after("a\nbc\nd", 3, |e| e.clear_line()), ("a\n\nd".into(), 2));
    assert_eq!(after("a\n\nd", 2, |e| e.clear_line()), ("a\nd".into(), 1));
    assert_eq!(after("\nd", 0, |e| e.clear_line()), ("d".into(), 0));
    assert_eq!(after("", 0, |e| e.clear_line()), ("".into(), 0));
}

#[test]
fn the_cursor_moves() {
    assert_eq!(after("a\nbc\nd", 3, |e| e.home()).1, 2);
    assert_eq!(after("a\nbc\nd", 2, |e| e.end()).1, 4);
    assert_eq!(after("ab", 0, |e| e.left()).1, 0);
    assert_eq!(after("ab", 2, |e| e.left()).1, 1);
    assert_eq!(after("ab", 2, |e| e.right()).1, 2);
    assert_eq!(after("ab", 1, |e| e.right()).1, 2);
}

#[test]
fn rows_keep_their_column() {
    let mut e = editor("abcd\nx\nefgh", 3);
    e.move_vertical(10, false);
    assert_eq!(e.cursor, 6);
    e.move_vertical(10, false);
    assert_eq!(e.cursor, 10);
    e.move_vertical(10, false);
    assert_eq!(e.cursor, 10);
    e.move_vertical(10, true);
    e.move_vertical(10, true);
    assert_eq!(e.cursor, 3);
    e.left();
    e.move_vertical(10, true);
    assert_eq!(e.cursor, 2);
    e.move_vertical(10, false);
    assert_eq!(e.cursor, 6);
}

#[test]
fn long_lines_are_rows_too() {
    let mut e = editor("abcdefgh", 1);
    e.move_vertical(3, false);
    assert_eq!(e.cursor, 4);
    e.move_vertical(3, false);
    assert_eq!(e.cursor, 7);
    assert_eq!(e.positions(3), [(0, 0), (0, 1), (0, 2), (1, 0), (1, 1), (1, 2), (2, 0), (2, 1), (2, 2)]);
    assert_eq!(editor("界界", 0).positions(3), [(0, 0), (0, 2), (1, 2)]);
    assert_eq!(editor("a界b", 0).positions(0), [(0, 0), (1, 0), (1, 0), (2, 0)]);
}

#[test]
fn the_closest_place_is_the_last_of_its_kind() {
    let places = vec![(0, 0), (0, 4), (1, 0), (1, 0), (1, 4)];
    assert_eq!(nearest(&places, 1, 2), Some(4));
    assert_eq!(nearest(&places, 1, 1), Some(3));
    assert_eq!(nearest(&places, 1, 9), Some(4));
    assert_eq!(nearest(&places, 2, 0), None);
}

#[test]
fn the_cursor_stands_in_the_text() {
    let text = "one two 界界x\n\nlong line with more é\u{301} words\nend";
    let chars: Vec<char> = text.chars().collect();
    for width in 3..12 {
        let places = positions_measured(&chars, &measure(&chars), width);
        for (k, place) in places.iter().enumerate() {
            let prefix: String = chars[..k].iter().collect();
            let rows = wrap(&format!("{prefix} "), width);
            let last: Vec<char> = rows.last().unwrap().chars().collect();
            let columns: usize = measure(&last).iter().sum();
            assert_eq!(*place, (rows.len() - 1, columns - 1), "{width} {k}");
        }
    }
}

#[test]
fn backspace_undoes_typing() {
    for at in 0..=3 {
        assert_eq!(after("a\nb", at, |e| { e.insert("x"); e.backspace() }), ("a\nb".into(), at));
        assert_eq!(after("a\nb", at, |e| { e.insert("x"); e.left(); e.delete() }), ("a\nb".into(), at));
    }
}

#[test]
fn clearing_lines_empties_the_input() {
    let text = "one\n\ntwo\n\n\nthree\n";
    for at in 0..=text.len() {
        let mut e = editor(text, at);
        let mut turns = 0;
        while !e.chars.is_empty() {
            e.clear_line();
            assert!(e.cursor <= e.chars.len());
            turns += 1;
            assert!(turns <= text.len());
        }
    }
}

#[test]
fn a_range_is_replaced_wherever_the_cursor_is() {
    for cursor in [0, 2, 3, 9] {
        let mut e = Editor { chars: "abc".chars().collect(), cursor, preferred_col: Some(1) };
        e.replace(1..2, "xyz");
        assert_eq!((e.text().as_str(), e.cursor, e.preferred_col), ("axyzc", 4, None));
    }
}
