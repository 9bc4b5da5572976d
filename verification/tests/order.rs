use mu::order::{is_less, sort, sort_distinct, sort_texts};

#[test]
fn names_stand_in_the_order_of_their_characters() {
    let names = ["", "a", "ab", "b", "A", "é", "𝄞", "z", "aa", "a/b", "a-b", "\u{ffff}"];
    for a in names {
        for b in names {
            let (x, y): (Vec<char>, Vec<char>) = (a.chars().collect(), b.chars().collect());
            assert_eq!(is_less(&x, &y), a < b, "{a} {b}");
        }
    }
}

#[test]
fn sorting_keeps_everything() {
    let names: Vec<String> = (0..300u64).map(|i| format!("{}", i.wrapping_mul(2654435761) % 97)).collect();
    let mut expected = names.clone();
    expected.sort();
    assert_eq!(sort_texts(names.clone()), expected);
    expected.dedup();
    assert_eq!(sort_distinct(names), expected);
    assert_eq!(sort_distinct(vec![]), Vec::<String>::new());
}

#[test]
fn rank_comes_before_name() {
    let items: Vec<(usize, Vec<char>)> =
        vec![(2, vec!['a']), (0, vec!['z']), (2, vec![]), (0, vec!['b']), (0, vec!['b'])];
    let mut expected = items.clone();
    expected.sort();
    assert_eq!(sort(items), expected);
}
