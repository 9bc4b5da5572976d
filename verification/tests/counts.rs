use mu::counts::{compact, parse, percent};

#[test]
fn parses_context_counts() {
    for (input, expected) in [
        ("128000", 128_000),
        ("128k", 128_000),
        ("1.5M", 1_500_000),
        (".5k", 500),
        ("1.0000k", 1_000),
        ("2G", 2_000_000_000),
        ("2b", 2_000_000_000),
        ("1t", 1_000_000_000_000),
        ("1p", 1_000_000_000_000_000),
        ("1e", 1_000_000_000_000_000_000),
        ("18446744073709551615", u64::MAX),
    ] {
        assert_eq!(parse(input), Some(expected), "{input}");
    }
}

#[test]
fn rejects_invalid_context_counts() {
    for input in [
        "",
        "0",
        "0k",
        "-1k",
        "k",
        "1x",
        "1.5",
        "1.k",
        "1.0001k",
        "0.0001k",
        "1.2.3k",
        "18446744073709551616",
        "18446744073709551616k",
        "20e",
    ] {
        assert_eq!(parse(input), None, "{input}");
    }
}

#[test]
fn compact_status_counts() {
    for (count, expected) in [
        (0, "0"),
        (999, "999"),
        (1_000, "1.0k"),
        (15_500, "15.5k"),
        (999_949, "999.9k"),
        (999_950, "1.0M"),
        (1_000_000, "1.0M"),
        (1_000_000_000, "1.0B"),
        (1_000_000_000_000, "1.0T"),
    ] {
        assert_eq!(compact(count), expected, "{count}");
    }
}

#[test]
fn counts_take_a_sign_and_either_case() {
    assert_eq!(parse("+5"), Some(5));
    assert_eq!(parse("+5k"), Some(5_000));
    assert_eq!(parse("+1.5K"), Some(1_500));
    assert_eq!(parse("+"), None);
    assert_eq!(parse("+.5k"), None);
    assert_eq!(parse("1g"), Some(1_000_000_000));
    assert_eq!(parse("18.446744073709551615e"), Some(u64::MAX));
    assert_eq!(parse("18.446744073709551616e"), None);
    assert_eq!(parse("0.000000000000000001E"), Some(1));
    assert_eq!(parse("0.0000000000000000010E"), Some(1));
    assert_eq!(parse("0.0000000000000000001E"), None);
    assert_eq!(parse("1.5é"), None);
}

#[test]
fn written_counts_are_read_back() {
    for n in [1, 9, 10, 99, 1_000, 123_456_789, u64::MAX - 1, u64::MAX] {
        assert_eq!(parse(&n.to_string()), Some(n));
    }
}

fn float_compact(n: u64) -> String {
    let units = [
        ("k", 1_000u64),
        ("M", 1_000_000),
        ("B", 1_000_000_000),
        ("T", 1_000_000_000_000),
        ("P", 1_000_000_000_000_000),
        ("E", 1_000_000_000_000_000_000),
    ];
    if n < 1_000 {
        return n.to_string();
    }
    let mut at = 0;
    while at + 1 < units.len() && n as f64 >= (units[at + 1].1 - units[at].1 / 20) as f64 {
        at += 1;
    }
    format!("{:.1}{}", n as f64 / units[at].1 as f64, units[at].0)
}

#[test]
fn counts_are_rounded_as_doubles_are() {
    let mut n: u64 = 1;
    let mut seed: u64 = 0x9e3779b97f4a7c15;
    for _ in 0..200_000 {
        seed ^= seed << 13;
        seed ^= seed >> 7;
        seed ^= seed << 17;
        n = seed >> (n % 61);
        assert_eq!(compact(n), float_compact(n), "{n}");
    }
    for unit in [1_000u64, 1_000_000, 1_000_000_000, 1_000_000_000_000, 1_000_000_000_000_000] {
        for k in 0..2_000 {
            let n = unit + unit / 20 * k;
            for n in [n - 1, n, n + 1] {
                assert_eq!(compact(n), float_compact(n), "{n}");
            }
        }
    }
    for n in [u64::MAX, u64::MAX - 1024, 1 << 53, (1 << 53) + 1, (1 << 63) + 1] {
        assert_eq!(compact(n), float_compact(n), "{n}");
    }
}

#[test]
fn a_thousand_is_one_of_the_next_unit() {
    for unit in [1_000u64, 1_000_000, 1_000_000_000, 1_000_000_000_000] {
        let most = unit * 1_000 - unit / 20 - 1;
        assert!(compact(most).starts_with("999.9"), "{most}");
        assert!(compact(most + 1).starts_with("1.0"), "{most}");
    }
    // Its double is that of the first count in the next unit.
    assert_eq!(compact(999_949_999_999_999_999), "1.0E");
}

#[test]
fn percentages_are_rounded_as_doubles_are() {
    assert_eq!(percent(0, 0), "0.0%");
    assert_eq!(percent(1, 0), "100.0%");
    assert_eq!(percent(1, 3), "33.3%");
    assert_eq!(percent(2, 3), "66.7%");
    let mut seed: u64 = 0x2545f4914f6cdd1d;
    for k in 0..100_000u64 {
        seed ^= seed << 13;
        seed ^= seed >> 7;
        seed ^= seed << 17;
        let cached = seed >> (k % 64);
        let input = (seed.rotate_left(32)) >> (k % 59);
        let expected = format!("{:.1}%", 100.0 * cached as f64 / input.max(1) as f64);
        assert_eq!(percent(cached, input), expected, "{cached} {input}");
    }
    for input in 1..200u64 {
        for cached in 0..=input {
            let expected = format!("{:.1}%", 100.0 * cached as f64 / input as f64);
            assert_eq!(percent(cached, input), expected, "{cached} {input}");
        }
    }
}

#[test]
fn the_unit_is_that_of_the_double() {
    let first: u64 = 999_949_999_999_999_936;
    for n in first..999_950_000_000_000_000 {
        assert_eq!(compact(n), "1.0E");
    }
    assert_eq!(compact(first - 1), "999.9P");
    assert_eq!(compact(999_950_000_000_000_000), "1.0E");
    assert_eq!(compact(999_949_999_999_999), "999.9T");
    assert_eq!(compact(999_950_000_000_000), "1.0P");
    assert_eq!(compact(u64::MAX), "18.4E");
    assert_eq!(compact(1_050), "1.1k");
}

#[test]
fn shown_counts_are_read_back() {
    for n in 1..1_000u64 {
        assert_eq!(parse(&compact(n)), Some(n));
    }
    let mut seed: u64 = 0x9e3779b97f4a7c15;
    for k in 0..50_000u64 {
        seed ^= seed << 13;
        seed ^= seed >> 7;
        seed ^= seed << 17;
        let n = 1_000 + (seed >> (k % 54)) % 999_999_999_999_000;
        let shown = compact(n);
        let m = parse(&shown).unwrap();
        let unit = parse(&format!("1{}", shown.chars().last().unwrap())).unwrap();
        assert_eq!(compact(m), shown, "{n}");
        assert!(m.abs_diff(n) <= unit / 20, "{n}");
    }
    assert_eq!(parse(&compact(1_050)), Some(1_100));
    assert_eq!(parse(&compact(999_999_999_999_999)), Some(1_000_000_000_000_000));
}
