use corpus::ordered::{text_less, StringMap};
use corpus::sorting::stable_sort;
use corpus::search::Scored;
use corpus::text::{
    find_char, is_white_space, join, parse_number, split, split_white_space, to_ascii_lower, trim,
    Separator,
};

const SAMPLES: [&str; 14] = [
    "",
    " ",
    "a",
    " a ",
    "a b",
    "\t a \u{a0}b\u{3000}\n",
    "one,two,,three",
    ",",
    "line one\nline two\r\n",
    "é🦀 ß",
    "ABC def ÄÖ",
    "k=v=w",
    "+12",
    "00042",
];

#[test]
fn white_space_is_that_of_unicode() {
    for n in 0..=0x10FFFFu32 {
        if let Some(c) = char::from_u32(n) {
            assert_eq!(is_white_space(c), c.is_whitespace(), "at {n:x}");
        }
    }
}

#[test]
fn trimming_and_splitting_agree_with_std() {
    for s in SAMPLES {
        assert_eq!(trim(s), s.trim());
        let words: Vec<String> = s.split_whitespace().map(String::from).collect();
        assert_eq!(split_white_space(s), words);
        let pieces: Vec<String> = s.split(',').map(String::from).collect();
        assert_eq!(split(s, Separator::Char(',')), pieces);
        let runs: Vec<String> = s
            .split(|c: char| !c.is_alphanumeric())
            .map(String::from)
            .collect();
        assert_eq!(split(s, Separator::NonAlphanumeric), runs);
        assert_eq!(join(&pieces, ", "), pieces.join(", "));
        assert_eq!(to_ascii_lower(s), s.to_ascii_lowercase());
    }
}

#[test]
fn numbers_are_read_as_std_reads_them() {
    let max = usize::MAX.to_string();
    let over = format!("{max}0");
    let just_over = format!("1{}", "0".repeat(max.len()));
    for s in ["0", "1", "42", "007", "+7", "+", "", "-1", " 1", "1 ", "1_0", "1.0", "x", "٣"] {
        assert_eq!(parse_number(s), s.parse::<usize>().ok(), "for {s:?}");
    }
    for s in [&max, &over, &just_over] {
        assert_eq!(parse_number(s), s.parse::<usize>().ok());
    }
    assert_eq!(parse_number("+1536"), Some(1536));
}

#[test]
fn texts_are_ordered_as_std_orders_them() {
    for a in SAMPLES {
        for b in SAMPLES {
            assert_eq!(text_less(a, b), a < b, "for {a:?} and {b:?}");
        }
    }
}

#[test]
fn characters_are_found() {
    let chars: Vec<char> = "k=v=w".chars().collect();
    assert_eq!(find_char(&chars, '='), Some(1));
    assert_eq!(find_char(&chars, 'x'), None);
}

#[test]
fn a_map_keeps_the_last_value() {
    let mut m: StringMap<String> = StringMap::new();
    assert_eq!(m.len(), 0);
    m.insert("b".to_string(), "1".to_string());
    m.insert("a".to_string(), "2".to_string());
    m.insert("b".to_string(), "3".to_string());
    assert_eq!(m.len(), 2);
    assert_eq!(m.get("b").map(|s| s.as_str()), Some("3"));
    assert_eq!(m.entry(0).0.as_str(), "a");
    assert_eq!(m.remove("a"), Some("2".to_string()));
    assert_eq!(m.remove("a"), None);
    assert_eq!(m.len(), 1);
}

#[test]
fn sorting_is_stable() {
    let scored = |id: &str, score: f32| Scored { id: id.to_string(), score: score.to_bits() };
    let sorted = stable_sort(vec![
        scored("a", 0.5),
        scored("b", 1.0),
        scored("c", 0.5),
        scored("d", -1.0),
        scored("e", 1.0),
        scored("f", -0.0),
        scored("g", 0.0),
    ]);
    let ids: Vec<&str> = sorted.iter().map(|s| s.id.as_str()).collect();
    assert_eq!(ids, vec!["b", "e", "a", "c", "f", "g", "d"]);
}
