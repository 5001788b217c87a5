use launcher_core::order::{precedes_exec, stable_order};
use launcher_core::text::{
    byte_len_capped, chars_of, find_char, find_chars, has_prefix, has_suffix, is_space,
    is_text_below, prefix_byte_len_capped, prefix_len_within, same_chars, slice_chars,
    split_at_char, split_lines, split_words, string_of, trim_chars, width_of,
};

fn chars(s: &str) -> Vec<char> {
    s.chars().collect()
}

fn strings(parts: Vec<Vec<char>>) -> Vec<String> {
    parts.into_iter().map(|p| p.into_iter().collect()).collect()
}

#[test]
fn strings_and_characters_convert_both_ways() {
    assert_eq!(chars_of("h\u{e9}llo"), chars("h\u{e9}llo"));
    assert_eq!(string_of(&chars("w\u{f6}rld")), "w\u{f6}rld");
    assert_eq!(string_of(&chars_of("")), "");
}

#[test]
fn width_is_the_length_in_utf8() {
    for c in ['a', '\u{7f}', '\u{80}', '\u{7ff}', '\u{800}', '\u{ffff}', '\u{10000}', '\u{10ffff}'] {
        assert_eq!(width_of(c), c.len_utf8());
    }
    assert_eq!(byte_len_capped(&chars("a\u{e9}\u{20ac}"), 100), 6);
    assert!(byte_len_capped(&chars("abcdef"), 3) > 3);
    assert_eq!(prefix_byte_len_capped(&chars("a\u{e9}\u{20ac}"), 2, 100), 3);
    assert_eq!(prefix_len_within(&chars("a\u{e9}\u{20ac}z"), 3), 2);
    assert_eq!(prefix_len_within(&chars("a\u{e9}\u{20ac}z"), 5), 2);
    assert_eq!(prefix_len_within(&chars("a\u{e9}\u{20ac}z"), 6), 3);
    assert_eq!(prefix_len_within(&chars("abc"), 10), 3);
    assert_eq!(prefix_len_within(&chars("\u{20ac}"), 2), 0);
}

#[test]
fn white_space_is_what_std_calls_so() {
    for u in 0..0x11_0000u32 {
        if let Some(c) = char::from_u32(u) {
            assert_eq!(is_space(c), c.is_whitespace(), "U+{:04X}", u);
        }
    }
}

#[test]
fn trim_words_and_lines_agree_with_std() {
    let samples = [
        "",
        " ",
        "  a  ",
        "\t\n a b \r\n",
        "one two\tthree\u{a0}four\u{3000}",
        "line one\nline two\r\nline three\rstill three\n\nlast",
        "ends with newline\n",
        "\n\nleading",
        "a\r",
        "\r\n",
        "x;y;;z;",
    ];
    for s in samples {
        let c = chars(s);
        assert_eq!(string_of(&trim_chars(&c)), s.trim(), "trim of {:?}", s);
        let words: Vec<String> = s.split_whitespace().map(|w| w.to_string()).collect();
        assert_eq!(strings(split_words(&c)), words, "words of {:?}", s);
        let lines: Vec<String> = s.lines().map(|l| l.to_string()).collect();
        assert_eq!(strings(split_lines(&c)), lines, "lines of {:?}", s);
        let pieces: Vec<String> = s.split(';').map(|p| p.to_string()).collect();
        assert_eq!(strings(split_at_char(&c, ';')), pieces, "pieces of {:?}", s);
    }
}

#[test]
fn order_of_texts_is_the_order_of_strings() {
    let samples = ["", "a", "ab", "b", "B", "\u{e9}", "z", "\u{10000}", "\u{ffff}", "2024-01-02", "2024-01-10"];
    for a in samples {
        for b in samples {
            assert_eq!(is_text_below(&chars(a), &chars(b)), a < b, "{:?} < {:?}", a, b);
            assert_eq!(same_chars(&chars(a), &chars(b)), a == b);
        }
    }
}

#[test]
fn finding_texts_and_characters() {
    assert_eq!(find_chars(&chars("hello world"), &chars("o w")), Some(4));
    assert_eq!(find_chars(&chars("aaa"), &chars("aa")), Some(0));
    assert_eq!(find_chars(&chars("abc"), &chars("")), Some(0));
    assert_eq!(find_chars(&chars(""), &chars("")), Some(0));
    assert_eq!(find_chars(&chars("abc"), &chars("abcd")), None);
    assert_eq!(find_chars(&chars("abc"), &chars("d")), None);
    assert_eq!(find_chars(&chars("xxabc"), &chars("abc")), Some(2));
    assert_eq!(find_char(&chars("a=b=c"), 0, '='), 1);
    assert_eq!(find_char(&chars("a=b=c"), 2, '='), 3);
    assert_eq!(find_char(&chars("a=b=c"), 4, '='), 5);
    assert_eq!(slice_chars(&chars("abcdef"), 2, 4), chars("cd"));
    assert!(has_prefix(&chars("file://x"), &chars("file://")));
    assert!(!has_prefix(&chars("file:/"), &chars("file://")));
    assert!(has_suffix(&chars("Safari.app"), &chars(".app")));
    assert!(!has_suffix(&chars("app"), &chars(".app")));
    assert!(has_suffix(&chars("x"), &chars("")));
}

#[test]
fn stable_order_sorts_and_keeps_ties() {
    let keys: Vec<u64> = vec![5, 3, 9, 3, 5, 0];
    assert_eq!(stable_order(&keys, false), vec![5, 1, 3, 0, 4, 2]);
    assert_eq!(stable_order(&keys, true), vec![2, 0, 4, 1, 3, 5]);
    assert_eq!(stable_order(&Vec::<u64>::new(), true), Vec::<usize>::new());
    let scores: Vec<i32> = vec![-1, 7, 7, i32::MIN, i32::MAX];
    assert_eq!(stable_order(&scores, true), vec![4, 1, 2, 0, 3]);
    let sizes: Vec<usize> = vec![2, 1, 2];
    assert_eq!(stable_order(&sizes, false), vec![1, 0, 2]);
    let names = vec![chars("b"), chars("a"), chars("b"), chars("")];
    assert_eq!(stable_order(&names, false), vec![3, 1, 0, 2]);
    assert!(precedes_exec(&1u64, &2u64, false));
    assert!(!precedes_exec(&1u64, &2u64, true));
    assert!(!precedes_exec(&2u64, &2u64, true));
    let mut sorted = keys.clone();
    sorted.sort();
    let by_order: Vec<u64> = stable_order(&keys, false).iter().map(|&i| keys[i]).collect();
    assert_eq!(by_order, sorted);
}
