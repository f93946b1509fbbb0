use natural_sort::{natural_sort, HumanString, StringElem, Unorderable};
use std::cmp::Ordering;

fn letters(text: &str) -> StringElem {
    StringElem::Letters(text.chars().collect())
}

fn number(text: &str, digits: &[u8]) -> StringElem {
    StringElem::Number { text: text.chars().collect(), digits: digits.to_vec() }
}

fn compare_numseq(str1: &str, str2: &str) -> Option<Ordering> {
    HumanString::from_str(str1).partial_cmp(&HumanString::from_str(str2))
}

#[test]
fn test_makes_numseq() {
    let str1 = "123";
    let hstr1 = vec![number("123", &[1, 2, 3])];
    assert_eq!(HumanString::from_str(str1).elems(), &hstr1);

    let str2 = "abc";
    let hstr2 = vec![letters("abc")];
    assert_eq!(HumanString::from_str(str2).elems(), &hstr2);

    let str3 = "abc123xyz456";
    let hstr3 = vec![
        letters("abc"),
        number("123", &[1, 2, 3]),
        letters("xyz"),
        number("456", &[4, 5, 6]),
    ];
    assert_eq!(HumanString::from_str(str3).elems(), &hstr3);
}

#[test]
fn test_compares_numseq() {
    assert_eq!(compare_numseq("aaa", "aaa"), Some(Ordering::Equal));
    assert_eq!(compare_numseq("aaa", "aab"), Some(Ordering::Less));
    assert_eq!(compare_numseq("aab", "aaa"), Some(Ordering::Greater));
    assert_eq!(compare_numseq("aaa", "aa"), Some(Ordering::Greater));

    assert_eq!(compare_numseq("111", "111"), Some(Ordering::Equal));
    assert_eq!(compare_numseq("111", "112"), Some(Ordering::Less));
    assert_eq!(compare_numseq("112", "111"), Some(Ordering::Greater));

    assert_eq!(compare_numseq("a1", "a1"), Some(Ordering::Equal));
    assert_eq!(compare_numseq("a1", "a2"), Some(Ordering::Less));
    assert_eq!(compare_numseq("a2", "a1"), Some(Ordering::Greater));

    assert_eq!(compare_numseq("1a2", "1b1"), Some(Ordering::Less));

    assert_eq!(compare_numseq("1", "a"), None);
}

#[test]
fn test_natural_sort() {
    let mut files = ["file1.txt", "file11.txt", "file2.txt"];
    natural_sort(&mut files).unwrap();

    assert_eq!(files, ["file1.txt", "file2.txt", "file11.txt"]);
}

#[test]
fn empty_string_has_no_tokens() {
    assert!(HumanString::from_str("").elems().is_empty());
    assert_eq!(HumanString::from_str(""), HumanString::from_str(""));
}

#[test]
fn letters_keep_whitespace_and_punctuation() {
    let expected = vec![letters(" a.b, "), number("7", &[7]), letters("\t-_")];
    assert_eq!(HumanString::from_str(" a.b, 7\t-_").elems(), &expected);
}

#[test]
fn token_texts_give_back_the_string() {
    for s in ["", "abc", "123", "abc123xyz456", "007", "a1b22c333", "x٣y", " 1 2 "] {
        let human = HumanString::from_str(s);
        let mut joined = String::new();
        for elem in human.elems() {
            match elem {
                StringElem::Letters(text) => joined.extend(text.iter()),
                StringElem::Number { text, digits } => {
                    assert_eq!(text.len(), digits.len());
                    joined.extend(text.iter())
                },
            }
        }
        assert_eq!(joined, s);
    }
}

#[test]
fn runs_alternate_in_kind() {
    let human = HumanString::from_str("ab12cd345e6");
    let kinds: Vec<bool> =
        human.elems().iter().map(|e| matches!(e, StringElem::Number { .. })).collect();
    assert_eq!(kinds, vec![false, true, false, true, false, true]);
}

#[test]
fn smaller_number_sorts_first_after_shared_prefix() {
    for (n, m) in [(0u64, 1u64), (2, 11), (9, 10), (99, 100), (123, 1000), (18446744073709551614, 18446744073709551615)] {
        for p in ["", "file", "a b-"] {
            let left = format!("{}{}", p, n);
            let right = format!("{}{}", p, m);
            assert_eq!(compare_numseq(&left, &right), Some(Ordering::Less));
            assert_eq!(compare_numseq(&right, &left), Some(Ordering::Greater));
        }
    }
}

#[test]
fn numbers_beyond_machine_words_compare_by_magnitude() {
    let small = "99999999999999999999999999999999999999999";
    let large = "100000000000000000000000000000000000000000";
    assert_eq!(compare_numseq(small, large), Some(Ordering::Less));
    assert_eq!(compare_numseq(large, small), Some(Ordering::Greater));
    assert_eq!(compare_numseq(large, large), Some(Ordering::Equal));
    assert_eq!(
        compare_numseq("340282366920938463463374607431768211456", "340282366920938463463374607431768211457"),
        Some(Ordering::Less)
    );
}

#[test]
fn comparison_is_reflexive() {
    for s in ["", "a", "1", "a1", "1a", "007", "abc123xyz456", "٣"] {
        assert_eq!(compare_numseq(s, s), Some(Ordering::Equal));
    }
}

#[test]
fn string_sorts_before_its_extension() {
    assert_eq!(compare_numseq("a", "a1"), Some(Ordering::Less));
    assert_eq!(compare_numseq("", "a"), Some(Ordering::Less));
    assert_eq!(compare_numseq("", "1"), Some(Ordering::Less));
    assert_eq!(compare_numseq("a", "ab"), Some(Ordering::Less));
    assert_eq!(compare_numseq("1", "10"), Some(Ordering::Less));
    assert_eq!(compare_numseq("a1", "a1b"), Some(Ordering::Less));
    assert_eq!(compare_numseq("a0", "a00b"), Some(Ordering::Less));
    assert_eq!(compare_numseq("a1", "a"), Some(Ordering::Greater));
}

#[test]
fn zero_extended_by_zeros_stays_equal() {
    assert_eq!(compare_numseq("0", "00"), Some(Ordering::Equal));
    assert_eq!(compare_numseq("a0", "a000"), Some(Ordering::Equal));
    assert_eq!(compare_numseq("0", "01"), Some(Ordering::Less));
}

#[test]
fn number_and_letters_have_no_order() {
    assert_eq!(compare_numseq("1", "a"), None);
    assert_eq!(compare_numseq("a", "1"), None);
    assert_eq!(compare_numseq("a1", "ab"), Some(Ordering::Less));
    assert_eq!(compare_numseq("a1b", "a1 2"), Some(Ordering::Greater));
    assert_eq!(compare_numseq("x1", "1x"), None);
}

#[test]
fn first_difference_decides() {
    assert_eq!(compare_numseq("a2b1", "a10b0"), Some(Ordering::Less));
    assert_eq!(compare_numseq("b1", "a2"), Some(Ordering::Greater));
    assert_eq!(compare_numseq("a1b", "a1c"), Some(Ordering::Less));
}

#[test]
fn leading_zeros_do_not_change_the_order() {
    assert_eq!(compare_numseq("007", "7"), Some(Ordering::Equal));
    assert_ne!(HumanString::from_str("007"), HumanString::from_str("7"));
    assert_eq!(compare_numseq("a007", "a8"), Some(Ordering::Less));
    assert_eq!(compare_numseq("010", "9"), Some(Ordering::Greater));
    assert_eq!(
        HumanString::from_str("007").elems(),
        &vec![number("007", &[0, 0, 7])]
    );
}

#[test]
fn letters_compare_by_code_point() {
    assert_eq!(compare_numseq("B", "a"), Some(Ordering::Less));
    assert_eq!(compare_numseq("z", "é"), Some(Ordering::Less));
    assert_eq!(compare_numseq("é", "\u{10000}"), Some(Ordering::Less));
    assert_eq!(compare_numseq("\u{ffff}", "\u{10000}"), Some(Ordering::Less));
}

#[test]
fn digits_of_other_scripts_are_numeric() {
    let arabic = HumanString::from_str("x\u{663}\u{660}");
    assert_eq!(arabic.elems(), &vec![letters("x"), number("\u{663}\u{660}", &[3, 0])]);
    assert_eq!(compare_numseq("\u{663}", "3"), Some(Ordering::Equal));
    assert_eq!(compare_numseq("\u{662}", "\u{663}"), Some(Ordering::Less));
    assert_eq!(compare_numseq("1\u{660}", "9"), Some(Ordering::Greater));
    let bold_nine = HumanString::from_str("\u{1d7d7}");
    assert_eq!(bold_nine.elems(), &vec![number("\u{1d7d7}", &[9])]);
    let double_struck = HumanString::from_str("\u{1d7d8}\u{1d7e1}\u{1d7ff}");
    assert_eq!(
        double_struck.elems(),
        &vec![number("\u{1d7d8}\u{1d7e1}\u{1d7ff}", &[0, 9, 9])]
    );
    let fullwidth = HumanString::from_str("\u{ff10}\u{ff19}");
    assert_eq!(fullwidth.elems(), &vec![number("\u{ff10}\u{ff19}", &[0, 9])]);
}

#[test]
fn other_number_characters_are_letters() {
    let human = HumanString::from_str("\u{bd}\u{2167}\u{b2}:/");
    assert_eq!(human.elems(), &vec![letters("\u{bd}\u{2167}\u{b2}:/")]);
    let mixed = HumanString::from_str("\u{e9}1\u{4e2d}");
    assert_eq!(mixed.elems(), &vec![letters("\u{e9}"), number("1", &[1]), letters("\u{4e2d}")]);
}

#[test]
fn sort_orders_by_magnitude() {
    let mut names = ["z10", "z9", "z100", "z1", "z09", "z"];
    assert_eq!(natural_sort(&mut names), Ok(()));
    assert_eq!(names[0], "z");
    assert_eq!(names[1], "z1");
    assert_eq!(names[4], "z10");
    assert_eq!(names[5], "z100");
    let mut middle = [names[2], names[3]];
    middle.sort();
    assert_eq!(middle, ["z09", "z9"]);
}

#[test]
fn sort_of_nothing_and_of_one() {
    let mut none: [&str; 0] = [];
    assert_eq!(natural_sort(&mut none), Ok(()));
    let mut one = ["only"];
    assert_eq!(natural_sort(&mut one), Ok(()));
    assert_eq!(one, ["only"]);
}

#[test]
fn sort_keeps_every_string() {
    let mut names = vec!["b2", "a10", "", "a2", "b", "a", "a2", "b10x", "b10"];
    assert_eq!(natural_sort(&mut names), Ok(()));
    assert_eq!(names, vec!["", "a", "a2", "a2", "a10", "b", "b2", "b10", "b10x"]);
}

#[test]
fn sort_reports_the_first_pair_without_order() {
    let mut names = ["", "a1", "b", "7", "c", "8"];
    let outcome = natural_sort(&mut names);
    assert_eq!(outcome, Err(Unorderable { left: "a1".to_string(), right: "7".to_string() }));
    assert_eq!(names, ["", "a1", "b", "7", "c", "8"]);

    let mut pair = ["1", "a"];
    assert_eq!(
        natural_sort(&mut pair),
        Err(Unorderable { left: "1".to_string(), right: "a".to_string() })
    );
    assert_eq!(pair, ["1", "a"]);
}

#[test]
fn sort_of_many_strings() {
    let owned: Vec<String> = (0..500u32).rev().map(|n| format!("item{}", (n * 7919) % 1000)).collect();
    let mut names: Vec<&str> = owned.iter().map(|s| s.as_str()).collect();
    assert_eq!(natural_sort(&mut names), Ok(()));
    for pair in names.windows(2) {
        let left: u32 = pair[0][4..].parse().unwrap();
        let right: u32 = pair[1][4..].parse().unwrap();
        assert!(left <= right);
    }
    assert_eq!(names.len(), 500);
}

#[test]
fn smaller_number_sorts_first_between_shared_letters() {
    assert_eq!(compare_numseq("img2.png", "img11.png"), Some(Ordering::Less));
    assert_eq!(compare_numseq("v9-final", "v10-final"), Some(Ordering::Less));
    assert_eq!(compare_numseq("0x", "1x"), Some(Ordering::Less));
}

#[test]
fn order_turns_round_when_the_sides_are_swapped() {
    let samples = ["", "a", "a1", "a01", "a2", "a10", "a10b", "b", "ab"];
    for x in samples {
        for y in samples {
            let there = compare_numseq(x, y);
            let back = compare_numseq(y, x);
            assert_eq!(there.map(Ordering::reverse), back);
        }
    }
}

#[test]
fn order_is_transitive() {
    let samples = ["", "a", "a1", "a01", "a2", "a10", "a10b", "b", "ab", "a1b2", "a1b10"];
    for x in samples {
        for y in samples {
            for z in samples {
                let first = compare_numseq(x, y);
                let second = compare_numseq(y, z);
                if first != Some(Ordering::Greater) && second != Some(Ordering::Greater) {
                    let both = compare_numseq(x, z);
                    if first == Some(Ordering::Equal) && second == Some(Ordering::Equal) {
                        assert_eq!(both, Some(Ordering::Equal));
                    } else {
                        assert_eq!(both, Some(Ordering::Less));
                    }
                }
            }
        }
    }
}

#[test]
fn strings_that_start_alike_always_have_an_order() {
    let letters_first = ["a", "a1", "b2c", "é9", " 0"];
    let digits_first = ["1", "1a", "22b3", "\u{663}x", "0 "];
    for x in letters_first {
        for y in letters_first {
            assert!(compare_numseq(x, y).is_some());
        }
        for y in digits_first {
            assert_eq!(compare_numseq(x, y), None);
            assert_eq!(compare_numseq(y, x), None);
        }
        assert_eq!(compare_numseq("", x), Some(Ordering::Less));
    }
    for x in digits_first {
        for y in digits_first {
            assert!(compare_numseq(x, y).is_some());
        }
    }
}

#[test]
fn sort_leaves_no_string_after_a_later_one() {
    let mut names = vec!["x007", "x7", "x08", "x6z", "x6", "x", "x10", "x07", "x\u{667}"];
    assert_eq!(natural_sort(&mut names), Ok(()));
    for i in 0..names.len() {
        for j in i + 1..names.len() {
            let order = compare_numseq(names[i], names[j]);
            assert!(order == Some(Ordering::Less) || order == Some(Ordering::Equal));
        }
    }
    let mut counted = names.clone();
    counted.sort();
    let mut expected = vec!["x007", "x7", "x08", "x6z", "x6", "x", "x10", "x07", "x\u{667}"];
    expected.sort();
    assert_eq!(counted, expected);
}

#[test]
fn sort_handles_letters_and_digits_of_other_scripts() {
    let mut names = ["caf\u{e9}\u{661}\u{660}", "caf\u{e9}9", "caf\u{e9}", "cafe12"];
    assert_eq!(natural_sort(&mut names), Ok(()));
    assert_eq!(names, ["cafe12", "caf\u{e9}", "caf\u{e9}9", "caf\u{e9}\u{661}\u{660}"]);
}

#[test]
fn sort_of_strings_that_are_all_empty() {
    let mut names = ["", "", ""];
    assert_eq!(natural_sort(&mut names), Ok(()));
    assert_eq!(names, ["", "", ""]);
}

#[test]
fn strings_are_the_same_only_with_the_same_runs() {
    assert!(HumanString::from_str("a12b") == HumanString::from_str("a12b"));
    assert!(HumanString::from_str("") == HumanString::from_str(""));
    assert!(HumanString::from_str("5") != HumanString::from_str("05"));
    assert!(HumanString::from_str("5") != HumanString::from_str("\u{665}"));
    assert!(HumanString::from_str("a1") != HumanString::from_str("a"));
    assert!(HumanString::from_str("a1") != HumanString::from_str("a1b"));
    assert!(HumanString::from_str("ab") != HumanString::from_str("ac"));
    assert!(HumanString::from_str("1") != HumanString::from_str("a"));
    assert_eq!(compare_numseq("5", "\u{665}"), Some(Ordering::Equal));
}
