use wizpatch::text::{
    align_right, chars_of, decimal_text, find_slash, find_text, matches_ignoring_case, read_number, replace,
    same_text, stands_at,
};

#[test]
fn replacing_agrees_with_std() {
    let texts = ["", "a", "aaa", "abab", "xabx", "h\u{e9}h\u{e9}", "WizPatcher/V_1/V_1"];
    let patterns = ["", "a", "aa", "ab", "\u{e9}", "V_1", "longer than all of the texts"];
    let news = ["", "b", "aa", "-\u{fc}-"];
    for s in texts {
        for from in patterns {
            for to in news {
                assert_eq!(replace(s, from, to), s.replace(from, to));
            }
        }
    }
    assert_eq!(replace("abc", "", "-"), "-a-b-c-");
    assert_eq!(replace("aaa", "aa", "b"), "ba");
}

#[test]
fn numbers_agree_with_std() {
    let max = usize::MAX.to_string();
    let over = (usize::MAX as u128 + 1).to_string();
    let over_ten = (usize::MAX as u128 * 10).to_string();
    let texts = [
        "", "0", "1", "007", "+", "+5", "++5", "-1", "-0", " 1", "1 ", "1_0", "0x1", "\u{663}", "12345678901234567890123",
        "00000000000000000000000000000000000001", max.as_str(), over.as_str(), over_ten.as_str(),
    ];
    for s in texts {
        assert_eq!(read_number(s), s.parse::<usize>().ok(), "{s}");
    }
}

#[test]
fn decimals_agree_with_std() {
    for n in [0u64, 1, 9, 10, 99, 100, 12345, 1_000_000, u64::MAX] {
        assert_eq!(decimal_text(n), n.to_string());
    }
    assert_eq!(decimal_text(4096), "4096");
}

#[test]
fn alignment_agrees_with_std() {
    for s in ["", "1", "1234", "12345", "123456", "\u{e9}"] {
        assert_eq!(align_right(s, 5), format!("{s:>5}"));
    }
    assert_eq!(align_right("7", 0), "7");
}

#[test]
fn case_is_ignored_for_ascii_alone() {
    let pairs = [("Steam", "sTEAM"), ("a", "b"), ("@", "`"), ("[", "{"), ("", ""), ("a", "aa"), ("\u{c9}", "\u{e9}")];
    for (a, b) in pairs {
        assert_eq!(matches_ignoring_case(a, b), a.eq_ignore_ascii_case(b));
    }
}

#[test]
fn texts_are_compared_whole() {
    assert!(same_text("", ""));
    assert!(same_text("h\u{e9}", "h\u{e9}"));
    assert!(!same_text("ab", "a"));
    assert!(!same_text("ab", "ac"));
}

#[test]
fn searching_gives_the_leftmost_place() {
    let s = chars_of("abcabc");
    assert_eq!(find_text(&s, &chars_of("bc")), Some(1));
    assert_eq!(find_text(&s, &chars_of("")), Some(0));
    assert_eq!(find_text(&s, &chars_of("cb")), None);
    assert_eq!(find_text(&s, &chars_of("abcabcabc")), None);
    assert!(stands_at(&s, &chars_of("abc"), 3));
    assert!(!stands_at(&s, &chars_of("abc"), 4));
    assert!(!stands_at(&s, &chars_of("abc"), usize::MAX));
    assert_eq!(find_slash(&chars_of("ab/c/d"), 0), 2);
    assert_eq!(find_slash(&chars_of("ab/c/d"), 3), 4);
    assert_eq!(find_slash(&chars_of("ab"), 1), 2);
}
