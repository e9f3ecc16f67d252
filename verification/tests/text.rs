use memory_store::text::{
    chars_of, compact, contains, is_white_space, copy_opt_text, copy_texts, find, join, lowercase,
    matches_at, push_all, push_str, replace_char, same_str, same_text, slice_of, split,
    split_words, string_of, strip, trim, write_decimal, CharClass,
};

fn chars(s: &str) -> Vec<char> {
    s.chars().collect()
}

fn text(v: Vec<char>) -> String {
    v.into_iter().collect()
}

fn texts(v: Vec<Vec<char>>) -> Vec<String> {
    v.into_iter().map(text).collect()
}

#[test]
fn strings_and_characters_convert_both_ways() {
    assert_eq!(chars_of("a项b"), vec!['a', '项', 'b']);
    assert_eq!(chars_of(""), Vec::<char>::new());
    assert_eq!(string_of(&chars("a项b")), "a项b");
    assert_eq!(string_of(&Vec::new()), "");
    assert_eq!(text(slice_of(&chars("abcdef"), 2, 4)), "cd");
    assert_eq!(text(slice_of(&chars("abcdef"), 3, 3)), "");
    let mut out = chars("x");
    push_all(&mut out, &chars("yz"));
    push_str(&mut out, "项目");
    assert_eq!(text(out), "xyz项目");
    assert_eq!(copy_texts(&vec!["a".to_string(), "b".to_string()]), vec!["a", "b"]);
    assert_eq!(copy_opt_text(&Some("a".to_string())), Some("a".to_string()));
    assert_eq!(copy_opt_text(&None), None);
}

#[test]
fn texts_compare_by_their_characters() {
    assert!(same_text(&chars("项目"), &chars("项目")));
    assert!(!same_text(&chars("项目"), &chars("项")));
    assert!(!same_text(&chars("ab"), &chars("ac")));
    assert!(same_text(&chars(""), &chars("")));
    assert!(same_str("memories.jsonl", "memories.jsonl"));
    assert!(!same_str("a", "A"));
}

#[test]
fn lowercasing_follows_unicode() {
    assert_eq!(text(lowercase(&chars("ERP 项目 ÄÖ"))), "erp 项目 äö");
    assert_eq!(text(lowercase(&chars("İ"))), "i\u{307}");
    assert_eq!(text(lowercase(&chars("ΑΣ"))), "ας");
    assert_eq!(text(lowercase(&chars(""))), "");
}

#[test]
fn trimming_takes_white_space_off_both_ends() {
    assert_eq!(text(trim(&chars("  a b \t\n"))), "a b");
    assert_eq!(text(trim(&chars("\u{3000}项目\u{a0}"))), "项目");
    assert_eq!(text(trim(&chars(" \t "))), "");
    assert_eq!(text(trim(&chars(""))), "");
    assert_eq!(text(trim(&chars("x"))), "x");
    assert_eq!(text(strip(&chars(". .a.b. ."), CharClass::SpaceOrDot)), "a.b");
    assert_eq!(text(strip(&chars("..."), CharClass::SpaceOrDot)), "");
    assert_eq!(text(strip(&chars("\t.a"), CharClass::SpaceOrDot)), "\t.a");
    assert_eq!(text(strip(&chars("//a//"), CharClass::Slash)), "a");
    assert!(CharClass::Whitespace.contains('\n'));
    assert!(!CharClass::Whitespace.contains('_'));
    assert!(CharClass::SpaceOrDot.contains('.'));
    assert!(!CharClass::SpaceOrDot.contains('\t'));
    assert!(CharClass::Slash.contains('/'));
    assert!(!CharClass::Slash.contains('\\'));
}

#[test]
fn splitting_keeps_empty_pieces_and_words_do_not() {
    assert_eq!(texts(split(&chars("a//b/"), CharClass::Slash)), vec!["a", "", "b", ""]);
    assert_eq!(texts(split(&chars(""), CharClass::Slash)), vec![""]);
    assert_eq!(texts(split(&chars("/"), CharClass::Slash)), vec!["", ""]);
    assert_eq!(texts(split(&chars("abc"), CharClass::Slash)), vec!["abc"]);
    assert_eq!(texts(split_words(&chars("  a  bc\td\n"))), vec!["a", "bc", "d"]);
    assert_eq!(texts(split_words(&chars("   "))), Vec::<String>::new());
    assert_eq!(texts(split_words(&chars(""))), Vec::<String>::new());
    assert_eq!(texts(split_words(&chars("one"))), vec!["one"]);
    assert_eq!(text(compact(&chars(" 2025 年\t8 月\n"))), "2025年8月");
    assert_eq!(text(compact(&chars("   "))), "");
}

#[test]
fn searching_finds_the_first_occurrence() {
    assert_eq!(find(&chars("a..b..c"), &chars("..")), Some(1));
    assert_eq!(find(&chars("a.b"), &chars("..")), None);
    assert_eq!(find(&chars("abc"), &chars("")), Some(0));
    assert_eq!(find(&chars(""), &chars("")), Some(0));
    assert_eq!(find(&chars(""), &chars("a")), None);
    assert_eq!(find(&chars("ab"), &chars("abc")), None);
    assert_eq!(find(&chars("aab"), &chars("ab")), Some(1));
    assert_eq!(find(&chars("xab"), &chars("ab")), Some(1));
    assert!(contains(&chars("我们做过 A 项目"), &chars("项目")));
    assert!(contains(&chars("abc"), &chars("abc")));
    assert!(contains(&chars("abc"), &chars("")));
    assert!(!contains(&chars("abc"), &chars("abd")));
    assert!(!contains(&chars("abc"), &chars("abcd")));
    assert!(matches_at(&chars("abc"), &chars("bc"), 1));
    assert!(!matches_at(&chars("abc"), &chars("bc"), 0));
    assert!(!matches_at(&chars("abc"), &chars("bc"), 2));
    assert!(!matches_at(&chars("abc"), &chars("bc"), 9));
    assert!(matches_at(&chars("abc"), &chars(""), 3));
    assert!(!matches_at(&chars("abc"), &chars(""), 4));
}

#[test]
fn joining_puts_the_separator_between_members() {
    let parts = vec![chars("a"), chars(""), chars("bc")];
    assert_eq!(text(join(&parts, &chars(", "))), "a, , bc");
    assert_eq!(text(join(&vec![chars("solo")], &chars(","))), "solo");
    assert_eq!(text(join(&Vec::new(), &chars(","))), "");
    assert_eq!(text(join(&vec![chars(""), chars("")], &chars("-"))), "-");
}

#[test]
fn numbers_are_written_without_leading_zeros() {
    assert_eq!(text(write_decimal(0)), "0");
    assert_eq!(text(write_decimal(7)), "7");
    assert_eq!(text(write_decimal(10)), "10");
    assert_eq!(text(write_decimal(120)), "120");
    assert_eq!(text(write_decimal(9876543210)), "9876543210");
    assert_eq!(text(write_decimal(usize::MAX)), usize::MAX.to_string());
}

#[test]
fn replacing_changes_every_occurrence() {
    assert_eq!(text(replace_char(&chars("u1\\p1\\"), '\\', '/')), "u1/p1/");
    assert_eq!(text(replace_char(&chars("a\nb\n"), '\n', ' ')), "a b ");
    assert_eq!(text(replace_char(&chars("abc"), 'x', 'y')), "abc");
    assert_eq!(text(replace_char(&chars(""), 'x', 'y')), "");
}

#[test]
fn white_space_is_the_set_of_twenty_five_characters() {
    let listed = |c: char| {
        matches!(
            c,
            '\u{9}'..='\u{d}'
                | ' '
                | '\u{85}'
                | '\u{a0}'
                | '\u{1680}'
                | '\u{2000}'..='\u{200a}'
                | '\u{2028}'
                | '\u{2029}'
                | '\u{202f}'
                | '\u{205f}'
                | '\u{3000}'
        )
    };
    let mut count = 0;
    for code in 0..=0x10FFFFu32 {
        if let Some(c) = char::from_u32(code) {
            assert_eq!(CharClass::Whitespace.contains(c), listed(c), "U+{code:04X}");
            assert_eq!(is_white_space(c), c.is_whitespace(), "U+{code:04X}");
            if listed(c) {
                count += 1;
            }
        }
    }
    assert_eq!(count, 25);
    assert!(!CharClass::Whitespace.contains('u'));
    assert!(!CharClass::Whitespace.contains('\u{180e}'));
    assert!(!CharClass::Whitespace.contains('\u{200b}'));
}
