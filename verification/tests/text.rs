use straddle_carrier::text::{
    at_most, chars_of, copy_texts, decimal_text, holds, join, list_difference, position_of,
    replace_char, split_chars, stands_at, text_between,
};

fn texts(items: &[&str]) -> Vec<String> {
    items.iter().map(|item| item.to_string()).collect()
}

#[test]
fn characters_and_back() {
    let chars = chars_of("aé│b");
    assert_eq!(chars, vec!['a', 'é', '│', 'b']);
    assert_eq!(text_between(&chars, 1, 3), "é│");
    assert_eq!(text_between(&chars, 2, 2), "");
}

#[test]
fn words_at_positions() {
    let text = chars_of("abcab");
    let word = chars_of("ab");
    assert!(stands_at(&text, &word, 0));
    assert!(!stands_at(&text, &word, 1));
    assert!(stands_at(&text, &word, 3));
    assert!(!stands_at(&text, &word, 4));
    assert!(!stands_at(&text, &word, 100));
    assert!(stands_at(&text, &chars_of(""), 5));
}

#[test]
fn positions_of_characters() {
    let text = chars_of("a.b.c");
    assert_eq!(position_of(&text, '.', 0), 1);
    assert_eq!(position_of(&text, '.', 2), 3);
    assert_eq!(position_of(&text, '.', 4), 5);
    assert_eq!(position_of(&text, 'x', 0), 5);
}

#[test]
fn replacing_characters() {
    assert_eq!(replace_char("1.2.3", '.', '_'), "1_2_3");
    assert_eq!(replace_char("none", '.', '_'), "none");
}

#[test]
fn lexicographic_order() {
    assert!(at_most("", ""));
    assert!(at_most("", "a"));
    assert!(!at_most("a", ""));
    assert!(at_most("a", "a"));
    assert!(at_most("a", "ab"));
    assert!(!at_most("ab", "a"));
    assert!(at_most("Z", "a"));
    assert!(at_most("a-b", "a_b"));
    assert!(at_most("z", "é"));
}

#[test]
fn membership_and_copies() {
    let list = texts(&["a", "b"]);
    assert!(holds(&list, &"b".to_string()));
    assert!(!holds(&list, &"c".to_string()));
    assert_eq!(copy_texts(&list), list);
}

#[test]
fn difference_of_lists() {
    assert_eq!(
        list_difference(&texts(&["c", "a", "b", "c", "d"]), &texts(&["b"])),
        texts(&["c", "a", "d"])
    );
    assert_eq!(list_difference(&texts(&["a"]), &texts(&["a", "b"])), texts(&[]));
}

#[test]
fn joining() {
    assert_eq!(join(&texts(&[]), ", "), "");
    assert_eq!(join(&texts(&["a"]), ", "), "a");
    assert_eq!(join(&texts(&["a", "b", "c"]), ", "), "a, b, c");
}

#[test]
fn decimal_numbers() {
    assert_eq!(decimal_text(0), "0");
    assert_eq!(decimal_text(9), "9");
    assert_eq!(decimal_text(10), "10");
    assert_eq!(decimal_text(1200345), "1200345");
}

#[test]
fn splitting() {
    assert_eq!(
        split_chars(&chars_of("a..b"), '.'),
        vec![vec!['a'], vec![], vec!['b']]
    );
    assert_eq!(split_chars(&chars_of(""), '.'), vec![Vec::<char>::new()]);
    assert_eq!(split_chars(&chars_of("ab."), '.'), vec![vec!['a', 'b'], vec![]]);
}
