use collclean::render::{take_first_chars, take_last_chars};
use collclean::scan::{find_deletions, get_context_around};

#[test]
fn test_take_first_chars_ascii() {
    assert_eq!(take_first_chars("hello world", 5), "hello");
    assert_eq!(take_first_chars("hi", 10), "hi");
    assert_eq!(take_first_chars("", 5), "");
}

#[test]
fn test_take_first_chars_unicode() {
    assert_eq!(take_first_chars("héllo wörld", 5), "héllo");
    assert_eq!(take_first_chars("中文内容测试", 3), "中文内");
    assert_eq!(take_first_chars("🎉🎊🎁🎄", 2), "🎉🎊");
}

#[test]
fn test_take_last_chars_ascii() {
    assert_eq!(take_last_chars("hello world", 5), "world");
    assert_eq!(take_last_chars("hi", 10), "hi");
    assert_eq!(take_last_chars("", 5), "");
}

#[test]
fn test_take_last_chars_unicode() {
    assert_eq!(take_last_chars("héllo wörld", 5), "wörld");
    assert_eq!(take_last_chars("中文内容测试", 3), "容测试");
    assert_eq!(take_last_chars("🎉🎊🎁🎄", 2), "🎁🎄");
}

#[test]
fn test_get_context_around_ascii() {
    let text = "0123456789abcdefghij";
    assert_eq!(get_context_around(text, 10, 3), "789abc"); // 3 before 'a', 3 from 'a' onwards
    assert_eq!(get_context_around(text, 0, 3), "012"); // at start, 3 chars from position 0
    assert_eq!(get_context_around(text, 19, 3), "ghij"); // near end, 3 before 'j' + 'j'
}

#[test]
fn test_get_context_around_unicode() {
    let text = "préfix中文süffix";
    // Get context around the Chinese characters
    let ctx = get_context_around(text, 7, 3);
    assert!(ctx.chars().count() <= 6);
    // Should not panic on any position
    for (i, _) in text.char_indices() {
        let _ = get_context_around(text, i, 5);
    }
}

#[test]
fn test_unmatched_bracket_error_with_unicode() {
    let text = String::from("héllo } wörld");
    let result = find_deletions(&text, vec!["anew"], None, None);
    assert!(result.is_err());
}

#[test]
fn test_unclosed_bracket_error() {
    let text = String::from("\\anew{ unclosed");
    let result = find_deletions(&text, vec!["anew"], None, None);
    assert!(result.is_err());
}
