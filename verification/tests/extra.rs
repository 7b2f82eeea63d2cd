use collclean::apply::try_clean;
use collclean::render::{add_part, preview_segments, render_deletions, Side};
use collclean::scan::{command_name_ok, find_deletions, ScanError};

#[test]
fn test_command_name_validation() {
    assert!(command_name_ok("anew"));
    assert!(command_name_ok("rev1"));
    assert!(!command_name_ok(""));
    assert!(!command_name_ok("a{b"));
    assert!(!command_name_ok("a}b"));
    assert!(!command_name_ok("a\\b"));
    assert!(!command_name_ok("a%b"));
    assert!(!command_name_ok("a\nb"));
}

#[test]
fn test_invalid_range_rejected() {
    let text = String::from("\\anew{ab}");
    let result = find_deletions(&text, vec!["anew"], Some(3), Some(1));
    assert!(matches!(result, Err(ScanError::InvalidRange)));
}

#[test]
fn test_span_list_even_and_ascending() {
    let text = String::from("\\a{1\\b{2}3}\\b{4\\a{5}6}");
    let deletions = find_deletions(&text, vec!["a", "b"], None, None).unwrap();
    assert_eq!(deletions.len() % 2, 0);
    for w in deletions.windows(2) {
        assert!(w[0].end < w[1].start);
    }
}

#[test]
fn test_empty_command_set_finds_nothing() {
    let text = String::from("plain {grouped} \\anew{kept}");
    let deletions = find_deletions(&text, vec![], None, None).unwrap();
    assert_eq!(deletions.len(), 0);
}

#[test]
fn test_failed_clean_leaves_text_untouched() {
    let mut text = String::from("\\anew{ one } }");
    let before = text.clone();
    let result = try_clean(&mut text, vec!["anew"], None, None);
    assert!(result.is_err());
    assert_eq!(text, before);
}

#[test]
fn test_invalid_range_leaves_text_untouched() {
    let mut text = String::from("\\anew{ab}");
    let result = try_clean(&mut text, vec!["anew"], Some(2), Some(1));
    assert!(matches!(result, Err(ScanError::InvalidRange)));
    assert_eq!(text, "\\anew{ab}");
}

#[test]
fn test_try_clean_counts_spans() {
    let mut text = String::from("\\anew{one} \\anew{two}");
    let count = try_clean(&mut text, vec!["anew"], None, None).unwrap();
    assert_eq!(count, 4);
    assert_eq!(text, "one two");
}

#[test]
fn test_error_messages() {
    let text = String::from("\\anew{ unclosed");
    let err = find_deletions(&text, vec!["anew"], None, None).unwrap_err();
    assert_eq!(
        err.message(),
        "It seems that there is a opening bracket without closing counterpart! Stopping! (no changes made)"
    );
    let text2 = String::from("abc } def");
    let err2 = find_deletions(&text2, vec!["anew"], None, None).unwrap_err();
    assert_eq!(
        err2.message(),
        "It seems that there is a closing bracket without opening counterpart! Stopping! (no changes made) abc } def"
    );
}

#[test]
fn test_add_part_short_kept_whole() {
    let mut s = String::new();
    add_part("short", &mut s, Side::Left);
    assert_eq!(s, "short");
}

#[test]
fn test_add_part_left_truncates() {
    let mut s = String::new();
    add_part("0123456789abcdefghij", &mut s, Side::Left);
    assert_eq!(s, "... abcdefghij");
}

#[test]
fn test_add_part_right_truncates() {
    let mut s = String::new();
    add_part("0123456789abcdefghij", &mut s, Side::Right);
    assert_eq!(s, "0123456789 ...");
}

#[test]
fn test_add_part_center_kept_up_to_thirty() {
    let mut s = String::new();
    add_part("0123456789abcdefghijABCDEFGHIJ", &mut s, Side::Center);
    assert_eq!(s, "0123456789abcdefghijABCDEFGHIJ");
}

#[test]
fn test_add_part_center_truncates_both_ends() {
    let mut s = String::new();
    add_part("0123456789abcdefghijABCDEFGHIJK", &mut s, Side::Center);
    assert_eq!(s, "0123456789 ... BCDEFGHIJK");
}

#[test]
fn test_add_part_unicode_counts_characters() {
    let mut s = String::new();
    add_part("äöüäöüäöüäöü", &mut s, Side::Right);
    assert_eq!(s, "äöüäöüäöüä ...");
}

#[test]
fn test_preview_segments_single_line() {
    let text = "abc \\anew{xy} def";
    let deletions = find_deletions(text, vec!["anew"], None, None).unwrap();
    let preview = preview_segments(text, &deletions);
    assert_eq!(preview.len(), 1);
    assert_eq!(preview[0].line, 0);
    let pieces: Vec<(String, bool)> = preview[0]
        .segments
        .iter()
        .map(|g| (g.piece.clone(), g.deleted))
        .collect();
    assert_eq!(
        pieces,
        vec![
            (String::from("abc "), false),
            (String::from("\\anew{"), true),
            (String::from("xy"), false),
            (String::from("}"), true),
            (String::from(" def"), false),
        ]
    );
}

#[test]
fn test_preview_segments_groups_lines() {
    let text = "\\anew{one}\nplain\n\\anew{two}";
    let deletions = find_deletions(text, vec!["anew"], None, None).unwrap();
    let preview = preview_segments(text, &deletions);
    assert_eq!(preview.len(), 2);
    assert_eq!(preview[0].line, 0);
    assert_eq!(preview[1].line, 2);
}

#[test]
fn test_preview_segments_truncates_long_context() {
    let text = "0123456789abcdefghij\\anew{x}";
    let deletions = find_deletions(text, vec!["anew"], None, None).unwrap();
    let preview = preview_segments(text, &deletions);
    assert_eq!(preview.len(), 1);
    assert_eq!(preview[0].segments[0].piece, "... abcdefghij");
    assert!(!preview[0].segments[0].deleted);
}

#[test]
fn test_preview_segments_strips_line_terminator() {
    let text = "\\anew{one}\r\nrest";
    let deletions = find_deletions(text, vec!["anew"], None, None).unwrap();
    let preview = preview_segments(text, &deletions);
    assert_eq!(preview.len(), 1);
    let last = preview[0].segments.last().unwrap();
    assert_eq!(last.piece, "");
}

#[test]
fn test_render_deletions_one_line_per_hit() {
    let text = "\\anew{one}\nplain\n\\anew{two}";
    let deletions = find_deletions(text, vec!["anew"], None, None).unwrap();
    let lines = render_deletions(text, &deletions);
    assert_eq!(lines.len(), 2);
    assert!(lines[0].contains("one") || lines[0].contains("\\anew{"));
}

#[test]
fn test_render_deletions_empty() {
    let text = "nothing here";
    let deletions = find_deletions(text, vec!["anew"], None, None).unwrap();
    let lines = render_deletions(text, &deletions);
    assert!(lines.is_empty());
}
