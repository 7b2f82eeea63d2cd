use collclean::apply::clean_text;
use collclean::scan::{find_deletions, ScanError};

fn clean(text: &mut String, commands: Vec<&str>) -> Result<usize, ScanError> {
    let deletions = find_deletions(text.as_str(), commands, None, None)?;
    Ok(clean_text(text, deletions))
}

fn clean_with_range(
    text: &mut String,
    commands: Vec<&str>,
    from: Option<usize>,
    to: Option<usize>,
) -> Result<usize, ScanError> {
    let deletions = find_deletions(text.as_str(), commands, from, to)?;
    Ok(clean_text(text, deletions))
}

#[test]
fn test_no_clean() {
    let mut text1 = String::from("\\{  \\}");
    let mut text2 = String::from("{  }");
    clean(&mut text1, vec![]).unwrap();
    clean(&mut text2, vec![]).unwrap();
    assert_eq!(text1, "\\{  \\}");
    assert_eq!(text2, "{  }");
}

#[test]
fn test_simple_clean() {
    let mut text = String::from("\\anew{ab}");
    clean(&mut text, vec!["anew"]).unwrap();
    assert_eq!(text, "ab");
}

#[test]
fn test_clean() {
    let mut text = String::from("\\anew{ a{v}b \\% \\{ }");
    clean(&mut text, vec!["anew"]).unwrap();
    assert_eq!(text, " a{v}b \\% \\{ ");
}

#[test]
fn test_clean_double_fake() {
    let mut text = String::from("\\ane\\anew{ a{v}b \\% \\{ }");
    clean(&mut text, vec!["anew"]).unwrap();
    assert_eq!(text, "\\ane a{v}b \\% \\{ ");
}

#[test]
fn test_clean_double() {
    let mut text = String::from("\\anew{\\anew{ a{v}b \\% \\{ }}");
    clean(&mut text, vec!["anew"]).unwrap();
    assert_eq!(text, " a{v}b \\% \\{ ");
}

#[test]
fn test_clean_2() {
    let mut text = String::from("\\anew{\\nnew{ a{v}b} \\{ }");
    clean(&mut text, vec!["anew", "nnew"]).unwrap();
    assert_eq!(text, " a{v}b \\{ ");
}

#[test]
fn test_clean_with_whitespace() {
    let mut text = String::from("\\anew   { { a{v}b} \\{ }");
    clean(&mut text, vec!["anew"]).unwrap();
    assert_eq!(text, " { a{v}b} \\{ ");
}

#[test]
fn test_clean_with_whitespace_double() {
    let mut text = String::from("\\anew  \\anew  { { a{v}b} \\{ }");
    clean(&mut text, vec!["anew"]).unwrap();
    assert_eq!(text, "\\anew   { a{v}b} \\{ ");
}

#[test]
fn test_clean_with_whitespace_2() {
    let mut text = String::from("\\anew  f { { a{v}b} \\{ } \\anew { f}");
    clean(&mut text, vec!["anew"]).unwrap();
    assert_eq!(text, "\\anew  f { { a{v}b} \\{ }  f");
}

#[test]
fn test_clean_fails() {
    let mut text = String::from("{ } }");
    assert!(clean(&mut text, vec!["anew"]).is_err());
}

#[test]
fn test_clean_fails_2() {
    let mut text = String::from("\\anew{ } }");
    assert!(clean(&mut text, vec!["anew"]).is_err());
}

#[test]
fn test_clean_no_fail() {
    let mut text = String::from("\\}\\}\\}");
    assert!(clean(&mut text, vec!["anew"]).is_ok());
}

#[test]
fn test_clean_no_comment_newline() {
    let mut text = String::from("% % \\anew{ } \n \\anew{}");
    clean(&mut text, vec!["anew"]).unwrap();
    assert_eq!(text, "% % \\anew{ } \n ");
}

#[test]
fn test_clean_no_newcommmand() {
    let mut text = String::from("\\newcommand{\\anew}");
    clean(&mut text, vec!["anew"]).unwrap();
    assert_eq!(text, "\\newcommand{\\anew}");
}

#[test]
fn test_clean_with_unicode() {
    let mut text = String::from("\\anew{héllo wörld émoji 🎉}");
    clean(&mut text, vec!["anew"]).unwrap();
    assert_eq!(text, "héllo wörld émoji 🎉");
}

#[test]
fn test_clean_unicode_command_content() {
    let mut text = String::from("Préfix \\anew{中文内容} Süffix");
    clean(&mut text, vec!["anew"]).unwrap();
    assert_eq!(text, "Préfix 中文内容 Süffix");
}

#[test]
fn test_clean_nested_unicode() {
    let mut text = String::from("\\alice{über \\bob{naïve} café}");
    clean(&mut text, vec!["alice", "bob"]).unwrap();
    assert_eq!(text, "über naïve café");
}

#[test]
fn test_line_range_from() {
    let mut text = String::from("\\anew{line1}\n\\anew{line2}\n\\anew{line3}");
    clean_with_range(&mut text, vec!["anew"], Some(2), None).unwrap();
    assert_eq!(text, "\\anew{line1}\nline2\nline3");
}

#[test]
fn test_line_range_to() {
    let mut text = String::from("\\anew{line1}\n\\anew{line2}\n\\anew{line3}");
    clean_with_range(&mut text, vec!["anew"], None, Some(2)).unwrap();
    assert_eq!(text, "line1\nline2\n\\anew{line3}");
}

#[test]
fn test_line_range_from_to() {
    let mut text = String::from("\\anew{line1}\n\\anew{line2}\n\\anew{line3}");
    clean_with_range(&mut text, vec!["anew"], Some(2), Some(2)).unwrap();
    assert_eq!(text, "\\anew{line1}\nline2\n\\anew{line3}");
}

#[test]
fn test_line_range_inclusive() {
    // Verify that the upper bound is inclusive (line 2 should be cleaned)
    let mut text = String::from("\\anew{line1}\n\\anew{line2}\n\\anew{line3}");
    clean_with_range(&mut text, vec!["anew"], Some(1), Some(2)).unwrap();
    assert_eq!(text, "line1\nline2\n\\anew{line3}");
}

#[test]
fn test_clean_windows_line_endings() {
    let mut text = String::from("\\anew{line1}\r\n\\anew{line2}\r\n\\anew{line3}");
    clean(&mut text, vec!["anew"]).unwrap();
    assert_eq!(text, "line1\r\nline2\r\nline3");
}

#[test]
fn test_clean_mixed_line_endings() {
    let mut text = String::from("\\anew{line1}\n\\anew{line2}\r\n\\anew{line3}");
    clean(&mut text, vec!["anew"]).unwrap();
    assert_eq!(text, "line1\nline2\r\nline3");
}

#[test]
fn test_empty_file() {
    let mut text = String::from("");
    clean(&mut text, vec!["anew"]).unwrap();
    assert_eq!(text, "");
}

#[test]
fn test_whitespace_only() {
    let mut text = String::from("   \n\t\n   ");
    clean(&mut text, vec!["anew"]).unwrap();
    assert_eq!(text, "   \n\t\n   ");
}

#[test]
fn test_empty_command_content() {
    let mut text = String::from("\\anew{}");
    clean(&mut text, vec!["anew"]).unwrap();
    assert_eq!(text, "");
}

#[test]
fn test_command_at_file_start() {
    let mut text = String::from("\\anew{start} middle end");
    clean(&mut text, vec!["anew"]).unwrap();
    assert_eq!(text, "start middle end");
}

#[test]
fn test_command_at_file_end() {
    let mut text = String::from("start middle \\anew{end}");
    clean(&mut text, vec!["anew"]).unwrap();
    assert_eq!(text, "start middle end");
}

#[test]
fn test_multiple_commands_same_line() {
    let mut text = String::from("\\alice{one} and \\bob{two} and \\alice{three}");
    clean(&mut text, vec!["alice", "bob"]).unwrap();
    assert_eq!(text, "one and two and three");
}

#[test]
fn test_deeply_nested_commands() {
    let mut text = String::from("\\a{\\b{\\c{\\d{deep}}}}");
    clean(&mut text, vec!["a", "b", "c", "d"]).unwrap();
    assert_eq!(text, "deep");
}

#[test]
fn test_command_spanning_lines() {
    let mut text = String::from("\\anew{line1\nline2\nline3}");
    clean(&mut text, vec!["anew"]).unwrap();
    assert_eq!(text, "line1\nline2\nline3");
}

#[test]
fn test_only_commands() {
    let mut text = String::from("\\anew{\\bob{\\charlie{x}}}");
    clean(&mut text, vec!["anew", "bob", "charlie"]).unwrap();
    assert_eq!(text, "x");
}

#[test]
fn test_adjacent_commands() {
    let mut text = String::from("\\a{x}\\b{y}\\c{z}");
    clean(&mut text, vec!["a", "b", "c"]).unwrap();
    assert_eq!(text, "xyz");
}

#[test]
fn test_tab_before_brace() {
    let mut text = String::from("\\anew\t{content}");
    clean(&mut text, vec!["anew"]).unwrap();
    assert_eq!(text, "content");
}

#[test]
fn test_mixed_whitespace_before_brace() {
    let mut text = String::from("\\anew \t  {content}");
    clean(&mut text, vec!["anew"]).unwrap();
    assert_eq!(text, "content");
}

#[test]
fn test_newline_before_brace_no_match() {
    // Newline between command and brace should NOT be treated as the command
    let mut text = String::from("\\anew\n{content}");
    clean(&mut text, vec!["anew"]).unwrap();
    assert_eq!(text, "\\anew\n{content}");
}

#[test]
fn test_content_with_leading_trailing_whitespace() {
    let mut text = String::from("\\anew{  spaced  }");
    clean(&mut text, vec!["anew"]).unwrap();
    assert_eq!(text, "  spaced  ");
}

#[test]
fn test_command_in_math_mode() {
    let mut text = String::from("$x = \\anew{y + z}$");
    clean(&mut text, vec!["anew"]).unwrap();
    assert_eq!(text, "$x = y + z$");
}

#[test]
fn test_command_in_display_math() {
    let mut text = String::from("\\[\n\\anew{A = B}\n\\]");
    clean(&mut text, vec!["anew"]).unwrap();
    assert_eq!(text, "\\[\nA = B\n\\]");
}

#[test]
fn test_similar_command_prefixes() {
    // Should only match exact command name
    let mut text = String::from("\\anew{x} \\anewer{y} \\an{z}");
    clean(&mut text, vec!["anew"]).unwrap();
    assert_eq!(text, "x \\anewer{y} \\an{z}");
}

#[test]
fn test_command_with_numbers() {
    let mut text = String::from("\\rev1{first} \\rev2{second}");
    clean(&mut text, vec!["rev1", "rev2"]).unwrap();
    assert_eq!(text, "first second");
}

#[test]
fn test_escaped_braces_in_content() {
    let mut text = String::from("\\anew{set \\{ a, b \\}}");
    clean(&mut text, vec!["anew"]).unwrap();
    assert_eq!(text, "set \\{ a, b \\}");
}

#[test]
fn test_nested_regular_braces() {
    let mut text = String::from("\\anew{outer {inner {deep}} end}");
    clean(&mut text, vec!["anew"]).unwrap();
    assert_eq!(text, "outer {inner {deep}} end");
}

#[test]
fn test_latex_environments_preserved() {
    let mut text = String::from("\\begin{equation}\n\\anew{x = y}\n\\end{equation}");
    clean(&mut text, vec!["anew"]).unwrap();
    assert_eq!(text, "\\begin{equation}\nx = y\n\\end{equation}");
}

#[test]
fn test_comment_at_end_of_line() {
    let mut text = String::from("\\anew{visible} % \\anew{commented}");
    clean(&mut text, vec!["anew"]).unwrap();
    assert_eq!(text, "visible % \\anew{commented}");
}

#[test]
fn test_multiple_comment_lines() {
    let mut text = String::from("% \\anew{a}\n% \\anew{b}\n\\anew{c}");
    clean(&mut text, vec!["anew"]).unwrap();
    assert_eq!(text, "% \\anew{a}\n% \\anew{b}\nc");
}

#[test]
fn test_escaped_percent_not_comment() {
    let mut text = String::from("\\anew{100\\% done}");
    clean(&mut text, vec!["anew"]).unwrap();
    assert_eq!(text, "100\\% done");
}

#[test]
fn test_comment_then_code_same_line_next() {
    let mut text = String::from("% comment\n\\anew{code}");
    clean(&mut text, vec!["anew"]).unwrap();
    assert_eq!(text, "% comment\ncode");
}

#[test]
fn test_line_range_first_line_only() {
    let mut text = String::from("\\anew{first}\n\\anew{second}");
    clean_with_range(&mut text, vec!["anew"], Some(1), Some(1)).unwrap();
    assert_eq!(text, "first\n\\anew{second}");
}

#[test]
fn test_line_range_last_line_only() {
    let mut text = String::from("\\anew{first}\n\\anew{second}");
    clean_with_range(&mut text, vec!["anew"], Some(2), Some(2)).unwrap();
    assert_eq!(text, "\\anew{first}\nsecond");
}

#[test]
fn test_line_range_spanning_command_excluded() {
    // Command spans lines 1-3, but range is only line 2
    // Command should NOT be removed since it's not completely inside range
    let mut text = String::from("\\anew{line1\nline2\nline3}");
    clean_with_range(&mut text, vec!["anew"], Some(2), Some(2)).unwrap();
    assert_eq!(text, "\\anew{line1\nline2\nline3}");
}

#[test]
fn test_line_range_spanning_command_included() {
    // Command spans lines 1-3, range includes all
    let mut text = String::from("\\anew{line1\nline2\nline3}");
    clean_with_range(&mut text, vec!["anew"], Some(1), Some(3)).unwrap();
    assert_eq!(text, "line1\nline2\nline3");
}

#[test]
fn test_line_range_no_commands_in_range() {
    let mut text = String::from("plain\n\\anew{marked}\nplain");
    clean_with_range(&mut text, vec!["anew"], Some(1), Some(1)).unwrap();
    assert_eq!(text, "plain\n\\anew{marked}\nplain");
}

#[test]
fn test_line_range_from_zero_treated_as_start() {
    // from=0 should work (though 1-indexed, 0 means "from start")
    let mut text = String::from("\\anew{first}\n\\anew{second}");
    clean_with_range(&mut text, vec!["anew"], Some(0), Some(1)).unwrap();
    assert_eq!(text, "first\n\\anew{second}");
}

#[test]
fn test_three_different_commands() {
    let mut text = String::from("\\alice{A} \\bob{B} \\charlie{C}");
    clean(&mut text, vec!["alice", "bob", "charlie"]).unwrap();
    assert_eq!(text, "A B C");
}

#[test]
fn test_same_command_repeated() {
    let mut text = String::from("\\x{1}\\x{2}\\x{3}\\x{4}\\x{5}");
    clean(&mut text, vec!["x"]).unwrap();
    assert_eq!(text, "12345");
}

#[test]
fn test_interleaved_nested_commands() {
    let mut text = String::from("\\a{1\\b{2}3}\\b{4\\a{5}6}");
    clean(&mut text, vec!["a", "b"]).unwrap();
    assert_eq!(text, "123456");
}

#[test]
fn test_partial_command_match() {
    // "new" should not match "\anew"
    let mut text = String::from("\\anew{content}");
    clean(&mut text, vec!["new"]).unwrap();
    assert_eq!(text, "\\anew{content}");
}

#[test]
fn test_command_not_in_list() {
    let mut text = String::from("\\alice{A} \\bob{B}");
    clean(&mut text, vec!["charlie"]).unwrap();
    assert_eq!(text, "\\alice{A} \\bob{B}");
}

#[test]
fn test_multiple_unmatched_closing() {
    let text = String::from("text } more } end");
    let result = find_deletions(&text, vec!["anew"], None, None);
    assert!(result.is_err());
}

#[test]
fn test_multiple_unmatched_opening() {
    let text = String::from("\\anew{ \\bob{ content }");
    let result = find_deletions(&text, vec!["anew", "bob"], None, None);
    assert!(result.is_err());
}

#[test]
fn test_mismatched_in_nested() {
    let text = String::from("\\anew{outer \\bob{inner}");
    let result = find_deletions(&text, vec!["anew", "bob"], None, None);
    assert!(result.is_err());
}

#[test]
fn test_citation_inside_command() {
    let mut text = String::from("\\anew{as shown in~\\cite{smith2020}}");
    clean(&mut text, vec!["anew"]).unwrap();
    assert_eq!(text, "as shown in~\\cite{smith2020}");
}

#[test]
fn test_footnote_inside_command() {
    let mut text = String::from("\\anew{text\\footnote{A footnote.}}");
    clean(&mut text, vec!["anew"]).unwrap();
    assert_eq!(text, "text\\footnote{A footnote.}");
}

#[test]
fn test_textbf_inside_command() {
    let mut text = String::from("\\anew{\\textbf{bold} and normal}");
    clean(&mut text, vec!["anew"]).unwrap();
    assert_eq!(text, "\\textbf{bold} and normal");
}

#[test]
fn test_multiline_paragraph() {
    let mut text = String::from(
        "\\anew{This is a long paragraph\nthat spans multiple lines\nand has various content.}",
    );
    clean(&mut text, vec!["anew"]).unwrap();
    assert_eq!(
        text,
        "This is a long paragraph\nthat spans multiple lines\nand has various content."
    );
}

#[test]
fn test_table_environment() {
    let mut text =
        String::from("\\begin{tabular}{cc}\n\\anew{A} & B \\\\\nC & \\anew{D}\n\\end{tabular}");
    clean(&mut text, vec!["anew"]).unwrap();
    assert_eq!(
        text,
        "\\begin{tabular}{cc}\nA & B \\\\\nC & D\n\\end{tabular}"
    );
}

#[test]
fn test_itemize_environment() {
    let mut text = String::from(
        "\\begin{itemize}\n\\item \\anew{First}\n\\item \\bob{Second}\n\\end{itemize}",
    );
    clean(&mut text, vec!["anew", "bob"]).unwrap();
    assert_eq!(
        text,
        "\\begin{itemize}\n\\item First\n\\item Second\n\\end{itemize}"
    );
}
