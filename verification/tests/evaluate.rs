use mdbook_ifdef::flags::FlagsHolder;
use mdbook_ifdef::grammer::{evaluate, Outcome};
use mdbook_ifdef::parser::{ParseError, ParseErrorKind};

fn flags(names: &[&str]) -> FlagsHolder {
    FlagsHolder::new(names.iter().map(|name| name.to_string()).collect())
}

fn success(text: &str) -> Outcome {
    Outcome::Success(text.to_owned())
}

fn fault(kind: ParseErrorKind, at: usize) -> Outcome {
    Outcome::ParseError(ParseError { kind, at })
}

#[test]
fn plain_document_is_kept() {
    let input = "Hello, world!\nWrite to me@example.org, or to @someone else.\n";
    assert_eq!(evaluate(input, &flags(&[])), success(input));
    assert_eq!(evaluate(input, &flags(&["a", "someone"])), success(input));
}

#[test]
fn empty_document_is_kept() {
    assert_eq!(evaluate("", &flags(&[])), success(""));
    assert_eq!(evaluate("", &flags(&["a"])), success(""));
}

#[test]
fn non_ascii_text_is_kept() {
    let input = "Grüße — 你好 @if_é";
    assert_eq!(evaluate("héllo @if_a ñandú @end", &flags(&["a"])), success("héllo ñandú "));
    assert_eq!(evaluate("héllo @if_a ñandú @end", &flags(&[])), success("héllo "));
    assert_eq!(evaluate(input, &flags(&[])), Outcome::Dropped);
}

#[test]
fn code_fence_is_kept_under_any_flags() {
    let input = "```\n@if_a\n@file_b\n@end @else @elif_x\n```";
    assert_eq!(evaluate(input, &flags(&[])), success(input));
    assert_eq!(evaluate(input, &flags(&["a"])), success(input));
    assert_eq!(evaluate(input, &flags(&["a", "b", "x"])), success(input));
}

#[test]
fn code_snippet_is_kept_under_any_flags() {
    let input = "see `@file_nope` and `@if` and `@end`";
    assert_eq!(evaluate(input, &flags(&[])), success(input));
    assert_eq!(evaluate(input, &flags(&["nope"])), success(input));
}

#[test]
fn code_inside_a_branch_is_kept() {
    let input = "@if_a `@file_b` @end";
    assert_eq!(evaluate(input, &flags(&["a"])), success("`@file_b` "));
    assert_eq!(evaluate(input, &flags(&[])), success(""));
}

#[test]
fn unmet_file_guard_drops_before_content() {
    assert_eq!(evaluate("@file_x\nsome text", &flags(&[])), Outcome::Dropped);
    assert_eq!(evaluate("@file_x\nsome text", &flags(&["y"])), Outcome::Dropped);
}

#[test]
fn unmet_file_guard_drops_after_content() {
    assert_eq!(evaluate("some text\n@file_x", &flags(&[])), Outcome::Dropped);
    assert_eq!(evaluate("some `code` text @file_x more text", &flags(&["a"])), Outcome::Dropped);
}

#[test]
fn met_file_guard_contributes_nothing() {
    assert_eq!(evaluate("@file_x\nsome text", &flags(&["x"])), success("some text"));
    assert_eq!(evaluate("some text\n@file_x", &flags(&["x"])), success("some text\n"));
    assert_eq!(evaluate("a @file_x b @file_y c", &flags(&["x", "y"])), success("a b c"));
}

#[test]
fn file_guard_in_untaken_branch_is_not_reached() {
    assert_eq!(evaluate("@if_a @file_x @end rest", &flags(&[])), success("rest"));
    assert_eq!(evaluate("@if_a @file_x @end rest", &flags(&["a"])), Outcome::Dropped);
}

#[test]
fn resolved_output_is_stable() {
    let input = "intro @if_a chosen @else other @end outro";
    let first = evaluate(input, &flags(&["a"]));
    assert_eq!(first, success("intro chosen outro"));
    assert_eq!(evaluate("intro chosen outro", &flags(&["a"])), success("intro chosen outro"));
    assert_eq!(evaluate("intro chosen outro", &flags(&[])), success("intro chosen outro"));
    assert_eq!(evaluate("intro chosen outro", &flags(&["zzz"])), success("intro chosen outro"));
}

#[test]
fn elif_branch_alone_is_selected() {
    let input = "@if_A first @elif_B second @else third @end";
    assert_eq!(evaluate(input, &flags(&["B"])), success("second "));
}

#[test]
fn first_open_branch_wins() {
    let input = "@if_a 1 @elif_b 2 @elif_c 3 @else 4 @end";
    assert_eq!(evaluate(input, &flags(&["a", "b", "c"])), success("1 "));
    assert_eq!(evaluate(input, &flags(&["b", "c"])), success("2 "));
    assert_eq!(evaluate(input, &flags(&["c"])), success("3 "));
    assert_eq!(evaluate(input, &flags(&[])), success("4 "));
}

#[test]
fn block_without_open_branch_contributes_nothing() {
    assert_eq!(evaluate("a @if_x b @end c", &flags(&[])), success("a c"));
    assert_eq!(evaluate("a @if_x b @elif_y c @end d", &flags(&["z"])), success("a d"));
}

#[test]
fn nested_blocks_are_resolved() {
    let input = "@if_a A @if_b B @else C @end D @else E @end";
    assert_eq!(evaluate(input, &flags(&["a", "b"])), success("A B D "));
    assert_eq!(evaluate(input, &flags(&["a"])), success("A C D "));
    assert_eq!(evaluate(input, &flags(&["b"])), success("E "));
}

#[test]
fn nested_drop_drops_the_document() {
    let input = "before @if_a one @if_b two @file_c @end three @end after";
    assert_eq!(evaluate(input, &flags(&["a", "b"])), Outcome::Dropped);
    assert_eq!(evaluate(input, &flags(&["a", "b", "c"])), success("before one two three after"));
    assert_eq!(evaluate(input, &flags(&["a"])), success("before one three after"));
}

#[test]
fn block_with_no_flag_reaches_the_guard() {
    let input = "@if_a 111 @elif_b 222 @else 333 @file_c @end";
    assert_eq!(evaluate(input, &flags(&[])), Outcome::Dropped);
}

#[test]
fn block_with_first_flag_takes_if() {
    let input = "@if_a 111 @elif_b 222 @else 333 @file_c @end";
    assert_eq!(evaluate(input, &flags(&["a"])), success("111 "));
}

#[test]
fn block_with_second_flag_takes_elif() {
    let input = "@if_a 111 @elif_b 222 @else 333 @file_c @end";
    assert_eq!(evaluate(input, &flags(&["b"])), success("222 "));
}

#[test]
fn block_with_guard_flag_takes_else() {
    let input = "@if_a 111 @elif_b 222 @else 333 @file_c @end";
    assert_eq!(evaluate(input, &flags(&["c"])), success("333 "));
}

#[test]
fn keywords_match_in_any_case() {
    let input = "@IF_x one @ELse two @End";
    assert_eq!(evaluate(input, &flags(&["x"])), success("one "));
    assert_eq!(evaluate(input, &flags(&[])), success("two "));
    assert_eq!(evaluate("@FiLe_x kept", &flags(&["x"])), success("kept"));
    assert_eq!(evaluate("@iF_x a @eLIf_y b @eND", &flags(&["y"])), success("b "));
}

#[test]
fn flag_names_match_exactly() {
    let input = "@IF_x one @ELse two @End";
    assert_eq!(evaluate(input, &flags(&["X"])), success("two "));
    assert_eq!(evaluate("@if_Flag yes @end", &flags(&["flag"])), success(""));
    assert_eq!(evaluate("@if_Flag yes @end", &flags(&["Flag"])), success("yes "));
    assert_eq!(evaluate("@file_ABC", &flags(&["abc"])), Outcome::Dropped);
}

#[test]
fn bare_keyword_in_prose_drops_the_document() {
    assert_eq!(evaluate("call me @if you can", &flags(&[])), Outcome::Dropped);
    assert_eq!(evaluate("call me @if you can", &flags(&["you"])), Outcome::Dropped);
    assert_eq!(evaluate("an @elif, alone", &flags(&[])), Outcome::Dropped);
    assert_eq!(evaluate("the @filename", &flags(&[])), Outcome::Dropped);
    assert_eq!(evaluate("@IF- no name", &flags(&[])), Outcome::Dropped);
    assert_eq!(evaluate("@if_", &flags(&[])), Outcome::Dropped);
    assert_eq!(evaluate("@file_ x", &flags(&["x"])), Outcome::Dropped);
}

#[test]
fn bare_keyword_in_untaken_branch_is_not_reached() {
    assert_eq!(evaluate("@if_a you @if say @end done", &flags(&[])), success("done"));
    assert_eq!(evaluate("@if_a you @if say @end done", &flags(&["a"])), Outcome::Dropped);
}

#[test]
fn unterminated_block_is_a_parse_error() {
    assert_eq!(evaluate("text @if_a more", &flags(&["a"])), fault(ParseErrorKind::UnterminatedBlock, 5));
    assert_eq!(evaluate("@if_a @else", &flags(&[])), fault(ParseErrorKind::UnterminatedBlock, 0));
    assert_eq!(evaluate("@if_a @if_b @end", &flags(&[])), fault(ParseErrorKind::UnterminatedBlock, 0));
    assert_eq!(evaluate("@if_a x @if_b", &flags(&[])), fault(ParseErrorKind::UnterminatedBlock, 8));
}

#[test]
fn stray_elif_is_a_parse_error() {
    assert_eq!(evaluate("@elif_a x @end", &flags(&["a"])), fault(ParseErrorKind::UnexpectedElif, 0));
    assert_eq!(evaluate("ab @if_a @end @elif_a", &flags(&[])), fault(ParseErrorKind::UnexpectedElif, 14));
}

#[test]
fn stray_else_is_a_parse_error() {
    assert_eq!(evaluate("x @else y", &flags(&[])), fault(ParseErrorKind::UnexpectedElse, 2));
}

#[test]
fn stray_end_is_a_parse_error() {
    assert_eq!(evaluate("@end", &flags(&[])), fault(ParseErrorKind::UnexpectedEnd, 0));
    assert_eq!(evaluate("@if_a @end @end", &flags(&[])), fault(ParseErrorKind::UnexpectedEnd, 11));
    assert_eq!(evaluate("the @endpoint", &flags(&[])), fault(ParseErrorKind::UnexpectedEnd, 4));
}

#[test]
fn branch_behind_else_is_a_parse_error() {
    assert_eq!(evaluate("@if_a @else @elif_b @end", &flags(&[])), fault(ParseErrorKind::UnexpectedElif, 12));
    assert_eq!(evaluate("@if_a @else @else @end", &flags(&[])), fault(ParseErrorKind::UnexpectedElse, 12));
}

#[test]
fn parse_error_does_not_depend_on_flags() {
    let input = "@file_x @if_a";
    assert_eq!(evaluate(input, &flags(&[])), fault(ParseErrorKind::UnterminatedBlock, 8));
    assert_eq!(evaluate(input, &flags(&["x", "a"])), fault(ParseErrorKind::UnterminatedBlock, 8));
}

#[test]
fn error_position_counts_characters() {
    assert_eq!(evaluate("äöü @end", &flags(&[])), fault(ParseErrorKind::UnexpectedEnd, 4));
}

#[test]
fn blanks_behind_a_directive_are_swallowed() {
    assert_eq!(evaluate("a @file_x \t\r\n b", &flags(&["x"])), success("a b"));
    assert_eq!(evaluate("@if_x\n\n  one\n@end\n\ntwo", &flags(&["x"])), success("one\ntwo"));
    assert_eq!(evaluate("@if_x!@end?", &flags(&["x"])), success("!?"));
}

#[test]
fn name_runs_as_far_as_name_characters_go() {
    assert_eq!(evaluate("@if_a1_B2-x @end", &flags(&["a1_B2"])), success("-x "));
    assert_eq!(evaluate("@if_a1_B2-x @end", &flags(&["a1"])), success(""));
    assert_eq!(evaluate("@file__", &flags(&["_"])), success(""));
}

#[test]
fn keyword_needs_no_word_boundary() {
    assert_eq!(evaluate("@if_a x @elsewhere @end", &flags(&[])), success("where "));
    assert_eq!(evaluate("@if_a x @endif", &flags(&["a"])), success("x if"));
}

#[test]
fn unclosed_code_delimiters_are_prose() {
    assert_eq!(evaluate("a ` b", &flags(&[])), success("a ` b"));
    assert_eq!(evaluate("a ``` b", &flags(&[])), success("a ``` b"));
    assert_eq!(evaluate("a ` @file_x", &flags(&[])), Outcome::Dropped);
    assert_eq!(evaluate("``` @file_x", &flags(&[])), Outcome::Dropped);
    assert_eq!(evaluate("``` @file_x", &flags(&["x"])), success("``` "));
}

#[test]
fn fence_runs_to_the_next_three_ticks() {
    assert_eq!(evaluate("```a ` @file_x `` b``` @file_y", &flags(&["y"])), success("```a ` @file_x `` b``` "));
    assert_eq!(evaluate("```` @file_x ````@file_y", &flags(&[])), Outcome::Dropped);
    assert_eq!(evaluate("```` @file_x ````@file_y", &flags(&["y"])), success("```` @file_x ````"));
}

#[test]
fn snippet_runs_to_the_next_tick() {
    assert_eq!(evaluate("`@file_x` @file_y `@file_z`", &flags(&["y"])), success("`@file_x` `@file_z`"));
    assert_eq!(evaluate("``@file_x``", &flags(&[])), Outcome::Dropped);
    assert_eq!(evaluate("``@file_x``", &flags(&["x"])), success("````"));
}
