use bfir::brackets::find_close;
use bfir::parser::{parse, parse_between, source_chars, try_parse};
use bfir::Instruction;

fn chars(s: &str) -> Vec<char> {
    s.chars().collect()
}

#[test]
fn only_commentary_gives_nothing() {
    assert_eq!(parse(""), []);
    assert_eq!(parse("hello world\n\tAbc 123 ü"), []);
}

#[test]
fn stray_closer_is_ignored() {
    assert_eq!(parse("]+"), [Instruction::Increment(1)]);
}

#[test]
fn nested_loops_nest() {
    let expected = [Instruction::Loop(vec![Instruction::Loop(vec![
        Instruction::Loop(vec![Instruction::Increment(1)]),
    ])])];
    assert_eq!(parse("[[[+]]]"), expected);
}

#[test]
fn sibling_loops_stay_apart() {
    let expected = [
        Instruction::Loop(vec![Instruction::Write]),
        Instruction::Loop(vec![Instruction::Read]),
    ];
    assert_eq!(parse("[.][,]"), expected);
}

#[test]
fn reparsing_gives_equal_tree() {
    let source = "+[->,<]comment.";
    assert_eq!(parse(source), parse(source));
}

#[test]
fn find_close_matches_nested() {
    let s = chars("[[]+]");
    assert_eq!(find_close(&s, 0), Some(4));
    assert_eq!(find_close(&s, 1), Some(2));
}

#[test]
fn find_close_counts_characters_not_bytes() {
    let s = chars("[é]");
    assert_eq!(find_close(&s, 0), Some(2));
    assert_eq!(parse("[é+]"), [Instruction::Loop(vec![Instruction::Increment(1)])]);
}

#[test]
fn find_close_without_closer() {
    let s = chars("[[]");
    assert_eq!(find_close(&s, 0), None);
    assert_eq!(find_close(&s, 1), Some(2));
}

#[test]
fn try_parse_reports_unclosed_loop() {
    assert_eq!(try_parse("[+"), None);
    assert_eq!(try_parse("[]["), None);
    assert_eq!(try_parse("+["), None);
}

#[test]
fn try_parse_accepts_closed_loops() {
    assert_eq!(try_parse("[-]>"), Some(vec![
        Instruction::Loop(vec![Instruction::Increment(-1)]),
        Instruction::PointerIncrement(1),
    ]));
}

#[test]
fn parse_between_sub_range() {
    let s = chars("+[<]>");
    assert_eq!(parse_between(&s, 2, 3), Some(vec![Instruction::PointerIncrement(-1)]));
    assert_eq!(parse_between(&s, 1, 5), Some(vec![
        Instruction::Loop(vec![Instruction::PointerIncrement(-1)]),
        Instruction::PointerIncrement(1),
    ]));
    assert_eq!(parse_between(&s, 3, 3), Some(vec![]));
}

#[test]
fn source_chars_decodes() {
    assert_eq!(source_chars("aé["), vec!['a', 'é', '[']);
}
