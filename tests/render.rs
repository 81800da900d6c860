use bfir::display::{fmt_with_indent, push_decimal};
use bfir::parser::parse;
use bfir::Instruction;

#[test]
fn render_plain_nodes() {
    assert_eq!(Instruction::Increment(1).render(), "Increment(1)");
    assert_eq!(Instruction::PointerIncrement(-1).render(), "PointerIncrement(-1)");
    assert_eq!(Instruction::Read.render(), "Read");
    assert_eq!(Instruction::Write.render(), "Write");
}

#[test]
fn render_matches_debug_for_plain_nodes() {
    for instr in [Instruction::Increment(-37), Instruction::PointerIncrement(120), Instruction::Read] {
        assert_eq!(instr.render(), format!("{:?}", instr));
    }
}

#[test]
fn render_indents_loop_bodies() {
    let tree = parse("[+[,]]");
    assert_eq!(tree.len(), 1);
    assert_eq!(tree[0].render(), "Loop\n  Increment(1)\n  Loop\n    Read");
}

#[test]
fn render_empty_loop() {
    assert_eq!(Instruction::Loop(vec![]).render(), "Loop");
}

#[test]
fn fmt_with_indent_appends() {
    let mut out = String::from("x");
    fmt_with_indent(&Instruction::Loop(vec![Instruction::Write]), 1, &mut out);
    assert_eq!(out, "x  Loop\n    Write");
}

#[test]
fn push_decimal_extremes() {
    let mut out = String::new();
    push_decimal(i32::MIN, &mut out);
    assert_eq!(out, "-2147483648");
    let mut out = String::new();
    push_decimal(0, &mut out);
    assert_eq!(out, "0");
    let mut out = String::new();
    push_decimal(i32::MAX, &mut out);
    assert_eq!(out, "2147483647");
}

#[test]
fn rendering_drops_commentary() {
    let tree = parse("[add one+]");
    let text = tree[0].render();
    assert_eq!(text, "Loop\n  Increment(1)");
    assert!(!text.contains("add"));
}
