use bfir::parser::parse;
use bfir::Instruction;

#[test]
fn parse_increment() {
    assert_eq!(parse("+"), [Instruction::Increment(1)]);
    assert_eq!(parse("++"), [Instruction::Increment(1),
                            Instruction::Increment(1)]);
}

#[test]
fn parse_decrement() {
    assert_eq!(parse("-"), [Instruction::Increment(-1)]);
}

#[test]
fn parse_pointer_increment() {
    assert_eq!(parse(">"), [Instruction::PointerIncrement(1)]);
}

#[test]
fn parse_pointer_decrement() {
    assert_eq!(parse("<"), [Instruction::PointerIncrement(-1)]);
}

#[test]
fn parse_read() {
    assert_eq!(parse(","), [Instruction::Read]);
}

#[test]
fn parse_write() {
    assert_eq!(parse("."), [Instruction::Write]);
}

#[test]
fn parse_empty_loop() {
    let expected = [Instruction::Loop(vec![])];
    assert_eq!(parse("[]"), expected);
}

#[test]
fn parse_simple_loop() {
    let loop_body = vec![Instruction::Increment(1)];
    let expected = [Instruction::Loop(loop_body)];
    assert_eq!(parse("[+]"), expected);
}

#[test]
fn parse_complex_loop() {
    let loop_body = vec![Instruction::Read, Instruction::Increment(1)];
    let expected = [Instruction::Write,
                    Instruction::Loop(loop_body),
                    Instruction::Increment(-1)];
    assert_eq!(parse(".[,+]-"), expected);
}

#[test]
fn parse_comment() {
    assert_eq!(parse("foo! "), []);
}
