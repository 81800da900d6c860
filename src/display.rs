//! A human-readable rendering of the IR, one node per line, loop bodies
//! indented one level (two spaces) deeper than their loop.
use vstd::prelude::*;
use vstd::string::StringExecFns;
use crate::ir::{lemma_loop_view, ops, Instruction, Op};

verus! {

/// `level` levels of indentation, two spaces each.
pub open spec fn indentation(level: nat) -> Seq<char>
    decreases level,
{
    if level == 0 {
        Seq::empty()
    } else {
        indentation((level - 1) as nat) + "  "@
    }
}

/// The decimal digit `d` (below ten) as a character.
pub open spec fn digit(d: nat) -> char {
    (48 + d) as char
}

/// The decimal digits of `n`, most significant first, without leading zeros.
pub open spec fn digits(n: nat) -> Seq<char>
    decreases n,
{
    if n < 10 {
        seq![digit(n)]
    } else {
        digits(n / 10) + seq![digit(n % 10)]
    }
}

/// `x` in decimal, with a leading `-` when negative.
pub open spec fn decimal(x: int) -> Seq<char> {
    if x < 0 {
        seq!['-'] + digits((-x) as nat)
    } else {
        digits(x as nat)
    }
}

/// The text of `op` at indentation `level`: its name (with its delta in
/// parentheses where it has one), then, for a loop, each node of the body on a
/// line of its own one level deeper.
pub open spec fn render(op: Op, level: nat) -> Seq<char>
    decreases op,
{
    indentation(level) + match op {
        Op::Increment(d) => "Increment("@ + decimal(d) + ")"@,
        Op::PointerIncrement(d) => "PointerIncrement("@ + decimal(d) + ")"@,
        Op::Read => "Read"@,
        Op::Write => "Write"@,
        Op::Loop(body) => "Loop"@ + render_body(body, level + 1),
    }
}

/// Each node of `body`, preceded by a line break, at indentation `level`.
pub open spec fn render_body(body: Seq<Op>, level: nat) -> Seq<char>
    decreases body,
{
    if body.len() == 0 {
        Seq::empty()
    } else {
        render_body(body.drop_last(), level) + "\n"@ + render(body.last(), level)
    }
}

/// How deeply loops nest in `op`: zero for a plain node.
pub open spec fn height(op: Op) -> nat
    decreases op,
{
    match op {
        Op::Loop(body) => 1 + body_height(body),
        _ => 0,
    }
}

/// The greatest height among the nodes of `body`.
pub open spec fn body_height(body: Seq<Op>) -> nat
    decreases body,
{
    if body.len() == 0 {
        0
    } else {
        let a = body_height(body.drop_last());
        let b = height(body.last());
        if a >= b {
            a
        } else {
            b
        }
    }
}

proof fn lemma_body_height(body: Seq<Op>, k: int)
    requires
        0 <= k < body.len(),
    ensures
        height(body[k]) <= body_height(body),
    decreases body.len(),
{
    if k < body.len() - 1 {
        lemma_body_height(body.drop_last(), k);
    }
}

/// Relies on `String::push`: appends `c` to `s`.
#[verifier::external_body]
fn push_char(s: &mut String, c: char)
    ensures
        final(s)@ == old(s)@.push(c),
{
    s.push(c);
}

/// Appends `x` in decimal to `out`.
pub fn push_decimal(x: i32, out: &mut String)
    ensures
        final(out)@ == old(out)@ + decimal(x as int),
{
    let wide: i64 = x as i64;
    let mut rest: u64 = if wide < 0 {
        push_char(out, '-');
        (-wide) as u64
    } else {
        wide as u64
    };
    let ghost start = out@;
    let ghost magnitude: nat = rest as nat;
    let mut tail: Vec<char> = Vec::new();
    while rest >= 10
        invariant
            digits(magnitude) == digits(rest as nat) + tail@,
        decreases rest,
    {
        let d = (rest % 10) as u8;
        let ghost before = tail@;
        tail.insert(0, (48u8 + d) as char);
        proof {
            let high = digits((rest / 10) as nat);
            assert(digits(rest as nat) == high + seq![digit((rest % 10) as nat)]);
            assert(high + tail@ =~= high + seq![digit((rest % 10) as nat)] + before);
        }
        rest = rest / 10;
    }
    push_char(out, (48u8 + rest as u8) as char);
    let mut k: usize = 0;
    while k < tail.len()
        invariant
            k <= tail@.len(),
            out@ == start + seq![digit(rest as nat)] + tail@.subrange(0, k as int),
        decreases tail@.len() - k,
    {
        push_char(out, tail[k]);
        proof {
            assert(tail@.subrange(0, k + 1) =~= tail@.subrange(0, k as int).push(tail@[k as int]));
        }
        k = k + 1;
    }
    proof {
        assert(tail@.subrange(0, tail@.len() as int) =~= tail@);
        assert(seq![digit(rest as nat)] + tail@ =~= digits(magnitude));
    }
}

/// Appends the text of `instr` at indentation `indent` to `out`.
pub fn fmt_with_indent(instr: &Instruction, indent: usize, out: &mut String)
    requires
        indent + height(instr@) <= usize::MAX,
    ensures
        final(out)@ == old(out)@ + render(instr@, indent as nat),
    decreases instr,
{
    let ghost start = out@;
    let mut level: usize = 0;
    while level < indent
        invariant
            level <= indent,
            out@ == start + indentation(level as nat),
        decreases indent - level,
    {
        out.append("  ");
        proof {
            assert(out@ =~= start + indentation((level + 1) as nat));
        }
        level = level + 1;
    }
    let ghost head = out@;
    match instr {
        Instruction::Loop(loop_body) => {
            proof {
                lemma_loop_view(*loop_body);
            }
            let ghost body = ops(loop_body@);
            out.append("Loop");
            let mut k: usize = 0;
            while k < loop_body.len()
                invariant
                    *instr == Instruction::Loop(*loop_body),
                    body == ops(loop_body@),
                    instr@ == Op::Loop(body),
                    indent + height(instr@) <= usize::MAX,
                    k <= loop_body@.len(),
                    out@ == head + "Loop"@ + render_body(body.subrange(0, k as int), (indent + 1) as nat),
                decreases loop_body@.len() - k,
            {
                proof {
                    assert(decreases_to!(*instr => (*instr)->Loop_0));
                    assert(decreases_to!(*instr => loop_body@[k as int]));
                    lemma_body_height(body, k as int);
                }
                out.append("\n");
                fmt_with_indent(&loop_body[k], indent + 1, out);
                proof {
                    let next = body.subrange(0, k + 1);
                    assert(next.drop_last() =~= body.subrange(0, k as int));
                    assert(out@ =~= head + "Loop"@ + render_body(next, (indent + 1) as nat));
                }
                k = k + 1;
            }
            proof {
                assert(body.subrange(0, body.len() as int) =~= body);
                assert(out@ =~= start + render(instr@, indent as nat));
            }
        },
        Instruction::Increment(d) => {
            out.append("Increment(");
            push_decimal(*d, out);
            out.append(")");
            assert(out@ =~= start + render(instr@, indent as nat));
        },
        Instruction::PointerIncrement(d) => {
            out.append("PointerIncrement(");
            push_decimal(*d, out);
            out.append(")");
            assert(out@ =~= start + render(instr@, indent as nat));
        },
        Instruction::Read => {
            out.append("Read");
            assert(out@ =~= start + render(instr@, indent as nat));
        },
        Instruction::Write => {
            out.append("Write");
            assert(out@ =~= start + render(instr@, indent as nat));
        },
    }
}

impl Instruction {
    /// The text of this node: its name, and for a loop its body below it,
    /// indented.
    pub fn render(&self) -> (r: String)
        requires
            height(self@) < usize::MAX,
        ensures
            r@ == render(self@, 0),
    {
        let mut out = String::new();
        fmt_with_indent(self, 0, &mut out);
        assert(out@ =~= render(self@, 0));
        out
    }
}

} // verus!
