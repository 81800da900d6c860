//! The tree builder: source text to IR.
use vstd::prelude::*;
use vstd::std_specs::iter::IteratorSpec;
use crate::brackets::{
    closes_at, find_close, has_close, lemma_close_is_closer, lemma_close_unique,
    lemma_inner_close,
};
use crate::ir::{lemma_loop_view, ops, Instruction, Op};

verus! {

/// The nodes that a character other than `[` yields: one node for each of the
/// six plain symbols, none for `]` or commentary.
pub open spec fn symbol_ops(c: char) -> Seq<Op> {
    if c == '+' {
        seq![Op::Increment(1)]
    } else if c == '-' {
        seq![Op::Increment(-1)]
    } else if c == '>' {
        seq![Op::PointerIncrement(1)]
    } else if c == '<' {
        seq![Op::PointerIncrement(-1)]
    } else if c == ',' {
        seq![Op::Read]
    } else if c == '.' {
        seq![Op::Write]
    } else {
        seq![]
    }
}

/// `front` followed by the nodes of `rest`, or nothing where `rest` failed.
pub open spec fn prepend(front: Seq<Op>, rest: Option<Seq<Op>>) -> Option<Seq<Op>> {
    match rest {
        Some(r) => Some(front + r),
        None => None,
    }
}

/// The position that closes the loop opened at `open` (meaningful where
/// `has_close(s, open)`).
pub open spec fn close_of(s: Seq<char>, open: int) -> int {
    choose|close: int| closes_at(s, open, close)
}

/// The IR of the positions `start..end` of `s`: walking from `start`, each
/// plain symbol yields its node, and a `[` yields a loop over the IR of the
/// positions strictly between it and its closer, after which the walk goes on
/// past the closer. `None` where the walk reaches a `[` that has no closer.
pub open spec fn parse_range(s: Seq<char>, start: int, end: int) -> Option<Seq<Op>>
    decreases s.len() - start,
{
    if start < 0 || start >= end || start >= s.len() {
        Some(seq![])
    } else if s[start] == '[' {
        if has_close(s, start) {
            let close = close_of(s, start);
            match parse_range(s, start + 1, close) {
                Some(body) => prepend(seq![Op::Loop(body)], parse_range(s, close + 1, end)),
                None => None,
            }
        } else {
            None
        }
    } else {
        prepend(symbol_ops(s[start]), parse_range(s, start + 1, end))
    }
}

/// The IR of the whole of `s`.
pub open spec fn program(s: Seq<char>) -> Option<Seq<Op>> {
    parse_range(s, 0, s.len() as int)
}

/// Every `[` of `s` has a closer.
pub open spec fn loops_closed(s: Seq<char>) -> bool {
    forall|k: int| 0 <= k < s.len() && s[k] == '[' ==> #[trigger] has_close(s, k)
}

/// Where every `[` has a closer, every range parses.
pub proof fn lemma_closed_parses(s: Seq<char>, start: int, end: int)
    requires
        loops_closed(s),
    ensures
        parse_range(s, start, end) is Some,
    decreases s.len() - start,
{
    if 0 <= start < end && start < s.len() {
        if s[start] == '[' {
            assert(has_close(s, start));
            let close = close_of(s, start);
            lemma_closed_parses(s, start + 1, close);
            lemma_closed_parses(s, close + 1, end);
        } else {
            lemma_closed_parses(s, start + 1, end);
        }
    }
}

/// A walk to the end of `s` that starts at or before a `[` without a closer
/// fails.
pub proof fn lemma_unclosed_fails(s: Seq<char>, start: int, open: int)
    requires
        0 <= start <= open < s.len(),
        s[open] == '[',
        !has_close(s, open),
    ensures
        parse_range(s, start, s.len() as int) is None,
    decreases open - start,
{
    if start < open {
        if s[start] == '[' && has_close(s, start) {
            let close = close_of(s, start);
            if open < close {
                lemma_inner_close(s, start, close, open);
            }
            if open == close {
                lemma_close_is_closer(s, start, close);
            }
            lemma_unclosed_fails(s, close + 1, open);
        } else if s[start] != '[' {
            lemma_unclosed_fails(s, start + 1, open);
        }
    }
}

/// The whole of `s` parses exactly when every `[` has a closer.
pub proof fn lemma_program_iff_closed(s: Seq<char>)
    ensures
        program(s) is Some <==> loops_closed(s),
{
    if loops_closed(s) {
        lemma_closed_parses(s, 0, s.len() as int);
    } else {
        let open = choose|k: int| 0 <= k < s.len() && s[k] == '[' && !has_close(s, k);
        lemma_unclosed_fails(s, 0, open);
    }
}

/// `c` is commentary: none of the eight symbols.
pub open spec fn is_commentary(c: char) -> bool {
    !(c == '+' || c == '-' || c == '>' || c == '<' || c == ',' || c == '.' || c == '['
        || c == ']')
}

proof fn lemma_commentary_range(s: Seq<char>, start: int)
    requires
        forall|k: int| 0 <= k < s.len() ==> is_commentary(#[trigger] s[k]),
    ensures
        parse_range(s, start, s.len() as int) == Some(Seq::<Op>::empty()),
    decreases s.len() - start,
{
    if 0 <= start < s.len() {
        lemma_commentary_range(s, start + 1);
        assert(symbol_ops(s[start]) + Seq::<Op>::empty() =~= Seq::<Op>::empty());
    }
}

/// Text made of commentary alone parses to no nodes at all.
pub proof fn lemma_commentary_parses_empty(s: Seq<char>)
    requires
        forall|k: int| 0 <= k < s.len() ==> is_commentary(#[trigger] s[k]),
    ensures
        program(s) == Some(Seq::<Op>::empty()),
{
    lemma_commentary_range(s, 0);
}

/// Parsing is a function of the text: the same text always gives the same
/// tree.
pub proof fn lemma_parse_deterministic(
    a: Seq<char>,
    b: Seq<char>,
    x: Seq<Instruction>,
    y: Seq<Instruction>,
)
    requires
        a == b,
        program(a) == Some(ops(x)),
        program(b) == Some(ops(y)),
    ensures
        ops(x) == ops(y),
{
}

/// `n` openers, one `+`, then `n` closers.
pub open spec fn nested_source(n: nat) -> Seq<char> {
    Seq::new(
        2 * n + 1,
        |k: int|
            if k < n {
                '['
            } else if k == n {
                '+'
            } else {
                ']'
            },
    )
}

/// `n` loops, each the whole body of the one around it, around one increment.
pub open spec fn nested_ops(n: nat) -> Seq<Op>
    decreases n,
{
    if n == 0 {
        seq![Op::Increment(1)]
    } else {
        seq![Op::Loop(nested_ops((n - 1) as nat))]
    }
}

proof fn lemma_nested_depth(n: nat, i: int, m: int)
    requires
        0 <= i < n,
        i <= m <= 2 * n - i,
    ensures
        crate::brackets::depth(nested_source(n), i, m + 1) == if m < n {
            m + 1 - i
        } else {
            2 * n - i - m
        },
    decreases m - i,
{
    let s = nested_source(n);
    if m == i {
        assert(crate::brackets::depth(s, i, i) == 0);
    } else {
        lemma_nested_depth(n, i, m - 1);
    }
}

proof fn lemma_nested_range(n: nat, i: int)
    requires
        0 <= i <= n,
    ensures
        parse_range(nested_source(n), i, 2 * n + 1 - i) == Some(nested_ops((n - i) as nat)),
    decreases n - i,
{
    let s = nested_source(n);
    if i == n {
        assert(s[i] == '+');
        assert(parse_range(s, i + 1, 2 * n + 1 - i) == Some(Seq::<Op>::empty()));
        assert(seq![Op::Increment(1)] + Seq::<Op>::empty() =~= seq![Op::Increment(1)]);
    } else {
        let close = 2 * n - i;
        assert forall|m: int| i <= m < close implies #[trigger] crate::brackets::depth(s, i, m + 1) > 0 by {
            lemma_nested_depth(n, i, m);
        }
        lemma_nested_depth(n, i, close);
        assert(closes_at(s, i, close));
        lemma_close_unique(s, i, close, close_of(s, i));
        lemma_nested_range(n, i + 1);
        assert(s[i] == '[');
        assert(has_close(s, i));
        assert(parse_range(s, close + 1, 2 * n + 1 - i) == Some(Seq::<Op>::empty()));
        assert(seq![Op::Loop(nested_ops((n - i - 1) as nat))] + Seq::<Op>::empty() =~= nested_ops(
            (n - i) as nat,
        ));
    }
}

/// Loops nested to any depth parse into loop nodes nested to the same depth.
pub proof fn lemma_nested_loops(n: nat)
    ensures
        program(nested_source(n)) == Some(nested_ops(n)),
{
    lemma_nested_range(n, 0);
}

/// Parses the positions `start..end` of `chars`.
pub fn parse_between(chars: &Vec<char>, start: usize, end: usize) -> (r: Option<
    Vec<Instruction>,
>)
    requires
        start <= end <= chars@.len(),
    ensures
        match r {
            Some(instrs) => parse_range(chars@, start as int, end as int) == Some(ops(instrs@)),
            None => parse_range(chars@, start as int, end as int) is None,
        },
    decreases chars@.len() - start,
{
    let ghost s = chars@;
    let mut instructions: Vec<Instruction> = Vec::new();
    let mut index: usize = start;
    let n: usize = chars.len();
    while index < end
        invariant
            s == chars@,
            n == s.len(),
            start <= index <= s.len(),
            end <= s.len(),
            parse_range(s, start as int, end as int) == prepend(
                ops(instructions@),
                parse_range(s, index as int, end as int),
            ),
        decreases s.len() - index,
    {
        let ghost before = instructions@;
        let c = chars[index];
        if c == '[' {
            match find_close(chars, index) {
                None => {
                    return None;
                },
                Some(close_index) => {
                    proof {
                        lemma_close_unique(s, index as int, close_index as int, close_of(s, index as int));
                    }
                    match parse_between(chars, index + 1, close_index) {
                        None => {
                            return None;
                        },
                        Some(loop_body) => {
                            proof {
                                lemma_loop_view(loop_body);
                            }
                            instructions.push(Instruction::Loop(loop_body));
                            index = close_index;
                        },
                    }
                },
            }
        } else {
            if c == '+' {
                instructions.push(Instruction::Increment(1));
            } else if c == '-' {
                instructions.push(Instruction::Increment(-1));
            } else if c == '>' {
                instructions.push(Instruction::PointerIncrement(1));
            } else if c == '<' {
                instructions.push(Instruction::PointerIncrement(-1));
            } else if c == ',' {
                instructions.push(Instruction::Read);
            } else if c == '.' {
                instructions.push(Instruction::Write);
            }
        }
        index = index + 1;
        proof {
            assert(ops(instructions@) =~= ops(before) + (ops(instructions@).subrange(
                ops(before).len() as int,
                ops(instructions@).len() as int,
            )));
        }
    }
    Some(instructions)
}

/// The characters of `source`, in order.
pub fn source_chars(source: &str) -> (r: Vec<char>)
    ensures
        r@ == source@,
{
    let mut it = source.chars();
    let mut chars: Vec<char> = Vec::new();
    loop
        invariant
            chars@ + it.remaining() == source@,
            it.decrease() is Some,
        ensures
            chars@ == source@,
        decreases it.decrease()->0,
    {
        match it.next() {
            Some(c) => {
                chars.push(c);
            },
            None => {
                assert(it.remaining().len() == 0);
                assert(chars@ =~= source@);
                break;
            },
        }
    }
    chars
}

/// Parses `source`, which must have a closer for each `[`.
pub fn parse(source: &str) -> (r: Vec<Instruction>)
    requires
        loops_closed(source@),
    ensures
        program(source@) == Some(ops(r@)),
{
    let chars = source_chars(source);
    proof {
        lemma_program_iff_closed(source@);
    }
    match parse_between(&chars, 0, chars.len()) {
        Some(instructions) => instructions,
        None => Vec::new(),
    }
}

/// Parses `source`, or gives `None` where some `[` has no closer.
pub fn try_parse(source: &str) -> (r: Option<Vec<Instruction>>)
    ensures
        r is Some <==> loops_closed(source@),
        match r {
            Some(instrs) => program(source@) == Some(ops(instrs@)),
            None => program(source@) is None,
        },
{
    let chars = source_chars(source);
    proof {
        lemma_program_iff_closed(source@);
    }
    parse_between(&chars, 0, chars.len())
}

} // verus!
