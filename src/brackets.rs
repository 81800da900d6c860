//! Loop-marker nesting and the matching of an opener with its closer.
use vstd::prelude::*;

verus! {

/// How a character changes the nesting depth: `[` opens, `]` closes.
pub open spec fn step(c: char) -> int {
    if c == '[' {
        1
    } else if c == ']' {
        -1
    } else {
        0
    }
}

/// The nesting depth gained over the positions `from..to` of `s`: openers
/// minus closers.
pub open spec fn depth(s: Seq<char>, from: int, to: int) -> int
    decreases to - from,
{
    if to <= from {
        0
    } else {
        depth(s, from, to - 1) + step(s[to - 1])
    }
}

/// The loop opened at `open` ends at `close`: counted from `open`, the depth
/// is back to zero just after `close` and positive after every earlier
/// position.
pub open spec fn closes_at(s: Seq<char>, open: int, close: int) -> bool {
    &&& 0 <= open < close < s.len()
    &&& depth(s, open, close + 1) == 0
    &&& forall|m: int| open <= m < close ==> #[trigger] depth(s, open, m + 1) > 0
}

/// The loop opened at `open` has a closer.
pub open spec fn has_close(s: Seq<char>, open: int) -> bool {
    exists|close: int| closes_at(s, open, close)
}

/// Depth is additive over adjacent ranges.
pub proof fn lemma_depth_split(s: Seq<char>, a: int, b: int, c: int)
    requires
        a <= b <= c,
    ensures
        depth(s, a, c) == depth(s, a, b) + depth(s, b, c),
    decreases c - b,
{
    if b < c {
        lemma_depth_split(s, a, b, c - 1);
    }
}

/// A loop has at most one closer.
pub proof fn lemma_close_unique(s: Seq<char>, open: int, a: int, b: int)
    requires
        closes_at(s, open, a),
        closes_at(s, open, b),
    ensures
        a == b,
{
    if a < b {
        assert(depth(s, open, a + 1) > 0);
    } else if b < a {
        assert(depth(s, open, b + 1) > 0);
    }
}

/// A closer ends the loop: the character there is `]`.
pub proof fn lemma_close_is_closer(s: Seq<char>, open: int, close: int)
    requires
        closes_at(s, open, close),
    ensures
        s[close] == ']',
{
    assert(depth(s, open, (close - 1) + 1) > 0);
}

/// Scanning on from `m`, where the depth counted from `open` has stayed
/// positive so far and is no longer positive after `hi`, a closer is met by
/// `hi`.
proof fn lemma_scan_reaches_close(s: Seq<char>, open: int, m: int, hi: int)
    requires
        0 <= open <= m < hi < s.len(),
        forall|p: int| open <= p <= m ==> #[trigger] depth(s, open, p + 1) > 0,
        depth(s, open, hi + 1) <= 0,
    ensures
        has_close(s, open),
    decreases hi - m,
{
    let next = m + 1;
    assert(depth(s, open, next + 1) == depth(s, open, m + 1) + step(s[next]));
    if depth(s, open, next + 1) > 0 {
        lemma_scan_reaches_close(s, open, next, hi);
    } else {
        assert(closes_at(s, open, next));
    }
}

/// An opener whose depth, counted from it, is no longer positive after `hi`
/// has a closer at or before `hi`.
pub proof fn lemma_close_exists(s: Seq<char>, open: int, hi: int)
    requires
        0 <= open < hi < s.len(),
        s[open] == '[',
        depth(s, open, hi + 1) <= 0,
    ensures
        has_close(s, open),
        closes_at(s, open, choose|close: int| closes_at(s, open, close)),
        (choose|close: int| closes_at(s, open, close)) <= hi,
{
    assert(depth(s, open, open) == 0);
    assert(depth(s, open, open + 1) == 1);
    lemma_scan_reaches_close(s, open, open, hi);
    let close = choose|close: int| closes_at(s, open, close);
    if close > hi {
        assert(depth(s, open, hi + 1) > 0);
    }
}

/// A loop nested inside another closes before the outer one does.
pub proof fn lemma_inner_close(s: Seq<char>, outer: int, close: int, inner: int)
    requires
        closes_at(s, outer, close),
        outer < inner < close,
        s[inner] == '[',
    ensures
        has_close(s, inner),
        closes_at(s, inner, choose|c: int| closes_at(s, inner, c)),
        (choose|c: int| closes_at(s, inner, c)) < close,
{
    assert(depth(s, outer, (inner - 1) + 1) > 0);
    lemma_depth_split(s, outer, inner, close + 1);
    lemma_depth_split(s, outer, inner, close);
    assert(depth(s, outer, (close - 1) + 1) > 0);
    lemma_close_exists(s, inner, close - 1);
}

/// `s` is a well-balanced bracket sequence: no prefix closes more loops than
/// it opens, and the whole closes as many as it opens.
pub open spec fn balanced(s: Seq<char>) -> bool {
    &&& depth(s, 0, s.len() as int) == 0
    &&& forall|m: int| 0 <= m <= s.len() ==> #[trigger] depth(s, 0, m) >= 0
}

/// In a well-balanced sequence every `[` has a closer. With the contract of
/// `find_close`, this means that `find_close` returns `Some(j)` there, where
/// between the opener and `j` openers and closers are equal in number and no
/// earlier prefix brings the depth back to zero.
pub proof fn lemma_balanced_has_close(s: Seq<char>, open: int)
    requires
        balanced(s),
        0 <= open < s.len(),
        s[open] == '[',
    ensures
        has_close(s, open),
        closes_at(s, open, choose|close: int| closes_at(s, open, close)),
{
    lemma_depth_split(s, 0, open, s.len() as int);
    assert(depth(s, 0, open) >= 0);
    if open == s.len() - 1 {
        assert(depth(s, open, open) == 0);
        assert(depth(s, open, open + 1) == 1);
    } else {
        lemma_close_exists(s, open, s.len() - 1);
    }
}

/// Finds the position of the `]` that matches the `[` at `open_index`.
pub fn find_close(chars: &Vec<char>, open_index: usize) -> (r: Option<usize>)
    requires
        open_index < chars@.len(),
        chars@[open_index as int] == '[',
    ensures
        match r {
            Some(close) => closes_at(chars@, open_index as int, close as int),
            None => !has_close(chars@, open_index as int),
        },
{
    let ghost s = chars@;
    let ghost open = open_index as int;
    let mut nesting_depth: usize = 0;
    let mut index: usize = open_index;
    while index < chars.len()
        invariant
            open == open_index,
            0 <= open < s.len(),
            s == chars@,
            s[open] == '[',
            open <= index <= s.len(),
            nesting_depth == depth(s, open, index as int),
            nesting_depth <= index - open,
            forall|m: int| open <= m < index ==> #[trigger] depth(s, open, m + 1) > 0,
        decreases s.len() - index,
    {
        let c = chars[index];
        if c == '[' {
            nesting_depth = nesting_depth + 1;
        } else if c == ']' {
            assert(depth(s, open, index - 1 + 1) > 0);
            nesting_depth = nesting_depth - 1;
        }
        assert(depth(s, open, index + 1) == depth(s, open, index as int) + step(s[index as int]));
        if nesting_depth == 0 {
            assert(depth(s, open, index + 1) == 0);
            assert(open < index);
            return Some(index);
        }
        index = index + 1;
    }
    proof {
        assert forall|close: int| !closes_at(s, open, close) by {
            if 0 <= open < close < s.len() {
                assert(depth(s, open, close + 1) > 0);
            }
        }
    }
    None
}

} // verus!
