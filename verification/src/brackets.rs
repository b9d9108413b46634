//! The opcode alphabet and the structure of brackets in a program.

use vstd::prelude::*;

verus! {

/// The eight characters that are instructions.
pub open spec fn is_opcode(c: char) -> bool {
    c == '+' || c == '-' || c == '>' || c == '<' || c == ',' || c == '.' || c == '[' || c == ']'
}

/// What is left of a text once everything but the opcodes is dropped.
pub open spec fn opcodes(text: Seq<char>) -> Seq<char> {
    text.filter(|c: char| is_opcode(c))
}

/// What one character adds to the nesting depth.
pub open spec fn weight(c: char) -> int {
    if c == '[' {
        1
    } else if c == ']' {
        -1
    } else {
        0
    }
}

/// The number of `[` less the number of `]` among `src[from..to]`.
pub open spec fn nesting(src: Seq<char>, from: int, to: int) -> int
    decreases to - from,
{
    if to <= from {
        0
    } else {
        nesting(src, from, to - 1) + weight(src[to - 1])
    }
}

/// There is a `]` at `at`, and from `open` up to and including it the
/// brackets cancel out.
pub open spec fn closes(src: Seq<char>, open: int, at: int) -> bool {
    &&& open <= at < src.len()
    &&& src[at] == ']'
    &&& nesting(src, open, at + 1) == 0
}

/// `at` is the first position that closes what starts at `open`.
pub open spec fn first_close(src: Seq<char>, open: int, at: int) -> bool {
    &&& closes(src, open, at)
    &&& forall|k: int| open <= k < at ==> !closes(src, open, k)
}

/// The position of the `]` that matches the bracket at `open`, if there is
/// one: the first `]` at which the depth counted from `open` is back at zero.
pub open spec fn matching_close(src: Seq<char>, open: int) -> Option<int> {
    if exists|at: int| first_close(src, open, at) {
        Some(choose|at: int| first_close(src, open, at))
    } else {
        None
    }
}

/// Every `]` closes an earlier `[`, and every `[` is closed.
pub open spec fn balanced(src: Seq<char>) -> bool {
    &&& forall|k: int| 0 <= k <= src.len() ==> nesting(src, 0, k) >= 0
    &&& nesting(src, 0, src.len() as int) == 0
}

/// Whether `c` is one of the eight opcodes.
pub fn is_func(c: &char) -> (b: bool)
    ensures
        b == is_opcode(*c),
{
    let c = *c;
    c == '+' || c == '-' || c == '>' || c == '<' || c == ',' || c == '.' || c == '[' || c == ']'
}

/// Filtering two texts one after the other gives what filtering their
/// concatenation gives.
pub proof fn lemma_opcodes_concat(first: Seq<char>, second: Seq<char>)
    ensures
        opcodes(first) + opcodes(second) == opcodes(first + second),
{
    Seq::filter_distributes_over_add(first, second, |c: char| is_opcode(c));
}

/// A text without opcodes filters to nothing.
pub proof fn lemma_opcodes_inert(text: Seq<char>)
    requires
        forall|i: int| 0 <= i < text.len() ==> !is_opcode(text[i]),
    ensures
        opcodes(text) == Seq::<char>::empty(),
    decreases text.len(),
{
    reveal(Seq::filter);
    if text.len() > 0 {
        lemma_opcodes_inert(text.drop_last());
    }
}

/// The nesting over a range is the sum of the nesting over its two parts.
pub proof fn lemma_nesting_split(src: Seq<char>, from: int, mid: int, to: int)
    requires
        from <= mid <= to,
    ensures
        nesting(src, from, to) == nesting(src, from, mid) + nesting(src, mid, to),
    decreases to - mid,
{
    if mid < to {
        lemma_nesting_split(src, from, mid, to - 1);
    }
}

/// A position has at most one first close.
pub proof fn lemma_first_close_unique(src: Seq<char>, open: int, a: int, b: int)
    requires
        first_close(src, open, a),
        first_close(src, open, b),
    ensures
        a == b,
{
}

/// Once a first close is known, it is the matching close.
pub proof fn lemma_matching_close_is(src: Seq<char>, open: int, at: int)
    requires
        first_close(src, open, at),
    ensures
        matching_close(src, open) == Some(at),
{
    let chosen = choose|k: int| first_close(src, open, k);
    lemma_first_close_unique(src, open, chosen, at);
}

/// Where nothing closes, there is no matching close.
pub proof fn lemma_matching_close_none(src: Seq<char>, open: int)
    requires
        forall|k: int| open <= k < src.len() ==> !closes(src, open, k),
    ensures
        matching_close(src, open) is None,
{
}

/// From `upto` on there is a first close for `open`, where the depth counted
/// from `open` is still above zero at `upto` and is not at the end.
proof fn lemma_search_close(src: Seq<char>, open: int, upto: int) -> (at: int)
    requires
        0 <= open < upto <= src.len(),
        nesting(src, open, upto) > 0,
        nesting(src, open, src.len() as int) <= 0,
        forall|k: int| open <= k < upto ==> !closes(src, open, k),
    ensures
        first_close(src, open, at),
    decreases src.len() - upto,
{
    if nesting(src, open, upto + 1) == 0 {
        upto
    } else {
        lemma_search_close(src, open, upto + 1)
    }
}

/// In a balanced program every `[` has a matching `]`.
pub proof fn lemma_balanced_open_closes(src: Seq<char>, open: int)
    requires
        balanced(src),
        0 <= open < src.len(),
        src[open] == '[',
    ensures
        matching_close(src, open) is Some,
        first_close(src, open, matching_close(src, open)->0),
{
    lemma_nesting_split(src, 0, open, src.len() as int);
    assert(nesting(src, open, open + 1) == 1) by {
        assert(nesting(src, open, open) == 0);
    }
    let at = lemma_search_close(src, open, open + 1);
    lemma_matching_close_is(src, open, at);
}

/// Finds the `]` that matches the bracket at `open_pos`.
///
/// The depth is counted from `open_pos` on, one up for each `[` and one down
/// for each `]`; the answer is the first `]` that brings it back to zero.
/// Cell values play no part in it.
pub fn find_close_bracket(open_pos: usize, src: &Vec<char>) -> (found: Option<usize>)
    ensures
        match found {
            Some(at) => {
                &&& matching_close(src@, open_pos as int) == Some(at as int)
                &&& first_close(src@, open_pos as int, at as int)
            },
            None => {
                &&& matching_close(src@, open_pos as int) is None
                &&& forall|k: int|
                    open_pos <= k < src@.len() ==> !closes(src@, open_pos as int, k)
            },
        },
{
    let mut i: usize = open_pos;
    // A scan that starts at a `]` takes the depth below zero, and no depth
    // is further from zero than the scan is long.
    let mut nest: i128 = 0;
    while i < src.len()
        invariant
            open_pos <= i,
            i <= src@.len() || i == open_pos,
            nest == nesting(src@, open_pos as int, i as int),
            -(i - open_pos) <= nest <= i - open_pos,
            forall|k: int| open_pos <= k < i ==> !closes(src@, open_pos as int, k),
        decreases src@.len() - i,
    {
        let c = src[i];
        if c == '[' {
            nest = nest + 1;
        } else if c == ']' {
            nest = nest - 1;
            if nest == 0 {
                proof {
                    lemma_matching_close_is(src@, open_pos as int, i as int);
                }
                return Some(i);
            }
        }
        i = i + 1;
    }
    proof {
        lemma_matching_close_none(src@, open_pos as int);
    }
    None
}

} // verus!
