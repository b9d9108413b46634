//! The text of the error that a run reports.

use vstd::prelude::*;
use vstd::string::StringExecFns;
use crate::semantics::{positions, Outcome};

verus! {

/// The character for one decimal digit.
pub open spec fn digit(d: nat) -> char {
    if d == 0 {
        '0'
    } else if d == 1 {
        '1'
    } else if d == 2 {
        '2'
    } else if d == 3 {
        '3'
    } else if d == 4 {
        '4'
    } else if d == 5 {
        '5'
    } else if d == 6 {
        '6'
    } else if d == 7 {
        '7'
    } else if d == 8 {
        '8'
    } else {
        '9'
    }
}

/// A number in decimal, without leading zeros.
pub open spec fn decimal(n: nat) -> Seq<char>
    decreases n,
{
    if n < 10 {
        seq![digit(n)]
    } else {
        decimal(n / 10).push(digit(n % 10))
    }
}

/// Numbers in decimal, separated by a comma and a space.
pub open spec fn listing(items: Seq<nat>) -> Seq<char>
    decreases items.len(),
{
    if items.len() == 0 {
        Seq::empty()
    } else if items.len() == 1 {
        decimal(items[0])
    } else {
        listing(items.drop_last()) + seq![',', ' '] + decimal(items.last())
    }
}

/// The message for a bracket without a partner at position `at`.
pub open spec fn mismatch_at(at: nat) -> Seq<char> {
    "Mismatched brackets at "@ + decimal(at)
}

/// The message for loops still open at the end of the program: their
/// positions, outermost first, between square brackets.
pub open spec fn mismatch_open(stack: Seq<nat>) -> Seq<char> {
    "Mismatched brackets at "@ + seq!['['] + listing(stack) + seq![']']
}

/// What a run reports for each way it can end: the code 0, or the message.
pub open spec fn report(o: Outcome) -> Result<u8, Seq<char>> {
    match o {
        Outcome::Finished => Ok(0u8),
        Outcome::Mismatch(at) => Err(mismatch_at(at)),
        Outcome::Unclosed(stack) => Err(mismatch_open(stack)),
    }
}

/// A result with its message read as a sequence of characters.
pub open spec fn result_view(r: Result<u8, String>) -> Result<u8, Seq<char>> {
    match r {
        Ok(code) => Ok(code),
        Err(text) => Err(text@),
    }
}

fn digit_str(d: u8) -> (s: &'static str)
    requires
        d < 10,
    ensures
        s@ == seq![digit(d as nat)],
{
    proof {
        reveal_strlit("0");
        reveal_strlit("1");
        reveal_strlit("2");
        reveal_strlit("3");
        reveal_strlit("4");
        reveal_strlit("5");
        reveal_strlit("6");
        reveal_strlit("7");
        reveal_strlit("8");
        reveal_strlit("9");
    }
    let s = if d == 0 {
        "0"
    } else if d == 1 {
        "1"
    } else if d == 2 {
        "2"
    } else if d == 3 {
        "3"
    } else if d == 4 {
        "4"
    } else if d == 5 {
        "5"
    } else if d == 6 {
        "6"
    } else if d == 7 {
        "7"
    } else if d == 8 {
        "8"
    } else {
        "9"
    };
    assert(s@ =~= seq![digit(d as nat)]);
    s
}

fn push_decimal(out: &mut String, n: usize)
    ensures
        final(out)@ == old(out)@ + decimal(n as nat),
    decreases n,
{
    if n >= 10 {
        push_decimal(out, n / 10);
    }
    let d = (n % 10) as u8;
    out.append(digit_str(d));
    assert(out@ =~= old(out)@ + decimal(n as nat));
}

/// Writes the message for a bracket without a partner at `at`.
pub fn format_mismatch_at(at: usize) -> (text: String)
    ensures
        text@ == mismatch_at(at as nat),
{
    let mut text = String::from_str("Mismatched brackets at ");
    push_decimal(&mut text, at);
    text
}

proof fn lemma_listing_take(items: Seq<nat>, k: int)
    requires
        0 <= k < items.len(),
    ensures
        listing(items.take(k + 1)) == if k == 0 {
            decimal(items[0])
        } else {
            listing(items.take(k)) + seq![',', ' '] + decimal(items[k])
        },
{
    assert(items.take(k + 1).drop_last() =~= items.take(k));
}

/// Writes the message for the loops in `stack` left open.
pub fn format_mismatch_open(stack: &Vec<usize>) -> (text: String)
    ensures
        text@ == mismatch_open(positions(stack@)),
{
    let ghost items = positions(stack@);
    let mut text = String::from_str("Mismatched brackets at ");
    proof {
        reveal_strlit("[");
        reveal_strlit("]");
    }
    text.append("[");
    assert("["@ =~= seq!['[']);
    let mut k: usize = 0;
    while k < stack.len()
        invariant
            k <= stack@.len(),
            items == positions(stack@),
            text@ == "Mismatched brackets at "@ + seq!['['] + listing(items.take(k as int)),
        decreases stack@.len() - k,
    {
        if k > 0 {
            text.append(", ");
            proof {
                reveal_strlit(", ");
            }
            assert(", "@ =~= seq![',', ' ']);
        }
        push_decimal(&mut text, stack[k]);
        proof {
            lemma_listing_take(items, k as int);
            assert(items[k as int] == stack@[k as int] as nat);
        }
        k = k + 1;
        assert(text@ =~= "Mismatched brackets at "@ + seq!['['] + listing(items.take(k as int)));
    }
    text.append("]");
    assert("]"@ =~= seq![']']);
    assert(items.take(k as int) =~= items);
    text
}

} // verus!
