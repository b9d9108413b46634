//! What running a program means: configurations, single steps, and runs.

use vstd::prelude::*;
use crate::brackets::{
    balanced, first_close, lemma_balanced_open_closes, lemma_nesting_split, matching_close, nesting,
    weight,
};
use crate::machine::MachineView;

verus! {

/// A moment in a run.
pub struct Config {
    /// The tape machine.
    pub machine: MachineView,
    /// The position of the instruction that comes next.
    pub pc: nat,
    /// The positions of the loops that were entered and not yet left,
    /// outermost first.
    pub stack: Seq<nat>,
}

/// How a run ended.
pub enum Outcome {
    /// The end of the program was reached with no loop open.
    Finished,
    /// The bracket at this position has no partner: a `[` to skip with no
    /// matching `]` after it, or a `]` with no loop open.
    Mismatch(nat),
    /// The end of the program was reached with these loops still open.
    Unclosed(Seq<nat>),
}

/// A stack of positions as it is kept in memory, read as numbers.
pub open spec fn positions(stack: Seq<usize>) -> Seq<nat> {
    stack.map_values(|p: usize| p as nat)
}

/// The instruction at `c.pc` is a bracket that cannot be carried out.
pub open spec fn stuck(prog: Seq<char>, c: Config) -> bool {
    &&& c.pc < prog.len()
    &&& {
        ||| prog[c.pc as int] == '[' && c.machine.value() == 0 && matching_close(
            prog,
            c.pc as int,
        ) is None
        ||| prog[c.pc as int] == ']' && c.stack.len() == 0
    }
}

/// The run is over at `c`: the program is at its end, or the next
/// instruction is stuck.
pub open spec fn halted(prog: Seq<char>, c: Config) -> bool {
    c.pc >= prog.len() || stuck(prog, c)
}

/// The configuration after the instruction at `c.pc`, for a `c` that is not
/// halted.
///
/// `[` on a zero cell goes to just past its matching `]`; on a nonzero cell
/// it records its position and goes on. `]` on a nonzero cell goes back to
/// just past the `[` on top of the stack; on a zero cell it drops that entry
/// and goes on. Any character that is no opcode is passed over.
pub open spec fn advance(prog: Seq<char>, c: Config) -> Config {
    let op = prog[c.pc as int];
    let m = c.machine;
    if op == '+' {
        Config { machine: m.inc(), pc: c.pc + 1, stack: c.stack }
    } else if op == '-' {
        Config { machine: m.dec(), pc: c.pc + 1, stack: c.stack }
    } else if op == '>' {
        Config { machine: m.next(), pc: c.pc + 1, stack: c.stack }
    } else if op == '<' {
        Config { machine: m.prev(), pc: c.pc + 1, stack: c.stack }
    } else if op == ',' {
        Config { machine: m.get(), pc: c.pc + 1, stack: c.stack }
    } else if op == '.' {
        Config { machine: m.put(), pc: c.pc + 1, stack: c.stack }
    } else if op == '[' {
        if m.value() == 0 {
            Config { machine: m, pc: (matching_close(prog, c.pc as int)->0 + 1) as nat, stack: c.stack }
        } else {
            Config { machine: m, pc: c.pc + 1, stack: c.stack.push(c.pc) }
        }
    } else if op == ']' {
        if m.value() != 0 {
            Config { machine: m, pc: c.stack.last() + 1, stack: c.stack }
        } else {
            Config { machine: m, pc: c.pc + 1, stack: c.stack.drop_last() }
        }
    } else {
        Config { machine: m, pc: c.pc + 1, stack: c.stack }
    }
}

/// The configuration after at most `n` instructions: the run stops early
/// where it is halted.
pub open spec fn run(prog: Seq<char>, c: Config, n: nat) -> Config
    decreases n,
{
    if n == 0 || halted(prog, c) {
        c
    } else {
        run(prog, advance(prog, c), (n - 1) as nat)
    }
}

/// The run from `c` is over after at most `n` instructions.
pub open spec fn halts_within(prog: Seq<char>, c: Config, n: nat) -> bool {
    halted(prog, run(prog, c, n))
}

/// The run from `c` comes to an end.
pub open spec fn halts(prog: Seq<char>, c: Config) -> bool {
    exists|n: nat| halts_within(prog, c, n)
}

/// The configuration in which the run from `c` ends, for a run that halts.
pub open spec fn end_config(prog: Seq<char>, c: Config) -> Config {
    run(prog, c, choose|n: nat| halts_within(prog, c, n))
}

/// How a run that is over at `c` ended.
pub open spec fn outcome(prog: Seq<char>, c: Config) -> Outcome {
    if c.pc < prog.len() {
        Outcome::Mismatch(c.pc)
    } else if c.stack.len() == 0 {
        Outcome::Finished
    } else {
        Outcome::Unclosed(c.stack)
    }
}

/// A run that is over stays where it is, however many more instructions it
/// is given.
pub proof fn lemma_run_stays(prog: Seq<char>, c: Config, n: nat, m: nat)
    requires
        halts_within(prog, c, n),
        n <= m,
    ensures
        run(prog, c, m) == run(prog, c, n),
    decreases n,
{
    if n == 0 || halted(prog, c) {
    } else {
        lemma_run_stays(prog, advance(prog, c), (n - 1) as nat, (m - 1) as nat);
    }
}

/// Whatever bound shows that a run halts, the run ends in the same
/// configuration.
pub proof fn lemma_end_config(prog: Seq<char>, c: Config, n: nat)
    requires
        halts_within(prog, c, n),
    ensures
        halts(prog, c),
        end_config(prog, c) == run(prog, c, n),
        halted(prog, end_config(prog, c)),
{
    let k = choose|k: nat| halts_within(prog, c, k);
    if k <= n {
        lemma_run_stays(prog, c, k, n);
    } else {
        lemma_run_stays(prog, c, n, k);
    }
}

/// A run that is already over ends where it is.
pub proof fn lemma_end_config_halted(prog: Seq<char>, c: Config)
    requires
        halted(prog, c),
    ensures
        halts(prog, c),
        end_config(prog, c) == c,
{
    assert(halts_within(prog, c, 0));
    lemma_end_config(prog, c, 0);
}

/// One instruction of a run that halts within `n` leaves a run that halts
/// within `n - 1` and ends in the same configuration.
pub proof fn lemma_end_config_advance(prog: Seq<char>, c: Config, n: nat)
    requires
        halts_within(prog, c, n),
        !halted(prog, c),
    ensures
        n > 0,
        halts_within(prog, advance(prog, c), (n - 1) as nat),
        end_config(prog, advance(prog, c)) == end_config(prog, c),
{
    lemma_end_config(prog, c, n);
    lemma_end_config(prog, advance(prog, c), (n - 1) as nat);
}

/// Every entry of the stack is the position of a `[` before `c.pc`, and the
/// entries go up from the bottom of the stack to its top.
pub open spec fn ordered(prog: Seq<char>, c: Config) -> bool {
    &&& c.pc <= prog.len()
    &&& forall|k: int|
        0 <= k < c.stack.len() ==> #[trigger] c.stack[k] < c.pc && prog[c.stack[k] as int] == '['
    &&& forall|j: int, k: int| 0 <= j < k < c.stack.len() ==> c.stack[j] < c.stack[k]
}

/// The stack is what the brackets before `c.pc` leave open: it is ordered,
/// it is as deep as the nesting at `c.pc`, and each entry stands at the depth
/// of its place in the stack.
pub open spec fn tracks(prog: Seq<char>, c: Config) -> bool {
    &&& ordered(prog, c)
    &&& c.stack.len() == nesting(prog, 0, c.pc as int)
    &&& forall|k: int|
        0 <= k < c.stack.len() ==> nesting(prog, 0, #[trigger] c.stack[k] as int) == k
}

/// One instruction keeps the stack ordered, whatever the program.
pub proof fn lemma_ordered_advance(prog: Seq<char>, c: Config)
    requires
        ordered(prog, c),
        !halted(prog, c),
    ensures
        ordered(prog, advance(prog, c)),
{
    let pc = c.pc as int;
    let next = advance(prog, c);
    if prog[pc] == '[' {
        if c.machine.value() == 0 {
            let close = choose|at: int| first_close(prog, pc, at);
            assert(first_close(prog, pc, close));
        } else {
            assert(next.stack == c.stack.push(c.pc));
        }
    } else if prog[pc] == ']' {
        let top = c.stack.last();
        assert(top == c.stack[c.stack.len() - 1]);
        if c.machine.value() == 0 {
            assert(next.stack == c.stack.drop_last());
        }
    }
}

/// A run that starts at the first instruction with no loop open keeps its
/// stack ordered: whenever a `]` is reached, the entry on top of the stack
/// is the position of a `[` before it.
pub proof fn lemma_ordered_run(prog: Seq<char>, machine: MachineView, n: nat)
    ensures
        ordered(prog, run(prog, Config { machine, pc: 0, stack: Seq::empty() }, n)),
{
    lemma_ordered_from(prog, Config { machine, pc: 0, stack: Seq::empty() }, n);
}

proof fn lemma_ordered_from(prog: Seq<char>, c: Config, n: nat)
    requires
        ordered(prog, c),
    ensures
        ordered(prog, run(prog, c, n)),
    decreases n,
{
    if n == 0 || halted(prog, c) {
    } else {
        lemma_ordered_advance(prog, c);
        lemma_ordered_from(prog, advance(prog, c), (n - 1) as nat);
    }
}

/// In a balanced program, with a stack that tracks the brackets, no
/// instruction is stuck.
pub proof fn lemma_tracks_not_stuck(prog: Seq<char>, c: Config)
    requires
        balanced(prog),
        tracks(prog, c),
    ensures
        !stuck(prog, c),
{
    if c.pc < prog.len() {
        let pc = c.pc as int;
        if prog[pc] == '[' {
            lemma_balanced_open_closes(prog, pc);
        } else if prog[pc] == ']' {
            assert(nesting(prog, 0, pc + 1) == nesting(prog, 0, pc) - 1);
            assert(nesting(prog, 0, pc + 1) >= 0);
        }
    }
}

/// In a balanced program, one instruction keeps the stack tracking the
/// brackets.
pub proof fn lemma_tracks_advance(prog: Seq<char>, c: Config)
    requires
        balanced(prog),
        tracks(prog, c),
        c.pc < prog.len(),
    ensures
        tracks(prog, advance(prog, c)),
{
    lemma_tracks_not_stuck(prog, c);
    lemma_ordered_advance(prog, c);
    let pc = c.pc as int;
    let next = advance(prog, c);
    assert(nesting(prog, 0, pc + 1) == nesting(prog, 0, pc) + weight(prog[pc]));
    if prog[pc] == '[' {
        if c.machine.value() == 0 {
            lemma_balanced_open_closes(prog, pc);
            let close = matching_close(prog, pc)->0;
            assert(first_close(prog, pc, close));
            lemma_nesting_split(prog, 0, pc, close + 1);
        } else {
            assert(next.stack == c.stack.push(c.pc));
        }
    } else if prog[pc] == ']' {
        let top = c.stack.last();
        assert(top == c.stack[c.stack.len() - 1]);
        if c.machine.value() != 0 {
            assert(nesting(prog, 0, top as int + 1) == nesting(prog, 0, top as int) + 1);
        } else {
            assert(next.stack == c.stack.drop_last());
        }
    }
}

/// In a balanced program, a run keeps the stack tracking the brackets, and
/// is over only at the end of the program.
pub proof fn lemma_tracks_run(prog: Seq<char>, c: Config, n: nat)
    requires
        balanced(prog),
        tracks(prog, c),
    ensures
        tracks(prog, run(prog, c, n)),
        halted(prog, run(prog, c, n)) ==> run(prog, c, n).pc == prog.len(),
    decreases n,
{
    lemma_tracks_not_stuck(prog, c);
    if n == 0 || halted(prog, c) {
    } else {
        lemma_tracks_advance(prog, c);
        lemma_tracks_run(prog, advance(prog, c), (n - 1) as nat);
    }
}

/// A balanced program never meets a mismatched bracket: run from its first
/// instruction with no loop open, a run that halts reaches the end of the
/// program with no loop open.
pub proof fn lemma_balanced_finishes(prog: Seq<char>, machine: MachineView)
    requires
        balanced(prog),
        halts(prog, Config { machine, pc: 0, stack: Seq::empty() }),
    ensures
        outcome(prog, end_config(prog, Config { machine, pc: 0, stack: Seq::empty() }))
            == Outcome::Finished,
        end_config(prog, Config { machine, pc: 0, stack: Seq::empty() }).stack
            == Seq::<nat>::empty(),
{
    let start = Config { machine, pc: 0, stack: Seq::empty() };
    let n = choose|n: nat| halts_within(prog, start, n);
    lemma_end_config(prog, start, n);
    lemma_tracks_run(prog, start, n);
    let end = end_config(prog, start);
    assert(end.stack.len() == 0);
    assert(end.stack =~= Seq::<nat>::empty());
}

} // verus!
