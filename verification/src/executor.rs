//! The executor: the program, the stack of open loops, and the interpreter.

use vstd::prelude::*;
use vstd::std_specs::iter::IteratorSpec;
use crate::brackets::{
    balanced, find_close_bracket, is_func, is_opcode, lemma_opcodes_concat, lemma_opcodes_inert,
    opcodes,
};
use crate::machine::{Machine, MachineView};
use crate::message::{format_mismatch_at, format_mismatch_open, report, result_view};
use crate::semantics::{
    advance, end_config, halted, halts, halts_within, lemma_balanced_finishes,
    lemma_end_config_advance, lemma_end_config_halted, lemma_tracks_not_stuck, lemma_tracks_run,
    outcome, positions, run, stuck, tracks, Config, Outcome,
};

verus! {

/// The mathematical state of an executor.
pub struct ExecutorView {
    /// The instruction stream: every opcode appended so far, in order.
    pub program: Seq<char>,
    /// The positions of the loops that are open, outermost first.
    pub stack: Seq<nat>,
    /// The tape machine.
    pub machine: MachineView,
}

impl ExecutorView {
    /// The configuration in which a run starts: at the first instruction,
    /// with the machine and the stack as they are.
    pub open spec fn entry(self) -> Config {
        self.at(0)
    }

    /// The configuration with the machine and the stack as they are and the
    /// instruction at `pc` next.
    pub open spec fn at(self, pc: nat) -> Config {
        Config { machine: self.machine, pc, stack: self.stack }
    }

    /// The state after `text` is appended: its opcodes, in their order, are
    /// added to the end of the program.
    pub open spec fn appended(self, text: Seq<char>) -> ExecutorView {
        ExecutorView { program: self.program + opcodes(text), ..self }
    }

    /// The state that a run leaves behind when it ends in `end`: the program
    /// is the same, the machine and the stack are those of `end`.
    pub open spec fn left_by(self, end: Config) -> ExecutorView {
        ExecutorView { program: self.program, stack: end.stack, machine: end.machine }
    }
}

/// Every entry of the stack is the position of a `[` of the program.
pub open spec fn stack_valid(program: Seq<char>, stack: Seq<nat>) -> bool {
    forall|k: int| 0 <= k < stack.len() ==> stack[k] < program.len() && program[stack[k] as int] == '['
}

/// Every character of the program is an opcode.
pub open spec fn all_opcodes(program: Seq<char>) -> bool {
    forall|i: int| 0 <= i < program.len() ==> is_opcode(program[i])
}

/// Appending one text and then another is appending the two as one text.
pub proof fn lemma_appended_twice(v: ExecutorView, first: Seq<char>, second: Seq<char>)
    ensures
        v.appended(first).appended(second) == v.appended(first + second),
{
    lemma_opcodes_concat(first, second);
    assert((v.program + opcodes(first)) + opcodes(second) =~= v.program + (opcodes(first)
        + opcodes(second)));
}

/// A text without opcodes is an empty program: appended to an executor that
/// has no program and no loop open, it changes nothing, and the run is over
/// before its first step, with the code 0 and the machine untouched.
pub proof fn lemma_inert_text_runs_to_nothing(v: ExecutorView, text: Seq<char>)
    requires
        v.program.len() == 0,
        v.stack.len() == 0,
        forall|i: int| 0 <= i < text.len() ==> !is_opcode(text[i]),
    ensures
        v.appended(text) == v,
        halts(v.program, v.entry()),
        end_config(v.program, v.entry()) == v.entry(),
        report(outcome(v.program, v.entry())) == Ok::<u8, Seq<char>>(0u8),
{
    lemma_opcodes_inert(text);
    assert(v.program + opcodes(text) =~= v.program);
    lemma_end_config_halted(v.program, v.entry());
}

/// Holds a program and runs it on a tape machine.
pub struct Executor {
    pairs: Vec<usize>,
    src: Vec<char>,
    machine: Machine,
}

impl View for Executor {
    type V = ExecutorView;

    closed spec fn view(&self) -> ExecutorView {
        ExecutorView { program: self.src@, stack: positions(self.pairs@), machine: self.machine@ }
    }
}

impl Executor {
    /// The representation is sound: the machine is, the program holds
    /// nothing but opcodes, and every entry of the stack is the position of a
    /// `[` of the program.
    pub closed spec fn wf(&self) -> bool {
        &&& self.machine.wf()
        &&& all_opcodes(self.src@)
        &&& stack_valid(self.src@, positions(self.pairs@))
    }

    /// An executor with no program, no loop open and a new machine without
    /// input.
    pub fn new() -> (e: Executor)
        ensures
            e.wf(),
            e@ == (ExecutorView {
                program: Seq::empty(),
                stack: Seq::empty(),
                machine: MachineView::fresh(Seq::empty()),
            }),
    {
        Executor::with_machine(Machine::new())
    }

    /// An executor with no program and no loop open that runs on `machine`.
    pub fn with_machine(machine: Machine) -> (e: Executor)
        requires
            machine.wf(),
        ensures
            e.wf(),
            e@ == (ExecutorView { program: Seq::empty(), stack: Seq::empty(), machine: machine@ }),
    {
        let e = Executor { pairs: Vec::new(), src: Vec::new(), machine };
        assert(e@.stack =~= Seq::empty());
        e
    }

    /// Appends the opcodes of `src` to the program, in their order; every
    /// other character is dropped.
    pub fn append_src(&mut self, src: String)
        requires
            old(self).wf(),
        ensures
            final(self).wf(),
            final(self)@ == old(self)@.appended(src@),
    {
        let text = src.as_str();
        let mut it = text.chars();
        let ghost mut seen: Seq<char> = Seq::empty();
        assert(opcodes(seen) =~= Seq::empty()) by {
            reveal(Seq::filter);
        }
        loop
            invariant
                it.obeys_prophetic_iter_laws(),
                seen + it.remaining() == text@,
                self.src@ == old(self).src@ + opcodes(seen),
                all_opcodes(self.src@),
                self.pairs == old(self).pairs,
                self.machine == old(self).machine,
            ensures
                seen == text@,
            decreases text@.len() - seen.len(),
        {
            let ghost before = it.remaining();
            match it.next() {
                Some(c) => {
                    if is_func(&c) {
                        self.src.push(c);
                    }
                    proof {
                        Seq::lemma_filter_push(seen, c, |c: char| is_opcode(c));
                        assert(seen.push(c) + it.remaining() =~= seen + before);
                        seen = seen.push(c);
                    }
                },
                None => {
                    assert(seen =~= text@);
                    break ;
                },
            }
        }
    }

    /// The tape machine, to read its cells and its output.
    pub fn machine(&self) -> (m: &Machine)
        requires
            self.wf(),
        ensures
            m.wf(),
            m@ == self@.machine,
    {
        &self.machine
    }

    /// What the representation keeps true of the program and of the stack.
    pub proof fn lemma_wf(&self)
        requires
            self.wf(),
        ensures
            all_opcodes(self@.program),
            stack_valid(self@.program, self@.stack),
    {
    }

    /// Whether the instruction at `i` is a bracket that cannot be carried
    /// out.
    fn blocked(&self, i: usize) -> (b: bool)
        requires
            self.wf(),
            i < self@.program.len(),
        ensures
            b == stuck(self@.program, self@.at(i as nat)),
    {
        let op = self.src[i];
        if op == '[' {
            self.machine.get_value() == 0 && find_close_bracket(i, &self.src).is_none()
        } else if op == ']' {
            self.pairs.len() == 0
        } else {
            false
        }
    }

    /// Carries out the instruction at `i` and gives the position of the one
    /// that comes next, or nothing where the instruction is stuck.
    fn dispatch(&mut self, i: usize) -> (next: Option<usize>)
        requires
            old(self).wf(),
            i < old(self)@.program.len(),
        ensures
            final(self).wf(),
            final(self)@.program == old(self)@.program,
            match next {
                Some(j) => {
                    &&& !stuck(old(self)@.program, old(self)@.at(i as nat))
                    &&& final(self)@.at(j as nat) == advance(old(self)@.program, old(self)@.at(i as nat))
                    &&& j <= old(self)@.program.len()
                },
                None => {
                    &&& stuck(old(self)@.program, old(self)@.at(i as nat))
                    &&& final(self)@ == old(self)@
                },
            },
    {
        let len = self.src.len();
        let op = self.src[i];
        if op == '+' {
            self.machine.inc();
        } else if op == '-' {
            self.machine.dec();
        } else if op == '>' {
            self.machine.next();
        } else if op == '<' {
            self.machine.prev();
        } else if op == ',' {
            self.machine.get();
        } else if op == '.' {
            self.machine.put();
        } else if op == '[' {
            if self.machine.get_value() == 0 {
                match find_close_bracket(i, &self.src) {
                    Some(close_pos) => {
                        return Some(close_pos + 1);
                    },
                    None => {
                        return None;
                    },
                }
            } else {
                self.pairs.push(i);
                assert(positions(self.pairs@) =~= positions(old(self).pairs@).push(i as nat));
            }
        } else if op == ']' {
            match self.pairs.pop() {
                Some(start) => {
                    assert(positions(self.pairs@) =~= positions(old(self).pairs@).drop_last());
                    assert(start as nat == positions(old(self).pairs@).last());
                    assert(start < len);
                    if self.machine.get_value() != 0 {
                        self.pairs.push(start);
                        assert(self.pairs@ =~= old(self).pairs@);
                        return Some(start + 1);
                    }
                },
                None => {
                    assert(self.pairs@ =~= old(self).pairs@);
                    return None;
                },
            }
        }
        Some(i + 1)
    }

    /// What a run reports once it is over at position `i`.
    fn conclude(&self, i: usize) -> (result: Result<u8, String>)
        requires
            self.wf(),
            halted(self@.program, self@.at(i as nat)),
        ensures
            result_view(result) == report(outcome(self@.program, self@.at(i as nat))),
    {
        if i < self.src.len() {
            Err(format_mismatch_at(i))
        } else if self.pairs.len() == 0 {
            Ok(0)
        } else {
            Err(format_mismatch_open(&self.pairs))
        }
    }

    /// Runs the program from its first instruction until the run is over.
    ///
    /// The result is the code 0 where the end of the program is reached with
    /// no loop open. It is the message for a mismatched bracket where a `[`
    /// on a zero cell has no matching `]`, where a `]` finds no loop open, or
    /// where loops are still open at the end of the program. The machine and
    /// the stack are left as the run ended.
    ///
    /// A run that never ends cannot be told apart from one that has not ended
    /// yet, so the caller has to know that this one halts: on a program that
    /// loops forever the call does not return.
    pub fn execute(&mut self) -> (result: Result<u8, String>)
        requires
            old(self).wf(),
            halts(old(self)@.program, old(self)@.entry()),
        ensures
            final(self).wf(),
            final(self)@ == old(self)@.left_by(end_config(old(self)@.program, old(self)@.entry())),
            result_view(result) == report(
                outcome(old(self)@.program, end_config(old(self)@.program, old(self)@.entry())),
            ),
            balanced(old(self)@.program) && old(self)@.stack.len() == 0 ==> result == Ok::<
                u8,
                String,
            >(0u8),
    {
        let ghost prog = self@.program;
        let ghost start = self@.entry();
        proof {
            if balanced(prog) && self@.stack.len() == 0 {
                assert(self@.stack =~= Seq::<nat>::empty());
                lemma_balanced_finishes(prog, self@.machine);
            }
        }
        let ghost mut fuel: nat = choose|n: nat| halts_within(prog, start, n);
        let mut i: usize = 0;
        while i < self.src.len()
            invariant
                self.wf(),
                self@.program == prog,
                prog == old(self)@.program,
                start == old(self)@.entry(),
                i <= prog.len(),
                balanced(prog) && old(self)@.stack.len() == 0 ==> outcome(
                    prog,
                    end_config(prog, start),
                ) == Outcome::Finished,
                halts_within(prog, self@.at(i as nat), fuel),
                end_config(prog, self@.at(i as nat)) == end_config(prog, start),
            decreases fuel,
        {
            let ghost cur = self@.at(i as nat);
            match self.dispatch(i) {
                Some(j) => {
                    proof {
                        lemma_end_config_advance(prog, cur, fuel);
                        fuel = (fuel - 1) as nat;
                    }
                    i = j;
                },
                None => {
                    proof {
                        lemma_end_config_halted(prog, cur);
                    }
                    return self.conclude(i);
                },
            }
        }
        proof {
            lemma_end_config_halted(prog, self@.at(i as nat));
        }
        self.conclude(i)
    }

    /// Runs the program from its first instruction for at most `max_steps`
    /// instructions.
    ///
    /// Where the run is over by then, the result is what `execute` reports.
    /// Where it is not, there is no result, and the machine and the stack are
    /// left as they are after `max_steps` instructions.
    pub fn execute_bounded(&mut self, max_steps: usize) -> (result: Option<Result<u8, String>>)
        requires
            old(self).wf(),
        ensures
            final(self).wf(),
            final(self)@ == old(self)@.left_by(
                run(old(self)@.program, old(self)@.entry(), max_steps as nat),
            ),
            match result {
                Some(r) => {
                    &&& halts_within(old(self)@.program, old(self)@.entry(), max_steps as nat)
                    &&& result_view(r) == report(
                        outcome(
                            old(self)@.program,
                            run(old(self)@.program, old(self)@.entry(), max_steps as nat),
                        ),
                    )
                },
                None => !halts_within(old(self)@.program, old(self)@.entry(), max_steps as nat),
            },
            balanced(old(self)@.program) && old(self)@.stack.len() == 0 ==> result is None
                || result == Some(Ok::<u8, String>(0u8)),
    {
        let ghost prog = self@.program;
        let ghost start = self@.entry();
        proof {
            if balanced(prog) && self@.stack.len() == 0 {
                lemma_tracks_run(prog, start, max_steps as nat);
            }
        }
        let mut i: usize = 0;
        let mut left: usize = max_steps;
        while left > 0 && i < self.src.len()
            invariant
                self.wf(),
                self@.program == prog,
                prog == old(self)@.program,
                start == old(self)@.entry(),
                i <= prog.len(),
                left <= max_steps,
                balanced(prog) && old(self)@.stack.len() == 0 ==> tracks(
                    prog,
                    run(prog, start, max_steps as nat),
                ),
                run(prog, self@.at(i as nat), left as nat) == run(prog, start, max_steps as nat),
            decreases left,
        {
            match self.dispatch(i) {
                Some(j) => {
                    i = j;
                    left = left - 1;
                },
                None => {
                    proof {
                        if balanced(prog) && old(self)@.stack.len() == 0 {
                            lemma_tracks_not_stuck(prog, self@.at(i as nat));
                        }
                    }
                    return Some(self.conclude(i));
                },
            }
        }
        if i >= self.src.len() || self.blocked(i) {
            Some(self.conclude(i))
        } else {
            None
        }
    }
}

} // verus!
