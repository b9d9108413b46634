//! The tape machine: memory, pointer, and the byte-in and byte-out primitives.

use vstd::prelude::*;

verus! {

/// The mathematical state of a tape machine.
pub struct MachineView {
    /// The value of every cell. The map is total: a cell that was never
    /// written holds zero.
    pub tape: Map<nat, u8>,
    /// The address of the current cell.
    pub pointer: nat,
    /// The input bytes that have not been read yet, next one first.
    pub input: Seq<u8>,
    /// The bytes written so far, oldest first.
    pub output: Seq<u8>,
}

impl MachineView {
    /// The machine before anything has happened: a blank tape, the pointer at
    /// address zero, the given input and no output.
    pub open spec fn fresh(input: Seq<u8>) -> MachineView {
        MachineView {
            tape: Map::total(|a: nat| 0u8),
            pointer: 0,
            input,
            output: Seq::empty(),
        }
    }

    /// The value of the current cell.
    pub open spec fn value(self) -> u8 {
        self.tape[self.pointer]
    }

    /// The same machine with `v` in the current cell.
    pub open spec fn store(self, v: u8) -> MachineView {
        MachineView { tape: self.tape.insert(self.pointer, v), ..self }
    }

    /// `+`: the current cell goes up by one, from 255 to 0.
    pub open spec fn inc(self) -> MachineView {
        self.store(((self.value() + 1) % 256) as u8)
    }

    /// `-`: the current cell goes down by one, from 0 to 255.
    pub open spec fn dec(self) -> MachineView {
        self.store(((self.value() + 255) % 256) as u8)
    }

    /// `>`: the pointer moves one cell up.
    pub open spec fn next(self) -> MachineView {
        MachineView { pointer: self.pointer + 1, ..self }
    }

    /// `<`: the pointer moves one cell down, and stays at address zero.
    pub open spec fn prev(self) -> MachineView {
        MachineView { pointer: if self.pointer == 0 { 0 } else { (self.pointer - 1) as nat }, ..self }
    }

    /// `,`: the next input byte goes into the current cell. At the end of the
    /// input nothing changes.
    pub open spec fn get(self) -> MachineView {
        if self.input.len() == 0 {
            self
        } else {
            MachineView { input: self.input.drop_first(), ..self.store(self.input[0]) }
        }
    }

    /// `.`: the current cell is written to the output.
    pub open spec fn put(self) -> MachineView {
        MachineView { output: self.output.push(self.value()), ..self }
    }
}

/// A tape machine.
///
/// The tape is kept as the cells from address zero up to the highest one the
/// pointer has reached; every cell beyond is zero.
pub struct Machine {
    cells: Vec<u8>,
    pointer: usize,
    input: Vec<u8>,
    consumed: usize,
    output: Vec<u8>,
}

impl View for Machine {
    type V = MachineView;

    closed spec fn view(&self) -> MachineView {
        MachineView {
            tape: Map::total(
                |a: nat| if a < self.cells@.len() { self.cells@[a as int] } else { 0u8 },
            ),
            pointer: self.pointer as nat,
            input: self.input@.subrange(self.consumed as int, self.input@.len() as int),
            output: self.output@,
        }
    }
}

impl Machine {
    /// The representation is sound: the current cell is one of the cells
    /// kept, and no more input was read than there is.
    pub closed spec fn wf(&self) -> bool {
        &&& self.pointer < self.cells@.len()
        &&& self.consumed <= self.input@.len()
    }

    /// A machine with a blank tape and no input.
    pub fn new() -> (m: Machine)
        ensures
            m.wf(),
            m@ == MachineView::fresh(Seq::empty()),
    {
        Machine::with_input(Vec::new())
    }

    /// A machine with a blank tape that will read `input`, first byte first.
    pub fn with_input(input: Vec<u8>) -> (m: Machine)
        ensures
            m.wf(),
            m@ == MachineView::fresh(input@),
    {
        let mut cells: Vec<u8> = Vec::new();
        cells.push(0);
        let m = Machine { cells, pointer: 0, input, consumed: 0, output: Vec::new() };
        assert(m@.tape =~= MachineView::fresh(input@).tape);
        assert(m@.input =~= input@);
        m
    }

    /// Adds one to the current cell, wrapping from 255 to 0.
    pub fn inc(&mut self)
        requires
            old(self).wf(),
        ensures
            final(self).wf(),
            final(self)@ == old(self)@.inc(),
    {
        let v = self.cells[self.pointer];
        let w: u8 = if v == 255 { 0 } else { v + 1 };
        self.cells.set(self.pointer, w);
        assert(self@.tape =~= old(self)@.inc().tape);
    }

    /// Takes one from the current cell, wrapping from 0 to 255.
    pub fn dec(&mut self)
        requires
            old(self).wf(),
        ensures
            final(self).wf(),
            final(self)@ == old(self)@.dec(),
    {
        let v = self.cells[self.pointer];
        let w: u8 = if v == 0 { 255 } else { v - 1 };
        self.cells.set(self.pointer, w);
        assert(self@.tape =~= old(self)@.dec().tape);
    }

    /// Moves the pointer one cell up.
    pub fn next(&mut self)
        requires
            old(self).wf(),
        ensures
            final(self).wf(),
            final(self)@ == old(self)@.next(),
    {
        if self.pointer == self.cells.len() - 1 {
            self.cells.push(0);
        }
        self.pointer = self.pointer + 1;
        assert(self@.tape =~= old(self)@.tape);
    }

    /// Moves the pointer one cell down; at address zero it stays.
    pub fn prev(&mut self)
        requires
            old(self).wf(),
        ensures
            final(self).wf(),
            final(self)@ == old(self)@.prev(),
    {
        if self.pointer > 0 {
            self.pointer = self.pointer - 1;
        }
    }

    /// Reads the next input byte into the current cell. At the end of the
    /// input the cell keeps its value.
    pub fn get(&mut self)
        requires
            old(self).wf(),
        ensures
            final(self).wf(),
            final(self)@ == old(self)@.get(),
    {
        if self.consumed < self.input.len() {
            let b = self.input[self.consumed];
            self.cells.set(self.pointer, b);
            self.consumed = self.consumed + 1;
            assert(self@.tape =~= old(self)@.get().tape);
            assert(self@.input =~= old(self)@.get().input);
        }
    }

    /// Writes the current cell to the output.
    pub fn put(&mut self)
        requires
            old(self).wf(),
        ensures
            final(self).wf(),
            final(self)@ == old(self)@.put(),
    {
        let v = self.cells[self.pointer];
        self.output.push(v);
    }

    /// The address of the current cell.
    pub fn pointer(&self) -> (p: usize)
        ensures
            p == self@.pointer,
    {
        self.pointer
    }

    /// The value of the cell at `addr`.
    pub fn cell(&self, addr: usize) -> (v: u8)
        ensures
            v == self@.tape[addr as nat],
    {
        if addr < self.cells.len() {
            self.cells[addr]
        } else {
            0
        }
    }

    /// The bytes written so far, oldest first.
    pub fn output(&self) -> (out: &Vec<u8>)
        ensures
            out@ == self@.output,
    {
        &self.output
    }

    /// The value of the current cell.
    pub fn get_value(&self) -> (v: u8)
        requires
            self.wf(),
        ensures
            v == self@.value(),
    {
        self.cells[self.pointer]
    }
}

} // verus!
