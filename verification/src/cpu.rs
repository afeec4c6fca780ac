//! A tiny CPU with sixteen 8-bit registers, 4096 bytes of memory and a call
//! stack of sixteen return addresses. Its instructions are two bytes long,
//! the first byte the more significant one. It knows four of them:
//!
//! | opcode | what it does                                                  |
//! |--------|---------------------------------------------------------------|
//! | `0000` | halts                                                         |
//! | `00EE` | returns to the address on top of the stack                    |
//! | `2nnn` | calls the subroutine at `nnn`                                 |
//! | `8xy4` | adds register `y` to register `x`; register `F` gets the carry|
//!
//! Every program comes to an end: it halts, or it runs into a fault.

use vstd::prelude::*;

verus! {

/// Number of bytes of memory.
pub const MEMORY_SIZE: usize = 4096;

/// Number of return addresses that the stack can hold.
pub const STACK_DEPTH: usize = 16;

/// Why a program could not go on.
#[derive(Debug, Clone, Copy, PartialEq, Eq, Structural)]
pub enum Fault {
    /// The next instruction does not lie within the memory.
    MemoryOverrun,
    /// A call with a full stack, or a return with a stack pointer behind the
    /// stack.
    StackOverflow,
    /// A return with an empty stack.
    StackUnderflow,
    /// An opcode that the CPU does not know.
    UnknownOpcode(u16),
}

/// The CPU.
#[derive(Debug)]
pub struct CPU {
    pub program_counter: usize,
    pub registers: [u8; 16],
    pub memory: [u8; 4096],
    pub stack: [u16; 16],
    pub stack_pointer: usize,
}

/// The state of the CPU, mathematically.
pub struct Machine {
    pub program_counter: int,
    pub registers: Seq<u8>,
    pub memory: Seq<u8>,
    pub stack: Seq<u16>,
    pub stack_pointer: int,
}

impl View for CPU {
    type V = Machine;

    open spec fn view(&self) -> Machine {
        Machine {
            program_counter: self.program_counter as int,
            registers: self.registers@,
            memory: self.memory@,
            stack: self.stack@,
            stack_pointer: self.stack_pointer as int,
        }
    }
}

/// One more than the largest return address: what stands in the rank for a
/// place of the stack that is not in use.
pub const RANK_TOP: u32 = 65536;

impl Machine {
    /// The opcode at the program counter.
    pub open spec fn opcode(self) -> int {
        self.memory[self.program_counter] * 256 + self.memory[self.program_counter + 1]
    }

    /// The machine with the program counter behind the instruction that it
    /// was at.
    pub open spec fn advanced(self) -> Machine {
        Machine { program_counter: self.program_counter + 2, ..self }
    }

    /// The machine after register `y` was added to register `x`: register
    /// `x` has the sum modulo 256, and after that register `F` is set to 1
    /// if the sum did not fit, to 0 if it did.
    pub open spec fn added(self, x: int, y: int) -> Machine {
        let sum = self.registers[x] + self.registers[y];
        let carry = if sum > 255 {
            1u8
        } else {
            0u8
        };
        Machine { registers: self.registers.update(x, (sum % 256) as u8).update(15, carry), ..self }
    }

    /// The machine after a call of `nnn`: the program counter is on the
    /// stack, cut to 16 bits, and the machine is at `nnn`.
    pub open spec fn called(self, nnn: int) -> Machine {
        Machine {
            program_counter: nnn,
            stack: self.stack.update(self.stack_pointer, self.program_counter as u16),
            stack_pointer: self.stack_pointer + 1,
            ..self
        }
    }

    /// The machine after a return: it is at the address that was on top of
    /// the stack.
    pub open spec fn returned(self) -> Machine {
        Machine {
            program_counter: self.stack[self.stack_pointer - 1] as int,
            stack_pointer: self.stack_pointer - 1,
            ..self
        }
    }

    /// Whether this is a state that a CPU can be in: the registers, the
    /// memory and the stack have their sizes, and neither the program
    /// counter nor the stack pointer is negative.
    pub open spec fn well_formed(self) -> bool {
        &&& self.registers.len() == 16
        &&& self.memory.len() == MEMORY_SIZE
        &&& self.stack.len() == STACK_DEPTH
        &&& 0 <= self.program_counter
        &&& 0 <= self.stack_pointer
    }

    /// The digit at place `i` of the rank, of the places 0 to 16. The return
    /// addresses on the stack are followed by the program counter, each
    /// counted down from `RANK_TOP`; the places behind are 0.
    pub open spec fn digit(self, i: int) -> int {
        if 0 <= i < self.stack_pointer && i < 16 {
            RANK_TOP - self.stack[i]
        } else if (i == self.stack_pointer && i < 16) || (i == 16 && self.stack_pointer >= 16) {
            RANK_TOP - self.program_counter
        } else {
            0
        }
    }

    /// The number whose digits to the base `RANK_TOP + 1` are the first `n`
    /// digits of the rank, the first the most significant.
    pub open spec fn rank_of(self, n: nat) -> int
        decreases n,
    {
        if n == 0 {
            0
        } else {
            self.rank_of((n - 1) as nat) * (RANK_TOP + 1) + self.digit(n - 1)
        }
    }

    /// A number that every instruction but a halt makes smaller, and that
    /// never is negative: the reason why every program comes to an end.
    pub open spec fn rank(self) -> int {
        self.rank_of(17)
    }

    /// Where the machine stops when it runs from this state, and how: `Ok`
    /// after a halt, the fault otherwise. A fault leaves the machine as the
    /// faulty instruction found it, with the program counter behind that
    /// instruction unless the instruction itself lay outside the memory.
    pub open spec fn ran(self) -> (Machine, Result<(), Fault>)
        decreases self.rank(),
        when self.well_formed()
        via Self::ran_decreases
    {
        if self.program_counter + 1 >= MEMORY_SIZE {
            (self, Err(Fault::MemoryOverrun))
        } else {
            let opcode = self.opcode();
            let next = self.advanced();
            if opcode == 0 {
                (next, Ok(()))
            } else if opcode == 0x00EE {
                if next.stack_pointer == 0 {
                    (next, Err(Fault::StackUnderflow))
                } else if next.stack_pointer > STACK_DEPTH {
                    (next, Err(Fault::StackOverflow))
                } else {
                    next.returned().ran()
                }
            } else if opcode / 4096 == 2 {
                if next.stack_pointer >= STACK_DEPTH {
                    (next, Err(Fault::StackOverflow))
                } else {
                    next.called(opcode % 4096).ran()
                }
            } else if opcode / 4096 == 8 && opcode % 16 == 4 {
                next.added((opcode / 256) % 16, (opcode / 16) % 16).ran()
            } else {
                (next, Err(Fault::UnknownOpcode(opcode as u16)))
            }
        }
    }

    #[via_fn]
    proof fn ran_decreases(self) {
        if self.program_counter + 1 < MEMORY_SIZE {
            let opcode = self.opcode();
            let next = self.advanced();
            if opcode == 0 {
            } else if opcode == 0x00EE {
                if 0 < next.stack_pointer <= STACK_DEPTH {
                    lemma_return_lowers_rank(self);
                }
            } else if opcode / 4096 == 2 {
                if next.stack_pointer < STACK_DEPTH {
                    lemma_call_lowers_rank(self, opcode % 4096);
                }
            } else if opcode / 4096 == 8 && opcode % 16 == 4 {
                lemma_add_lowers_rank(self, (opcode / 256) % 16, (opcode / 16) % 16);
            }
        }
    }
}

/// Two machines whose first `n` digits agree have the same rank up to there.
proof fn lemma_equal_digits(a: Machine, b: Machine, n: nat)
    requires
        forall|j: int| 0 <= j < n ==> a.digit(j) == b.digit(j),
    ensures
        a.rank_of(n) == b.rank_of(n),
    decreases n,
{
    if n > 0 {
        lemma_equal_digits(a, b, (n - 1) as nat);
    }
}

/// The rank is not negative where no digit is.
proof fn lemma_rank_not_negative(a: Machine, n: nat)
    requires
        forall|j: int| 0 <= j < n ==> 0 <= a.digit(j),
    ensures
        0 <= a.rank_of(n),
    decreases n,
{
    if n > 0 {
        lemma_rank_not_negative(a, (n - 1) as nat);
    }
}

/// Of two machines whose digits agree in front of place `k`, the one with
/// the smaller digit at `k` has the smaller rank, whatever digits within the
/// base follow.
proof fn lemma_smaller_digit(a: Machine, b: Machine, k: int, n: nat)
    requires
        0 <= k < n,
        forall|j: int| 0 <= j < k ==> a.digit(j) == b.digit(j),
        b.digit(k) < a.digit(k),
        forall|j: int| k < j < n ==> 0 <= a.digit(j) && b.digit(j) <= RANK_TOP,
    ensures
        b.rank_of(n) < a.rank_of(n),
    decreases n,
{
    if n == k + 1 {
        lemma_equal_digits(a, b, k as nat);
    } else {
        lemma_smaller_digit(a, b, k, (n - 1) as nat);
    }
}

/// The place of the program counter in the rank.
spec fn counter_place(machine: Machine) -> int {
    if machine.stack_pointer < 16 {
        machine.stack_pointer
    } else {
        16
    }
}

/// A machine that is before an instruction within the memory has no digit
/// outside the base.
proof fn lemma_digits_before(machine: Machine)
    requires
        machine.well_formed(),
        machine.program_counter + 1 < MEMORY_SIZE,
    ensures
        forall|j: int| 0 <= j <= 16 ==> 0 <= #[trigger] machine.digit(j) <= RANK_TOP,
{
}

/// A step whose digits agree in front of the place of the program counter
/// and that is smaller there lowers the rank.
proof fn lemma_step_lowers_rank(before: Machine, after: Machine)
    requires
        before.well_formed(),
        before.program_counter + 1 < MEMORY_SIZE,
        forall|j: int| 0 <= j < counter_place(before) ==> before.digit(j) == after.digit(j),
        after.digit(counter_place(before)) < before.digit(counter_place(before)),
        forall|j: int| 0 <= j <= 16 ==> 0 <= #[trigger] after.digit(j) <= RANK_TOP,
    ensures
        0 <= after.rank() < before.rank(),
{
    lemma_digits_before(before);
    lemma_smaller_digit(before, after, counter_place(before), 17);
    lemma_rank_not_negative(after, 17);
}

/// An addition lowers the rank.
proof fn lemma_add_lowers_rank(machine: Machine, x: int, y: int)
    requires
        machine.well_formed(),
        machine.program_counter + 1 < MEMORY_SIZE,
        0 <= x < 16,
    ensures
        machine.advanced().added(x, y).well_formed(),
        0 <= machine.advanced().added(x, y).rank() < machine.rank(),
{
    lemma_step_lowers_rank(machine, machine.advanced().added(x, y));
}

/// A call lowers the rank.
proof fn lemma_call_lowers_rank(machine: Machine, nnn: int)
    requires
        machine.well_formed(),
        machine.program_counter + 1 < MEMORY_SIZE,
        machine.stack_pointer < STACK_DEPTH,
        0 <= nnn < MEMORY_SIZE,
    ensures
        machine.advanced().called(nnn).well_formed(),
        0 <= machine.advanced().called(nnn).rank() < machine.rank(),
{
    let after = machine.advanced().called(nnn);
    assert(after.stack[machine.stack_pointer] == machine.program_counter + 2);
    lemma_step_lowers_rank(machine, after);
}

/// A return lowers the rank.
proof fn lemma_return_lowers_rank(machine: Machine)
    requires
        machine.well_formed(),
        machine.program_counter + 1 < MEMORY_SIZE,
        0 < machine.stack_pointer <= STACK_DEPTH,
    ensures
        machine.advanced().returned().well_formed(),
        0 <= machine.advanced().returned().rank() < machine.rank(),
{
    lemma_step_lowers_rank(machine, machine.advanced().returned());
}

impl CPU {
    /// Reads the opcode at the program counter: two bytes, the first the
    /// more significant one.
    pub fn read_opcode(&self) -> (opcode: u16)
        requires
            self.program_counter + 1 < MEMORY_SIZE,
        ensures
            opcode == self@.opcode(),
    {
        let high = self.memory[self.program_counter] as u16;
        let low = self.memory[self.program_counter + 1] as u16;
        assert((high << 8 | low) == high * 256 + low) by (bit_vector)
            requires
                high < 256,
                low < 256,
        ;
        high << 8 | low
    }

    /// Adds register `y` to register `x`. Register `x` gets the sum modulo
    /// 256; register `F` then gets 1 if the sum did not fit and 0 if it did.
    pub fn add_xy(&mut self, x: u8, y: u8)
        requires
            x < 16,
            y < 16,
        ensures
            final(self)@ == old(self)@.added(x as int, y as int),
    {
        let arg1 = self.registers[x as usize];
        let arg2 = self.registers[y as usize];

        let sum: u16 = arg1 as u16 + arg2 as u16;
        let overflow = sum > 255;
        let val = (sum % 256) as u8;
        self.registers[x as usize] = val;

        if overflow {
            self.registers[0xf] = 1;
        } else {
            self.registers[0xf] = 0;
        }
    }

    /// Calls the subroutine at `nnn`: puts the program counter, cut to 16
    /// bits, on the stack and goes to `nnn`.
    pub fn call(&mut self, nnn: usize)
        requires
            old(self).stack_pointer < STACK_DEPTH,
        ensures
            final(self)@ == old(self)@.called(nnn as int),
    {
        let sp = self.stack_pointer;
        self.stack[sp] = #[verifier::truncate] (self.program_counter as u16);
        self.stack_pointer += 1;
        self.program_counter = nnn;
    }

    /// Returns from a subroutine: takes the address on top of the stack off
    /// it and goes there.
    pub fn ret(&mut self)
        requires
            0 < old(self).stack_pointer <= STACK_DEPTH,
        ensures
            final(self)@ == old(self)@.returned(),
    {
        self.stack_pointer -= 1;
        let call_address = self.stack[self.stack_pointer];
        self.program_counter = call_address as usize;
    }

    /// Runs the program at the program counter until it halts or runs into
    /// a fault.
    pub fn run(&mut self) -> (result: Result<(), Fault>)
        ensures
            (final(self)@, result) == old(self)@.ran(),
    {
        loop
            invariant
                self@.ran() == old(self)@.ran(),
            decreases self@.rank(),
        {
            if self.program_counter >= MEMORY_SIZE - 1 {
                return Err(Fault::MemoryOverrun);
            }
            let ghost before = self@;
            let opcode = self.read_opcode();
            self.program_counter += 2;

            assert((opcode & 0xf000) >> 12 == opcode / 4096 && (opcode & 0x0f00) >> 8 == (opcode
                / 256) % 16 && (opcode & 0x00f0) >> 4 == (opcode / 16) % 16 && (opcode & 0x000f)
                >> 0 == opcode % 16 && (opcode & 0x0fff) >> 0 == opcode % 4096)
                by (bit_vector);
            let c = ((opcode & 0xf000) >> 12) as u8;
            let x = ((opcode & 0x0f00) >> 8) as u8;
            let y = ((opcode & 0x00f0) >> 4) as u8;
            let d = ((opcode & 0x000f) >> 0) as u8;

            let nnn = ((opcode & 0x0fff) >> 0) as usize;

            if c == 0 && x == 0 && y == 0 && d == 0 {
                return Ok(());
            } else if c == 0x0 && x == 0x0 && y == 0xe && d == 0xe {
                if self.stack_pointer == 0 {
                    return Err(Fault::StackUnderflow);
                }
                if self.stack_pointer > STACK_DEPTH {
                    return Err(Fault::StackOverflow);
                }
                proof {
                    lemma_return_lowers_rank(before);
                }
                self.ret();
            } else if c == 0x2 {
                if self.stack_pointer >= STACK_DEPTH {
                    return Err(Fault::StackOverflow);
                }
                proof {
                    lemma_call_lowers_rank(before, nnn as int);
                }
                self.call(nnn);
            } else if c == 0x8 && d == 0x4 {
                proof {
                    lemma_add_lowers_rank(before, x as int, y as int);
                }
                self.add_xy(x, y);
            } else {
                return Err(Fault::UnknownOpcode(opcode));
            }
        }
    }
}

} // verus!
