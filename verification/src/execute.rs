//! The register machine: its instructions, what they do, and the machine
//! that runs them.
use vstd::prelude::*;

verus! {

/// An absolute code address: an index into the program.
pub type Label = usize;

/// The number of a register.
pub type Register = u8;

/// What a register holds.
pub type RegisterContent = i16;

/// How many registers the machine has.
pub const REGISTER_COUNT: usize = 5;

/// One instruction of the register machine. What each does is `apply`.
#[derive(Clone, Copy, Debug, PartialEq, Eq)]
pub enum Instruction {
    /// Flips every bit of the register.
    Negate { register: Register },
    /// Masks the register with the constant.
    AndI { register: Register, constant: RegisterContent },
    /// Goes on at the address.
    Jump { instruction: Label },
    /// Goes on at the address where the test register is not zero.
    JumpIf { instruction: Label, test: Register },
    /// Puts the constant into the register.
    StoreI { constant: RegisterContent, register: Register },
    /// Puts what `src` holds into `dest`.
    Copy { src: Register, dest: Register },
    /// Puts `lhs` less `rhs` into `dest`.
    Subtract { lhs: Register, rhs: Register, dest: Register },
    /// Takes the constant from the register.
    SubtractI { register: Register, constant: RegisterContent },
    /// Puts the sum of `lhs` and `rhs` into `dest`.
    Add { lhs: Register, rhs: Register, dest: Register },
    /// Adds the constant to the register.
    AddI { register: Register, constant: RegisterContent },
    /// Moves the register's bits up by `amount`.
    ShiftLeft { register: Register, amount: u8 },
    /// Moves the register's bits down by `amount` and fills with zeros.
    ShiftRight { register: Register, amount: u8 },
}

impl Instruction {
    /// The instruction's name, as a trace shows it. `AddI` goes by the name
    /// of `Add`.
    pub open spec fn name(self) -> Seq<char> {
        match self {
            Instruction::Negate { .. } => "Negate"@,
            Instruction::AndI { .. } => "AndI"@,
            Instruction::Jump { .. } => "Jump"@,
            Instruction::JumpIf { .. } => "JumpIf"@,
            Instruction::StoreI { .. } => "StoreI"@,
            Instruction::Copy { .. } => "Copy"@,
            Instruction::Subtract { .. } => "Subtract"@,
            Instruction::SubtractI { .. } => "SubtractI"@,
            Instruction::Add { .. } => "Add"@,
            Instruction::AddI { .. } => "Add"@,
            Instruction::ShiftLeft { .. } => "ShiftLeft"@,
            Instruction::ShiftRight { .. } => "ShiftRight"@,
        }
    }

    /// The instruction's name.
    pub fn as_str(&self) -> (name: &'static str)
        ensures
            name@ == self.name(),
    {
        match self {
            Instruction::Negate { .. } => "Negate",
            Instruction::AndI { .. } => "AndI",
            Instruction::Jump { .. } => "Jump",
            Instruction::JumpIf { .. } => "JumpIf",
            Instruction::StoreI { .. } => "StoreI",
            Instruction::Copy { .. } => "Copy",
            Instruction::Subtract { .. } => "Subtract",
            Instruction::SubtractI { .. } => "SubtractI",
            Instruction::Add { .. } => "Add",
            Instruction::AddI { .. } => "Add",
            Instruction::ShiftLeft { .. } => "ShiftLeft",
            Instruction::ShiftRight { .. } => "ShiftRight",
        }
    }

    /// Whether the instruction can stand in a program of `len` instructions:
    /// it names registers that exist, shifts by less than the register width
    /// and jumps to an instruction of the program.
    pub open spec fn fits(self, len: nat) -> bool {
        match self {
            Instruction::Negate { register } => register < REGISTER_COUNT,
            Instruction::AndI { register, .. } => register < REGISTER_COUNT,
            Instruction::Jump { instruction } => instruction < len,
            Instruction::JumpIf { instruction, test } => instruction < len && test
                < REGISTER_COUNT,
            Instruction::StoreI { register, .. } => register < REGISTER_COUNT,
            Instruction::Copy { src, dest } => src < REGISTER_COUNT && dest < REGISTER_COUNT,
            Instruction::Subtract { lhs, rhs, dest } => lhs < REGISTER_COUNT && rhs
                < REGISTER_COUNT && dest < REGISTER_COUNT,
            Instruction::SubtractI { register, .. } => register < REGISTER_COUNT,
            Instruction::Add { lhs, rhs, dest } => lhs < REGISTER_COUNT && rhs < REGISTER_COUNT
                && dest < REGISTER_COUNT,
            Instruction::AddI { register, .. } => register < REGISTER_COUNT,
            Instruction::ShiftLeft { register, amount } => register < REGISTER_COUNT && amount
                < 16,
            Instruction::ShiftRight { register, amount } => register < REGISTER_COUNT && amount
                < 16,
        }
    }
}

/// The machine as the semantics sees it: what the registers hold and the
/// address of the instruction that runs next.
pub struct State {
    pub registers: Seq<RegisterContent>,
    pub pc: int,
}

/// The state in which a program starts on the registers: at its first
/// instruction.
pub open spec fn start(registers: Seq<RegisterContent>) -> State {
    State { registers, pc: 0 }
}

/// The registers of a machine that has not run yet.
pub open spec fn cleared() -> Seq<RegisterContent> {
    seq![0i16, 0i16, 0i16, 0i16, 0i16]
}

/// The value with every bit flipped.
pub open spec fn complement(value: RegisterContent) -> RegisterContent {
    !value
}

/// The value moved `amount` bits up; the bits that leave the register are
/// lost.
pub open spec fn shift_left(value: RegisterContent, amount: u8) -> RegisterContent {
    value << amount
}

/// A shift to the right that fills with zeros, whatever the sign.
pub open spec fn shift_right_logical(value: RegisterContent, amount: u8) -> RegisterContent {
    #[verifier::truncate]
    (((
    #[verifier::truncate]
    (value as u16)) >> amount) as i16)
}

/// The state after `instruction` has run in `state`. Sums and differences
/// wrap; a jump sets the program counter, every other instruction moves it on
/// by one.
pub open spec fn apply(instruction: Instruction, state: State) -> State {
    let regs = state.registers;
    match instruction {
        Instruction::Negate { register } => State {
            registers: regs.update(register as int, complement(regs[register as int])),
            pc: state.pc + 1,
        },
        Instruction::AndI { register, constant } => State {
            registers: regs.update(register as int, regs[register as int] & constant),
            pc: state.pc + 1,
        },
        Instruction::Jump { instruction } => State { registers: regs, pc: instruction as int },
        Instruction::JumpIf { instruction, test } => State {
            registers: regs,
            pc: if regs[test as int] != 0 {
                instruction as int
            } else {
                state.pc + 1
            },
        },
        Instruction::StoreI { constant, register } => State {
            registers: regs.update(register as int, constant),
            pc: state.pc + 1,
        },
        Instruction::Copy { src, dest } => State {
            registers: regs.update(dest as int, regs[src as int]),
            pc: state.pc + 1,
        },
        Instruction::Subtract { lhs, rhs, dest } => State {
            registers: regs.update(dest as int, regs[lhs as int].wrapping_sub(regs[rhs as int])),
            pc: state.pc + 1,
        },
        Instruction::SubtractI { register, constant } => State {
            registers: regs.update(register as int, regs[register as int].wrapping_sub(constant)),
            pc: state.pc + 1,
        },
        Instruction::Add { lhs, rhs, dest } => State {
            registers: regs.update(dest as int, regs[lhs as int].wrapping_add(regs[rhs as int])),
            pc: state.pc + 1,
        },
        Instruction::AddI { register, constant } => State {
            registers: regs.update(register as int, regs[register as int].wrapping_add(constant)),
            pc: state.pc + 1,
        },
        Instruction::ShiftLeft { register, amount } => State {
            registers: regs.update(register as int, shift_left(regs[register as int], amount)),
            pc: state.pc + 1,
        },
        Instruction::ShiftRight { register, amount } => State {
            registers: regs.update(
                register as int,
                shift_right_logical(regs[register as int], amount),
            ),
            pc: state.pc + 1,
        },
    }
}

/// Whether the instruction sets the program counter itself when it runs in
/// `state`: a `Jump` always does, a `JumpIf` where its test register is not
/// zero, and no other instruction does.
pub open spec fn jumps(instruction: Instruction, state: State) -> bool {
    match instruction {
        Instruction::Jump { .. } => true,
        Instruction::JumpIf { test, .. } => state.registers[test as int] != 0,
        _ => false,
    }
}

/// Whether every instruction of the program fits it.
pub open spec fn well_formed(program: Seq<Instruction>) -> bool {
    forall|i: int| 0 <= i < program.len() ==> (#[trigger] program[i]).fits(program.len())
}

/// Whether the program counter has left the program: nothing runs any more.
pub open spec fn halted(program: Seq<Instruction>, state: State) -> bool {
    !(0 <= state.pc < program.len())
}

/// The state after the instruction at the program counter has run.
pub open spec fn step(program: Seq<Instruction>, state: State) -> State {
    apply(program[state.pc], state)
}

/// The state after `n` instructions have run, or after the machine has
/// halted if that takes fewer.
pub open spec fn advance(program: Seq<Instruction>, state: State, n: nat) -> State
    decreases n,
{
    if n == 0 || halted(program, state) {
        state
    } else {
        advance(program, step(program, state), (n - 1) as nat)
    }
}

/// Whether the machine halts after at most `n` instructions.
pub open spec fn halts_within(program: Seq<Instruction>, state: State, n: nat) -> bool {
    halted(program, advance(program, state, n))
}

/// Whether the machine halts at all.
pub open spec fn halts(program: Seq<Instruction>, state: State) -> bool {
    exists|n: nat| halts_within(program, state, n)
}

/// The state in which the machine halts, where it does.
pub open spec fn outcome(program: Seq<Instruction>, state: State) -> State {
    advance(program, state, choose|n: nat| halts_within(program, state, n))
}

/// Running on after the machine has halted changes nothing.
pub proof fn lemma_advance_halted(program: Seq<Instruction>, state: State, n: nat, m: nat)
    requires
        halts_within(program, state, n),
        n <= m,
    ensures
        advance(program, state, m) == advance(program, state, n),
    decreases n,
{
    if n == 0 || halted(program, state) {
        assert(advance(program, state, n) == state);
        if m > 0 && !halted(program, state) {
        }
    } else {
        lemma_advance_halted(program, step(program, state), (n - 1) as nat, (m - 1) as nat);
    }
}

/// Every number of instructions that suffices to halt leads to the outcome.
pub proof fn lemma_outcome(program: Seq<Instruction>, state: State, n: nat)
    requires
        halts_within(program, state, n),
    ensures
        halts(program, state),
        outcome(program, state) == advance(program, state, n),
{
    let k = choose|k: nat| halts_within(program, state, k);
    if k <= n {
        lemma_advance_halted(program, state, k, n);
    } else {
        lemma_advance_halted(program, state, n, k);
    }
}

/// One instruction more: where `n` instructions lead to a state that has not
/// halted, `n + 1` lead to the state after its instruction.
pub proof fn lemma_advance_once(program: Seq<Instruction>, start: State, n: nat, mid: State)
    requires
        advance(program, start, n) == mid,
        !halted(program, mid),
    ensures
        advance(program, start, n + 1) == step(program, mid),
    decreases n,
{
    if n == 0 {
        assert(advance(program, step(program, start), 0) == step(program, start));
    } else {
        lemma_advance_once(program, step(program, start), (n - 1) as nat, mid);
    }
}

/// Runs compose: `n` instructions and then `m` are `n + m` instructions.
pub proof fn lemma_advance_more(program: Seq<Instruction>, start: State, n: nat, m: nat)
    ensures
        advance(program, start, n + m) == advance(program, advance(program, start, n), m),
    decreases n,
{
    if n == 0 {
    } else if halted(program, start) {
        assert(advance(program, start, m) == start) by {
            if m > 0 {
            }
        }
    } else {
        lemma_advance_more(program, step(program, start), (n - 1) as nat, m);
    }
}

/// Tells whether a program is well formed.
pub fn is_well_formed(program: &Vec<Instruction>) -> (ok: bool)
    ensures
        ok == well_formed(program@),
{
    let len = program.len();
    let mut i: usize = 0;
    while i < len
        invariant
            i <= len,
            len == program@.len(),
            forall|j: int| 0 <= j < i ==> (#[trigger] program@[j]).fits(len as nat),
        decreases len - i,
    {
        let ok = match program[i] {
            Instruction::Negate { register } => (register as usize) < REGISTER_COUNT,
            Instruction::AndI { register, .. } => (register as usize) < REGISTER_COUNT,
            Instruction::Jump { instruction } => instruction < len,
            Instruction::JumpIf { instruction, test } => instruction < len && (test as usize) < REGISTER_COUNT,
            Instruction::StoreI { register, .. } => (register as usize) < REGISTER_COUNT,
            Instruction::Copy { src, dest } => (src as usize) < REGISTER_COUNT && (dest as usize) < REGISTER_COUNT,
            Instruction::Subtract { lhs, rhs, dest } => (lhs as usize) < REGISTER_COUNT && (rhs as usize) < REGISTER_COUNT && (dest as usize) < REGISTER_COUNT,
            Instruction::SubtractI { register, .. } => (register as usize) < REGISTER_COUNT,
            Instruction::Add { lhs, rhs, dest } => (lhs as usize) < REGISTER_COUNT && (rhs as usize) < REGISTER_COUNT && (dest as usize) < REGISTER_COUNT,
            Instruction::AddI { register, .. } => (register as usize) < REGISTER_COUNT,
            Instruction::ShiftLeft { register, amount } => (register as usize) < REGISTER_COUNT && amount < 16,
            Instruction::ShiftRight { register, amount } => (register as usize) < REGISTER_COUNT && amount < 16,
        };
        if !ok {
            return false;
        }
        i += 1;
    }
    true
}

/// A register machine: five registers and a program counter.
pub struct Machine {
    registers: [RegisterContent; REGISTER_COUNT],
    pc: usize,
}

impl View for Machine {
    type V = State;

    closed spec fn view(&self) -> State {
        State { registers: self.registers@, pc: self.pc as int }
    }
}

impl Machine {
    /// A machine with every register cleared.
    pub fn new() -> (machine: Self)
        ensures
            machine@ == start(cleared()),
    {
        let machine = Self { registers: [0;5], pc: 0 };
        proof {
            assert(machine.registers@ =~= cleared());
        }
        machine
    }

    /// A machine has five registers, and its program counter is an address.
    pub proof fn lemma_view(&self)
        ensures
            self@.registers.len() == REGISTER_COUNT,
            0 <= self@.pc <= usize::MAX,
    {
    }

    /// What the result register holds.
    pub fn answer_by_convention(&self) -> (answer: RegisterContent)
        ensures
            answer == self@.registers[3],
    {
        self.registers[3]
    }

    /// The address of the instruction that runs next.
    pub fn pc(&self) -> (pc: usize)
        ensures
            pc == self@.pc,
    {
        self.pc
    }

    /// What the registers hold.
    pub fn registers(&self) -> (registers: [RegisterContent; REGISTER_COUNT])
        ensures
            registers@ == self@.registers,
    {
        self.registers
    }

    /// Whether the program counter has left the program.
    pub fn has_halted(&self, program: &Vec<Instruction>) -> (done: bool)
        ensures
            done == halted(program@, self@),
    {
        self.pc >= program.len()
    }

    /// Whether the instruction at the program counter is about to jump.
    pub fn will_jump(&self, program: &Vec<Instruction>) -> (jump: bool)
        requires
            well_formed(program@),
            !halted(program@, self@),
        ensures
            jump == jumps(program@[self@.pc], self@),
    {
        let instruction = program[self.pc];
        assert(instruction.fits(program@.len()));
        match instruction {
            Instruction::Jump { .. } => true,
            Instruction::JumpIf { test, .. } => self.registers[test as usize] != 0,
            _ => false,
        }
    }

    /// Runs the instruction at the program counter.
    pub fn step(&mut self, program: &Vec<Instruction>)
        requires
            well_formed(program@),
            !halted(program@, old(self)@),
        ensures
            final(self)@ == step(program@, old(self)@),
    {
        let instruction = program[self.pc];
        let ghost next = step(program@, self@);
        assert(instruction.fits(program@.len()));
        match instruction {
            Instruction::Negate { register } => {
                let value = self.registers[register as usize];
                assert(i16::MIN <= !value <= i16::MAX) by (bit_vector);
                self.registers[register as usize] = !value;
            },
            Instruction::AndI { register, constant } => {
                self.registers[register as usize] = self.registers[register as usize] & constant;
            },
            Instruction::Jump { instruction } => {
                self.pc = instruction;
                return ;
            },
            Instruction::JumpIf { instruction, test } => {
                if self.registers[test as usize] != 0 {
                    self.pc = instruction;
                    return ;
                }
            },
            Instruction::StoreI { constant, register } => {
                self.registers[register as usize] = constant;
            },
            Instruction::Copy { src, dest } => {
                self.registers[dest as usize] = self.registers[src as usize];
            },
            Instruction::Subtract { lhs, rhs, dest } => {
                self.registers[dest as usize] = self.registers[lhs as usize].wrapping_sub(
                    self.registers[rhs as usize],
                );
            },
            Instruction::Add { lhs, rhs, dest } => {
                self.registers[dest as usize] = self.registers[lhs as usize].wrapping_add(
                    self.registers[rhs as usize],
                );
            },
            Instruction::AddI { register, constant } => {
                self.registers[register as usize] = self.registers[register as usize].wrapping_add(
                    constant,
                );
            },
            Instruction::ShiftLeft { register, amount } => {
                self.registers[register as usize] = self.registers[register as usize] << amount;
            },
            Instruction::ShiftRight { register, amount } => {
                let bits =
                #[verifier::truncate]
                (self.registers[register as usize] as u16);
                self.registers[register as usize] =
                #[verifier::truncate]
                ((bits >> amount) as i16);
            },
            Instruction::SubtractI { register, constant } => {
                self.registers[register as usize] = self.registers[register as usize].wrapping_sub(
                    constant,
                );
            },
        }
        assert(self.pc < program.len());
        self.pc += 1;
        proof {
            assert(self@.registers =~= next.registers);
        }
    }

    /// Runs the program from its first instruction, on the registers as they
    /// are, until the program counter leaves the program.
    pub fn run(&mut self, program: Vec<Instruction>)
        requires
            well_formed(program@),
            halts(program@, start(old(self)@.registers)),
        ensures
            final(self)@ == outcome(program@, start(old(self)@.registers)),
    {
        self.pc = 0;
        let ghost start = self@;
        let ghost mut left: nat = choose|n: nat| halts_within(program@, start, n);
        while self.pc < program.len()
            invariant
                well_formed(program@),
                halts_within(program@, self@, left),
                advance(program@, self@, left) == outcome(program@, start),
            decreases left,
        {
            self.step(&program);
            proof {
                left = (left - 1) as nat;
            }
        }
    }
}

} // verus!
