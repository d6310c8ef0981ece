//! From syntax trees to bytecode.
use crate::execute::well_formed;
use crate::execute::Instruction;
use crate::execute::Label;
use crate::execute::Register;
use crate::meaning::lemma_compiled;
use crate::meaning::works_out;
use crate::parsing::Node;
use vstd::prelude::*;

verus! {

/// Where the value of a tree is left, and the sum of a multiplication
/// grows.
pub const RESULT_REGISTER: Register = 3;

/// Where the remainder of a division stands: the result register.
pub const REMAINDER_REGISTER: Register = 3;

/// Where the rounds of a loop are counted.
pub const ITERATION_REGISTER: Register = 0;

/// Where the multiplier stands.
pub const MULTIPLIER_REGISTER: Register = 1;

/// Where the multiplicand stands.
pub const MULTIPLICAND_REGISTER: Register = 2;

/// Where the divisor stands: the multiplicand's register.
pub const DIVISOR_REGISTER: Register = 2;

/// Where the quotient grows: the multiplier's register.
pub const QUOTIENT_REGISTER: Register = 1;

/// Where a bit is held to be tested, and where the dividend waits while the
/// divisor is worked out.
pub const TEST_REGISTER: Register = 4;

/// The eleven instructions that multiply, placed at address `at`: they clear
/// the result register, count four rounds in the iteration register and in
/// each round add the multiplicand to the result where the multiplier's lowest
/// bit is set, then double the multiplicand and halve the multiplier.
#[verifier::opaque]
pub open spec fn multiply_code(at: int) -> Seq<Instruction> {
    seq![
        Instruction::AndI { register: RESULT_REGISTER, constant: 0 },
        Instruction::StoreI { constant: 4, register: ITERATION_REGISTER },
        Instruction::Copy { src: MULTIPLIER_REGISTER, dest: TEST_REGISTER },
        Instruction::Negate { register: TEST_REGISTER },
        Instruction::AndI { register: TEST_REGISTER, constant: 1 },
        Instruction::JumpIf { instruction: (at + 7) as usize, test: TEST_REGISTER },
        Instruction::Add {
            lhs: MULTIPLICAND_REGISTER,
            rhs: RESULT_REGISTER,
            dest: RESULT_REGISTER,
        },
        Instruction::ShiftLeft { register: MULTIPLICAND_REGISTER, amount: 1 },
        Instruction::ShiftRight { register: MULTIPLIER_REGISTER, amount: 1 },
        Instruction::SubtractI { register: ITERATION_REGISTER, constant: 1 },
        Instruction::JumpIf { instruction: (at + 2) as usize, test: ITERATION_REGISTER },
    ]
}

/// The sixteen instructions that divide, placed at address `at`: restoring
/// division in five rounds, with the divisor first moved four bits up.
#[verifier::opaque]
pub open spec fn divide_code(at: int) -> Seq<Instruction> {
    seq![
        Instruction::ShiftLeft { register: DIVISOR_REGISTER, amount: 4 },
        Instruction::StoreI { constant: 0, register: QUOTIENT_REGISTER },
        Instruction::StoreI { constant: 5, register: ITERATION_REGISTER },
        Instruction::Subtract {
            lhs: REMAINDER_REGISTER,
            rhs: DIVISOR_REGISTER,
            dest: REMAINDER_REGISTER,
        },
        Instruction::Copy { src: REMAINDER_REGISTER, dest: TEST_REGISTER },
        Instruction::AndI { register: TEST_REGISTER, constant: i16::MIN },
        Instruction::JumpIf { instruction: (at + 10) as usize, test: TEST_REGISTER },
        Instruction::ShiftLeft { register: QUOTIENT_REGISTER, amount: 1 },
        Instruction::AddI { register: QUOTIENT_REGISTER, constant: 1 },
        Instruction::Jump { instruction: (at + 12) as usize },
        Instruction::Add {
            lhs: REMAINDER_REGISTER,
            rhs: DIVISOR_REGISTER,
            dest: REMAINDER_REGISTER,
        },
        Instruction::ShiftLeft { register: QUOTIENT_REGISTER, amount: 1 },
        Instruction::ShiftRight { register: DIVISOR_REGISTER, amount: 1 },
        Instruction::SubtractI { register: ITERATION_REGISTER, constant: 1 },
        Instruction::JumpIf { instruction: (at + 3) as usize, test: ITERATION_REGISTER },
        Instruction::Copy { src: QUOTIENT_REGISTER, dest: RESULT_REGISTER },
    ]
}

/// The multiplication loop has eleven instructions.
pub proof fn lemma_multiply_code_len(at: int)
    ensures
        multiply_code(at).len() == 11,
{
    reveal(multiply_code);
}

/// The division loop has sixteen instructions.
pub proof fn lemma_divide_code_len(at: int)
    ensures
        divide_code(at).len() == 16,
{
    reveal(divide_code);
}

/// What compiling `node` appends to a program that already holds `base`
/// instructions. Compilation stops at the first digit node it meets, so for a
/// tree that holds one this is only what was emitted before it.
pub open spec fn code(node: Node, base: int) -> Seq<Instruction>
    decreases node,
{
    match node {
        Node::NumberN(x) => seq![
            Instruction::StoreI { constant: x as i16, register: RESULT_REGISTER },
        ],
        Node::MulN { lhs, rhs } => {
            let first = code(*rhs, base);
            if rhs.has_temp() {
                first
            } else {
                let keep = seq![
                    Instruction::Copy { src: RESULT_REGISTER, dest: MULTIPLICAND_REGISTER },
                ];
                let second = code(*lhs, base + first.len() + 1);
                if lhs.has_temp() {
                    first + keep + second
                } else {
                    first + keep + second + seq![
                        Instruction::Copy { src: RESULT_REGISTER, dest: MULTIPLIER_REGISTER },
                    ] + multiply_code(base + first.len() + second.len() + 2)
                }
            }
        },
        Node::DivN { lhs, rhs } => {
            let first = code(*rhs, base);
            if rhs.has_temp() {
                first
            } else {
                let keep = seq![Instruction::Copy { src: RESULT_REGISTER, dest: TEST_REGISTER }];
                let second = code(*lhs, base + first.len() + 1);
                if lhs.has_temp() {
                    first + keep + second
                } else {
                    first + keep + second + seq![
                        Instruction::Copy { src: RESULT_REGISTER, dest: DIVISOR_REGISTER },
                        Instruction::Copy { src: TEST_REGISTER, dest: REMAINDER_REGISTER },
                    ] + divide_code(base + first.len() + second.len() + 3)
                }
            }
        },
        Node::Temp(_) => Seq::empty(),
    }
}

/// What compiling the trees of `nodes` one after the other appends to a
/// program of `base` instructions, where none of them holds a digit node.
pub open spec fn codes(nodes: Seq<Node>, base: int) -> Seq<Instruction>
    decreases nodes.len(),
{
    if nodes.len() == 0 {
        Seq::empty()
    } else {
        let before = codes(nodes.drop_last(), base);
        before + code(nodes.last(), base + before.len())
    }
}

/// Whether a digit node is left in one of the trees.
pub open spec fn any_temp(nodes: Seq<Node>) -> bool {
    exists|i: int| 0 <= i < nodes.len() && (#[trigger] nodes[i]).has_temp()
}

/// Lowers syntax trees to bytecode. Registers are given out by convention:
/// every operation uses the same ones, and the code of a tree may overwrite
/// all of them. So the operand that may be a whole operation is worked out
/// first, and the operand that is a number in every parsed tree after it.
pub struct Compiler {
    instructions: Vec<Instruction>,
    ast: Vec<Node>,
}

impl View for Compiler {
    type V = Seq<Node>;

    /// The trees that the compiler was made for.
    closed spec fn view(&self) -> Seq<Node> {
        self.ast@
    }
}

impl Compiler {
    #[verifier::type_invariant]
    spec fn nothing_emitted(self) -> bool {
        self.instructions@.len() == 0
    }

    /// A compiler for the trees.
    pub fn new(ast: Vec<Node>) -> (compiler: Self)
        ensures
            compiler@ == ast@,
    {
        Self { instructions: Vec::new(), ast }
    }

    /// Compiles every tree, in order, into one program. Fails exactly when a
    /// digit node is left in one of them.
    ///
    /// The program is well formed. Started on any registers it halts, and
    /// then the registers hold what working out the trees one after the
    /// other gives.
    pub fn compile(self) -> (res: Result<Vec<Instruction>, String>)
        ensures
            match res {
                Ok(program) => {
                    &&& !any_temp(self@)
                    &&& program@ == codes(self@, 0)
                    &&& well_formed(program@)
                    &&& works_out(program@, self@)
                },
                Err(message) => any_temp(self@) && message@ == "Bad parsing!"@,
            },
    {
        proof {
            use_type_invariant(&self);
        }
        let Compiler { mut instructions, ast } = self;
        let mut i: usize = 0;
        while i < ast.len()
            invariant
                i <= ast.len(),
                ast@ == self@,
                instructions@ == codes(ast@.take(i as int), 0),
                forall|j: int| 0 <= j < i ==> !(#[trigger] ast@[j]).has_temp(),
            decreases ast.len() - i,
        {
            proof {
                assert(ast@.take(i + 1).drop_last() =~= ast@.take(i as int));
            }
            match Self::compile_node(&mut instructions, &ast[i]) {
                Ok(()) => {},
                Err(message) => {
                    proof {
                        assert(ast@[i as int].has_temp());
                    }
                    return Err(message);
                },
            }
            i += 1;
        }
        proof {
            assert(ast@.take(ast@.len() as int) =~= ast@);
            assert(instructions@.len() == instructions.len());
            lemma_compiled(ast@);
        }
        Ok(instructions)
    }

    /// Appends the code of one tree to `instructions`; jump targets are the
    /// absolute addresses the code gets there.
    pub fn compile_node(instructions: &mut Vec<Instruction>, node: &Node) -> (res: Result<
        (),
        String,
    >)
        ensures
            final(instructions)@ == old(instructions)@ + code(*node, old(instructions)@.len() as int),
            match res {
                Ok(_) => !node.has_temp(),
                Err(message) => node.has_temp() && message@ == "Bad parsing!"@,
            },
        decreases node,
    {
        let ghost before = instructions@;
        match node {
            Node::NumberN(x) => {
                instructions.push(
                    Instruction::StoreI { constant: *x as i16, register: RESULT_REGISTER },
                );
                Ok(())
            },
            Node::MulN { lhs, rhs } => {
                // rhs may be a whole operation
                match Self::compile_node(instructions, rhs) {
                    Ok(()) => {},
                    Err(message) => {
                        return Err(message);
                    },
                }
                instructions.push(
                    Instruction::Copy { src: RESULT_REGISTER, dest: MULTIPLICAND_REGISTER },
                );
                // lhs is a literal in every parsed tree
                match Self::compile_node(instructions, lhs) {
                    Ok(()) => {},
                    Err(message) => {
                        proof {
                            assert(instructions@ =~= before + code(*node, before.len() as int));
                        }
                        return Err(message);
                    },
                }
                instructions.push(
                    Instruction::Copy { src: RESULT_REGISTER, dest: MULTIPLIER_REGISTER },
                );
                Self::emit_multiply(instructions);
                proof {
                    assert(instructions@ =~= before + code(*node, before.len() as int));
                }
                Ok(())
            },
            Node::DivN { lhs, rhs } => {
                // rhs is the dividend and may be a whole operation, whose code
                // uses every register: it comes first, and its result waits
                // in the test register
                match Self::compile_node(instructions, rhs) {
                    Ok(()) => {},
                    Err(message) => {
                        return Err(message);
                    },
                }
                instructions.push(Instruction::Copy { src: RESULT_REGISTER, dest: TEST_REGISTER });
                // lhs is the divisor, a literal in every parsed tree
                match Self::compile_node(instructions, lhs) {
                    Ok(()) => {},
                    Err(message) => {
                        proof {
                            assert(instructions@ =~= before + code(*node, before.len() as int));
                        }
                        return Err(message);
                    },
                }
                instructions.push(
                    Instruction::Copy { src: RESULT_REGISTER, dest: DIVISOR_REGISTER },
                );
                // the dividend goes back to the result register, which holds
                // the remainder
                instructions.push(
                    Instruction::Copy { src: TEST_REGISTER, dest: REMAINDER_REGISTER },
                );
                Self::emit_divide(instructions);
                proof {
                    assert(instructions@ =~= before + code(*node, before.len() as int));
                }
                Ok(())
            },
            Node::Temp(_) => Err("Bad parsing!".to_string()),
        }
    }

    /// Appends the multiplication loop for the operands that wait in the
    /// multiplicand and multiplier registers.
    fn emit_multiply(instructions: &mut Vec<Instruction>)
        ensures
            final(instructions)@ == old(instructions)@ + multiply_code(
                old(instructions)@.len() as int,
            ),
    {
        let ghost before = instructions@;
        // the result register is the accumulator
        instructions.push(Instruction::AndI { register: RESULT_REGISTER, constant: 0 });
        instructions.push(Instruction::StoreI { constant: 4, register: ITERATION_REGISTER });
        let jump_point: Label = instructions.len();
        // lowest bit of the multiplier: the test register is 1 where it is clear
        instructions.push(Instruction::Copy { src: MULTIPLIER_REGISTER, dest: TEST_REGISTER });
        instructions.push(Instruction::Negate { register: TEST_REGISTER });
        instructions.push(Instruction::AndI { register: TEST_REGISTER, constant: 1 });
        // where this jump goes is set once the address is known
        let branch: usize = instructions.len();
        instructions.push(Instruction::JumpIf { instruction: branch, test: TEST_REGISTER });
        instructions.push(
            Instruction::Add {
                lhs: MULTIPLICAND_REGISTER,
                rhs: RESULT_REGISTER,
                dest: RESULT_REGISTER,
            },
        );
        let forward: Label = instructions.len();
        instructions.set(branch, Instruction::JumpIf { instruction: forward, test: TEST_REGISTER });
        instructions.push(Instruction::ShiftLeft { register: MULTIPLICAND_REGISTER, amount: 1 });
        instructions.push(Instruction::ShiftRight { register: MULTIPLIER_REGISTER, amount: 1 });
        instructions.push(Instruction::SubtractI { register: ITERATION_REGISTER, constant: 1 });
        instructions.push(
            Instruction::JumpIf { instruction: jump_point, test: ITERATION_REGISTER },
        );
        proof {
            reveal(multiply_code);
            assert(instructions@ =~= before + multiply_code(before.len() as int));
        }
    }

    /// Appends the division loop for the divisor that waits in the divisor
    /// register and the dividend that waits in the result register.
    fn emit_divide(instructions: &mut Vec<Instruction>)
        ensures
            final(instructions)@ == old(instructions)@ + divide_code(
                old(instructions)@.len() as int,
            ),
    {
        let ghost before = instructions@;
        instructions.push(Instruction::ShiftLeft { register: DIVISOR_REGISTER, amount: 4 });
        instructions.push(Instruction::StoreI { constant: 0, register: QUOTIENT_REGISTER });
        instructions.push(Instruction::StoreI { constant: 5, register: ITERATION_REGISTER });
        let jump_point: Label = instructions.len();
        instructions.push(
            Instruction::Subtract {
                lhs: REMAINDER_REGISTER,
                rhs: DIVISOR_REGISTER,
                dest: REMAINDER_REGISTER,
            },
        );
        // sign of the remainder
        instructions.push(Instruction::Copy { src: REMAINDER_REGISTER, dest: TEST_REGISTER });
        instructions.push(Instruction::AndI { register: TEST_REGISTER, constant: i16::MIN });
        // where the two jumps forward go is set once the addresses are known
        let negative: usize = instructions.len();
        instructions.push(Instruction::JumpIf { instruction: negative, test: TEST_REGISTER });
        // remainder >= 0: a one enters the quotient
        instructions.push(Instruction::ShiftLeft { register: QUOTIENT_REGISTER, amount: 1 });
        instructions.push(Instruction::AddI { register: QUOTIENT_REGISTER, constant: 1 });
        let done: usize = instructions.len();
        instructions.push(Instruction::Jump { instruction: done });
        // remainder < 0: restore it, a zero enters the quotient
        let restore: Label = instructions.len();
        instructions.set(negative, Instruction::JumpIf { instruction: restore, test: TEST_REGISTER });
        instructions.push(
            Instruction::Add {
                lhs: REMAINDER_REGISTER,
                rhs: DIVISOR_REGISTER,
                dest: REMAINDER_REGISTER,
            },
        );
        instructions.push(Instruction::ShiftLeft { register: QUOTIENT_REGISTER, amount: 1 });
        let next: Label = instructions.len();
        instructions.set(done, Instruction::Jump { instruction: next });
        instructions.push(Instruction::ShiftRight { register: DIVISOR_REGISTER, amount: 1 });
        instructions.push(Instruction::SubtractI { register: ITERATION_REGISTER, constant: 1 });
        instructions.push(
            Instruction::JumpIf { instruction: jump_point, test: ITERATION_REGISTER },
        );
        // the remainder is forgotten
        instructions.push(Instruction::Copy { src: QUOTIENT_REGISTER, dest: RESULT_REGISTER });
        proof {
            reveal(divide_code);
            assert(instructions@ =~= before + divide_code(before.len() as int));
        }
    }
}

} // verus!
