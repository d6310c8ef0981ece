//! What a syntax tree does to the registers, and the proof that its compiled
//! code does just that.
use crate::compile::any_temp;
use crate::compile::code;
use crate::compile::codes;
use crate::compile::divide_code;
use crate::compile::lemma_divide_code_len;
use crate::compile::lemma_multiply_code_len;
use crate::compile::multiply_code;
use crate::execute::advance;
use crate::execute::complement;
use crate::execute::halts;
use crate::execute::lemma_advance_more;
use crate::execute::lemma_advance_once;
use crate::execute::lemma_outcome;
use crate::execute::outcome;
use crate::execute::shift_left;
use crate::execute::shift_right_logical;
use crate::execute::start;
use crate::execute::step;
use crate::execute::well_formed;
use crate::execute::Instruction;
use crate::execute::RegisterContent;
use crate::execute::State;
use crate::parsing::Node;
use vstd::prelude::*;

verus! {

/// What one round of the multiplication loop leaves in the result register:
/// the multiplicand is added where the lowest bit of the multiplier is set,
/// which shows in the lowest bit of its complement being clear.
pub open spec fn accumulated(
    result: RegisterContent,
    multiplicand: RegisterContent,
    multiplier: RegisterContent,
) -> RegisterContent {
    if complement(multiplier) & 1 != 0 {
        result
    } else {
        multiplicand.wrapping_add(result)
    }
}

/// The registers after one round of the multiplication loop: the test
/// register gets the complement of the multiplier's lowest bit, the
/// multiplicand is added to the result where that bit was set, the
/// multiplicand is doubled, the multiplier halved and the counter lowered.
///
/// Register 0 counts the rounds, register 1 holds the multiplier, register 2
/// the multiplicand, register 3 the result and register 4 the bit tested.
pub open spec fn multiply_round(regs: Seq<RegisterContent>) -> Seq<RegisterContent> {
    seq![
        regs[0].wrapping_sub(1),
        shift_right_logical(regs[1], 1),
        shift_left(regs[2], 1),
        accumulated(regs[3], regs[2], regs[1]),
        complement(regs[1]) & 1,
    ]
}

/// The registers after the multiplication loop: four rounds on a cleared
/// result register.
pub open spec fn multiplied(regs: Seq<RegisterContent>) -> Seq<RegisterContent> {
    let start = seq![4i16, regs[1], regs[2], regs[3] & 0, regs[4]];
    multiply_round(multiply_round(multiply_round(multiply_round(start))))
}

/// The registers after one round of the division loop: the divisor is taken
/// from the remainder; where that leaves the remainder negative it is put
/// back and a zero enters the quotient, else a one; the divisor is halved and
/// the counter lowered.
///
/// Register 0 counts the rounds, register 1 holds the quotient, register 2
/// the divisor, register 3 the remainder and register 4 the sign tested.
pub open spec fn divide_round(regs: Seq<RegisterContent>) -> Seq<RegisterContent> {
    let reduced = regs[3].wrapping_sub(regs[2]);
    let test = reduced & i16::MIN;
    seq![
        regs[0].wrapping_sub(1),
        if test != 0 {
            shift_left(regs[1], 1)
        } else {
            shift_left(regs[1], 1).wrapping_add(1)
        },
        shift_right_logical(regs[2], 1),
        if test != 0 {
            reduced.wrapping_add(regs[2])
        } else {
            reduced
        },
        test,
    ]
}

/// The registers after the division loop: five rounds with the divisor moved
/// four bits up, and then the quotient in the result register.
pub open spec fn divided(regs: Seq<RegisterContent>) -> Seq<RegisterContent> {
    let start = seq![5i16, 0i16, shift_left(regs[2], 4), regs[3], regs[4]];
    let end = divide_round(divide_round(divide_round(divide_round(divide_round(start)))));
    end.update(3, end[1])
}

/// The registers after the tree has been worked out on the registers `regs`.
///
/// A number goes to the result register. For a multiplication, `rhs` is
/// worked out and kept as the multiplicand, then `lhs` as the multiplier. For
/// a division, `rhs` is worked out and its result put by in register 4, then
/// `lhs` is worked out and kept as the divisor, and what was put by is the
/// dividend. A number leaves every register but the result register as it
/// is, so with a number as `lhs`, as in every tree that was read from tokens,
/// an operation works on what `rhs` comes to and on that number.
pub open spec fn evaluated(node: Node, regs: Seq<RegisterContent>) -> Seq<RegisterContent>
    decreases node,
{
    match node {
        Node::NumberN(x) => regs.update(3, x as i16),
        Node::MulN { lhs, rhs } => {
            let first = evaluated(*rhs, regs);
            let kept = first.update(2, first[3]);
            let second = evaluated(*lhs, kept);
            multiplied(second.update(1, second[3]))
        },
        Node::DivN { lhs, rhs } => {
            let first = evaluated(*rhs, regs);
            let saved = first.update(4, first[3]);
            let second = evaluated(*lhs, saved);
            let kept = second.update(2, second[3]);
            divided(kept.update(3, kept[4]))
        },
        Node::Temp(_) => regs,
    }
}

/// Working out a tree leaves five registers.
pub proof fn lemma_evaluated_len(node: Node, regs: Seq<RegisterContent>)
    requires
        regs.len() == 5,
    ensures
        evaluated(node, regs).len() == 5,
    decreases node,
{
    match node {
        Node::NumberN(_) => {},
        Node::MulN { lhs, rhs } => {
            lemma_evaluated_len(*rhs, regs);
            let first = evaluated(*rhs, regs);
            lemma_evaluated_len(*lhs, first.update(2, first[3]));
        },
        Node::DivN { lhs, rhs } => {
            lemma_evaluated_len(*rhs, regs);
            let first = evaluated(*rhs, regs);
            lemma_evaluated_len(*lhs, first.update(4, first[3]));
        },
        Node::Temp(_) => {},
    }
}

/// The registers after the trees have been worked out one after the other.
pub open spec fn evaluated_all(nodes: Seq<Node>, regs: Seq<RegisterContent>) -> Seq<
    RegisterContent,
>
    decreases nodes.len(),
{
    if nodes.len() == 0 {
        regs
    } else {
        evaluated(nodes.last(), evaluated_all(nodes.drop_last(), regs))
    }
}

/// Working out trees one after the other leaves five registers.
pub proof fn lemma_evaluated_all_len(nodes: Seq<Node>, regs: Seq<RegisterContent>)
    requires
        regs.len() == 5,
    ensures
        evaluated_all(nodes, regs).len() == 5,
    decreases nodes.len(),
{
    if nodes.len() > 0 {
        lemma_evaluated_all_len(nodes.drop_last(), regs);
        lemma_evaluated_len(nodes.last(), evaluated_all(nodes.drop_last(), regs));
    }
}

/// Whether `instructions` stand in the program from address `at` on.
pub open spec fn placed(program: Seq<Instruction>, at: int, instructions: Seq<Instruction>) -> bool {
    &&& 0 <= at
    &&& at + instructions.len() <= program.len()
    &&& program.subrange(at, at + instructions.len()) == instructions
}

/// The instruction that stands at the `i`-th place of a placed block.
proof fn lemma_fetch(program: Seq<Instruction>, at: int, instructions: Seq<Instruction>, i: int)
    requires
        placed(program, at, instructions),
        0 <= i < instructions.len(),
    ensures
        program[at + i] == instructions[i],
{
    assert(program.subrange(at, at + instructions.len())[i] == program[at + i]);
}

/// A part of a placed block is placed too.
proof fn lemma_placed_part(
    program: Seq<Instruction>,
    at: int,
    instructions: Seq<Instruction>,
    from: int,
    part: Seq<Instruction>,
)
    requires
        placed(program, at, instructions),
        0 <= from,
        from + part.len() <= instructions.len(),
        instructions.subrange(from, from + part.len()) == part,
    ensures
        placed(program, at + from, part),
{
    assert(program.subrange(at + from, at + from + part.len()) =~= part) by {
        assert forall|i: int| 0 <= i < part.len() implies program[at + from + i] == part[i] by {
            lemma_fetch(program, at, instructions, from + i);
            assert(instructions.subrange(from, from + part.len())[i] == instructions[from + i]);
        }
    }
}

/// One round of the multiplication loop, instruction by instruction: from the
/// head of the loop the machine comes back to it, or leaves the loop once the
/// counter is zero.
proof fn lemma_multiply_round(program: Seq<Instruction>, at: int, regs: Seq<RegisterContent>) -> (steps:
    nat)
    requires
        placed(program, at, multiply_code(at)),
        program.len() <= usize::MAX,
        regs.len() == 5,
    ensures
        advance(program, State { registers: regs, pc: at + 2 }, steps) == (State {
            registers: multiply_round(regs),
            pc: if multiply_round(regs)[0] != 0 {
                at + 2
            } else {
                at + 11
            },
        }),
{
    reveal(multiply_code);
    let block = multiply_code(at);
    let s0 = State { registers: regs, pc: at + 2 };
    assert(advance(program, s0, 0) == s0);
    lemma_fetch(program, at, block, 2);
    lemma_advance_once(program, s0, 0, s0);
    let s1 = step(program, s0);
    assert(s1.pc == at + 3);
    lemma_fetch(program, at, block, 3);
    lemma_advance_once(program, s0, 1, s1);
    let s2 = step(program, s1);
    assert(s2.pc == at + 4);
    lemma_fetch(program, at, block, 4);
    lemma_advance_once(program, s0, 2, s2);
    let s3 = step(program, s2);
    assert(s3.pc == at + 5);
    assert(s3.registers[4] == complement(regs[1]) & 1);
    lemma_fetch(program, at, block, 5);
    lemma_advance_once(program, s0, 3, s3);
    let s4 = step(program, s3);
    let test = complement(regs[1]) & 1;
    assert(accumulated(regs[3], regs[2], regs[1]) == if test != 0 {
        regs[3]
    } else {
        regs[2].wrapping_add(regs[3])
    });
    let (s5, n5): (State, nat) = if test != 0 {
        assert(s4.pc == at + 7);
        (s4, 4nat)
    } else {
        assert(s4.pc == at + 6);
        lemma_fetch(program, at, block, 6);
        lemma_advance_once(program, s0, 4, s4);
        (step(program, s4), 5nat)
    };
    assert(s5.pc == at + 7);
    assert(advance(program, s0, n5) == s5);
    lemma_fetch(program, at, block, 7);
    lemma_advance_once(program, s0, n5, s5);
    let s6 = step(program, s5);
    assert(s6.pc == at + 8);
    lemma_fetch(program, at, block, 8);
    lemma_advance_once(program, s0, n5 + 1, s6);
    let s7 = step(program, s6);
    assert(s7.pc == at + 9);
    lemma_fetch(program, at, block, 9);
    lemma_advance_once(program, s0, n5 + 2, s7);
    let s8 = step(program, s7);
    assert(s8.pc == at + 10);
    lemma_fetch(program, at, block, 10);
    lemma_advance_once(program, s0, n5 + 3, s8);
    let s9 = step(program, s8);
    assert(s9.registers =~= multiply_round(regs));
    n5 + 4
}

/// One round of the division loop, instruction by instruction: from the head
/// of the loop the machine comes back to it, or leaves the loop once the
/// counter is zero.
proof fn lemma_divide_round(program: Seq<Instruction>, at: int, regs: Seq<RegisterContent>) -> (steps:
    nat)
    requires
        placed(program, at, divide_code(at)),
        program.len() <= usize::MAX,
        regs.len() == 5,
    ensures
        advance(program, State { registers: regs, pc: at + 3 }, steps) == (State {
            registers: divide_round(regs),
            pc: if divide_round(regs)[0] != 0 {
                at + 3
            } else {
                at + 15
            },
        }),
{
    reveal(divide_code);
    let block = divide_code(at);
    let s0 = State { registers: regs, pc: at + 3 };
    assert(advance(program, s0, 0) == s0);
    lemma_fetch(program, at, block, 3);
    lemma_advance_once(program, s0, 0, s0);
    let s1 = step(program, s0);
    assert(s1.pc == at + 4);
    lemma_fetch(program, at, block, 4);
    lemma_advance_once(program, s0, 1, s1);
    let s2 = step(program, s1);
    assert(s2.pc == at + 5);
    lemma_fetch(program, at, block, 5);
    lemma_advance_once(program, s0, 2, s2);
    let s3 = step(program, s2);
    assert(s3.pc == at + 6);
    let reduced = regs[3].wrapping_sub(regs[2]);
    let test = reduced & i16::MIN;
    assert(s3.registers[4] == test);
    lemma_fetch(program, at, block, 6);
    lemma_advance_once(program, s0, 3, s3);
    let s4 = step(program, s3);
    let s7: State = if test != 0 {
        assert(s4.pc == at + 10);
        lemma_fetch(program, at, block, 10);
        lemma_advance_once(program, s0, 4, s4);
        let s5 = step(program, s4);
        assert(s5.pc == at + 11);
        lemma_fetch(program, at, block, 11);
        lemma_advance_once(program, s0, 5, s5);
        let s6 = step(program, s5);
        // one instruction fewer on this side: stand still for one count
        s6
    } else {
        assert(s4.pc == at + 7);
        lemma_fetch(program, at, block, 7);
        lemma_advance_once(program, s0, 4, s4);
        let s5 = step(program, s4);
        assert(s5.pc == at + 8);
        lemma_fetch(program, at, block, 8);
        lemma_advance_once(program, s0, 5, s5);
        let s6 = step(program, s5);
        assert(s6.pc == at + 9);
        lemma_fetch(program, at, block, 9);
        lemma_advance_once(program, s0, 6, s6);
        step(program, s6)
    };
    let n7: nat = if test != 0 {
        6
    } else {
        7
    };
    assert(s7.pc == at + 12);
    assert(advance(program, s0, n7) == s7);
    lemma_fetch(program, at, block, 12);
    lemma_advance_once(program, s0, n7, s7);
    let s8 = step(program, s7);
    assert(s8.pc == at + 13);
    lemma_fetch(program, at, block, 13);
    lemma_advance_once(program, s0, n7 + 1, s8);
    let s9 = step(program, s8);
    assert(s9.pc == at + 14);
    lemma_fetch(program, at, block, 14);
    lemma_advance_once(program, s0, n7 + 2, s9);
    let s10 = step(program, s9);
    assert(s10.registers =~= divide_round(regs));
    n7 + 3
}

/// The multiplication loop from its first instruction to the instruction
/// behind it.
proof fn lemma_multiply(program: Seq<Instruction>, at: int, regs: Seq<RegisterContent>) -> (steps:
    nat)
    requires
        placed(program, at, multiply_code(at)),
        program.len() <= usize::MAX,
        regs.len() == 5,
    ensures
        advance(program, State { registers: regs, pc: at }, steps) == (State {
            registers: multiplied(regs),
            pc: at + 11,
        }),
        multiplied(regs).len() == 5,
{
    reveal(multiply_code);
    let block = multiply_code(at);
    let s0 = State { registers: regs, pc: at };
    assert(advance(program, s0, 0) == s0);
    lemma_fetch(program, at, block, 0);
    lemma_advance_once(program, s0, 0, s0);
    let s1 = step(program, s0);
    assert(s1.pc == at + 1);
    lemma_fetch(program, at, block, 1);
    lemma_advance_once(program, s0, 1, s1);
    let s2 = step(program, s1);
    let r0 = seq![4i16, regs[1], regs[2], regs[3] & 0, regs[4]];
    assert(s2.registers =~= r0);
    assert(s2 == State { registers: r0, pc: at + 2 });
    let n1 = lemma_multiply_round(program, at, r0);
    let r1 = multiply_round(r0);
    lemma_advance_more(program, s0, 2, n1);
    let n2 = lemma_multiply_round(program, at, r1);
    let r2 = multiply_round(r1);
    lemma_advance_more(program, s0, 2 + n1, n2);
    let n3 = lemma_multiply_round(program, at, r2);
    let r3 = multiply_round(r2);
    lemma_advance_more(program, s0, 2 + n1 + n2, n3);
    let n4 = lemma_multiply_round(program, at, r3);
    lemma_advance_more(program, s0, 2 + n1 + n2 + n3, n4);
    2 + n1 + n2 + n3 + n4
}

/// The division loop from its first instruction to the instruction behind
/// it.
proof fn lemma_divide(program: Seq<Instruction>, at: int, regs: Seq<RegisterContent>) -> (steps:
    nat)
    requires
        placed(program, at, divide_code(at)),
        program.len() <= usize::MAX,
        regs.len() == 5,
    ensures
        advance(program, State { registers: regs, pc: at }, steps) == (State {
            registers: divided(regs),
            pc: at + 16,
        }),
        divided(regs).len() == 5,
{
    reveal(divide_code);
    let block = divide_code(at);
    let s0 = State { registers: regs, pc: at };
    assert(advance(program, s0, 0) == s0);
    lemma_fetch(program, at, block, 0);
    lemma_advance_once(program, s0, 0, s0);
    let s1 = step(program, s0);
    assert(s1.pc == at + 1);
    lemma_fetch(program, at, block, 1);
    lemma_advance_once(program, s0, 1, s1);
    let s2 = step(program, s1);
    assert(s2.pc == at + 2);
    lemma_fetch(program, at, block, 2);
    lemma_advance_once(program, s0, 2, s2);
    let s3 = step(program, s2);
    let r0 = seq![5i16, 0i16, shift_left(regs[2], 4), regs[3], regs[4]];
    assert(s3.registers =~= r0);
    assert(s3 == State { registers: r0, pc: at + 3 });
    let n1 = lemma_divide_round(program, at, r0);
    let r1 = divide_round(r0);
    lemma_advance_more(program, s0, 3, n1);
    let n2 = lemma_divide_round(program, at, r1);
    let r2 = divide_round(r1);
    lemma_advance_more(program, s0, 3 + n1, n2);
    let n3 = lemma_divide_round(program, at, r2);
    let r3 = divide_round(r2);
    lemma_advance_more(program, s0, 3 + n1 + n2, n3);
    let n4 = lemma_divide_round(program, at, r3);
    let r4 = divide_round(r3);
    lemma_advance_more(program, s0, 3 + n1 + n2 + n3, n4);
    let n5 = lemma_divide_round(program, at, r4);
    let r5 = divide_round(r4);
    lemma_advance_more(program, s0, 3 + n1 + n2 + n3 + n4, n5);
    let s4 = State { registers: r5, pc: at + 15 };
    let n = 3 + n1 + n2 + n3 + n4 + n5;
    assert(advance(program, s0, n) == s4);
    lemma_fetch(program, at, block, 15);
    lemma_advance_once(program, s0, n, s4);
    assert(step(program, s4).registers =~= divided(regs));
    n + 1
}

/// Where the parts of `first + [keep] + second + rest` stand in it.
proof fn lemma_parts(
    first: Seq<Instruction>,
    keep: Instruction,
    second: Seq<Instruction>,
    rest: Seq<Instruction>,
)
    ensures
        ({
            let whole = first + seq![keep] + second + rest;
            let a = first.len() as int;
            let b = second.len() as int;
            &&& whole.len() == a + 1 + b + rest.len()
            &&& whole.subrange(0, a) == first
            &&& whole[a] == keep
            &&& whole.subrange(a + 1, a + 1 + b) == second
            &&& whole.subrange(a + 1 + b, a + 1 + b + rest.len()) == rest
        }),
{
    let whole = first + seq![keep] + second + rest;
    let a = first.len() as int;
    let b = second.len() as int;
    assert(whole.subrange(0, a) =~= first);
    assert(whole.subrange(a + 1, a + 1 + b) =~= second);
    assert(whole.subrange(a + 1 + b, a + 1 + b + rest.len()) =~= rest);
}

/// Where the parts of an operation's code stand in it: the code of `rhs`,
/// one copy, the code of `lhs`, one copy for a multiplication and two for a
/// division, and the loop.
proof fn lemma_layout(node: Node, base: int)
    requires
        !node.has_temp(),
    ensures
        match node {
            Node::MulN { lhs, rhs } => {
                let whole = code(node, base);
                let a = code(*rhs, base).len() as int;
                let b = code(*lhs, base + a + 1).len() as int;
                &&& whole.len() == a + b + 13
                &&& whole.subrange(0, a) == code(*rhs, base)
                &&& whole[a] == Instruction::Copy { src: 3, dest: 2 }
                &&& whole.subrange(a + 1, a + 1 + b) == code(*lhs, base + a + 1)
                &&& whole[a + 1 + b] == Instruction::Copy { src: 3, dest: 1 }
                &&& whole.subrange(a + b + 2, a + b + 13) == multiply_code(base + a + b + 2)
            },
            Node::DivN { lhs, rhs } => {
                let whole = code(node, base);
                let a = code(*rhs, base).len() as int;
                let b = code(*lhs, base + a + 1).len() as int;
                &&& whole.len() == a + b + 19
                &&& whole.subrange(0, a) == code(*rhs, base)
                &&& whole[a] == Instruction::Copy { src: 3, dest: 4 }
                &&& whole.subrange(a + 1, a + 1 + b) == code(*lhs, base + a + 1)
                &&& whole[a + 1 + b] == Instruction::Copy { src: 3, dest: 2 }
                &&& whole[a + b + 2] == Instruction::Copy { src: 4, dest: 3 }
                &&& whole.subrange(a + b + 3, a + b + 19) == divide_code(base + a + b + 3)
            },
            _ => true,
        },
{
    let whole = code(node, base);
    match node {
        Node::MulN { lhs, rhs } => {
            let first = code(*rhs, base);
            let a = first.len() as int;
            let second = code(*lhs, base + a + 1);
            let b = second.len() as int;
            let keep = Instruction::Copy { src: 3, dest: 2 };
            let pass = Instruction::Copy { src: 3, dest: 1 };
            let tail = multiply_code(base + a + b + 2);
            lemma_multiply_code_len(base + a + b + 2);
            let rest = seq![pass] + tail;
            lemma_parts(first, keep, second, rest);
            assert(whole =~= first + seq![keep] + second + rest);
            assert(whole[a + 1 + b] == rest[0]);
            assert(whole.subrange(a + b + 2, a + b + 13) =~= tail) by {
                assert forall|i: int| 0 <= i < 11 implies whole[a + b + 2 + i] == tail[i] by {
                    assert(whole[a + b + 2 + i] == rest[i + 1]);
                }
            }
        },
        Node::DivN { lhs, rhs } => {
            let first = code(*rhs, base);
            let a = first.len() as int;
            let second = code(*lhs, base + a + 1);
            let b = second.len() as int;
            let save = Instruction::Copy { src: 3, dest: 4 };
            let keep = Instruction::Copy { src: 3, dest: 2 };
            let back = Instruction::Copy { src: 4, dest: 3 };
            let tail = divide_code(base + a + b + 3);
            lemma_divide_code_len(base + a + b + 3);
            let rest = seq![keep, back] + tail;
            lemma_parts(first, save, second, rest);
            assert(whole =~= first + seq![save] + second + rest);
            assert(whole[a + 1 + b] == rest[0]);
            assert(whole[a + b + 2] == rest[1]);
            assert(whole.subrange(a + b + 3, a + b + 19) =~= tail) by {
                assert forall|i: int| 0 <= i < 16 implies whole[a + b + 3 + i] == tail[i] by {
                    assert(whole[a + b + 3 + i] == rest[i + 2]);
                }
            }
        },
        _ => {},
    }
}

/// The code of a multiplication, once the code of its operands is known to
/// work them out in `n1` and `n2` instructions.
proof fn lemma_multiplication_runs(
    program: Seq<Instruction>,
    lhs: Node,
    rhs: Node,
    base: int,
    regs: Seq<RegisterContent>,
    n1: nat,
    n2: nat,
) -> (steps: nat)
    requires
        !lhs.has_temp(),
        !rhs.has_temp(),
        placed(program, base, code(Node::MulN { lhs: Box::new(lhs), rhs: Box::new(rhs) }, base)),
        program.len() <= usize::MAX,
        regs.len() == 5,
        evaluated(rhs, regs).len() == 5,
        advance(program, State { registers: regs, pc: base }, n1) == (State {
            registers: evaluated(rhs, regs),
            pc: base + code(rhs, base).len(),
        }),
        evaluated(lhs, evaluated(rhs, regs).update(2, evaluated(rhs, regs)[3])).len() == 5,
        advance(
            program,
            State {
                registers: evaluated(rhs, regs).update(2, evaluated(rhs, regs)[3]),
                pc: base + code(rhs, base).len() + 1,
            },
            n2,
        ) == (State {
            registers: evaluated(
                lhs,
                evaluated(rhs, regs).update(2, evaluated(rhs, regs)[3]),
            ),
            pc: base + code(rhs, base).len() + 1 + code(
                lhs,
                base + code(rhs, base).len() + 1,
            ).len(),
        }),
    ensures
        advance(program, State { registers: regs, pc: base }, steps) == (State {
            registers: evaluated(Node::MulN { lhs: Box::new(lhs), rhs: Box::new(rhs) }, regs),
            pc: base + code(Node::MulN { lhs: Box::new(lhs), rhs: Box::new(rhs) }, base).len(),
        }),
        evaluated(Node::MulN { lhs: Box::new(lhs), rhs: Box::new(rhs) }, regs).len() == 5,
{
    let node = Node::MulN { lhs: Box::new(lhs), rhs: Box::new(rhs) };
    let whole = code(node, base);
    let s0 = State { registers: regs, pc: base };
    lemma_layout(node, base);
    let a = code(rhs, base).len() as int;
    let b = code(lhs, base + a + 1).len() as int;
    let at = base + a + b + 2;
    let r1 = evaluated(rhs, regs);
    let s1 = State { registers: r1, pc: base + a };
    lemma_fetch(program, base, whole, a);
    lemma_advance_once(program, s0, n1, s1);
    let r2 = r1.update(2, r1[3]);
    let s2 = State { registers: r2, pc: base + a + 1 };
    assert(step(program, s1) == s2);
    lemma_advance_more(program, s0, n1 + 1, n2);
    let r3 = evaluated(lhs, r2);
    let s3 = State { registers: r3, pc: base + a + 1 + b };
    assert(advance(program, s0, n1 + 1 + n2) == s3);
    lemma_fetch(program, base, whole, a + 1 + b);
    lemma_advance_once(program, s0, n1 + 1 + n2, s3);
    let r4 = r3.update(1, r3[3]);
    let s4 = State { registers: r4, pc: at };
    assert(step(program, s3) == s4);
    lemma_placed_part(program, base, whole, a + b + 2, multiply_code(at));
    let n3 = lemma_multiply(program, at, r4);
    lemma_advance_more(program, s0, n1 + 1 + n2 + 1, n3);
    n1 + 1 + n2 + 1 + n3
}

/// The code of a division, once the code of its operands is known to work
/// them out in `n1` and `n2` instructions.
proof fn lemma_division_runs(
    program: Seq<Instruction>,
    lhs: Node,
    rhs: Node,
    base: int,
    regs: Seq<RegisterContent>,
    n1: nat,
    n2: nat,
) -> (steps: nat)
    requires
        !lhs.has_temp(),
        !rhs.has_temp(),
        placed(program, base, code(Node::DivN { lhs: Box::new(lhs), rhs: Box::new(rhs) }, base)),
        program.len() <= usize::MAX,
        regs.len() == 5,
        evaluated(rhs, regs).len() == 5,
        advance(program, State { registers: regs, pc: base }, n1) == (State {
            registers: evaluated(rhs, regs),
            pc: base + code(rhs, base).len(),
        }),
        evaluated(lhs, evaluated(rhs, regs).update(4, evaluated(rhs, regs)[3])).len() == 5,
        advance(
            program,
            State {
                registers: evaluated(rhs, regs).update(4, evaluated(rhs, regs)[3]),
                pc: base + code(rhs, base).len() + 1,
            },
            n2,
        ) == (State {
            registers: evaluated(
                lhs,
                evaluated(rhs, regs).update(4, evaluated(rhs, regs)[3]),
            ),
            pc: base + code(rhs, base).len() + 1 + code(
                lhs,
                base + code(rhs, base).len() + 1,
            ).len(),
        }),
    ensures
        advance(program, State { registers: regs, pc: base }, steps) == (State {
            registers: evaluated(Node::DivN { lhs: Box::new(lhs), rhs: Box::new(rhs) }, regs),
            pc: base + code(Node::DivN { lhs: Box::new(lhs), rhs: Box::new(rhs) }, base).len(),
        }),
        evaluated(Node::DivN { lhs: Box::new(lhs), rhs: Box::new(rhs) }, regs).len() == 5,
{
    let node = Node::DivN { lhs: Box::new(lhs), rhs: Box::new(rhs) };
    let whole = code(node, base);
    let s0 = State { registers: regs, pc: base };
    lemma_layout(node, base);
    let a = code(rhs, base).len() as int;
    let b = code(lhs, base + a + 1).len() as int;
    let at = base + a + b + 3;
    let r1 = evaluated(rhs, regs);
    let s1 = State { registers: r1, pc: base + a };
    lemma_fetch(program, base, whole, a);
    lemma_advance_once(program, s0, n1, s1);
    let r2 = r1.update(4, r1[3]);
    let s2 = State { registers: r2, pc: base + a + 1 };
    assert(step(program, s1) == s2);
    lemma_advance_more(program, s0, n1 + 1, n2);
    let r3 = evaluated(lhs, r2);
    let s3 = State { registers: r3, pc: base + a + 1 + b };
    assert(advance(program, s0, n1 + 1 + n2) == s3);
    lemma_fetch(program, base, whole, a + 1 + b);
    lemma_advance_once(program, s0, n1 + 1 + n2, s3);
    let r4 = r3.update(2, r3[3]);
    let s4 = State { registers: r4, pc: base + a + b + 2 };
    assert(step(program, s3) == s4);
    lemma_fetch(program, base, whole, a + b + 2);
    lemma_advance_once(program, s0, n1 + 1 + n2 + 1, s4);
    let r5 = r4.update(3, r4[4]);
    let s5 = State { registers: r5, pc: at };
    assert(step(program, s4) == s5);
    lemma_placed_part(program, base, whole, a + b + 3, divide_code(at));
    let n3 = lemma_divide(program, at, r5);
    lemma_advance_more(program, s0, n1 + 1 + n2 + 2, n3);
    n1 + 1 + n2 + 2 + n3
}

/// The compiled code of a tree does to the registers what the tree says:
/// started at its first instruction, the machine comes to the instruction
/// behind the code with the registers that working out the tree gives.
pub proof fn lemma_code_runs(
    program: Seq<Instruction>,
    node: Node,
    base: int,
    regs: Seq<RegisterContent>,
) -> (steps: nat)
    requires
        !node.has_temp(),
        placed(program, base, code(node, base)),
        program.len() <= usize::MAX,
        regs.len() == 5,
    ensures
        advance(program, State { registers: regs, pc: base }, steps) == (State {
            registers: evaluated(node, regs),
            pc: base + code(node, base).len(),
        }),
        evaluated(node, regs).len() == 5,
    decreases node,
{
    let whole = code(node, base);
    let s0 = State { registers: regs, pc: base };
    match node {
        Node::NumberN(x) => {
            assert(advance(program, s0, 0) == s0);
            lemma_fetch(program, base, whole, 0);
            lemma_advance_once(program, s0, 0, s0);
            1
        },
        Node::MulN { lhs, rhs } => {
            lemma_layout(node, base);
            let a = code(*rhs, base).len() as int;
            lemma_placed_part(program, base, whole, 0, code(*rhs, base));
            let n1 = lemma_code_runs(program, *rhs, base, regs);
            let r1 = evaluated(*rhs, regs);
            lemma_placed_part(program, base, whole, a + 1, code(*lhs, base + a + 1));
            let n2 = lemma_code_runs(program, *lhs, base + a + 1, r1.update(2, r1[3]));
            lemma_multiplication_runs(program, *lhs, *rhs, base, regs, n1, n2)
        },
        Node::DivN { lhs, rhs } => {
            lemma_layout(node, base);
            let a = code(*rhs, base).len() as int;
            lemma_placed_part(program, base, whole, 0, code(*rhs, base));
            let n1 = lemma_code_runs(program, *rhs, base, regs);
            let r1 = evaluated(*rhs, regs);
            lemma_placed_part(program, base, whole, a + 1, code(*lhs, base + a + 1));
            let n2 = lemma_code_runs(program, *lhs, base + a + 1, r1.update(4, r1[3]));
            lemma_division_runs(program, *lhs, *rhs, base, regs, n1, n2)
        },
        Node::Temp(_) => 0,
    }
}

/// The compiled code of several trees works them out one after the other.
pub proof fn lemma_codes_run(
    program: Seq<Instruction>,
    nodes: Seq<Node>,
    base: int,
    regs: Seq<RegisterContent>,
) -> (steps: nat)
    requires
        !any_temp(nodes),
        placed(program, base, codes(nodes, base)),
        program.len() <= usize::MAX,
        regs.len() == 5,
    ensures
        advance(program, State { registers: regs, pc: base }, steps) == (State {
            registers: evaluated_all(nodes, regs),
            pc: base + codes(nodes, base).len(),
        }),
        evaluated_all(nodes, regs).len() == 5,
    decreases nodes.len(),
{
    let s0 = State { registers: regs, pc: base };
    if nodes.len() == 0 {
        assert(advance(program, s0, 0) == s0);
        0
    } else {
        let whole = codes(nodes, base);
        let before = codes(nodes.drop_last(), base);
        let last = code(nodes.last(), base + before.len());
        assert(!nodes.last().has_temp());
        assert(!any_temp(nodes.drop_last())) by {
            if any_temp(nodes.drop_last()) {
                let i = choose|i: int|
                    0 <= i < nodes.drop_last().len() && (#[trigger] nodes.drop_last()[i]).has_temp();
                assert(nodes[i].has_temp());
            }
        }
        assert(whole.subrange(0, before.len() as int) =~= before);
        lemma_placed_part(program, base, whole, 0, before);
        let n1 = lemma_codes_run(program, nodes.drop_last(), base, regs);
        assert(whole.subrange(before.len() as int, (before.len() + last.len()) as int) =~= last);
        lemma_placed_part(program, base, whole, before.len() as int, last);
        let n2 = lemma_code_runs(
            program,
            nodes.last(),
            base + before.len(),
            evaluated_all(nodes.drop_last(), regs),
        );
        lemma_advance_more(program, s0, n1, n2);
        n1 + n2
    }
}

/// Every instruction of the compiled code of a tree fits a program that has
/// room for the code where it stands.
pub proof fn lemma_code_fits(node: Node, base: int, len: nat)
    requires
        !node.has_temp(),
        0 <= base,
        base + code(node, base).len() <= len <= usize::MAX,
    ensures
        forall|i: int| 0 <= i < code(node, base).len() ==> (#[trigger] code(node, base)[i]).fits(len),
    decreases node,
{
    let whole = code(node, base);
    match node {
        Node::NumberN(_) => {},
        Node::MulN { lhs, rhs } => {
            let first = code(*rhs, base);
            let a = first.len() as int;
            let second = code(*lhs, base + a + 1);
            let b = second.len() as int;
            let at = base + a + b + 2;
            let tail = multiply_code(at);
            lemma_multiply_code_len(at);
            lemma_code_fits(*rhs, base, len);
            lemma_code_fits(*lhs, base + a + 1, len);
            assert forall|i: int| 0 <= i < whole.len() implies (#[trigger] whole[i]).fits(len) by {
                reveal(multiply_code);
                if i < a {
                    assert(whole[i] == first[i]);
                } else if i == a {
                } else if i < a + 1 + b {
                    assert(whole[i] == second[i - a - 1]);
                } else if i == a + 1 + b {
                } else {
                    assert(whole[i] == tail[i - a - b - 2]);
                }
            }
        },
        Node::DivN { lhs, rhs } => {
            let first = code(*rhs, base);
            let a = first.len() as int;
            let second = code(*lhs, base + a + 1);
            let b = second.len() as int;
            let at = base + a + b + 3;
            let tail = divide_code(at);
            lemma_divide_code_len(at);
            lemma_code_fits(*rhs, base, len);
            lemma_code_fits(*lhs, base + a + 1, len);
            assert forall|i: int| 0 <= i < whole.len() implies (#[trigger] whole[i]).fits(len) by {
                reveal(divide_code);
                if i < a {
                    assert(whole[i] == first[i]);
                } else if i == a {
                } else if i < a + 1 + b {
                    assert(whole[i] == second[i - a - 1]);
                } else if i < a + b + 3 {
                } else {
                    assert(whole[i] == tail[i - a - b - 3]);
                }
            }
        },
        Node::Temp(_) => {},
    }
}

/// Every instruction of the compiled code of several trees fits a program
/// that has room for the code where it stands.
pub proof fn lemma_codes_fit(nodes: Seq<Node>, base: int, len: nat)
    requires
        !any_temp(nodes),
        0 <= base,
        base + codes(nodes, base).len() <= len <= usize::MAX,
    ensures
        forall|i: int|
            0 <= i < codes(nodes, base).len() ==> (#[trigger] codes(nodes, base)[i]).fits(len),
    decreases nodes.len(),
{
    if nodes.len() > 0 {
        let whole = codes(nodes, base);
        let before = codes(nodes.drop_last(), base);
        let last = code(nodes.last(), base + before.len());
        assert(!nodes.last().has_temp());
        assert(!any_temp(nodes.drop_last())) by {
            if any_temp(nodes.drop_last()) {
                let i = choose|i: int|
                    0 <= i < nodes.drop_last().len() && (#[trigger] nodes.drop_last()[i]).has_temp();
                assert(nodes[i].has_temp());
            }
        }
        lemma_codes_fit(nodes.drop_last(), base, len);
        lemma_code_fits(nodes.last(), base + before.len(), len);
        assert forall|i: int| 0 <= i < whole.len() implies (#[trigger] whole[i]).fits(len) by {
            if i < before.len() {
                assert(whole[i] == before[i]);
            } else {
                assert(whole[i] == last[i - before.len()]);
            }
        }
    }
}

/// A compiled program is well formed: its instructions name registers that
/// exist, shift by less than the register width and jump to instructions of
/// the program.
pub proof fn lemma_program_is_well_formed(nodes: Seq<Node>)
    requires
        !any_temp(nodes),
        codes(nodes, 0).len() <= usize::MAX,
    ensures
        well_formed(codes(nodes, 0)),
{
    lemma_codes_fit(nodes, 0, codes(nodes, 0).len());
}

/// A compiled program does what its trees say: started on any registers it
/// halts behind its last instruction, and then the registers hold what
/// working out the trees one after the other gives.
pub proof fn lemma_program_runs(nodes: Seq<Node>, regs: Seq<RegisterContent>)
    requires
        !any_temp(nodes),
        codes(nodes, 0).len() <= usize::MAX,
        regs.len() == 5,
    ensures
        halts(codes(nodes, 0), start(regs)),
        outcome(codes(nodes, 0), start(regs)) == (State {
            registers: evaluated_all(nodes, regs),
            pc: codes(nodes, 0).len() as int,
        }),
        evaluated_all(nodes, regs).len() == 5,
{
    let program = codes(nodes, 0);
    assert(program.subrange(0, program.len() as int) =~= program);
    let steps = lemma_codes_run(program, nodes, 0, regs);
    lemma_outcome(program, start(regs), steps);
}


/// Whether the program works out the trees: started on any registers it
/// halts behind its last instruction, and then the registers hold what
/// working out the trees one after the other gives.
pub open spec fn works_out(program: Seq<Instruction>, nodes: Seq<Node>) -> bool {
    forall|regs: Seq<RegisterContent>|
        regs.len() == 5 ==> {
            &&& #[trigger] halts(program, start(regs))
            &&& outcome(program, start(regs)) == (State {
                registers: evaluated_all(nodes, regs),
                pc: program.len() as int,
            })
        }
}

/// A compiled program is well formed and works out its trees.
pub proof fn lemma_compiled(nodes: Seq<Node>)
    requires
        !any_temp(nodes),
        codes(nodes, 0).len() <= usize::MAX,
    ensures
        well_formed(codes(nodes, 0)),
        works_out(codes(nodes, 0), nodes),
{
    lemma_program_is_well_formed(nodes);
    assert forall|regs: Seq<RegisterContent>| regs.len() == 5 implies {
        &&& #[trigger] halts(codes(nodes, 0), start(regs))
        &&& outcome(codes(nodes, 0), start(regs)) == (State {
            registers: evaluated_all(nodes, regs),
            pc: codes(nodes, 0).len() as int,
        })
    } by {
        lemma_program_runs(nodes, regs);
    }
}

} // verus!
