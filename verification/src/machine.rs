//! What the generated code computes.
//!
//! [`eval`] gives the language its meaning: the value of a tree and what it
//! stores, or a fault. [`step`] and [`run`] give the instructions theirs on a
//! machine with registers and a memory of 64-bit words, in which the stack
//! grows downwards. [`lemma_code_computes`] shows that the code of a tree
//! computes the value of the tree, and [`lemma_routine_computes`] that the
//! routine of a program returns the result of the program and leaves the
//! caller's registers and memory as they were.

use crate::generator::address_code;
use crate::generator::body_code;
use crate::generator::epilogue;
use crate::generator::prologue;
use crate::generator::code;
use crate::generator::operation_code;
use crate::generator::Instr;
use crate::node::BinOp;
use crate::node::Node;
use crate::node::NodeKind;
use crate::node::valid_slot;
use crate::node::well_formed;
use crate::node::FRAME_SIZE;
use vstd::prelude::*;

verus! {

/// `x` as a 64-bit signed value: the one that differs from `x` by a multiple
/// of 2^64.
#[verifier::opaque]
pub open spec fn wrap(x: int) -> i64 {
    let low = x % 0x1_0000_0000_0000_0000;
    if low >= 0x8000_0000_0000_0000 {
        (low - 0x1_0000_0000_0000_0000) as i64
    } else {
        low as i64
    }
}

/// The quotient of `a` by `b`, rounded towards zero.
pub open spec fn quotient(a: int, b: int) -> int
    recommends
        b != 0,
{
    if a >= 0 && b > 0 {
        a / b
    } else if a >= 0 {
        -(a / (-b))
    } else if b > 0 {
        -((-a) / b)
    } else {
        (-a) / (-b)
    }
}

/// A value that fits in 64 bits stays as it is.
pub proof fn lemma_wrap_fits(x: int)
    requires
        i64::MIN <= x <= i64::MAX,
    ensures
        wrap(x) == x,
{
    reveal(wrap);
    if x >= 0 {
        vstd::arithmetic::div_mod::lemma_small_mod(x as nat, 0x1_0000_0000_0000_0000);
    } else {
        vstd::arithmetic::div_mod::lemma_small_mod(
            (x + 0x1_0000_0000_0000_0000) as nat,
            0x1_0000_0000_0000_0000,
        );
        vstd::arithmetic::div_mod::lemma_mod_add_multiples_vanish(x, 0x1_0000_0000_0000_0000);
    }
}

/// 1 for true and 0 for false.
pub open spec fn truth(b: bool) -> i64 {
    if b {
        1
    } else {
        0
    }
}

/// The result of `op` on `a` and `b`: sums, differences and products wrap
/// round, quotients are rounded towards zero, and comparisons give 1 or 0.
/// A division by zero has no result, nor has one whose quotient does not fit
/// in 64 bits.
pub open spec fn apply(op: BinOp, a: i64, b: i64) -> Option<i64> {
    match op {
        BinOp::Add => Some(wrap(a + b)),
        BinOp::Sub => Some(wrap(a - b)),
        BinOp::Mul => Some(wrap(a * b)),
        BinOp::Div => if b == 0 || quotient(a as int, b as int) > i64::MAX {
            None
        } else {
            Some(quotient(a as int, b as int) as i64)
        },
        BinOp::Eq => Some(truth(a == b)),
        BinOp::Ne => Some(truth(a != b)),
        BinOp::Lt => Some(truth(a < b)),
        BinOp::Le => Some(truth(a <= b)),
    }
}

/// The value of a tree, given what the variables hold, and what they hold
/// after it; or `None` where a division faults.
///
/// The right operand of an operation is evaluated before the left one. An
/// assignment stores the value of its right side and has that value.
pub open spec fn eval(node: Node, frame: Map<int, i64>) -> Option<(i64, Map<int, i64>)>
    decreases node,
{
    match node.kind {
        NodeKind::NumberLiteral(value) => Some((value, frame)),
        NodeKind::Variable(slot) => Some((frame[slot as int], frame)),
        NodeKind::BinaryOp(op, lhs, rhs) => match eval(*rhs, frame) {
            Some((b, after_rhs)) => match eval(*lhs, after_rhs) {
                Some((a, after_lhs)) => match apply(op, a, b) {
                    Some(value) => Some((value, after_lhs)),
                    None => None,
                },
                None => None,
            },
            None => None,
        },
        NodeKind::Assign(target, value) => match eval(*value, frame) {
            Some((stored, after)) => match target.kind {
                NodeKind::Variable(slot) => Some((stored, after.insert(slot as int, stored))),
                _ => None,
            },
            None => None,
        },
        NodeKind::Return(value) => eval(*value, frame),
    }
}

/// The state of the machine: the registers that the routine uses and the
/// memory.
///
/// The memory holds one 64-bit word at each address that the routine
/// reaches. These addresses all differ from the stack pointer by a multiple
/// of 8, so the words do not overlap.
pub struct Machine {
    pub rax: i64,
    pub rdi: i64,
    pub rdx: i64,
    /// The base of the frame.
    pub rbp: i64,
    /// The stack pointer: the address of the word pushed last.
    pub rsp: i64,
    /// The two values that were compared last.
    pub compared: (i64, i64),
    /// The words in memory, by address.
    pub memory: Map<int, i64>,
}

/// Whether `address` is the address of a variable in the frame with the base
/// `rbp`.
pub open spec fn is_cell(rbp: i64, address: int) -> bool {
    valid_slot(rbp - address)
}

/// What the variables hold, by slot.
pub open spec fn frame_of(m: Machine) -> Map<int, i64> {
    Map::new(|slot: int| valid_slot(slot), |slot: int| m.memory[m.rbp - slot])
}

/// `rax` with its lowest byte replaced by `byte`.
pub open spec fn with_low_byte(rax: i64, byte: i64) -> i64 {
    (rax - rax % 256 + byte) as i64
}

/// The machine after `value` is pushed, or `None` where the stack would
/// leave the memory.
pub open spec fn pushed(m: Machine, value: i64) -> Option<Machine> {
    if m.rsp - 8 < i64::MIN {
        None
    } else {
        Some(Machine { rsp: (m.rsp - 8) as i64, memory: m.memory.insert(m.rsp - 8, value), ..m })
    }
}

/// Whether the machine can reach the word at `address`: the address differs
/// from the stack pointer by a multiple of 8.
pub open spec fn reaches(m: Machine, address: i64) -> bool {
    (address - m.rsp) % 8 == 0
}

/// The machine after `instr`, or `None` where the instruction faults: a
/// push or a pop that would leave the memory, an access to memory at an
/// address that the machine cannot reach, a division by zero or one whose
/// quotient does not fit in `rax`.
pub open spec fn step(instr: Instr, m: Machine) -> Option<Machine> {
    match instr {
        Instr::PushImm(value) => pushed(m, value),
        Instr::PushRax => pushed(m, m.rax),
        Instr::PushRdi => pushed(m, m.rdi),
        Instr::PushRbp => pushed(m, m.rbp),
        Instr::PopRax => if m.rsp + 8 > i64::MAX {
            None
        } else {
            Some(Machine { rax: m.memory[m.rsp as int], rsp: (m.rsp + 8) as i64, ..m })
        },
        Instr::PopRdi => if m.rsp + 8 > i64::MAX {
            None
        } else {
            Some(Machine { rdi: m.memory[m.rsp as int], rsp: (m.rsp + 8) as i64, ..m })
        },
        Instr::PopRbp => if m.rsp + 8 > i64::MAX {
            None
        } else {
            Some(Machine { rbp: m.memory[m.rsp as int], rsp: (m.rsp + 8) as i64, ..m })
        },
        Instr::Ret => if m.rsp + 8 > i64::MAX {
            None
        } else {
            Some(Machine { rsp: (m.rsp + 8) as i64, ..m })
        },
        Instr::MovRaxRbp => Some(Machine { rax: m.rbp, ..m }),
        Instr::MovRbpRsp => Some(Machine { rbp: m.rsp, ..m }),
        Instr::MovRspRbp => Some(Machine { rsp: m.rbp, ..m }),
        Instr::SubRaxImm(value) => Some(Machine { rax: wrap(m.rax - value), ..m }),
        Instr::SubRspImm(value) => if m.rsp - value < i64::MIN {
            None
        } else {
            Some(Machine { rsp: (m.rsp - value) as i64, ..m })
        },
        Instr::LoadRax => if reaches(m, m.rax) {
            Some(Machine { rax: m.memory[m.rax as int], ..m })
        } else {
            None
        },
        Instr::StoreRdi => if reaches(m, m.rax) {
            Some(Machine { memory: m.memory.insert(m.rax as int, m.rdi), ..m })
        } else {
            None
        },
        Instr::AddRaxRdi => Some(Machine { rax: wrap(m.rax + m.rdi), ..m }),
        Instr::SubRaxRdi => Some(Machine { rax: wrap(m.rax - m.rdi), ..m }),
        Instr::ImulRaxRdi => Some(Machine { rax: wrap(m.rax * m.rdi), ..m }),
        Instr::Cqo => Some(
            Machine {
                rdx: if m.rax < 0 {
                    -1i64
                } else {
                    0i64
                },
                ..m
            },
        ),
        Instr::IdivRdi => {
            let low = if m.rax < 0 {
                m.rax + 0x1_0000_0000_0000_0000
            } else {
                m.rax as int
            };
            let dividend = m.rdx * 0x1_0000_0000_0000_0000 + low;
            let q = quotient(dividend, m.rdi as int);
            if m.rdi == 0 || q < i64::MIN || q > i64::MAX {
                None
            } else {
                Some(Machine { rax: q as i64, rdx: (dividend - q * m.rdi) as i64, ..m })
            }
        },
        Instr::CompareRaxRdi => Some(Machine { compared: (m.rax, m.rdi), ..m }),
        Instr::SetEqual => Some(
            Machine { rax: with_low_byte(m.rax, truth(m.compared.0 == m.compared.1)), ..m },
        ),
        Instr::SetNotEqual => Some(
            Machine { rax: with_low_byte(m.rax, truth(m.compared.0 != m.compared.1)), ..m },
        ),
        Instr::SetLess => Some(
            Machine { rax: with_low_byte(m.rax, truth(m.compared.0 < m.compared.1)), ..m },
        ),
        Instr::SetLessEqual => Some(
            Machine { rax: with_low_byte(m.rax, truth(m.compared.0 <= m.compared.1)), ..m },
        ),
        Instr::MovzbRaxAl => Some(Machine { rax: (m.rax % 256) as i64, ..m }),
    }
}

/// The machine after the instructions `body`, one after the other, or `None`
/// where one of them faults.
#[verifier::opaque]
pub open spec fn run(body: Seq<Instr>, m: Machine) -> Option<Machine>
    decreases body.len(),
{
    if body.len() == 0 {
        Some(m)
    } else {
        match step(body[0], m) {
            Some(next) => run(body.skip(1), next),
            None => None,
        }
    }
}

/// Running two pieces of code on end is running the first and then the
/// second.
pub proof fn lemma_run_concat(first: Seq<Instr>, second: Seq<Instr>, m: Machine)
    ensures
        run(first + second, m) == match run(first, m) {
            Some(between) => run(second, between),
            None => None,
        },
    decreases first.len(),
{
    reveal(run);
    if first.len() == 0 {
        assert(first + second =~= second);
    } else {
        assert((first + second).skip(1) =~= first.skip(1) + second);
        assert((first + second)[0] == first[0]);
        if let Some(next) = step(first[0], m) {
            lemma_run_concat(first.skip(1), second, next);
        }
    }
}

/// The machine after one more instruction, where it has not faulted yet.
pub open spec fn stepped(m: Option<Machine>, instr: Instr) -> Option<Machine> {
    match m {
        Some(m) => step(instr, m),
        None => None,
    }
}

/// Running code with `instr` in front is one step and then the rest.
proof fn lemma_run_first(instr: Instr, rest: Seq<Instr>, m: Machine)
    ensures
        run(seq![instr] + rest, m) == match step(instr, m) {
            Some(next) => run(rest, next),
            None => None,
        },
{
    reveal(run);
    let body = seq![instr] + rest;
    assert(body[0] == instr);
    assert(body.skip(1) =~= rest);
}

/// Running one instruction is one step.
proof fn lemma_run_1(a: Instr, m: Machine)
    ensures
        run(seq![a], m) == step(a, m),
{
    reveal(run);
    assert(seq![a] =~= seq![a] + Seq::<Instr>::empty());
    lemma_run_first(a, Seq::empty(), m);
}

/// Running two instructions is two steps.
proof fn lemma_run_2(a: Instr, b: Instr, m: Machine)
    ensures
        run(seq![a, b], m) == stepped(step(a, m), b),
{
    assert(seq![a, b] =~= seq![a] + seq![b]);
    lemma_run_first(a, seq![b], m);
    if let Some(next) = step(a, m) {
        lemma_run_1(b, next);
    }
}

/// Running three instructions is three steps.
proof fn lemma_run_3(a: Instr, b: Instr, c: Instr, m: Machine)
    ensures
        run(seq![a, b, c], m) == stepped(stepped(step(a, m), b), c),
{
    assert(seq![a, b, c] =~= seq![a] + seq![b, c]);
    lemma_run_first(a, seq![b, c], m);
    if let Some(next) = step(a, m) {
        lemma_run_2(b, c, next);
    }
}

/// Running four instructions is four steps.
proof fn lemma_run_4(a: Instr, b: Instr, c: Instr, d: Instr, m: Machine)
    ensures
        run(seq![a, b, c, d], m) == stepped(stepped(stepped(step(a, m), b), c), d),
{
    assert(seq![a, b, c, d] =~= seq![a] + seq![b, c, d]);
    lemma_run_first(a, seq![b, c, d], m);
    if let Some(next) = step(a, m) {
        lemma_run_3(b, c, d, next);
    }
}

/// Whether the body of the routine can run from `m` and push `words` words:
/// the frame lies above the stack pointer, and the stack has room below it.
pub open spec fn ready(m: Machine, words: int) -> bool {
    &&& m.rsp <= m.rbp - FRAME_SIZE
    &&& (m.rbp - m.rsp) % 8 == 0
    &&& m.rsp - 8 * words >= i64::MIN
}

/// Whether `after` holds what `before` holds in all words at and above the
/// stack pointer of `before`, but for the variables.
pub open spec fn keeps(before: Machine, after: Machine) -> bool {
    forall|address: int|
        address >= before.rsp && !is_cell(before.rbp, address) ==> #[trigger] after.memory[address]
            == before.memory[address]
}

/// The quotient of two 64-bit values is at most as large as the dividend,
/// whatever their signs.
pub proof fn lemma_quotient_bounds(a: int, b: int)
    requires
        b != 0,
    ensures
        a >= 0 ==> -a <= quotient(a, b) <= a,
        a < 0 ==> a <= quotient(a, b) <= -a,
{
    if a >= 0 && b > 0 {
        vstd::arithmetic::div_mod::lemma_div_nonincreasing(a, b);
        vstd::arithmetic::div_mod::lemma_div_pos_is_pos(a, b);
    } else if a >= 0 {
        vstd::arithmetic::div_mod::lemma_div_nonincreasing(a, -b);
        vstd::arithmetic::div_mod::lemma_div_pos_is_pos(a, -b);
    } else if b > 0 {
        vstd::arithmetic::div_mod::lemma_div_nonincreasing(-a, b);
        vstd::arithmetic::div_mod::lemma_div_pos_is_pos(-a, b);
    } else {
        vstd::arithmetic::div_mod::lemma_div_nonincreasing(-a, -b);
        vstd::arithmetic::div_mod::lemma_div_pos_is_pos(-a, -b);
    }
}

/// Setting the lowest byte of `rax` and then clearing the others leaves the
/// byte.
pub proof fn lemma_low_byte(rax: i64, byte: i64)
    requires
        0 <= byte < 256,
    ensures
        with_low_byte(rax, byte) == rax - rax % 256 + byte,
        with_low_byte(rax, byte) % 256 == byte,
{
    let cleared = rax - rax % 256;
    assert(cleared % 256 == 0 && i64::MIN <= cleared <= i64::MAX - 255) by {
        assert(rax == 256 * (rax / 256) + rax % 256);
    }
    assert((cleared + byte) % 256 == byte);
}

/// What the outcome of an operation's code has to be: the result in `rax`,
/// the memory, the stack pointer and the base of the frame as before, or a
/// fault where there is no result.
pub open spec fn leaves(result: Option<i64>, m: Machine, outcome: Option<Machine>) -> bool {
    match result {
        Some(value) => {
            &&& outcome matches Some(after)
            &&& after.rax == value
            &&& after.memory == m.memory
            &&& after.rsp == m.rsp
            &&& after.rbp == m.rbp
        },
        None => outcome is None,
    }
}

/// A comparison, the instruction that sets the lowest byte of `rax` by its
/// outcome, and the one that clears the other bytes leave 1 or 0 in `rax`.
pub proof fn lemma_comparison_computes(op: BinOp, m: Machine)
    requires
        op == BinOp::Eq || op == BinOp::Ne || op == BinOp::Lt || op == BinOp::Le,
    ensures
        leaves(apply(op, m.rax, m.rdi), m, run(operation_code(op), m)),
{
    let set = match op {
        BinOp::Eq => Instr::SetEqual,
        BinOp::Ne => Instr::SetNotEqual,
        BinOp::Lt => Instr::SetLess,
        _ => Instr::SetLessEqual,
    };
    assert(operation_code(op) == seq![Instr::CompareRaxRdi, set, Instr::MovzbRaxAl]);
    lemma_run_3(Instr::CompareRaxRdi, set, Instr::MovzbRaxAl, m);
    let value = apply(op, m.rax, m.rdi).unwrap();
    lemma_low_byte(m.rax, value);
}

/// The sign extension of `rax` into `rdx` and the division by `rdi` leave the
/// quotient of `rax` by `rdi` in `rax`.
pub proof fn lemma_division_computes(m: Machine)
    ensures
        leaves(apply(BinOp::Div, m.rax, m.rdi), m, run(operation_code(BinOp::Div), m)),
{
    lemma_run_2(Instr::Cqo, Instr::IdivRdi, m);
    let extended = step(Instr::Cqo, m).unwrap();
    let low = if extended.rax < 0 {
        extended.rax + 0x1_0000_0000_0000_0000
    } else {
        extended.rax as int
    };
    let dividend = extended.rdx * 0x1_0000_0000_0000_0000 + low;
    assert(dividend == m.rax);
    if m.rdi != 0 {
        lemma_quotient_bounds(m.rax as int, m.rdi as int);
    }
}

/// The code of an operation leaves the result of the operation on `rax` and
/// `rdi` in `rax`, and faults where the operation has no result. The memory
/// stays as it is.
pub proof fn lemma_operation_code_computes(op: BinOp, m: Machine)
    ensures
        leaves(apply(op, m.rax, m.rdi), m, run(operation_code(op), m)),
{
    match op {
        BinOp::Add => {
            lemma_run_1(Instr::AddRaxRdi, m);
        },
        BinOp::Sub => {
            lemma_run_1(Instr::SubRaxRdi, m);
        },
        BinOp::Mul => {
            lemma_run_1(Instr::ImulRaxRdi, m);
        },
        BinOp::Div => {
            lemma_division_computes(m);
        },
        _ => {
            lemma_comparison_computes(op, m);
        },
    }
}

/// What the outcome of a tree's code has to be: the value of the tree pushed
/// on the stack, the variables as the tree leaves them, and the other words
/// at and above the old stack pointer as they were; or a fault where the tree
/// has no value.
pub open spec fn pushes(
    result: Option<(i64, Map<int, i64>)>,
    m: Machine,
    outcome: Option<Machine>,
) -> bool {
    match result {
        Some((value, frame)) => {
            &&& outcome matches Some(after)
            &&& after.rsp == m.rsp - 8
            &&& after.rbp == m.rbp
            &&& after.memory[after.rsp as int] == value
            &&& frame_of(after) == frame
            &&& keeps(m, after)
        },
        None => outcome is None,
    }
}

/// The code of an address pushes the address of the variable and changes
/// nothing else in memory.
pub proof fn lemma_address_code_computes(slot: usize, m: Machine)
    requires
        valid_slot(slot as int),
        ready(m, 1),
    ensures
        run(address_code(slot), m) == Some(
            Machine {
                rax: (m.rbp - slot) as i64,
                rsp: (m.rsp - 8) as i64,
                memory: m.memory.insert(m.rsp - 8, (m.rbp - slot) as i64),
                ..m
            },
        ),
{
    lemma_run_3(Instr::MovRaxRbp, Instr::SubRaxImm(slot), Instr::PushRax, m);
    lemma_wrap_fits(m.rbp - slot);
}

/// The code of a variable pushes what the variable holds.
pub proof fn lemma_variable_computes(slot: usize, m: Machine)
    requires
        valid_slot(slot as int),
        ready(m, 1),
    ensures
        pushes(
            Some((frame_of(m)[slot as int], frame_of(m))),
            m,
            run(code(Node::variable(slot)), m),
        ),
{
    let read = seq![Instr::PopRax, Instr::LoadRax, Instr::PushRax];
    lemma_run_concat(address_code(slot), read, m);
    lemma_address_code_computes(slot, m);
    let pushed = run(address_code(slot), m).unwrap();
    lemma_run_3(Instr::PopRax, Instr::LoadRax, Instr::PushRax, pushed);
    let after = run(read, pushed).unwrap();
    assert(frame_of(after) =~= frame_of(m));
}

/// The code of a number pushes the number.
pub proof fn lemma_number_computes(value: i64, m: Machine)
    requires
        ready(m, 1),
    ensures
        pushes(Some((value, frame_of(m))), m, run(code(Node::literal(value)), m)),
{
    lemma_run_1(Instr::PushImm(value), m);
    let after = run(code(Node::literal(value)), m).unwrap();
    assert(frame_of(after) =~= frame_of(m));
}

/// The code of an operation computes the operation, if the code of each
/// operand computes the operand: the right one first, then the left one.
pub proof fn lemma_binary_computes(op: BinOp, lhs: Node, rhs: Node, m: Machine)
    requires
        ready(m, 2),
        pushes(eval(rhs, frame_of(m)), m, run(code(rhs), m)),
        run(code(rhs), m) matches Some(m1) ==> pushes(
            eval(lhs, frame_of(m1)),
            m1,
            run(code(lhs), m1),
        ),
    ensures
        pushes(
            eval(Node::binary(op, lhs, rhs), frame_of(m)),
            m,
            run(code(Node::binary(op, lhs, rhs)), m),
        ),
{
    let operands = code(rhs) + code(lhs);
    let pops = seq![Instr::PopRax, Instr::PopRdi];
    let push = seq![Instr::PushRax];
    lemma_run_concat(operands + pops + operation_code(op), push, m);
    lemma_run_concat(operands + pops, operation_code(op), m);
    lemma_run_concat(operands, pops, m);
    lemma_run_concat(code(rhs), code(lhs), m);
    if let Some((b, after_rhs)) = eval(rhs, frame_of(m)) {
        let m1 = run(code(rhs), m).unwrap();
        if let Some((a, after_lhs)) = eval(lhs, after_rhs) {
            let m2 = run(code(lhs), m1).unwrap();
            lemma_run_2(Instr::PopRax, Instr::PopRdi, m2);
            let m3 = run(pops, m2).unwrap();
            assert(m2.memory[m1.rsp as int] == b);
            assert(m3.rax == a && m3.rdi == b);
            lemma_operation_code_computes(op, m3);
            if let Some(value) = apply(op, a, b) {
                let m4 = run(operation_code(op), m3).unwrap();
                lemma_run_1(Instr::PushRax, m4);
                let m5 = run(push, m4).unwrap();
                assert(frame_of(m5) =~= frame_of(m2));
                assert forall|address: int|
                    address >= m.rsp && !is_cell(m.rbp, address) implies (
                    #[trigger] m5.memory[address]) == m.memory[address] by {
                    assert(m2.memory[address] == m1.memory[address]);
                    assert(m1.memory[address] == m.memory[address]);
                }
            }
        }
    }
}

/// The code of an assignment stores the value and leaves it on the stack, if
/// the code of the value computes the value.
pub proof fn lemma_assign_computes(slot: usize, value: Node, m: Machine)
    requires
        valid_slot(slot as int),
        ready(m, 2),
        run(address_code(slot), m) matches Some(m1) ==> pushes(
            eval(value, frame_of(m1)),
            m1,
            run(code(value), m1),
        ),
    ensures
        pushes(
            eval(Node::assignment(Node::variable(slot), value), frame_of(m)),
            m,
            run(code(Node::assignment(Node::variable(slot), value)), m),
        ),
{
    let store = seq![Instr::PopRdi, Instr::PopRax, Instr::StoreRdi, Instr::PushRdi];
    lemma_run_concat(address_code(slot) + code(value), store, m);
    lemma_run_concat(address_code(slot), code(value), m);
    lemma_address_code_computes(slot, m);
    let m1 = run(address_code(slot), m).unwrap();
    assert(frame_of(m1) =~= frame_of(m));
    if let Some((stored, after)) = eval(value, frame_of(m)) {
        let m2 = run(code(value), m1).unwrap();
        lemma_run_4(Instr::PopRdi, Instr::PopRax, Instr::StoreRdi, Instr::PushRdi, m2);
        let m3 = run(store, m2).unwrap();
        assert(m2.memory[m1.rsp as int] == m.rbp - slot);
        assert(frame_of(m3) =~= after.insert(slot as int, stored)) by {
            assert(frame_of(m2) == after);
            assert forall|k: int| valid_slot(k) implies #[trigger] frame_of(m3)[k] == after.insert(
                slot as int,
                stored,
            )[k] by {
                assert(frame_of(m2)[k] == m2.memory[m2.rbp - k]);
            }
        }
        assert forall|address: int|
            address >= m.rsp && !is_cell(m.rbp, address) implies #[trigger] m3.memory[address]
                == m.memory[address] by {
            assert(m2.memory[address] == m1.memory[address]);
        }
    }
}

/// The number of words that the code of a tree needs on the stack at most:
/// no more than it has instructions.
pub open spec fn words(node: Node) -> int {
    code(node).len() as int
}

/// The code of a tree computes the value of the tree: from any state of the
/// machine in which the stack has room, it pushes that value, keeps what lies
/// at and above the stack pointer, and stores what the tree assigns; it
/// faults where the tree has no value.
pub proof fn lemma_code_computes(node: Node, m: Machine)
    requires
        well_formed(node),
        ready(m, words(node)),
    ensures
        pushes(eval(node, frame_of(m)), m, run(code(node), m)),
    decreases node,
{
    match node {
        Node { kind: NodeKind::NumberLiteral(value) } => {
            lemma_number_computes(value, m);
        },
        Node { kind: NodeKind::Variable(slot) } => {
            lemma_variable_computes(slot, m);
        },
        Node { kind: NodeKind::BinaryOp(op, lhs, rhs) } => {
            assert(operation_code(op).len() >= 1);
            lemma_code_computes(*rhs, m);
            if let Some(m1) = run(code(*rhs), m) {
                lemma_code_computes(*lhs, m1);
            }
            lemma_binary_computes(op, *lhs, *rhs, m);
        },
        Node { kind: NodeKind::Assign(target, value) } => {
            let slot = target.kind->Variable_0;
            assert(well_formed(*target));
            lemma_address_code_computes(slot, m);
            if let Some(m1) = run(address_code(slot), m) {
                lemma_code_computes(*value, m1);
            }
            lemma_assign_computes(slot, *value, m);
            assert(*target == Node::variable(slot));
        },
        Node { kind: NodeKind::Return(value) } => {
            lemma_code_computes(*value, m);
        },
    }
}

/// What a sequence of statements leaves in `rax` and in the variables: each
/// statement is evaluated in its turn, and the value of the last one is the
/// result. Without a statement, `rax` stays as it is.
pub open spec fn result_of(statements: Seq<Node>, rax: i64, frame: Map<int, i64>) -> Option<
    (i64, Map<int, i64>),
>
    decreases statements.len(),
{
    if statements.len() == 0 {
        Some((rax, frame))
    } else {
        match result_of(statements.drop_last(), rax, frame) {
            Some((_, before)) => eval(statements.last(), before),
            None => None,
        }
    }
}

/// The code of a sequence of statements computes their result: it leaves the
/// value of the last statement in `rax`, the stack pointer where it was, the
/// variables as the statements leave them, and the other words at and above
/// the stack pointer as they were; it faults where a statement has no value.
pub proof fn lemma_body_computes(statements: Seq<Node>, m: Machine)
    requires
        forall|i: int| 0 <= i < statements.len() ==> well_formed(#[trigger] statements[i]),
        ready(m, body_code(statements).len() as int),
    ensures
        match result_of(statements, m.rax, frame_of(m)) {
            Some((value, frame)) => {
                &&& run(body_code(statements), m) matches Some(after)
                &&& after.rax == value
                &&& frame_of(after) == frame
                &&& after.rsp == m.rsp
                &&& after.rbp == m.rbp
                &&& keeps(m, after)
            },
            None => run(body_code(statements), m) is None,
        },
    decreases statements.len(),
{
    if statements.len() > 0 {
        let before = statements.drop_last();
        let last = statements.last();
        lemma_body_computes(before, m);
        lemma_run_concat(body_code(before) + code(last), seq![Instr::PopRax], m);
        lemma_run_concat(body_code(before), code(last), m);
        if let Some((_, frame)) = result_of(before, m.rax, frame_of(m)) {
            let m1 = run(body_code(before), m).unwrap();
            lemma_code_computes(last, m1);
            if let Some((value, after)) = eval(last, frame) {
                let m2 = run(code(last), m1).unwrap();
                lemma_run_1(Instr::PopRax, m2);
                let m3 = run(seq![Instr::PopRax], m2).unwrap();
                assert(frame_of(m3) =~= frame_of(m2));
                assert forall|address: int|
                    address >= m.rsp && !is_cell(m.rbp, address) implies (
                    #[trigger] m3.memory[address]) == m.memory[address] by {
                    assert(m2.memory[address] == m1.memory[address]);
                    assert(m1.memory[address] == m.memory[address]);
                }
            }
        }
    } else {
        reveal(run);
    }
}

/// An assignment is an expression: it has the value of its right side, the
/// variable holds that value afterwards, and a read of the variable gives it
/// back.
pub proof fn lemma_assignment_is_expression(slot: usize, value: Node, frame: Map<int, i64>)
    ensures
        match eval(value, frame) {
            Some((stored, after)) => {
                let holds = after.insert(slot as int, stored);
                &&& eval(Node::assignment(Node::variable(slot), value), frame) == Some(
                    (stored, holds),
                )
                &&& eval(Node::variable(slot), holds) == Some((stored, holds))
            },
            None => eval(Node::assignment(Node::variable(slot), value), frame) is None,
        },
{
}

/// What the variables hold when the routine is entered in the state `m`:
/// what lies in memory where the routine puts its frame.
pub open spec fn entry_frame(m: Machine) -> Map<int, i64> {
    Map::new(|slot: int| valid_slot(slot), |slot: int| m.memory[m.rsp - 8 - slot])
}

/// Whether the routine with the body `body` can be entered in the state `m`:
/// the stack has room for the caller's base, the frame and the words that the
/// body pushes, and the return address lies on it.
pub open spec fn enters(m: Machine, body: Seq<Instr>) -> bool {
    &&& m.rsp + 8 <= i64::MAX
    &&& m.rsp - 8 - FRAME_SIZE - 8 * body.len() >= i64::MIN
}

/// What the outcome of a routine has to be, where its statements have the
/// result `result`: the value in `rax`, the caller's base and stack pointer
/// as before the call, and the memory at and above the return address as it
/// was; or a fault where there is no result.
pub open spec fn comes_back(
    result: Option<(i64, Map<int, i64>)>,
    m: Machine,
    outcome: Option<Machine>,
) -> bool {
    match result {
        Some((value, _)) => {
            &&& outcome matches Some(end)
            &&& end.rax == value
            &&& end.rbp == m.rbp
            &&& end.rsp == m.rsp + 8
            &&& forall|address: int|
                address >= m.rsp ==> #[trigger] end.memory[address] == m.memory[address]
        },
        None => outcome is None,
    }
}

/// The prologue saves the caller's base and puts the frame below it.
pub proof fn lemma_prologue_computes(m: Machine)
    requires
        m.rsp - 8 - FRAME_SIZE >= i64::MIN,
    ensures
        run(prologue(), m) == Some(
            Machine {
                rbp: (m.rsp - 8) as i64,
                rsp: (m.rsp - 8 - FRAME_SIZE) as i64,
                memory: m.memory.insert(m.rsp - 8, m.rbp),
                ..m
            },
        ),
{
    lemma_run_3(Instr::PushRbp, Instr::MovRbpRsp, Instr::SubRspImm(FRAME_SIZE), m);
}

/// The epilogue takes the caller's base from where the prologue has saved
/// it, and the return address off the stack.
pub proof fn lemma_epilogue_computes(m: Machine)
    requires
        m.rbp + 16 <= i64::MAX,
    ensures
        run(epilogue(), m) == Some(
            Machine { rbp: m.memory[m.rbp as int], rsp: (m.rbp + 16) as i64, ..m },
        ),
{
    lemma_run_3(Instr::MovRspRbp, Instr::PopRbp, Instr::Ret, m);
}

/// The routine of a sequence of statements computes their result: entered by
/// a call, it returns with the value of the last statement in `rax`, and it
/// leaves the caller's base, the stack pointer and the memory above the stack
/// pointer as a routine has to. It faults where a statement has no value.
pub proof fn lemma_routine_computes(statements: Seq<Node>, m: Machine)
    requires
        forall|i: int| 0 <= i < statements.len() ==> well_formed(#[trigger] statements[i]),
        enters(m, body_code(statements)),
    ensures
        comes_back(
            result_of(statements, m.rax, entry_frame(m)),
            m,
            run(prologue() + body_code(statements) + epilogue(), m),
        ),
{
    let body = body_code(statements);
    lemma_run_concat(prologue() + body, epilogue(), m);
    lemma_run_concat(prologue(), body, m);
    lemma_prologue_computes(m);
    let m1 = run(prologue(), m).unwrap();
    assert(frame_of(m1) =~= entry_frame(m));
    lemma_body_computes(statements, m1);
    if let Some((value, _)) = result_of(statements, m.rax, entry_frame(m)) {
        let m2 = run(body, m1).unwrap();
        lemma_epilogue_computes(m2);
        let end = run(epilogue(), m2).unwrap();
        assert(m2.memory[m.rsp - 8] == m1.memory[m.rsp - 8]);
        assert forall|address: int| address >= m.rsp implies #[trigger] end.memory[address]
            == m.memory[address] by {
            assert(m2.memory[address] == m1.memory[address]);
        }
    }
}

} // verus!
