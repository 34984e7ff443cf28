//! The code generator: from syntax trees to assembly lines for a stack
//! machine.
//!
//! The code of a tree leaves the value of the tree on top of the stack and
//! takes nothing from below it. [`code`] says which instructions a tree
//! yields, [`program_lines`] which lines a program yields; [`gen`] and
//! [`gen_program`] compute them.

use crate::decimal::decimal;
use crate::decimal::decimal_string;
use crate::decimal::lemma_decimal_tells_number;
use crate::decimal::lemma_digits_denote;
use crate::node::BinOp;
use crate::node::FRAME_SIZE;
use crate::node::Node;
use crate::node::NodeKind;
use crate::node::well_formed;
use vstd::prelude::*;
use vstd::string::*;

verus! {

/// One instruction of the routine.
#[derive(Clone, Copy, Debug, PartialEq, Eq, Structural)]
pub enum Instr {
    /// `push` with a constant.
    PushImm(i64),
    /// `push rax`
    PushRax,
    /// `push rdi`
    PushRdi,
    /// `pop rax`
    PopRax,
    /// `pop rdi`
    PopRdi,
    /// `mov rax, rbp`
    MovRaxRbp,
    /// `sub rax,` with a constant.
    SubRaxImm(usize),
    /// `mov rax, [rax]`
    LoadRax,
    /// `mov [rax], rdi`
    StoreRdi,
    /// `add rax, rdi`
    AddRaxRdi,
    /// `sub rax, rdi`
    SubRaxRdi,
    /// `imul rax, rdi`
    ImulRaxRdi,
    /// `cqo`
    Cqo,
    /// `idiv rdi`
    IdivRdi,
    /// The comparison of `rax` with `rdi`.
    CompareRaxRdi,
    /// `sete al`
    SetEqual,
    /// `setne al`
    SetNotEqual,
    /// `setl al`
    SetLess,
    /// `setle al`
    SetLessEqual,
    /// `movzb rax, al`
    MovzbRaxAl,
    /// `push rbp`
    PushRbp,
    /// `mov rbp, rsp`
    MovRbpRsp,
    /// `sub rsp,` with a constant.
    SubRspImm(usize),
    /// `mov rsp, rbp`
    MovRspRbp,
    /// `pop rbp`
    PopRbp,
    /// `ret`
    Ret,
}

impl Instr {
    /// The line of assembly text of the instruction.
    pub open spec fn line(self) -> Seq<char> {
        match self {
            Instr::PushImm(value) => "  push "@ + decimal(value as int),
            Instr::PushRax => "  push rax"@,
            Instr::PushRdi => "  push rdi"@,
            Instr::PopRax => "  pop rax"@,
            Instr::PopRdi => "  pop rdi"@,
            Instr::MovRaxRbp => "  mov rax, rbp"@,
            Instr::SubRaxImm(value) => "  sub rax, "@ + decimal(value as int),
            Instr::LoadRax => "  mov rax, [rax]"@,
            Instr::StoreRdi => "  mov [rax], rdi"@,
            Instr::AddRaxRdi => "  add rax, rdi"@,
            Instr::SubRaxRdi => "  sub rax, rdi"@,
            Instr::ImulRaxRdi => "  imul rax, rdi"@,
            Instr::Cqo => "  cqo"@,
            Instr::IdivRdi => "  idiv rdi"@,
            Instr::CompareRaxRdi => "  cmp rax, rdi"@,
            Instr::SetEqual => "  sete al"@,
            Instr::SetNotEqual => "  setne al"@,
            Instr::SetLess => "  setl al"@,
            Instr::SetLessEqual => "  setle al"@,
            Instr::MovzbRaxAl => "  movzb rax, al"@,
            Instr::PushRbp => "  push rbp"@,
            Instr::MovRbpRsp => "  mov rbp, rsp"@,
            Instr::SubRspImm(value) => "  sub rsp, "@ + decimal(value as int),
            Instr::MovRspRbp => "  mov rsp, rbp"@,
            Instr::PopRbp => "  pop rbp"@,
            Instr::Ret => "  ret"@,
        }
    }
}

impl Instr {
    /// Writes out the line of assembly text of the instruction.
    pub fn text(&self) -> (s: String)
        ensures
            s@ == self.line(),
    {
        match self {
            Instr::PushImm(value) => String::from_str("  push ").concat(
                decimal_string(*value).as_str(),
            ),
            Instr::PushRax => String::from_str("  push rax"),
            Instr::PushRdi => String::from_str("  push rdi"),
            Instr::PopRax => String::from_str("  pop rax"),
            Instr::PopRdi => String::from_str("  pop rdi"),
            Instr::MovRaxRbp => String::from_str("  mov rax, rbp"),
            Instr::SubRaxImm(value) => String::from_str("  sub rax, ").concat(
                unsigned_string(*value).as_str(),
            ),
            Instr::LoadRax => String::from_str("  mov rax, [rax]"),
            Instr::StoreRdi => String::from_str("  mov [rax], rdi"),
            Instr::AddRaxRdi => String::from_str("  add rax, rdi"),
            Instr::SubRaxRdi => String::from_str("  sub rax, rdi"),
            Instr::ImulRaxRdi => String::from_str("  imul rax, rdi"),
            Instr::Cqo => String::from_str("  cqo"),
            Instr::IdivRdi => String::from_str("  idiv rdi"),
            Instr::CompareRaxRdi => String::from_str("  cmp rax, rdi"),
            Instr::SetEqual => String::from_str("  sete al"),
            Instr::SetNotEqual => String::from_str("  setne al"),
            Instr::SetLess => String::from_str("  setl al"),
            Instr::SetLessEqual => String::from_str("  setle al"),
            Instr::MovzbRaxAl => String::from_str("  movzb rax, al"),
            Instr::PushRbp => String::from_str("  push rbp"),
            Instr::MovRbpRsp => String::from_str("  mov rbp, rsp"),
            Instr::SubRspImm(value) => String::from_str("  sub rsp, ").concat(
                unsigned_string(*value).as_str(),
            ),
            Instr::MovRspRbp => String::from_str("  mov rsp, rbp"),
            Instr::PopRbp => String::from_str("  pop rbp"),
            Instr::Ret => String::from_str("  ret"),
        }
    }
}

/// Why a program has no code.
#[derive(Clone, Copy, Debug, PartialEq, Eq, Structural)]
pub enum CodegenError {
    /// The target of an assignment is not a variable, so it has no address.
    NotAVariable,
}

/// The code that leaves the address of the variable at `slot` on the stack.
pub open spec fn address_code(slot: usize) -> Seq<Instr> {
    seq![Instr::MovRaxRbp, Instr::SubRaxImm(slot), Instr::PushRax]
}

/// The code that applies `op` to `rax` and `rdi` and leaves the result in
/// `rax`.
pub open spec fn operation_code(op: BinOp) -> Seq<Instr> {
    match op {
        BinOp::Add => seq![Instr::AddRaxRdi],
        BinOp::Sub => seq![Instr::SubRaxRdi],
        BinOp::Mul => seq![Instr::ImulRaxRdi],
        BinOp::Div => seq![Instr::Cqo, Instr::IdivRdi],
        BinOp::Eq => seq![Instr::CompareRaxRdi, Instr::SetEqual, Instr::MovzbRaxAl],
        BinOp::Ne => seq![Instr::CompareRaxRdi, Instr::SetNotEqual, Instr::MovzbRaxAl],
        BinOp::Lt => seq![Instr::CompareRaxRdi, Instr::SetLess, Instr::MovzbRaxAl],
        BinOp::Le => seq![Instr::CompareRaxRdi, Instr::SetLessEqual, Instr::MovzbRaxAl],
    }
}

/// Whether every assignment in the tree has a variable as its target.
pub open spec fn assignable(node: Node) -> bool
    decreases node,
{
    match node.kind {
        NodeKind::NumberLiteral(_) => true,
        NodeKind::Variable(_) => true,
        NodeKind::BinaryOp(_, lhs, rhs) => assignable(*rhs) && assignable(*lhs),
        NodeKind::Assign(target, value) => target.is_variable() && assignable(*value),
        NodeKind::Return(value) => assignable(*value),
    }
}

/// The code of the address of `node`, which has one if it is a variable.
pub open spec fn lval_code(node: Node) -> Seq<Instr> {
    match node.kind {
        NodeKind::Variable(slot) => address_code(slot),
        _ => Seq::empty(),
    }
}

/// The code of a tree: it leaves the value of the tree on the stack.
///
/// A number pushes its value. A variable pushes its address, then replaces
/// the address by what is stored there. An assignment pushes the address of
/// its target and the value, stores the value at the address and leaves the
/// value. An operation pushes its right operand, then its left one, takes
/// the left one into `rax` and the right one into `rdi`, and pushes the
/// result. What is returned is computed like any other value.
pub open spec fn code(node: Node) -> Seq<Instr>
    decreases node,
{
    match node.kind {
        NodeKind::NumberLiteral(value) => seq![Instr::PushImm(value)],
        NodeKind::Variable(slot) => address_code(slot) + seq![
            Instr::PopRax,
            Instr::LoadRax,
            Instr::PushRax,
        ],
        NodeKind::BinaryOp(op, lhs, rhs) => code(*rhs) + code(*lhs) + seq![
            Instr::PopRax,
            Instr::PopRdi,
        ] + operation_code(op) + seq![Instr::PushRax],
        NodeKind::Assign(target, value) => lval_code(*target) + code(*value) + seq![
            Instr::PopRdi,
            Instr::PopRax,
            Instr::StoreRdi,
            Instr::PushRdi,
        ],
        NodeKind::Return(value) => code(*value),
    }
}

/// Writes out `n` in decimal.
fn unsigned_string(n: usize) -> (s: String)
    ensures
        s@ == decimal(n as int),
{
    crate::decimal::digits_string(n as u64)
}

/// Generates the code that leaves the address of `node` on the stack.
pub fn gen_lval(node: &Node) -> (r: Result<Vec<Instr>, CodegenError>)
    ensures
        match r {
            Ok(assembly) => node.is_variable() && assembly@ == lval_code(*node),
            Err(e) => !node.is_variable() && e == CodegenError::NotAVariable,
        },
{
    match &node.kind {
        NodeKind::Variable(offset) => {
            let mut assembly: Vec<Instr> = Vec::new();
            assembly.push(Instr::MovRaxRbp);
            assembly.push(Instr::SubRaxImm(*offset));
            assembly.push(Instr::PushRax);
            assert(assembly@ =~= address_code(*offset));
            Ok(assembly)
        },
        _ => Err(CodegenError::NotAVariable),
    }
}

/// Generates the code of `node`, and tells whether `node` says what the
/// routine returns.
pub fn gen(node: &Node) -> (r: Result<(Vec<Instr>, bool), CodegenError>)
    ensures
        match r {
            Ok((assembly, returned)) => {
                &&& assignable(*node)
                &&& assembly@ == code(*node)
                &&& returned == (node.kind is Return)
            },
            Err(e) => !assignable(*node) && e == CodegenError::NotAVariable,
        },
    decreases node,
{
    let mut assembly: Vec<Instr> = Vec::new();
    match &node.kind {
        NodeKind::NumberLiteral(num) => {
            assembly.push(Instr::PushImm(*num));
            assert(assembly@ =~= code(*node));
            Ok((assembly, false))
        },
        NodeKind::Variable(_) => {
            let mut address = gen_lval(node)?;
            assembly.append(&mut address);
            assembly.push(Instr::PopRax);
            assembly.push(Instr::LoadRax);
            assembly.push(Instr::PushRax);
            assert(assembly@ =~= code(*node));
            Ok((assembly, false))
        },
        NodeKind::Return(lhs) => {
            let (mut generated, _) = gen(lhs)?;
            assembly.append(&mut generated);
            assert(assembly@ =~= code(*node));
            Ok((assembly, true))
        },
        NodeKind::Assign(lhs, rhs) => {
            let mut address = gen_lval(lhs)?;
            assembly.append(&mut address);
            let (mut generated, _) = gen(rhs)?;
            assembly.append(&mut generated);
            assembly.push(Instr::PopRdi);
            assembly.push(Instr::PopRax);
            assembly.push(Instr::StoreRdi);
            assembly.push(Instr::PushRdi);
            assert(assembly@ =~= code(*node));
            Ok((assembly, false))
        },
        NodeKind::BinaryOp(op, lhs, rhs) => {
            let (mut generated, _) = gen(rhs)?;
            assembly.append(&mut generated);
            let (mut generated, _) = gen(lhs)?;
            assembly.append(&mut generated);
            assembly.push(Instr::PopRax);
            assembly.push(Instr::PopRdi);
            match op {
                BinOp::Add => {
                    assembly.push(Instr::AddRaxRdi);
                },
                BinOp::Sub => {
                    assembly.push(Instr::SubRaxRdi);
                },
                BinOp::Mul => {
                    assembly.push(Instr::ImulRaxRdi);
                },
                BinOp::Div => {
                    assembly.push(Instr::Cqo);
                    assembly.push(Instr::IdivRdi);
                },
                BinOp::Eq => {
                    assembly.push(Instr::CompareRaxRdi);
                    assembly.push(Instr::SetEqual);
                    assembly.push(Instr::MovzbRaxAl);
                },
                BinOp::Ne => {
                    assembly.push(Instr::CompareRaxRdi);
                    assembly.push(Instr::SetNotEqual);
                    assembly.push(Instr::MovzbRaxAl);
                },
                BinOp::Lt => {
                    assembly.push(Instr::CompareRaxRdi);
                    assembly.push(Instr::SetLess);
                    assembly.push(Instr::MovzbRaxAl);
                },
                BinOp::Le => {
                    assembly.push(Instr::CompareRaxRdi);
                    assembly.push(Instr::SetLessEqual);
                    assembly.push(Instr::MovzbRaxAl);
                },
            }
            assembly.push(Instr::PushRax);
            assert(assembly@ =~= code(*node));
            Ok((assembly, false))
        },
    }
}

/// The statements of `program` that get code: those up to the first one that
/// says what the routine returns, and that one.
pub open spec fn emitted(program: Seq<Node>) -> Seq<Node>
    decreases program.len(),
{
    if program.len() == 0 {
        Seq::empty()
    } else if program[0].kind is Return {
        seq![program[0]]
    } else {
        seq![program[0]] + emitted(program.skip(1))
    }
}

/// The code of a sequence of statements: the code of each, in their order,
/// followed each time by the instruction that takes its value off the stack
/// into `rax`.
pub open spec fn body_code(statements: Seq<Node>) -> Seq<Instr>
    decreases statements.len(),
{
    if statements.len() == 0 {
        Seq::empty()
    } else {
        body_code(statements.drop_last()) + code(statements.last()) + seq![Instr::PopRax]
    }
}

/// The instructions before the body: they save the caller's frame, begin
/// the routine's at the top of the stack, and reserve it, with room for every
/// slot that the parser hands out.
pub open spec fn prologue() -> Seq<Instr> {
    seq![Instr::PushRbp, Instr::MovRbpRsp, Instr::SubRspImm(FRAME_SIZE)]
}

/// The instructions after the body: they give the frame up, take the
/// caller's up again, and return, with the result in `rax`.
pub open spec fn epilogue() -> Seq<Instr> {
    seq![Instr::MovRspRbp, Instr::PopRbp, Instr::Ret]
}

/// The instructions of the routine of a program.
pub open spec fn routine(program: Seq<Node>) -> Seq<Instr> {
    prologue() + body_code(emitted(program)) + epilogue()
}

/// The lines before the instructions: the directives and the label of the
/// routine.
pub open spec fn directive_lines() -> Seq<Seq<char>> {
    seq![".intel_syntax noprefix"@, ".global main"@, "main:"@]
}

/// The lines of the instructions `body`.
pub open spec fn instr_lines(body: Seq<Instr>) -> Seq<Seq<char>> {
    body.map_values(|instr: Instr| instr.line())
}

/// The assembly text of a program, line by line.
pub open spec fn program_lines(program: Seq<Node>) -> Seq<Seq<char>> {
    directive_lines() + instr_lines(routine(program))
}

/// The lines that `lines` holds.
pub open spec fn line_views(lines: Seq<String>) -> Seq<Seq<char>> {
    lines.map_values(|line: String| line@)
}

/// Whether a program has code: every assignment in the statements that get
/// code has a variable as its target.
pub open spec fn generates(program: Seq<Node>) -> bool {
    forall|i: int| 0 <= i < emitted(program).len() ==> assignable(#[trigger] emitted(program)[i])
}

/// The statements that get code are the first ones of the program.
pub proof fn lemma_emitted_is_prefix(program: Seq<Node>)
    ensures
        emitted(program).is_prefix_of(program),
        emitted(program).len() == program.len() || emitted(program).last().kind is Return,
        forall|i: int|
            0 <= i < emitted(program).len() - 1 ==> !((#[trigger] program[i]).kind is Return),
    decreases program.len(),
{
    let e = emitted(program);
    if program.len() == 0 {
        assert(e =~= program.subrange(0, 0));
    } else if program[0].kind is Return {
        assert(e =~= program.subrange(0, 1));
    } else {
        let tail = program.skip(1);
        lemma_emitted_is_prefix(tail);
        assert(e =~= program.subrange(0, e.len() as int)) by {
            assert forall|i: int| 0 <= i < e.len() implies e[i] == program[i] by {
                if i > 0 {
                    let kept = emitted(tail);
                    assert(kept[i - 1] == tail.subrange(0, kept.len() as int)[i - 1]);
                }
            }
        }
        assert forall|i: int| 0 <= i < e.len() - 1 implies !((#[trigger] program[i]).kind
            is Return) by {
            if i > 0 {
                assert(program[i] == tail[i - 1]);
            }
        }
        if e.len() != program.len() {
            assert(e.last() == emitted(tail).last());
        }
    }
}

/// The first `n` statements get code if none before the last of them says
/// what the routine returns, and no others do if the last of them does or the
/// program ends there.
pub proof fn lemma_emitted_upto(program: Seq<Node>, n: int)
    requires
        0 <= n <= program.len(),
        forall|i: int| 0 <= i < n - 1 ==> !((#[trigger] program[i]).kind is Return),
        n == program.len() || (n > 0 && program[n - 1].kind is Return),
    ensures
        emitted(program) == program.take(n),
    decreases n,
{
    if program.len() == 0 {
        assert(program.take(n) =~= Seq::<Node>::empty());
    } else if n == 0 {
        assert(program.take(n) =~= Seq::<Node>::empty());
    } else if program[0].kind is Return {
        assert(n == 1);
        assert(program.take(n) =~= seq![program[0]]);
    } else {
        let tail = program.skip(1);
        assert forall|i: int| 0 <= i < n - 2 implies !((#[trigger] tail[i]).kind is Return) by {
            assert(tail[i] == program[i + 1]);
        }
        if n != program.len() {
            assert(tail[n - 2] == program[n - 1]);
        }
        lemma_emitted_upto(tail, n - 1);
        assert(program.take(n) =~= seq![program[0]] + tail.take(n - 1));
    }
}

/// Generates the assembly text of `program`, line by line: the directives,
/// the prologue, the code of the statements up to the first that returns, and
/// the epilogue.
pub fn gen_program(program: &Vec<Node>) -> (r: Result<Vec<String>, CodegenError>)
    ensures
        match r {
            Ok(assembly) => generates(program@) && line_views(assembly@) == program_lines(
                program@,
            ),
            Err(e) => !generates(program@) && e == CodegenError::NotAVariable,
        },
{
    let mut body: Vec<Instr> = Vec::new();
    body.push(Instr::PushRbp);
    body.push(Instr::MovRbpRsp);
    body.push(Instr::SubRspImm(FRAME_SIZE));
    assert(body@ =~= prologue() + body_code(program@.take(0)));
    let mut i: usize = 0;
    let mut done = false;
    while i < program.len() && !done
        invariant
            i <= program.len(),
            forall|j: int| 0 <= j < i - 1 ==> !((#[trigger] program@[j]).kind is Return),
            done ==> i > 0 && program@[i - 1].kind is Return,
            !done && i > 0 ==> !(program@[i - 1].kind is Return),
            forall|j: int| 0 <= j < i ==> assignable(#[trigger] program@[j]),
            body@ == prologue() + body_code(program@.take(i as int)),
        decreases program.len() - i,
    {
        match gen(&program[i]) {
            Ok((mut generated, returned)) => {
                body.append(&mut generated);
                body.push(Instr::PopRax);
                done = returned;
                proof {
                    let now = program@.take(i + 1);
                    assert(now.drop_last() =~= program@.take(i as int));
                    assert(body@ =~= prologue() + body_code(now));
                }
                i += 1;
            },
            Err(e) => {
                proof {
                    lemma_emitted_is_prefix(program@);
                    let kept = emitted(program@);
                    if kept.len() <= i {
                        if kept.len() > 0 {
                            let last = kept.len() - 1;
                            assert(kept.last() == program@.subrange(0, kept.len() as int)[last]);
                        }
                        assert(false);
                    }
                    assert(kept[i as int] == program@.subrange(0, kept.len() as int)[i as int]);
                }
                return Err(e);
            },
        }
    }
    proof {
        lemma_emitted_upto(program@, i as int);
        assert forall|j: int| 0 <= j < emitted(program@).len() implies assignable(
            #[trigger] emitted(program@)[j],
        ) by {
            assert(emitted(program@)[j] == program@[j]);
        }
    }
    body.push(Instr::MovRspRbp);
    body.push(Instr::PopRbp);
    body.push(Instr::Ret);
    assert(body@ =~= routine(program@));
    let mut assembly: Vec<String> = Vec::new();
    assembly.push(String::from_str(".intel_syntax noprefix"));
    assembly.push(String::from_str(".global main"));
    assembly.push(String::from_str("main:"));
    assert(line_views(assembly@) =~= directive_lines());
    let mut k: usize = 0;
    while k < body.len()
        invariant
            k <= body.len(),
            line_views(assembly@) == directive_lines() + instr_lines(body@.take(k as int)),
        decreases body.len() - k,
    {
        let ghost before = line_views(assembly@);
        let line = body[k].text();
        assembly.push(line);
        proof {
            assert(line_views(assembly@) =~= before.push(line@));
            assert(instr_lines(body@.take(k + 1)) =~= instr_lines(body@.take(k as int)).push(
                body@[k as int].line(),
            ));
            assert(line_views(assembly@) =~= directive_lines() + instr_lines(
                body@.take(k + 1),
            ));
        }
        k += 1;
    }
    assert(body@.take(k as int) =~= body@);
    Ok(assembly)
}

/// A well-formed tree has code.
pub proof fn lemma_well_formed_is_assignable(node: Node)
    requires
        well_formed(node),
    ensures
        assignable(node),
    decreases node,
{
    match node.kind {
        NodeKind::NumberLiteral(_) => {},
        NodeKind::Variable(_) => {},
        NodeKind::BinaryOp(_, lhs, rhs) => {
            lemma_well_formed_is_assignable(*lhs);
            lemma_well_formed_is_assignable(*rhs);
        },
        NodeKind::Assign(_, value) => {
            lemma_well_formed_is_assignable(*value);
        },
        NodeKind::Return(value) => {
            lemma_well_formed_is_assignable(*value);
        },
    }
}

/// A program of well-formed trees has code.
pub proof fn lemma_well_formed_generates(program: Seq<Node>)
    requires
        forall|i: int| 0 <= i < program.len() ==> well_formed(#[trigger] program[i]),
    ensures
        generates(program),
        forall|i: int|
            0 <= i < emitted(program).len() ==> well_formed(#[trigger] emitted(program)[i]),
{
    lemma_emitted_is_prefix(program);
    let kept = emitted(program);
    assert forall|i: int| 0 <= i < kept.len() implies well_formed(#[trigger] kept[i]) && assignable(
        kept[i],
    ) by {
        assert(kept[i] == program.subrange(0, kept.len() as int)[i]);
        lemma_well_formed_is_assignable(program[i]);
    }
}

/// The lines of the instructions are what they are written as, character
/// by character.
proof fn lemma_spell_lines()
    ensures
        "  push "@ == seq![
            ' ', ' ', 'p', 'u', 's', 'h', ' ',
        ],
        "  sub rax, "@ == seq![
            ' ', ' ', 's', 'u', 'b', ' ', 'r', 'a', 'x', ',', ' ',
        ],
        "  sub rsp, "@ == seq![
            ' ', ' ', 's', 'u', 'b', ' ', 'r', 's', 'p', ',', ' ',
        ],
        "  push rax"@ == seq![
            ' ', ' ', 'p', 'u', 's', 'h', ' ', 'r', 'a', 'x',
        ],
        "  push rdi"@ == seq![
            ' ', ' ', 'p', 'u', 's', 'h', ' ', 'r', 'd', 'i',
        ],
        "  push rbp"@ == seq![
            ' ', ' ', 'p', 'u', 's', 'h', ' ', 'r', 'b', 'p',
        ],
        "  pop rax"@ == seq![
            ' ', ' ', 'p', 'o', 'p', ' ', 'r', 'a', 'x',
        ],
        "  pop rdi"@ == seq![
            ' ', ' ', 'p', 'o', 'p', ' ', 'r', 'd', 'i',
        ],
        "  pop rbp"@ == seq![
            ' ', ' ', 'p', 'o', 'p', ' ', 'r', 'b', 'p',
        ],
        "  mov rax, rbp"@ == seq![
            ' ', ' ', 'm', 'o', 'v', ' ', 'r', 'a', 'x', ',', ' ', 'r', 'b', 'p',
        ],
        "  mov rbp, rsp"@ == seq![
            ' ', ' ', 'm', 'o', 'v', ' ', 'r', 'b', 'p', ',', ' ', 'r', 's', 'p',
        ],
        "  mov rsp, rbp"@ == seq![
            ' ', ' ', 'm', 'o', 'v', ' ', 'r', 's', 'p', ',', ' ', 'r', 'b', 'p',
        ],
        "  mov rax, [rax]"@ == seq![
            ' ', ' ', 'm', 'o', 'v', ' ', 'r', 'a', 'x', ',', ' ', '[', 'r', 'a', 'x', ']',
        ],
        "  mov [rax], rdi"@ == seq![
            ' ', ' ', 'm', 'o', 'v', ' ', '[', 'r', 'a', 'x', ']', ',', ' ', 'r', 'd', 'i',
        ],
        "  add rax, rdi"@ == seq![
            ' ', ' ', 'a', 'd', 'd', ' ', 'r', 'a', 'x', ',', ' ', 'r', 'd', 'i',
        ],
        "  sub rax, rdi"@ == seq![
            ' ', ' ', 's', 'u', 'b', ' ', 'r', 'a', 'x', ',', ' ', 'r', 'd', 'i',
        ],
        "  imul rax, rdi"@ == seq![
            ' ', ' ', 'i', 'm', 'u', 'l', ' ', 'r', 'a', 'x', ',', ' ', 'r', 'd', 'i',
        ],
        "  cqo"@ == seq![
            ' ', ' ', 'c', 'q', 'o',
        ],
        "  ret"@ == seq![
            ' ', ' ', 'r', 'e', 't',
        ],
        "  idiv rdi"@ == seq![
            ' ', ' ', 'i', 'd', 'i', 'v', ' ', 'r', 'd', 'i',
        ],
        "  cmp rax, rdi"@ == seq![
            ' ', ' ', 'c', 'm', 'p', ' ', 'r', 'a', 'x', ',', ' ', 'r', 'd', 'i',
        ],
        "  sete al"@ == seq![
            ' ', ' ', 's', 'e', 't', 'e', ' ', 'a', 'l',
        ],
        "  setne al"@ == seq![
            ' ', ' ', 's', 'e', 't', 'n', 'e', ' ', 'a', 'l',
        ],
        "  setl al"@ == seq![
            ' ', ' ', 's', 'e', 't', 'l', ' ', 'a', 'l',
        ],
        "  setle al"@ == seq![
            ' ', ' ', 's', 'e', 't', 'l', 'e', ' ', 'a', 'l',
        ],
        "  movzb rax, al"@ == seq![
            ' ', ' ', 'm', 'o', 'v', 'z', 'b', ' ', 'r', 'a', 'x', ',', ' ', 'a', 'l',
        ],
{
    reveal_strlit("  push ");
    reveal_strlit("  sub rax, ");
    reveal_strlit("  sub rsp, ");
    reveal_strlit("  push rax");
    reveal_strlit("  push rdi");
    reveal_strlit("  push rbp");
    reveal_strlit("  pop rax");
    reveal_strlit("  pop rdi");
    reveal_strlit("  pop rbp");
    reveal_strlit("  mov rax, rbp");
    reveal_strlit("  mov rbp, rsp");
    reveal_strlit("  mov rsp, rbp");
    reveal_strlit("  mov rax, [rax]");
    reveal_strlit("  mov [rax], rdi");
    reveal_strlit("  add rax, rdi");
    reveal_strlit("  sub rax, rdi");
    reveal_strlit("  imul rax, rdi");
    reveal_strlit("  cqo");
    reveal_strlit("  ret");
    reveal_strlit("  idiv rdi");
    reveal_strlit("  cmp rax, rdi");
    reveal_strlit("  sete al");
    reveal_strlit("  setne al");
    reveal_strlit("  setl al");
    reveal_strlit("  setle al");
    reveal_strlit("  movzb rax, al");
    assert("  push "@ =~= seq![
        ' ', ' ', 'p', 'u', 's', 'h', ' ',
    ]);
    assert("  sub rax, "@ =~= seq![
        ' ', ' ', 's', 'u', 'b', ' ', 'r', 'a', 'x', ',', ' ',
    ]);
    assert("  sub rsp, "@ =~= seq![
        ' ', ' ', 's', 'u', 'b', ' ', 'r', 's', 'p', ',', ' ',
    ]);
    assert("  push rax"@ =~= seq![
        ' ', ' ', 'p', 'u', 's', 'h', ' ', 'r', 'a', 'x',
    ]);
    assert("  push rdi"@ =~= seq![
        ' ', ' ', 'p', 'u', 's', 'h', ' ', 'r', 'd', 'i',
    ]);
    assert("  push rbp"@ =~= seq![
        ' ', ' ', 'p', 'u', 's', 'h', ' ', 'r', 'b', 'p',
    ]);
    assert("  pop rax"@ =~= seq![
        ' ', ' ', 'p', 'o', 'p', ' ', 'r', 'a', 'x',
    ]);
    assert("  pop rdi"@ =~= seq![
        ' ', ' ', 'p', 'o', 'p', ' ', 'r', 'd', 'i',
    ]);
    assert("  pop rbp"@ =~= seq![
        ' ', ' ', 'p', 'o', 'p', ' ', 'r', 'b', 'p',
    ]);
    assert("  mov rax, rbp"@ =~= seq![
        ' ', ' ', 'm', 'o', 'v', ' ', 'r', 'a', 'x', ',', ' ', 'r', 'b', 'p',
    ]);
    assert("  mov rbp, rsp"@ =~= seq![
        ' ', ' ', 'm', 'o', 'v', ' ', 'r', 'b', 'p', ',', ' ', 'r', 's', 'p',
    ]);
    assert("  mov rsp, rbp"@ =~= seq![
        ' ', ' ', 'm', 'o', 'v', ' ', 'r', 's', 'p', ',', ' ', 'r', 'b', 'p',
    ]);
    assert("  mov rax, [rax]"@ =~= seq![
        ' ', ' ', 'm', 'o', 'v', ' ', 'r', 'a', 'x', ',', ' ', '[', 'r', 'a', 'x', ']',
    ]);
    assert("  mov [rax], rdi"@ =~= seq![
        ' ', ' ', 'm', 'o', 'v', ' ', '[', 'r', 'a', 'x', ']', ',', ' ', 'r', 'd', 'i',
    ]);
    assert("  add rax, rdi"@ =~= seq![
        ' ', ' ', 'a', 'd', 'd', ' ', 'r', 'a', 'x', ',', ' ', 'r', 'd', 'i',
    ]);
    assert("  sub rax, rdi"@ =~= seq![
        ' ', ' ', 's', 'u', 'b', ' ', 'r', 'a', 'x', ',', ' ', 'r', 'd', 'i',
    ]);
    assert("  imul rax, rdi"@ =~= seq![
        ' ', ' ', 'i', 'm', 'u', 'l', ' ', 'r', 'a', 'x', ',', ' ', 'r', 'd', 'i',
    ]);
    assert("  cqo"@ =~= seq![
        ' ', ' ', 'c', 'q', 'o',
    ]);
    assert("  ret"@ =~= seq![
        ' ', ' ', 'r', 'e', 't',
    ]);
    assert("  idiv rdi"@ =~= seq![
        ' ', ' ', 'i', 'd', 'i', 'v', ' ', 'r', 'd', 'i',
    ]);
    assert("  cmp rax, rdi"@ =~= seq![
        ' ', ' ', 'c', 'm', 'p', ' ', 'r', 'a', 'x', ',', ' ', 'r', 'd', 'i',
    ]);
    assert("  sete al"@ =~= seq![
        ' ', ' ', 's', 'e', 't', 'e', ' ', 'a', 'l',
    ]);
    assert("  setne al"@ =~= seq![
        ' ', ' ', 's', 'e', 't', 'n', 'e', ' ', 'a', 'l',
    ]);
    assert("  setl al"@ =~= seq![
        ' ', ' ', 's', 'e', 't', 'l', ' ', 'a', 'l',
    ]);
    assert("  setle al"@ =~= seq![
        ' ', ' ', 's', 'e', 't', 'l', 'e', ' ', 'a', 'l',
    ]);
    assert("  movzb rax, al"@ =~= seq![
        ' ', ' ', 'm', 'o', 'v', 'z', 'b', ' ', 'r', 'a', 'x', ',', ' ', 'a', 'l',
    ]);
}

/// A number in decimal starts with a digit or a minus sign.
proof fn lemma_decimal_starts(n: int)
    ensures
        decimal(n).len() > 0,
        decimal(n)[0] == '-' || '0' <= decimal(n)[0] <= '9',
{
    if n >= 0 {
        lemma_digits_denote(n as nat);
        assert(crate::token::CharClass::Digit.holds(crate::decimal::digits(n as nat)[0]));
    }
}

/// A line with a number in it is the line of no instruction without one,
/// and tells the instruction it belongs to and the number.
proof fn lemma_number_line_tells_instr(a: Instr, b: Instr)
    requires
        a.line() == b.line(),
        a is PushImm || a is SubRaxImm || a is SubRspImm,
    ensures
        a == b,
{
    lemma_spell_lines();
    match a {
        Instr::PushImm(x) => {
            lemma_decimal_starts(x as int);
            assert(a.line().len() >= 8 && a.line()[2] == 'p' && a.line()[3] == 'u');
            assert(a.line()[7] == decimal(x as int)[0]);
            assert(b.line().len() >= 8);
            assert(b.line()[2] == 'p' && b.line()[3] == 'u');
            match b {
                Instr::PushImm(y) => {
                    assert(a.line().skip(7) =~= decimal(x as int));
                    assert(b.line().skip(7) =~= decimal(y as int));
                    lemma_decimal_tells_number(x as int, y as int);
                },
                Instr::SubRaxImm(y) => {
                    assert(b.line()[2] == 's');
                },
                Instr::SubRspImm(y) => {
                    assert(b.line()[2] == 's');
                },
                _ => {},
            }
        },
        Instr::SubRaxImm(x) => {
            lemma_decimal_starts(x as int);
            assert(a.line().len() >= 12 && a.line()[2] == 's' && a.line()[3] == 'u');
            assert(a.line()[7] == 'a');
            assert(a.line()[11] == decimal(x as int)[0]);
            assert(b.line().len() >= 12);
            assert(b.line()[2] == 's' && b.line()[3] == 'u' && b.line()[7] == 'a');
            match b {
                Instr::SubRaxImm(y) => {
                    assert(a.line().skip(11) =~= decimal(x as int));
                    assert(b.line().skip(11) =~= decimal(y as int));
                    lemma_decimal_tells_number(x as int, y as int);
                },
                Instr::PushImm(y) => {
                    assert(b.line()[2] == 'p');
                },
                Instr::SubRspImm(y) => {
                    assert(b.line()[7] == 's');
                },
                _ => {},
            }
        },
        Instr::SubRspImm(x) => {
            lemma_decimal_starts(x as int);
            assert(a.line().len() >= 12 && a.line()[2] == 's' && a.line()[3] == 'u');
            assert(a.line()[7] == 's');
            assert(a.line()[11] == decimal(x as int)[0]);
            assert(b.line().len() >= 12);
            assert(b.line()[2] == 's' && b.line()[3] == 'u' && b.line()[7] == 's');
            match b {
                Instr::SubRspImm(y) => {
                    assert(a.line().skip(11) =~= decimal(x as int));
                    assert(b.line().skip(11) =~= decimal(y as int));
                    lemma_decimal_tells_number(x as int, y as int);
                },
                Instr::PushImm(y) => {
                    assert(b.line()[2] == 'p');
                },
                Instr::SubRaxImm(y) => {
                    assert(b.line()[7] == 'a');
                },
                _ => {},
            }
        },
        _ => {},
    }
}

/// No two instructions are written the same: the assembly text says which
/// instructions it holds.
pub proof fn lemma_line_tells_instr(a: Instr, b: Instr)
    requires
        a.line() == b.line(),
    ensures
        a == b,
{
    if a is PushImm || a is SubRaxImm || a is SubRspImm {
        lemma_number_line_tells_instr(a, b);
    } else if b is PushImm || b is SubRaxImm || b is SubRspImm {
        lemma_number_line_tells_instr(b, a);
    } else {
        lemma_spell_lines();
        let n = a.line().len();
        assert(b.line().len() == n);
        if n == 9 || n == 10 {
            assert(a.line()[2] == b.line()[2]);
            assert(a.line()[3] == b.line()[3]);
            assert(a.line()[5] == b.line()[5]);
            assert(a.line()[8] == b.line()[8]);
            assert(a.line()[7] == b.line()[7]);
        } else if n == 16 {
            assert(a.line()[6] == b.line()[6]);
        } else if n == 14 {
            assert(a.line()[2] == b.line()[2]);
            assert(a.line()[7] == b.line()[7]);
        } else {
            assert(a.line()[2] == b.line()[2]);
        }
    }
}

/// Two bodies with the same lines are the same instructions.
pub proof fn lemma_lines_tell_body(a: Seq<Instr>, b: Seq<Instr>)
    requires
        instr_lines(a) == instr_lines(b),
    ensures
        a == b,
{
    assert(a.len() == instr_lines(a).len());
    assert(b.len() == instr_lines(b).len());
    assert forall|i: int| 0 <= i < a.len() implies a[i] == b[i] by {
        assert(instr_lines(a)[i] == a[i].line());
        assert(instr_lines(b)[i] == b[i].line());
        lemma_line_tells_instr(a[i], b[i]);
    }
    assert(a =~= b);
}

} // verus!
