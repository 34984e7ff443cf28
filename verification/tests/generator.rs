use minicc::generator::gen;
use minicc::generator::gen_lval;
use minicc::generator::gen_program;
use minicc::generator::CodegenError;
use minicc::generator::Instr;
use minicc::node::BinOp;
use minicc::node::Node;
use minicc::node::NodeKind;
use minicc::node::Parser;

fn assign(target: Node, value: Node) -> Node {
    Node { kind: NodeKind::Assign(Box::new(target), Box::new(value)) }
}

fn returning(value: Node) -> Node {
    Node { kind: NodeKind::Return(Box::new(value)) }
}

fn lines(text: &[&str]) -> Vec<String> {
    text.iter().map(|line| line.to_string()).collect()
}

#[test]
fn empty_program_is_prologue_and_epilogue() {
    assert_eq!(
        gen_program(&vec![]),
        Ok(lines(&[
            ".intel_syntax noprefix",
            ".global main",
            "main:",
            "  push rbp",
            "  mov rbp, rsp",
            "  sub rsp, 208",
            "  mov rsp, rbp",
            "  pop rbp",
            "  ret",
        ]))
    );
}

#[test]
fn number_statement_is_pushed_and_popped() {
    assert_eq!(
        gen_program(&vec![Parser::number(42)]),
        Ok(lines(&[
            ".intel_syntax noprefix",
            ".global main",
            "main:",
            "  push rbp",
            "  mov rbp, rsp",
            "  sub rsp, 208",
            "  push 42",
            "  pop rax",
            "  mov rsp, rbp",
            "  pop rbp",
            "  ret",
        ]))
    );
}

#[test]
fn numbers_are_written_in_decimal() {
    let text = |value: i64| Instr::PushImm(value).text();
    assert_eq!(text(0), "  push 0");
    assert_eq!(text(7), "  push 7");
    assert_eq!(text(10), "  push 10");
    assert_eq!(text(1234567890), "  push 1234567890");
    assert_eq!(text(-1), "  push -1");
    assert_eq!(text(-120), "  push -120");
    assert_eq!(text(i64::MAX), "  push 9223372036854775807");
    assert_eq!(text(i64::MIN), "  push -9223372036854775808");
    assert_eq!(Instr::SubRaxImm(208).text(), "  sub rax, 208");
    assert_eq!(Instr::SubRaxImm(8).text(), "  sub rax, 8");
}

#[test]
fn every_instruction_has_its_line() {
    assert_eq!(Instr::PushRax.text(), "  push rax");
    assert_eq!(Instr::PushRdi.text(), "  push rdi");
    assert_eq!(Instr::PopRax.text(), "  pop rax");
    assert_eq!(Instr::PopRdi.text(), "  pop rdi");
    assert_eq!(Instr::MovRaxRbp.text(), "  mov rax, rbp");
    assert_eq!(Instr::LoadRax.text(), "  mov rax, [rax]");
    assert_eq!(Instr::StoreRdi.text(), "  mov [rax], rdi");
    assert_eq!(Instr::AddRaxRdi.text(), "  add rax, rdi");
    assert_eq!(Instr::SubRaxRdi.text(), "  sub rax, rdi");
    assert_eq!(Instr::ImulRaxRdi.text(), "  imul rax, rdi");
    assert_eq!(Instr::Cqo.text(), "  cqo");
    assert_eq!(Instr::IdivRdi.text(), "  idiv rdi");
    assert_eq!(Instr::CompareRaxRdi.text(), "  cmp rax, rdi");
    assert_eq!(Instr::SetEqual.text(), "  sete al");
    assert_eq!(Instr::SetNotEqual.text(), "  setne al");
    assert_eq!(Instr::SetLess.text(), "  setl al");
    assert_eq!(Instr::SetLessEqual.text(), "  setle al");
    assert_eq!(Instr::MovzbRaxAl.text(), "  movzb rax, al");
    assert_eq!(Instr::PushRbp.text(), "  push rbp");
    assert_eq!(Instr::MovRbpRsp.text(), "  mov rbp, rsp");
    assert_eq!(Instr::SubRspImm(208).text(), "  sub rsp, 208");
    assert_eq!(Instr::MovRspRbp.text(), "  mov rsp, rbp");
    assert_eq!(Instr::PopRbp.text(), "  pop rbp");
    assert_eq!(Instr::Ret.text(), "  ret");
}

#[test]
fn address_of_a_variable() {
    assert_eq!(
        gen_lval(&Parser::ident(16)),
        Ok(vec![Instr::MovRaxRbp, Instr::SubRaxImm(16), Instr::PushRax])
    );
}

#[test]
fn address_of_something_else_is_an_error() {
    assert_eq!(gen_lval(&Parser::number(1)), Err(CodegenError::NotAVariable));
    let sum = Parser::operator(BinOp::Add, Parser::ident(8), Parser::number(1));
    assert_eq!(gen_lval(&sum), Err(CodegenError::NotAVariable));
}

#[test]
fn variable_is_loaded_from_its_address() {
    assert_eq!(
        gen(&Parser::ident(8)),
        Ok((
            vec![
                Instr::MovRaxRbp,
                Instr::SubRaxImm(8),
                Instr::PushRax,
                Instr::PopRax,
                Instr::LoadRax,
                Instr::PushRax,
            ],
            false
        ))
    );
}

#[test]
fn right_operand_is_pushed_first() {
    let node = Parser::operator(BinOp::Sub, Parser::number(5), Parser::number(3));
    assert_eq!(
        gen(&node),
        Ok((
            vec![
                Instr::PushImm(3),
                Instr::PushImm(5),
                Instr::PopRax,
                Instr::PopRdi,
                Instr::SubRaxRdi,
                Instr::PushRax,
            ],
            false
        ))
    );
}

#[test]
fn each_operation_has_its_instructions() {
    let middle = |op: BinOp| {
        let node = Parser::operator(op, Parser::number(1), Parser::number(2));
        let (code, returned) = gen(&node).unwrap();
        assert!(!returned);
        assert_eq!(code[..4], [Instr::PushImm(2), Instr::PushImm(1), Instr::PopRax, Instr::PopRdi]);
        assert_eq!(code[code.len() - 1], Instr::PushRax);
        code[4..code.len() - 1].to_vec()
    };
    assert_eq!(middle(BinOp::Add), vec![Instr::AddRaxRdi]);
    assert_eq!(middle(BinOp::Sub), vec![Instr::SubRaxRdi]);
    assert_eq!(middle(BinOp::Mul), vec![Instr::ImulRaxRdi]);
    assert_eq!(middle(BinOp::Div), vec![Instr::Cqo, Instr::IdivRdi]);
    assert_eq!(
        middle(BinOp::Eq),
        vec![Instr::CompareRaxRdi, Instr::SetEqual, Instr::MovzbRaxAl]
    );
    assert_eq!(
        middle(BinOp::Ne),
        vec![Instr::CompareRaxRdi, Instr::SetNotEqual, Instr::MovzbRaxAl]
    );
    assert_eq!(
        middle(BinOp::Lt),
        vec![Instr::CompareRaxRdi, Instr::SetLess, Instr::MovzbRaxAl]
    );
    assert_eq!(
        middle(BinOp::Le),
        vec![Instr::CompareRaxRdi, Instr::SetLessEqual, Instr::MovzbRaxAl]
    );
}

#[test]
fn assignment_stores_and_leaves_the_value() {
    let node = assign(Parser::ident(8), Parser::number(5));
    assert_eq!(
        gen(&node),
        Ok((
            vec![
                Instr::MovRaxRbp,
                Instr::SubRaxImm(8),
                Instr::PushRax,
                Instr::PushImm(5),
                Instr::PopRdi,
                Instr::PopRax,
                Instr::StoreRdi,
                Instr::PushRdi,
            ],
            false
        ))
    );
}

#[test]
fn assignment_to_a_number_has_no_code() {
    let node = assign(Parser::number(5), Parser::number(3));
    assert_eq!(gen(&node), Err(CodegenError::NotAVariable));
    let nested = Parser::operator(
        BinOp::Add,
        Parser::number(1),
        assign(Parser::number(5), Parser::number(3)),
    );
    assert_eq!(gen(&nested), Err(CodegenError::NotAVariable));
    assert_eq!(
        gen_program(&vec![Parser::number(1), assign(Parser::number(5), Parser::number(3))]),
        Err(CodegenError::NotAVariable)
    );
}

#[test]
fn return_is_flagged_and_computed_like_its_value() {
    assert_eq!(gen(&returning(Parser::number(9))), Ok((vec![Instr::PushImm(9)], true)));
    assert_eq!(gen(&Parser::number(9)), Ok((vec![Instr::PushImm(9)], false)));
}

#[test]
fn statements_after_a_return_get_no_code() {
    let program = vec![
        Parser::number(1),
        returning(Parser::number(2)),
        Parser::number(3),
        returning(Parser::number(4)),
    ];
    assert_eq!(
        gen_program(&program),
        Ok(lines(&[
            ".intel_syntax noprefix",
            ".global main",
            "main:",
            "  push rbp",
            "  mov rbp, rsp",
            "  sub rsp, 208",
            "  push 1",
            "  pop rax",
            "  push 2",
            "  pop rax",
            "  mov rsp, rbp",
            "  pop rbp",
            "  ret",
        ]))
    );
}

#[test]
fn statements_after_a_return_are_not_looked_at() {
    let program = vec![
        returning(Parser::number(2)),
        assign(Parser::number(5), Parser::number(3)),
    ];
    let assembly = gen_program(&program).unwrap();
    assert_eq!(assembly.len(), 11);
    assert_eq!(assembly[6], "  push 2");
}
