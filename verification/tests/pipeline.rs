use minicc::generator::gen_program;
use minicc::node::BinOp;
use minicc::node::Node;
use minicc::node::NodeKind;
use minicc::node::ParseError;
use minicc::node::Parser;
use minicc::pipeline::compile;
use minicc::pipeline::CompileError;
use minicc::token::LexError;
use std::collections::HashMap;

const STACK_TOP: i64 = 0x7fff_0000;
const CALLER_BASE: i64 = 0x7fff_0100;
const RETURN_ADDRESS: i64 = 0x40_1000;
const CALLER_WORD: i64 = 0x1234_5678;

fn operands(line: &str) -> (&str, &str) {
    let line = line.trim();
    match line.split_once(' ') {
        Some((name, rest)) => (name, rest.trim()),
        None => (line, ""),
    }
}

/// Calls the routine as an assembler and a processor would, and gives what
/// is in `rax` when it returns, or `None` after a division that traps.
fn run(assembly: &[String]) -> Option<i64> {
    let text: Vec<&str> = assembly.iter().map(|line| line.as_str()).collect();
    assert_eq!(text[..3], [".intel_syntax noprefix", ".global main", "main:"]);
    let mut rax: i64 = 0x5151;
    let mut rdi: i64 = 0x6262;
    let mut rdx: i64 = 0x7373;
    let mut rbp: i64 = CALLER_BASE;
    let mut rsp: i64 = STACK_TOP;
    let mut flags: (i64, i64) = (0, 0);
    let mut memory: HashMap<i64, i64> = HashMap::new();
    memory.insert(rsp, CALLER_WORD);
    rsp -= 8;
    memory.insert(rsp, RETURN_ADDRESS);
    let mut returned = false;
    for line in &text[3..] {
        assert!(!returned);
        assert!(line.starts_with("  "));
        assert_eq!(rsp % 8, 0);
        match operands(line) {
            ("push", operand) => {
                let value = match operand {
                    "rax" => rax,
                    "rdi" => rdi,
                    "rbp" => rbp,
                    number => number.parse::<i64>().unwrap(),
                };
                rsp -= 8;
                memory.insert(rsp, value);
            }
            ("pop", register) => {
                let value = *memory.get(&rsp).unwrap();
                rsp += 8;
                match register {
                    "rax" => rax = value,
                    "rdi" => rdi = value,
                    "rbp" => rbp = value,
                    other => panic!("no such register: {:?}", other),
                }
            }
            ("mov", "rax, rbp") => rax = rbp,
            ("mov", "rbp, rsp") => rbp = rsp,
            ("mov", "rsp, rbp") => rsp = rbp,
            ("mov", "rax, [rax]") => {
                assert!(rsp <= rax && rax < rbp && (rbp - rax) % 8 == 0);
                rax = *memory.get(&rax).unwrap_or(&0x0bad);
            }
            ("mov", "[rax], rdi") => {
                assert!(rsp <= rax && rax < rbp && (rbp - rax) % 8 == 0);
                memory.insert(rax, rdi);
            }
            ("add", "rax, rdi") => rax = rax.wrapping_add(rdi),
            ("sub", "rax, rdi") => rax = rax.wrapping_sub(rdi),
            ("imul", "rax, rdi") => rax = rax.wrapping_mul(rdi),
            ("sub", rest) => {
                let (register, number) = rest.split_once(", ").unwrap();
                let number = number.parse::<i64>().unwrap();
                match register {
                    "rax" => rax = rax.wrapping_sub(number),
                    "rsp" => rsp -= number,
                    other => panic!("no such register: {:?}", other),
                }
            }
            ("cqo", "") => rdx = if rax < 0 { -1 } else { 0 },
            ("idiv", "rdi") => {
                let dividend = ((rdx as i128) << 64) | (rax as u64 as i128);
                if rdi == 0 {
                    return None;
                }
                let quotient = dividend / (rdi as i128);
                if quotient < i64::MIN as i128 || quotient > i64::MAX as i128 {
                    return None;
                }
                rdx = (dividend % (rdi as i128)) as i64;
                rax = quotient as i64;
            }
            ("cmp", "rax, rdi") => flags = (rax, rdi),
            ("sete", "al") => rax = (rax & !0xff) | (flags.0 == flags.1) as i64,
            ("setne", "al") => rax = (rax & !0xff) | (flags.0 != flags.1) as i64,
            ("setl", "al") => rax = (rax & !0xff) | (flags.0 < flags.1) as i64,
            ("setle", "al") => rax = (rax & !0xff) | (flags.0 <= flags.1) as i64,
            ("movzb", "rax, al") => rax &= 0xff,
            ("ret", "") => {
                assert_eq!(memory.get(&rsp), Some(&RETURN_ADDRESS));
                rsp += 8;
                returned = true;
            }
            other => panic!("no such instruction: {:?}", other),
        }
    }
    assert!(returned);
    assert_eq!(rsp, STACK_TOP);
    assert_eq!(rbp, CALLER_BASE);
    assert_eq!(memory.get(&STACK_TOP), Some(&CALLER_WORD));
    Some(rax)
}

fn result(source: &str) -> Option<i64> {
    run(&compile(source.to_string()).unwrap())
}

#[test]
fn number_statement_yields_the_number() {
    assert_eq!(result("0;"), Some(0));
    assert_eq!(result("42;"), Some(42));
    assert_eq!(result("255;"), Some(255));
    assert_eq!(result("9223372036854775807;"), Some(i64::MAX));
}

#[test]
fn arithmetic_on_two_numbers() {
    for a in [0i64, 1, 2, 7, 100, 4611686018427387904, i64::MAX] {
        for b in [0i64, 1, 3, 8, 99, 4611686018427387905, i64::MAX] {
            assert_eq!(result(&format!("{}+{};", a, b)), Some(a.wrapping_add(b)));
            assert_eq!(result(&format!("{}-{};", a, b)), Some(a.wrapping_sub(b)));
            assert_eq!(result(&format!("{}*{};", a, b)), Some(a.wrapping_mul(b)));
            if b != 0 {
                assert_eq!(result(&format!("{}/{};", a, b)), Some(a / b));
            }
        }
    }
    assert_eq!(result("5+20-4;"), Some(21));
    assert_eq!(result("7/2;"), Some(3));
}

#[test]
fn division_rounds_towards_zero() {
    assert_eq!(result("-7/2;"), Some(-3));
    assert_eq!(result("7/-2;"), Some(-3));
    assert_eq!(result("-7/-2;"), Some(3));
    assert_eq!(result("(0-7)/2;"), Some(-3));
    assert_eq!(result("-8/2;"), Some(-4));
}

#[test]
fn division_by_zero_traps() {
    assert_eq!(result("1/0;"), None);
    assert_eq!(result("0/0;"), None);
    assert_eq!(result("(-9223372036854775807-1)/-1;"), None);
}

#[test]
fn comparisons_yield_zero_or_one() {
    for a in [0i64, 1, 2, 300, i64::MAX] {
        for b in [0i64, 1, 2, 300, i64::MAX] {
            assert_eq!(result(&format!("{}=={};", a, b)), Some((a == b) as i64));
            assert_eq!(result(&format!("{}!={};", a, b)), Some((a != b) as i64));
            assert_eq!(result(&format!("{}<{};", a, b)), Some((a < b) as i64));
            assert_eq!(result(&format!("{}<={};", a, b)), Some((a <= b) as i64));
            assert_eq!(result(&format!("{}>{};", a, b)), Some((a > b) as i64));
            assert_eq!(result(&format!("{}>={};", a, b)), Some((a >= b) as i64));
            assert_eq!(
                compile(format!("{}>{};", a, b)),
                compile(format!("{}<{};", b, a))
            );
            assert_eq!(
                compile(format!("{}>={};", a, b)),
                compile(format!("{}<={};", b, a))
            );
        }
    }
    assert_eq!(result("-1 < 0;"), Some(1));
    assert_eq!(result("0 < -1;"), Some(0));
    assert_eq!(result("-2 <= -2;"), Some(1));
}

#[test]
fn assignment_is_an_expression() {
    assert_eq!(result("x=5;"), Some(5));
    assert_eq!(result("x=5; x;"), Some(5));
    assert_eq!(result("x=(y=3); x;"), Some(3));
    assert_eq!(result("x=(y=3); y;"), Some(3));
    assert_eq!(result("x=y=3; x+y;"), Some(6));
    assert_eq!(result("a=3; b=5*6-8; a+b/2;"), Some(14));
    assert_eq!(result("foo=1; bar=2; foo=foo+bar; foo*10+bar;"), Some(32));
}

#[test]
fn right_operand_is_evaluated_first() {
    assert_eq!(result("x=1; (x=2)+x;"), Some(3));
    assert_eq!(result("x=1; x+(x=2);"), Some(4));
}

#[test]
fn nested_groups_yield_their_value() {
    assert_eq!(result("((1+2)*3);"), Some(9));
    assert_eq!(result("(1+2)*3;"), Some(9));
    assert_eq!(result("2*(3+(4-1))*(5);"), Some(60));
    assert_eq!(result("1+2*3;"), Some(7));
}

#[test]
fn last_statement_gives_the_result() {
    assert_eq!(result("1; 2; 3;"), Some(3));
    assert_eq!(result("a=1; b=2; a==b; a<b;"), Some(1));
}

#[test]
fn malformed_source_has_no_assembly() {
    assert_eq!(
        compile("1+;".to_string()),
        Err(CompileError::Parse(ParseError::UnexpectedToken(2)))
    );
    assert_eq!(
        compile("(1+2".to_string()),
        Err(CompileError::Parse(ParseError::UnmatchedParen(0)))
    );
    assert_eq!(
        compile("5=3;".to_string()),
        Err(CompileError::Parse(ParseError::InvalidAssignTarget(1)))
    );
    assert_eq!(
        compile("1 + #;".to_string()),
        Err(CompileError::Lex(LexError::UnexpectedChar('#')))
    );
    assert_eq!(
        compile("99999999999999999999;".to_string()),
        Err(CompileError::Lex(LexError::NumberTooLarge))
    );
    assert_eq!(
        compile("return 1;".to_string()),
        Err(CompileError::Parse(ParseError::UnexpectedToken(0)))
    );
}

#[test]
fn empty_source_is_an_empty_routine() {
    let assembly = compile("".to_string()).unwrap();
    assert_eq!(assembly.len(), 9);
    assert_eq!(run(&assembly), Some(0x5151));
}

fn returning(value: Node) -> Node {
    Node { kind: NodeKind::Return(Box::new(value)) }
}

fn assign(slot: usize, value: Node) -> Node {
    Node { kind: NodeKind::Assign(Box::new(Parser::ident(slot)), Box::new(value)) }
}

#[test]
fn return_gives_the_result_and_ends_the_routine() {
    let program = vec![returning(Parser::number(5))];
    assert_eq!(run(&gen_program(&program).unwrap()), Some(5));

    let program = vec![
        assign(8, Parser::number(3)),
        returning(Parser::operator(BinOp::Mul, Parser::ident(8), Parser::number(2))),
        assign(8, Parser::number(100)),
        returning(Parser::number(7)),
    ];
    assert_eq!(run(&gen_program(&program).unwrap()), Some(6));

    let cut = vec![
        assign(8, Parser::number(3)),
        returning(Parser::operator(BinOp::Mul, Parser::ident(8), Parser::number(2))),
    ];
    assert_eq!(gen_program(&program), gen_program(&cut));
}

#[test]
fn return_inside_an_expression_is_its_value() {
    let program = vec![Parser::operator(
        BinOp::Add,
        returning(Parser::number(1)),
        Parser::number(2),
    )];
    assert_eq!(run(&gen_program(&program).unwrap()), Some(3));
}

#[test]
fn numbers_written_out_are_read_back() {
    for value in [0i64, 9, 10, 99, 100, 12345, i64::MAX] {
        let program = vec![Parser::number(value)];
        let assembly = gen_program(&program).unwrap();
        let written = assembly[6].strip_prefix("  push ").unwrap();
        let source = format!("{};", written);
        assert_eq!(compile(source), Ok(assembly));
    }
}

#[test]
fn variables_live_in_the_frame() {
    let all = "a=1;b=2;c=3;d=4;e=5;f=6;g=7;h=8;i=9;j=10;k=11;l=12;m=13;\
               n=14;o=15;p=16;q=17;r=18;s=19;t=20;u=21;v=22;w=23;x=24;y=25;z=26;";
    assert_eq!(result(&format!("{}a+z;", all)), Some(27));
    assert_eq!(result(&format!("{}m*n-b;", all)), Some(180));
}
