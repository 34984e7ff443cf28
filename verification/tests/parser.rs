use minicc::node::BinOp;
use minicc::node::Node;
use minicc::node::NodeKind;
use minicc::node::ParseError;
use minicc::node::Parser;
use minicc::token::Token;

fn parse(source: &str) -> Result<Vec<Node>, ParseError> {
    let tokens = Token::parse(source.to_string()).unwrap();
    Parser::new().program(&tokens)
}

fn num(value: i64) -> Node {
    Parser::number(value)
}

fn var(slot: usize) -> Node {
    Parser::ident(slot)
}

fn bin(op: BinOp, lhs: Node, rhs: Node) -> Node {
    Parser::operator(op, lhs, rhs)
}

fn assign(target: Node, value: Node) -> Node {
    Node { kind: NodeKind::Assign(Box::new(target), Box::new(value)) }
}

#[test]
fn builders_make_the_trees_they_name() {
    assert_eq!(num(7), Node { kind: NodeKind::NumberLiteral(7) });
    assert_eq!(var(16), Node { kind: NodeKind::Variable(16) });
    assert_eq!(
        bin(BinOp::Div, num(1), num(2)),
        Node { kind: NodeKind::BinaryOp(BinOp::Div, Box::new(num(1)), Box::new(num(2))) }
    );
}

#[test]
fn empty_program_has_no_statements() {
    assert_eq!(parse(""), Ok(vec![]));
    assert_eq!(parse("   "), Ok(vec![]));
}

#[test]
fn single_number_statement() {
    assert_eq!(parse("42;"), Ok(vec![num(42)]));
}

#[test]
fn statements_come_in_source_order() {
    assert_eq!(parse("1; 2; 3;"), Ok(vec![num(1), num(2), num(3)]));
}

#[test]
fn multiplication_binds_tighter_than_addition() {
    assert_eq!(
        parse("1 + 4 * 4 - 1;"),
        Ok(vec![bin(
            BinOp::Sub,
            bin(BinOp::Add, num(1), bin(BinOp::Mul, num(4), num(4))),
            num(1)
        )])
    );
}

#[test]
fn operators_of_one_level_group_to_the_left() {
    assert_eq!(
        parse("8 / 4 / 2;"),
        Ok(vec![bin(BinOp::Div, bin(BinOp::Div, num(8), num(4)), num(2))])
    );
    assert_eq!(
        parse("1 - 2 - 3;"),
        Ok(vec![bin(BinOp::Sub, bin(BinOp::Sub, num(1), num(2)), num(3))])
    );
    assert_eq!(
        parse("1 == 2 != 3;"),
        Ok(vec![bin(BinOp::Ne, bin(BinOp::Eq, num(1), num(2)), num(3))])
    );
}

#[test]
fn greater_than_is_read_as_less_than_with_operands_swapped() {
    assert_eq!(parse("1 > 2;"), Ok(vec![bin(BinOp::Lt, num(2), num(1))]));
    assert_eq!(parse("1 >= 2;"), Ok(vec![bin(BinOp::Le, num(2), num(1))]));
    assert_eq!(parse("1 > 2;"), parse("2 < 1;"));
    assert_eq!(parse("1 >= 2;"), parse("2 <= 1;"));
    assert_eq!(parse("1 < 2;"), Ok(vec![bin(BinOp::Lt, num(1), num(2))]));
    assert_eq!(parse("1 <= 2;"), Ok(vec![bin(BinOp::Le, num(1), num(2))]));
}

#[test]
fn right_operand_of_a_comparison_is_additive() {
    assert_eq!(
        parse("1 < 2 + 3;"),
        Ok(vec![bin(BinOp::Lt, num(1), bin(BinOp::Add, num(2), num(3)))])
    );
    assert_eq!(
        parse("1 + 2 > 3 - 4;"),
        Ok(vec![bin(
            BinOp::Lt,
            bin(BinOp::Sub, num(3), num(4)),
            bin(BinOp::Add, num(1), num(2))
        )])
    );
}

#[test]
fn comparison_binds_tighter_than_equality() {
    assert_eq!(
        parse("1 == 2 < 3;"),
        Ok(vec![bin(BinOp::Eq, num(1), bin(BinOp::Lt, num(2), num(3)))])
    );
}

#[test]
fn unary_minus_is_zero_minus_operand() {
    assert_eq!(parse("-5;"), Ok(vec![bin(BinOp::Sub, num(0), num(5))]));
    assert_eq!(parse("+5;"), Ok(vec![num(5)]));
    assert_eq!(
        parse("2 * -3;"),
        Ok(vec![bin(BinOp::Mul, num(2), bin(BinOp::Sub, num(0), num(3)))])
    );
    assert_eq!(parse("- -5;"), Err(ParseError::UnexpectedToken(1)));
}

#[test]
fn nested_groups() {
    assert_eq!(
        parse("((1+2)*3);"),
        Ok(vec![bin(BinOp::Mul, bin(BinOp::Add, num(1), num(2)), num(3))])
    );
    assert_eq!(
        parse("(1 + (2 * (3 - 4))) / 5;"),
        Ok(vec![bin(
            BinOp::Div,
            bin(
                BinOp::Add,
                num(1),
                bin(BinOp::Mul, num(2), bin(BinOp::Sub, num(3), num(4)))
            ),
            num(5)
        )])
    );
    assert_eq!(parse("(((7)));"), Ok(vec![num(7)]));
}

#[test]
fn assignment_groups_to_the_right() {
    assert_eq!(
        parse("x = y = 3;"),
        Ok(vec![assign(var(8), assign(var(16), num(3)))])
    );
    assert_eq!(
        parse("x=(y=3);"),
        Ok(vec![assign(var(8), assign(var(16), num(3)))])
    );
    assert_eq!(
        parse("a = 1 + 2;"),
        Ok(vec![assign(var(8), bin(BinOp::Add, num(1), num(2)))])
    );
}

#[test]
fn a_name_keeps_its_slot() {
    assert_eq!(
        parse("a = 1; b = 2; a + b; b = a;"),
        Ok(vec![
            assign(var(8), num(1)),
            assign(var(16), num(2)),
            bin(BinOp::Add, var(8), var(16)),
            assign(var(16), var(8)),
        ])
    );
    assert_eq!(
        parse("foo = 1; bar = foo; foo;"),
        Ok(vec![assign(var(8), num(1)), assign(var(16), var(8)), var(8)])
    );
}

#[test]
fn a_parser_keeps_its_table_over_programs() {
    let mut parser = Parser::new();
    let first = Token::parse("a; b;".to_string()).unwrap();
    assert_eq!(parser.program(&first), Ok(vec![var(8), var(16)]));
    let second = Token::parse("c; b; a;".to_string()).unwrap();
    assert_eq!(parser.program(&second), Ok(vec![var(24), var(16), var(8)]));
}

#[test]
fn the_frame_has_room_for_twenty_six_variables() {
    let all = "a;b;c;d;e;f;g;h;i;j;k;l;m;n;o;p;q;r;s;t;u;v;w;x;y;z;";
    let program = parse(all).unwrap();
    assert_eq!(program.len(), 26);
    assert_eq!(program[0], var(8));
    assert_eq!(program[25], var(208));
    let again = format!("{}a;z;", all);
    let program = parse(&again).unwrap();
    assert_eq!(program[26], var(8));
    assert_eq!(program[27], var(208));
    let more = format!("{}aa;", all);
    assert_eq!(parse(&more), Err(ParseError::TooManyVariables));
}

#[test]
fn missing_operand_is_an_error() {
    assert_eq!(parse("1+;"), Err(ParseError::UnexpectedToken(2)));
    assert_eq!(parse("1+"), Err(ParseError::UnexpectedEnd));
    assert_eq!(parse(";"), Err(ParseError::UnexpectedToken(0)));
    assert_eq!(parse("1 * / 2;"), Err(ParseError::UnexpectedToken(2)));
}

#[test]
fn unmatched_group_is_an_error() {
    assert_eq!(parse("(1+2"), Err(ParseError::UnmatchedParen(0)));
    assert_eq!(parse("(1+2;"), Err(ParseError::UnmatchedParen(0)));
    assert_eq!(parse("1 + ((2);"), Err(ParseError::UnmatchedParen(2)));
    assert_eq!(parse("(1 2);"), Err(ParseError::UnmatchedParen(0)));
    assert_eq!(parse("(1+2));"), Err(ParseError::UnexpectedToken(5)));
    assert_eq!(parse("();"), Err(ParseError::UnexpectedToken(1)));
    assert_eq!(parse("("), Err(ParseError::UnexpectedEnd));
}

#[test]
fn assignment_to_something_else_than_a_variable_is_an_error() {
    assert_eq!(parse("5=3;"), Err(ParseError::InvalidAssignTarget(1)));
    assert_eq!(parse("a+1=3;"), Err(ParseError::InvalidAssignTarget(3)));
    assert_eq!(parse("(a=1)=3;"), Err(ParseError::InvalidAssignTarget(5)));
    assert_eq!(parse("(a)=3;"), Ok(vec![assign(var(8), num(3))]));
}

#[test]
fn missing_semicolon_is_an_error() {
    assert_eq!(parse("1"), Err(ParseError::UnexpectedEnd));
    assert_eq!(parse("1; 2"), Err(ParseError::UnexpectedEnd));
    assert_eq!(parse("1 2;"), Err(ParseError::UnexpectedToken(1)));
    assert_eq!(parse("a b;"), Err(ParseError::UnexpectedToken(1)));
}

#[test]
fn return_is_no_part_of_an_expression() {
    assert_eq!(parse("return 5;"), Err(ParseError::UnexpectedToken(0)));
    assert_eq!(parse("1 + return;"), Err(ParseError::UnexpectedToken(2)));
}

#[test]
fn rules_start_where_they_are_told() {
    let tokens = Token::parse("1 + 2 * 3 ; 4".to_string()).unwrap();
    let mut parser = Parser::new();
    assert_eq!(parser.term(&tokens, 0), Ok((num(1), 1)));
    assert_eq!(parser.unary(&tokens, 2), Ok((num(2), 3)));
    assert_eq!(parser.mul(&tokens, 2), Ok((bin(BinOp::Mul, num(2), num(3)), 5)));
    assert_eq!(parser.mul(&tokens, 0), Ok((num(1), 1)));
    let sum = bin(BinOp::Add, num(1), bin(BinOp::Mul, num(2), num(3)));
    assert_eq!(parser.add(&tokens, 0), Ok((sum, 5)));
    let sum = bin(BinOp::Add, num(1), bin(BinOp::Mul, num(2), num(3)));
    assert_eq!(parser.stmt(&tokens, 0), Ok((sum, 6)));
    assert_eq!(parser.stmt(&tokens, 6), Err(ParseError::UnexpectedEnd));
    assert_eq!(parser.term(&tokens, 7), Err(ParseError::UnexpectedEnd));
    assert_eq!(parser.expr(&tokens, 1), Ok((bin(BinOp::Mul, num(2), num(3)), 5)));
    assert_eq!(parser.relational(&tokens, 4), Ok((num(3), 5)));
    assert_eq!(parser.equality(&tokens, 4), Ok((num(3), 5)));
    assert_eq!(parser.assign(&tokens, 6), Ok((num(4), 7)));
}

#[test]
fn slot_of_counts_names_in_steps_of_eight() {
    let mut parser = Parser::new();
    assert_eq!(parser.slot_of(&"x".to_string()), Ok(8));
    assert_eq!(parser.slot_of(&"y".to_string()), Ok(16));
    assert_eq!(parser.slot_of(&"x".to_string()), Ok(8));
    assert_eq!(parser.slot_of(&"xy".to_string()), Ok(24));
    assert_eq!(parser.slot_of(&"y".to_string()), Ok(16));
}

#[test]
fn deep_groups_and_long_chains() {
    let depth = 200;
    let source = format!("{}1{};", "(".repeat(depth), ")".repeat(depth));
    assert_eq!(parse(&source), Ok(vec![num(1)]));
    let source = format!("{}1{};", "(".repeat(depth), ")".repeat(depth - 1));
    assert_eq!(parse(&source), Err(ParseError::UnmatchedParen(0)));
    let source = format!("1{};", "+1".repeat(300));
    let program = parse(&source).unwrap();
    assert_eq!(program.len(), 1);
    let mut node = &program[0];
    let mut terms = 1;
    while let NodeKind::BinaryOp(BinOp::Add, lhs, rhs) = &node.kind {
        assert_eq!(**rhs, num(1));
        node = lhs;
        terms += 1;
    }
    assert_eq!(*node, num(1));
    assert_eq!(terms, 301);
}
