//! What the simplest programs compute: a number, an operation on two
//! numbers, an assignment with a read of the variable, and a program that
//! returns. Each is followed from its source text to what its routine
//! returns.

use crate::generator::body_code;
use crate::generator::emitted;
use crate::generator::lemma_emitted_upto;
use crate::generator::routine;
use crate::grammar::joined;
use crate::grammar::lemma_parse_assignment;
use crate::grammar::lemma_parse_atom;
use crate::grammar::lemma_parse_first_statement;
use crate::grammar::lemma_parse_one_statement;
use crate::grammar::lemma_parse_operation;
use crate::grammar::lemma_parse_read;
use crate::grammar::lemma_parse_statement;
use crate::grammar::Level;
use crate::grammar::parse_program;
use crate::grammar::Parsed;
use crate::grammar::resolve;
use crate::grammar::slot_at;
use crate::machine::apply;
use crate::machine::entry_frame;
use crate::machine::eval;
use crate::machine::lemma_routine_computes;
use crate::machine::Machine;
use crate::machine::quotient;
use crate::machine::result_of;
use crate::machine::truth;
use crate::machine::wrap;
use crate::node::Node;
use crate::node::NodeKind;
use crate::node::ParseError;
use crate::node::well_formed;
use crate::pipeline::can_call;
use crate::pipeline::CompileError;
use crate::pipeline::parsed;
use crate::pipeline::routine_result;
use crate::token::all_digits;
use crate::token::decimal_value;
use crate::token::is_name;
use crate::token::lemma_lex_empty;
use crate::token::lemma_lex_ident;
use crate::token::lemma_lex_number;
use crate::token::lemma_lex_operator;
use crate::token::lemma_prefix_by_chars;
use crate::token::lex;
use crate::token::LexError;
use crate::token::Op;
use crate::token::TokenView;
use vstd::prelude::*;

verus! {

/// Whether `digits` is a number literal: a string of digits, not empty, whose
/// value fits in an `i64`.
pub open spec fn is_literal(digits: Seq<char>) -> bool {
    digits.len() > 0 && all_digits(digits) && decimal_value(digits) <= i64::MAX
}

/// The value of a number literal.
pub open spec fn literal_value(digits: Seq<char>) -> i64 {
    decimal_value(digits) as i64
}

/// The source text of the statement `a op b;`.
pub open spec fn operation_source(a: Seq<char>, op: Op, b: Seq<char>) -> Seq<char> {
    a + op.text() + b + Op::Semicolon.text()
}

/// The level of the grammar at which `op` stands between two operands.
pub open spec fn level_of(op: Op) -> Option<Level> {
    match op {
        Op::EqEq | Op::Ne => Some(Level::Equality),
        Op::Lt | Op::Le | Op::Gt | Op::Ge => Some(Level::Relational),
        Op::Plus | Op::Minus => Some(Level::Additive),
        Op::Star | Op::Slash => Some(Level::Multiplicative),
        _ => None,
    }
}

/// A program of one statement that does not return has code for that
/// statement, and its routine returns the value of the statement.
pub proof fn lemma_one_statement_result(node: Node, m: Machine)
    requires
        well_formed(node),
        !(node.kind is Return),
        can_call(seq![node], m),
    ensures
        emitted(seq![node]) == seq![node],
        routine_result(seq![node], m) == match eval(node, entry_frame(m)) {
            Some((value, _)) => Some(value),
            None => None,
        },
{
    let program = seq![node];
    assert(emitted(program.skip(1)) =~= Seq::<Node>::empty());
    assert(emitted(program) =~= program);
    assert(program.drop_last() =~= Seq::<Node>::empty());
    assert(result_of(program.drop_last(), m.rax, entry_frame(m)) == Some(
        (m.rax, entry_frame(m)),
    ));
    assert(result_of(program, m.rax, entry_frame(m)) == eval(node, entry_frame(m)));
    lemma_routine_computes(program, m);
}

/// A program that is one number literal returns the value of the literal.
pub proof fn lemma_number_program(digits: Seq<char>, m: Machine)
    requires
        is_literal(digits),
        can_call(seq![Node::literal(literal_value(digits))], m),
    ensures
        parsed(digits + Op::Semicolon.text()) == Ok::<Seq<Node>, CompileError>(
            seq![Node::literal(literal_value(digits))],
        ),
        routine_result(seq![Node::literal(literal_value(digits))], m) == Some(
            literal_value(digits),
        ),
{
    let value = literal_value(digits);
    let semicolon = Op::Semicolon.text();
    let tokens = seq![TokenView::Number(value), TokenView::Operator(Op::Semicolon)];
    let names = Seq::<Seq<char>>::empty();
    assert(lex(digits + semicolon) == Ok::<Seq<TokenView>, LexError>(tokens)) by {
        lemma_lex_number(digits, semicolon);
        lemma_lex_operator(Op::Semicolon, Seq::empty());
        lemma_lex_empty();
        assert(semicolon + Seq::<char>::empty() =~= semicolon);
        assert(seq![TokenView::Number(value)] + (seq![TokenView::Operator(Op::Semicolon)]
            + Seq::<TokenView>::empty()) =~= tokens);
    }
    let number = Parsed { node: Node::literal(value), pos: 1, names };
    assert(crate::grammar::parse_primary(tokens, 0, names) == Ok::<Parsed, ParseError>(number));
    lemma_parse_atom(Level::Multiplicative, tokens, 0, names);
    lemma_parse_statement(Level::Multiplicative, tokens, 0, names, number);
    lemma_parse_one_statement(tokens, names, Parsed { node: number.node, pos: 2, names });
    lemma_one_statement_result(Node::literal(value), m);
}

/// The tokens of the statement `a op b;`.
pub open spec fn operation_tokens(a: i64, op: Op, b: i64) -> Seq<TokenView> {
    seq![
        TokenView::Number(a),
        TokenView::Operator(op),
        TokenView::Number(b),
        TokenView::Operator(Op::Semicolon),
    ]
}

/// The tree of the statement `a op b;`.
pub open spec fn operation_tree(a: i64, op: Op, b: i64) -> Node
    recommends
        level_of(op) is Some,
{
    let (operation, swap) = level_of(op).unwrap().operation(op).unwrap();
    joined(operation, swap, Node::literal(a), Node::literal(b))
}

/// The source text `a op b;` has four tokens.
pub proof fn lemma_operation_lexed(a: Seq<char>, op: Op, b: Seq<char>)
    requires
        is_literal(a),
        is_literal(b),
        level_of(op) is Some,
    ensures
        lex(operation_source(a, op, b)) == Ok::<Seq<TokenView>, LexError>(
            operation_tokens(literal_value(a), op, literal_value(b)),
        ),
{
    let x = literal_value(a);
    let y = literal_value(b);
    let semicolon = Op::Semicolon.text();
    let after_a = op.text() + (b + semicolon);
    let after_op = b + semicolon;
    assert(operation_source(a, op, b) =~= a + after_a);
    assert(after_a[0] == op.text()[0]);
    assert(after_op[0] == b[0]);
    lemma_lex_number(a, after_a);
    lemma_lex_operator(op, after_op);
    lemma_lex_number(b, semicolon);
    lemma_lex_operator(Op::Semicolon, Seq::empty());
    lemma_lex_empty();
    assert(semicolon + Seq::<char>::empty() =~= semicolon);
    assert(seq![TokenView::Number(x)] + (seq![TokenView::Operator(op)] + (seq![
        TokenView::Number(y),
    ] + (seq![TokenView::Operator(Op::Semicolon)] + Seq::<TokenView>::empty())))
        =~= operation_tokens(x, op, y));
}

/// The tokens of `a op b;` are a program of one statement: the operation.
pub proof fn lemma_operation_parsed(a: i64, op: Op, b: i64)
    requires
        level_of(op) is Some,
    ensures
        parse_program(operation_tokens(a, op, b), 0, Seq::empty()) == Ok::<
            (Seq<Node>, Seq<Seq<char>>),
            ParseError,
        >((seq![operation_tree(a, op, b)], Seq::empty())),
{
    let level = level_of(op).unwrap();
    let node = operation_tree(a, op, b);
    let tokens = operation_tokens(a, op, b);
    let names = Seq::<Seq<char>>::empty();
    lemma_parse_operation(level, tokens, 0, names, a, op, b);
    lemma_parse_statement(level, tokens, 0, names, Parsed { node, pos: 3, names });
    lemma_parse_one_statement(tokens, names, Parsed { node, pos: 4, names });
}

/// The routine of the program `a op b;` returns the result of the operation.
pub proof fn lemma_operation_result(a: i64, op: Op, b: i64, m: Machine)
    requires
        level_of(op) is Some,
        can_call(seq![operation_tree(a, op, b)], m),
    ensures
        ({
            let (operation, swap) = level_of(op).unwrap().operation(op).unwrap();
            routine_result(seq![operation_tree(a, op, b)], m) == if swap {
                apply(operation, b, a)
            } else {
                apply(operation, a, b)
            }
        }),
{
    let node = operation_tree(a, op, b);
    assert(well_formed(Node::literal(a)) && well_formed(Node::literal(b)));
    assert(eval(Node::literal(a), entry_frame(m)) == Some((a, entry_frame(m))));
    assert(eval(Node::literal(b), entry_frame(m)) == Some((b, entry_frame(m))));
    lemma_one_statement_result(node, m);
}

/// A program that is one operation on two number literals is the tree of
/// that operation, with the operands in their places or changed over as the
/// operator asks, and its routine returns the result of the operation.
pub proof fn lemma_operation_program(a: Seq<char>, op: Op, b: Seq<char>, m: Machine)
    requires
        is_literal(a),
        is_literal(b),
        level_of(op) is Some,
        can_call(seq![operation_tree(literal_value(a), op, literal_value(b))], m),
    ensures
        ({
            let (operation, swap) = level_of(op).unwrap().operation(op).unwrap();
            let node = operation_tree(literal_value(a), op, literal_value(b));
            &&& parsed(operation_source(a, op, b)) == Ok::<Seq<Node>, CompileError>(seq![node])
            &&& routine_result(seq![node], m) == if swap {
                apply(operation, literal_value(b), literal_value(a))
            } else {
                apply(operation, literal_value(a), literal_value(b))
            }
        }),
{
    lemma_operation_lexed(a, op, b);
    lemma_operation_parsed(literal_value(a), op, literal_value(b));
    lemma_operation_result(literal_value(a), op, literal_value(b), m);
}

/// Whether the routine of each program `a op b;` can be called in the state
/// `m`.
pub open spec fn can_call_operations(a: i64, b: i64, m: Machine) -> bool {
    forall|op: Op| level_of(op) is Some ==> can_call(seq![#[trigger] operation_tree(a, op, b)], m)
}

/// A stack pointer that is some hundred bytes away from the ends of the
/// memory leaves room for the routine of each program `a op b;`.
pub proof fn lemma_operations_fit(a: i64, b: i64, m: Machine)
    requires
        i64::MIN + 512 <= m.rsp <= i64::MAX - 8,
    ensures
        can_call_operations(a, b, m),
{
    assert forall|op: Op| level_of(op) is Some implies can_call(
        seq![#[trigger] operation_tree(a, op, b)],
        m,
    ) by {
        let node = operation_tree(a, op, b);
        let program = seq![node];
        assert(emitted(program.skip(1)) =~= Seq::<Node>::empty());
        assert(emitted(program) =~= program);
        assert(program.drop_last() =~= Seq::<Node>::empty());
        assert(body_code(program.drop_last()).len() == 0);
        assert(crate::generator::code(Node::literal(a)).len() == 1);
        assert(crate::generator::code(Node::literal(b)).len() == 1);
        assert(crate::generator::code(node).len() <= 8);
        assert(body_code(program).len() <= 9);
    }
}

/// The sum, the difference and the product of two number literals are
/// computed as written, wrapping round at 64 bits; their quotient is rounded
/// towards zero, and a division by zero faults.
pub proof fn lemma_arithmetic_programs(a: Seq<char>, b: Seq<char>, m: Machine)
    requires
        is_literal(a),
        is_literal(b),
        can_call_operations(literal_value(a), literal_value(b), m),
    ensures
        parsed(operation_source(a, Op::Plus, b)) matches Ok(sum) && routine_result(sum, m)
            == Some(wrap(literal_value(a) + literal_value(b))),
        parsed(operation_source(a, Op::Minus, b)) matches Ok(difference) && routine_result(
            difference,
            m,
        ) == Some(wrap(literal_value(a) - literal_value(b))),
        parsed(operation_source(a, Op::Star, b)) matches Ok(product) && routine_result(
            product,
            m,
        ) == Some(wrap(literal_value(a) * literal_value(b))),
        parsed(operation_source(a, Op::Slash, b)) matches Ok(division) && routine_result(
            division,
            m,
        ) == if literal_value(b) == 0 {
            None
        } else {
            Some(quotient(literal_value(a) as int, literal_value(b) as int) as i64)
        },
{
    lemma_operation_program(a, Op::Plus, b, m);
    lemma_operation_program(a, Op::Minus, b, m);
    lemma_operation_program(a, Op::Star, b, m);
    lemma_operation_program(a, Op::Slash, b, m);
    if literal_value(b) != 0 {
        crate::machine::lemma_quotient_bounds(literal_value(a) as int, literal_value(b) as int);
    }
}

/// A comparison of two number literals returns 1 where it holds of their
/// values and 0 where it does not. `a > b` is the same program as `b < a`, and
/// `a >= b` the same as `b <= a`.
pub proof fn lemma_comparison_programs(a: Seq<char>, b: Seq<char>, m: Machine)
    requires
        is_literal(a),
        is_literal(b),
        can_call_operations(literal_value(a), literal_value(b), m),
        can_call_operations(literal_value(b), literal_value(a), m),
    ensures
        parsed(operation_source(a, Op::EqEq, b)) matches Ok(program) && routine_result(
            program,
            m,
        ) == Some(truth(literal_value(a) == literal_value(b))),
        parsed(operation_source(a, Op::Ne, b)) matches Ok(program) && routine_result(program, m)
            == Some(truth(literal_value(a) != literal_value(b))),
        parsed(operation_source(a, Op::Lt, b)) matches Ok(program) && routine_result(program, m)
            == Some(truth(literal_value(a) < literal_value(b))),
        parsed(operation_source(a, Op::Le, b)) matches Ok(program) && routine_result(program, m)
            == Some(truth(literal_value(a) <= literal_value(b))),
        parsed(operation_source(a, Op::Gt, b)) matches Ok(program) && routine_result(program, m)
            == Some(truth(literal_value(a) > literal_value(b))),
        parsed(operation_source(a, Op::Ge, b)) matches Ok(program) && routine_result(program, m)
            == Some(truth(literal_value(a) >= literal_value(b))),
        parsed(operation_source(a, Op::Gt, b)) == parsed(operation_source(b, Op::Lt, a)),
        parsed(operation_source(a, Op::Ge, b)) == parsed(operation_source(b, Op::Le, a)),
{
    lemma_operation_program(a, Op::EqEq, b, m);
    lemma_operation_program(a, Op::Ne, b, m);
    lemma_operation_program(a, Op::Lt, b, m);
    lemma_operation_program(a, Op::Le, b, m);
    lemma_operation_program(a, Op::Gt, b, m);
    lemma_operation_program(a, Op::Ge, b, m);
    lemma_operation_program(b, Op::Lt, a, m);
    lemma_operation_program(b, Op::Le, a, m);
}

/// A statement that returns ends the routine: the statements behind it get no
/// code, and the routine returns the value of what is returned, computed
/// after the statements before it.
pub proof fn lemma_return_ends_routine(program: Seq<Node>, at: int, value: Node, m: Machine)
    requires
        0 <= at < program.len(),
        program[at].kind == NodeKind::Return(Box::new(value)),
        forall|i: int| 0 <= i < at ==> !((#[trigger] program[i]).kind is Return),
        forall|i: int| 0 <= i <= at ==> well_formed(#[trigger] program[i]),
        can_call(program, m),
    ensures
        emitted(program) == program.take(at + 1),
        routine(program) == routine(program.take(at + 1)),
        routine_result(program, m) == match result_of(
            program.take(at),
            m.rax,
            entry_frame(m),
        ) {
            Some((_, frame)) => match eval(value, frame) {
                Some((returned, _)) => Some(returned),
                None => None,
            },
            None => None,
        },
{
    let kept = program.take(at + 1);
    lemma_emitted_upto(program, at + 1);
    lemma_emitted_upto(kept, at + 1);
    assert(kept.take(at + 1) =~= kept);
    assert(kept.drop_last() =~= program.take(at));
    assert(kept.last() == program[at]);
    assert forall|frame: Map<int, i64>| eval(kept.last(), frame) == eval(value, frame) by {}
    lemma_routine_computes(kept, m);
}

/// The source text of the two statements `name = digits; name;`.
pub open spec fn assignment_source(name: Seq<char>, digits: Seq<char>) -> Seq<char> {
    name + Op::Assign.text() + digits + Op::Semicolon.text() + name + Op::Semicolon.text()
}

/// The tokens of the two statements `name = value; name;`.
pub open spec fn assignment_tokens(name: Seq<char>, value: i64) -> Seq<TokenView> {
    seq![
        TokenView::Ident(name),
        TokenView::Operator(Op::Assign),
        TokenView::Number(value),
        TokenView::Operator(Op::Semicolon),
        TokenView::Ident(name),
        TokenView::Operator(Op::Semicolon),
    ]
}

/// The trees of the two statements `name = value; name;`, where the name is
/// the first that the program uses.
pub open spec fn assignment_trees(value: i64) -> Seq<Node> {
    seq![
        Node::assignment(Node::variable(slot_at(0)), Node::literal(value)),
        Node::variable(slot_at(0)),
    ]
}

/// The source text `name = digits; name;` has six tokens.
pub proof fn lemma_assignment_lexed(name: Seq<char>, digits: Seq<char>)
    requires
        is_name(name),
        !Op::Return.text().is_prefix_of(name),
        is_literal(digits),
    ensures
        lex(assignment_source(name, digits)) == Ok::<Seq<TokenView>, LexError>(
            assignment_tokens(name, literal_value(digits)),
        ),
{
    let assign = Op::Assign.text();
    let semicolon = Op::Semicolon.text();
    let value = literal_value(digits);
    let read = name + semicolon;
    let after_value = semicolon + read;
    let after_assign = digits + after_value;
    let after_name = assign + after_assign;
    assert(assignment_source(name, digits) =~= name + after_name);
    assert(after_name[0] == '=');
    assert(after_assign[0] == digits[0]);
    assert(after_value[0] == ';');
    assert(read[0] == name[0]);
    assert(!Op::Return.text().is_prefix_of(name + after_name)) by {
        lemma_prefix_by_chars(Op::Return.text(), name);
        lemma_prefix_by_chars(Op::Return.text(), name + after_name);
        if name.len() < 6 {
            assert((name + after_name)[name.len() as int] == '=');
        } else {
            assert forall|i: int| 0 <= i < 6 implies (name + after_name)[i] == name[i] by {}
        }
    }
    assert(!Op::Return.text().is_prefix_of(read)) by {
        lemma_prefix_by_chars(Op::Return.text(), name);
        lemma_prefix_by_chars(Op::Return.text(), read);
        if name.len() < 6 {
            assert(read[name.len() as int] == ';');
        } else {
            assert forall|i: int| 0 <= i < 6 implies read[i] == name[i] by {}
        }
    }
    lemma_lex_ident(name, after_name);
    lemma_lex_operator(Op::Assign, after_assign);
    lemma_lex_number(digits, after_value);
    lemma_lex_operator(Op::Semicolon, read);
    lemma_lex_ident(name, semicolon);
    lemma_lex_operator(Op::Semicolon, Seq::empty());
    lemma_lex_empty();
    assert(semicolon + Seq::<char>::empty() =~= semicolon);
    assert(seq![TokenView::Ident(name)] + (seq![TokenView::Operator(Op::Assign)] + (seq![
        TokenView::Number(value),
    ] + (seq![TokenView::Operator(Op::Semicolon)] + (seq![TokenView::Ident(name)] + (seq![
        TokenView::Operator(Op::Semicolon),
    ] + Seq::<TokenView>::empty()))))) =~= assignment_tokens(name, value));
}

/// The tokens of `name = value; name;` are a program of two statements: the
/// assignment to the first slot and the read of it.
pub proof fn lemma_assignment_parsed(name: Seq<char>, value: i64)
    ensures
        parse_program(assignment_tokens(name, value), 0, Seq::empty()) == Ok::<
            (Seq<Node>, Seq<Seq<char>>),
            ParseError,
        >((assignment_trees(value), seq![name])),
{
    let tokens = assignment_tokens(name, value);
    let none = Seq::<Seq<char>>::empty();
    let known = seq![name];
    let slot = slot_at(0);
    assert(resolve(none, name) == Ok::<(usize, Seq<Seq<char>>), ParseError>((slot, known))) by {
        assert(none.push(name) =~= known);
    }
    assert(resolve(known, name) == Ok::<(usize, Seq<Seq<char>>), ParseError>((slot, known))) by {
        assert(known[0] == name);
        assert(known.index_of(name) == 0);
    }
    let first = Parsed {
        node: Node::assignment(Node::variable(slot), Node::literal(value)),
        pos: 4,
        names: known,
    };
    let second = Parsed { node: Node::variable(slot), pos: 6, names: known };
    lemma_parse_assignment(tokens, 0, none, name, value);
    lemma_parse_read(tokens, 4, known, name);
    lemma_parse_first_statement(tokens, 0, none, first);
    lemma_parse_first_statement(tokens, 4, known, second);
    assert(parse_program(tokens, 6, known) == Ok::<(Seq<Node>, Seq<Seq<char>>), ParseError>(
        (Seq::empty(), known),
    ));
    assert(seq![first.node] + (seq![second.node] + Seq::<Node>::empty()) =~= assignment_trees(
        value,
    ));
}

/// A variable that a number is assigned to holds the number: the program
/// `name = digits; name;` returns the value of the number, whatever the name.
/// So does the assignment alone, which is an expression.
pub proof fn lemma_assignment_program(name: Seq<char>, digits: Seq<char>, m: Machine)
    requires
        is_name(name),
        !Op::Return.text().is_prefix_of(name),
        is_literal(digits),
        can_call(assignment_trees(literal_value(digits)), m),
        can_call(assignment_trees(literal_value(digits)).take(1), m),
    ensures
        parsed(assignment_source(name, digits)) == Ok::<Seq<Node>, CompileError>(
            assignment_trees(literal_value(digits)),
        ),
        routine_result(assignment_trees(literal_value(digits)), m) == Some(
            literal_value(digits),
        ),
        routine_result(assignment_trees(literal_value(digits)).take(1), m) == Some(
            literal_value(digits),
        ),
{
    let value = literal_value(digits);
    let program = assignment_trees(value);
    let slot = slot_at(0);
    let assignment = program[0];
    let read = program[1];
    lemma_assignment_lexed(name, digits);
    lemma_assignment_parsed(name, value);
    assert(well_formed(assignment) && well_formed(read)) by {
        assert(well_formed(Node::variable(slot)));
        assert(well_formed(Node::literal(value)));
    }
    let stored = entry_frame(m).insert(slot as int, value);
    assert(eval(assignment, entry_frame(m)) == Some((value, stored))) by {
        assert(eval(Node::literal(value), entry_frame(m)) == Some((value, entry_frame(m))));
    }
    assert(eval(read, stored) == Some((value, stored)));
    assert(program.take(1) =~= seq![assignment]);
    lemma_one_statement_result(assignment, m);
    assert(emitted(program) == program) by {
        lemma_emitted_upto(program, 2);
        assert(program.take(2) =~= program);
    }
    assert(result_of(program, m.rax, entry_frame(m)) == Some((value, stored))) by {
        assert(program.drop_last() =~= seq![assignment]);
        assert(seq![assignment].drop_last() =~= Seq::<Node>::empty());
        let frame = entry_frame(m);
        assert(result_of(Seq::<Node>::empty(), m.rax, frame) == Some((m.rax, frame)));
        assert(result_of(seq![assignment], m.rax, frame) == eval(assignment, frame));
    }
    lemma_routine_computes(program, m);
}

} // verus!
