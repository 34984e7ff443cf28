//! The grammar of the language, from the loosest binding to the tightest:
//!
//! ```text
//! program        := statement*
//! statement      := expression ';'
//! expression     := assignment
//! assignment     := equality ( '=' assignment )?
//! equality       := relational ( ('==' | '!=') relational )*
//! relational     := additive ( ('<' | '<=' | '>' | '>=') additive )*
//! additive       := multiplicative ( ('+' | '-') multiplicative )*
//! multiplicative := unary ( ('*' | '/') unary )*
//! unary          := ('+' | '-')? primary
//! primary        := number | identifier | '(' expression ')'
//! ```
//!
//! The functions `parse_*` say, on sequences of tokens, what each rule
//! yields: a tree and the index behind it, or an error. The table of names
//! goes through them: each name gets the next free slot where it is first
//! met and keeps it.

use crate::node::valid_slot;
use crate::node::well_formed;
use crate::node::BinOp;
use crate::node::Node;
use crate::node::ParseError;
use crate::node::FRAME_SIZE;
use crate::node::MAX_VARIABLES;
use crate::node::WORD_SIZE;
use crate::token::Op;
use crate::token::TokenView;
use vstd::prelude::*;

verus! {

/// The slot of the variable that was met as number `index`, counting from 0.
pub open spec fn slot_at(index: int) -> usize {
    ((index + 1) * WORD_SIZE) as usize
}

/// Looks `name` up in the table `names`, which lists the names met so far in
/// the order in which they were first met. A known name keeps its slot and the
/// table; a new name is added at the end, if the table is not full.
pub open spec fn resolve(names: Seq<Seq<char>>, name: Seq<char>) -> Result<
    (usize, Seq<Seq<char>>),
    ParseError,
> {
    if names.contains(name) {
        Ok((slot_at(names.index_of(name)), names))
    } else if names.len() < MAX_VARIABLES {
        Ok((slot_at(names.len() as int), names.push(name)))
    } else {
        Err(ParseError::TooManyVariables)
    }
}

/// What a rule has yielded: a tree, the index of the first token behind it,
/// and the table of names after it.
pub struct Parsed {
    pub node: Node,
    pub pos: int,
    pub names: Seq<Seq<char>>,
}

/// The outcome of a rule that started at `start`, counted as a failure
/// unless it has moved forward within the tokens. Every rule does move
/// forward: see [`lemma_rules_move_forward`].
pub open spec fn moved(start: int, len: nat, outcome: Result<Parsed, ParseError>) -> Result<
    Parsed,
    ParseError,
> {
    match outcome {
        Ok(parsed) => if start < parsed.pos <= len {
            outcome
        } else {
            Err(ParseError::UnexpectedEnd)
        },
        Err(_) => outcome,
    }
}

/// The operator at index `pos`, if there is a token and it is an operator.
pub open spec fn op_here(tokens: Seq<TokenView>, pos: int) -> Option<Op> {
    if 0 <= pos < tokens.len() {
        match tokens[pos] {
            TokenView::Operator(op) => Some(op),
            _ => None,
        }
    } else {
        None
    }
}

/// The four rules of the form `operand ( operator operand )*`.
#[derive(Clone, Copy, Debug, PartialEq, Eq, Structural)]
pub enum Level {
    Equality,
    Relational,
    Additive,
    Multiplicative,
}

impl Level {
    /// The operation that `op` denotes at this level, and whether its
    /// operands change places: `a > b` is read as `b < a`, and `a >= b` as
    /// `b <= a`.
    pub open spec fn operation(self, op: Op) -> Option<(BinOp, bool)> {
        match (self, op) {
            (Level::Equality, Op::EqEq) => Some((BinOp::Eq, false)),
            (Level::Equality, Op::Ne) => Some((BinOp::Ne, false)),
            (Level::Relational, Op::Lt) => Some((BinOp::Lt, false)),
            (Level::Relational, Op::Le) => Some((BinOp::Le, false)),
            (Level::Relational, Op::Gt) => Some((BinOp::Lt, true)),
            (Level::Relational, Op::Ge) => Some((BinOp::Le, true)),
            (Level::Additive, Op::Plus) => Some((BinOp::Add, false)),
            (Level::Additive, Op::Minus) => Some((BinOp::Sub, false)),
            (Level::Multiplicative, Op::Star) => Some((BinOp::Mul, false)),
            (Level::Multiplicative, Op::Slash) => Some((BinOp::Div, false)),
            _ => None,
        }
    }

    /// A number that grows from the tightest level to the loosest.
    pub open spec fn rank(self) -> int {
        match self {
            Level::Multiplicative => 3,
            Level::Additive => 5,
            Level::Relational => 7,
            Level::Equality => 9,
        }
    }
}

/// The tree of `lhs op rhs`, or of `rhs op lhs` where the operands change
/// places.
pub open spec fn joined(op: BinOp, swap: bool, lhs: Node, rhs: Node) -> Node {
    if swap {
        Node::binary(op, rhs, lhs)
    } else {
        Node::binary(op, lhs, rhs)
    }
}

/// `primary := number | identifier | '(' expression ')'`
pub open spec fn parse_primary(tokens: Seq<TokenView>, pos: int, names: Seq<Seq<char>>) -> Result<
    Parsed,
    ParseError,
>
    decreases tokens.len() - pos, 0int,
{
    if !(0 <= pos < tokens.len()) {
        Err(ParseError::UnexpectedEnd)
    } else {
        match tokens[pos] {
            TokenView::Number(value) => Ok(
                Parsed { node: Node::literal(value), pos: pos + 1, names },
            ),
            TokenView::Ident(name) => match resolve(names, name) {
                Ok((slot, known)) => Ok(
                    Parsed { node: Node::variable(slot), pos: pos + 1, names: known },
                ),
                Err(e) => Err(e),
            },
            TokenView::Operator(Op::LParen) => match moved(
                pos,
                tokens.len(),
                parse_expr(tokens, pos + 1, names),
            ) {
                Ok(inner) => if op_here(tokens, inner.pos) == Some(Op::RParen) {
                    Ok(Parsed { node: inner.node, pos: inner.pos + 1, names: inner.names })
                } else {
                    Err(ParseError::UnmatchedParen(pos as usize))
                },
                Err(e) => Err(e),
            },
            TokenView::Operator(_) => Err(ParseError::UnexpectedToken(pos as usize)),
        }
    }
}

/// `unary := ('+' | '-')? primary`, where `-x` is read as `0 - x`.
pub open spec fn parse_unary(tokens: Seq<TokenView>, pos: int, names: Seq<Seq<char>>) -> Result<
    Parsed,
    ParseError,
>
    decreases tokens.len() - pos, 1int,
{
    match op_here(tokens, pos) {
        Some(Op::Plus) => parse_primary(tokens, pos + 1, names),
        Some(Op::Minus) => match parse_primary(tokens, pos + 1, names) {
            Ok(operand) => Ok(
                Parsed {
                    node: Node::binary(BinOp::Sub, Node::literal(0), operand.node),
                    pos: operand.pos,
                    names: operand.names,
                },
            ),
            Err(e) => Err(e),
        },
        _ => parse_primary(tokens, pos, names),
    }
}

/// An operand of `level`: the rule that binds one step tighter.
pub open spec fn parse_operand(
    level: Level,
    tokens: Seq<TokenView>,
    pos: int,
    names: Seq<Seq<char>>,
) -> Result<Parsed, ParseError>
    decreases tokens.len() - pos, level.rank() - 1,
{
    match level {
        Level::Equality => parse_binary(Level::Relational, tokens, pos, names),
        Level::Relational => parse_binary(Level::Additive, tokens, pos, names),
        Level::Additive => parse_binary(Level::Multiplicative, tokens, pos, names),
        Level::Multiplicative => parse_unary(tokens, pos, names),
    }
}

/// What follows the operands read so far at `level`, whose tree is `lhs`:
/// `( operator operand )*`. Operators of one level group to the left.
pub open spec fn parse_rest(
    level: Level,
    tokens: Seq<TokenView>,
    pos: int,
    names: Seq<Seq<char>>,
    lhs: Node,
) -> Result<Parsed, ParseError>
    decreases tokens.len() - pos, 0int,
{
    match op_here(tokens, pos) {
        Some(op) => match level.operation(op) {
            Some((operation, swap)) => match moved(
                pos,
                tokens.len(),
                parse_operand(level, tokens, pos + 1, names),
            ) {
                Ok(rhs) => parse_rest(
                    level,
                    tokens,
                    rhs.pos,
                    rhs.names,
                    joined(operation, swap, lhs, rhs.node),
                ),
                Err(e) => Err(e),
            },
            None => Ok(Parsed { node: lhs, pos, names }),
        },
        None => Ok(Parsed { node: lhs, pos, names }),
    }
}

/// `operand ( operator operand )*` with the operators of `level`.
pub open spec fn parse_binary(
    level: Level,
    tokens: Seq<TokenView>,
    pos: int,
    names: Seq<Seq<char>>,
) -> Result<Parsed, ParseError>
    decreases tokens.len() - pos, level.rank(),
{
    match moved(pos, tokens.len(), parse_operand(level, tokens, pos, names)) {
        Ok(first) => parse_rest(level, tokens, first.pos, first.names, first.node),
        Err(e) => Err(e),
    }
}

/// `assignment := equality ( '=' assignment )?`. What stands before the `=`
/// has to be a variable.
pub open spec fn parse_assign(tokens: Seq<TokenView>, pos: int, names: Seq<Seq<char>>) -> Result<
    Parsed,
    ParseError,
>
    decreases tokens.len() - pos, 10int,
{
    match moved(pos, tokens.len(), parse_binary(Level::Equality, tokens, pos, names)) {
        Ok(target) => if op_here(tokens, target.pos) == Some(Op::Assign) {
            if !target.node.is_variable() {
                Err(ParseError::InvalidAssignTarget(target.pos as usize))
            } else {
                match parse_assign(tokens, target.pos + 1, target.names) {
                    Ok(value) => Ok(
                        Parsed {
                            node: Node::assignment(target.node, value.node),
                            pos: value.pos,
                            names: value.names,
                        },
                    ),
                    Err(e) => Err(e),
                }
            }
        } else {
            Ok(target)
        },
        Err(e) => Err(e),
    }
}

/// `expression := assignment`
pub open spec fn parse_expr(tokens: Seq<TokenView>, pos: int, names: Seq<Seq<char>>) -> Result<
    Parsed,
    ParseError,
>
    decreases tokens.len() - pos, 11int,
{
    parse_assign(tokens, pos, names)
}

/// `statement := expression ';'`
pub open spec fn parse_stmt(tokens: Seq<TokenView>, pos: int, names: Seq<Seq<char>>) -> Result<
    Parsed,
    ParseError,
> {
    match parse_expr(tokens, pos, names) {
        Ok(expr) => if op_here(tokens, expr.pos) == Some(Op::Semicolon) {
            Ok(Parsed { node: expr.node, pos: expr.pos + 1, names: expr.names })
        } else if expr.pos < tokens.len() {
            Err(ParseError::UnexpectedToken(expr.pos as usize))
        } else {
            Err(ParseError::UnexpectedEnd)
        },
        Err(e) => Err(e),
    }
}

/// `program := statement*`, from index `pos` to the end of the tokens: the
/// trees of the statements in their order, and the table of names after the
/// last of them.
pub open spec fn parse_program(tokens: Seq<TokenView>, pos: int, names: Seq<Seq<char>>) -> Result<
    (Seq<Node>, Seq<Seq<char>>),
    ParseError,
>
    decreases tokens.len() - pos,
{
    if !(0 <= pos < tokens.len()) {
        Ok((Seq::empty(), names))
    } else {
        match moved(pos, tokens.len(), parse_stmt(tokens, pos, names)) {
            Ok(first) => match parse_program(tokens, first.pos, first.names) {
                Ok((rest, known)) => Ok((seq![first.node] + rest, known)),
                Err(e) => Err(e),
            },
            Err(e) => Err(e),
        }
    }
}

/// A prefix of a prefix is a prefix.
pub proof fn lemma_prefix_of_prefix<A>(a: Seq<A>, b: Seq<A>, c: Seq<A>)
    requires
        a.is_prefix_of(b),
        b.is_prefix_of(c),
    ensures
        a.is_prefix_of(c),
{
    assert(a =~= c.subrange(0, a.len() as int)) by {
        assert forall|i: int| 0 <= i < a.len() implies a[i] == c[i] by {
            assert(a[i] == b.subrange(0, a.len() as int)[i]);
            assert(b[i] == c.subrange(0, b.len() as int)[i]);
        }
    }
}

/// One step of what follows an operand: an operator of the level with the
/// next operand behind it, or nothing more.
pub proof fn lemma_parse_rest_step(
    level: Level,
    tokens: Seq<TokenView>,
    pos: int,
    names: Seq<Seq<char>>,
    lhs: Node,
)
    ensures
        parse_operand(level, tokens, pos + 1, names) == match level {
            Level::Equality => parse_binary(Level::Relational, tokens, pos + 1, names),
            Level::Relational => parse_binary(Level::Additive, tokens, pos + 1, names),
            Level::Additive => parse_binary(Level::Multiplicative, tokens, pos + 1, names),
            Level::Multiplicative => parse_unary(tokens, pos + 1, names),
        },
        parse_rest(level, tokens, pos, names, lhs) == match op_here(tokens, pos) {
            Some(op) => match level.operation(op) {
                Some((operation, swap)) => match moved(
                    pos,
                    tokens.len(),
                    parse_operand(level, tokens, pos + 1, names),
                ) {
                    Ok(rhs) => parse_rest(
                        level,
                        tokens,
                        rhs.pos,
                        rhs.names,
                        joined(operation, swap, lhs, rhs.node),
                    ),
                    Err(e) => Err(e),
                },
                None => Ok(Parsed { node: lhs, pos, names }),
            },
            None => Ok(Parsed { node: lhs, pos, names }),
        },
{
}

/// The outcome of parsing a program whose first statements are `before` and
/// whose remaining tokens give `rest`.
pub open spec fn with_statements_before(
    before: Seq<Node>,
    rest: Result<(Seq<Node>, Seq<Seq<char>>), ParseError>,
) -> Result<(Seq<Node>, Seq<Seq<char>>), ParseError> {
    match rest {
        Ok((nodes, names)) => Ok((before + nodes, names)),
        Err(e) => Err(e),
    }
}

/// A table of names as the parser keeps it: no name twice, and no more names
/// than the frame has slots.
pub open spec fn table_ok(names: Seq<Seq<char>>) -> bool {
    names.no_duplicates() && names.len() <= MAX_VARIABLES
}

/// What holds of the outcome of every rule that started at `pos` with the
/// table `names`: it has moved forward within the tokens, the table has only
/// grown at its end, and the tree is well formed.
pub open spec fn sound(
    tokens: Seq<TokenView>,
    pos: int,
    names: Seq<Seq<char>>,
    outcome: Result<Parsed, ParseError>,
) -> bool {
    outcome matches Ok(parsed) ==> {
        &&& pos < parsed.pos <= tokens.len()
        &&& names.is_prefix_of(parsed.names)
        &&& table_ok(names) ==> table_ok(parsed.names) && well_formed(parsed.node)
    }
}

/// The same for what follows the operands read so far, which may be nothing.
pub open spec fn sound_rest(
    tokens: Seq<TokenView>,
    pos: int,
    names: Seq<Seq<char>>,
    lhs: Node,
    outcome: Result<Parsed, ParseError>,
) -> bool {
    outcome matches Ok(parsed) ==> {
        &&& pos <= parsed.pos <= tokens.len()
        &&& names.is_prefix_of(parsed.names)
        &&& table_ok(names) && well_formed(lhs) ==> table_ok(parsed.names) && well_formed(
            parsed.node,
        )
    }
}

/// Every sequence is a prefix of itself.
pub proof fn lemma_prefix_of_itself<A>(a: Seq<A>)
    ensures
        a.is_prefix_of(a),
{
    assert(a =~= a.subrange(0, a.len() as int));
}

/// Looking a name up leaves the table in order and only adds at its end. The
/// slot it finds lies in the frame, and it is the slot of the name's place in
/// the table.
pub proof fn lemma_resolve_sound(names: Seq<Seq<char>>, name: Seq<char>)
    ensures
        resolve(names, name) matches Ok((slot, known)) ==> {
            &&& names.is_prefix_of(known)
            &&& known.contains(name)
            &&& table_ok(names) ==> {
                &&& table_ok(known)
                &&& valid_slot(slot as int)
                &&& slot == slot_at(known.index_of(name))
            }
        },
{
    if names.contains(name) {
        lemma_prefix_of_itself(names);
    } else if names.len() < MAX_VARIABLES {
        let known = names.push(name);
        assert(names =~= known.subrange(0, names.len() as int));
        assert(known[names.len() as int] == name);
        if table_ok(names) {
            assert(known.index_of(name) == names.len());
        }
    }
}

/// The outcome of `primary` is sound.
pub proof fn lemma_primary_sound(tokens: Seq<TokenView>, pos: int, names: Seq<Seq<char>>)
    ensures
        sound(tokens, pos, names, parse_primary(tokens, pos, names)),
    decreases tokens.len() - pos, 0int,
{
    if 0 <= pos < tokens.len() {
        match tokens[pos] {
            TokenView::Number(_) => {
                lemma_prefix_of_itself(names);
            },
            TokenView::Ident(name) => {
                lemma_resolve_sound(names, name);
            },
            TokenView::Operator(Op::LParen) => {
                lemma_expr_sound(tokens, pos + 1, names);
            },
            TokenView::Operator(_) => {},
        }
    }
}

/// The outcome of `unary` is sound.
pub proof fn lemma_unary_sound(tokens: Seq<TokenView>, pos: int, names: Seq<Seq<char>>)
    ensures
        sound(tokens, pos, names, parse_unary(tokens, pos, names)),
    decreases tokens.len() - pos, 1int,
{
    match op_here(tokens, pos) {
        Some(Op::Plus) => {
            lemma_primary_sound(tokens, pos + 1, names);
        },
        Some(Op::Minus) => {
            lemma_primary_sound(tokens, pos + 1, names);
            assert(well_formed(Node::literal(0)));
        },
        _ => {
            lemma_primary_sound(tokens, pos, names);
        },
    }
}

/// The outcome of an operand is sound.
pub proof fn lemma_operand_sound(
    level: Level,
    tokens: Seq<TokenView>,
    pos: int,
    names: Seq<Seq<char>>,
)
    ensures
        sound(tokens, pos, names, parse_operand(level, tokens, pos, names)),
    decreases tokens.len() - pos, level.rank() - 1,
{
    match level {
        Level::Equality => lemma_binary_sound(Level::Relational, tokens, pos, names),
        Level::Relational => lemma_binary_sound(Level::Additive, tokens, pos, names),
        Level::Additive => lemma_binary_sound(Level::Multiplicative, tokens, pos, names),
        Level::Multiplicative => lemma_unary_sound(tokens, pos, names),
    }
}

/// The outcome of what follows the operands read so far is sound.
pub proof fn lemma_rest_sound(
    level: Level,
    tokens: Seq<TokenView>,
    pos: int,
    names: Seq<Seq<char>>,
    lhs: Node,
)
    requires
        pos <= tokens.len(),
    ensures
        sound_rest(tokens, pos, names, lhs, parse_rest(level, tokens, pos, names, lhs)),
    decreases tokens.len() - pos, 0int,
{
    lemma_prefix_of_itself(names);
    if let Some(op) = op_here(tokens, pos) {
        if let Some((operation, swap)) = level.operation(op) {
            lemma_operand_sound(level, tokens, pos + 1, names);
            if let Ok(rhs) = moved(
                pos,
                tokens.len(),
                parse_operand(level, tokens, pos + 1, names),
            ) {
                let joint = joined(operation, swap, lhs, rhs.node);
                lemma_rest_sound(level, tokens, rhs.pos, rhs.names, joint);
                if let Ok(parsed) = parse_rest(level, tokens, rhs.pos, rhs.names, joint) {
                    lemma_prefix_of_prefix(names, rhs.names, parsed.names);
                }
            }
        }
    }
}

/// The outcome of a rule of the form `operand ( operator operand )*` is
/// sound.
pub proof fn lemma_binary_sound(
    level: Level,
    tokens: Seq<TokenView>,
    pos: int,
    names: Seq<Seq<char>>,
)
    ensures
        sound(tokens, pos, names, parse_binary(level, tokens, pos, names)),
    decreases tokens.len() - pos, level.rank(),
{
    lemma_operand_sound(level, tokens, pos, names);
    if let Ok(first) = moved(pos, tokens.len(), parse_operand(level, tokens, pos, names)) {
        lemma_rest_sound(level, tokens, first.pos, first.names, first.node);
        if let Ok(parsed) = parse_rest(level, tokens, first.pos, first.names, first.node) {
            lemma_prefix_of_prefix(names, first.names, parsed.names);
        }
    }
}

/// The outcome of `assignment` is sound.
pub proof fn lemma_assign_sound(tokens: Seq<TokenView>, pos: int, names: Seq<Seq<char>>)
    ensures
        sound(tokens, pos, names, parse_assign(tokens, pos, names)),
    decreases tokens.len() - pos, 10int,
{
    lemma_binary_sound(Level::Equality, tokens, pos, names);
    if let Ok(target) = moved(
        pos,
        tokens.len(),
        parse_binary(Level::Equality, tokens, pos, names),
    ) {
        if op_here(tokens, target.pos) == Some(Op::Assign) && target.node.is_variable() {
            lemma_assign_sound(tokens, target.pos + 1, target.names);
            if let Ok(value) = parse_assign(tokens, target.pos + 1, target.names) {
                lemma_prefix_of_prefix(names, target.names, value.names);
            }
        }
    }
}

/// The outcome of `expression` is sound.
pub proof fn lemma_expr_sound(tokens: Seq<TokenView>, pos: int, names: Seq<Seq<char>>)
    ensures
        sound(tokens, pos, names, parse_expr(tokens, pos, names)),
    decreases tokens.len() - pos, 11int,
{
    lemma_assign_sound(tokens, pos, names);
}

/// The outcome of `statement` is sound.
pub proof fn lemma_stmt_sound(tokens: Seq<TokenView>, pos: int, names: Seq<Seq<char>>)
    ensures
        sound(tokens, pos, names, parse_stmt(tokens, pos, names)),
{
    lemma_expr_sound(tokens, pos, names);
}

/// A program that the parser yields is made of well-formed trees, and the
/// table has only grown at its end.
pub proof fn lemma_program_sound(tokens: Seq<TokenView>, pos: int, names: Seq<Seq<char>>)
    ensures
        parse_program(tokens, pos, names) matches Ok((nodes, known)) ==> {
            &&& names.is_prefix_of(known)
            &&& table_ok(names) ==> table_ok(known) && forall|i: int|
                0 <= i < nodes.len() ==> well_formed(#[trigger] nodes[i])
        },
    decreases tokens.len() - pos,
{
    lemma_prefix_of_itself(names);
    if 0 <= pos < tokens.len() {
        lemma_stmt_sound(tokens, pos, names);
        if let Ok(first) = moved(pos, tokens.len(), parse_stmt(tokens, pos, names)) {
            lemma_program_sound(tokens, first.pos, first.names);
            if let Ok((rest, known)) = parse_program(tokens, first.pos, first.names) {
                lemma_prefix_of_prefix(names, first.names, known);
                let nodes = seq![first.node] + rest;
                if table_ok(names) {
                    assert forall|i: int| 0 <= i < nodes.len() implies well_formed(
                        #[trigger] nodes[i],
                    ) by {
                        if i > 0 {
                            assert(nodes[i] == rest[i - 1]);
                        }
                    }
                }
            }
        }
    }
}

/// Every rule moves forward, so the test in [`moved`] never turns an outcome
/// into a failure.
pub proof fn lemma_rules_move_forward(tokens: Seq<TokenView>, pos: int, names: Seq<Seq<char>>)
    ensures
        moved(pos, tokens.len(), parse_expr(tokens, pos, names)) == parse_expr(
            tokens,
            pos,
            names,
        ),
        moved(pos, tokens.len(), parse_stmt(tokens, pos, names)) == parse_stmt(
            tokens,
            pos,
            names,
        ),
        forall|level: Level|
            moved(pos, tokens.len(), #[trigger] parse_operand(level, tokens, pos, names))
                == parse_operand(level, tokens, pos, names),
        forall|level: Level|
            moved(pos, tokens.len(), #[trigger] parse_binary(level, tokens, pos, names))
                == parse_binary(level, tokens, pos, names),
{
    lemma_expr_sound(tokens, pos, names);
    lemma_stmt_sound(tokens, pos, names);
    assert forall|level: Level|
        moved(pos, tokens.len(), #[trigger] parse_operand(level, tokens, pos, names))
            == parse_operand(level, tokens, pos, names) by {
        lemma_operand_sound(level, tokens, pos, names);
    }
    assert forall|level: Level|
        moved(pos, tokens.len(), #[trigger] parse_binary(level, tokens, pos, names))
            == parse_binary(level, tokens, pos, names) by {
        lemma_binary_sound(level, tokens, pos, names);
    }
}

/// A name that has a slot keeps it: in every later table, which holds the
/// earlier one at its start, the name is found again at the same slot.
pub proof fn lemma_slot_is_stable(
    names: Seq<Seq<char>>,
    name: Seq<char>,
    later: Seq<Seq<char>>,
)
    requires
        table_ok(names),
        table_ok(later),
        resolve(names, name) matches Ok((_, known)) && known.is_prefix_of(later),
    ensures
        resolve(later, name) == Ok::<(usize, Seq<Seq<char>>), ParseError>(
            (resolve(names, name)->Ok_0.0, later),
        ),
{
    lemma_resolve_sound(names, name);
    let known = resolve(names, name)->Ok_0.1;
    let index = known.index_of(name);
    assert(later[index] == later.subrange(0, known.len() as int)[index]);
    assert(later.index_of(name) == index);
}

/// Whether `op` is an operator of `level` or of a level that binds tighter.
pub open spec fn binds_within(level: Level, op: Op) -> bool {
    ||| Level::Multiplicative.operation(op) is Some
    ||| level.rank() >= Level::Additive.rank() && Level::Additive.operation(op) is Some
    ||| level.rank() >= Level::Relational.rank() && Level::Relational.operation(op) is Some
    ||| level.rank() >= Level::Equality.rank() && Level::Equality.operation(op) is Some
}

/// Whether the token at `pos`, if there is one, is no operator of `level` or
/// of a level that binds tighter.
pub open spec fn ends_operand(level: Level, tokens: Seq<TokenView>, pos: int) -> bool {
    match op_here(tokens, pos) {
        Some(op) => !binds_within(level, op),
        None => true,
    }
}

/// A number or a name is an operand of every level, if the token behind it
/// does not go on with an operation of the level or of a tighter one.
pub proof fn lemma_parse_atom(
    level: Level,
    tokens: Seq<TokenView>,
    pos: int,
    names: Seq<Seq<char>>,
)
    requires
        0 <= pos < tokens.len(),
        !(tokens[pos] is Operator),
        ends_operand(level, tokens, pos + 1),
    ensures
        parse_binary(level, tokens, pos, names) == parse_primary(tokens, pos, names),
    decreases level.rank(),
{
    let atom = parse_primary(tokens, pos, names);
    match level {
        Level::Equality => lemma_parse_atom(Level::Relational, tokens, pos, names),
        Level::Relational => lemma_parse_atom(Level::Additive, tokens, pos, names),
        Level::Additive => lemma_parse_atom(Level::Multiplicative, tokens, pos, names),
        Level::Multiplicative => {
            assert(parse_unary(tokens, pos, names) == atom);
        },
    }
    assert(parse_operand(level, tokens, pos, names) == atom);
    if let Ok(parsed) = atom {
        assert(parsed.pos == pos + 1);
        assert(parse_rest(level, tokens, pos + 1, parsed.names, parsed.node) == atom);
    }
}

/// Two numbers with an operator between them are one operation at the level
/// of the operator, if the token behind them does not go on with an operation
/// of that level or of a tighter one.
pub proof fn lemma_parse_operation(
    level: Level,
    tokens: Seq<TokenView>,
    pos: int,
    names: Seq<Seq<char>>,
    a: i64,
    op: Op,
    b: i64,
)
    requires
        0 <= pos,
        pos + 2 < tokens.len(),
        tokens[pos] == TokenView::Number(a),
        tokens[pos + 1] == TokenView::Operator(op),
        tokens[pos + 2] == TokenView::Number(b),
        level.operation(op) is Some,
        ends_operand(level, tokens, pos + 3),
    ensures
        parse_binary(level, tokens, pos, names) == Ok::<Parsed, ParseError>(
            Parsed {
                node: joined(
                    level.operation(op).unwrap().0,
                    level.operation(op).unwrap().1,
                    Node::literal(a),
                    Node::literal(b),
                ),
                pos: pos + 3,
                names,
            },
        ),
{
    let (operation, swap) = level.operation(op).unwrap();
    let first = Ok::<Parsed, ParseError>(Parsed { node: Node::literal(a), pos: pos + 1, names });
    let second = Ok::<Parsed, ParseError>(Parsed { node: Node::literal(b), pos: pos + 3, names });
    let joint = joined(operation, swap, Node::literal(a), Node::literal(b));
    assert(parse_primary(tokens, pos, names) == first);
    assert(parse_primary(tokens, pos + 2, names) == second);
    match level {
        Level::Equality => {
            lemma_parse_atom(Level::Relational, tokens, pos, names);
            lemma_parse_atom(Level::Relational, tokens, pos + 2, names);
        },
        Level::Relational => {
            lemma_parse_atom(Level::Additive, tokens, pos, names);
            lemma_parse_atom(Level::Additive, tokens, pos + 2, names);
        },
        Level::Additive => {
            lemma_parse_atom(Level::Multiplicative, tokens, pos, names);
            lemma_parse_atom(Level::Multiplicative, tokens, pos + 2, names);
        },
        Level::Multiplicative => {
            assert(parse_unary(tokens, pos, names) == first);
            assert(parse_unary(tokens, pos + 2, names) == second);
        },
    }
    assert(parse_operand(level, tokens, pos, names) == first);
    assert(parse_operand(level, tokens, pos + 2, names) == second);
    assert(parse_rest(level, tokens, pos + 3, names, joint) == Ok::<Parsed, ParseError>(
        Parsed { node: joint, pos: pos + 3, names },
    ));
    assert(parse_rest(level, tokens, pos + 1, names, Node::literal(a)) == Ok::<
        Parsed,
        ParseError,
    >(Parsed { node: joint, pos: pos + 3, names }));
}

/// A name, `=`, a number and a semicolon are a statement that assigns the
/// number to the variable of the name.
pub proof fn lemma_parse_assignment(
    tokens: Seq<TokenView>,
    pos: int,
    names: Seq<Seq<char>>,
    name: Seq<char>,
    value: i64,
)
    requires
        0 <= pos,
        pos + 3 < tokens.len(),
        tokens[pos] == TokenView::Ident(name),
        tokens[pos + 1] == TokenView::Operator(Op::Assign),
        tokens[pos + 2] == TokenView::Number(value),
        tokens[pos + 3] == TokenView::Operator(Op::Semicolon),
        resolve(names, name) is Ok,
    ensures
        parse_stmt(tokens, pos, names) == Ok::<Parsed, ParseError>(
            Parsed {
                node: Node::assignment(
                    Node::variable(resolve(names, name)->Ok_0.0),
                    Node::literal(value),
                ),
                pos: pos + 4,
                names: resolve(names, name)->Ok_0.1,
            },
        ),
{
    let (slot, known) = resolve(names, name)->Ok_0;
    let target = Parsed { node: Node::variable(slot), pos: pos + 1, names: known };
    let stored = Parsed { node: Node::literal(value), pos: pos + 3, names: known };
    let whole = Parsed {
        node: Node::assignment(target.node, stored.node),
        pos: pos + 3,
        names: known,
    };
    assert(parse_primary(tokens, pos, names) == Ok::<Parsed, ParseError>(target));
    assert(parse_primary(tokens, pos + 2, known) == Ok::<Parsed, ParseError>(stored));
    lemma_parse_atom(Level::Equality, tokens, pos, names);
    lemma_parse_atom(Level::Equality, tokens, pos + 2, known);
    assert(parse_assign(tokens, pos + 2, known) == Ok::<Parsed, ParseError>(stored));
    assert(parse_assign(tokens, pos, names) == Ok::<Parsed, ParseError>(whole));
    assert(parse_expr(tokens, pos, names) == Ok::<Parsed, ParseError>(whole));
}

/// A name and a semicolon are a statement that reads the variable of the
/// name.
pub proof fn lemma_parse_read(
    tokens: Seq<TokenView>,
    pos: int,
    names: Seq<Seq<char>>,
    name: Seq<char>,
)
    requires
        0 <= pos,
        pos + 1 < tokens.len(),
        tokens[pos] == TokenView::Ident(name),
        tokens[pos + 1] == TokenView::Operator(Op::Semicolon),
        resolve(names, name) is Ok,
    ensures
        parse_stmt(tokens, pos, names) == Ok::<Parsed, ParseError>(
            Parsed {
                node: Node::variable(resolve(names, name)->Ok_0.0),
                pos: pos + 2,
                names: resolve(names, name)->Ok_0.1,
            },
        ),
{
    let (slot, known) = resolve(names, name)->Ok_0;
    let read = Parsed { node: Node::variable(slot), pos: pos + 1, names: known };
    assert(parse_primary(tokens, pos, names) == Ok::<Parsed, ParseError>(read));
    lemma_parse_atom(Level::Equality, tokens, pos, names);
    lemma_parse_statement(Level::Equality, tokens, pos, names, read);
}

/// A program is its first statement and the program behind it.
pub proof fn lemma_parse_first_statement(
    tokens: Seq<TokenView>,
    pos: int,
    names: Seq<Seq<char>>,
    first: Parsed,
)
    requires
        0 <= pos < first.pos <= tokens.len(),
        parse_stmt(tokens, pos, names) == Ok::<Parsed, ParseError>(first),
    ensures
        parse_program(tokens, pos, names) == with_statements_before(
            seq![first.node],
            parse_program(tokens, first.pos, first.names),
        ),
{
}

/// What a level yields in front of a semicolon is a statement.
pub proof fn lemma_parse_statement(
    level: Level,
    tokens: Seq<TokenView>,
    pos: int,
    names: Seq<Seq<char>>,
    parsed: Parsed,
)
    requires
        parse_binary(level, tokens, pos, names) == Ok::<Parsed, ParseError>(parsed),
        pos < parsed.pos < tokens.len(),
        tokens[parsed.pos] == TokenView::Operator(Op::Semicolon),
    ensures
        parse_stmt(tokens, pos, names) == Ok::<Parsed, ParseError>(
            Parsed { node: parsed.node, pos: parsed.pos + 1, names: parsed.names },
        ),
    decreases 9 - level.rank(),
{
    let outcome = Ok::<Parsed, ParseError>(parsed);
    match level {
        Level::Equality => {
            assert(parse_assign(tokens, pos, names) == outcome);
            assert(parse_expr(tokens, pos, names) == outcome);
        },
        Level::Relational => {
            assert(parse_operand(Level::Equality, tokens, pos, names) == outcome);
            assert(parse_rest(Level::Equality, tokens, parsed.pos, parsed.names, parsed.node)
                == outcome);
            assert(parse_binary(Level::Equality, tokens, pos, names) == outcome);
            lemma_parse_statement(Level::Equality, tokens, pos, names, parsed);
        },
        Level::Additive => {
            assert(parse_operand(Level::Relational, tokens, pos, names) == outcome);
            assert(parse_rest(Level::Relational, tokens, parsed.pos, parsed.names, parsed.node)
                == outcome);
            assert(parse_binary(Level::Relational, tokens, pos, names) == outcome);
            lemma_parse_statement(Level::Relational, tokens, pos, names, parsed);
        },
        Level::Multiplicative => {
            assert(parse_operand(Level::Additive, tokens, pos, names) == outcome);
            assert(parse_rest(Level::Additive, tokens, parsed.pos, parsed.names, parsed.node)
                == outcome);
            assert(parse_binary(Level::Additive, tokens, pos, names) == outcome);
            lemma_parse_statement(Level::Additive, tokens, pos, names, parsed);
        },
    }
}

/// A statement that takes all the tokens is the whole program.
pub proof fn lemma_parse_one_statement(
    tokens: Seq<TokenView>,
    names: Seq<Seq<char>>,
    parsed: Parsed,
)
    requires
        tokens.len() > 0,
        parse_stmt(tokens, 0, names) == Ok::<Parsed, ParseError>(parsed),
        parsed.pos == tokens.len(),
    ensures
        parse_program(tokens, 0, names) == Ok::<(Seq<Node>, Seq<Seq<char>>), ParseError>(
            (seq![parsed.node], parsed.names),
        ),
{
    assert(parse_program(tokens, parsed.pos, parsed.names) == Ok::<
        (Seq<Node>, Seq<Seq<char>>),
        ParseError,
    >((Seq::empty(), parsed.names)));
    assert(seq![parsed.node] + Seq::<Node>::empty() =~= seq![parsed.node]);
}

/// The frame has room for the slot of every variable that the table can
/// hold, and no two of them share a slot.
pub proof fn lemma_slots_lie_in_frame(i: int, j: int)
    requires
        0 <= i < MAX_VARIABLES,
        0 <= j < MAX_VARIABLES,
    ensures
        valid_slot(slot_at(i) as int),
        slot_at(i) == slot_at(j) ==> i == j,
        MAX_VARIABLES * WORD_SIZE == FRAME_SIZE,
{
}

/// By how much the token at `pos` changes the depth of nesting: an opening
/// parenthesis adds one, a closing one takes one off.
pub open spec fn depth_step(tokens: Seq<TokenView>, pos: int) -> int {
    match op_here(tokens, pos) {
        Some(Op::LParen) => 1,
        Some(Op::RParen) => -1,
        _ => 0,
    }
}

/// The depth of nesting behind the tokens from `from` up to `to`, counted
/// from 0.
pub open spec fn depth(tokens: Seq<TokenView>, from: int, to: int) -> int
    decreases to - from,
{
    if to <= from {
        0
    } else {
        depth(tokens, from, to - 1) + depth_step(tokens, to - 1)
    }
}

/// Whether the parentheses among the tokens from `from` up to `to` match: the
/// depth never falls below 0 and is 0 at the end.
pub open spec fn balanced(tokens: Seq<TokenView>, from: int, to: int) -> bool {
    &&& depth(tokens, from, to) == 0
    &&& forall|k: int| from <= k <= to ==> depth(tokens, from, k) >= 0
}

/// The depth behind two stretches of tokens on end is the sum of their
/// depths.
pub proof fn lemma_depth_adds(tokens: Seq<TokenView>, from: int, mid: int, to: int)
    requires
        from <= mid <= to,
    ensures
        depth(tokens, from, to) == depth(tokens, from, mid) + depth(tokens, mid, to),
    decreases to - mid,
{
    if mid < to {
        lemma_depth_adds(tokens, from, mid, to - 1);
    }
}

/// Two balanced stretches of tokens on end are balanced.
pub proof fn lemma_balanced_adds(tokens: Seq<TokenView>, from: int, mid: int, to: int)
    requires
        from <= mid <= to,
        balanced(tokens, from, mid),
        balanced(tokens, mid, to),
    ensures
        balanced(tokens, from, to),
{
    lemma_depth_adds(tokens, from, mid, to);
    assert forall|k: int| from <= k <= to implies depth(tokens, from, k) >= 0 by {
        if k > mid {
            lemma_depth_adds(tokens, from, mid, k);
        }
    }
}

/// One token that is no parenthesis is balanced.
pub proof fn lemma_balanced_token(tokens: Seq<TokenView>, pos: int)
    requires
        depth_step(tokens, pos) == 0,
    ensures
        balanced(tokens, pos, pos + 1),
        balanced(tokens, pos, pos),
{
    assert(depth(tokens, pos, pos) == 0);
    assert(depth(tokens, pos, pos + 1) == 0);
}

/// A balanced stretch of tokens between an opening and a closing parenthesis
/// is balanced, and the closing parenthesis is the first token at which the
/// depth is back at what it was before the opening one.
pub proof fn lemma_balanced_group(tokens: Seq<TokenView>, open: int, close: int)
    requires
        open < close,
        op_here(tokens, open) == Some(Op::LParen),
        op_here(tokens, close) == Some(Op::RParen),
        balanced(tokens, open + 1, close),
    ensures
        balanced(tokens, open, close + 1),
        forall|k: int| open < k <= close ==> depth(tokens, open, k) > 0,
{
    assert(depth(tokens, open, open) == 0);
    assert(depth(tokens, open, open + 1) == 1);
    assert forall|k: int| open < k <= close implies depth(tokens, open, k) == 1 + depth(
        tokens,
        open + 1,
        k,
    ) by {
        lemma_depth_adds(tokens, open, open + 1, k);
    }
    assert(depth(tokens, open, close + 1) == depth(tokens, open, close) + depth_step(
        tokens,
        close,
    ));
}

/// What holds of the tokens that a rule has taken, from `pos` on: their
/// parentheses match.
pub open spec fn takes_balanced(
    tokens: Seq<TokenView>,
    pos: int,
    outcome: Result<Parsed, ParseError>,
) -> bool {
    outcome matches Ok(parsed) ==> pos <= parsed.pos && balanced(tokens, pos, parsed.pos)
}

/// `primary` takes tokens whose parentheses match. Where it takes a group,
/// the parenthesis that closes the group is the one that matches the opening
/// one by depth, however many groups lie between them.
pub proof fn lemma_primary_balanced(tokens: Seq<TokenView>, pos: int, names: Seq<Seq<char>>)
    ensures
        takes_balanced(tokens, pos, parse_primary(tokens, pos, names)),
    decreases tokens.len() - pos, 0int,
{
    if 0 <= pos < tokens.len() {
        match tokens[pos] {
            TokenView::Operator(Op::LParen) => {
                lemma_expr_balanced(tokens, pos + 1, names);
                if let Ok(inner) = moved(pos, tokens.len(), parse_expr(tokens, pos + 1, names)) {
                    if op_here(tokens, inner.pos) == Some(Op::RParen) {
                        lemma_balanced_group(tokens, pos, inner.pos);
                    }
                }
            },
            TokenView::Operator(_) => {},
            _ => {
                lemma_balanced_token(tokens, pos);
            },
        }
    }
}

/// `unary` takes tokens whose parentheses match.
pub proof fn lemma_unary_balanced(tokens: Seq<TokenView>, pos: int, names: Seq<Seq<char>>)
    ensures
        takes_balanced(tokens, pos, parse_unary(tokens, pos, names)),
    decreases tokens.len() - pos, 1int,
{
    match op_here(tokens, pos) {
        Some(Op::Plus) | Some(Op::Minus) => {
            lemma_primary_balanced(tokens, pos + 1, names);
            if let Ok(operand) = parse_primary(tokens, pos + 1, names) {
                lemma_balanced_token(tokens, pos);
                lemma_balanced_adds(tokens, pos, pos + 1, operand.pos);
            }
        },
        _ => {
            lemma_primary_balanced(tokens, pos, names);
        },
    }
}

/// An operand takes tokens whose parentheses match.
pub proof fn lemma_operand_balanced(
    level: Level,
    tokens: Seq<TokenView>,
    pos: int,
    names: Seq<Seq<char>>,
)
    ensures
        takes_balanced(tokens, pos, parse_operand(level, tokens, pos, names)),
    decreases tokens.len() - pos, level.rank() - 1,
{
    match level {
        Level::Equality => lemma_binary_balanced(Level::Relational, tokens, pos, names),
        Level::Relational => lemma_binary_balanced(Level::Additive, tokens, pos, names),
        Level::Additive => lemma_binary_balanced(Level::Multiplicative, tokens, pos, names),
        Level::Multiplicative => lemma_unary_balanced(tokens, pos, names),
    }
}

/// What follows the operands read so far takes tokens whose parentheses
/// match.
pub proof fn lemma_rest_balanced(
    level: Level,
    tokens: Seq<TokenView>,
    pos: int,
    names: Seq<Seq<char>>,
    lhs: Node,
)
    ensures
        takes_balanced(tokens, pos, parse_rest(level, tokens, pos, names, lhs)),
    decreases tokens.len() - pos, 0int,
{
    assert(depth(tokens, pos, pos) == 0);
    if let Some(op) = op_here(tokens, pos) {
        if let Some((operation, swap)) = level.operation(op) {
            lemma_operand_balanced(level, tokens, pos + 1, names);
            if let Ok(rhs) = moved(
                pos,
                tokens.len(),
                parse_operand(level, tokens, pos + 1, names),
            ) {
                let joint = joined(operation, swap, lhs, rhs.node);
                lemma_rest_balanced(level, tokens, rhs.pos, rhs.names, joint);
                if let Ok(parsed) = parse_rest(level, tokens, rhs.pos, rhs.names, joint) {
                    lemma_balanced_token(tokens, pos);
                    lemma_balanced_adds(tokens, pos, pos + 1, rhs.pos);
                    lemma_balanced_adds(tokens, pos, rhs.pos, parsed.pos);
                }
            }
        }
    }
}

/// A rule of the form `operand ( operator operand )*` takes tokens whose
/// parentheses match.
pub proof fn lemma_binary_balanced(
    level: Level,
    tokens: Seq<TokenView>,
    pos: int,
    names: Seq<Seq<char>>,
)
    ensures
        takes_balanced(tokens, pos, parse_binary(level, tokens, pos, names)),
    decreases tokens.len() - pos, level.rank(),
{
    lemma_operand_balanced(level, tokens, pos, names);
    if let Ok(first) = moved(pos, tokens.len(), parse_operand(level, tokens, pos, names)) {
        lemma_rest_balanced(level, tokens, first.pos, first.names, first.node);
        if let Ok(parsed) = parse_rest(level, tokens, first.pos, first.names, first.node) {
            lemma_balanced_adds(tokens, pos, first.pos, parsed.pos);
        }
    }
}

/// `assignment` takes tokens whose parentheses match.
pub proof fn lemma_assign_balanced(tokens: Seq<TokenView>, pos: int, names: Seq<Seq<char>>)
    ensures
        takes_balanced(tokens, pos, parse_assign(tokens, pos, names)),
    decreases tokens.len() - pos, 10int,
{
    lemma_binary_balanced(Level::Equality, tokens, pos, names);
    if let Ok(target) = moved(
        pos,
        tokens.len(),
        parse_binary(Level::Equality, tokens, pos, names),
    ) {
        if op_here(tokens, target.pos) == Some(Op::Assign) && target.node.is_variable() {
            lemma_assign_balanced(tokens, target.pos + 1, target.names);
            if let Ok(value) = parse_assign(tokens, target.pos + 1, target.names) {
                lemma_balanced_token(tokens, target.pos);
                lemma_balanced_adds(tokens, pos, target.pos, target.pos + 1);
                lemma_balanced_adds(tokens, pos, target.pos + 1, value.pos);
            }
        }
    }
}

/// `expression` takes tokens whose parentheses match.
pub proof fn lemma_expr_balanced(tokens: Seq<TokenView>, pos: int, names: Seq<Seq<char>>)
    ensures
        takes_balanced(tokens, pos, parse_expr(tokens, pos, names)),
    decreases tokens.len() - pos, 11int,
{
    lemma_assign_balanced(tokens, pos, names);
}

/// The parentheses of a program match: a text in which they do not is no
/// program.
pub proof fn lemma_program_balanced(tokens: Seq<TokenView>, pos: int, names: Seq<Seq<char>>)
    requires
        0 <= pos,
    ensures
        parse_program(tokens, pos, names) is Ok ==> balanced(
            tokens,
            pos,
            if pos < tokens.len() {
                tokens.len() as int
            } else {
                pos
            },
        ),
    decreases tokens.len() - pos,
{
    assert(depth(tokens, pos, pos) == 0);
    if pos < tokens.len() {
        lemma_expr_balanced(tokens, pos, names);
        if let Ok(first) = moved(pos, tokens.len(), parse_stmt(tokens, pos, names)) {
            lemma_program_balanced(tokens, first.pos, first.names);
            if parse_program(tokens, first.pos, first.names) is Ok {
                let expr = parse_expr(tokens, pos, names)->Ok_0;
                lemma_balanced_token(tokens, expr.pos);
                lemma_balanced_adds(tokens, pos, expr.pos, first.pos);
                if first.pos < tokens.len() {
                    lemma_balanced_adds(tokens, pos, first.pos, tokens.len() as int);
                }
            }
        }
    }
}

/// A group ends at the parenthesis that matches the one it opens with: the
/// first behind which the depth of nesting is back at 0. A closing
/// parenthesis of a group inside it does not end it.
pub proof fn lemma_group_ends_at_match(tokens: Seq<TokenView>, pos: int, names: Seq<Seq<char>>)
    requires
        op_here(tokens, pos) == Some(Op::LParen),
    ensures
        parse_primary(tokens, pos, names) matches Ok(group) ==> {
            &&& op_here(tokens, group.pos - 1) == Some(Op::RParen)
            &&& depth(tokens, pos, group.pos) == 0
            &&& forall|k: int| pos < k < group.pos ==> depth(tokens, pos, k) > 0
            &&& parse_expr(tokens, pos + 1, names) matches Ok(inner) && inner.node == group.node
                && inner.pos == group.pos - 1
        },
{
    lemma_expr_balanced(tokens, pos + 1, names);
    if let Ok(inner) = moved(pos, tokens.len(), parse_expr(tokens, pos + 1, names)) {
        if op_here(tokens, inner.pos) == Some(Op::RParen) {
            lemma_balanced_group(tokens, pos, inner.pos);
        }
    }
}

} // verus!
