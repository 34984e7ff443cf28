//! Syntax trees and the parser that builds them from tokens.
//!
//! The parser goes down the rules of the grammar, one method for each rule.
//! What a rule yields is said in [`crate::grammar`]; each method computes it.

use crate::grammar::lemma_parse_rest_step;
use crate::grammar::lemma_prefix_of_prefix;
use crate::grammar::lemma_program_sound;
use crate::grammar::parse_assign;
use crate::grammar::parse_binary;
use crate::grammar::parse_expr;
use crate::grammar::parse_primary;
use crate::grammar::parse_program;
use crate::grammar::parse_rest;
use crate::grammar::parse_stmt;
use crate::grammar::parse_unary;
use crate::grammar::op_here;
use crate::grammar::resolve;
use crate::grammar::slot_at;
use crate::grammar::with_statements_before;
use crate::grammar::Level;
use crate::grammar::Parsed;
use crate::token::Op;
use crate::token::Token;
use crate::token::TokenKind;
use crate::token::TokenView;
use crate::token::token_views;
use vstd::prelude::*;

verus! {

/// The number of bytes that a variable takes in the frame.
pub const WORD_SIZE: usize = 8;

/// The number of variables that the frame has room for.
pub const MAX_VARIABLES: usize = 26;

/// The number of bytes that the routine reserves for its variables.
pub const FRAME_SIZE: usize = 208;

/// The binary operations of the syntax tree.
#[derive(Clone, Copy, Debug, PartialEq, Eq, Structural)]
pub enum BinOp {
    Add,
    Sub,
    Mul,
    Div,
    Eq,
    Ne,
    Lt,
    Le,
}

/// The forms of a syntax tree. A tree owns its subtrees.
#[derive(Debug, PartialEq, Eq)]
pub enum NodeKind {
    /// A number literal and its value.
    NumberLiteral(i64),
    /// A variable and its slot: the distance in bytes of its storage below
    /// the base of the frame.
    Variable(usize),
    /// An operation, its left operand and its right operand.
    BinaryOp(BinOp, Box<Node>, Box<Node>),
    /// An assignment: its target and the value to store there.
    Assign(Box<Node>, Box<Node>),
    /// The value that the routine returns.
    Return(Box<Node>),
}

/// A syntax tree.
#[derive(Debug, PartialEq, Eq)]
pub struct Node {
    pub kind: NodeKind,
}

impl Node {
    /// The tree of a number literal.
    pub open spec fn literal(value: i64) -> Node {
        Node { kind: NodeKind::NumberLiteral(value) }
    }

    /// The tree of a variable.
    pub open spec fn variable(slot: usize) -> Node {
        Node { kind: NodeKind::Variable(slot) }
    }

    /// The tree of a binary operation.
    pub open spec fn binary(op: BinOp, lhs: Node, rhs: Node) -> Node {
        Node { kind: NodeKind::BinaryOp(op, Box::new(lhs), Box::new(rhs)) }
    }

    /// The tree of an assignment.
    pub open spec fn assignment(target: Node, value: Node) -> Node {
        Node { kind: NodeKind::Assign(Box::new(target), Box::new(value)) }
    }

    /// Whether the tree is a variable.
    pub open spec fn is_variable(self) -> bool {
        self.kind is Variable
    }
}

/// Whether `slot` is the slot of a variable in the frame.
pub open spec fn valid_slot(slot: int) -> bool {
    0 < slot <= FRAME_SIZE && slot % (WORD_SIZE as int) == 0
}

/// Whether the slots of the tree lie in the frame and its assignments have
/// variables as their targets.
pub open spec fn well_formed(node: Node) -> bool
    decreases node,
{
    match node.kind {
        NodeKind::NumberLiteral(_) => true,
        NodeKind::Variable(slot) => valid_slot(slot as int),
        NodeKind::BinaryOp(_, lhs, rhs) => well_formed(*lhs) && well_formed(*rhs),
        NodeKind::Assign(target, value) => target.is_variable() && well_formed(*target)
            && well_formed(*value),
        NodeKind::Return(value) => well_formed(*value),
    }
}

/// Why a sequence of tokens is no program.
#[derive(Clone, Copy, Debug, PartialEq, Eq, Structural)]
pub enum ParseError {
    /// The token at this index cannot stand where it stands.
    UnexpectedToken(usize),
    /// The group that opens at this index is not closed where it ends.
    UnmatchedParen(usize),
    /// The `=` at this index follows something other than a variable.
    InvalidAssignTarget(usize),
    /// The tokens end where more are needed.
    UnexpectedEnd,
    /// There are more distinct names than the frame has slots.
    TooManyVariables,
}

/// A variable of the program: its name and its slot.
struct LVar {
    name: String,
    offset: usize,
}

impl LVar {
    /// The variable `name` at slot `offset`.
    fn new(name: String, offset: usize) -> (var: LVar)
        ensures
            var.name == name,
            var.offset == offset,
    {
        LVar { name: name, offset: offset }
    }
}

/// A parser: the table of the variables met so far, in the order in which
/// they were first met.
pub struct Parser {
    lvars: Vec<LVar>,
}

/// What a method of the parser owes for the rule whose outcome on the same
/// tokens, index and table is `outcome`: the same tree and index, or the same
/// error. The table becomes the one of the outcome; after an error it holds
/// the old one and the names met up to the error.
pub open spec fn follows(
    before: Parser,
    after: Parser,
    tokens: Seq<TokenView>,
    pos: int,
    outcome: Result<Parsed, ParseError>,
    r: Result<(Node, usize), ParseError>,
) -> bool {
    &&& after.wf()
    &&& before.names().is_prefix_of(after.names())
    &&& match outcome {
        Ok(parsed) => {
            &&& r == Ok::<(Node, usize), ParseError>((parsed.node, parsed.pos as usize))
            &&& after.names() == parsed.names
            &&& pos < parsed.pos <= tokens.len()
        },
        Err(e) => r == Err::<(Node, usize), ParseError>(e),
    }
}

/// Reads the operator at index `pos`, if there is a token and it is an
/// operator.
fn operator_at(tokens: &Vec<Token>, pos: usize) -> (r: Option<Op>)
    ensures
        r == op_here(token_views(tokens@), pos as int),
{
    if pos < tokens.len() {
        match &tokens[pos].kind {
            TokenKind::Operator(op) => Some(*op),
            _ => None,
        }
    } else {
        None
    }
}

impl Parser {
    /// The names in the table, in the order of their slots.
    pub closed spec fn names(&self) -> Seq<Seq<char>> {
        self.lvars@.map_values(|var: LVar| var.name@)
    }

    /// The table holds no name twice, the variable at index `i` has the slot
    /// `slot_at(i)`, and there are no more variables than the frame has room
    /// for.
    pub closed spec fn wf(&self) -> bool {
        &&& self.lvars.len() <= MAX_VARIABLES
        &&& self.names().no_duplicates()
        &&& forall|i: int|
            0 <= i < self.lvars.len() ==> (#[trigger] self.lvars[i]).offset == slot_at(i)
    }

    /// A parser that has met no variable yet.
    pub fn new() -> (parser: Parser)
        ensures
            parser.wf(),
            parser.names() == Seq::<Seq<char>>::empty(),
    {
        let parser = Parser { lvars: Vec::new() };
        assert(parser.names() =~= Seq::<Seq<char>>::empty());
        parser
    }

    /// The tree of the operation `op` on `lhs` and `rhs`.
    pub fn operator(op: BinOp, lhs: Node, rhs: Node) -> (node: Node)
        ensures
            node == Node::binary(op, lhs, rhs),
    {
        Node { kind: NodeKind::BinaryOp(op, Box::new(lhs), Box::new(rhs)) }
    }

    /// The tree of the number literal with value `num`.
    pub fn number(num: i64) -> (node: Node)
        ensures
            node == Node::literal(num),
    {
        Node { kind: NodeKind::NumberLiteral(num) }
    }

    /// The tree of the variable at slot `offset`.
    pub fn ident(offset: usize) -> (node: Node)
        ensures
            node == Node::variable(offset),
    {
        Node { kind: NodeKind::Variable(offset) }
    }

    /// Finds the slot of the variable `name`, and gives it the next free one
    /// if the name is new.
    pub fn slot_of(&mut self, name: &String) -> (r: Result<usize, ParseError>)
        requires
            old(self).wf(),
        ensures
            final(self).wf(),
            old(self).names().is_prefix_of(final(self).names()),
            match resolve(old(self).names(), name@) {
                Ok((slot, known)) => {
                    &&& r == Ok::<usize, ParseError>(slot)
                    &&& final(self).names() == known
                },
                Err(e) => {
                    &&& r == Err::<usize, ParseError>(e)
                    &&& final(self).names() == old(self).names()
                },
            },
    {
        let ghost names = self.names();
        let mut i: usize = 0;
        while i < self.lvars.len()
            invariant
                *self == *old(self),
                names == self.names(),
                self.wf(),
                i <= self.lvars.len(),
                forall|j: int| 0 <= j < i ==> names[j] != name@,
            decreases self.lvars.len() - i,
        {
            if self.lvars[i].name == *name {
                assert(names[i as int] == name@);
                assert(names.index_of(name@) == i);
                return Ok(self.lvars[i].offset);
            }
            i += 1;
        }
        assert(!names.contains(name@));
        if self.lvars.len() >= MAX_VARIABLES {
            return Err(ParseError::TooManyVariables);
        }
        let offset = (self.lvars.len() + 1) * WORD_SIZE;
        self.lvars.push(LVar::new(name.clone(), offset));
        proof {
            assert(self.names() =~= names.push(name@));
            assert(names.is_prefix_of(self.names())) by {
                assert(names =~= self.names().subrange(0, names.len() as int));
            }
        }
        Ok(offset)
    }

    /// `primary := number | identifier | '(' expression ')'`
    pub fn term(&mut self, tokens: &Vec<Token>, pos: usize) -> (r: Result<
        (Node, usize),
        ParseError,
    >)
        requires
            old(self).wf(),
        ensures
            follows(
                *old(self),
                *final(self),
                token_views(tokens@),
                pos as int,
                parse_primary(token_views(tokens@), pos as int, old(self).names()),
                r,
            ),
        decreases tokens.len() - pos, 0int,
    {
        if pos >= tokens.len() {
            return Err(ParseError::UnexpectedEnd);
        }
        match &tokens[pos].kind {
            TokenKind::Number(value) => Ok((Parser::number(*value), pos + 1)),
            TokenKind::Ident(name) => match self.slot_of(name) {
                Ok(slot) => Ok((Parser::ident(slot), pos + 1)),
                Err(e) => Err(e),
            },
            TokenKind::Operator(Op::LParen) => match self.expr(tokens, pos + 1) {
                Ok((node, next)) => match operator_at(tokens, next) {
                    Some(Op::RParen) => Ok((node, next + 1)),
                    _ => Err(ParseError::UnmatchedParen(pos)),
                },
                Err(e) => Err(e),
            },
            TokenKind::Operator(_) => Err(ParseError::UnexpectedToken(pos)),
        }
    }

    /// `unary := ('+' | '-')? primary`, where `-x` is read as `0 - x`.
    pub fn unary(&mut self, tokens: &Vec<Token>, pos: usize) -> (r: Result<
        (Node, usize),
        ParseError,
    >)
        requires
            old(self).wf(),
        ensures
            follows(
                *old(self),
                *final(self),
                token_views(tokens@),
                pos as int,
                parse_unary(token_views(tokens@), pos as int, old(self).names()),
                r,
            ),
        decreases tokens.len() - pos, 1int,
    {
        match operator_at(tokens, pos) {
            Some(Op::Plus) => self.term(tokens, pos + 1),
            Some(Op::Minus) => match self.term(tokens, pos + 1) {
                Ok((operand, next)) => Ok(
                    (Parser::operator(BinOp::Sub, Parser::number(0), operand), next),
                ),
                Err(e) => Err(e),
            },
            _ => self.term(tokens, pos),
        }
    }

    /// `multiplicative := unary ( ('*' | '/') unary )*`
    pub fn mul(&mut self, tokens: &Vec<Token>, pos: usize) -> (r: Result<
        (Node, usize),
        ParseError,
    >)
        requires
            old(self).wf(),
        ensures
            follows(
                *old(self),
                *final(self),
                token_views(tokens@),
                pos as int,
                parse_binary(
                    Level::Multiplicative,
                    token_views(tokens@),
                    pos as int,
                    old(self).names(),
                ),
                r,
            ),
        decreases tokens.len() - pos, 3int,
    {
        let ghost views = token_views(tokens@);
        let ghost names = self.names();
        let (mut node, mut next) = match self.unary(tokens, pos) {
            Ok(first) => first,
            Err(e) => {
                return Err(e);
            },
        };
        loop
            invariant
                views == token_views(tokens@),
                names == old(self).names(),
                self.wf(),
                names.is_prefix_of(self.names()),
                pos < next <= tokens.len(),
                parse_binary(Level::Multiplicative, views, pos as int, names) == parse_rest(
                    Level::Multiplicative,
                    views,
                    next as int,
                    self.names(),
                    node,
                ),
            decreases tokens.len() - next,
        {
            let op = match operator_at(tokens, next) {
                Some(Op::Star) => BinOp::Mul,
                Some(Op::Slash) => BinOp::Div,
                _ => {
                    return Ok((node, next));
                },
            };
            let ghost before = self.names();
            proof {
                lemma_parse_rest_step(Level::Multiplicative, views, next as int, before, node);
            }
            let (rhs, after) = match self.unary(tokens, next + 1) {
                Ok(operand) => operand,
                Err(e) => {
                    proof {
                        lemma_prefix_of_prefix(names, before, self.names());
                    }
                    return Err(e);
                },
            };
            proof {
                lemma_prefix_of_prefix(names, before, self.names());
            }
            node = Parser::operator(op, node, rhs);
            next = after;
        }
    }

    /// `additive := multiplicative ( ('+' | '-') multiplicative )*`
    pub fn add(&mut self, tokens: &Vec<Token>, pos: usize) -> (r: Result<
        (Node, usize),
        ParseError,
    >)
        requires
            old(self).wf(),
        ensures
            follows(
                *old(self),
                *final(self),
                token_views(tokens@),
                pos as int,
                parse_binary(
                    Level::Additive,
                    token_views(tokens@),
                    pos as int,
                    old(self).names(),
                ),
                r,
            ),
        decreases tokens.len() - pos, 5int,
    {
        let ghost views = token_views(tokens@);
        let ghost names = self.names();
        let (mut node, mut next) = match self.mul(tokens, pos) {
            Ok(first) => first,
            Err(e) => {
                return Err(e);
            },
        };
        loop
            invariant
                views == token_views(tokens@),
                names == old(self).names(),
                self.wf(),
                names.is_prefix_of(self.names()),
                pos < next <= tokens.len(),
                parse_binary(Level::Additive, views, pos as int, names) == parse_rest(
                    Level::Additive,
                    views,
                    next as int,
                    self.names(),
                    node,
                ),
            decreases tokens.len() - next,
        {
            let op = match operator_at(tokens, next) {
                Some(Op::Plus) => BinOp::Add,
                Some(Op::Minus) => BinOp::Sub,
                _ => {
                    return Ok((node, next));
                },
            };
            let ghost before = self.names();
            proof {
                lemma_parse_rest_step(Level::Additive, views, next as int, before, node);
            }
            let (rhs, after) = match self.mul(tokens, next + 1) {
                Ok(operand) => operand,
                Err(e) => {
                    proof {
                        lemma_prefix_of_prefix(names, before, self.names());
                    }
                    return Err(e);
                },
            };
            proof {
                lemma_prefix_of_prefix(names, before, self.names());
            }
            node = Parser::operator(op, node, rhs);
            next = after;
        }
    }

    /// `relational := additive ( ('<' | '<=' | '>' | '>=') additive )*`, where
    /// `a > b` is read as `b < a`, and `a >= b` as `b <= a`.
    pub fn relational(&mut self, tokens: &Vec<Token>, pos: usize) -> (r: Result<
        (Node, usize),
        ParseError,
    >)
        requires
            old(self).wf(),
        ensures
            follows(
                *old(self),
                *final(self),
                token_views(tokens@),
                pos as int,
                parse_binary(
                    Level::Relational,
                    token_views(tokens@),
                    pos as int,
                    old(self).names(),
                ),
                r,
            ),
        decreases tokens.len() - pos, 7int,
    {
        let ghost views = token_views(tokens@);
        let ghost names = self.names();
        let (mut node, mut next) = match self.add(tokens, pos) {
            Ok(first) => first,
            Err(e) => {
                return Err(e);
            },
        };
        loop
            invariant
                views == token_views(tokens@),
                names == old(self).names(),
                self.wf(),
                names.is_prefix_of(self.names()),
                pos < next <= tokens.len(),
                parse_binary(Level::Relational, views, pos as int, names) == parse_rest(
                    Level::Relational,
                    views,
                    next as int,
                    self.names(),
                    node,
                ),
            decreases tokens.len() - next,
        {
            let (op, swap) = match operator_at(tokens, next) {
                Some(Op::Lt) => (BinOp::Lt, false),
                Some(Op::Le) => (BinOp::Le, false),
                Some(Op::Gt) => (BinOp::Lt, true),
                Some(Op::Ge) => (BinOp::Le, true),
                _ => {
                    return Ok((node, next));
                },
            };
            let ghost before = self.names();
            proof {
                lemma_parse_rest_step(Level::Relational, views, next as int, before, node);
            }
            let (rhs, after) = match self.add(tokens, next + 1) {
                Ok(operand) => operand,
                Err(e) => {
                    proof {
                        lemma_prefix_of_prefix(names, before, self.names());
                    }
                    return Err(e);
                },
            };
            proof {
                lemma_prefix_of_prefix(names, before, self.names());
            }
            node = if swap {
                Parser::operator(op, rhs, node)
            } else {
                Parser::operator(op, node, rhs)
            };
            next = after;
        }
    }

    /// `equality := relational ( ('==' | '!=') relational )*`
    pub fn equality(&mut self, tokens: &Vec<Token>, pos: usize) -> (r: Result<
        (Node, usize),
        ParseError,
    >)
        requires
            old(self).wf(),
        ensures
            follows(
                *old(self),
                *final(self),
                token_views(tokens@),
                pos as int,
                parse_binary(
                    Level::Equality,
                    token_views(tokens@),
                    pos as int,
                    old(self).names(),
                ),
                r,
            ),
        decreases tokens.len() - pos, 9int,
    {
        let ghost views = token_views(tokens@);
        let ghost names = self.names();
        let (mut node, mut next) = match self.relational(tokens, pos) {
            Ok(first) => first,
            Err(e) => {
                return Err(e);
            },
        };
        loop
            invariant
                views == token_views(tokens@),
                names == old(self).names(),
                self.wf(),
                names.is_prefix_of(self.names()),
                pos < next <= tokens.len(),
                parse_binary(Level::Equality, views, pos as int, names) == parse_rest(
                    Level::Equality,
                    views,
                    next as int,
                    self.names(),
                    node,
                ),
            decreases tokens.len() - next,
        {
            let op = match operator_at(tokens, next) {
                Some(Op::EqEq) => BinOp::Eq,
                Some(Op::Ne) => BinOp::Ne,
                _ => {
                    return Ok((node, next));
                },
            };
            let ghost before = self.names();
            proof {
                lemma_parse_rest_step(Level::Equality, views, next as int, before, node);
            }
            let (rhs, after) = match self.relational(tokens, next + 1) {
                Ok(operand) => operand,
                Err(e) => {
                    proof {
                        lemma_prefix_of_prefix(names, before, self.names());
                    }
                    return Err(e);
                },
            };
            proof {
                lemma_prefix_of_prefix(names, before, self.names());
            }
            node = Parser::operator(op, node, rhs);
            next = after;
        }
    }

    /// `assignment := equality ( '=' assignment )?`. What stands before the
    /// `=` has to be a variable.
    pub fn assign(&mut self, tokens: &Vec<Token>, pos: usize) -> (r: Result<
        (Node, usize),
        ParseError,
    >)
        requires
            old(self).wf(),
        ensures
            follows(
                *old(self),
                *final(self),
                token_views(tokens@),
                pos as int,
                parse_assign(token_views(tokens@), pos as int, old(self).names()),
                r,
            ),
        decreases tokens.len() - pos, 10int,
    {
        let ghost names = self.names();
        let (target, next) = match self.equality(tokens, pos) {
            Ok(target) => target,
            Err(e) => {
                return Err(e);
            },
        };
        match operator_at(tokens, next) {
            Some(Op::Assign) => {
                match &target.kind {
                    NodeKind::Variable(_) => {},
                    _ => {
                        return Err(ParseError::InvalidAssignTarget(next));
                    },
                }
                let ghost before = self.names();
                let r = match self.assign(tokens, next + 1) {
                    Ok((value, after)) => Ok(
                        (
                            Node { kind: NodeKind::Assign(Box::new(target), Box::new(value)) },
                            after,
                        ),
                    ),
                    Err(e) => Err(e),
                };
                proof {
                    lemma_prefix_of_prefix(names, before, self.names());
                }
                r
            },
            _ => Ok((target, next)),
        }
    }

    /// `expression := assignment`
    pub fn expr(&mut self, tokens: &Vec<Token>, pos: usize) -> (r: Result<
        (Node, usize),
        ParseError,
    >)
        requires
            old(self).wf(),
        ensures
            follows(
                *old(self),
                *final(self),
                token_views(tokens@),
                pos as int,
                parse_expr(token_views(tokens@), pos as int, old(self).names()),
                r,
            ),
        decreases tokens.len() - pos, 11int,
    {
        self.assign(tokens, pos)
    }

    /// `statement := expression ';'`
    pub fn stmt(&mut self, tokens: &Vec<Token>, pos: usize) -> (r: Result<
        (Node, usize),
        ParseError,
    >)
        requires
            old(self).wf(),
        ensures
            follows(
                *old(self),
                *final(self),
                token_views(tokens@),
                pos as int,
                parse_stmt(token_views(tokens@), pos as int, old(self).names()),
                r,
            ),
    {
        let first = self.expr(tokens, pos);
        assert(first matches Ok((_, next)) ==> next <= tokens.len());
        match first {
            Ok((node, next)) => match operator_at(tokens, next) {
                Some(Op::Semicolon) => Ok((node, next + 1)),
                _ => if next < tokens.len() {
                    Err(ParseError::UnexpectedToken(next))
                } else {
                    Err(ParseError::UnexpectedEnd)
                },
            },
            Err(e) => Err(e),
        }
    }

    /// `program := statement*`: parses all of `tokens` into the trees of the
    /// statements, in their order.
    pub fn program(&mut self, tokens: &Vec<Token>) -> (r: Result<Vec<Node>, ParseError>)
        requires
            old(self).wf(),
        ensures
            final(self).wf(),
            old(self).names().is_prefix_of(final(self).names()),
            match parse_program(token_views(tokens@), 0, old(self).names()) {
                Ok((nodes, known)) => {
                    &&& r matches Ok(found) && found@ == nodes
                    &&& final(self).names() == known
                },
                Err(e) => r matches Err(err) && err == e,
            },
            r matches Ok(found) ==> forall|i: int|
                0 <= i < found.len() ==> well_formed(#[trigger] found@[i]),
    {
        let ghost views = token_views(tokens@);
        let ghost names = self.names();
        proof {
            lemma_program_sound(views, 0, names);
        }
        let mut nodes: Vec<Node> = Vec::new();
        let mut pos: usize = 0;
        proof {
            let all = parse_program(views, 0, names);
            if let Ok((rest, _)) = all {
                assert(nodes@ + rest =~= rest);
            }
            assert(names.is_prefix_of(names)) by {
                assert(names =~= names.subrange(0, names.len() as int));
            }
        }
        while pos < tokens.len()
            invariant
                views == token_views(tokens@),
                names == old(self).names(),
                self.wf(),
                names.is_prefix_of(self.names()),
                pos <= tokens.len(),
                parse_program(views, 0, names) == with_statements_before(
                    nodes@,
                    parse_program(views, pos as int, self.names()),
                ),
            decreases tokens.len() - pos,
        {
            let ghost before = self.names();
            let ghost found = nodes@;
            let first = self.stmt(tokens, pos);
            proof {
                lemma_prefix_of_prefix(names, before, self.names());
            }
            match first {
                Ok((node, next)) => {
                    nodes.push(node);
                    pos = next;
                    proof {
                        if let Ok((rest, _)) = parse_program(views, pos as int, self.names()) {
                            assert(found + (seq![node] + rest) =~= nodes@ + rest);
                        }
                    }
                },
                Err(e) => {
                    return Err(e);
                },
            }
        }
        proof {
            assert(nodes@ + Seq::<Node>::empty() =~= nodes@);
        }
        Ok(nodes)
    }
}

} // verus!
