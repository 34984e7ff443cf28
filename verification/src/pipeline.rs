//! The three stages on end: from source text to assembly text.

use crate::generator::body_code;
use crate::generator::CodegenError;
use crate::generator::emitted;
use crate::generator::gen_program;
use crate::generator::generates;
use crate::generator::lemma_well_formed_generates;
use crate::generator::line_views;
use crate::generator::program_lines;
use crate::generator::routine;
use crate::grammar::lemma_program_sound;
use crate::grammar::parse_program;
use crate::machine::comes_back;
use crate::machine::enters;
use crate::machine::entry_frame;
use crate::machine::lemma_routine_computes;
use crate::machine::Machine;
use crate::machine::result_of;
use crate::machine::run;
use crate::node::Node;
use crate::node::ParseError;
use crate::node::Parser;
use crate::token::lex;
use crate::token::LexError;
use crate::token::Token;
use vstd::prelude::*;

verus! {

/// Why a source text has no assembly text: the error of the stage that
/// failed.
#[derive(Clone, Copy, Debug, PartialEq, Eq, Structural)]
pub enum CompileError {
    Lex(LexError),
    Parse(ParseError),
    Codegen(CodegenError),
}

/// The program that a source text denotes: the trees of its statements.
pub open spec fn parsed(source: Seq<char>) -> Result<Seq<Node>, CompileError> {
    match lex(source) {
        Ok(tokens) => match parse_program(tokens, 0, Seq::empty()) {
            Ok((nodes, _)) => Ok(nodes),
            Err(e) => Err(CompileError::Parse(e)),
        },
        Err(e) => Err(CompileError::Lex(e)),
    }
}

/// The assembly text of a source text, line by line.
pub open spec fn compiled(source: Seq<char>) -> Result<Seq<Seq<char>>, CompileError> {
    match parsed(source) {
        Ok(nodes) => if generates(nodes) {
            Ok(program_lines(nodes))
        } else {
            Err(CompileError::Codegen(CodegenError::NotAVariable))
        },
        Err(e) => Err(e),
    }
}

/// What the routine of `program` returns when it is called in the state `m`:
/// what its last statement with code leaves in `rax`. `None` where the
/// routine faults.
pub open spec fn routine_result(program: Seq<Node>, m: Machine) -> Option<i64> {
    match run(routine(program), m) {
        Some(end) => Some(end.rax),
        None => None,
    }
}

/// Whether the routine of `program` can be called in the state `m`: the
/// stack has room for what the routine pushes.
pub open spec fn can_call(program: Seq<Node>, m: Machine) -> bool {
    enters(m, body_code(emitted(program)))
}

/// The trees of a source text are well formed, so the code generator does not
/// fail on them.
pub proof fn lemma_parsed_generates(source: Seq<char>)
    ensures
        parsed(source) matches Ok(nodes) ==> generates(nodes) && compiled(source) == Ok::<
            Seq<Seq<char>>,
            CompileError,
        >(program_lines(nodes)),
        compiled(source) matches Err(e) ==> !(e is Codegen),
{
    if let Ok(tokens) = lex(source) {
        lemma_program_sound(tokens, 0, Seq::empty());
        if let Ok((nodes, _)) = parse_program(tokens, 0, Seq::empty()) {
            lemma_well_formed_generates(nodes);
        }
    }
}

/// The routine of every source text that has a program computes the program:
/// called with room on the stack, it returns the value of the last statement
/// with code, evaluated after the statements before it, and leaves the
/// caller's base, the stack pointer and the memory above it as they have to
/// be. It faults where a statement has no value.
pub proof fn lemma_compiled_computes(source: Seq<char>, m: Machine)
    ensures
        parsed(source) matches Ok(program) ==> {
            &&& compiled(source) == Ok::<Seq<Seq<char>>, CompileError>(program_lines(program))
            &&& can_call(program, m) ==> comes_back(
                result_of(emitted(program), m.rax, entry_frame(m)),
                m,
                run(routine(program), m),
            )
        },
{
    lemma_parsed_generates(source);
    if let Ok(tokens) = lex(source) {
        lemma_program_sound(tokens, 0, Seq::empty());
        if let Ok((program, _)) = parse_program(tokens, 0, Seq::empty()) {
            lemma_well_formed_generates(program);
            if can_call(program, m) {
                lemma_routine_computes(emitted(program), m);
            }
        }
    }
}

/// Compiles the source text `source` into assembly text, line by line, or
/// reports the first error. Nothing is produced for a text with an error.
pub fn compile(source: String) -> (r: Result<Vec<String>, CompileError>)
    ensures
        match compiled(source@) {
            Ok(lines) => r matches Ok(assembly) && line_views(assembly@) == lines,
            Err(e) => r matches Err(err) && err == e,
        },
{
    let tokens = match Token::parse(source) {
        Ok(tokens) => tokens,
        Err(e) => {
            return Err(CompileError::Lex(e));
        },
    };
    let mut parser = Parser::new();
    let program = match parser.program(&tokens) {
        Ok(program) => program,
        Err(e) => {
            return Err(CompileError::Parse(e));
        },
    };
    match gen_program(&program) {
        Ok(assembly) => Ok(assembly),
        Err(e) => Err(CompileError::Codegen(e)),
    }
}

} // verus!
