//! A compiler from a small C-like language to the assembly text of a stack
//! machine: integer arithmetic, comparisons, local variables, assignment,
//! `if`, `while`, `for`, blocks and `return`, in one function `main`.
//!
//! Characters become tokens ([`lexer`]), tokens become trees ([`ast`]), trees
//! become lines of assembly ([`gen`]). [`compile`] runs the three in a row;
//! [`assembly`] says what comes out.
use vstd::prelude::*;

pub mod ast;
pub mod gen;
pub mod labels;
pub mod lexer;
pub mod roundtrip;
pub mod stack;
pub mod text;

use crate::ast::grammar;
use crate::ast::grammar::ParserErrorView;
use crate::ast::node::NodeView;
use crate::ast::parser::{Parser, ParserError, MAX_TOKENS};
use crate::gen::{
    block_code, epilogue_code, gen_outcome, line_views, prefix_code, prologue_code, AsmCodeGen,
    CodeGen, GenError,
};
use crate::lexer::{lex, tokenize, CharStream, LexError};
use crate::stack::{lemma_block_balance, net};
use crate::text::lemma_lines_assoc;

verus! {

/// Why a source text has no assembly.
#[derive(Debug, PartialEq)]
pub enum CompileError {
    /// The text is no sequence of tokens.
    Lex(LexError),
    /// The text has more tokens than a parser takes.
    TooManyTokens,
    /// The tokens are no program.
    Parse(ParserError),
    /// The program cannot be lowered.
    Gen(GenError),
}

/// The mathematical value of a [`CompileError`].
pub enum CompileErrorView {
    Lex(LexError),
    TooManyTokens,
    Parse(ParserErrorView),
    Gen(GenError),
}

impl View for CompileError {
    type V = CompileErrorView;

    open spec fn view(&self) -> CompileErrorView {
        match self {
            CompileError::Lex(e) => CompileErrorView::Lex(*e),
            CompileError::TooManyTokens => CompileErrorView::TooManyTokens,
            CompileError::Parse(e) => CompileErrorView::Parse(e@),
            CompileError::Gen(e) => CompileErrorView::Gen(*e),
        }
    }
}

/// The text of a program: what opens it, the frame set-up, the code of each
/// top-level statement with labels counted from zero, and the frame
/// tear-down.
pub open spec fn program_code(nodes: Seq<NodeView>) -> Seq<Seq<char>> {
    prefix_code() + prologue_code() + block_code(nodes, 0) + epilogue_code()
}

/// The lines of assembly of a source text, or the first error on the way:
/// of the lexer, then of the parser, then of the generator. An error leaves
/// no line.
pub open spec fn assembly(source: Seq<char>) -> Result<Seq<Seq<char>>, CompileErrorView> {
    match lex(source, 0) {
        Err(e) => Err(CompileErrorView::Lex(e)),
        Ok(tokens) => if tokens.len() > MAX_TOKENS {
            Err(CompileErrorView::TooManyTokens)
        } else {
            match grammar::program(tokens, 0, Seq::empty()).result {
                Err(e) => Err(CompileErrorView::Parse(e)),
                Ok(nodes) => match gen_outcome(nodes, 0) {
                    Err(e) => Err(CompileErrorView::Gen(e)),
                    Ok(_) => Ok(program_code(nodes)),
                },
            }
        },
    }
}

/// The trees of a source text that has tokens and is a program.
pub open spec fn trees(source: Seq<char>) -> Seq<NodeView>
    recommends
        lex(source, 0) is Ok,
        grammar::program(lex(source, 0)->Ok_0, 0, Seq::empty()).result is Ok,
{
    grammar::program(lex(source, 0)->Ok_0, 0, Seq::empty()).result->Ok_0
}

/// Compiles a source text to the lines of its assembly.
///
/// The lines are those of [`assembly`]. Where there are lines, the code of
/// the statements between the frame set-up and the frame tear-down pushes
/// as many values to the evaluation stack as it pops from it.
pub fn compile(source: &str) -> (r: Result<Vec<String>, CompileError>)
    ensures
        match r {
            Ok(lines) => {
                &&& assembly(source@) == Ok::<Seq<Seq<char>>, CompileErrorView>(
                    line_views(lines@),
                )
                &&& line_views(lines@) == program_code(trees(source@))
                &&& net(block_code(trees(source@), 0)) == 0
            },
            Err(e) => assembly(source@) == Err::<Seq<Seq<char>>, CompileErrorView>(e@),
        },
{
    broadcast use lemma_lines_assoc;

    let mut chars = CharStream::new(source);
    let tokens = match tokenize(&mut chars) {
        Ok(tokens) => tokens,
        Err(e) => {
            return Err(CompileError::Lex(e));
        },
    };
    if tokens.len() > MAX_TOKENS {
        return Err(CompileError::TooManyTokens);
    }
    let mut parser = Parser::new(tokens);
    let nodes = match parser.parse() {
        Ok(nodes) => nodes,
        Err(e) => {
            return Err(CompileError::Parse(e));
        },
    };
    let mut generator = AsmCodeGen::new();
    generator.prefix();
    generator.prologue();
    proof {
        if gen_outcome(nodes@, 0) is Ok {
            lemma_block_balance(nodes@, 0);
        }
    }
    match generator.gen_from_nodes(nodes) {
        Ok(_) => {},
        Err(e) => {
            return Err(CompileError::Gen(e));
        },
    }
    generator.epilogue();
    Ok(generator.into_lines())
}

} // verus!
