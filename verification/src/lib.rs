//! A compiler for a minimal declaration language: variable declarations,
//! frees, and single-condition branches are translated into a flat,
//! line-oriented pseudo-assembly instruction stream.
//!
//! The pipeline runs strictly forward: the lexer turns the source text into
//! tokens, the bracket resolver pairs every block and expression delimiter,
//! and the code generator walks the resolved tokens with a cursor, keeping a
//! symbol table and a slot table, and emits the instruction text.

use vstd::prelude::*;

pub mod codegen;
pub mod emit;
pub mod errors;
pub mod lexer;
pub mod resolver;
pub mod slots;
pub mod symbols;
pub mod token;

verus! {

use crate::errors::CompileError;
use crate::emit::render_seq;
use crate::lexer::{parse, spec_parse, spec_lex, lemma_lex_token_bound};
use crate::codegen::{compile, spec_compile};
use crate::resolver::lemma_resolve_len;

/// The text a whole compilation produces: lexing, bracket resolution and
/// code generation, each feeding the next, with the first error aborting
/// everything.
pub open spec fn spec_build(s: Seq<char>) -> Result<Seq<char>, CompileError> {
    match spec_parse(s) {
        Ok(ts) => match spec_compile(ts) {
            Ok(ins) => Ok(render_seq(ins)),
            Err(e) => Err(e),
        },
        Err(e) => Err(e),
    }
}

/// The compiler's entry operation: takes the full source text and hands back
/// the full generated instruction text, or the first error encountered. It
/// performs no input or output of its own.
pub fn build(file: String) -> (r: Result<String, CompileError>)
    requires
        2 * file@.len() < usize::MAX,
    ensures
        match r {
            Ok(s) => {
                &&& spec_build(file@) matches Ok(out)
                &&& s@ == out
            },
            Err(e) => spec_build(file@) == Err::<Seq<char>, CompileError>(e),
        },
{
    let ghost sv = file@;
    match parse(file) {
        Ok(token_stream) => {
            proof {
                lemma_lex_token_bound(sv, 0, Seq::empty());
                let ts0 = spec_lex(sv)->Ok_0;
                lemma_resolve_len(ts0, 0, Seq::empty(), Seq::empty());
            }
            match compile(token_stream) {
                Ok(text) => Ok(text),
                Err(e) => Err(e),
            }
        },
        Err(e) => Err(e),
    }
}

} // verus!
