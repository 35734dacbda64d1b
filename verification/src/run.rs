//! Runs a checked program.
//!
//! The checker keeps what it found out about names and types, not the arguments of calls.
//! So a run needs the program as it is written besides: the two are joined, and the tree
//! that comes out is evaluated.
use vstd::prelude::*;

use crate::adapter::{adapt_program, adapts, program_fits, program_is};
use crate::ast::{Program, TypedProgram};
use crate::error::{KindV, RunError, RunErrorKind, Span};
use crate::floats::{FloatOp, FloatWorld, Floats, Precision};
use crate::interp::{execute, is_outcome, run_main, RunOutput, World};
use crate::text::push_text;
use crate::tree::AdaptedProgram;

verus! {

/// An error of the engine itself, which belongs to no place in the source.
pub open spec fn is_internal(r: Result<RunOutput, RunError>, message: Seq<char>) -> bool {
    r matches Err(e) && e.kind@ == KindV::Internal(message) && e.span == (Span {
        start: 0,
        end: 0,
    }) && e.printed_so_far@.len() == 0
}

/// An error of the engine itself.
fn internal(message: String) -> (r: RunError)
    ensures
        is_internal(Err::<RunOutput, RunError>(r), message@),
{
    RunError::new(RunErrorKind::Internal(message), Span { start: 0, end: 0 })
}

/// Without the program as it is written nothing can run.
pub fn run(_program: &TypedProgram) -> (r: Result<RunOutput, RunError>)
    ensures
        is_internal(
            r,
            "no source text available: programs containing calls cannot be executed because sema v1 omits call arguments from the typed tree"@,
        ),
{
    Err(
        internal(
            "no source text available: programs containing calls cannot be executed because sema v1 omits call arguments from the typed tree".to_owned(),
        ),
    )
}

/// What a run gives: the outcome of the tree that the program and its declarations make,
/// or the error that says why there is none.
pub open spec fn is_run(
    parsed: Result<Program, String>,
    program: TypedProgram,
    floats: FloatWorld,
    r: Result<RunOutput, RunError>,
) -> bool {
    match parsed {
        Err(e) => is_internal(
            r,
            "source no longer parses ("@ + e@ + "); cannot build evaluation tree"@,
        ),
        Ok(ast) => if adapts(ast, program) {
            exists|tree: AdaptedProgram| #[trigger]
                program_is(ast, program, tree) && is_outcome(
                    r,
                    run_main((World { program: tree, floats })),
                )
        } else {
            is_internal(r, "source and typed program do not correspond"@)
        },
    }
}

/// Runs a checked program from its `main`. `parsed` is the program as it is written, or
/// what the parser says of the source.
pub fn run_with_source<
    F: Fn(FloatOp, Precision, u64, u64) -> u64,
    P: Fn(Precision, u64) -> String,
>(parsed: &Result<Program, String>, program: &TypedProgram, floats: &Floats<F, P>) -> (r: Result<
    RunOutput,
    RunError,
>)
    requires
        floats.functional(),
        program_fits(*program),
    ensures
        is_run(*parsed, *program, floats.world(), r),
{
    match parsed {
        Err(e) => {
            let mut text = "source no longer parses (".to_owned();
            push_text(&mut text, e.as_str());
            push_text(&mut text, "); cannot build evaluation tree");
            Err(internal(text))
        },
        Ok(ast) => match adapt_program(ast, program) {
            Some(tree) => execute(&tree, floats),
            None => Err(internal("source and typed program do not correspond".to_owned())),
        },
    }
}

} // verus!
