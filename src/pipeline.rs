//! Compiling a source text and running it, in that order.
use vstd::prelude::*;
use crate::compiler::{compile, compile_result, CompileError, Config};
use crate::machine::{run, run_from, initial_state, RunOutput};

verus! {

/// Compiles `source` under `config` and, only when that succeeds, runs the
/// program on a fresh machine for at most `fuel` steps with `input`.
///
/// A text that does not compile is never run: its compile error is returned.
pub fn interpret(source: &str, config: Config, input: &Vec<u8>, fuel: usize) -> (r: Result<
    RunOutput,
    CompileError,
>)
    ensures
        match compile_result(config, source@) {
            Ok(p) => r is Ok && (r->Ok_0.status, r->Ok_0.output@) == run_from(
                p,
                initial_state(),
                input@,
                fuel as nat,
            ),
            Err(e) => r is Err && r->Err_0 == e,
        },
{
    match compile(source, config) {
        Ok(program) => Ok(run(&program, input, fuel)),
        Err(e) => Err(e),
    }
}

} // verus!
