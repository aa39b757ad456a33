//! Translation core: a CFG-based middle intermediate representation (MIR),
//! a lowering pass that builds it from parsed source declarations, a dataflow
//! analysis engine, and a deterministic code synthesizer.

pub mod analysis;
pub mod ast_to_mir;
pub mod chat;
pub mod codegen;
pub mod llm_assists;
pub mod mir;
pub mod project_loader;
pub mod text;
pub mod utils;

use vstd::prelude::*;
use vstd::string::StringExecFns;

verus! {

/// Version string of this library.
pub const VERSION: &'static str = "0.1.0";

/// Human-readable version line.
pub fn version_info() -> (r: String)
    ensures
        r@ == "Translate Hybrid v"@ + VERSION@,
{
    let mut s = String::new();
    s.append("Translate Hybrid v");
    s.append(VERSION);
    s
}

} // verus!
