//! Error kinds reported by the debugger engine.
//!
//! Resolution and validation failures are returned to the caller and never
//! tear down the session; only the debuggee's own termination ends it.

use vstd::prelude::*;

verus! {

/// The outcome of a failed engine command, distinguishing "the request was
/// invalid" from "the debuggee terminated" from "the tracing layer failed".
#[derive(Clone, Copy, Debug, PartialEq, Eq, Structural)]
pub enum EngineError {
    /// Debug information is absent or malformed; address-only operation
    /// remains possible.
    DebugInfo,
    /// A file:line request matched no instruction address.
    LocationNotFound,
    /// A function name matched no symbol.
    SymbolNotFound,
    /// Removal was requested for a breakpoint number that does not exist.
    UnknownBreakpoint,
    /// The operation is not allowed in the process's current lifecycle state.
    Process,
    /// The tracing layer could not read or write the requested address.
    Trace,
    /// Step-out was requested at the outermost frame.
    NoCallerFrame,
}

} // verus!
