use bugstalker::debug_info::{DebugInfo, FuncSym, LineRow};
use bugstalker::debugger::{Debugger, StopReason};
use bugstalker::error::EngineError;
use bugstalker::process::{CodePoint, ProcState, StepKind, TraceStep, TracedProcess};

fn hello_code() -> Vec<CodePoint> {
    vec![
        CodePoint { addr: 0x100, byte: 0x55 },
        CodePoint { addr: 0x104, byte: 0x48 },
        CodePoint { addr: 0x108, byte: 0x48 },
        CodePoint { addr: 0x10c, byte: 0xe8 },
        CodePoint { addr: 0x110, byte: 0xe8 },
        CodePoint { addr: 0x114, byte: 0xc3 },
        CodePoint { addr: 0x200, byte: 0x55 },
        CodePoint { addr: 0x204, byte: 0x48 },
        CodePoint { addr: 0x208, byte: 0xc3 },
    ]
}

// main runs statements at lines 5 and 9, then calls myprint (line 15) twice.
fn hello_trace() -> Vec<TraceStep> {
    vec![
        TraceStep { addr: 0x100, kind: StepKind::Plain },
        TraceStep { addr: 0x104, kind: StepKind::Plain },
        TraceStep { addr: 0x108, kind: StepKind::Plain },
        TraceStep { addr: 0x10c, kind: StepKind::Call { ret: 0x110 } },
        TraceStep { addr: 0x200, kind: StepKind::Plain },
        TraceStep { addr: 0x204, kind: StepKind::Plain },
        TraceStep { addr: 0x208, kind: StepKind::Ret },
        TraceStep { addr: 0x110, kind: StepKind::Call { ret: 0x114 } },
        TraceStep { addr: 0x200, kind: StepKind::Plain },
        TraceStep { addr: 0x204, kind: StepKind::Plain },
        TraceStep { addr: 0x208, kind: StepKind::Ret },
        TraceStep { addr: 0x114, kind: StepKind::Ret },
    ]
}

fn hello_info() -> DebugInfo {
    let files = vec![String::from("hello_world.rs")];
    let rows = vec![
        LineRow { address: 0x100, file: 0, line: 3 },
        LineRow { address: 0x104, file: 0, line: 5 },
        LineRow { address: 0x108, file: 0, line: 9 },
        LineRow { address: 0x10c, file: 0, line: 10 },
        LineRow { address: 0x110, file: 0, line: 11 },
        LineRow { address: 0x114, file: 0, line: 12 },
        LineRow { address: 0x200, file: 0, line: 14 },
        LineRow { address: 0x204, file: 0, line: 15 },
        LineRow { address: 0x208, file: 0, line: 16 },
    ];
    let funcs = vec![
        FuncSym { name: String::from("main"), entry: 0x100, post_prologue: 0x104, end: 0x118 },
        FuncSym { name: String::from("myprint"), entry: 0x200, post_prologue: 0x204, end: 0x20c },
    ];
    DebugInfo::new(files, rows, funcs).expect("well-formed index")
}

fn hello_debugger() -> Debugger {
    let proc = TracedProcess::launch(hello_code(), hello_trace(), 0).expect("well-formed trace");
    Debugger::new(proc, hello_info()).expect("fresh process")
}

fn current_line(dbg: &Debugger) -> u32 {
    dbg.current_thread_stop_at().expect("stopped on a mapped address").line
}

fn current_pc(dbg: &Debugger) -> u64 {
    dbg.current_thread_stop_at().expect("stopped on a mapped address").address
}

#[test]
fn test_debugee_run() {
    // No breakpoints set: the debuggee runs to completion and no traced
    // process remains.
    let mut dbg = hello_debugger();
    dbg.start_debugee().expect("first run");
    assert_eq!(dbg.proc.state(), ProcState::Exited);
}

#[test]
fn test_multiple_brkpt_on_addr() {
    let mut dbg = hello_debugger();
    dbg.set_breakpoint_at_line("hello_world.rs", 5).expect("install at line 5");
    dbg.set_breakpoint_at_line("hello_world.rs", 9).expect("install at line 9");
    dbg.start_debugee().expect("first run");
    assert_eq!(current_line(&dbg), 5);
    dbg.continue_debugee().expect("continue");
    assert_eq!(current_line(&dbg), 9);
    dbg.continue_debugee().expect("continue");
    assert_eq!(dbg.proc.state(), ProcState::Exited);
}

#[test]
fn test_brkpt_on_function() {
    let mut dbg = hello_debugger();
    let ns = dbg.set_breakpoint_at_fn("myprint").expect("install by name");
    assert_eq!(ns.len(), 1);
    dbg.start_debugee().expect("first run");
    assert_eq!(current_line(&dbg), 15);
    let first_pc = current_pc(&dbg);
    assert!(first_pc > 0);
    dbg.continue_debugee().expect("continue");
    // the second call re-hits the same breakpoint at the same pc
    assert_eq!(current_pc(&dbg), first_pc);
    assert_eq!(current_line(&dbg), 15);
    dbg.continue_debugee().expect("continue");
    assert_eq!(dbg.proc.state(), ProcState::Exited);
}

#[test]
fn test_brkpt_on_line() {
    // a breakpoint at line 15 resolves to the same address as the function
    // breakpoint on myprint and produces the identical pc sequence
    let mut dbg = hello_debugger();
    dbg.set_breakpoint_at_line("hello_world.rs", 15).expect("install at line 15");
    dbg.start_debugee().expect("first run");
    assert_eq!(current_line(&dbg), 15);
    let first_pc = current_pc(&dbg);
    assert_eq!(first_pc, 0x204);
    dbg.continue_debugee().expect("continue");
    assert_eq!(current_pc(&dbg), first_pc);
    assert_eq!(current_line(&dbg), 15);
    dbg.continue_debugee().expect("continue");
    assert_eq!(dbg.proc.state(), ProcState::Exited);
}

#[test]
fn test_set_breakpoint_idempotence() {
    let mut dbg = hello_debugger();
    let first = dbg.set_breakpoint_at_line("hello_world.rs", 15).expect("install");
    dbg.start_debugee().expect("first run");
    assert_eq!(current_line(&dbg), 15);
    // re-issue the same request while stopped mid-execution: a no-op
    let second = dbg.set_breakpoint_at_line("hello_world.rs", 15).expect("reinstall is a no-op");
    assert_eq!(first, second);
    assert_eq!(dbg.bps.len(), 1);
    // still exactly one more stop at line 15, then a clean exit
    dbg.continue_debugee().expect("continue");
    assert_eq!(current_line(&dbg), 15);
    dbg.continue_debugee().expect("continue");
    assert_eq!(dbg.proc.state(), ProcState::Exited);
}

#[test]
fn test_breakpoint_numbers_and_hits_in_order() {
    let mut dbg = hello_debugger();
    let a = dbg.set_breakpoint_at_addr(0x104).expect("install");
    let b = dbg.set_breakpoint_at_addr(0x108).expect("install");
    assert_ne!(a, b);
    dbg.start_debugee().expect("first run");
    dbg.continue_debugee().expect("continue");
    dbg.continue_debugee().expect("continue");
    assert_eq!(
        dbg.events,
        vec![
            StopReason::BreakpointHit(a),
            StopReason::BreakpointHit(b),
            StopReason::Exited(0)
        ]
    );
}

#[test]
fn test_set_breakpoint_bad_address() {
    let mut dbg = hello_debugger();
    assert_eq!(dbg.set_breakpoint_at_addr(0xdead), Err(EngineError::Trace));
}

#[test]
fn test_remove_breakpoint() {
    let mut dbg = hello_debugger();
    let n = dbg.set_breakpoint_at_addr(0x104).expect("install");
    assert_eq!(dbg.remove_breakpoint(n), Ok(()));
    assert_eq!(dbg.remove_breakpoint(n), Err(EngineError::UnknownBreakpoint));
    assert_eq!(dbg.bps.len(), 0);
    // with the patch restored the debuggee no longer stops there
    dbg.start_debugee().expect("first run");
    assert_eq!(dbg.proc.state(), ProcState::Exited);
}

#[test]
fn test_step_into_next_line() {
    let mut dbg = hello_debugger();
    dbg.set_breakpoint_at_line("hello_world.rs", 5).expect("install");
    dbg.start_debugee().expect("first run");
    assert_eq!(current_line(&dbg), 5);
    dbg.step_into().expect("step");
    assert_eq!(current_line(&dbg), 9);
    assert_eq!(dbg.events.last(), Some(&StopReason::StepComplete));
}

#[test]
fn test_step_into_enters_callee() {
    let mut dbg = hello_debugger();
    dbg.set_breakpoint_at_line("hello_world.rs", 10).expect("install at the call line");
    dbg.start_debugee().expect("first run");
    assert_eq!(current_line(&dbg), 10);
    dbg.step_into().expect("step");
    // arrives inside myprint
    assert_eq!(current_line(&dbg), 14);
}

#[test]
fn test_step_over_crosses_callee() {
    let mut dbg = hello_debugger();
    dbg.set_breakpoint_at_line("hello_world.rs", 10).expect("install at the call line");
    dbg.start_debugee().expect("first run");
    assert_eq!(current_line(&dbg), 10);
    dbg.step_over().expect("step");
    // the whole call to myprint is crossed; next stop is the caller's line 11
    assert_eq!(current_line(&dbg), 11);
    assert_eq!(dbg.events.last(), Some(&StopReason::StepComplete));
}

#[test]
fn test_step_over_stops_at_breakpoint_in_callee() {
    let mut dbg = hello_debugger();
    dbg.set_breakpoint_at_line("hello_world.rs", 10).expect("install at the call line");
    let inner = dbg.set_breakpoint_at_line("hello_world.rs", 15).expect("install in callee");
    dbg.start_debugee().expect("first run");
    assert_eq!(current_line(&dbg), 10);
    dbg.step_over().expect("step");
    // the user breakpoint inside the callee takes precedence
    assert_eq!(current_line(&dbg), 15);
    assert_eq!(dbg.events.last(), Some(&StopReason::BreakpointHit(inner)));
}

#[test]
fn test_step_out_of_callee() {
    let mut dbg = hello_debugger();
    dbg.set_breakpoint_at_fn("myprint").expect("install by name");
    dbg.start_debugee().expect("first run");
    assert_eq!(current_line(&dbg), 15);
    dbg.step_out().expect("step out");
    // back in main, at the instruction after the first call
    assert_eq!(current_pc(&dbg), 0x110);
    assert_eq!(dbg.events.last(), Some(&StopReason::StepComplete));
}

#[test]
fn test_step_out_at_outermost_frame() {
    let mut dbg = hello_debugger();
    dbg.set_breakpoint_at_line("hello_world.rs", 5).expect("install");
    dbg.start_debugee().expect("first run");
    assert_eq!(dbg.step_out(), Err(EngineError::NoCallerFrame));
}

#[test]
fn test_commands_fail_before_start_and_after_exit() {
    let mut dbg = hello_debugger();
    assert_eq!(dbg.continue_debugee(), Err(EngineError::Process));
    assert_eq!(dbg.step_into(), Err(EngineError::Process));
    dbg.start_debugee().expect("first run");
    assert_eq!(dbg.proc.state(), ProcState::Exited);
    assert_eq!(dbg.start_debugee(), Err(EngineError::Process));
    assert_eq!(dbg.continue_debugee(), Err(EngineError::Process));
    assert_eq!(dbg.step_over(), Err(EngineError::Process));
    assert_eq!(dbg.set_breakpoint_at_addr(0x104), Err(EngineError::Process));
}

#[test]
fn test_step_determinism() {
    // two identical sessions step to the same next source line
    let mut d1 = hello_debugger();
    let mut d2 = hello_debugger();
    d1.set_breakpoint_at_line("hello_world.rs", 5).expect("install");
    d2.set_breakpoint_at_line("hello_world.rs", 5).expect("install");
    d1.start_debugee().expect("run");
    d2.start_debugee().expect("run");
    d1.step_into().expect("step");
    d2.step_into().expect("step");
    assert_eq!(current_pc(&d1), current_pc(&d2));
    assert_eq!(current_line(&d1), current_line(&d2));
}

#[test]
fn test_resolve_line_exact_and_following() {
    let info = hello_info();
    assert_eq!(info.resolve_line(0, 5), Ok(0x104));
    // line 6 has no instruction of its own: nearest following line serves
    assert_eq!(info.resolve_line(0, 6), Ok(0x108));
    assert_eq!(info.resolve_line(0, 99), Err(EngineError::LocationNotFound));
}

#[test]
fn test_resolve_function_post_prologue() {
    let info = hello_info();
    let addrs = info.resolve_function("myprint").expect("known symbol");
    assert_eq!(addrs, vec![0x204]);
    assert_eq!(info.resolve_function("nosuch"), Err(EngineError::SymbolNotFound));
}

#[test]
fn test_unknown_file_and_line() {
    let mut dbg = hello_debugger();
    assert_eq!(
        dbg.set_breakpoint_at_line("other.rs", 5),
        Err(EngineError::LocationNotFound)
    );
    assert_eq!(dbg.set_breakpoint_at_fn("nosuch"), Err(EngineError::SymbolNotFound));
}

#[test]
fn test_install_rejects_uncovered_addresses() {
    // debug rows may describe addresses the code map does not cover: the
    // install then fails with the tracing error, and nothing is patched
    let code = hello_code();
    let trace = hello_trace();
    let files = vec![String::from("hello_world.rs")];
    let rows = vec![
        LineRow { address: 0x104, file: 0, line: 5 },
        LineRow { address: 0x999, file: 0, line: 77 },
    ];
    let funcs = vec![
        FuncSym { name: String::from("ghost_fn"), entry: 0x990, post_prologue: 0x999, end: 0x9a0 },
    ];
    let info = DebugInfo::new(files, rows, funcs).expect("well-formed index");
    let proc = TracedProcess::launch(code, trace, 0).expect("well-formed trace");
    let mut dbg = Debugger::new(proc, info).expect("fresh process");
    assert_eq!(dbg.set_breakpoint_at_line("hello_world.rs", 77), Err(EngineError::Trace));
    assert_eq!(dbg.set_breakpoint_at_fn("ghost_fn"), Err(EngineError::Trace));
    assert_eq!(dbg.bps.len(), 0);
    dbg.start_debugee().expect("first run");
    assert_eq!(dbg.proc.state(), ProcState::Exited);
}

#[test]
fn test_fn_breakpoint_patches_only_matches() {
    // the by-name install patches exactly the post-prologue addresses of the
    // matches: a continue afterwards stops there and nowhere else
    let mut dbg = hello_debugger();
    dbg.set_breakpoint_at_fn("myprint").expect("install by name");
    assert_eq!(dbg.bps.len(), 1);
    assert_eq!(dbg.bps[0].address, 0x204);
    dbg.start_debugee().expect("first run");
    assert_eq!(current_pc(&dbg), 0x204);
}

#[test]
fn test_locate_and_file_id() {
    let info = hello_info();
    let loc = info.locate(0x204).expect("mapped address");
    assert_eq!(loc.line, 15);
    assert_eq!(loc.address, 0x204);
    assert!(info.locate(0xdead).is_none());
    assert_eq!(info.file_id("hello_world.rs"), Some(0));
    assert_eq!(info.file_id("other.rs"), None);
}
