//! The debugger engine: owns the traced process, the breakpoint registry and
//! the debug-information index, and drives run/continue/step commands.
//!
//! Every completed command records exactly one stop notification, which UI
//! layers consume through the hook surface.

use vstd::prelude::*;
use crate::debug_info::DebugInfo;
use crate::debug_info::Location;
use crate::debug_info::fn_matches;
use crate::debug_info::is_first_file;
use crate::debug_info::row_is_best;
use crate::debug_info::row_serves;
use crate::error::EngineError;
use crate::process::ProcState;
use crate::process::TracedProcess;
use crate::process::byte_at;
use crate::process::first_trap_from;
use crate::process::lemma_first_trap_from;
use crate::process::has_code;

verus! {

/// One installed breakpoint: its user-facing number, the patched address,
/// and the original byte the patch overwrote, kept so the patch can be
/// restored.
#[derive(Clone, Copy, Debug)]
pub struct Breakpoint {
    pub number: u32,
    pub address: u64,
    pub original_byte: u8,
    pub enabled: bool,
}

/// The outcome of the last resume/wait cycle, consulted before notifying
/// hooks and returning to the caller.
#[derive(Clone, Copy, Debug, PartialEq, Eq, Structural)]
pub enum StopReason {
    /// The debuggee reached the breakpoint with this number.
    BreakpointHit(u32),
    /// A step command arrived at its destination.
    StepComplete,
    /// The debuggee was stopped by a signal delivered from outside.
    Signal(i32),
    /// The debuggee terminated with this exit code.
    Exited(i32),
}

/// Some breakpoint of `bps` is installed at address `a`. The registry keeps
/// enabled breakpoints only, so the predicate tests the address alone.
pub open spec fn bp_at(bps: Seq<Breakpoint>, a: u64) -> bool {
    exists|i: int| 0 <= i < bps.len() && (#[trigger] bps[i]).address == a
}

/// The number of the (unique) breakpoint installed at address `a`.
pub open spec fn bp_number_at(bps: Seq<Breakpoint>, a: u64) -> u32 {
    bps[choose|i: int| 0 <= i < bps.len() && (#[trigger] bps[i]).address == a].number
}

/// The debugger engine.
pub struct Debugger {
    pub proc: TracedProcess,
    pub info: DebugInfo,
    pub bps: Vec<Breakpoint>,
    pub next_number: u32,
    pub events: Vec<StopReason>,
}

impl Debugger {
    /// The registry invariant: numbers and addresses are unique, every
    /// breakpoint is enabled, records the true original byte of a code
    /// address, and carries a number below the allocator's next one.
    pub open spec fn registry_wf(self) -> bool {
        &&& forall|i: int, j: int|
            0 <= i < self.bps@.len() && 0 <= j < self.bps@.len() && i != j ==> self.bps@[i].number
                != self.bps@[j].number && self.bps@[i].address != self.bps@[j].address
        &&& forall|i: int|
            0 <= i < self.bps@.len() ==> {
                &&& (#[trigger] self.bps@[i]).enabled
                &&& has_code(self.proc.code@, self.bps@[i].address)
                &&& self.bps@[i].original_byte == byte_at(self.proc.code@, self.bps@[i].address)
                &&& self.bps@[i].number < self.next_number
            }
    }

    /// The engine invariant: process, index and registry are each well
    /// formed, and an address is patched exactly when a breakpoint owns it.
    pub open spec fn wf(self) -> bool {
        &&& self.proc.wf()
        &&& self.info.wf()
        &&& self.registry_wf()
        &&& forall|a: u64| #[trigger] self.proc.trapped(a) <==> bp_at(self.bps@, a)
    }

    /// The engine and the debuggee's program stand as before; only patches,
    /// the position and the event log may move.
    pub open spec fn same_session(self, other: Debugger) -> bool {
        &&& self.proc.same_program(other.proc)
        &&& self.info == other.info
    }

    /// What a successful install at address `a` does: an already installed
    /// address is a strict no-op answering the existing number; a fresh one
    /// is recorded under the next number and patched, and nothing else moves.
    pub open spec fn set_addr_post(pre: Debugger, post: Debugger, a: u64, n: u32) -> bool {
        if bp_at(pre.bps@, a) {
            &&& post == pre
            &&& n == bp_number_at(pre.bps@, a)
        } else {
            &&& n == pre.next_number
            &&& post.bps@ == pre.bps@.push(
                Breakpoint {
                    number: pre.next_number,
                    address: a,
                    original_byte: byte_at(pre.proc.code@, a),
                    enabled: true,
                },
            )
            &&& post.next_number == pre.next_number + 1
            &&& forall|x: u64| #[trigger] post.proc.trapped(x) <==> (pre.proc.trapped(x) || x == a)
            &&& post.proc.ip == pre.proc.ip
            &&& post.proc.stack@ == pre.proc.stack@
            &&& post.proc.state == pre.proc.state
            &&& post.same_session(pre)
            &&& post.events@ == pre.events@
        }
    }

    /// Builds an engine around a launched, not-yet-started process and a
    /// debug-information index. Fails when the process already ran or
    /// carries foreign patches.
    pub fn new(proc: TracedProcess, info: DebugInfo) -> (r: Result<Debugger, EngineError>)
        requires
            proc.wf(),
            info.wf(),
        ensures
            match r {
                Ok(d) => {
                    &&& d.wf()
                    &&& d.proc == proc
                    &&& d.info == info
                    &&& d.bps@ == Seq::<Breakpoint>::empty()
                    &&& d.next_number == 1
                    &&& d.events@ == Seq::<StopReason>::empty()
                    &&& proc.state == ProcState::NotStarted
                    &&& proc.traps@.len() == 0
                },
                Err(e) => {
                    &&& e == EngineError::Process
                    &&& !(proc.state == ProcState::NotStarted && proc.traps@.len() == 0)
                },
            },
    {
        match proc.state() {
            ProcState::NotStarted => {},
            _ => {
                return Err(EngineError::Process);
            },
        }
        if proc.traps.len() != 0 {
            return Err(EngineError::Process);
        }
        Ok(Debugger { proc, info, bps: Vec::new(), next_number: 1, events: Vec::new() })
    }

    /// The index of the breakpoint installed at address `a`, if any.
    fn find_bp_by_addr(&self, a: u64) -> (r: Option<usize>)
        ensures
            match r {
                Some(i) => i < self.bps@.len() && self.bps@[i as int].address == a,
                None => !bp_at(self.bps@, a),
            },
    {
        let mut i: usize = 0;
        #[verifier::loop_isolation(false)]
        while i < self.bps.len()
            invariant
                i <= self.bps@.len(),
                forall|j: int| 0 <= j < i ==> (#[trigger] self.bps@[j]).address != a,
            decreases self.bps@.len() - i,
        {
            if self.bps[i].address == a {
                return Some(i);
            }
            i += 1;
        }
        None
    }

    /// The index of the breakpoint carrying user-facing number `n`, if any.
    fn find_bp_by_number(&self, n: u32) -> (r: Option<usize>)
        ensures
            match r {
                Some(i) => i < self.bps@.len() && self.bps@[i as int].number == n,
                None => forall|j: int| 0 <= j < self.bps@.len() ==> (#[trigger] self.bps@[j]).number != n,
            },
    {
        let mut i: usize = 0;
        #[verifier::loop_isolation(false)]
        while i < self.bps.len()
            invariant
                i <= self.bps@.len(),
                forall|j: int| 0 <= j < i ==> (#[trigger] self.bps@[j]).number != n,
            decreases self.bps@.len() - i,
        {
            if self.bps[i].number == n {
                return Some(i);
            }
            i += 1;
        }
        None
    }

    /// Installs a breakpoint at a raw address. Installing twice at one
    /// address is a no-op answering the existing number, whatever the
    /// lifecycle state: the trap patch is written exactly once.
    pub fn set_breakpoint_at_addr(&mut self, a: u64) -> (r: Result<u32, EngineError>)
        requires
            old(self).wf(),
        ensures
            final(self).wf(),
            match r {
                Ok(n) => Debugger::set_addr_post(*old(self), *final(self), a, n),
                Err(e) => {
                    &&& *final(self) == *old(self)
                    &&& (e == EngineError::Process || e == EngineError::Trace)
                    &&& e == EngineError::Process <==> old(self).proc.state == ProcState::Exited
                    &&& e == EngineError::Trace ==> !bp_at(old(self).bps@, a) && (!has_code(
                        old(self).proc.code@,
                        a,
                    ) || old(self).next_number == u32::MAX)
                },
            },
            r is Err <==> (old(self).proc.state == ProcState::Exited || (!bp_at(old(self).bps@, a)
                && (!has_code(old(self).proc.code@, a) || old(self).next_number == u32::MAX))),
    {
        if matches!(self.proc.state(), ProcState::Exited) {
            return Err(EngineError::Process);
        }
        if let Some(i) = self.find_bp_by_addr(a) {
            return Ok(self.bps[i].number);
        }
        if self.next_number == u32::MAX {
            return Err(EngineError::Trace);
        }
        let orig = match self.proc.find_code(a) {
            Some(b) => b,
            None => {
                return Err(EngineError::Trace);
            },
        };
        let number = self.next_number;
        self.proc.write_trap(a);
        self.bps.push(Breakpoint { number, address: a, original_byte: orig, enabled: true });
        self.next_number = number + 1;
        proof {
            assert forall|x: u64| #[trigger] self.proc.trapped(x) implies bp_at(self.bps@, x) by {
                if x == a {
                    assert(self.bps@[self.bps@.len() - 1].address == a);
                } else {
                    let i = choose|i: int|
                        0 <= i < old(self).bps@.len() && (#[trigger] old(self).bps@[i]).address
                            == x;
                    assert(self.bps@[i].address == x);
                }
            }
            assert forall|x: u64| bp_at(self.bps@, x) implies #[trigger] self.proc.trapped(x) by {
                let i = choose|i: int|
                    0 <= i < self.bps@.len() && (#[trigger] self.bps@[i]).address == x;
                if i < old(self).bps@.len() {
                    assert(old(self).bps@[i].address == x);
                }
            }
        }
        Ok(number)
    }

    /// Installs a breakpoint at `file:line`: the line is resolved through the
    /// debug-information index (nearest following line on a blank line), and
    /// the install itself is the idempotent one of `set_breakpoint_at_addr`.
    pub fn set_breakpoint_at_line(&mut self, file: &str, line: u32) -> (r: Result<
        u32,
        EngineError,
    >)
        requires
            old(self).wf(),
        ensures
            final(self).wf(),
            match r {
                Ok(n) => exists|f: u32, i: int|
                    {
                        &&& is_first_file(old(self).info.files@, file@, f as int)
                        &&& #[trigger] row_is_best(old(self).info.rows@, f, line, i)
                        &&& Debugger::set_addr_post(
                            *old(self),
                            *final(self),
                            old(self).info.rows@[i].address,
                            n,
                        )
                    },
                Err(e) => {
                    &&& *final(self) == *old(self)
                    &&& (e == EngineError::LocationNotFound || e == EngineError::Process || e
                        == EngineError::Trace)
                    &&& e == EngineError::LocationNotFound <==> ((forall|j: int|
                        0 <= j < old(self).info.files@.len() ==> (#[trigger] old(
                            self,
                        ).info.files@[j])@ != file@) || exists|f: int|
                        is_first_file(old(self).info.files@, file@, f) && (forall|i: int|
                            0 <= i < old(self).info.rows@.len() ==> !row_serves(
                                #[trigger] old(self).info.rows@[i],
                                f as u32,
                                line,
                            )))
                    &&& e == EngineError::Process <==> (old(self).proc.state == ProcState::Exited
                        && exists|f: u32, i: int|
                        is_first_file(old(self).info.files@, file@, f as int)
                            && #[trigger] row_is_best(old(self).info.rows@, f, line, i))
                },
            },
            r is Err <==> ((forall|j: int|
                0 <= j < old(self).info.files@.len() ==> (#[trigger] old(self).info.files@[j])@
                    != file@) || (exists|f: int|
                is_first_file(old(self).info.files@, file@, f) && (forall|i: int|
                    0 <= i < old(self).info.rows@.len() ==> !row_serves(
                        #[trigger] old(self).info.rows@[i],
                        f as u32,
                        line,
                    ))) || old(self).proc.state == ProcState::Exited || (exists|f: u32, i: int|
                is_first_file(old(self).info.files@, file@, f as int) && #[trigger] row_is_best(
                    old(self).info.rows@,
                    f,
                    line,
                    i,
                ) && !bp_at(old(self).bps@, old(self).info.rows@[i].address) && (!has_code(
                    old(self).proc.code@,
                    old(self).info.rows@[i].address,
                ) || old(self).next_number == u32::MAX))),
    {
        let id = match self.info.file_id(file) {
            Some(id) => id,
            None => {
                return Err(EngineError::LocationNotFound);
            },
        };
        proof {
            assert(is_first_file(self.info.files@, file@, id as int));
            assert forall|f: int| is_first_file(self.info.files@, file@, f) implies f
                == id as int by {
                if f < id as int {
                    assert(self.info.files@[f]@ == file@);
                } else if f > id as int {
                    assert(self.info.files@[id as int]@ == file@);
                }
            }
        }
        let a = match self.info.resolve_line(id, line) {
            Ok(a) => a,
            Err(e) => {
                return Err(e);
            },
        };
        let ghost gi = choose|i: int|
            row_is_best(self.info.rows@, id, line, i) && a == self.info.rows@[i].address;
        proof {
            assert forall|i: int|
                row_is_best(self.info.rows@, id, line, i) implies i == gi by {
                self.info.lemma_best_unique(id, line, i, gi);
            }
        }
        let r = self.set_breakpoint_at_addr(a);
        match r {
            Ok(n) => {
                proof {
                    assert(is_first_file(old(self).info.files@, file@, id as int));
                    assert(row_is_best(old(self).info.rows@, (id as int) as u32, line, gi));
                    assert(Debugger::set_addr_post(
                        *old(self),
                        *self,
                        old(self).info.rows@[gi].address,
                        n,
                    ));
                    assert(exists|f: u32, i: int|
                        {
                            &&& is_first_file(old(self).info.files@, file@, f as int)
                            &&& #[trigger] row_is_best(old(self).info.rows@, f, line, i)
                            &&& Debugger::set_addr_post(
                                *old(self),
                                *self,
                                old(self).info.rows@[i].address,
                                n,
                            )
                        });
                }
                Ok(n)
            },
            Err(e) => {
                proof {
                    assert(row_serves(old(self).info.rows@[gi], id, line));
                }
                Err(e)
            },
        }
    }

    /// Installs one breakpoint per function of the given name, each at the
    /// function's post-prologue address, so that a break by name stops with
    /// the stack frame fully set up. Answers the breakpoint number of each
    /// match, in table order.
    pub fn set_breakpoint_at_fn(&mut self, name: &str) -> (r: Result<Vec<u32>, EngineError>)
        requires
            old(self).wf(),
        ensures
            final(self).wf(),
            match r {
                Ok(ns) => {
                    &&& fn_matches(old(self).info.funcs@, name@).len() > 0
                    &&& ns@.len() == fn_matches(old(self).info.funcs@, name@).len()
                    &&& forall|j: int|
                        0 <= j < ns@.len() ==> bp_at(
                            final(self).bps@,
                            #[trigger] fn_matches(old(self).info.funcs@, name@)[j],
                        ) && final(self).proc.trapped(fn_matches(old(self).info.funcs@, name@)[j])
                            && ns@[j] == bp_number_at(
                            final(self).bps@,
                            fn_matches(old(self).info.funcs@, name@)[j],
                        )
                    &&& forall|i: int|
                        0 <= i < old(self).bps@.len() ==> final(self).bps@.contains(
                            #[trigger] old(self).bps@[i],
                        )
                    &&& forall|x: u64|
                        #[trigger] final(self).proc.trapped(x) <==> (old(self).proc.trapped(x)
                            || fn_matches(old(self).info.funcs@, name@).contains(x))
                    &&& forall|i: int|
                        0 <= i < final(self).bps@.len() ==> old(self).bps@.contains(
                            #[trigger] final(self).bps@[i],
                        ) || fn_matches(old(self).info.funcs@, name@).contains(
                            final(self).bps@[i].address,
                        )
                    &&& old(self).next_number <= final(self).next_number <= old(self).next_number
                        + fn_matches(old(self).info.funcs@, name@).len()
                    &&& final(self).same_session(*old(self))
                    &&& final(self).events@ == old(self).events@
                    &&& final(self).proc.ip == old(self).proc.ip
                    &&& final(self).proc.stack@ == old(self).proc.stack@
                    &&& final(self).proc.state == old(self).proc.state
                },
                Err(e) => {
                    &&& (e == EngineError::SymbolNotFound || e == EngineError::Process || e
                        == EngineError::Trace)
                    &&& e == EngineError::SymbolNotFound <==> fn_matches(
                        old(self).info.funcs@,
                        name@,
                    ).len() == 0
                    &&& e == EngineError::SymbolNotFound ==> *final(self) == *old(self)
                    &&& e == EngineError::Process <==> (fn_matches(
                        old(self).info.funcs@,
                        name@,
                    ).len() > 0 && old(self).proc.state == ProcState::Exited)
                    &&& e == EngineError::Process ==> *final(self) == *old(self)
                    &&& e == EngineError::Trace ==> ((exists|j: int|
                        0 <= j < fn_matches(old(self).info.funcs@, name@).len() && !has_code(
                            old(self).proc.code@,
                            #[trigger] fn_matches(old(self).info.funcs@, name@)[j],
                        )) || old(self).next_number + fn_matches(old(self).info.funcs@, name@).len()
                        > u32::MAX)
                },
            },
    {
        let addrs = match self.info.resolve_function(name) {
            Ok(v) => v,
            Err(e) => {
                return Err(e);
            },
        };
        if matches!(self.proc.state(), ProcState::Exited) {
            return Err(EngineError::Process);
        }
        let mut ns: Vec<u32> = Vec::new();
        let mut k: usize = 0;
        #[verifier::loop_isolation(false)]
        while k < addrs.len()
            invariant
                k <= addrs@.len(),
                ns@.len() == k,
                self.wf(),
                self.same_session(*old(self)),
                self.events@ == old(self).events@,
                self.proc.ip == old(self).proc.ip,
                self.proc.stack@ == old(self).proc.stack@,
                self.proc.state == old(self).proc.state,
                self.proc.state != ProcState::Exited,
                forall|j: int|
                    0 <= j < k ==> bp_at(self.bps@, #[trigger] addrs@[j]) && self.proc.trapped(
                        addrs@[j],
                    ) && ns@[j] == bp_number_at(self.bps@, addrs@[j]),
                forall|i: int|
                    0 <= i < old(self).bps@.len() ==> self.bps@.contains(#[trigger] old(self).bps@[i]),
                forall|x: u64|
                    #[trigger] self.proc.trapped(x) <==> (old(self).proc.trapped(x)
                        || addrs@.take(k as int).contains(x)),
                forall|i: int|
                    0 <= i < self.bps@.len() ==> old(self).bps@.contains(#[trigger] self.bps@[i])
                        || addrs@.contains(self.bps@[i].address),
                old(self).next_number <= self.next_number <= old(self).next_number + k,
            decreases addrs@.len() - k,
        {
            let ghost pre = *self;
            let n = match self.set_breakpoint_at_addr(addrs[k]) {
                Ok(n) => n,
                Err(e) => {
                    proof {
                        assert(e == EngineError::Trace);
                        if !has_code(pre.proc.code@, addrs@[k as int]) {
                            assert(!has_code(
                                old(self).proc.code@,
                                fn_matches(old(self).info.funcs@, name@)[k as int],
                            ));
                        } else {
                            assert(pre.next_number == u32::MAX);
                            assert(old(self).next_number + addrs@.len() > u32::MAX);
                        }
                    }
                    return Err(e);
                },
            };
            ns.push(n);
            proof {
                if !bp_at(pre.bps@, addrs@[k as int]) {
                    assert(self.bps@[self.bps@.len() - 1].address == addrs@[k as int]);
                    assert forall|i: int| 0 <= i < pre.bps@.len() implies self.bps@.contains(
                        #[trigger] pre.bps@[i],
                    ) by {
                        assert(self.bps@[i] == pre.bps@[i]);
                    }
                }
                assert(bp_at(self.bps@, addrs@[k as int]));
                assert(n == bp_number_at(self.bps@, addrs@[k as int])) by {
                    let c = choose|c: int|
                        0 <= c < self.bps@.len() && (#[trigger] self.bps@[c]).address
                            == addrs@[k as int];
                    if bp_at(pre.bps@, addrs@[k as int]) {
                        let c0 = choose|c0: int|
                            0 <= c0 < pre.bps@.len() && (#[trigger] pre.bps@[c0]).address
                                == addrs@[k as int];
                        assert(self.bps@[c0].address == addrs@[k as int]);
                        assert(c == c0);
                    } else {
                        assert(c == self.bps@.len() - 1);
                    }
                }
                assert forall|j: int| 0 <= j < k + 1 implies bp_at(
                    self.bps@,
                    #[trigger] addrs@[j],
                ) && self.proc.trapped(addrs@[j]) && ns@[j] == bp_number_at(
                    self.bps@,
                    addrs@[j],
                ) by {
                    if j < k {
                        lemma_bp_number_stable(pre.bps@, self.bps@, addrs@[j]);
                        assert(self.proc.trapped(addrs@[j]));
                    }
                }
                assert forall|i: int| 0 <= i < old(self).bps@.len() implies self.bps@.contains(
                    #[trigger] old(self).bps@[i],
                ) by {
                    let x = choose|x: int|
                        0 <= x < pre.bps@.len() && pre.bps@[x] == old(self).bps@[i];
                    if !bp_at(pre.bps@, addrs@[k as int]) {
                        assert(self.bps@[x] == old(self).bps@[i]);
                    }
                }
                assert forall|x: u64|
                    #[trigger] self.proc.trapped(x) <==> (old(self).proc.trapped(x)
                        || addrs@.take(k + 1 as int).contains(x)) by {
                    lemma_take_contains(addrs@, k as int, x);
                    if bp_at(pre.bps@, addrs@[k as int]) {
                        if x == addrs@[k as int] {
                            assert(pre.proc.trapped(x));
                        }
                    }
                }
                assert forall|i: int|
                    0 <= i < self.bps@.len() implies (old(self).bps@.contains(
                    #[trigger] self.bps@[i],
                ) || addrs@.contains(self.bps@[i].address)) by {
                    if !bp_at(pre.bps@, addrs@[k as int]) {
                        if i < pre.bps@.len() {
                            assert(self.bps@[i] == pre.bps@[i]);
                        } else {
                            assert(addrs@[k as int] == self.bps@[i].address);
                        }
                    }
                }
            }
            k += 1;
        }
        proof {
            assert(addrs@.take(addrs@.len() as int) == addrs@);
        }
        Ok(ns)
    }

    /// Removes the breakpoint with the given number, restoring the original
    /// byte at its address. Fails with `UnknownBreakpoint` for a number that
    /// was never assigned or was already removed.
    pub fn remove_breakpoint(&mut self, number: u32) -> (r: Result<(), EngineError>)
        requires
            old(self).wf(),
        ensures
            final(self).wf(),
            match r {
                Ok(()) => {
                    &&& old(self).proc.state != ProcState::Exited
                    &&& exists|i: int|
                        {
                            &&& 0 <= i < old(self).bps@.len()
                            &&& (#[trigger] old(self).bps@[i]).number == number
                            &&& final(self).bps@ == old(self).bps@.remove(i)
                            &&& forall|x: u64|
                                #[trigger] final(self).proc.trapped(x) <==> (old(
                                    self,
                                ).proc.trapped(x) && x != old(self).bps@[i].address)
                        }
                    &&& final(self).same_session(*old(self))
                    &&& final(self).events@ == old(self).events@
                    &&& final(self).proc.ip == old(self).proc.ip
                    &&& final(self).proc.state == old(self).proc.state
                    &&& final(self).next_number == old(self).next_number
                },
                Err(e) => {
                    &&& *final(self) == *old(self)
                    &&& if old(self).proc.state == ProcState::Exited {
                        e == EngineError::Process
                    } else {
                        e == EngineError::UnknownBreakpoint && (forall|j: int|
                            0 <= j < old(self).bps@.len() ==> (#[trigger] old(self).bps@[j]).number
                                != number)
                    }
                },
            },
    {
        if matches!(self.proc.state(), ProcState::Exited) {
            return Err(EngineError::Process);
        }
        match self.find_bp_by_number(number) {
            Some(_) => {},
            None => {
                return Err(EngineError::UnknownBreakpoint);
            },
        }
        self.drop_bp(number);
        Ok(())
    }

    /// Deletes the breakpoint with the given number and restores the original
    /// byte at its address, whatever the lifecycle state: the internal
    /// removal that temporary breakpoints need even after the debuggee
    /// exits.
    fn drop_bp(&mut self, number: u32)
        requires
            old(self).wf(),
            exists|i: int|
                0 <= i < old(self).bps@.len() && (#[trigger] old(self).bps@[i]).number == number,
        ensures
            final(self).wf(),
            exists|i: int|
                {
                    &&& 0 <= i < old(self).bps@.len()
                    &&& (#[trigger] old(self).bps@[i]).number == number
                    &&& final(self).bps@ == old(self).bps@.remove(i)
                    &&& forall|x: u64|
                        #[trigger] final(self).proc.trapped(x) <==> (old(self).proc.trapped(x)
                            && x != old(self).bps@[i].address)
                },
            final(self).same_session(*old(self)),
            final(self).events@ == old(self).events@,
            final(self).proc.ip == old(self).proc.ip,
            final(self).proc.stack@ == old(self).proc.stack@,
            final(self).proc.state == old(self).proc.state,
            final(self).next_number == old(self).next_number,
    {
        let i = match self.find_bp_by_number(number) {
            Some(i) => i,
            None => {
                proof {
                    assert(false);
                }
                return ;
            },
        };
        let bp = self.bps[i];
        self.proc.write_back(bp.address, bp.original_byte);
        self.bps.remove(i);
        proof {
            let pre = old(self).bps@;
            let post = self.bps@;
            assert forall|x: u64| #[trigger] self.proc.trapped(x) implies bp_at(post, x) by {
                let j = choose|j: int| 0 <= j < pre.len() && (#[trigger] pre[j]).address == x;
                if j < i {
                    assert(post[j].address == x);
                } else {
                    assert(j != i);
                    assert(post[j - 1].address == x);
                }
            }
            assert forall|x: u64| bp_at(post, x) implies #[trigger] self.proc.trapped(x) by {
                let j = choose|j: int| 0 <= j < post.len() && (#[trigger] post[j]).address == x;
                if j < i {
                    assert(pre[j].address == x);
                    assert(pre[j].address != pre[i as int].address);
                } else {
                    assert(pre[j + 1].address == x);
                    assert(pre[j + 1].address != pre[i as int].address);
                }
            }
            assert forall|p: int, q: int|
                0 <= p < post.len() && 0 <= q < post.len() && p != q implies post[p].number
                != post[q].number && post[p].address != post[q].address by {
                let pp = if p < i {
                    p
                } else {
                    p + 1
                };
                let qq = if q < i {
                    q
                } else {
                    q + 1
                };
                assert(post[p] == pre[pp]);
                assert(post[q] == pre[qq]);
            }
        }
    }

    /// Appends the notification for the stop the process just reported: the
    /// one hook invocation of the completed command.
    fn report_stop(&mut self)
        requires
            old(self).wf(),
            old(self).proc.state is Stopped ==> bp_at(
                old(self).bps@,
                old(self).proc.cur_addr(),
            ),
            old(self).proc.state is Stopped || old(self).proc.state is Exited,
        ensures
            final(self).wf(),
            final(self).proc == old(self).proc,
            final(self).bps@ == old(self).bps@,
            final(self).next_number == old(self).next_number,
            final(self).info == old(self).info,
            final(self).events@ == old(self).events@.push(stop_reason_of(*old(self))),
    {
        match self.proc.state() {
            ProcState::Exited => {
                let code = self.proc.exit_code();
                self.events.push(StopReason::Exited(code));
            },
            _ => {
                let a = self.proc.current_addr();
                match self.find_bp_by_addr(a) {
                    Some(i) => {
                        let n = self.bps[i].number;
                        proof {
                            let j = choose|j: int|
                                0 <= j < self.bps@.len() && (#[trigger] self.bps@[j]).address
                                    == a;
                            assert(self.bps@[j].number == n);
                        }
                        self.events.push(StopReason::BreakpointHit(n));
                    },
                    None => {
                        proof {
                            assert(false);
                        }
                    },
                }
            },
        }
    }

    /// Steps across the breakpoint under the current address, if one is
    /// present: restore the original byte, execute one instruction, patch
    /// the trap back in. This is what lets a session stopped at a breakpoint
    /// continue without retriggering it immediately.
    pub fn step_over_breakpoint_if_present(&mut self)
        requires
            old(self).wf(),
            old(self).proc.state is Stopped,
        ensures
            final(self).wf(),
            final(self).same_session(*old(self)),
            final(self).bps@ == old(self).bps@,
            final(self).next_number == old(self).next_number,
            final(self).events@ == old(self).events@,
            forall|x: u64| #[trigger] final(self).proc.trapped(x) <==> old(self).proc.trapped(x),
            if old(self).proc.trapped(old(self).proc.cur_addr()) {
                final(self).proc.ip == old(self).proc.ip + 1
            } else {
                final(self).proc == old(self).proc
            },
            final(self).proc.state == if final(self).proc.ip == final(self).proc.trace@.len() {
                ProcState::Exited
            } else {
                ProcState::Stopped
            },
    {
        let a = self.proc.current_addr();
        let i = match self.find_bp_by_addr(a) {
            Some(i) => i,
            None => {
                proof {
                    assert(!self.proc.trapped(a));
                }
                return ;
            },
        };
        proof {
            assert(self.proc.trapped(a));
        }
        let orig = self.bps[i].original_byte;
        self.proc.write_back(a, orig);
        self.proc.single_step();
        self.proc.write_trap(a);
        proof {
            assert forall|x: u64| #[trigger] self.proc.trapped(x) <==> old(self).proc.trapped(
                x,
            ) by {
                if x == a {
                    assert(old(self).proc.trapped(a));
                }
            }
        }
    }

    /// Starts the debuggee: the first run after launch, until the first
    /// breakpoint hit or natural exit, recording exactly one notification.
    pub fn start_debugee(&mut self) -> (r: Result<(), EngineError>)
        requires
            old(self).wf(),
        ensures
            final(self).wf(),
            match r {
                Ok(()) => {
                    &&& old(self).proc.state == ProcState::NotStarted
                    &&& continue_post(*old(self), *final(self), 0)
                },
                Err(e) => {
                    &&& e == EngineError::Process
                    &&& old(self).proc.state != ProcState::NotStarted
                    &&& *final(self) == *old(self)
                },
            },
            r is Ok <==> old(self).proc.state == ProcState::NotStarted,
    {
        match self.proc.state() {
            ProcState::NotStarted => {},
            _ => {
                return Err(EngineError::Process);
            },
        }
        self.proc.resume();
        proof {
            lemma_first_trap_from(self.proc.trace@, self.proc.traps@, 0);
            assert forall|x: u64| #[trigger] self.proc.trapped(x) <==> bp_at(
                self.bps@,
                x,
            ) by {
                assert(self.proc.trapped(x) <==> old(self).proc.trapped(x));
            }
            if self.proc.state is Stopped {
                assert(self.proc.trapped(self.proc.cur_addr()));
                assert(bp_at(self.bps@, self.proc.cur_addr()));
            }
        }
        self.report_stop();
        Ok(())
    }

    /// Resumes the stopped debuggee: steps across a breakpoint under the
    /// current address if one is present, then runs to the next breakpoint
    /// hit or to natural exit, recording exactly one notification.
    pub fn continue_debugee(&mut self) -> (r: Result<(), EngineError>)
        requires
            old(self).wf(),
        ensures
            final(self).wf(),
            match r {
                Ok(()) => {
                    &&& old(self).proc.state is Stopped
                    &&& continue_post(
                        *old(self),
                        *final(self),
                        old(self).proc.ip + if old(self).proc.trapped(old(self).proc.cur_addr()) {
                            1int
                        } else {
                            0int
                        },
                    )
                },
                Err(e) => {
                    &&& e == EngineError::Process
                    &&& !(old(self).proc.state is Stopped)
                    &&& *final(self) == *old(self)
                },
            },
            r is Ok <==> old(self).proc.state is Stopped,
    {
        match self.proc.state() {
            ProcState::Stopped => {},
            _ => {
                return Err(EngineError::Process);
            },
        }
        let ghost from = old(self).proc.ip + if old(self).proc.trapped(
            old(self).proc.cur_addr(),
        ) {
            1int
        } else {
            0int
        };
        self.step_over_breakpoint_if_present();
        proof {
            assert(self.proc.ip == from);
            assert forall|x: u64|
                self.proc.traps@.contains(x) <==> old(self).proc.traps@.contains(x) by {
                assert(self.proc.trapped(x) <==> old(self).proc.trapped(x));
            }
            lemma_first_trap_equiv(
                self.proc.trace@,
                self.proc.traps@,
                old(self).proc.traps@,
                from,
            );
        }
        if matches!(self.proc.state(), ProcState::Exited) {
            proof {
                assert forall|x: u64| #[trigger] self.proc.trapped(x) <==> bp_at(
                    self.bps@,
                    x,
                ) by {
                    assert(self.proc.trapped(x) <==> old(self).proc.trapped(x));
                }
            }
            self.report_stop();
            return Ok(());
        }
        self.proc.resume();
        proof {
            lemma_first_trap_from(self.proc.trace@, self.proc.traps@, from);
            assert forall|x: u64| #[trigger] self.proc.trapped(x) <==> bp_at(
                self.bps@,
                x,
            ) by {
                assert(self.proc.trapped(x) <==> old(self).proc.trapped(x));
            }
            if self.proc.state is Stopped {
                assert(self.proc.trapped(self.proc.cur_addr()));
                assert(bp_at(self.bps@, self.proc.cur_addr()));
            }
        }
        self.report_stop();
        Ok(())
    }

    /// The stop location of the current position: the file, line and address
    /// under the stopped thread's program counter, where debug information
    /// covers it.
    pub fn current_thread_stop_at(&self) -> (r: Option<Location>)
        requires
            self.wf(),
        ensures
            match r {
                Some(loc) => {
                    &&& self.proc.state is Stopped
                    &&& self.info.located(self.proc.cur_addr())
                    &&& loc.address == self.proc.cur_addr()
                    &&& loc.line == self.info.line_at(self.proc.cur_addr())
                    &&& loc.file == self.info.file_at(self.proc.cur_addr())
                },
                None => !(self.proc.state is Stopped) || !self.info.located(self.proc.cur_addr()),
            },
    {
        match self.proc.state() {
            ProcState::Stopped => {},
            _ => {
                return None;
            },
        }
        self.info.locate(self.proc.current_addr())
    }

    /// Single-steps repeatedly until the debuggee reaches a source line that
    /// differs from the starting one and has valid debug information;
    /// crossing unmapped code does not count as arrival. Landing on a user
    /// breakpoint takes precedence and reports the hit instead.
    pub fn step_into(&mut self) -> (r: Result<(), EngineError>)
        requires
            old(self).wf(),
        ensures
            final(self).wf(),
            match r {
                Ok(()) => old(self).proc.state is Stopped && step_into_post(
                    *old(self),
                    *final(self),
                ),
                Err(e) => {
                    &&& e == EngineError::Process
                    &&& !(old(self).proc.state is Stopped)
                    &&& *final(self) == *old(self)
                },
            },
            r is Ok <==> old(self).proc.state is Stopped,
    {
        match self.proc.state() {
            ProcState::Stopped => {},
            _ => {
                return Err(EngineError::Process);
            },
        }
        let s = self.proc.ip;
        let start: Option<u32> = match self.info.locate(self.proc.current_addr()) {
            Some(l) => Some(l.line),
            None => None,
        };
        proof {
            assert(start == old(self).info.line_opt(old(self).proc.cur_addr()));
        }
        self.step_over_breakpoint_if_present();
        if self.proc.ip == s {
            proof {
                assert(!self.proc.trapped(self.proc.cur_addr()));
            }
            self.proc.single_step();
            proof {
                assert forall|x: u64| #[trigger] self.proc.trapped(x) <==> bp_at(
                    self.bps@,
                    x,
                ) by {
                    assert(self.proc.trapped(x) <==> old(self).proc.trapped(x));
                }
            }
        }
        #[verifier::loop_isolation(false)]
        loop
            invariant
                self.wf(),
                self.same_session(*old(self)),
                self.bps@ == old(self).bps@,
                self.next_number == old(self).next_number,
                self.events@ == old(self).events@,
                forall|x: u64| #[trigger] self.proc.trapped(x) <==> old(self).proc.trapped(x),
                s < self.proc.ip <= self.proc.trace@.len(),
                self.proc.state == if self.proc.ip == self.proc.trace@.len() {
                    ProcState::Exited
                } else {
                    ProcState::Stopped
                },
                forall|k: int|
                    s + 1 <= k < self.proc.ip ==> !step_into_stop(
                        old(self).bps@,
                        old(self).info,
                        old(self).proc.trace@,
                        start,
                        k,
                    ),
            decreases self.proc.trace@.len() - self.proc.ip,
        {
            if matches!(self.proc.state(), ProcState::Exited) {
                self.events.push(StopReason::Exited(self.proc.exit_code()));
                proof {
                    lemma_step_into_skip(
                        old(self).bps@,
                        old(self).info,
                        old(self).proc.trace@,
                        start,
                        s + 1,
                        self.proc.ip as int,
                    );
                }
                return Ok(());
            }
            let a = self.proc.current_addr();
            if let Some(i) = self.find_bp_by_addr(a) {
                let n = self.bps[i].number;
                proof {
                    let j = choose|j: int|
                        0 <= j < self.bps@.len() && (#[trigger] self.bps@[j]).address == a;
                    assert(self.bps@[j].number == n);
                }
                self.events.push(StopReason::BreakpointHit(n));
                proof {
                    lemma_step_into_skip(
                        old(self).bps@,
                        old(self).info,
                        old(self).proc.trace@,
                        start,
                        s + 1,
                        self.proc.ip as int,
                    );
                    assert(bp_at(old(self).bps@, a));
                }
                return Ok(());
            }
            let mut done = false;
            match self.info.locate(a) {
                Some(l) => {
                    done = match start {
                        Some(sl) => l.line != sl,
                        None => true,
                    };
                },
                None => {},
            }
            if done {
                self.events.push(StopReason::StepComplete);
                proof {
                    lemma_step_into_skip(
                        old(self).bps@,
                        old(self).info,
                        old(self).proc.trace@,
                        start,
                        s + 1,
                        self.proc.ip as int,
                    );
                    assert(step_into_stop(
                        old(self).bps@,
                        old(self).info,
                        old(self).proc.trace@,
                        start,
                        self.proc.ip as int,
                    ));
                    assert(!bp_at(old(self).bps@, a));
                }
                return Ok(());
            }
            proof {
                assert(!step_into_stop(
                    old(self).bps@,
                    old(self).info,
                    old(self).proc.trace@,
                    start,
                    self.proc.ip as int,
                ));
                assert(!self.proc.trapped(a));
            }
            let ghost mid = *self;
            self.proc.single_step();
            proof {
                assert forall|x: u64| #[trigger] self.proc.trapped(x) <==> old(
                    self,
                ).proc.trapped(x) by {
                    assert(self.proc.trapped(x) <==> mid.proc.trapped(x));
                }
            }
        }
    }

    /// Runs the debuggee out of the current frame: a temporary breakpoint is
    /// installed at the frame's return address and execution resumed until it
    /// is back in the caller, a user breakpoint hits first, or the debuggee
    /// exits. Fails with `NoCallerFrame` at the outermost frame.
    #[verifier::rlimit(100)]
    pub fn step_out(&mut self) -> (r: Result<(), EngineError>)
        requires
            old(self).wf(),
        ensures
            final(self).wf(),
            match r {
                Ok(()) => old(self).proc.state is Stopped && old(self).proc.stack@.len() > 0
                    && step_out_post(*old(self), *final(self)),
                Err(e) => {
                    &&& *final(self) == *old(self)
                    &&& (e == EngineError::Process || e == EngineError::NoCallerFrame || e
                        == EngineError::Trace)
                    &&& (e == EngineError::Process <==> !(old(self).proc.state is Stopped))
                    &&& (e == EngineError::NoCallerFrame <==> (old(self).proc.state is Stopped
                        && old(self).proc.stack@.len() == 0))
                    &&& (e == EngineError::Trace <==> (old(self).proc.state is Stopped && old(
                        self,
                    ).proc.stack@.len() > 0 && !bp_at(old(self).bps@, old(self).proc.stack@.last())
                        && old(self).next_number == u32::MAX))
                },
            },
    {
        match self.proc.state() {
            ProcState::Stopped => {},
            _ => {
                return Err(EngineError::Process);
            },
        }
        let d0 = self.proc.depth();
        if d0 == 0 {
            return Err(EngineError::NoCallerFrame);
        }
        let s = self.proc.ip;
        let r_addr = self.proc.ret_slot(d0 - 1);
        proof {
            assert(old(self).proc.stack@.last() == r_addr);
            assert(crate::process::has_code(self.proc.code@, r_addr)) by {
                crate::process::lemma_stack_has_code(
                    self.proc.trace@,
                    self.proc.code@,
                    self.proc.ip as int,
                );
            }
        }
        let had_user = self.find_bp_by_addr(r_addr).is_some();
        let tn = match self.set_breakpoint_at_addr(r_addr) {
            Ok(n) => n,
            Err(e) => {
                return Err(e);
            },
        };
        proof {
            if !had_user {
                assert(!old(self).proc.trapped(r_addr));
            }
        }
        #[verifier::loop_isolation(false)]
        loop
            invariant
                self.wf(),
                self.same_session(*old(self)),
                self.events@ == old(self).events@,
                had_user == bp_at(old(self).bps@, r_addr),
                if had_user {
                    self.bps@ == old(self).bps@ && self.next_number == old(self).next_number
                } else {
                    self.bps@ == old(self).bps@.push(
                        Breakpoint {
                            number: old(self).next_number,
                            address: r_addr,
                            original_byte: byte_at(old(self).proc.code@, r_addr),
                            enabled: true,
                        },
                    ) && self.next_number == old(self).next_number + 1 && tn == old(
                        self,
                    ).next_number
                },
                forall|x: u64|
                    #[trigger] self.proc.trapped(x) <==> (old(self).proc.trapped(x) || x
                        == r_addr),
                s <= self.proc.ip < self.proc.trace@.len(),
                self.proc.state is Stopped,
                self.proc.ip == s || (self.proc.trace@[self.proc.ip as int].addr == r_addr
                    && !had_user && crate::process::depth_at(self.proc.trace@, self.proc.ip as int)
                    >= d0),
                forall|k: int|
                    s + 1 <= k < self.proc.ip ==> !step_out_stop(
                        old(self).bps@,
                        old(self).proc.trace@,
                        r_addr,
                        d0 as int,
                        k,
                    ),
            decreases self.proc.trace@.len() - self.proc.ip,
        {
            let ghost top = *self;
            self.step_over_breakpoint_if_present();
            proof {
                if self.proc.ip != top.proc.ip && top.proc.ip > s {
                    assert(!bp_at(old(self).bps@, top.proc.trace@[top.proc.ip as int].addr));
                    assert(!step_out_stop(
                        old(self).bps@,
                        old(self).proc.trace@,
                        r_addr,
                        d0 as int,
                        top.proc.ip as int,
                    ));
                }
            }
            if matches!(self.proc.state(), ProcState::Exited) {
                proof {
                    if !had_user {
                        assert forall|j: int| 0 <= j < self.bps@.len() - 1 implies (
                        #[trigger] self.bps@[j]).number != tn by {
                            assert(self.bps@[j] == old(self).bps@[j]);
                        }
                    }
                }
                self.cleanup_temp(had_user, tn);
                proof {
                    assert(self.bps@ =~= old(self).bps@);
                    assert forall|x: u64| #[trigger] self.proc.trapped(x) <==> old(
                        self,
                    ).proc.trapped(x) by {
                        if x == r_addr && !had_user {
                            assert(!old(self).proc.trapped(r_addr));
                        }
                        if x == r_addr && had_user {
                            assert(bp_at(old(self).bps@, r_addr));
                        }
                    }
                }
                proof {
                    lemma_step_out_skip(
                        old(self).bps@,
                        old(self).proc.trace@,
                        r_addr,
                        d0 as int,
                        s + 1,
                        self.proc.ip as int,
                    );
                }
                self.events.push(StopReason::Exited(self.proc.exit_code()));
                return Ok(());
            }
            let ghost danced = *self;
            self.proc.resume();
            proof {
                assert forall|x: u64|
                    #[trigger] self.proc.trapped(x) <==> (old(self).proc.trapped(x) || x
                        == r_addr) by {
                    assert(self.proc.traps@ == danced.proc.traps@);
                    assert(danced.proc.trapped(x) <==> top.proc.trapped(x));
                }
                assert forall|x: u64| #[trigger] self.proc.trapped(x) <==> bp_at(
                    self.bps@,
                    x,
                ) by {
                    assert(self.proc.trapped(x) <==> danced.proc.trapped(x));
                    assert(danced.proc.trapped(x) <==> top.proc.trapped(x));
                }
                lemma_first_trap_from(self.proc.trace@, self.proc.traps@, danced.proc.ip as int);
                assert forall|k: int|
                    danced.proc.ip <= k < self.proc.ip implies !step_out_stop(
                        old(self).bps@,
                        old(self).proc.trace@,
                        r_addr,
                        d0 as int,
                        k,
                    ) by {
                    let ka = self.proc.trace@[k].addr;
                    assert(!self.proc.trapped(ka));
                    assert(self.proc.traps@ == danced.proc.traps@);
                    assert(!danced.proc.trapped(ka));
                    assert(!top.proc.trapped(ka));
                    assert(!(old(self).proc.trapped(ka) || ka == r_addr));
                    assert(!bp_at(old(self).bps@, ka));
                }
            }
            if matches!(self.proc.state(), ProcState::Exited) {
                proof {
                    if !had_user {
                        assert forall|j: int| 0 <= j < self.bps@.len() - 1 implies (
                        #[trigger] self.bps@[j]).number != tn by {
                            assert(self.bps@[j] == old(self).bps@[j]);
                        }
                    }
                }
                self.cleanup_temp(had_user, tn);
                proof {
                    assert(self.bps@ =~= old(self).bps@);
                    assert forall|x: u64| #[trigger] self.proc.trapped(x) <==> old(
                        self,
                    ).proc.trapped(x) by {
                        if x == r_addr && !had_user {
                            assert(!old(self).proc.trapped(r_addr));
                        }
                        if x == r_addr && had_user {
                            assert(bp_at(old(self).bps@, r_addr));
                        }
                    }
                }
                proof {
                    lemma_step_out_skip(
                        old(self).bps@,
                        old(self).proc.trace@,
                        r_addr,
                        d0 as int,
                        s + 1,
                        self.proc.ip as int,
                    );
                }
                self.events.push(StopReason::Exited(self.proc.exit_code()));
                return Ok(());
            }
            let a = self.proc.current_addr();
            proof {
                assert(self.proc.trapped(a));
                assert(self.proc.traps@ == danced.proc.traps@);
                assert(danced.proc.trapped(a) <==> top.proc.trapped(a));
                assert(top.proc.trapped(a));
            }
            if !had_user && a == r_addr {
                if self.proc.depth() < d0 {
                    proof {
                        if !had_user {
                            assert forall|j: int| 0 <= j < self.bps@.len() - 1 implies (
                            #[trigger] self.bps@[j]).number != tn by {
                                assert(self.bps@[j] == old(self).bps@[j]);
                            }
                        }
                    }
                    self.cleanup_temp(had_user, tn);
                    proof {
                        assert(self.bps@ =~= old(self).bps@);
                        assert forall|x: u64| #[trigger] self.proc.trapped(x) <==> old(
                            self,
                        ).proc.trapped(x) by {
                            if x == r_addr && !had_user {
                                assert(!old(self).proc.trapped(r_addr));
                            }
                            if x == r_addr && had_user {
                                assert(bp_at(old(self).bps@, r_addr));
                            }
                        }
                    }
                    proof {
                        lemma_step_out_skip(
                            old(self).bps@,
                            old(self).proc.trace@,
                            r_addr,
                            d0 as int,
                            s + 1,
                            self.proc.ip as int,
                        );
                        assert(step_out_stop(
                            old(self).bps@,
                            old(self).proc.trace@,
                            r_addr,
                            d0 as int,
                            self.proc.ip as int,
                        ));
                        assert(!bp_at(old(self).bps@, a));
                    }
                    self.events.push(StopReason::StepComplete);
                    return Ok(());
                }
            } else {
                proof {
                    if a == r_addr {
                        assert(had_user);
                        assert(bp_at(old(self).bps@, r_addr));
                        assert(old(self).proc.trapped(a));
                    } else {
                        assert(old(self).proc.trapped(a) || a == r_addr);
                    }
                    assert(old(self).proc.trapped(a));
                    assert(bp_at(old(self).bps@, a));
                    if !had_user {
                        assert forall|j: int| 0 <= j < self.bps@.len() - 1 implies (
                        #[trigger] self.bps@[j]).number != tn by {
                            assert(self.bps@[j] == old(self).bps@[j]);
                        }
                    }
                }
                self.cleanup_temp(had_user, tn);
                proof {
                    assert(self.bps@ =~= old(self).bps@);
                    assert forall|x: u64| #[trigger] self.proc.trapped(x) <==> old(
                        self,
                    ).proc.trapped(x) by {
                        if x == r_addr && !had_user {
                            assert(!old(self).proc.trapped(r_addr));
                        }
                        if x == r_addr && had_user {
                            assert(bp_at(old(self).bps@, r_addr));
                        }
                    }
                }
                let i = match self.find_bp_by_addr(a) {
                    Some(i) => i,
                    None => {
                        proof {
                            assert(false);
                        }
                        return Ok(());
                    },
                };
                let n = self.bps[i].number;
                proof {
                    let j = choose|j: int|
                        0 <= j < self.bps@.len() && (#[trigger] self.bps@[j]).address == a;
                    assert(self.bps@[j].number == n);
                    lemma_step_out_skip(
                        old(self).bps@,
                        old(self).proc.trace@,
                        r_addr,
                        d0 as int,
                        s + 1,
                        self.proc.ip as int,
                    );
                    assert(step_out_stop(
                        old(self).bps@,
                        old(self).proc.trace@,
                        r_addr,
                        d0 as int,
                        self.proc.ip as int,
                    ));
                }
                self.events.push(StopReason::BreakpointHit(n));
                return Ok(());
            }
        }
    }

    /// Removes the temporary breakpoint a step command installed, unless the
    /// address already carried a user breakpoint, in which case the install
    /// was a no-op and so is the removal.
    fn cleanup_temp(&mut self, had_user: bool, tn: u32)
        requires
            old(self).wf(),
            !had_user ==> old(self).bps@.len() > 0 && old(self).bps@.last().number == tn && (
            forall|j: int|
                0 <= j < old(self).bps@.len() - 1 ==> (#[trigger] old(self).bps@[j]).number != tn),
        ensures
            final(self).wf(),
            final(self).same_session(*old(self)),
            final(self).events@ == old(self).events@,
            final(self).proc.ip == old(self).proc.ip,
            final(self).proc.stack@ == old(self).proc.stack@,
            final(self).proc.state == old(self).proc.state,
            final(self).next_number == old(self).next_number,
            had_user ==> *final(self) == *old(self),
            !had_user ==> {
                &&& final(self).bps@ == old(self).bps@.drop_last()
                &&& forall|x: u64|
                    #[trigger] final(self).proc.trapped(x) <==> (old(self).proc.trapped(x) && x
                        != old(self).bps@.last().address)
            },
    {
        if !had_user {
            self.drop_bp(tn);
            proof {
                let i = choose|i: int|
                    {
                        &&& 0 <= i < old(self).bps@.len()
                        &&& (#[trigger] old(self).bps@[i]).number == tn
                        &&& self.bps@ == old(self).bps@.remove(i)
                        &&& forall|x: u64|
                            #[trigger] self.proc.trapped(x) <==> (old(self).proc.trapped(x) && x
                                != old(self).bps@[i].address)
                    };
                assert(i == old(self).bps@.len() - 1);
                assert(self.bps@ =~= old(self).bps@.drop_last());
            }
        }
    }

    /// Steps to the next differing source line without descending into
    /// callees: a step that enters a deeper frame runs the callee to
    /// completion under a temporary breakpoint at the frame's return address.
    /// Landing on a user breakpoint, inside a callee too, takes precedence.
    #[verifier::rlimit(100)]
    pub fn step_over(&mut self) -> (r: Result<(), EngineError>)
        requires
            old(self).wf(),
        ensures
            final(self).wf(),
            match r {
                Ok(()) => old(self).proc.state is Stopped && step_over_post(
                    *old(self),
                    *final(self),
                ),
                Err(e) => {
                    &&& (e == EngineError::Process || e == EngineError::Trace)
                    &&& (e == EngineError::Process <==> !(old(self).proc.state is Stopped))
                    &&& e == EngineError::Process ==> *final(self) == *old(self)
                    &&& e == EngineError::Trace ==> {
                        &&& final(self).bps@ == old(self).bps@
                        &&& final(self).events@ == old(self).events@
                        &&& final(self).same_session(*old(self))
                        &&& forall|x: u64|
                            #[trigger] final(self).proc.trapped(x) <==> old(self).proc.trapped(x)
                        &&& old(self).proc.trace@.len() - old(self).proc.ip >= u32::MAX - old(
                            self,
                        ).next_number
                    }
                },
            },
    {
        match self.proc.state() {
            ProcState::Stopped => {},
            _ => {
                return Err(EngineError::Process);
            },
        }
        let s = self.proc.ip;
        let d0 = self.proc.depth();
        let start: Option<u32> = match self.info.locate(self.proc.current_addr()) {
            Some(l) => Some(l.line),
            None => None,
        };
        proof {
            assert(start == old(self).info.line_opt(old(self).proc.cur_addr()));
        }
        self.step_over_breakpoint_if_present();
        if self.proc.ip == s {
            proof {
                assert(!self.proc.trapped(self.proc.cur_addr()));
            }
            self.proc.single_step();
            proof {
                assert forall|x: u64| #[trigger] self.proc.trapped(x) <==> bp_at(
                    self.bps@,
                    x,
                ) by {
                    assert(self.proc.trapped(x) <==> old(self).proc.trapped(x));
                }
            }
        }
        #[verifier::loop_isolation(false)]
        loop
            invariant
                self.wf(),
                self.same_session(*old(self)),
                self.bps@ == old(self).bps@,
                self.next_number >= old(self).next_number,
                self.next_number <= old(self).next_number + (self.proc.ip - s),
                self.events@ == old(self).events@,
                forall|x: u64| #[trigger] self.proc.trapped(x) <==> old(self).proc.trapped(x),
                s < self.proc.ip <= self.proc.trace@.len(),
                self.proc.state == if self.proc.ip == self.proc.trace@.len() {
                    ProcState::Exited
                } else {
                    ProcState::Stopped
                },
                forall|k: int|
                    s + 1 <= k < self.proc.ip ==> !step_over_stop(
                        old(self).bps@,
                        old(self).info,
                        old(self).proc.trace@,
                        d0 as int,
                        start,
                        k,
                    ),
            decreases self.proc.trace@.len() - self.proc.ip,
        {
            if matches!(self.proc.state(), ProcState::Exited) {
                self.events.push(StopReason::Exited(self.proc.exit_code()));
                proof {
                    lemma_step_over_skip(
                        old(self).bps@,
                        old(self).info,
                        old(self).proc.trace@,
                        d0 as int,
                        start,
                        s + 1,
                        self.proc.ip as int,
                    );
                }
                return Ok(());
            }
            let a = self.proc.current_addr();
            if let Some(i) = self.find_bp_by_addr(a) {
                let n = self.bps[i].number;
                proof {
                    let j = choose|j: int|
                        0 <= j < self.bps@.len() && (#[trigger] self.bps@[j]).address == a;
                    assert(self.bps@[j].number == n);
                }
                self.events.push(StopReason::BreakpointHit(n));
                proof {
                    lemma_step_over_skip(
                        old(self).bps@,
                        old(self).info,
                        old(self).proc.trace@,
                        d0 as int,
                        start,
                        s + 1,
                        self.proc.ip as int,
                    );
                    assert(bp_at(old(self).bps@, a));
                }
                return Ok(());
            }
            let dnow = self.proc.depth();
            if dnow <= d0 {
                let mut done = false;
                match self.info.locate(a) {
                    Some(l) => {
                        done = match start {
                            Some(sl) => l.line != sl,
                            None => true,
                        };
                    },
                    None => {},
                }
                if done {
                    self.events.push(StopReason::StepComplete);
                    proof {
                        lemma_step_over_skip(
                            old(self).bps@,
                            old(self).info,
                            old(self).proc.trace@,
                            d0 as int,
                            start,
                            s + 1,
                            self.proc.ip as int,
                        );
                        assert(step_over_stop(
                            old(self).bps@,
                            old(self).info,
                            old(self).proc.trace@,
                            d0 as int,
                            start,
                            self.proc.ip as int,
                        ));
                        assert(!bp_at(old(self).bps@, a));
                    }
                    return Ok(());
                }
                proof {
                    assert(!step_over_stop(
                        old(self).bps@,
                        old(self).info,
                        old(self).proc.trace@,
                        d0 as int,
                        start,
                        self.proc.ip as int,
                    ));
                    assert(!self.proc.trapped(a));
                }
                let ghost mid = *self;
                self.proc.single_step();
                proof {
                    assert forall|x: u64| #[trigger] self.proc.trapped(x) <==> old(
                        self,
                    ).proc.trapped(x) by {
                        assert(self.proc.trapped(x) <==> mid.proc.trapped(x));
                    }
                }
            } else {
                let r_addr = self.proc.ret_slot(d0);
                proof {
                    assert(!step_over_stop(
                        old(self).bps@,
                        old(self).info,
                        old(self).proc.trace@,
                        d0 as int,
                        start,
                        self.proc.ip as int,
                    ));
                }
                if a == r_addr {
                    proof {
                        assert(!self.proc.trapped(a));
                    }
                    let ghost mid = *self;
                    self.proc.single_step();
                    proof {
                        assert forall|x: u64| #[trigger] self.proc.trapped(x) <==> old(
                            self,
                        ).proc.trapped(x) by {
                            assert(self.proc.trapped(x) <==> mid.proc.trapped(x));
                        }
                    }
                } else {
                    let had_user = self.find_bp_by_addr(r_addr).is_some();
                    proof {
                        assert(crate::process::has_code(self.proc.code@, r_addr)) by {
                            crate::process::lemma_stack_has_code(
                                self.proc.trace@,
                                self.proc.code@,
                                self.proc.ip as int,
                            );
                        }
                    }
                    let ghost mark = *self;
                    let tn = match self.set_breakpoint_at_addr(r_addr) {
                        Ok(n) => n,
                        Err(e) => {
                            return Err(e);
                        },
                    };
                    proof {
                        if !had_user {
                            assert(!mark.proc.trapped(r_addr));
                        }
                        assert(mark.proc.stack@[d0 as int] == crate::process::stack_at(
                            mark.proc.trace@,
                            mark.proc.ip as int,
                        )[d0 as int]);
                    }
                    let ghost armed = *self;
                    self.proc.resume();
                    proof {
                        assert forall|x: u64|
                            #[trigger] self.proc.trapped(x) <==> (mark.proc.trapped(x) || x
                                == r_addr) by {
                            assert(self.proc.traps@ == armed.proc.traps@);
                            assert(self.proc.trapped(x) <==> armed.proc.trapped(x));
                            if had_user {
                                assert(bp_at(mark.bps@, r_addr));
                                assert(mark.proc.trapped(r_addr));
                            }
                        }
                        assert forall|x: u64| #[trigger] self.proc.trapped(x) <==> bp_at(
                            self.bps@,
                            x,
                        ) by {
                            assert(self.proc.trapped(x) <==> armed.proc.trapped(x));
                        }
                        lemma_first_trap_from(
                            self.proc.trace@,
                            self.proc.traps@,
                            mark.proc.ip as int,
                        );
                        assert(!bp_at(mark.bps@, mark.proc.trace@[mark.proc.ip as int].addr));
                        assert(!self.proc.trapped(self.proc.trace@[mark.proc.ip as int].addr));
                        assert(first_trap_from(self.proc.trace@, self.proc.traps@, mark.proc.ip as int)
                            == first_trap_from(self.proc.trace@, self.proc.traps@, mark.proc.ip + 1));
                        lemma_first_trap_from(self.proc.trace@, self.proc.traps@, mark.proc.ip + 1);
                        assert(mark.proc.ip < self.proc.ip);
                        assert forall|k: int|
                            mark.proc.ip < k < self.proc.ip implies (#[trigger] self.proc.trace@[k]).addr
                            != r_addr && !bp_at(old(self).bps@, self.proc.trace@[k].addr) by {
                            assert(!self.proc.trapped(self.proc.trace@[k].addr));
                            assert(!mark.proc.trapped(self.proc.trace@[k].addr));
                        }
                        crate::process::lemma_deep_region(
                            self.proc.trace@,
                            self.proc.code@,
                            mark.proc.ip as int,
                            self.proc.ip as int,
                            d0 as int,
                        );
                        assert forall|k: int|
                            mark.proc.ip <= k < self.proc.ip implies !step_over_stop(
                                old(self).bps@,
                                old(self).info,
                                old(self).proc.trace@,
                                d0 as int,
                                start,
                                k,
                            ) by {
                            assert(crate::process::depth_at(self.proc.trace@, k) > d0);
                            if k > mark.proc.ip {
                                assert(!bp_at(old(self).bps@, self.proc.trace@[k].addr));
                            }
                        }
                    }
                    let exited_now = matches!(self.proc.state(), ProcState::Exited);
                    proof {
                        if !had_user {
                            assert forall|j: int| 0 <= j < self.bps@.len() - 1 implies (
                            #[trigger] self.bps@[j]).number != tn by {
                                assert(self.bps@[j] == mark.bps@[j]);
                            }
                        }
                    }
                    self.cleanup_temp(had_user, tn);
                    proof {
                        assert(self.bps@ =~= mark.bps@);
                        assert forall|x: u64| #[trigger] self.proc.trapped(x) <==> old(
                            self,
                        ).proc.trapped(x) by {
                            if x == r_addr && !had_user {
                                assert(!mark.proc.trapped(r_addr));
                            }
                            if x == r_addr && had_user {
                                assert(bp_at(mark.bps@, r_addr));
                            }
                        }
                    }
                    if exited_now {
                        self.events.push(StopReason::Exited(self.proc.exit_code()));
                        proof {
                            lemma_step_over_skip(
                                old(self).bps@,
                                old(self).info,
                                old(self).proc.trace@,
                                d0 as int,
                                start,
                                s + 1,
                                self.proc.ip as int,
                            );
                        }
                        return Ok(());
                    }
                    let a2 = self.proc.current_addr();
                    if had_user || a2 != r_addr {
                        proof {
                            assert(self.proc.trapped(a2));
                            assert(bp_at(old(self).bps@, a2));
                        }
                        let i = match self.find_bp_by_addr(a2) {
                            Some(i) => i,
                            None => {
                                proof {
                                    assert(false);
                                }
                                return Ok(());
                            },
                        };
                        let n = self.bps[i].number;
                        proof {
                            let j = choose|j: int|
                                0 <= j < self.bps@.len() && (#[trigger] self.bps@[j]).address
                                    == a2;
                            assert(self.bps@[j].number == n);
                            lemma_step_over_skip(
                                old(self).bps@,
                                old(self).info,
                                old(self).proc.trace@,
                                d0 as int,
                                start,
                                s + 1,
                                self.proc.ip as int,
                            );
                            assert(step_over_stop(
                                old(self).bps@,
                                old(self).info,
                                old(self).proc.trace@,
                                d0 as int,
                                start,
                                self.proc.ip as int,
                            ));
                        }
                        self.events.push(StopReason::BreakpointHit(n));
                        return Ok(());
                    }
                }
            }
        }
    }
}

/// The stop notification owed for the state the process has just reached:
/// its exit, or the breakpoint at the stop address.
pub open spec fn stop_reason_of(d: Debugger) -> StopReason {
    if d.proc.state is Exited {
        StopReason::Exited(d.proc.exit_code)
    } else {
        StopReason::BreakpointHit(bp_number_at(d.bps@, d.proc.cur_addr()))
    }
}

/// What `start_debugee` and `continue_debugee` guarantee: the process comes
/// to rest at the first patched position at or after `from` (or exits), the
/// installed breakpoints and the session stand as before, and exactly the
/// owed notification is recorded.
pub open spec fn continue_post(pre: Debugger, post: Debugger, from: int) -> bool {
    &&& post.proc.ip == first_trap_from(pre.proc.trace@, pre.proc.traps@, from)
    &&& post.proc.state == if post.proc.ip == pre.proc.trace@.len() {
        ProcState::Exited
    } else {
        ProcState::Stopped
    }
    &&& forall|x: u64| #[trigger] post.proc.trapped(x) <==> pre.proc.trapped(x)
    &&& post.bps@ == pre.bps@
    &&& post.next_number == pre.next_number
    &&& post.same_session(pre)
    &&& post.events@ == pre.events@.push(stop_reason_of(post))
}

/// The notification a step command owes for where it came to rest: the
/// debuggee's exit, the user breakpoint it landed on (which takes precedence),
/// or plain completion of the step.
pub open spec fn step_stop_reason(pre: Debugger, post: Debugger) -> StopReason {
    if post.proc.state is Exited {
        StopReason::Exited(post.proc.exit_code)
    } else if bp_at(pre.bps@, post.proc.cur_addr()) {
        StopReason::BreakpointHit(bp_number_at(pre.bps@, post.proc.cur_addr()))
    } else {
        StopReason::StepComplete
    }
}

/// Position `j` ends a step-into issued with starting line `start`: a user
/// breakpoint sits there, or the position has debug information and its line
/// differs from the starting one. Unmapped addresses never end the step.
pub open spec fn step_into_stop(
    bps: Seq<Breakpoint>,
    info: DebugInfo,
    trace: Seq<crate::process::TraceStep>,
    start: Option<u32>,
    j: int,
) -> bool {
    bp_at(bps, trace[j].addr) || (info.located(trace[j].addr) && info.line_opt(trace[j].addr)
        != start)
}

/// The first position at or after `j` where a step-into comes to rest, or the
/// end of the trace.
pub open spec fn step_into_target(
    bps: Seq<Breakpoint>,
    info: DebugInfo,
    trace: Seq<crate::process::TraceStep>,
    start: Option<u32>,
    j: int,
) -> int
    decreases trace.len() - j,
{
    if j < trace.len() {
        if step_into_stop(bps, info, trace, start, j) {
            j
        } else {
            step_into_target(bps, info, trace, start, j + 1)
        }
    } else {
        trace.len() as int
    }
}

/// `step_into_target` advances to a stopping position or the end, and skips
/// no stopping position.
pub proof fn lemma_step_into_target(
    bps: Seq<Breakpoint>,
    info: DebugInfo,
    trace: Seq<crate::process::TraceStep>,
    start: Option<u32>,
    j: int,
)
    requires
        0 <= j <= trace.len(),
    ensures
        j <= step_into_target(bps, info, trace, start, j) <= trace.len(),
        step_into_target(bps, info, trace, start, j) < trace.len() ==> step_into_stop(
            bps,
            info,
            trace,
            start,
            step_into_target(bps, info, trace, start, j),
        ),
        forall|k: int|
            j <= k < step_into_target(bps, info, trace, start, j) ==> !step_into_stop(
                bps,
                info,
                trace,
                start,
                k,
            ),
    decreases trace.len() - j,
{
    if j < trace.len() && !step_into_stop(bps, info, trace, start, j) {
        lemma_step_into_target(bps, info, trace, start, j + 1);
    }
}

/// Positions that end no step pass the step's target along unchanged.
pub proof fn lemma_step_into_skip(
    bps: Seq<Breakpoint>,
    info: DebugInfo,
    trace: Seq<crate::process::TraceStep>,
    start: Option<u32>,
    p: int,
    q: int,
)
    requires
        0 <= p <= q <= trace.len(),
        forall|k: int| p <= k < q ==> !step_into_stop(bps, info, trace, start, k),
    ensures
        step_into_target(bps, info, trace, start, p) == step_into_target(
            bps,
            info,
            trace,
            start,
            q,
        ),
    decreases q - p,
{
    if p < q {
        lemma_step_into_skip(bps, info, trace, start, p + 1, q);
    }
}

/// What a completed `step_into` guarantees: the process rests at the first
/// position after the start that ends the step (or exited), breakpoints and
/// session stand, and exactly the owed notification is recorded.
pub open spec fn step_into_post(pre: Debugger, post: Debugger) -> bool {
    &&& post.proc.ip == step_into_target(
        pre.bps@,
        pre.info,
        pre.proc.trace@,
        pre.info.line_opt(pre.proc.cur_addr()),
        pre.proc.ip + 1,
    )
    &&& post.proc.state == if post.proc.ip == pre.proc.trace@.len() {
        ProcState::Exited
    } else {
        ProcState::Stopped
    }
    &&& forall|x: u64| #[trigger] post.proc.trapped(x) <==> pre.proc.trapped(x)
    &&& post.bps@ == pre.bps@
    &&& post.next_number == pre.next_number
    &&& post.same_session(pre)
    &&& post.events@ == pre.events@.push(step_stop_reason(pre, post))
}

/// Position `j` ends a step-out of the frame that had depth `d0` and return
/// address `r`: a user breakpoint sits there, or execution has come back to
/// the caller (the return address, at a depth below the left frame's).
pub open spec fn step_out_stop(
    bps: Seq<Breakpoint>,
    trace: Seq<crate::process::TraceStep>,
    r: u64,
    d0: int,
    j: int,
) -> bool {
    bp_at(bps, trace[j].addr) || (trace[j].addr == r && crate::process::depth_at(trace, j) < d0)
}

/// The first position at or after `j` where a step-out comes to rest, or the
/// end of the trace.
pub open spec fn step_out_target(
    bps: Seq<Breakpoint>,
    trace: Seq<crate::process::TraceStep>,
    r: u64,
    d0: int,
    j: int,
) -> int
    decreases trace.len() - j,
{
    if j < trace.len() {
        if step_out_stop(bps, trace, r, d0, j) {
            j
        } else {
            step_out_target(bps, trace, r, d0, j + 1)
        }
    } else {
        trace.len() as int
    }
}

/// Positions that end no step-out pass the step-out's target along unchanged.
pub proof fn lemma_step_out_skip(
    bps: Seq<Breakpoint>,
    trace: Seq<crate::process::TraceStep>,
    r: u64,
    d0: int,
    p: int,
    q: int,
)
    requires
        0 <= p <= q <= trace.len(),
        forall|k: int| p <= k < q ==> !step_out_stop(bps, trace, r, d0, k),
    ensures
        step_out_target(bps, trace, r, d0, p) == step_out_target(bps, trace, r, d0, q),
    decreases q - p,
{
    if p < q {
        lemma_step_out_skip(bps, trace, r, d0, p + 1, q);
    }
}

/// What a completed `step_out` guarantees: the process rests at the first
/// position after the start where it is back at the caller's return address
/// below the left frame's depth (or hit a user breakpoint first, or exited),
/// breakpoints and session stand, and exactly the owed notification is
/// recorded. Only the breakpoint-number allocator may have advanced, spent on
/// the temporary breakpoint.
pub open spec fn step_out_post(pre: Debugger, post: Debugger) -> bool {
    &&& post.proc.ip == step_out_target(
        pre.bps@,
        pre.proc.trace@,
        pre.proc.stack@.last(),
        pre.proc.stack@.len() as int,
        pre.proc.ip + 1,
    )
    &&& post.proc.state == if post.proc.ip == pre.proc.trace@.len() {
        ProcState::Exited
    } else {
        ProcState::Stopped
    }
    &&& forall|x: u64| #[trigger] post.proc.trapped(x) <==> pre.proc.trapped(x)
    &&& post.bps@ == pre.bps@
    &&& post.next_number >= pre.next_number
    &&& post.same_session(pre)
    &&& post.events@ == pre.events@.push(step_stop_reason(pre, post))
}

/// Position `j` ends a step-over begun at depth `d0` with starting line
/// `start`: a user breakpoint sits there, or execution is at the starting
/// depth or above with debug information whose line differs from the
/// starting one. Positions inside a freshly entered deeper frame never end
/// the step.
pub open spec fn step_over_stop(
    bps: Seq<Breakpoint>,
    info: DebugInfo,
    trace: Seq<crate::process::TraceStep>,
    d0: int,
    start: Option<u32>,
    j: int,
) -> bool {
    bp_at(bps, trace[j].addr) || (crate::process::depth_at(trace, j) <= d0 && info.located(
        trace[j].addr,
    ) && info.line_opt(trace[j].addr) != start)
}

/// The first position at or after `j` where a step-over comes to rest, or
/// the end of the trace.
pub open spec fn step_over_target(
    bps: Seq<Breakpoint>,
    info: DebugInfo,
    trace: Seq<crate::process::TraceStep>,
    d0: int,
    start: Option<u32>,
    j: int,
) -> int
    decreases trace.len() - j,
{
    if j < trace.len() {
        if step_over_stop(bps, info, trace, d0, start, j) {
            j
        } else {
            step_over_target(bps, info, trace, d0, start, j + 1)
        }
    } else {
        trace.len() as int
    }
}

/// Positions that end no step-over pass the step-over's target along
/// unchanged.
pub proof fn lemma_step_over_skip(
    bps: Seq<Breakpoint>,
    info: DebugInfo,
    trace: Seq<crate::process::TraceStep>,
    d0: int,
    start: Option<u32>,
    p: int,
    q: int,
)
    requires
        0 <= p <= q <= trace.len(),
        forall|k: int| p <= k < q ==> !step_over_stop(bps, info, trace, d0, start, k),
    ensures
        step_over_target(bps, info, trace, d0, start, p) == step_over_target(
            bps,
            info,
            trace,
            d0,
            start,
            q,
        ),
    decreases q - p,
{
    if p < q {
        lemma_step_over_skip(bps, info, trace, d0, start, p + 1, q);
    }
}

/// What a completed `step_over` guarantees: the process rests at the first
/// position after the start that ends the step — callee frames are crossed
/// whole, a user breakpoint anywhere takes precedence — and exactly the owed
/// notification is recorded. Only the breakpoint-number allocator may have
/// advanced, spent on temporary breakpoints at return addresses.
pub open spec fn step_over_post(pre: Debugger, post: Debugger) -> bool {
    &&& post.proc.ip == step_over_target(
        pre.bps@,
        pre.info,
        pre.proc.trace@,
        pre.proc.stack@.len() as int,
        pre.info.line_opt(pre.proc.cur_addr()),
        pre.proc.ip + 1,
    )
    &&& post.proc.state == if post.proc.ip == pre.proc.trace@.len() {
        ProcState::Exited
    } else {
        ProcState::Stopped
    }
    &&& forall|x: u64| #[trigger] post.proc.trapped(x) <==> pre.proc.trapped(x)
    &&& post.bps@ == pre.bps@
    &&& post.next_number >= pre.next_number
    &&& post.same_session(pre)
    &&& post.events@ == pre.events@.push(step_stop_reason(pre, post))
}

/// Extending a prefix of installed addresses by one position extends what it
/// contains by exactly that position's address.
proof fn lemma_take_contains(s: Seq<u64>, k: int, x: u64)
    requires
        0 <= k < s.len(),
    ensures
        s.take(k + 1).contains(x) <==> (s.take(k).contains(x) || x == s[k]),
{
    if s.take(k + 1).contains(x) {
        let i = choose|i: int| 0 <= i < s.take(k + 1).len() && #[trigger] s.take(k + 1)[i] == x;
        if i < k {
            assert(s.take(k)[i] == x);
        }
    }
    if s.take(k).contains(x) {
        let i = choose|i: int| 0 <= i < s.take(k).len() && #[trigger] s.take(k)[i] == x;
        assert(s.take(k + 1)[i] == x);
    }
    if x == s[k] {
        assert(s.take(k + 1)[k] == x);
    }
}

/// A breakpoint's number does not move when the registry grows: looking an
/// address up in a superset registry with unique addresses answers the same
/// number.
pub proof fn lemma_bp_number_stable(b1: Seq<Breakpoint>, b2: Seq<Breakpoint>, a: u64)
    requires
        bp_at(b1, a),
        forall|i: int, j: int|
            0 <= i < b1.len() && 0 <= j < b1.len() && i != j ==> b1[i].address != b1[j].address,
        forall|i: int| 0 <= i < b1.len() ==> b2.contains(#[trigger] b1[i]),
        forall|i: int, j: int|
            0 <= i < b2.len() && 0 <= j < b2.len() && i != j ==> b2[i].address != b2[j].address,
    ensures
        bp_at(b2, a),
        bp_number_at(b2, a) == bp_number_at(b1, a),
{
    let c1 = choose|i: int| 0 <= i < b1.len() && (#[trigger] b1[i]).address == a;
    assert(b2.contains(b1[c1]));
    let j = choose|j: int| 0 <= j < b2.len() && b2[j] == b1[c1];
    assert(b2[j].address == a);
    assert(bp_at(b2, a));
    let c2 = choose|i: int| 0 <= i < b2.len() && (#[trigger] b2[i]).address == a;
    assert(c2 == j);
}

/// Order preservation: breakpoints at positions reached in program order are
/// reported in that order by successive resumes, never skipped and never
/// duplicated. With nothing patched before `i1` and nothing between `i1` and
/// `i2`, a resume from `s` rests exactly at `i1`, and the next resume (which
/// starts past `i1`) rests exactly at `i2`.
pub proof fn lemma_order_preservation(
    trace: Seq<crate::process::TraceStep>,
    traps: Seq<u64>,
    s: int,
    i1: int,
    i2: int,
)
    requires
        0 <= s <= i1 < i2 < trace.len(),
        traps.contains(trace[i1].addr),
        traps.contains(trace[i2].addr),
        forall|k: int| s <= k < i1 ==> !traps.contains((#[trigger] trace[k]).addr),
        forall|k: int| i1 < k < i2 ==> !traps.contains((#[trigger] trace[k]).addr),
    ensures
        first_trap_from(trace, traps, s) == i1,
        first_trap_from(trace, traps, i1 + 1) == i2,
{
    lemma_first_trap_from(trace, traps, s);
    lemma_first_trap_from(trace, traps, i1 + 1);
}

/// Step determinism: from a given position and call stack of a deterministic
/// program, each step command has exactly one destination, fixed by the
/// program, the debug information, the installed breakpoints and the starting
/// position alone — independent of the event log, the patch bookkeeping and
/// the number allocator.
pub proof fn lemma_step_determinism(d1: Debugger, d2: Debugger)
    requires
        d1.proc.trace@ == d2.proc.trace@,
        d1.info == d2.info,
        d1.bps@ == d2.bps@,
        d1.proc.ip == d2.proc.ip,
        d1.proc.stack@ == d2.proc.stack@,
        d1.proc.ip < d1.proc.trace@.len(),
    ensures
        step_into_target(
            d1.bps@,
            d1.info,
            d1.proc.trace@,
            d1.info.line_opt(d1.proc.cur_addr()),
            d1.proc.ip + 1,
        ) == step_into_target(
            d2.bps@,
            d2.info,
            d2.proc.trace@,
            d2.info.line_opt(d2.proc.cur_addr()),
            d2.proc.ip + 1,
        ),
        step_over_target(
            d1.bps@,
            d1.info,
            d1.proc.trace@,
            d1.proc.stack@.len() as int,
            d1.info.line_opt(d1.proc.cur_addr()),
            d1.proc.ip + 1,
        ) == step_over_target(
            d2.bps@,
            d2.info,
            d2.proc.trace@,
            d2.proc.stack@.len() as int,
            d2.info.line_opt(d2.proc.cur_addr()),
            d2.proc.ip + 1,
        ),
        d1.proc.stack@.len() > 0 ==> step_out_target(
            d1.bps@,
            d1.proc.trace@,
            d1.proc.stack@.last(),
            d1.proc.stack@.len() as int,
            d1.proc.ip + 1,
        ) == step_out_target(
            d2.bps@,
            d2.proc.trace@,
            d2.proc.stack@.last(),
            d2.proc.stack@.len() as int,
            d2.proc.ip + 1,
        ),
{
}

/// Two patch sets with the same members stop a resume at the same position.
pub proof fn lemma_first_trap_equiv(
    trace: Seq<crate::process::TraceStep>,
    t1: Seq<u64>,
    t2: Seq<u64>,
    j: int,
)
    requires
        forall|a: u64| t1.contains(a) <==> t2.contains(a),
    ensures
        first_trap_from(trace, t1, j) == first_trap_from(trace, t2, j),
    decreases trace.len() - j,
{
    if j < trace.len() && !t1.contains(trace[j].addr) {
        lemma_first_trap_equiv(trace, t1, t2, j + 1);
    }
}

} // verus!
