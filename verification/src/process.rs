//! The process controller's model of the traced debuggee: its code bytes, its
//! deterministic execution trace, the call stack, and the set of addresses
//! currently patched with the trap instruction.
//!
//! Every control primitive is synchronous: a resume runs the debuggee until
//! the next patched address or until natural exit.

use vstd::prelude::*;

verus! {

/// What one executed instruction does to the call stack.
#[derive(Clone, Copy, Debug, PartialEq, Eq, Structural)]
pub enum StepKind {
    /// Falls through to the next instruction of the trace.
    Plain,
    /// Enters a callee; `ret` is the return address pushed for the new frame.
    Call { ret: u64 },
    /// Leaves the current frame for the pushed return address.
    Ret,
}

/// One instruction execution of the debuggee, identified by the address it
/// is fetched from.
#[derive(Clone, Copy, Debug)]
pub struct TraceStep {
    pub addr: u64,
    pub kind: StepKind,
}

/// The original first byte of the instruction at `addr`, as the binary holds
/// it before any breakpoint is patched in.
#[derive(Clone, Copy, Debug)]
pub struct CodePoint {
    pub addr: u64,
    pub byte: u8,
}

/// The lifecycle of the traced process. Every control operation on an
/// `Exited` process fails. Every resume is synchronous — it returns only
/// once the debuggee has stopped again or exited — so no transient running
/// phase is ever observable between commands.
#[derive(Clone, Copy, Debug, PartialEq, Eq, Structural)]
pub enum ProcState {
    NotStarted,
    Stopped,
    Exited,
}

/// No two code points describe the same address.
pub open spec fn code_unique(code: Seq<CodePoint>) -> bool {
    forall|i: int, j: int|
        0 <= i < code.len() && 0 <= j < code.len() && i != j ==> code[i].addr != code[j].addr
}

/// Some code point describes address `a`.
pub open spec fn has_code(code: Seq<CodePoint>, a: u64) -> bool {
    exists|i: int| 0 <= i < code.len() && (#[trigger] code[i]).addr == a
}

/// The original byte at address `a`, where `has_code` holds.
pub open spec fn byte_at(code: Seq<CodePoint>, a: u64) -> u8 {
    code[choose|i: int| 0 <= i < code.len() && (#[trigger] code[i]).addr == a].byte
}

/// No address is patched twice.
pub open spec fn traps_unique(traps: Seq<u64>) -> bool {
    forall|i: int, j: int|
        0 <= i < traps.len() && 0 <= j < traps.len() && i != j ==> traps[i] != traps[j]
}

/// The call stack after `step` executes on stack `stack`.
pub open spec fn apply_step(stack: Seq<u64>, step: TraceStep) -> Seq<u64> {
    match step.kind {
        StepKind::Plain => stack,
        StepKind::Call { ret } => stack.push(ret),
        StepKind::Ret => if stack.len() > 0 {
            stack.drop_last()
        } else {
            stack
        },
    }
}

/// The call stack after the first `n` steps of `trace` have executed.
#[verifier::opaque]
pub open spec fn stack_at(trace: Seq<TraceStep>, n: int) -> Seq<u64>
    decreases n,
{
    if n <= 0 {
        Seq::empty()
    } else {
        apply_step(stack_at(trace, n - 1), trace[n - 1])
    }
}

/// The call-stack depth after the first `n` steps.
pub open spec fn depth_at(trace: Seq<TraceStep>, n: int) -> int {
    stack_at(trace, n).len() as int
}

/// One step of `stack_at`'s recursion, packaged so that callers need not
/// reveal the recursion in contexts that quantify over it.
pub proof fn lemma_stack_at_unfold(trace: Seq<TraceStep>, n: int)
    requires
        1 <= n,
    ensures
        stack_at(trace, n) == apply_step(stack_at(trace, n - 1), trace[n - 1]),
{
    reveal_with_fuel(stack_at, 1);
}

/// Before anything executes the call stack is empty.
pub proof fn lemma_stack_at_zero(trace: Seq<TraceStep>)
    ensures
        stack_at(trace, 0) == Seq::<u64>::empty(),
{
    reveal_with_fuel(stack_at, 1);
}

/// The trace respects its own stack discipline: every executed address and
/// every pushed return address is a code address; a return with a non-empty
/// stack lands exactly on the pushed return address; and a return from the
/// outermost frame ends the trace.
#[verifier::opaque]
pub open spec fn trace_wf(trace: Seq<TraceStep>, code: Seq<CodePoint>) -> bool {
    &&& forall|i: int| 0 <= i < trace.len() ==> has_code(code, (#[trigger] trace[i]).addr)
    &&& forall|i: int|
        0 <= i < trace.len() ==> match (#[trigger] trace[i]).kind {
            StepKind::Call { ret } => has_code(code, ret),
            _ => true,
        }
    &&& forall|i: int|
        0 <= i < trace.len() && (#[trigger] trace[i]).kind is Ret && stack_at(trace, i).len() > 0
            && i + 1 < trace.len() ==> trace[i + 1].addr == stack_at(trace, i).last()
    &&& forall|i: int|
        0 <= i < trace.len() && (#[trigger] trace[i]).kind is Ret && stack_at(trace, i).len() == 0
            ==> i + 1 == trace.len()
}

/// The first position at or after `j` whose address is patched, or the end of
/// the trace: where a resume issued at position `j` comes to rest.
pub open spec fn first_trap_from(trace: Seq<TraceStep>, traps: Seq<u64>, j: int) -> int
    decreases trace.len() - j,
{
    if j < trace.len() {
        if traps.contains(trace[j].addr) {
            j
        } else {
            first_trap_from(trace, traps, j + 1)
        }
    } else {
        trace.len() as int
    }
}

/// Basic facts about `first_trap_from`: it advances monotonically to a
/// patched position or the end, and skips no patched position.
pub proof fn lemma_first_trap_from(trace: Seq<TraceStep>, traps: Seq<u64>, j: int)
    requires
        0 <= j <= trace.len(),
    ensures
        j <= first_trap_from(trace, traps, j) <= trace.len(),
        first_trap_from(trace, traps, j) < trace.len() ==> traps.contains(
            trace[first_trap_from(trace, traps, j)].addr,
        ),
        forall|k: int|
            j <= k < first_trap_from(trace, traps, j) ==> !traps.contains(
                (#[trigger] trace[k]).addr,
            ),
    decreases trace.len() - j,
{
    if j < trace.len() && !traps.contains(trace[j].addr) {
        lemma_first_trap_from(trace, traps, j + 1);
    }
}

/// Every call-stack slot holds a pushed return address, and the trace pushes
/// only code addresses: a temporary breakpoint at a return-address slot is
/// always installable.
pub proof fn lemma_stack_has_code(trace: Seq<TraceStep>, code: Seq<CodePoint>, n: int)
    requires
        trace_wf(trace, code),
        0 <= n <= trace.len(),
    ensures
        forall|x: int|
            0 <= x < stack_at(trace, n).len() ==> has_code(code, #[trigger] stack_at(trace, n)[x]),
    decreases n,
{
    reveal(trace_wf);
    if n == 0 {
        lemma_stack_at_zero(trace);
    } else {
        lemma_stack_has_code(trace, code, n - 1);
        lemma_stack_at_unfold(trace, n);
        assert forall|x: int|
            0 <= x < stack_at(trace, n).len() implies has_code(
            code,
            #[trigger] stack_at(trace, n)[x],
        ) by {
            match trace[n - 1].kind {
                StepKind::Plain => {
                    assert(stack_at(trace, n)[x] == stack_at(trace, n - 1)[x]);
                },
                StepKind::Call { ret } => {
                    if x < stack_at(trace, n - 1).len() {
                        assert(stack_at(trace, n)[x] == stack_at(trace, n - 1)[x]);
                    } else {
                        assert(stack_at(trace, n)[x] == ret);
                    }
                },
                StepKind::Ret => {
                    assert(stack_at(trace, n)[x] == stack_at(trace, n - 1)[x]);
                },
            }
        }
    }
}

/// While execution stays strictly deeper than depth `d`, the bottom `d + 1`
/// call-stack slots do not change.
pub proof fn lemma_prefix_stable(trace: Seq<TraceStep>, a: int, b: int, d: int)
    requires
        0 <= a <= b <= trace.len(),
        0 <= d,
        forall|k: int| a <= k <= b ==> depth_at(trace, k) > d,
    ensures
        forall|x: int| 0 <= x <= d ==> stack_at(trace, b)[x] == stack_at(trace, a)[x],
    decreases b - a,
{
    if b > a {
        lemma_prefix_stable(trace, a, b - 1, d);
        lemma_stack_at_unfold(trace, b);
        assert(depth_at(trace, b - 1) > d && depth_at(trace, b) > d);
        assert forall|x: int| 0 <= x <= d implies stack_at(trace, b)[x] == stack_at(
            trace,
            a,
        )[x] by {
            assert(stack_at(trace, b - 1)[x] == stack_at(trace, a)[x]);
            match trace[b - 1].kind {
                StepKind::Plain => {},
                StepKind::Call { ret } => {
                    assert(stack_at(trace, b)[x] == stack_at(trace, b - 1)[x]);
                },
                StepKind::Ret => {
                    assert(stack_at(trace, b - 1).len() > d + 1);
                    assert(stack_at(trace, b)[x] == stack_at(trace, b - 1)[x]);
                },
            }
        }
    }
}

/// Between a deep position and a later shallow one there is a first position
/// at or below the bound, with everything before it still deep.
pub proof fn lemma_first_drop(trace: Seq<TraceStep>, a: int, m: int, d: int) -> (e: int)
    requires
        0 <= a <= m <= trace.len(),
        depth_at(trace, a) > d,
        depth_at(trace, m) <= d,
    ensures
        a < e <= m,
        depth_at(trace, e) <= d,
        forall|k: int| a <= k < e ==> depth_at(trace, k) > d,
    decreases m - a,
{
    if depth_at(trace, a + 1) <= d {
        a + 1
    } else {
        lemma_first_drop(trace, a + 1, m, d)
    }
}

/// While the return address of the frame at depth `d` is never fetched,
/// execution stays strictly deeper than `d`: the only way back to the
/// caller's depth is through that address.
pub proof fn lemma_deep_region(
    trace: Seq<TraceStep>,
    code: Seq<CodePoint>,
    a: int,
    b: int,
    d: int,
)
    requires
        trace_wf(trace, code),
        0 <= a < b <= trace.len(),
        0 <= d,
        depth_at(trace, a) > d,
        forall|k: int| a < k < b ==> (#[trigger] trace[k]).addr != stack_at(trace, a)[d],
    ensures
        forall|k: int| a <= k < b ==> depth_at(trace, k) > d,
{
    reveal(trace_wf);
    assert forall|k: int| a <= k < b implies depth_at(trace, k) > d by {
        if depth_at(trace, k) <= d {
            let e = lemma_first_drop(trace, a, k, d);
            lemma_stack_at_unfold(trace, e);
            assert(depth_at(trace, e - 1) > d);
            assert(trace[e - 1].kind is Ret && stack_at(trace, e - 1).len() > 0);
            assert(depth_at(trace, e - 1) == d + 1);
            assert(e < trace.len());
            assert(trace[e].addr == stack_at(trace, e - 1).last());
            lemma_prefix_stable(trace, a, e - 1, d);
            assert(stack_at(trace, e - 1)[d] == stack_at(trace, a)[d]);
            assert(trace[e].addr == stack_at(trace, a)[d]);
            assert(false);
        }
    }
}

/// Looks address `a` up in a code map with unique addresses.
pub fn find_code_in(code: &Vec<CodePoint>, a: u64) -> (r: Option<u8>)
    requires
        code_unique(code@),
    ensures
        match r {
            Some(b) => has_code(code@, a) && b == byte_at(code@, a),
            None => !has_code(code@, a),
        },
{
    let mut i: usize = 0;
    #[verifier::loop_isolation(false)]
    while i < code.len()
        invariant
            i <= code@.len(),
            forall|j: int| 0 <= j < i ==> (#[trigger] code@[j]).addr != a,
        decreases code@.len() - i,
    {
        if code[i].addr == a {
            return Some(code[i].byte);
        }
        i += 1;
    }
    None
}

/// The model of the traced process, exclusively owned by the engine.
pub struct TracedProcess {
    pub code: Vec<CodePoint>,
    pub trace: Vec<TraceStep>,
    pub exit_code: i32,
    pub ip: usize,
    pub stack: Vec<u64>,
    pub traps: Vec<u64>,
    pub state: ProcState,
}

impl TracedProcess {
    /// The controller's invariant: code and patch bookkeeping are consistent,
    /// the call-stack snapshot is the one the executed prefix produces, and
    /// the lifecycle state agrees with the position in the trace.
    pub open spec fn wf(self) -> bool {
        &&& code_unique(self.code@)
        &&& trace_wf(self.trace@, self.code@)
        &&& traps_unique(self.traps@)
        &&& forall|i: int| 0 <= i < self.traps@.len() ==> has_code(self.code@, #[trigger] self.traps@[i])
        &&& self.ip <= self.trace@.len()
        &&& self.stack@ == stack_at(self.trace@, self.ip as int)
        &&& match self.state {
            ProcState::NotStarted => self.ip == 0,
            ProcState::Stopped => self.ip < self.trace@.len(),
            ProcState::Exited => self.ip == self.trace@.len(),
        }
    }

    /// Address `a` currently carries the trap patch.
    pub open spec fn trapped(self, a: u64) -> bool {
        self.traps@.contains(a)
    }

    /// The address of the instruction the stopped process will execute next.
    pub open spec fn cur_addr(self) -> u64 {
        self.trace@[self.ip as int].addr
    }

    /// Everything but the patch set and the execution position is fixed for
    /// the session.
    pub open spec fn same_program(self, other: TracedProcess) -> bool {
        &&& self.code@ == other.code@
        &&& self.trace@ == other.trace@
        &&& self.exit_code == other.exit_code
    }

    /// Installs a launched, trace-ready process from its code map and its
    /// deterministic execution trace. Refuses material that breaks the code
    /// or stack discipline the controller relies on.
    #[verifier::rlimit(100)]
    pub fn launch(code: Vec<CodePoint>, trace: Vec<TraceStep>, exit_code: i32) -> (r: Option<
        TracedProcess,
    >)
        ensures
            match r {
                Some(p) => {
                    &&& p.wf()
                    &&& p.code@ == code@
                    &&& p.trace@ == trace@
                    &&& p.exit_code == exit_code
                    &&& p.ip == 0
                    &&& p.stack@ == Seq::<u64>::empty()
                    &&& p.traps@ == Seq::<u64>::empty()
                    &&& p.state == ProcState::NotStarted
                },
                None => !(code_unique(code@) && trace_wf(trace@, code@)),
            },
    {
        proof {
            reveal(trace_wf);
        }
        let mut i: usize = 0;
        #[verifier::loop_isolation(false)]
        while i < code.len()
            invariant
                i <= code@.len(),
                forall|p: int, q: int|
                    0 <= p < i && 0 <= q < code@.len() && p != q ==> code@[p].addr != code@[q].addr,
            decreases code@.len() - i,
        {
            let mut j: usize = 0;
            #[verifier::loop_isolation(false)]
            while j < code.len()
                invariant
                    i < code@.len(),
                    j <= code@.len(),
                    forall|q: int| 0 <= q < j && q != i ==> code@[i as int].addr != code@[q].addr,
                decreases code@.len() - j,
            {
                if j != i && code[j].addr == code[i].addr {
                    return None;
                }
                j += 1;
            }
            i += 1;
        }
        let n = trace.len();
        let mut stack: Vec<u64> = Vec::new();
        let mut k: usize = 0;
        proof {
            lemma_stack_at_zero(trace@);
        }
        #[verifier::loop_isolation(false)]
        while k < n
            invariant
                code_unique(code@),
                k <= n,
                n == trace@.len(),
                stack@ == stack_at(trace@, k as int),
                forall|p: int| 0 <= p < k ==> has_code(code@, (#[trigger] trace@[p]).addr),
                forall|p: int|
                    0 <= p < k ==> match (#[trigger] trace@[p]).kind {
                        StepKind::Call { ret } => has_code(code@, ret),
                        _ => true,
                    },
                forall|p: int|
                    0 <= p < k && (#[trigger] trace@[p]).kind is Ret && stack_at(trace@, p).len()
                        > 0 && p + 1 < trace@.len() ==> trace@[p + 1].addr == stack_at(
                        trace@,
                        p,
                    ).last(),
                forall|p: int|
                    0 <= p < k && (#[trigger] trace@[p]).kind is Ret && stack_at(trace@, p).len()
                        == 0 ==> p + 1 == trace@.len(),
            decreases n - k,
        {
            let step = trace[k];
            if find_code_in(&code, step.addr).is_none() {
                return None;
            }
            match step.kind {
                StepKind::Plain => {},
                StepKind::Call { ret } => {
                    if find_code_in(&code, ret).is_none() {
                        return None;
                    }
                    stack.push(ret);
                },
                StepKind::Ret => {
                    if stack.len() > 0 {
                        if k + 1 < n && trace[k + 1].addr != stack[stack.len() - 1] {
                            return None;
                        }
                        stack.pop();
                    } else {
                        if k + 1 < n {
                            return None;
                        }
                    }
                },
            }
            k += 1;
            proof {
                lemma_stack_at_unfold(trace@, k as int);
            }
        }
        proof {
            lemma_stack_at_zero(trace@);
        }
        Some(
            TracedProcess {
                code,
                trace,
                exit_code,
                ip: 0,
                stack: Vec::new(),
                traps: Vec::new(),
                state: ProcState::NotStarted,
            },
        )
    }

    pub fn state(&self) -> (s: ProcState)
        ensures
            s == self.state,
    {
        self.state
    }

    pub fn exit_code(&self) -> (c: i32)
        ensures
            c == self.exit_code,
    {
        self.exit_code
    }

    pub fn current_addr(&self) -> (a: u64)
        requires
            self.wf(),
            self.state is Stopped,
        ensures
            a == self.cur_addr(),
    {
        self.trace[self.ip].addr
    }

    pub fn depth(&self) -> (d: usize)
        ensures
            d == self.stack@.len(),
    {
        self.stack.len()
    }

    /// The return-address slot of the frame at depth `d`: what `frame_info`
    /// reads from the frame's unwind descriptor.
    pub fn ret_slot(&self, d: usize) -> (r: u64)
        requires
            d < self.stack@.len(),
        ensures
            r == self.stack@[d as int],
    {
        self.stack[d]
    }

    /// Whether address `a` currently carries the trap patch.
    pub fn is_trapped(&self, a: u64) -> (r: bool)
        ensures
            r == self.trapped(a),
    {
        let mut i: usize = 0;
        #[verifier::loop_isolation(false)]
        while i < self.traps.len()
            invariant
                i <= self.traps@.len(),
                forall|j: int| 0 <= j < i ==> self.traps@[j] != a,
            decreases self.traps@.len() - i,
        {
            if self.traps[i] == a {
                return true;
            }
            i += 1;
        }
        false
    }

    /// Reads the current byte at `a`: the trap byte where patched, the
    /// original byte otherwise. Fails for an address outside the code.
    pub fn read_byte(&self, a: u64) -> (r: Option<u8>)
        requires
            self.wf(),
        ensures
            match r {
                Some(b) => has_code(self.code@, a) && b == if self.trapped(a) {
                    crate::TRAP_BYTE
                } else {
                    byte_at(self.code@, a)
                },
                None => !has_code(self.code@, a),
            },
    {
        if self.is_trapped(a) {
            proof {
                let t = choose|i: int| 0 <= i < self.traps@.len() && self.traps@[i] == a;
                assert(has_code(self.code@, self.traps@[t]));
            }
            return Some(crate::TRAP_BYTE);
        }
        self.find_code(a)
    }

    /// Looks the original byte of `a` up in the code map.
    pub fn find_code(&self, a: u64) -> (r: Option<u8>)
        requires
            code_unique(self.code@),
        ensures
            match r {
                Some(b) => has_code(self.code@, a) && b == byte_at(self.code@, a),
                None => !has_code(self.code@, a),
            },
    {
        find_code_in(&self.code, a)
    }

    /// Writes the trap instruction over the byte at `a`. Idempotent on an
    /// already patched address.
    pub fn write_trap(&mut self, a: u64)
        requires
            old(self).wf(),
            has_code(old(self).code@, a),
        ensures
            final(self).wf(),
            final(self).same_program(*old(self)),
            final(self).ip == old(self).ip,
            final(self).stack@ == old(self).stack@,
            final(self).state == old(self).state,
            forall|x: u64| final(self).trapped(x) <==> (old(self).trapped(x) || x == a),
    {
        if !self.is_trapped(a) {
            self.traps.push(a);
            proof {
                assert forall|x: u64| self.trapped(x) implies (old(self).trapped(x) || x
                    == a) by {
                    let i = choose|i: int|
                        0 <= i < self.traps@.len() && self.traps@[i] == x;
                    if i < old(self).traps@.len() {
                        assert(old(self).traps@[i] == x);
                    }
                }
                assert forall|x: u64| (old(self).trapped(x) || x == a) implies self.trapped(
                    x,
                ) by {
                    if old(self).trapped(x) {
                        let i = choose|i: int|
                            0 <= i < old(self).traps@.len() && old(self).traps@[i] == x;
                        assert(self.traps@[i] == x);
                    } else {
                        assert(self.traps@[self.traps@.len() - 1] == a);
                    }
                }
            }
        }
    }

    /// Restores the original byte at `a`, removing the patch. `b` must be the
    /// byte the breakpoint bookkeeping recorded when it patched `a`.
    pub fn write_back(&mut self, a: u64, b: u8)
        requires
            old(self).wf(),
            has_code(old(self).code@, a),
            b == byte_at(old(self).code@, a),
        ensures
            final(self).wf(),
            final(self).same_program(*old(self)),
            final(self).ip == old(self).ip,
            final(self).stack@ == old(self).stack@,
            final(self).state == old(self).state,
            forall|x: u64| final(self).trapped(x) <==> (old(self).trapped(x) && x != a),
    {
        let mut i: usize = 0;
        #[verifier::loop_isolation(false)]
        while i < self.traps.len()
            invariant
                i <= self.traps@.len(),
                forall|j: int| 0 <= j < i ==> self.traps@[j] != a,
                *self == *old(self),
            decreases self.traps@.len() - i,
        {
            if self.traps[i] == a {
                self.traps.remove(i);
                proof {
                    let pre = old(self).traps@;
                    let post = self.traps@;
                    assert forall|x: u64| self.trapped(x) implies (old(self).trapped(x)
                        && x != a) by {
                        let j = choose|j: int| 0 <= j < post.len() && post[j] == x;
                        if j < i {
                            assert(pre[j] == x);
                        } else {
                            assert(pre[j + 1] == x);
                        }
                    }
                    assert forall|x: u64| (old(self).trapped(x) && x != a) implies self.trapped(
                        x,
                    ) by {
                        let j = choose|j: int| 0 <= j < pre.len() && pre[j] == x;
                        assert(pre[i as int] == a);
                        if j < i {
                            assert(post[j] == x);
                        } else {
                            assert(post[j - 1] == x);
                        }
                    }
                    assert forall|p: int, q: int|
                        0 <= p < post.len() && 0 <= q < post.len() && p != q implies post[p]
                        != post[q] by {
                        let pp = if p < i { p } else { p + 1 };
                        let qq = if q < i { q } else { q + 1 };
                        assert(post[p] == pre[pp]);
                        assert(post[q] == pre[qq]);
                    }
                }
                return ;
            }
            i += 1;
        }
    }

    /// Executes exactly one machine instruction of the stopped process. The
    /// instruction about to execute must carry its original byte: stepping a
    /// trap patch would re-trigger the trap in place.
    #[verifier::rlimit(100)]
    pub fn single_step(&mut self)
        requires
            old(self).wf(),
            old(self).state is Stopped,
            !old(self).trapped(old(self).cur_addr()),
        ensures
            final(self).wf(),
            final(self).same_program(*old(self)),
            final(self).traps@ == old(self).traps@,
            final(self).ip == old(self).ip + 1,
            final(self).state == if old(self).ip + 1 == old(self).trace@.len() {
                ProcState::Exited
            } else {
                ProcState::Stopped
            },
    {
        let n = self.trace.len();
        let step = self.trace[self.ip];
        match step.kind {
            StepKind::Plain => {},
            StepKind::Call { ret } => {
                self.stack.push(ret);
            },
            StepKind::Ret => {
                if self.stack.len() > 0 {
                    self.stack.pop();
                    proof {
                        assert(self.stack@ == old(self).stack@.drop_last());
                    }
                }
            },
        }
        self.ip += 1;
        if self.ip == n {
            self.state = ProcState::Exited;
        } else {
            self.state = ProcState::Stopped;
        }
        proof {
            lemma_stack_at_unfold(self.trace@, self.ip as int);
            assert(self.stack@ == apply_step(
                old(self).stack@,
                old(self).trace@[old(self).ip as int],
            ));
        }
    }

    /// Resumes the process: executes instructions until the fetch reaches a
    /// patched address or the debuggee exits. Issued on a not-yet-started
    /// process it is the first run after launch.
    pub fn resume(&mut self)
        requires
            old(self).wf(),
            !(old(self).state is Exited),
        ensures
            final(self).wf(),
            final(self).same_program(*old(self)),
            final(self).traps@ == old(self).traps@,
            final(self).ip == first_trap_from(old(self).trace@, old(self).traps@, old(self).ip as int),
            final(self).state == if final(self).ip == final(self).trace@.len() {
                ProcState::Exited
            } else {
                ProcState::Stopped
            },
    {
        if self.ip == self.trace.len() {
            self.state = ProcState::Exited;
            return ;
        }
        self.state = ProcState::Stopped;
        #[verifier::loop_isolation(false)]
        while self.ip < self.trace.len() && !self.is_trapped(self.trace[self.ip].addr)
            invariant
                self.wf(),
                self.same_program(*old(self)),
                self.traps@ == old(self).traps@,
                old(self).ip <= self.ip,
                self.state == if self.ip == self.trace@.len() {
                    ProcState::Exited
                } else {
                    ProcState::Stopped
                },
                first_trap_from(self.trace@, self.traps@, old(self).ip as int) == first_trap_from(
                    self.trace@,
                    self.traps@,
                    self.ip as int,
                ),
            decreases self.trace@.len() - self.ip,
        {
            self.single_step();
        }
    }
}

} // verus!
