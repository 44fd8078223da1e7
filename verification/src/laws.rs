//! Properties of whole runs: what gas, capabilities and limits guarantee,
//! that resuming continues exactly, and that runs are deterministic.

use vstd::prelude::*;
use crate::run::{
    Oracle, gas_left, gas_limit, lemma_run_unfold, lemma_step_frame, lemma_step_without_host,
    oracle_fits, resumed, run, running_flag,
};
use crate::image::{
    lemma_snapshot_round_trip, lemma_state_hash_covers, parse_snapshot, restored, snapshot_bytes,
    snapshot_storable, state_hash,
};
use crate::instr::Instr;
use crate::op::{Op, op_decode};
use crate::semantics::{
    HostReply, MachineState, calls_host, execute, gas_cost, round8, step, syscall,
};
use crate::sys;
use crate::vm::{Cap, Status, initial_state, registered};

verus! {

/// A run ends with the machine stopped; when it ran out of gas it had used
/// at least the limit, and it never overshoots the limit by more than the
/// dearest instruction less one.
pub proof fn lemma_run_stops(s: MachineState, limit: u64, o: Oracle)
    requires
        limit <= u64::MAX - 9,
    ensures
        run(s, limit, o).status != Status::Running,
        run(s, limit, o).status == Status::OutOfGas ==> s.status == Status::OutOfGas || run(
            s,
            limit,
            o,
        ).gas_used >= limit,
        s.gas_used <= limit ==> run(s, limit, o).gas_used <= limit + 9,
        s.gas_used <= run(s, limit, o).gas_used,
    decreases gas_left(s, limit), running_flag(s),
{
    if s.status == Status::Running && s.gas_used < limit {
        let t = step(s, o(s.gas_used));
        lemma_step_frame(s, o(s.gas_used));
        lemma_step_never_out_of_gas(s, o(s.gas_used));
        lemma_run_stops(t, limit, o);
    }
}

/// A step never reports running out of gas: only the run loop does.
pub proof fn lemma_step_never_out_of_gas(s: MachineState, r: HostReply)
    requires
        s.status == Status::Running,
    ensures
        step(s, r).status != Status::OutOfGas,
{
}

/// Whatever holds of the machine and is kept by every step (for answers
/// that keep the memory's length) and by running out of gas holds at the
/// end of a run.
pub proof fn lemma_run_keeps(inv: spec_fn(MachineState) -> bool, s: MachineState, limit: u64, o: Oracle)
    requires
        limit <= u64::MAX - 9,
        oracle_fits(o, s.mem.len()),
        inv(s),
        forall|t: MachineState, r: HostReply|
            inv(t) && t.status == Status::Running && t.gas_used < limit && t.mem.len() == s.mem.len()
                && r.mem.len() == s.mem.len() ==> #[trigger] inv(step(t, r)),
        forall|t: MachineState| inv(t) ==> #[trigger] inv(MachineState { status: Status::OutOfGas, ..t }),
    ensures
        inv(run(s, limit, o)),
    decreases gas_left(s, limit), running_flag(s),
{
    if s.status == Status::Running && s.gas_used < limit {
        let t = step(s, o(s.gas_used));
        lemma_step_frame(s, o(s.gas_used));
        assert(inv(t));
        lemma_run_keeps(inv, t, limit, o);
    }
}

/// Runs keep the code (it is not in addressable memory), the capabilities,
/// the limits, the input and the host functions and their registrations;
/// and the memory keeps its size.
pub proof fn lemma_run_frame(s: MachineState, limit: u64, o: Oracle)
    requires
        limit <= u64::MAX - 9,
        oracle_fits(o, s.mem.len()),
    ensures
        run(s, limit, o).code == s.code,
        run(s, limit, o).caps == s.caps,
        run(s, limit, o).hosts == s.hosts,
        run(s, limit, o).registry == s.registry,
        run(s, limit, o).registrations == s.registrations,
        run(s, limit, o).input == s.input,
        run(s, limit, o).max_stack == s.max_stack,
        run(s, limit, o).max_call_depth == s.max_call_depth,
        run(s, limit, o).mem.len() == s.mem.len(),
{
    let inv = |t: MachineState|
        t.code == s.code && t.caps == s.caps && t.hosts == s.hosts && t.registry == s.registry
            && t.registrations == s.registrations && t.input == s.input
            && t.max_stack == s.max_stack && t.max_call_depth == s.max_call_depth && t.mem.len()
            == s.mem.len();
    assert forall|t: MachineState, r: HostReply|
        inv(t) && t.status == Status::Running && t.gas_used < limit && t.mem.len() == s.mem.len()
            && r.mem.len() == s.mem.len() implies #[trigger] inv(step(t, r)) by {
        lemma_step_frame(t, r);
    }
    lemma_run_keeps(inv, s, limit, o);
}

/// Without `Cap::Output` a program never adds to the output.
pub proof fn lemma_output_needs_cap(s: MachineState, limit: u64, o: Oracle)
    requires
        limit <= u64::MAX - 9,
        oracle_fits(o, s.mem.len()),
        !s.caps.contains(Cap::Output),
    ensures
        run(s, limit, o).output == s.output,
{
    let inv = |t: MachineState| t.output == s.output && t.caps == s.caps;
    assert forall|t: MachineState, r: HostReply|
        inv(t) && t.status == Status::Running && t.gas_used < limit && t.mem.len() == s.mem.len()
            && r.mem.len() == s.mem.len() implies #[trigger] inv(step(t, r)) by {
        lemma_step_frame(t, r);
    }
    lemma_run_keeps(inv, s, limit, o);
}

/// Without `Cap::Emit` a program never emits an event.
pub proof fn lemma_events_need_cap(s: MachineState, limit: u64, o: Oracle)
    requires
        limit <= u64::MAX - 9,
        oracle_fits(o, s.mem.len()),
        !s.caps.contains(Cap::Emit),
    ensures
        run(s, limit, o).events == s.events,
{
    let inv = |t: MachineState| t.events == s.events && t.caps == s.caps;
    assert forall|t: MachineState, r: HostReply|
        inv(t) && t.status == Status::Running && t.gas_used < limit && t.mem.len() == s.mem.len()
            && r.mem.len() == s.mem.len() implies #[trigger] inv(step(t, r)) by {
        lemma_step_frame(t, r);
    }
    lemma_run_keeps(inv, s, limit, o);
}

/// The data stack, the call stack and the heap stay within their bounds.
pub proof fn lemma_run_within_bounds(s: MachineState, limit: u64, o: Oracle)
    requires
        limit <= u64::MAX - 9,
        oracle_fits(o, s.mem.len()),
        s.stack.len() <= s.max_stack,
        s.calls.len() <= s.max_call_depth,
        s.heap <= s.mem.len(),
    ensures
        run(s, limit, o).stack.len() <= s.max_stack,
        run(s, limit, o).calls.len() <= s.max_call_depth,
        run(s, limit, o).heap <= run(s, limit, o).mem.len(),
{
    let inv = |t: MachineState|
        t.max_stack == s.max_stack && t.max_call_depth == s.max_call_depth && t.stack.len()
            <= t.max_stack && t.calls.len() <= t.max_call_depth && t.heap <= t.mem.len();
    assert forall|t: MachineState, r: HostReply|
        inv(t) && t.status == Status::Running && t.gas_used < limit && t.mem.len() == s.mem.len()
            && r.mem.len() == s.mem.len() implies #[trigger] inv(step(t, r)) by {
        lemma_step_frame(t, r);
    }
    lemma_run_keeps(inv, s, limit, o);
}

/// A machine that cannot call a host function: none is registered, none is
/// permitted, or the code holds no `sys host`.
pub open spec fn host_free(s: MachineState) -> bool {
    ||| s.hosts == Set::<i64>::empty()
    ||| forall|id: i64| !#[trigger] s.caps.contains(Cap::Host(id))
    ||| forall|k: int|
        0 <= k < s.code.len() ==> !(#[trigger] s.code[k].op == 32 && s.code[k].imm == sys::HOST)
}

/// Determinism: a run of a machine that cannot call the host has one
/// outcome, whatever a host would have answered.
pub proof fn lemma_run_deterministic(s: MachineState, limit: u64, o1: Oracle, o2: Oracle)
    requires
        limit <= u64::MAX - 9,
        host_free(s),
    ensures
        run(s, limit, o1) == run(s, limit, o2),
    decreases gas_left(s, limit), running_flag(s),
{
    if s.status == Status::Running && s.gas_used < limit {
        assert(!calls_host(s));
        lemma_step_without_host(s, o1(s.gas_used), o2(s.gas_used));
        let t = step(s, o1(s.gas_used));
        lemma_step_frame(s, o1(s.gas_used));
        lemma_run_deterministic(t, limit, o1, o2);
    }
}

/// Resuming: a run that ran out of gas at one limit, resumed up to a
/// higher limit, ends exactly where one run up to the higher limit ends.
pub proof fn lemma_resume_continues(s: MachineState, l1: u64, l2: u64, o: Oracle)
    requires
        l1 <= l2 <= u64::MAX - 9,
        s.status == Status::Running,
        run(s, l1, o).status == Status::OutOfGas,
    ensures
        run(resumed(run(s, l1, o)), l2, o) == run(s, l2, o),
    decreases gas_left(s, l1), running_flag(s),
{
    if s.gas_used < l1 {
        let t = step(s, o(s.gas_used));
        lemma_step_frame(s, o(s.gas_used));
        lemma_step_never_out_of_gas(s, o(s.gas_used));
        lemma_run_unfold(s, l1, o);
        lemma_run_unfold(s, l2, o);
        lemma_resume_continues(t, l1, l2, o);
    } else {
        assert(resumed(run(s, l1, o)) == s);
    }
}

/// `n` single steps, each answered as the oracle answers at the gas count
/// the step starts at.
pub open spec fn steps(s: MachineState, n: nat, o: Oracle) -> MachineState
    decreases n,
{
    if n == 0 {
        s
    } else {
        steps(step(s, o(s.gas_used)), (n - 1) as nat, o)
    }
}

/// Running is stepping: a run ends where some number of single steps ends,
/// marked out of gas when it stopped at the limit; and once the machine
/// has stopped by itself, further steps change nothing, so stepping until
/// it stops gives the state, trace included, that the run gives.
pub proof fn lemma_run_is_stepping(s: MachineState, limit: u64, o: Oracle)
    requires
        limit <= u64::MAX - 9,
    ensures
        exists|n: nat|
            {
                let t = #[trigger] steps(s, n, o);
                ||| run(s, limit, o) == t
                ||| run(s, limit, o) == (MachineState { status: Status::OutOfGas, ..t })
            },
        run(s, limit, o).status != Status::OutOfGas ==> forall|m: nat|
            #[trigger] steps(run(s, limit, o), m, o) == run(s, limit, o),
    decreases gas_left(s, limit), running_flag(s),
{
    let r = run(s, limit, o);
    if s.status == Status::Running && s.gas_used < limit {
        let t = step(s, o(s.gas_used));
        lemma_step_frame(s, o(s.gas_used));
        lemma_run_unfold(s, limit, o);
        lemma_run_is_stepping(t, limit, o);
        let n = choose|n: nat|
            {
                let u = #[trigger] steps(t, n, o);
                ||| run(t, limit, o) == u
                ||| run(t, limit, o) == (MachineState { status: Status::OutOfGas, ..u })
            };
        assert(steps(s, n + 1, o) == steps(t, n, o));
    } else {
        assert(steps(s, 0, o) == s);
        if r.status != Status::OutOfGas {
            assert(r == s);
            assert forall|m: nat| #[trigger] steps(s, m, o) == s by {
                lemma_steps_stopped(s, m, o);
            }
        }
    }
}

/// A stopped machine stays as it is.
proof fn lemma_steps_stopped(s: MachineState, m: nat, o: Oracle)
    requires
        s.status != Status::Running,
    ensures
        steps(s, m, o) == s,
    decreases m,
{
    if m > 0 {
        lemma_steps_stopped(s, (m - 1) as nat, o);
    }
}

/// Whether two machines are alike in everything but their history: the
/// execution trace, the log of host calls and the numbering of host
/// registrations.
pub open spec fn same_but_history(a: MachineState, b: MachineState) -> bool {
    MachineState {
        trace: b.trace,
        host_log: b.host_log,
        registry: b.registry,
        registrations: b.registrations,
        ..a
    } == b
}

proof fn lemma_syscall_alike(s1: MachineState, s2: MachineState, n: i32, r: HostReply)
    requires
        same_but_history(s1, s2),
    ensures
        same_but_history(syscall(s1, n, r), syscall(s2, n, r)),
{
}

proof fn lemma_execute_alike(s1: MachineState, s2: MachineState, op: Op, i: Instr, r: HostReply)
    requires
        same_but_history(s1, s2),
    ensures
        same_but_history(execute(s1, op, i, r), execute(s2, op, i, r)),
{
    match op {
        Op::Nop => {},
        Op::Halt => {},
        Op::Movi => {},
        Op::Mov => {},
        Op::Add => {},
        Op::Sub => {},
        Op::Mul => {},
        Op::Div => {},
        Op::Mod => {},
        Op::And => {},
        Op::Or => {},
        Op::Xor => {},
        Op::Shl => {},
        Op::Shr => {},
        Op::Addi => {},
        Op::Cmp => {},
        Op::Jmp => {},
        Op::Jz => {},
        Op::Jnz => {},
        Op::Jlt => {},
        Op::Jge => {},
        Op::Jeq => {},
        Op::Jne => {},
        Op::Ld => {},
        Op::St => {},
        Op::Ldb => {},
        Op::Stb => {},
        Op::Push => {},
        Op::Pop => {},
        Op::Call => {},
        Op::Ret => {},
        Op::Alloc => {},
        Op::Sys => lemma_syscall_alike(s1, s2, i.imm, r),
        Op::Trap => {},
        Op::Seth => {},
        Op::Not => {},
        Op::Neg => {},
        Op::Muli => {},
    }
}

/// A step does not read the machine's history.
pub proof fn lemma_step_ignores_history(s1: MachineState, s2: MachineState, r: HostReply)
    requires
        same_but_history(s1, s2),
    ensures
        same_but_history(step(s1, r), step(s2, r)),
{
    if s1.status == Status::Running && s1.pc < s1.code.len() {
        let i = s1.code[s1.pc as int];
        match op_decode(i.op) {
            Some(op) => {
                let g = if i.a > 15 || i.b > 15 || i.c > 15 { 1u64 } else { gas_cost(op) };
                let t1 = if s1.tracing { s1.trace.push(s1.pc) } else { s1.trace };
                let t2 = if s2.tracing { s2.trace.push(s2.pc) } else { s2.trace };
                let b1 = MachineState {
                    trace: t1,
                    pc: (s1.pc + 1) as u32,
                    gas_used: (s1.gas_used + g) as u64,
                    ..s1
                };
                let b2 = MachineState {
                    trace: t2,
                    pc: (s2.pc + 1) as u32,
                    gas_used: (s2.gas_used + g) as u64,
                    ..s2
                };
                assert(same_but_history(b1, b2));
                lemma_execute_alike(b1, b2, op, i, r);
            },
            None => {},
        }
    }
}

/// A run does not read the machine's history: machines alike in everything
/// else run to machines alike in everything else.
pub proof fn lemma_run_ignores_history(s1: MachineState, s2: MachineState, limit: u64, o: Oracle)
    requires
        limit <= u64::MAX - 9,
        same_but_history(s1, s2),
    ensures
        same_but_history(run(s1, limit, o), run(s2, limit, o)),
    decreases gas_left(s1, limit), running_flag(s1),
{
    if s1.status == Status::Running && s1.gas_used < limit {
        lemma_step_ignores_history(s1, s2, o(s1.gas_used));
        lemma_step_frame(s1, o(s1.gas_used));
        lemma_run_unfold(s1, limit, o);
        lemma_run_unfold(s2, limit, o);
        lemma_run_ignores_history(step(s1, o(s1.gas_used)), step(s2, o(s2.gas_used)), limit, o);
    }
}

/// Snapshots are the unit of scheduling: a machine restored from a
/// snapshot into a fresh machine of the same program and configuration
/// resumes to the state the original machine resumes to, its history (the
/// execution trace, the log of host calls and the numbering of host
/// registrations) aside, and so to the same state hash.
pub proof fn lemma_snapshot_resumes(s: MachineState, t: MachineState, limit: u64, o: Oracle)
    requires
        limit <= u64::MAX - 9,
        snapshot_storable(s),
        s.pc <= t.code.len(),
        s.heap <= s.mem.len(),
        t.code == s.code,
        t.caps == s.caps,
        t.input == s.input,
        t.hosts == s.hosts,
        t.max_stack == s.max_stack,
        t.max_call_depth == s.max_call_depth,
        t.tracing == s.tracing,
    ensures
        parse_snapshot(snapshot_bytes(s)) is Ok,
        same_but_history(
            run(resumed(s), limit, o),
            run(resumed(restored(t, parse_snapshot(snapshot_bytes(s))->Ok_0)), limit, o),
        ),
        state_hash(run(resumed(restored(t, parse_snapshot(snapshot_bytes(s))->Ok_0)), limit, o))
            == state_hash(run(resumed(s), limit, o)),
{
    lemma_snapshot_round_trip(s, t);
    let r = restored(t, parse_snapshot(snapshot_bytes(s))->Ok_0);
    assert(same_but_history(resumed(s), resumed(r)));
    lemma_run_ignores_history(resumed(s), resumed(r), limit, o);
    let a = run(resumed(s), limit, o);
    let b = run(resumed(r), limit, o);
    lemma_state_hash_covers(a, b);
}

/// What a machine keeps at every step: the pc inside the code or at its
/// end, both stacks within their limits, every return address inside the
/// code or at its end, the heap pointer a multiple of 8, and a handler, if
/// one is armed, inside the code.
pub open spec fn well_formed(s: MachineState) -> bool {
    &&& s.pc <= s.code.len()
    &&& s.stack.len() <= s.max_stack
    &&& s.calls.len() <= s.max_call_depth
    &&& forall|k: int| 0 <= k < s.calls.len() ==> #[trigger] s.calls[k] <= s.code.len()
    &&& s.heap % 8 == 0
    &&& s.handler matches Some(h) ==> h < s.code.len()
}

/// Whether `t` extends `s`'s output and events: what was written stays.
pub open spec fn extends_record(s: MachineState, t: MachineState) -> bool {
    &&& s.output.len() <= t.output.len()
    &&& t.output.subrange(0, s.output.len() as int) == s.output
    &&& s.events.len() <= t.events.len()
    &&& t.events.subrange(0, s.events.len() as int) == s.events
}

/// A machine fresh from `Vm::new` is well formed.
pub proof fn lemma_initial_well_formed(
    code: Seq<Instr>,
    data: Seq<u8>,
    memory_size: usize,
    max_stack: usize,
    max_call_depth: usize,
    seed: u64,
    input: Seq<u8>,
    caps: Seq<Cap>,
    tracing: bool,
)
    requires
        data.len() <= usize::MAX - 7,
    ensures
        well_formed(
            initial_state(
                code,
                data,
                memory_size,
                max_stack,
                max_call_depth,
                seed,
                input,
                caps,
                tracing,
            ),
        ),
{
    let n = data.len() as int;
    assert(round8(n) % 8 == 0);
}

#[verifier::spinoff_prover]
#[verifier::rlimit(40)]
proof fn lemma_execute_well_formed(s: MachineState, op: Op, i: Instr, r: HostReply)
    requires
        well_formed(s),
    ensures
        well_formed(execute(s, op, i, r)),
        extends_record(s, execute(s, op, i, r)),
        execute(s, op, i, r).code == s.code,
{
    assert(s.output.subrange(0, s.output.len() as int) =~= s.output);
    assert(s.events.subrange(0, s.events.len() as int) =~= s.events);
    match op {
        Op::Nop => {},
        Op::Halt => {},
        Op::Movi => {},
        Op::Mov => {},
        Op::Add => {},
        Op::Sub => {},
        Op::Mul => {},
        Op::Div => {},
        Op::Mod => {},
        Op::And => {},
        Op::Or => {},
        Op::Xor => {},
        Op::Shl => {},
        Op::Shr => {},
        Op::Addi => {},
        Op::Cmp => {},
        Op::Jmp => {},
        Op::Jz => {},
        Op::Jnz => {},
        Op::Jlt => {},
        Op::Jge => {},
        Op::Jeq => {},
        Op::Jne => {},
        Op::Ld => {},
        Op::St => {},
        Op::Ldb => {},
        Op::Stb => {},
        Op::Push => {},
        Op::Pop => {},
        Op::Call => {
            let t = execute(s, op, i, r);
            assert forall|k: int| 0 <= k < t.calls.len() implies #[trigger] t.calls[k]
                <= t.code.len() by {
                if k < s.calls.len() {
                    assert(t.calls[k] == s.calls.push(s.pc)[k]);
                }
            }
        },
        Op::Ret => {
            let t = execute(s, op, i, r);
            if s.calls.len() > 0 {
                assert(s.calls.last() == s.calls[s.calls.len() - 1]);
                assert forall|k: int| 0 <= k < t.calls.len() implies #[trigger] t.calls[k]
                    <= t.code.len() by {
                    assert(t.calls[k] == s.calls[k]);
                }
            }
        },
        Op::Alloc => {
            let rb = s.regs[i.b as int];
            if rb >= 0 {
                let n = (rb as usize) as int;
                assert(round8(n) % 8 == 0);
            }
        },
        Op::Sys => {
            let t = execute(s, op, i, r);
            assert(t.output.subrange(0, s.output.len() as int) =~= s.output);
            assert(t.events.subrange(0, s.events.len() as int) =~= s.events);
        },
        Op::Trap => {},
        Op::Seth => {},
        Op::Not => {},
        Op::Neg => {},
        Op::Muli => {},
    }
}

/// Every step keeps a machine well formed and its code, and only adds to
/// its output and events; with an answer that keeps the memory's length,
/// the memory keeps its length too.
pub proof fn lemma_step_well_formed(s: MachineState, r: HostReply)
    requires
        well_formed(s),
    ensures
        well_formed(step(s, r)),
        extends_record(s, step(s, r)),
        step(s, r).code == s.code,
        r.mem.len() == s.mem.len() ==> step(s, r).mem.len() == s.mem.len(),
{
    assert(s.output.subrange(0, s.output.len() as int) =~= s.output);
    assert(s.events.subrange(0, s.events.len() as int) =~= s.events);
    if s.status == Status::Running && s.pc < s.code.len() {
        let i = s.code[s.pc as int];
        let t = if s.tracing { s.trace.push(s.pc) } else { s.trace };
        match op_decode(i.op) {
            Some(op) => {
                let g = if i.a > 15 || i.b > 15 || i.c > 15 { 1u64 } else { gas_cost(op) };
                let b = MachineState {
                    trace: t,
                    pc: (s.pc + 1) as u32,
                    gas_used: (s.gas_used + g) as u64,
                    ..s
                };
                assert(well_formed(b));
                lemma_execute_well_formed(b, op, i, r);
            },
            None => {},
        }
    }
}

/// A run keeps a well-formed machine well formed and only adds to its
/// output and events.
pub proof fn lemma_run_well_formed(s: MachineState, limit: u64, o: Oracle)
    requires
        limit <= u64::MAX - 9,
        oracle_fits(o, s.mem.len()),
        well_formed(s),
    ensures
        well_formed(run(s, limit, o)),
        extends_record(s, run(s, limit, o)),
{
    let inv = |t: MachineState| well_formed(t) && extends_record(s, t);
    assert(s.output.subrange(0, s.output.len() as int) =~= s.output);
    assert(s.events.subrange(0, s.events.len() as int) =~= s.events);
    assert forall|t: MachineState, r: HostReply|
        inv(t) && t.status == Status::Running && t.gas_used < limit && t.mem.len() == s.mem.len()
            && r.mem.len() == s.mem.len() implies #[trigger] inv(step(t, r)) by {
        lemma_step_well_formed(t, r);
        let u = step(t, r);
        assert(u.output.subrange(0, s.output.len() as int) =~= u.output.subrange(
            0,
            t.output.len() as int,
        ).subrange(0, s.output.len() as int));
        assert(u.events.subrange(0, s.events.len() as int) =~= u.events.subrange(
            0,
            t.events.len() as int,
        ).subrange(0, s.events.len() as int));
    }
    lemma_run_keeps(inv, s, limit, o);
}

/// Pausing on gas loses nothing: a machine run with `g1` more gas that
/// runs out, then resumed with `g2` more, ends exactly where the same
/// machine run once with all the gas the two used ends. The limits are
/// those `Vm::run` and `Vm::resume` use.
pub proof fn lemma_pause_loses_nothing(s: MachineState, g1: u64, g2: u64, o: Oracle)
    requires
        s.status == Status::Running,
        run(s, gas_limit(s.gas_used, g1), o).status == Status::OutOfGas,
        run(s, gas_limit(s.gas_used, g1), o).gas_used + g2 <= u64::MAX - 9,
    ensures
        s.gas_used <= run(s, gas_limit(s.gas_used, g1), o).gas_used,
        ({
            let a = run(s, gas_limit(s.gas_used, g1), o);
            let k = (a.gas_used - s.gas_used) as u64;
            run(resumed(a), gas_limit(a.gas_used, g2), o) == run(
                s,
                gas_limit(s.gas_used, (k + g2) as u64),
                o,
            )
        }),
{
    let l1 = gas_limit(s.gas_used, g1);
    lemma_run_stops(s, l1, o);
    let a = run(s, l1, o);
    let l2 = gas_limit(a.gas_used, g2);
    assert(l2 == a.gas_used + g2);
    lemma_resume_continues(s, l1, l2, o);
}

/// Whether the registrations are in order: every registered id has the
/// number of its registration, and every such number was handed out.
pub open spec fn registry_ok(s: MachineState) -> bool {
    &&& s.registry.dom() == s.hosts
    &&& forall|id: i64| #[trigger] s.registry.dom().contains(id) ==> s.registry[id] < s.registrations
}

/// A fresh machine has no registrations, which are in order.
pub proof fn lemma_initial_registry_ok(
    code: Seq<Instr>,
    data: Seq<u8>,
    memory_size: usize,
    max_stack: usize,
    max_call_depth: usize,
    seed: u64,
    input: Seq<u8>,
    caps: Seq<Cap>,
    tracing: bool,
)
    ensures
        registry_ok(
            initial_state(
                code,
                data,
                memory_size,
                max_stack,
                max_call_depth,
                seed,
                input,
                caps,
                tracing,
            ),
        ),
{
}

/// Registering replaces: afterwards `id` is registered under a number no
/// registration in force before had, and every other registration stays.
/// Since a call is logged with the number in force for its id, later calls
/// for `id` are answered by the function registered last.
pub proof fn lemma_registration_replaces(s: MachineState, id: i64)
    requires
        registry_ok(s),
    ensures
        registry_ok(registered(s, id)),
        registered(s, id).registry[id] == s.registrations,
        forall|other: i64|
            #[trigger] s.registry.dom().contains(other) ==> s.registry[other] != registered(
                s,
                id,
            ).registry[id],
        forall|other: i64|
            other != id && #[trigger] s.registry.dom().contains(other) ==> registered(
                s,
                id,
            ).registry[other] == s.registry[other],
{
    let t = registered(s, id);
    assert(t.registry.dom() =~= t.hosts);
}

/// Steps keep the registrations, so they stay in order.
pub proof fn lemma_step_keeps_registry(s: MachineState, r: HostReply)
    requires
        s.gas_used <= u64::MAX - 10,
    ensures
        step(s, r).registry == s.registry,
        step(s, r).registrations == s.registrations,
        step(s, r).hosts == s.hosts,
{
    lemma_step_frame(s, r);
}

/// `cmp a, b, c` compares `r[b]` with `r[c]` as signed numbers: a step
/// on it sets `r[a]` to -1 when `r[b] < r[c]`, to 1 when `r[b] > r[c]`
/// and to 0 when they are equal, leaves the other registers alone, and
/// moves on to the next instruction.
pub proof fn lemma_step_compare(s: MachineState, r: HostReply)
    requires
        s.status == Status::Running,
        s.pc < s.code.len(),
        s.code.len() <= u32::MAX,
        s.regs.len() == 16,
        op_decode(s.code[s.pc as int].op) == Some(Op::Cmp),
        s.code[s.pc as int].a <= 15,
        s.code[s.pc as int].b <= 15,
        s.code[s.pc as int].c <= 15,
    ensures
        ({
            let i = s.code[s.pc as int];
            let t = step(s, r);
            let x = s.regs[i.b as int];
            let y = s.regs[i.c as int];
            &&& x < y ==> t.regs[i.a as int] == -1
            &&& x > y ==> t.regs[i.a as int] == 1
            &&& x == y ==> t.regs[i.a as int] == 0
            &&& forall|k: int| 0 <= k < 16 && k != i.a ==> t.regs[k] == s.regs[k]
            &&& t.regs.len() == 16
            &&& t.pc == s.pc + 1
            &&& t.status == Status::Running
        }),
{
    let i = s.code[s.pc as int];
    let t = step(s, r);
    let a = i.a as int;
    assert(t.regs == s.regs.update(a, t.regs[a]));
}

} // verus!
