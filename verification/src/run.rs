//! Gas-bounded runs of the machine model, and the facts about a single step
//! that runs are built on.

use vstd::prelude::*;
use crate::semantics::{HostReply, MachineState, calls_host, step};
use crate::vm::Status;

verus! {

/// A source of host answers: what the host replies to a call made by the
/// step that starts at a given gas count. Gas strictly grows from step to
/// step, so each step has its own entry.
pub type Oracle = spec_fn(u64) -> HostReply;

/// Every answer leaves a memory of `n` bytes, as a host function handed a
/// slice of `n` bytes must.
pub open spec fn oracle_fits(o: Oracle, n: nat) -> bool {
    forall|g: u64| (#[trigger] o(g)).mem.len() == n
}

/// What a step leaves alone: the code, the limits, the capabilities, the
/// input and the host functions; and it charges at most 10 gas.
pub open spec fn step_frame(s: MachineState, t: MachineState) -> bool {
    &&& t.code == s.code
    &&& t.caps == s.caps
    &&& t.hosts == s.hosts
    &&& t.registry == s.registry
    &&& t.registrations == s.registrations
    &&& t.input == s.input
    &&& t.max_stack == s.max_stack
    &&& t.max_call_depth == s.max_call_depth
    &&& t.tracing == s.tracing
    &&& s.gas_used <= t.gas_used <= s.gas_used + 10
}

/// A step keeps the frame, keeps the memory's length when the host keeps
/// it, and either charges gas or stops the machine.
pub proof fn lemma_step_frame(s: MachineState, r: HostReply)
    requires
        s.gas_used <= u64::MAX - 10,
    ensures
        step_frame(s, step(s, r)),
        r.mem.len() == s.mem.len() ==> step(s, r).mem.len() == s.mem.len(),
        s.status == Status::Running ==> step(s, r).gas_used > s.gas_used || step(
            s,
            r,
        ).status != Status::Running,
        s.status != Status::Running ==> step(s, r) == s,
{
}

/// A step that does not call a host function does not depend on the host.
pub proof fn lemma_step_without_host(s: MachineState, r1: HostReply, r2: HostReply)
    requires
        !calls_host(s),
    ensures
        step(s, r1) == step(s, r2),
{
}

/// The run measure: gas left before the limit, then whether still running.
pub open spec fn gas_left(s: MachineState, limit: u64) -> nat {
    if s.gas_used < limit {
        (limit - s.gas_used) as nat
    } else {
        0
    }
}

pub open spec fn running_flag(s: MachineState) -> nat {
    if s.status == Status::Running {
        1
    } else {
        0
    }
}

/// The limit `Vm::run(gas)` runs to: `gas` more than already used, within
/// the range the gas counter can reach without overflowing.
pub open spec fn gas_limit(used: u64, gas: u64) -> u64 {
    if used + gas <= u64::MAX - 9 {
        (used + gas) as u64
    } else {
        (u64::MAX - 9) as u64
    }
}

/// Steps until the machine stops or has used gas up to `limit`; then
/// `OutOfGas`. This is what `Vm::run(gas)` does with the limit
/// `gas_limit(gas_used, gas)`.
pub open spec fn run(s: MachineState, limit: u64, o: Oracle) -> MachineState
    decreases gas_left(s, limit), running_flag(s),
    when limit <= u64::MAX - 9
{
    if s.status != Status::Running {
        s
    } else if s.gas_used >= limit {
        MachineState { status: Status::OutOfGas, ..s }
    } else {
        proof {
            lemma_step_frame(s, o(s.gas_used));
        }
        run(step(s, o(s.gas_used)), limit, o)
    }
}

/// `resume` first turns an out-of-gas machine back into a running one.
pub open spec fn resumed(s: MachineState) -> MachineState {
    if s.status == Status::OutOfGas {
        MachineState { status: Status::Running, ..s }
    } else {
        s
    }
}

/// One unfolding of `run` for a machine that takes a step.
pub proof fn lemma_run_unfold(s: MachineState, limit: u64, o: Oracle)
    requires
        limit <= u64::MAX - 9,
        s.status == Status::Running,
        s.gas_used < limit,
    ensures
        run(s, limit, o) == run(step(s, o(s.gas_used)), limit, o),
{
}

/// Whether two oracles give the same answers for the steps starting at gas
/// counts in `lo..hi`.
pub open spec fn agree(o1: Oracle, o2: Oracle, lo: u64, hi: u64) -> bool {
    forall|g: u64| lo <= g < hi ==> #[trigger] o1(g) == o2(g)
}

} // verus!
