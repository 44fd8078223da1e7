//! The machine model: the state a `Vm` stands for, and what one instruction
//! and one gas-bounded run do to it.

use vstd::prelude::*;
use crate::instr::Instr;
use crate::le::{i64_le, le_i64};
use crate::op::{Op, op_decode};
use crate::sys;
use crate::trap;
use crate::vm::{Cap, Status};

verus! {

/// Everything a machine is, as mathematical values.
pub struct MachineState {
    pub regs: Seq<i64>,
    pub pc: u32,
    pub mem: Seq<u8>,
    pub stack: Seq<i64>,
    pub calls: Seq<u32>,
    pub heap: usize,
    pub handler: Option<u32>,
    pub gas_used: u64,
    pub output: Seq<u8>,
    pub events: Seq<Seq<u8>>,
    pub trace: Seq<u32>,
    pub status: Status,
    pub code: Seq<Instr>,
    pub rng: u64,
    pub input: Seq<u8>,
    pub caps: Seq<Cap>,
    pub hosts: Set<i64>,
    pub registry: Map<i64, nat>,
    pub registrations: nat,
    pub host_log: Seq<HostInvocation>,
    pub max_stack: usize,
    pub max_call_depth: usize,
    pub tracing: bool,
}

/// What a host function hands back: the guest memory as it left it (same
/// length: it only sees a slice) and its result (`None` when it failed).
pub struct HostReply {
    pub mem: Seq<u8>,
    pub result: Option<i64>,
}

/// One call of a host function: its id, which registration for that id it
/// was (`registry` numbers registrations in the order they were made), the
/// arguments and the memory it was handed, and what it handed back.
pub struct HostInvocation {
    pub id: i64,
    pub registration: nat,
    pub args: Seq<i64>,
    pub handed: Seq<u8>,
    pub reply: HostReply,
}

/// Gas charged for one instruction of each operation.
pub open spec fn gas_cost(op: Op) -> u64 {
    match op {
        Op::Mul | Op::Div | Op::Mod | Op::Muli => 3,
        Op::Ld | Op::St | Op::Ldb | Op::Stb | Op::Push | Op::Pop | Op::Call | Op::Ret => 2,
        Op::Alloc => 5,
        Op::Sys => 10,
        _ => 1,
    }
}

pub open spec fn set_reg(s: MachineState, r: int, v: i64) -> MachineState {
    MachineState { regs: s.regs.update(r, v), ..s }
}

/// Delivers a trap: to the armed handler (one-shot) when it points into the
/// code, else the machine stops with `Trapped(code)`.
pub open spec fn raise(s: MachineState, code: i64) -> MachineState {
    if s.handler is Some && (s.handler->0 as int) < s.code.len() {
        MachineState { regs: s.regs.update(0, code), pc: s.handler->0, handler: None, ..s }
    } else {
        MachineState { status: Status::Trapped(code), ..s }
    }
}

/// A jump to an absolute instruction index; `len(code)` itself is allowed.
pub open spec fn jump(s: MachineState, target: i32) -> MachineState {
    if target < 0 || target > s.code.len() {
        raise(s, trap::BAD_JUMP)
    } else {
        MachineState { pc: target as u32, ..s }
    }
}

/// The address `base + imm` when it does not overflow, is not negative and
/// `len` bytes from it lie inside a memory of `mem_len` bytes.
pub open spec fn mem_addr(mem_len: int, base: i64, imm: i64, len: int) -> Option<int> {
    let a = base + imm;
    if a < i64::MIN || a > i64::MAX || a < 0 {
        None
    } else {
        let p = (a as usize) as int;
        if p + len <= usize::MAX && p + len <= mem_len {
            Some(p)
        } else {
            None
        }
    }
}

/// `mem` with the bytes `bytes` written from `p` on.
pub open spec fn write_bytes(mem: Seq<u8>, p: int, bytes: Seq<u8>) -> Seq<u8> {
    mem.subrange(0, p) + bytes + mem.subrange(p + bytes.len(), mem.len() as int)
}

/// Truncating signed division; `MIN / -1` wraps to `MIN`.
pub open spec fn wrapping_div(x: i64, y: i64) -> i64 {
    match x.checked_div(y) {
        Some(q) => q,
        None => x,
    }
}

/// Remainder with the sign of the dividend; `MIN % -1` is 0.
pub open spec fn wrapping_rem(x: i64, y: i64) -> i64 {
    match x.checked_rem(y) {
        Some(r) => r,
        None => 0,
    }
}

/// The bytes an allocation of `n` bytes takes: `n` rounded up to 8.
pub open spec fn round8(n: int) -> int {
    if n % 8 == 0 {
        n
    } else {
        n - n % 8 + 8
    }
}

/// One xorshift64 round.
pub open spec fn xorshift(x: u64) -> u64 {
    let x1 = x ^ (x >> 12u64);
    let x2 = x1 ^ (x1 << 25u64);
    x2 ^ (x2 >> 27u64)
}

/// The value `sys rand` reports for the new generator state `x`.
pub open spec fn rand_output(x: u64) -> i64 {
    (vstd::wrapping::u64_specs::wrapping_mul(x, 0x2545_F491_4F6C_DD1Du64) >> 1u64) as i64
}

/// Data written by `sys write` / `sys emit`.
pub open spec fn sys_out(s: MachineState, n: i32) -> MachineState {
    let cap = if n == sys::WRITE { Cap::Output } else { Cap::Emit };
    if !s.caps.contains(cap) {
        raise(s, trap::CAP_DENIED)
    } else {
        let ptr = s.regs[1];
        let len = s.regs[2];
        if len < 0 {
            raise(s, trap::MEM_OOB)
        } else {
            let ulen = (len as usize) as int;
            match mem_addr(s.mem.len() as int, ptr, 0, ulen) {
                Some(p) => {
                    let bytes = s.mem.subrange(p, p + ulen);
                    let s1 = if n == sys::WRITE {
                        MachineState { output: s.output + bytes, ..s }
                    } else {
                        MachineState { events: s.events.push(bytes), ..s }
                    };
                    set_reg(s1, 0, len)
                },
                None => raise(s, trap::MEM_OOB),
            }
        }
    }
}

/// `sys read`: copy at most `r2` input bytes to `mem[r1..]`.
pub open spec fn sys_read(s: MachineState) -> MachineState {
    if !s.caps.contains(Cap::Input) {
        raise(s, trap::CAP_DENIED)
    } else {
        let ptr = s.regs[1];
        let max = s.regs[2];
        let want = if max < 0 { 0 } else { (max as usize) as int };
        let n = if s.input.len() < want { s.input.len() as int } else { want };
        match mem_addr(s.mem.len() as int, ptr, 0, n) {
            Some(p) => set_reg(
                MachineState { mem: write_bytes(s.mem, p, s.input.subrange(0, n)), ..s },
                0,
                n as i64,
            ),
            None => raise(s, trap::MEM_OOB),
        }
    }
}

/// `sys host`: call host function `r0` if permitted and registered, once,
/// with the arguments `(r1, r2, r3)` and the machine's memory; the call is
/// recorded in the host log with what the function handed back.
pub open spec fn sys_host(s: MachineState, reply: HostReply) -> MachineState {
    let id = s.regs[0];
    if !s.caps.contains(Cap::Host(id)) {
        raise(s, trap::CAP_DENIED)
    } else if !s.hosts.contains(id) {
        raise(s, trap::BAD_SYSCALL)
    } else {
        let call = HostInvocation {
            id,
            registration: s.registry[id],
            args: seq![s.regs[1], s.regs[2], s.regs[3]],
            handed: s.mem,
            reply,
        };
        let s1 = MachineState { mem: reply.mem, host_log: s.host_log.push(call), ..s };
        match reply.result {
            Some(v) => set_reg(s1, 0, v),
            None => raise(s1, trap::HOST_ERROR),
        }
    }
}

/// The effect of `sys n`.
pub open spec fn syscall(s: MachineState, n: i32, reply: HostReply) -> MachineState {
    if n == sys::WRITE || n == sys::EMIT {
        sys_out(s, n)
    } else if n == sys::TICKS {
        set_reg(s, 0, s.gas_used as i64)
    } else if n == sys::RAND {
        let x = xorshift(s.rng);
        set_reg(MachineState { rng: x, ..s }, 0, rand_output(x))
    } else if n == sys::READ {
        sys_read(s)
    } else if n == sys::HOST {
        sys_host(s, reply)
    } else {
        raise(s, trap::BAD_SYSCALL)
    }
}

/// A memory access of `len` bytes at `r[b] + imm`.
pub open spec fn access(s: MachineState, i: Instr, len: int) -> Option<int> {
    mem_addr(s.mem.len() as int, s.regs[i.b as int], i.imm as i64, len)
}

/// What operation `op` of instruction `i` does, once the pc has moved on
/// and gas has been charged.
pub open spec fn execute(s: MachineState, op: Op, i: Instr, reply: HostReply) -> MachineState {
    let a = i.a as int;
    let rb = s.regs[i.b as int];
    let rc = s.regs[i.c as int];
    let ra = s.regs[a];
    let imm = i.imm as i64;
    match op {
        Op::Nop => s,
        Op::Halt => MachineState { status: Status::Halted, ..s },
        Op::Movi => set_reg(s, a, imm),
        Op::Mov => set_reg(s, a, rb),
        Op::Add => set_reg(s, a, vstd::wrapping::i64_specs::wrapping_add(rb, rc)),
        Op::Sub => set_reg(s, a, vstd::wrapping::i64_specs::wrapping_sub(rb, rc)),
        Op::Mul => set_reg(s, a, vstd::wrapping::i64_specs::wrapping_mul(rb, rc)),
        Op::Muli => set_reg(s, a, vstd::wrapping::i64_specs::wrapping_mul(rb, imm)),
        Op::Div => if rc == 0 {
            raise(s, trap::DIV_ZERO)
        } else {
            set_reg(s, a, wrapping_div(rb, rc))
        },
        Op::Mod => if rc == 0 {
            raise(s, trap::DIV_ZERO)
        } else {
            set_reg(s, a, wrapping_rem(rb, rc))
        },
        Op::And => set_reg(s, a, rb & rc),
        Op::Or => set_reg(s, a, rb | rc),
        Op::Xor => set_reg(s, a, rb ^ rc),
        Op::Shl => set_reg(s, a, vstd::wrapping::i64_specs::wrapping_shl(rb, (rc as u32) & 63u32)),
        Op::Shr => set_reg(s, a, ((rb as u64) >> ((rc as u32) & 63u32)) as i64),
        Op::Not => set_reg(s, a, !rb),
        Op::Neg => set_reg(s, a, vstd::wrapping::i64_specs::wrapping_sub(0, rb)),
        Op::Addi => set_reg(s, a, vstd::wrapping::i64_specs::wrapping_add(rb, imm)),
        Op::Cmp => set_reg(
            s,
            a,
            if rb > rc {
                1i64
            } else if rb < rc {
                -1i64
            } else {
                0i64
            },
        ),
        Op::Jmp => jump(s, i.imm),
        Op::Jz => if ra == 0 {
            jump(s, i.imm)
        } else {
            s
        },
        Op::Jnz => if ra != 0 {
            jump(s, i.imm)
        } else {
            s
        },
        Op::Jlt => if ra < rb {
            jump(s, i.imm)
        } else {
            s
        },
        Op::Jge => if ra >= rb {
            jump(s, i.imm)
        } else {
            s
        },
        Op::Jeq => if ra == rb {
            jump(s, i.imm)
        } else {
            s
        },
        Op::Jne => if ra != rb {
            jump(s, i.imm)
        } else {
            s
        },
        Op::Ld => match access(s, i, 8) {
            Some(p) => set_reg(s, a, le_i64(s.mem.subrange(p, p + 8))),
            None => raise(s, trap::MEM_OOB),
        },
        Op::St => match access(s, i, 8) {
            Some(p) => MachineState { mem: write_bytes(s.mem, p, i64_le(ra)), ..s },
            None => raise(s, trap::MEM_OOB),
        },
        Op::Ldb => match access(s, i, 1) {
            Some(p) => set_reg(s, a, s.mem[p] as i64),
            None => raise(s, trap::MEM_OOB),
        },
        Op::Stb => match access(s, i, 1) {
            Some(p) => MachineState { mem: s.mem.update(p, ra as u8), ..s },
            None => raise(s, trap::MEM_OOB),
        },
        Op::Push => if s.stack.len() >= s.max_stack {
            raise(s, trap::STACK_OVERFLOW)
        } else {
            MachineState { stack: s.stack.push(ra), ..s }
        },
        Op::Pop => if s.stack.len() == 0 {
            raise(s, trap::STACK_UNDERFLOW)
        } else {
            set_reg(MachineState { stack: s.stack.drop_last(), ..s }, a, s.stack.last())
        },
        Op::Call => if s.calls.len() >= s.max_call_depth {
            raise(s, trap::STACK_OVERFLOW)
        } else {
            jump(MachineState { calls: s.calls.push(s.pc), ..s }, i.imm)
        },
        Op::Ret => if s.calls.len() == 0 {
            raise(s, trap::STACK_UNDERFLOW)
        } else {
            MachineState { pc: s.calls.last(), calls: s.calls.drop_last(), ..s }
        },
        Op::Alloc => if rb < 0 {
            raise(s, trap::OOM)
        } else {
            let end = s.heap + round8((rb as usize) as int);
            if end <= usize::MAX && end <= s.mem.len() {
                set_reg(MachineState { heap: end as usize, ..s }, a, s.heap as i64)
            } else {
                raise(s, trap::OOM)
            }
        },
        Op::Sys => syscall(s, i.imm, reply),
        Op::Trap => raise(s, imm),
        Op::Seth => MachineState {
            handler: if i.imm < 0 || i.imm >= s.code.len() {
                None
            } else {
                Some(i.imm as u32)
            },
            ..s
        },
    }
}

/// One instruction: the whole effect of `Vm::step` on a machine. `reply` is
/// consulted only by a permitted call of a registered host function.
pub open spec fn step(s: MachineState, reply: HostReply) -> MachineState {
    if s.status != Status::Running {
        s
    } else if s.pc >= s.code.len() {
        MachineState { status: Status::Halted, ..s }
    } else {
        let i = s.code[s.pc as int];
        let s1 = MachineState {
            trace: if s.tracing { s.trace.push(s.pc) } else { s.trace },
            pc: (s.pc + 1) as u32,
            ..s
        };
        match op_decode(i.op) {
            None => raise(MachineState { gas_used: (s.gas_used + 1) as u64, ..s1 }, trap::ILLEGAL),
            Some(op) => if i.a > 15 || i.b > 15 || i.c > 15 {
                raise(MachineState { gas_used: (s.gas_used + 1) as u64, ..s1 }, trap::ILLEGAL)
            } else {
                execute(
                    MachineState { gas_used: (s.gas_used + gas_cost(op)) as u64, ..s1 },
                    op,
                    i,
                    reply,
                )
            },
        }
    }
}

/// Whether the next instruction is a permitted call of a registered host
/// function, the only step whose outcome the host decides.
pub open spec fn calls_host(s: MachineState) -> bool {
    &&& s.status == Status::Running
    &&& s.pc < s.code.len()
    &&& s.code[s.pc as int].op == 32
    &&& s.code[s.pc as int].a <= 15 && s.code[s.pc as int].b <= 15 && s.code[s.pc as int].c <= 15
    &&& s.code[s.pc as int].imm == sys::HOST
    &&& s.caps.contains(Cap::Host(s.regs[0]))
    &&& s.hosts.contains(s.regs[0])
}

/// The gas the next step charges: the instruction's cost, 1 for an
/// instruction that is not valid, nothing when no instruction executes.
pub open spec fn step_cost(s: MachineState) -> nat {
    if s.status != Status::Running || s.pc >= s.code.len() {
        0
    } else {
        let i = s.code[s.pc as int];
        match op_decode(i.op) {
            None => 1,
            Some(op) => if i.a > 15 || i.b > 15 || i.c > 15 {
                1
            } else {
                gas_cost(op) as nat
            },
        }
    }
}

/// A machine on which `step` is defined without overflow: the gas counter
/// has room for what the next step charges, and the pc can move on.
pub open spec fn can_step(s: MachineState) -> bool {
    &&& s.gas_used + step_cost(s) <= u64::MAX
    &&& (s.pc < u32::MAX || s.pc >= s.code.len())
}

} // verus!
