//! Executing instructions: `step`, `run`, `resume` and their helpers.

use vstd::prelude::*;
use crate::instr::Instr;
use crate::le::{i64_le, le_u64, read_u64_le};
use crate::op::{Op, op_decode};
use crate::semantics::{
    self as sem, HostReply, MachineState, access, calls_host, gas_cost, mem_addr, write_bytes, round8,
    xorshift, rand_output,
};
use crate::run::{
    Oracle, agree, gas_limit, lemma_run_unfold, lemma_step_frame, lemma_step_without_host,
    oracle_fits, resumed, run, running_flag,
};
use crate::sys;
use crate::trap;
use crate::vm::{Cap, Status, Vm};

verus! {

/// Gas charged for one instruction.
fn cost_of(op: Op) -> (r: u64)
    ensures
        r == gas_cost(op),
        1 <= r <= 10,
{
    match op {
        Op::Mul | Op::Div | Op::Mod | Op::Muli => 3,
        Op::Ld | Op::St | Op::Ldb | Op::Stb | Op::Push | Op::Pop | Op::Call | Op::Ret => 2,
        Op::Alloc => 5,
        Op::Sys => 10,
        _ => 1,
    }
}

/// An arbitrary reply, for steps the host has no say in.
spec fn no_reply(mem: Seq<u8>) -> HostReply {
    HostReply { mem, result: None }
}

impl Vm {
    fn set_reg(&mut self, r: usize, v: i64)
        requires
            r < 16,
        ensures
            final(self)@ == sem::set_reg(old(self)@, r as int, v),
    {
        self.regs[r] = v;
        assert(self.regs@ =~= old(self).regs@.update(r as int, v));
    }

    fn raise(&mut self, code: i64)
        ensures
            final(self)@ == sem::raise(old(self)@, code),
    {
        match self.handler {
            Some(h) => {
                if (h as usize) < self.code.len() {
                    self.set_reg(0, code);
                    self.pc = h;
                    self.handler = None;
                } else {
                    self.status = Status::Trapped(code);
                }
            },
            None => {
                self.status = Status::Trapped(code);
            },
        }
    }

    fn addr(&self, base: i64, imm: i32, len: usize) -> (r: Option<usize>)
        ensures
            r is Some <==> mem_addr(self@.mem.len() as int, base, imm as i64, len as int) is Some,
            r matches Some(p) ==> mem_addr(self@.mem.len() as int, base, imm as i64, len as int)
                == Some(p as int),
    {
        let a = match base.checked_add(imm as i64) {
            Some(a) => a,
            None => return None,
        };
        if a < 0 {
            return None;
        }
        let a = a as usize;
        match a.checked_add(len) {
            Some(end) => if end <= self.mem.len() {
                Some(a)
            } else {
                None
            },
            None => None,
        }
    }

    fn jump(&mut self, target: i32)
        ensures
            final(self)@ == sem::jump(old(self)@, target),
    {
        if target < 0 || target as usize > self.code.len() {
            self.raise(trap::BAD_JUMP);
        } else {
            self.pc = target as u32;
        }
    }

    fn has_cap(&self, c: &Cap) -> (r: bool)
        ensures
            r == self@.caps.contains(*c),
    {
        let mut i: usize = 0;
        while i < self.caps.len()
            invariant
                i <= self.caps@.len(),
                forall|j: int| 0 <= j < i ==> self.caps@[j] != *c,
            decreases self.caps@.len() - i,
        {
            if self.caps[i] == *c {
                return true;
            }
            i = i + 1;
        }
        false
    }
}


/// Appends `src[from..to]` to `dst`.
fn append_range(dst: &mut Vec<u8>, src: &Vec<u8>, from: usize, to: usize)
    requires
        from <= to <= src@.len(),
    ensures
        final(dst)@ == old(dst)@ + src@.subrange(from as int, to as int),
{
    let mut k = from;
    while k < to
        invariant
            from <= k <= to,
            to <= src@.len(),
            dst@ == old(dst)@ + src@.subrange(from as int, k as int),
        decreases to - k,
    {
        dst.push(src[k]);
        k = k + 1;
        assert(dst@ =~= old(dst)@ + src@.subrange(from as int, k as int));
    }
}

/// Overwrites `dst[p..p + n]` with `src[..n]`.
fn copy_into(dst: &mut Vec<u8>, p: usize, src: &Vec<u8>, n: usize)
    requires
        n <= src@.len(),
        p + n <= old(dst)@.len(),
    ensures
        final(dst)@ == write_bytes(old(dst)@, p as int, src@.subrange(0, n as int)),
{
    assert(old(dst)@.len() == dst.len());
    let mut k: usize = 0;
    while k < n
        invariant
            k <= n,
            n <= src@.len(),
            p + n <= old(dst)@.len(),
            old(dst)@.len() <= usize::MAX,
            dst@.len() == old(dst)@.len(),
            forall|j: int| 0 <= j < p ==> dst@[j] == old(dst)@[j],
            forall|j: int| p + n <= j < old(dst)@.len() ==> dst@[j] == old(dst)@[j],
            forall|j: int| p <= j < p + k ==> dst@[j] == src@[j - p],
            forall|j: int| p + k <= j < p + n ==> dst@[j] == old(dst)@[j],
        decreases n - k,
    {
        dst.set(p + k, src[k]);
        k = k + 1;
    }
    assert(dst@ =~= write_bytes(old(dst)@, p as int, src@.subrange(0, n as int)));
}

impl Vm {
    fn sys_out(&mut self, n: i32)
        requires
            n == sys::WRITE || n == sys::EMIT,
        ensures
            final(self)@ == sem::sys_out(old(self)@, n),
    {
        let cap = if n == sys::WRITE { Cap::Output } else { Cap::Emit };
        if !self.has_cap(&cap) {
            self.raise(trap::CAP_DENIED);
            return;
        }
        let ptr = self.regs[1];
        let len = self.regs[2];
        if len < 0 {
            self.raise(trap::MEM_OOB);
            return;
        }
        match self.addr(ptr, 0, len as usize) {
            Some(p) => {
                let ghost s0 = self@;
                let mut bytes: Vec<u8> = Vec::new();
                append_range(&mut bytes, &self.mem, p, p + len as usize);
                assert(bytes@ =~= s0.mem.subrange(p as int, p + (len as usize) as int));
                if n == sys::WRITE {
                    append_range(&mut self.output, &bytes, 0, bytes.len());
                    assert(bytes@.subrange(0, bytes@.len() as int) =~= bytes@);
                } else {
                    let ghost evs = self.events@;
                    self.events.push(bytes);
                    assert(self.events@.map_values(|e: Vec<u8>| e@) =~= evs.map_values(
                        |e: Vec<u8>| e@,
                    ).push(bytes@));
                }
                self.set_reg(0, len);
            },
            None => self.raise(trap::MEM_OOB),
        }
    }

    fn sys_read(&mut self)
        ensures
            final(self)@ == sem::sys_read(old(self)@),
    {
        if !self.has_cap(&Cap::Input) {
            self.raise(trap::CAP_DENIED);
            return;
        }
        let ptr = self.regs[1];
        let max = self.regs[2];
        let want: usize = if max < 0 { 0 } else { max as usize };
        let n: usize = if self.input.len() < want { self.input.len() } else { want };
        match self.addr(ptr, 0, n) {
            Some(p) => {
                let ghost m0 = self.mem@;
                copy_into(&mut self.mem, p, &self.input, n);
                assert(self.mem@ =~= write_bytes(m0, p as int, self.input@.subrange(0, n as int)));
                self.set_reg(0, n as i64);
            },
            None => self.raise(trap::MEM_OOB),
        }
    }

    fn sys_host(&mut self) -> (reply: Ghost<HostReply>)
        ensures
            final(self)@ == sem::sys_host(old(self)@, reply@),
            reply@.mem.len() == old(self)@.mem.len(),
    {
        let id = self.regs[0];
        if !self.has_cap(&Cap::Host(id)) {
            self.raise(trap::CAP_DENIED);
            return Ghost(no_reply(old(self)@.mem));
        }
        let args = [self.regs[1], self.regs[2], self.regs[3]];
        match self.hosts.call(id, &mut self.mem, args) {
            None => {
                self.raise(trap::BAD_SYSCALL);
                Ghost(no_reply(old(self)@.mem))
            },
            Some(Ok(v)) => {
                let ghost m = self.mem@;
                self.set_reg(0, v);
                Ghost(HostReply { mem: m, result: Some(v) })
            },
            Some(Err(_)) => {
                let ghost m = self.mem@;
                self.raise(trap::HOST_ERROR);
                Ghost(HostReply { mem: m, result: None })
            },
        }
    }

    fn syscall(&mut self, n: i32) -> (reply: Ghost<HostReply>)
        ensures
            final(self)@ == sem::syscall(old(self)@, n, reply@),
            reply@.mem.len() == old(self)@.mem.len(),
    {
        if n == sys::WRITE || n == sys::EMIT {
            self.sys_out(n);
        } else if n == sys::TICKS {
            self.set_reg(0, self.gas_used as i64);
        } else if n == sys::RAND {
            let mut x = self.rng;
            x = x ^ (x >> 12u64);
            x = x ^ (x << 25u64);
            x = x ^ (x >> 27u64);
            self.rng = x;
            self.set_reg(0, (x.wrapping_mul(0x2545_F491_4F6C_DD1Du64) >> 1u64) as i64);
        } else if n == sys::READ {
            self.sys_read();
        } else if n == sys::HOST {
            return self.sys_host();
        } else {
            self.raise(trap::BAD_SYSCALL);
        }
        Ghost(no_reply(old(self)@.mem))
    }
}

impl Vm {
    fn store_word(&mut self, p: usize, v: i64)
        requires
            p + 8 <= old(self)@.mem.len(),
            p + 8 <= usize::MAX,
        ensures
            final(self)@ == (MachineState { mem: write_bytes(old(self)@.mem, p as int, i64_le(v)), ..old(self)@ }),
    {
        let x = v as u64;
        self.mem.set(p, (x & 0xff) as u8);
        self.mem.set(p + 1, ((x >> 8u64) & 0xff) as u8);
        self.mem.set(p + 2, ((x >> 16u64) & 0xff) as u8);
        self.mem.set(p + 3, ((x >> 24u64) & 0xff) as u8);
        self.mem.set(p + 4, ((x >> 32u64) & 0xff) as u8);
        self.mem.set(p + 5, ((x >> 40u64) & 0xff) as u8);
        self.mem.set(p + 6, ((x >> 48u64) & 0xff) as u8);
        self.mem.set(p + 7, ((x >> 56u64) & 0xff) as u8);
        assert(self.mem@ =~= write_bytes(old(self)@.mem, p as int, i64_le(v)));
    }

    fn heap_alloc(&mut self, a: usize, n: i64)
        requires
            a < 16,
        ensures
            final(self)@ == (if n < 0 {
                sem::raise(old(self)@, trap::OOM)
            } else {
                let end = old(self)@.heap + round8((n as usize) as int);
                if end <= usize::MAX && end <= old(self)@.mem.len() {
                    sem::set_reg(MachineState { heap: end as usize, ..old(self)@ }, a as int, old(self)@.heap as i64)
                } else {
                    sem::raise(old(self)@, trap::OOM)
                }
            }),
    {
        if n < 0 {
            self.raise(trap::OOM);
            return;
        }
        let nu = n as usize;
        let size: Option<usize> = if nu % 8 == 0 { Some(nu) } else { (nu - nu % 8).checked_add(8) };
        let end: Option<usize> = match size {
            Some(z) => self.heap.checked_add(z),
            None => None,
        };
        match end {
            Some(e) => {
                if e <= self.mem.len() {
                    let h = self.heap;
                    self.heap = e;
                    self.set_reg(a, h as i64);
                } else {
                    self.raise(trap::OOM);
                }
            },
            None => self.raise(trap::OOM),
        }
    }

    fn execute(&mut self, op: Op, i: Instr) -> (reply: Ghost<HostReply>)
        requires
            i.a <= 15,
            i.b <= 15,
            i.c <= 15,
        ensures
            final(self)@ == sem::execute(old(self)@, op, i, reply@),
            reply@.mem.len() == old(self)@.mem.len(),
    {
        let a = i.a as usize;
        let b = i.b as usize;
        let c = i.c as usize;
        let ghost none = no_reply(old(self)@.mem);
        match op {
            Op::Nop => {},
            Op::Halt => self.status = Status::Halted,
            Op::Movi => self.set_reg(a, i.imm as i64),
            Op::Mov => self.set_reg(a, self.regs[b]),
            Op::Add => self.set_reg(a, self.regs[b].wrapping_add(self.regs[c])),
            Op::Sub => self.set_reg(a, self.regs[b].wrapping_sub(self.regs[c])),
            Op::Mul => self.set_reg(a, self.regs[b].wrapping_mul(self.regs[c])),
            Op::Muli => self.set_reg(a, self.regs[b].wrapping_mul(i.imm as i64)),
            Op::Div => {
                if self.regs[c] == 0 {
                    self.raise(trap::DIV_ZERO);
                } else {
                    let q = match self.regs[b].checked_div(self.regs[c]) {
                        Some(q) => q,
                        None => self.regs[b],
                    };
                    self.set_reg(a, q);
                }
            },
            Op::Mod => {
                if self.regs[c] == 0 {
                    self.raise(trap::DIV_ZERO);
                } else {
                    let r = match self.regs[b].checked_rem(self.regs[c]) {
                        Some(r) => r,
                        None => 0,
                    };
                    self.set_reg(a, r);
                }
            },
            Op::And => self.set_reg(a, self.regs[b] & self.regs[c]),
            Op::Or => self.set_reg(a, self.regs[b] | self.regs[c]),
            Op::Xor => self.set_reg(a, self.regs[b] ^ self.regs[c]),
            Op::Shl => self.set_reg(a, self.regs[b].wrapping_shl((self.regs[c] as u32) & 63u32)),
            Op::Shr => {
                let rc = self.regs[c];
                let sh = (rc as u32) & 63u32;
                assert(sh < 64) by (bit_vector)
                    requires
                        sh == (rc as u32) & 63u32,
                ;
                self.set_reg(a, ((self.regs[b] as u64) >> sh) as i64);
            },
            Op::Not => self.set_reg(a, !self.regs[b]),
            Op::Neg => self.set_reg(a, 0i64.wrapping_sub(self.regs[b])),
            Op::Addi => self.set_reg(a, self.regs[b].wrapping_add(i.imm as i64)),
            Op::Cmp => {
                let v: i64 = if self.regs[b] > self.regs[c] {
                    1
                } else if self.regs[b] < self.regs[c] {
                    -1
                } else {
                    0
                };
                self.set_reg(a, v);
            },
            Op::Jmp => self.jump(i.imm),
            Op::Jz => if self.regs[a] == 0 {
                self.jump(i.imm)
            },
            Op::Jnz => if self.regs[a] != 0 {
                self.jump(i.imm)
            },
            Op::Jlt => if self.regs[a] < self.regs[b] {
                self.jump(i.imm)
            },
            Op::Jge => if self.regs[a] >= self.regs[b] {
                self.jump(i.imm)
            },
            Op::Jeq => if self.regs[a] == self.regs[b] {
                self.jump(i.imm)
            },
            Op::Jne => if self.regs[a] != self.regs[b] {
                self.jump(i.imm)
            },
            Op::Ld => match self.addr(self.regs[b], i.imm, 8) {
                Some(p) => {
                    let w = read_u64_le(self.mem.as_slice(), p);
                    self.set_reg(a, w as i64);
                },
                None => self.raise(trap::MEM_OOB),
            },
            Op::St => match self.addr(self.regs[b], i.imm, 8) {
                Some(p) => self.store_word(p, self.regs[a]),
                None => self.raise(trap::MEM_OOB),
            },
            Op::Ldb => match self.addr(self.regs[b], i.imm, 1) {
                Some(p) => self.set_reg(a, self.mem[p] as i64),
                None => self.raise(trap::MEM_OOB),
            },
            Op::Stb => match self.addr(self.regs[b], i.imm, 1) {
                Some(p) => self.mem.set(p, self.regs[a] as u8),
                None => self.raise(trap::MEM_OOB),
            },
            Op::Push => {
                if self.stack.len() >= self.max_stack {
                    self.raise(trap::STACK_OVERFLOW);
                } else {
                    self.stack.push(self.regs[a]);
                }
            },
            Op::Pop => match self.stack.pop() {
                Some(v) => self.set_reg(a, v),
                None => self.raise(trap::STACK_UNDERFLOW),
            },
            Op::Call => {
                if self.calls.len() >= self.max_call_depth {
                    self.raise(trap::STACK_OVERFLOW);
                } else {
                    self.calls.push(self.pc);
                    self.jump(i.imm);
                }
            },
            Op::Ret => match self.calls.pop() {
                Some(p) => self.pc = p,
                None => self.raise(trap::STACK_UNDERFLOW),
            },
            Op::Alloc => self.heap_alloc(a, self.regs[b]),
            Op::Trap => self.raise(i.imm as i64),
            Op::Seth => {
                self.handler = if i.imm < 0 || i.imm as usize >= self.code.len() {
                    None
                } else {
                    Some(i.imm as u32)
                };
            },
            Op::Sys => {
                return self.syscall(i.imm);
            },
        }
        Ghost(none)
    }
}

impl Vm {
    /// Executes one instruction. What it does is `semantics::step`, given
    /// what the host answers if the instruction calls a host function.
    pub fn step(&mut self) -> (st: Status)
        requires
            sem::can_step(old(self)@),
        ensures
            exists|r: HostReply|
                r.mem.len() == old(self)@.mem.len() && final(self)@ == #[trigger] sem::step(
                    old(self)@,
                    r,
                ),
            st == final(self)@.status,
    {
        let ghost s0 = self@;
        let ghost none = no_reply(s0.mem);
        if self.status != Status::Running {
            assert(self@ == sem::step(s0, none));
            return self.status;
        }
        let pc = self.pc as usize;
        if pc >= self.code.len() {
            self.status = Status::Halted;
            assert(self@ == sem::step(s0, none));
            return self.status;
        }
        let i = self.code[pc];
        if self.tracing {
            self.trace.push(self.pc);
        }
        self.pc = self.pc + 1;
        let op = match Op::from_u8(i.op) {
            Some(op) => op,
            None => {
                self.gas_used = self.gas_used + 1;
                self.raise(trap::ILLEGAL);
                assert(self@ == sem::step(s0, none));
                return self.status;
            },
        };
        if i.a > 15 || i.b > 15 || i.c > 15 {
            self.gas_used = self.gas_used + 1;
            self.raise(trap::ILLEGAL);
            assert(self@ == sem::step(s0, none));
            return self.status;
        }
        self.gas_used = self.gas_used + cost_of(op);
        let reply = self.execute(op, i);
        assert(self@ == sem::step(s0, reply@));
        self.status
    }
}

impl Vm {
    /// Runs until halt, trap, or `gas` more units are consumed. The end state
    /// is `run::run` from the start, for the answers the host gave. The
    /// limit is `gas_limit(gas_used, gas)`: never past `u64::MAX - 9`, so
    /// the gas counter cannot overflow.
    pub fn run(&mut self, gas: u64) -> (st: Status)
        requires
            old(self)@.code.len() <= u32::MAX,
        ensures
            exists|o: Oracle|
                oracle_fits(o, old(self)@.mem.len()) && final(self)@ == #[trigger] run(
                    old(self)@,
                    gas_limit(old(self)@.gas_used, gas),
                    o,
                ),
            st == final(self)@.status,
    {
        let top: u64 = u64::MAX - 9;
        let limit = if gas <= top && self.gas_used <= top - gas {
            self.gas_used + gas
        } else {
            top
        };
        let ghost s0 = self@;
        let ghost g0 = s0.gas_used;
        let ghost n = s0.mem.len();
        let ghost mut o: Oracle = |g: u64| HostReply { mem: s0.mem, result: None };
        loop
            invariant
                limit == gas_limit(g0, gas),
                limit <= u64::MAX - 9,
                self@.code == s0.code,
                s0.code.len() <= u32::MAX,
                self@.mem.len() == n,
                g0 <= self@.gas_used,
                self@.gas_used <= limit + 9 || self@.gas_used == g0,
                oracle_fits(o, n),
                forall|o2: Oracle|
                    #[trigger] agree(o2, o, g0, self@.gas_used) ==> run(s0, limit, o2) == run(
                        self@,
                        limit,
                        o2,
                    ),
            ensures
                forall|o2: Oracle|
                    #[trigger] agree(o2, o, g0, self@.gas_used) ==> run(s0, limit, o2) == self@,
                oracle_fits(o, n),
            decreases limit + 10 - self@.gas_used + running_flag(self@),
        {
            if self.status != Status::Running {
                break;
            }
            if self.gas_used >= limit {
                let ghost prev = self@;
                self.status = Status::OutOfGas;
                assert(self@ == (MachineState { status: Status::OutOfGas, ..prev }));
                break;
            }
            let ghost prev = self@;
            let ghost g = self.gas_used;
            proof {
                lemma_step_frame(prev, o(g));
            }
            self.step();
            let ghost r = choose|r: HostReply|
                r.mem.len() == prev.mem.len() && self@ == #[trigger] sem::step(prev, r);
            proof {
                lemma_step_frame(prev, r);
                let on: Oracle = |x: u64| if x == g { r } else { o(x) };
                assert forall|o2: Oracle| #[trigger] agree(o2, on, g0, self@.gas_used) implies run(
                    s0,
                    limit,
                    o2,
                ) == run(self@, limit, o2) by {
                    assert(agree(o2, o, g0, g)) by {
                        assert forall|x: u64| g0 <= x < g implies #[trigger] o2(x) == o(x) by {
                            assert(on(x) == o(x));
                        }
                    }
                    lemma_run_unfold(prev, limit, o2);
                    if calls_host(prev) {
                        assert(self@.gas_used == g + 10);
                        assert(on(g) == r);
                        assert(o2(g) == r);
                    } else {
                        lemma_step_without_host(prev, o2(g), r);
                    }
                }
                o = on;
            }
        }
        proof {
            assert(agree(o, o, g0, self@.gas_used));
        }
        self.status
    }

    /// Continues a machine that stopped with `OutOfGas`.
    pub fn resume(&mut self, gas: u64) -> (st: Status)
        requires
            old(self)@.code.len() <= u32::MAX,
        ensures
            exists|o: Oracle|
                oracle_fits(o, old(self)@.mem.len()) && final(self)@ == #[trigger] run(
                    resumed(old(self)@),
                    gas_limit(old(self)@.gas_used, gas),
                    o,
                ),
            st == final(self)@.status,
    {
        if self.status == Status::OutOfGas {
            self.status = Status::Running;
        }
        assert(self@ == resumed(old(self)@));
        self.run(gas)
    }
}

} // verus!
