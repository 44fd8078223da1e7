use vstd::prelude::*;
use crate::host::{HostTable, host_ids, host_log, host_registrations, host_registry};
use crate::instr::Instr;
use crate::program::Program;
use crate::semantics::{MachineState, round8};
use crate::text::{push_str, string_of};
use crate::trap::{push_name, trap_name};

verus! {

/// What a program may touch outside its own memory.
#[derive(Debug, Clone, PartialEq, Eq, Hash, Structural)]
pub enum Cap {
    Output,
    Input,
    Emit,
    Host(i64),
}

/// Per-run limits and inputs.
pub struct Config {
    pub memory_size: usize,
    pub max_stack: usize,
    pub max_call_depth: usize,
    pub seed: u64,
    pub input: Vec<u8>,
    pub caps: Vec<Cap>,
    pub trace: bool,
}

impl Default for Config {
    fn default() -> (r: Config)
        ensures
            r.memory_size == 64 * 1024,
            r.max_stack == 1024,
            r.max_call_depth == 256,
            r.seed == 0,
            r.input@ == Seq::<u8>::empty(),
            r.caps@ == seq![Cap::Output],
            r.trace == false,
    {
        Config {
            memory_size: 64 * 1024,
            max_stack: 1024,
            max_call_depth: 256,
            seed: 0,
            input: Vec::new(),
            caps: vec![Cap::Output],
            trace: false,
        }
    }
}

/// Where a machine stands.
#[derive(Debug, Clone, Copy, PartialEq, Eq, Structural)]
pub enum Status {
    Running,
    Halted,
    /// Gas ran out; `resume` with more gas continues where it stopped.
    OutOfGas,
    /// A trap with no handler installed. The VM cannot continue.
    Trapped(i64),
}

/// How a status reads.
pub open spec fn status_text(st: Status) -> Seq<char> {
    match st {
        Status::Running => "running"@,
        Status::Halted => "halted"@,
        Status::OutOfGas => "out of gas"@,
        Status::Trapped(c) => "trapped: "@ + trap_name(c),
    }
}

/// Appends how a status reads.
pub(crate) fn push_status_text(out: &mut Vec<char>, st: Status)
    ensures
        final(out)@ == old(out)@ + status_text(st),
{
    match st {
        Status::Running => push_str(out, "running"),
        Status::Halted => push_str(out, "halted"),
        Status::OutOfGas => push_str(out, "out of gas"),
        Status::Trapped(c) => {
            push_str(out, "trapped: ");
            push_name(out, c);
            assert(final(out)@ =~= old(out)@ + status_text(st));
        },
    }
}

impl Status {
    /// How the status reads: `running`, `halted`, `out of gas` or
    /// `trapped: ` and the trap's name.
    pub fn describe(&self) -> (r: String)
        ensures
            r@ == status_text(*self),
    {
        let mut v: Vec<char> = Vec::new();
        push_status_text(&mut v, *self);
        string_of(&v)
    }

    /// The exit code the command-line tool ends with after a run that
    /// stopped with this status: 0 halted, 3 out of gas, 4 trapped, and 5
    /// still running.
    pub fn exit_code(&self) -> (r: i32)
        ensures
            r == match *self {
                Status::Halted => 0i32,
                Status::OutOfGas => 3i32,
                Status::Trapped(_) => 4i32,
                Status::Running => 5i32,
            },
    {
        match self {
            Status::Halted => 0,
            Status::OutOfGas => 3,
            Status::Trapped(_) => 4,
            Status::Running => 5,
        }
    }
}

/// A register machine loaded with a program.
pub struct Vm {
    pub regs: [i64; 16],
    pub pc: u32,
    pub mem: Vec<u8>,
    pub stack: Vec<i64>,
    pub calls: Vec<u32>,
    pub heap: usize,
    pub handler: Option<u32>,
    pub gas_used: u64,
    pub output: Vec<u8>,
    pub events: Vec<Vec<u8>>,
    pub trace: Vec<u32>,
    pub status: Status,
    code: Vec<Instr>,
    rng: u64,
    input: Vec<u8>,
    caps: Vec<Cap>,
    hosts: HostTable,
    max_stack: usize,
    max_call_depth: usize,
    tracing: bool,
}

/// The seed mixing constant of the random generator.
pub const RNG_MIX: u64 = 0x9E37_79B9_7F4A_7C15;

/// The machine after a host function is registered for `id`: `id` is
/// registered, under the next registration number.
pub open spec fn registered(s: MachineState, id: i64) -> MachineState {
    MachineState {
        hosts: s.hosts.insert(id),
        registry: s.registry.insert(id, s.registrations),
        registrations: s.registrations + 1,
        ..s
    }
}

/// The machine a fresh `Vm::new(program, cfg)` stands for.
pub open spec fn initial_state(
    code: Seq<Instr>,
    data: Seq<u8>,
    memory_size: usize,
    max_stack: usize,
    max_call_depth: usize,
    seed: u64,
    input: Seq<u8>,
    caps: Seq<Cap>,
    tracing: bool,
) -> MachineState {
    let n = if memory_size < data.len() { data.len() as int } else { memory_size as int };
    MachineState {
        regs: Seq::new(16, |i: int| 0i64),
        pc: 0,
        mem: Seq::new(n as nat, |i: int| if i < data.len() { data[i] } else { 0u8 }),
        stack: Seq::empty(),
        calls: Seq::empty(),
        heap: round8(data.len() as int) as usize,
        handler: None,
        gas_used: 0,
        output: Seq::empty(),
        events: Seq::empty(),
        trace: Seq::empty(),
        status: Status::Running,
        code,
        rng: seed ^ RNG_MIX,
        input,
        caps,
        hosts: Set::empty(),
        registry: Map::empty(),
        registrations: 0,
        host_log: Seq::empty(),
        max_stack,
        max_call_depth,
        tracing,
    }
}

impl View for Vm {
    type V = MachineState;

    closed spec fn view(&self) -> MachineState {
        MachineState {
            regs: self.regs@,
            pc: self.pc,
            mem: self.mem@,
            stack: self.stack@,
            calls: self.calls@,
            heap: self.heap,
            handler: self.handler,
            gas_used: self.gas_used,
            output: self.output@,
            events: self.events@.map_values(|e: Vec<u8>| e@),
            trace: self.trace@,
            status: self.status,
            code: self.code@,
            rng: self.rng,
            input: self.input@,
            caps: self.caps@,
            hosts: host_ids(self.hosts),
            registry: host_registry(self.hosts),
            registrations: host_registrations(self.hosts),
            host_log: host_log(self.hosts),
            max_stack: self.max_stack,
            max_call_depth: self.max_call_depth,
            tracing: self.tracing,
        }
    }
}

impl Vm {
    /// Loads a program: data at address 0 in a zeroed arena of
    /// `max(memory_size, data.len())` bytes, heap from the data rounded up to 8.
    pub fn new(program: &Program, cfg: Config) -> (vm: Vm)
        requires
            program.data@.len() <= usize::MAX - 7,
        ensures
            vm@ == initial_state(
                program.code@,
                program.data@,
                cfg.memory_size,
                cfg.max_stack,
                cfg.max_call_depth,
                cfg.seed,
                cfg.input@,
                cfg.caps@,
                cfg.trace,
            ),
    {
        let dlen = program.data.len();
        let n = if cfg.memory_size < dlen { dlen } else { cfg.memory_size };
        let mut mem: Vec<u8> = vec![0u8; n];
        let mut i: usize = 0;
        while i < dlen
            invariant
                dlen == program.data@.len(),
                dlen <= n,
                mem@.len() == n,
                i <= dlen,
                forall|j: int| 0 <= j < i ==> mem@[j] == program.data@[j],
                forall|j: int| i <= j < n ==> mem@[j] == 0u8,
            decreases dlen - i,
        {
            mem.set(i, program.data[i]);
            i = i + 1;
        }
        let heap = if dlen % 8 == 0 { dlen } else { dlen - dlen % 8 + 8 };
        let mut code: Vec<Instr> = Vec::new();
        let mut k: usize = 0;
        while k < program.code.len()
            invariant
                k <= program.code@.len(),
                code@ == program.code@.subrange(0, k as int),
            decreases program.code@.len() - k,
        {
            code.push(program.code[k]);
            k = k + 1;
        }
        assert(code@ =~= program.code@);
        let vm = Vm {
            regs: [0i64; 16],
            pc: 0,
            mem,
            stack: Vec::new(),
            calls: Vec::new(),
            heap,
            handler: None,
            gas_used: 0,
            output: Vec::new(),
            events: Vec::new(),
            trace: Vec::new(),
            status: Status::Running,
            code,
            rng: cfg.seed ^ RNG_MIX,
            input: cfg.input,
            caps: cfg.caps,
            hosts: HostTable::new(),
            max_stack: cfg.max_stack,
            max_call_depth: cfg.max_call_depth,
            tracing: cfg.trace,
        };
        assert(vm.regs@ =~= Seq::new(16, |i: int| 0i64));
        assert(vm.mem@ =~= Seq::new(
            n as nat,
            |j: int| if j < program.data@.len() { program.data@[j] } else { 0u8 },
        ));
        assert(vm.events@.map_values(|e: Vec<u8>| e@) =~= Seq::empty());
        assert(host_registry(vm.hosts) =~= Map::<i64, nat>::empty());
        vm
    }

    /// Registers a host function callable via `sys host` with `r0 = id`,
    /// replacing any earlier one for `id`: the registration gets the next
    /// number, and later calls for `id` are logged with it. Nothing is
    /// called now. The program still needs `Cap::Host(id)` to call it.
    pub fn register_host<F: FnMut(&mut [u8], [i64; 3]) -> Result<i64, String> + 'static>(
        &mut self,
        id: i64,
        f: Box<F>,
    )
        ensures
            final(self)@ == registered(old(self)@, id),
    {
        self.hosts.insert(id, f);
    }

    /// What every machine's state satisfies: sixteen registers, and
    /// memory, stacks, output, events, trace and code that fit in memory.
    pub proof fn lemma_view_bounds(&self)
        ensures
            self@.regs.len() == 16,
            self@.mem.len() <= usize::MAX,
            self@.stack.len() <= usize::MAX,
            self@.calls.len() <= usize::MAX,
            self@.output.len() <= usize::MAX,
            self@.events.len() <= usize::MAX,
            self@.trace.len() <= usize::MAX,
            self@.code.len() <= usize::MAX,
    {
        assert(self.mem@.len() == self.mem.len());
        assert(self.stack@.len() == self.stack.len());
        assert(self.calls@.len() == self.calls.len());
        assert(self.output@.len() == self.output.len());
        assert(self.events@.len() == self.events.len());
        assert(self.trace@.len() == self.trace.len());
        assert(self.code@.len() == self.code.len());
    }

    /// The registers.
    pub fn regs(&self) -> (r: &[i64; 16])
        ensures
            r@ == self@.regs,
    {
        &self.regs
    }

    /// The program counter.
    pub fn pc(&self) -> (r: u32)
        ensures
            r == self@.pc,
    {
        self.pc
    }

    /// The guest memory.
    pub fn mem(&self) -> (r: &Vec<u8>)
        ensures
            r@ == self@.mem,
    {
        &self.mem
    }

    /// The data stack.
    pub fn stack(&self) -> (r: &Vec<i64>)
        ensures
            r@ == self@.stack,
    {
        &self.stack
    }

    /// The call stack of return addresses.
    pub fn calls(&self) -> (r: &Vec<u32>)
        ensures
            r@ == self@.calls,
    {
        &self.calls
    }

    /// The heap pointer.
    pub fn heap(&self) -> (r: usize)
        ensures
            r == self@.heap,
    {
        self.heap
    }

    /// The armed trap handler, if any.
    pub fn handler(&self) -> (r: Option<u32>)
        ensures
            r == self@.handler,
    {
        self.handler
    }

    /// The gas used so far.
    pub fn gas_used(&self) -> (r: u64)
        ensures
            r == self@.gas_used,
    {
        self.gas_used
    }

    /// What the program wrote with `sys write`.
    pub fn output(&self) -> (r: &Vec<u8>)
        ensures
            r@ == self@.output,
    {
        &self.output
    }

    /// The events the program emitted.
    pub fn events(&self) -> (r: &Vec<Vec<u8>>)
        ensures
            r@.map_values(|e: Vec<u8>| e@) == self@.events,
    {
        &self.events
    }

    /// The execution trace.
    pub fn trace(&self) -> (r: &Vec<u32>)
        ensures
            r@ == self@.trace,
    {
        &self.trace
    }

    /// Where the machine stands.
    pub fn status(&self) -> (r: Status)
        ensures
            r == self@.status,
    {
        self.status
    }

    /// The program's code segment.
    pub fn code(&self) -> (r: &[Instr])
        ensures
            r@ == self@.code,
    {
        self.code.as_slice()
    }
}

} // verus!

pub mod debugger;
mod exec;
mod persist;
