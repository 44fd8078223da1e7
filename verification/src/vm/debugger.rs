//! The interactive debugger's decisions: what each command does to the
//! machine and to the session, and what it answers. Reading commands and
//! printing answers is left to the caller.

use vstd::prelude::*;
use crate::assembler::{dump_cells, instr_text, join, push_dump_cells, push_instr_text};
use crate::image::state_hash;
use crate::lex::{chars_eq, lines, parse_unsigned, split_words, std_parse, words};
use crate::program::Program;
use crate::reassembly::{
    all_printable, lemma_dec_printable, lemma_instr_text_printable, lemma_lines_append, lemma_one_line,
    lemma_pad_left_printable, lemma_printable_add, printable,
};
use crate::instr::Instr;
use crate::run::{Oracle, agree, lemma_step_frame, lemma_step_without_host, oracle_fits};
use crate::semantics::{HostReply, MachineState, calls_host, step};
use crate::text::{
    chars_of, dec_int, dec_nat, hex_nat, pad_left, pad_right, push_all, push_dec, push_dec_i64,
    push_hex,
    push_padded_left, push_padded_right, push_str, string_of,
};
use crate::vm::{Status, Vm, push_status_text, status_text};

verus! {

/// `n` in decimal, zero-padded to at least `w` digits.
pub open spec fn dec_padded(n: nat, w: nat) -> Seq<char> {
    pad_left(dec_nat(n), w, '0')
}

/// Where the machine stands: the next instruction with its index, or the
/// end of the code.
pub open spec fn show_text(s: MachineState) -> Seq<char> {
    if s.pc < s.code.len() {
        dec_padded(s.pc as nat, 4) + "  "@ + instr_text(s.code[s.pc as int]) + "\n"@
    } else {
        dec_padded(s.pc as nat, 4) + "  <end of code>\n"@
    }
}

/// `Some(n)` or `None`, as `{:?}` writes an optional number.
pub open spec fn option_text(h: Option<u32>) -> Seq<char> {
    match h {
        Some(x) => "Some("@ + dec_nat(x as nat) + ")"@,
        None => "None"@,
    }
}

/// Numbers in brackets separated by `, `, as `{:?}` writes a list.
pub open spec fn list_text(xs: Seq<int>) -> Seq<char> {
    "["@ + join(xs.map_values(|x: int| dec_int(x)), ", "@) + "]"@
}

/// The first `n` register cells: `rI=` and the value, left-aligned in
/// columns, four to a line.
pub open spec fn reg_cells(regs: Seq<i64>, n: nat) -> Seq<char>
    decreases n,
{
    if n == 0 {
        Seq::empty()
    } else {
        let i = (n - 1) as nat;
        reg_cells(regs, i) + "r"@ + pad_right(dec_nat(i), 2) + "="@ + pad_right(
            dec_int(regs[i as int] as int),
            12,
        ) + if i % 4 == 3 {
            "\n"@
        } else {
            Seq::empty()
        }
    }
}

/// The registers, then the program counter, heap, handler and gas.
pub open spec fn regs_text(s: MachineState) -> Seq<char> {
    reg_cells(s.regs, 16) + "pc="@ + dec_nat(s.pc as nat) + " heap="@ + dec_nat(s.heap as nat)
        + " handler="@ + option_text(s.handler) + " gas="@ + dec_nat(s.gas_used as nat) + "\n"@
}

/// The data stack and the call stack.
pub open spec fn stacks_text(s: MachineState) -> Seq<char> {
    "stack "@ + list_text(s.stack.map_values(|x: i64| x as int)) + "\ncalls "@ + list_text(
        s.calls.map_values(|x: u32| x as int),
    ) + "\n"@
}

/// Where a memory dump of `n` bytes from `a` ends: at most at the end of
/// memory.
pub open spec fn dump_end(len: nat, a: nat, n: nat) -> nat {
    if a + n <= len {
        a + n
    } else {
        len
    }
}

/// Where it starts: `a`, or nowhere when `a` is past its end.
pub open spec fn dump_start(len: nat, a: nat, n: nat) -> nat {
    if a <= dump_end(len, a, n) {
        a
    } else {
        dump_end(len, a, n)
    }
}

/// The first `k` sixteen-byte rows of memory from `start` to `end`, each
/// labelled with its address counted from `a`.
pub open spec fn dump_rows(mem: Seq<u8>, a: nat, start: nat, end: nat, k: nat) -> Seq<char>
    decreases k,
{
    if k == 0 {
        Seq::empty()
    } else {
        let j = (k - 1) as nat;
        let lo = start + 16 * j;
        let hi = if lo + 16 <= end { lo + 16 } else { end };
        dump_rows(mem, a, start, end, j) + pad_left(hex_nat(a + 16 * j), 6, '0') + "  "@
            + dump_cells(mem.subrange(lo as int, hi as int)) + "\n"@
    }
}

/// A dump of `n` bytes of memory from address `a`.
pub open spec fn mem_text(mem: Seq<u8>, a: nat, n: nat) -> Seq<char> {
    let end = dump_end(mem.len(), a, n);
    let start = dump_start(mem.len(), a, n);
    dump_rows(mem, a, start, end, ((end - start + 15) / 16) as nat)
}

/// Where the code window around `pc` starts: four instructions back.
pub open spec fn window_start(pc: nat) -> nat {
    if pc >= 4 {
        (pc - 4) as nat
    } else {
        0
    }
}

/// Lines `lo..k` of the code window around `pc`, the line at `pc` marked.
pub open spec fn window_lines(code: Seq<Instr>, pc: nat, lo: nat, k: nat) -> Seq<char>
    decreases k,
{
    if k <= lo {
        Seq::empty()
    } else {
        let i = (k - 1) as nat;
        window_lines(code, pc, lo, i) + (if i == pc {
            "=>"@
        } else {
            "  "@
        }) + dec_padded(i, 4) + "  "@ + instr_text(code[i as int]) + "\n"@
    }
}

/// Up to twelve instructions from four before the program counter.
pub open spec fn window_text(s: MachineState) -> Seq<char> {
    let lo = window_start(s.pc as nat);
    let hi = if lo + 12 <= s.code.len() { lo + 12 } else { s.code.len() as nat };
    window_lines(s.code, s.pc as nat, lo, hi)
}

/// One row of the code window: the marker, the index and the instruction.
pub open spec fn window_row(code: Seq<Instr>, pc: nat, i: nat) -> Seq<char> {
    (if i == pc {
        "=>"@
    } else {
        "  "@
    }) + dec_padded(i, 4) + "  "@ + instr_text(code[i as int])
}

/// A row of the window, ended by a line break, is one line.
proof fn lemma_window_row(code: Seq<Instr>, pc: nat, i: nat)
    requires
        i < code.len(),
    ensures
        lines(window_row(code, pc, i) + seq!['\n']) == seq![window_row(code, pc, i)],
{
    let mark = if i == pc {
        "=>"@
    } else {
        "  "@
    };
    let row = window_row(code, pc, i);
    reveal_strlit("=>");
    reveal_strlit("  ");
    assert(all_printable(mark));
    assert(all_printable("  "@));
    lemma_dec_printable(i);
    assert(printable('0'));
    lemma_pad_left_printable(dec_nat(i), 4, '0');
    lemma_printable_add(mark, dec_padded(i, 4));
    lemma_printable_add(mark + dec_padded(i, 4), "  "@);
    lemma_instr_text_printable(code[i as int]);
    lemma_printable_add(mark + dec_padded(i, 4) + "  "@, instr_text(code[i as int]));
    assert(all_printable(row));
    assert forall|m: int| 0 <= m < row.len() implies #[trigger] row[m] != '\n' by {
        assert(printable(row[m]));
    }
    assert(printable(row[row.len() - 1]));
    lemma_one_line(row);
}

/// The rows of the window from `lo` up to `k`: one line per instruction.
proof fn lemma_window_rows(code: Seq<Instr>, pc: nat, lo: nat, k: nat)
    requires
        lo <= k <= code.len(),
    ensures
        window_lines(code, pc, lo, k).len() == 0 || window_lines(code, pc, lo, k).last() == '\n',
        lines(window_lines(code, pc, lo, k)).len() == k - lo,
        forall|j: int|
            0 <= j < k - lo ==> #[trigger] lines(window_lines(code, pc, lo, k))[j] == window_row(
                code,
                pc,
                (lo + j) as nat,
            ),
    decreases k,
{
    if k == lo {
        assert(lines(Seq::<char>::empty()) =~= Seq::<Seq<char>>::empty());
    } else {
        let i = (k - 1) as nat;
        lemma_window_rows(code, pc, lo, i);
        let prev = window_lines(code, pc, lo, i);
        let row = window_row(code, pc, i);
        lemma_window_row(code, pc, i);
        reveal_strlit("\n");
        assert(window_lines(code, pc, lo, k) =~= prev + (row + seq!['\n']));
        lemma_lines_append(prev, row + seq!['\n']);
        assert(lines(window_lines(code, pc, lo, k)) =~= lines(prev) + seq![row]);
    }
}

/// The disassembly window shows at most twelve instructions, starting four
/// before the program counter (or at the first): with `lo` that start, it
/// has `min(12, len - lo)` lines, and line `j` shows instruction `lo + j`,
/// marked `=>` where that is the program counter.
pub proof fn lemma_window_lines(s: MachineState)
    ensures
        ({
            let lo: int = if s.pc >= 4 {
                s.pc - 4
            } else {
                0
            };
            let n: int = if s.code.len() <= lo {
                0
            } else if s.code.len() - lo >= 12 {
                12
            } else {
                s.code.len() - lo
            };
            &&& lines(window_text(s)).len() == n
            &&& forall|j: int|
                0 <= j < n ==> #[trigger] lines(window_text(s))[j] == (if lo + j == s.pc {
                    "=>"@
                } else {
                    "  "@
                }) + pad_left(dec_nat((lo + j) as nat), 4, '0') + "  "@ + instr_text(
                    s.code[lo + j],
                )
        }),
{
    let lo = window_start(s.pc as nat);
    let hi = if lo + 12 <= s.code.len() {
        lo + 12
    } else {
        s.code.len() as nat
    };
    if lo <= hi {
        lemma_window_rows(s.code, s.pc as nat, lo, hi);
    } else {
        assert(window_text(s) =~= Seq::<char>::empty());
        lemma_window_rows(s.code, s.pc as nat, hi, hi);
    }
}

/// The state hash in sixteen hexadecimal digits.
pub open spec fn hash_text(s: MachineState) -> Seq<char> {
    pad_left(hex_nat(state_hash(s) as nat), 16, '0') + "\n"@
}

/// The command summary.
pub open spec fn help_text() -> Seq<char> {
    "s [n]   step n instructions\nc       continue to breakpoint/halt/trap\nr       registers\nm A N   dump N bytes at A\nb PC    toggle breakpoint\nd       disassemble around pc\nst      data stack + call stack\nhash    state hash\nq       quit\n"@
}

/// The greeting: the program's size, then where the machine stands.
pub open spec fn banner_text(code_len: nat, data_len: nat, s: MachineState) -> Seq<char> {
    "Halyard debugger \u{2014} "@ + dec_nat(code_len) + " instructions, "@ + dec_nat(data_len)
        + " data bytes. Type h for help.\n"@ + show_text(s)
}

fn push_dec_padded(out: &mut Vec<char>, n: u64, w: usize)
    ensures
        final(out)@ == old(out)@ + dec_padded(n as nat, w as nat),
{
    let mut d: Vec<char> = Vec::new();
    push_dec(&mut d, n);
    assert(d@ =~= dec_nat(n as nat));
    push_padded_left(out, &d, w, '0');
}

fn push_show(out: &mut Vec<char>, vm: &Vm)
    ensures
        final(out)@ == old(out)@ + show_text(vm@),
{
    let code = vm.code();
    push_dec_padded(out, vm.pc as u64, 4);
    if (vm.pc as usize) < code.len() {
        push_str(out, "  ");
        push_instr_text(out, code[vm.pc as usize]);
        push_str(out, "\n");
    } else {
        push_str(out, "  <end of code>\n");
    }
    assert(final(out)@ =~= old(out)@ + show_text(vm@));
}

fn push_option(out: &mut Vec<char>, h: Option<u32>)
    ensures
        final(out)@ == old(out)@ + option_text(h),
{
    match h {
        Some(x) => {
            push_str(out, "Some(");
            push_dec(out, x as u64);
            push_str(out, ")");
        },
        None => push_str(out, "None"),
    }
    assert(final(out)@ =~= old(out)@ + option_text(h));
}

fn push_list(out: &mut Vec<char>, xs: &Vec<i64>)
    ensures
        final(out)@ == old(out)@ + list_text(xs@.map_values(|x: i64| x as int)),
{
    let ghost parts = xs@.map_values(|x: i64| x as int).map_values(|x: int| dec_int(x));
    push_str(out, "[");
    let ghost base = out@;
    let mut k: usize = 0;
    while k < xs.len()
        invariant
            k <= xs@.len(),
            parts == xs@.map_values(|x: i64| x as int).map_values(|x: int| dec_int(x)),
            out@ == base + join(parts.subrange(0, k as int), ", "@),
        decreases xs@.len() - k,
    {
        proof {
            reveal_strlit(", ");
        }
        let ghost nxt = parts.subrange(0, k + 1);
        assert(nxt.drop_last() =~= parts.subrange(0, k as int));
        if k > 0 {
            push_str(out, ", ");
        }
        push_dec_i64(out, xs[k]);
        assert(nxt.last() == dec_int(xs@[k as int] as int));
        k = k + 1;
        if k == 1 {
            assert(out@ =~= base + join(nxt, ", "@));
        } else {
            assert(out@ =~= base + join(nxt, ", "@));
        }
    }
    assert(parts.subrange(0, k as int) =~= parts);
    push_str(out, "]");
    assert(final(out)@ =~= old(out)@ + list_text(xs@.map_values(|x: i64| x as int)));
}

fn push_list_u32(out: &mut Vec<char>, xs: &Vec<u32>)
    ensures
        final(out)@ == old(out)@ + list_text(xs@.map_values(|x: u32| x as int)),
{
    let mut wide: Vec<i64> = Vec::new();
    let mut k: usize = 0;
    while k < xs.len()
        invariant
            k <= xs@.len(),
            wide@.len() == k,
            forall|j: int| 0 <= j < k ==> wide@[j] as int == xs@[j] as int,
        decreases xs@.len() - k,
    {
        wide.push(xs[k] as i64);
        k = k + 1;
    }
    assert(wide@.map_values(|x: i64| x as int) =~= xs@.map_values(|x: u32| x as int));
    push_list(out, &wide);
}

fn push_regs(out: &mut Vec<char>, vm: &Vm)
    ensures
        final(out)@ == old(out)@ + regs_text(vm@),
{
    let ghost base = out@;
    let mut i: usize = 0;
    while i < 16
        invariant
            i <= 16,
            vm@.regs == vm.regs@,
            vm.regs@.len() == 16,
            out@ == base + reg_cells(vm.regs@, i as nat),
        decreases 16 - i,
    {
        let ghost prev = out@;
        push_str(out, "r");
        let mut d: Vec<char> = Vec::new();
        push_dec(&mut d, i as u64);
        push_padded_right(out, &d, 2);
        push_str(out, "=");
        let mut v: Vec<char> = Vec::new();
        push_dec_i64(&mut v, vm.regs[i]);
        push_padded_right(out, &v, 12);
        if i % 4 == 3 {
            push_str(out, "\n");
        }
        assert(out@ =~= base + reg_cells(vm.regs@, (i + 1) as nat));
        i = i + 1;
    }
    push_str(out, "pc=");
    push_dec(out, vm.pc as u64);
    push_str(out, " heap=");
    push_dec(out, vm.heap as u64);
    push_str(out, " handler=");
    push_option(out, vm.handler);
    push_str(out, " gas=");
    push_dec(out, vm.gas_used);
    push_str(out, "\n");
    assert(final(out)@ =~= old(out)@ + regs_text(vm@));
}

fn push_stacks(out: &mut Vec<char>, vm: &Vm)
    ensures
        final(out)@ == old(out)@ + stacks_text(vm@),
{
    push_str(out, "stack ");
    push_list(out, &vm.stack);
    push_str(out, "\ncalls ");
    push_list_u32(out, &vm.calls);
    push_str(out, "\n");
    assert(final(out)@ =~= old(out)@ + stacks_text(vm@));
}

#[verifier::spinoff_prover]
fn push_mem(out: &mut Vec<char>, vm: &Vm, a: usize, n: usize)
    requires
        a + n <= usize::MAX,
    ensures
        final(out)@ == old(out)@ + mem_text(vm@.mem, a as nat, n as nat),
{
    let len = vm.mem.len();
    let end = if a + n <= len { a + n } else { len };
    let start = if a <= end { a } else { end };
    let rows = (end - start) / 16 + if (end - start) % 16 == 0 { 0 } else { 1 };
    assert(rows == (end - start + 15) / 16);
    let ghost base = out@;
    let mut k: usize = 0;
    while k < rows
        invariant
            k <= rows,
            rows == (end - start + 15) / 16,
            start <= end <= len,
            len == vm@.mem.len(),
            end == dump_end(len as nat, a as nat, n as nat),
            start == dump_start(len as nat, a as nat, n as nat),
            start == a || start == end,
            out@ == base + dump_rows(vm@.mem, a as nat, start as nat, end as nat, k as nat),
        decreases rows - k,
    {
        let lo = start + 16 * k;
        let hi = if end - lo >= 16 { lo + 16 } else { end };
        let mut h: Vec<char> = Vec::new();
        push_hex(&mut h, (a + 16 * k) as u64);
        assert(h@ =~= hex_nat((a + 16 * k) as nat));
        push_padded_left(out, &h, 6, '0');
        push_str(out, "  ");
        push_dump_cells(out, &vm.mem, lo, hi);
        push_str(out, "\n");
        assert(out@ =~= base + dump_rows(vm@.mem, a as nat, start as nat, end as nat, (k + 1) as nat));
        k = k + 1;
    }
}

fn push_window(out: &mut Vec<char>, vm: &Vm)
    ensures
        final(out)@ == old(out)@ + window_text(vm@),
{
    let pc = vm.pc as usize;
    let lo = if pc >= 4 { pc - 4 } else { 0 };
    let len = vm.code.len();
    let hi = if lo <= len && len - lo >= 12 { lo + 12 } else { len };
    let ghost base = out@;
    let mut i = lo;
    if lo < hi {
        while i < hi
            invariant
                lo <= i <= hi,
                hi <= len,
                len == vm@.code.len(),
                pc == vm@.pc,
                out@ == base + window_lines(vm@.code, pc as nat, lo as nat, i as nat),
            decreases hi - i,
        {
            if i == pc {
                push_str(out, "=>");
            } else {
                push_str(out, "  ");
            }
            push_dec_padded(out, i as u64, 4);
            push_str(out, "  ");
            push_instr_text(out, vm.code[i]);
            push_str(out, "\n");
            assert(out@ =~= base + window_lines(vm@.code, pc as nat, lo as nat, (i + 1) as nat));
            i = i + 1;
        }
    } else {
        assert(out@ =~= base + window_lines(vm@.code, pc as nat, lo as nat, hi as nat));
    }
    assert(final(out)@ =~= old(out)@ + window_text(vm@));
}

fn push_hash(out: &mut Vec<char>, vm: &Vm)
    ensures
        final(out)@ == old(out)@ + hash_text(vm@),
{
    let h = vm.state_hash();
    let mut d: Vec<char> = Vec::new();
    push_hex(&mut d, h);
    assert(d@ =~= hex_nat(h as nat));
    push_padded_left(out, &d, 16, '0');
    push_str(out, "\n");
    assert(final(out)@ =~= old(out)@ + hash_text(vm@));
}

/// Up to `n` single steps, each answered as the oracle answers at the gas
/// count the step starts at; stepping ends once the machine stops, or when
/// its gas counter has no room left for another instruction.
pub open spec fn step_n(s: MachineState, n: nat, o: Oracle) -> MachineState
    decreases n,
{
    if n == 0 || s.status != Status::Running || s.gas_used > u64::MAX - 10 {
        s
    } else {
        step_n(step(s, o(s.gas_used)), (n - 1) as nat, o)
    }
}

/// Why continuing stopped.
pub enum Stop {
    /// The machine stopped: halted, trapped or out of gas.
    Stopped,
    /// It reached a breakpoint.
    Breakpoint,
    /// It used up the session's gas limit (or the gas counter's room).
    Limit,
}

/// Continuing: step until the machine stops, reaches a breakpoint or has
/// used `limit` gas, checking after each step; at least one step is taken
/// unless the gas counter has no room for it.
pub open spec fn cont(s: MachineState, breaks: Seq<u32>, limit: u64, o: Oracle) -> (
    MachineState,
    Stop,
)
    decreases if s.gas_used < limit {
        limit - s.gas_used
    } else {
        0
    },
{
    if s.status == Status::Running && s.gas_used > u64::MAX - 10 {
        (s, Stop::Limit)
    } else {
        let t = step(s, o(s.gas_used));
        if t.status != Status::Running {
            (t, Stop::Stopped)
        } else if breaks.contains(t.pc) {
            (t, Stop::Breakpoint)
        } else if t.gas_used >= limit {
            (t, Stop::Limit)
        } else {
            proof {
                lemma_step_frame(s, o(s.gas_used));
            }
            cont(t, breaks, limit, o)
        }
    }
}

/// Steps up to `n` instructions.
fn step_many(vm: &mut Vm, n: usize)
    requires
        old(vm)@.code.len() <= u32::MAX,
    ensures
        exists|o: Oracle|
            oracle_fits(o, old(vm)@.mem.len()) && final(vm)@ == #[trigger] step_n(
                old(vm)@,
                n as nat,
                o,
            ),
{
    let ghost s0 = vm@;
    let ghost g0 = s0.gas_used;
    let ghost len = s0.mem.len();
    let ghost mut o: Oracle = |g: u64| HostReply { mem: s0.mem, result: None };
    let mut k: usize = 0;
    while k < n
        invariant
            k <= n,
            vm@.code == s0.code,
            s0.code.len() <= u32::MAX,
            vm@.mem.len() == len,
            g0 <= vm@.gas_used,
            oracle_fits(o, len),
            forall|o2: Oracle|
                #[trigger] agree(o2, o, g0, vm@.gas_used) ==> step_n(s0, n as nat, o2) == step_n(
                    vm@,
                    (n - k) as nat,
                    o2,
                ),
        ensures
            forall|o2: Oracle| #[trigger] agree(o2, o, g0, vm@.gas_used) ==> step_n(s0, n as nat, o2) == vm@,
            oracle_fits(o, len),
        decreases n - k,
    {
        if vm.status != Status::Running || vm.gas_used > u64::MAX - 10 {
            break;
        }
        let ghost prev = vm@;
        let ghost g = vm.gas_used;
        proof {
            lemma_step_frame(prev, o(g));
        }
        vm.step();
        let ghost r = choose|r: HostReply|
            r.mem.len() == prev.mem.len() && vm@ == #[trigger] step(prev, r);
        proof {
            lemma_step_frame(prev, r);
            let on: Oracle = |x: u64| if x == g { r } else { o(x) };
            assert forall|o2: Oracle| #[trigger] agree(o2, on, g0, vm@.gas_used) implies step_n(
                s0,
                n as nat,
                o2,
            ) == step_n(vm@, (n - k - 1) as nat, o2) by {
                assert(agree(o2, o, g0, g)) by {
                    assert forall|x: u64| g0 <= x < g implies #[trigger] o2(x) == o(x) by {
                        assert(on(x) == o(x));
                    }
                }
                if calls_host(prev) {
                    assert(vm@.gas_used == g + 10);
                    assert(on(g) == r);
                    assert(o2(g) == r);
                } else {
                    lemma_step_without_host(prev, o2(g), r);
                }
            }
            o = on;
        }
        k = k + 1;
    }
    proof {
        assert(agree(o, o, g0, vm@.gas_used));
    }
}

fn has_break(breaks: &Vec<u32>, pc: u32) -> (r: bool)
    ensures
        r == breaks@.contains(pc),
{
    let mut k: usize = 0;
    while k < breaks.len()
        invariant
            k <= breaks@.len(),
            forall|j: int| 0 <= j < k ==> breaks@[j] != pc,
        decreases breaks@.len() - k,
    {
        if breaks[k] == pc {
            assert(breaks@[k as int] == pc);
            return true;
        }
        k = k + 1;
    }
    false
}

/// What continuing does after a step that led to `t`.
pub open spec fn after_step(t: MachineState, breaks: Seq<u32>, limit: u64, o: Oracle) -> (
    MachineState,
    Stop,
) {
    if t.status != Status::Running {
        (t, Stop::Stopped)
    } else if breaks.contains(t.pc) {
        (t, Stop::Breakpoint)
    } else if t.gas_used >= limit {
        (t, Stop::Limit)
    } else {
        cont(t, breaks, limit, o)
    }
}

proof fn lemma_cont_after_step(s: MachineState, r: HostReply, breaks: Seq<u32>, limit: u64, o: Oracle)
    requires
        s.status == Status::Running,
        s.gas_used <= u64::MAX - 10,
        o(s.gas_used) == r || !calls_host(s),
    ensures
        cont(s, breaks, limit, o) == after_step(step(s, r), breaks, limit, o),
{
    if !calls_host(s) {
        lemma_step_without_host(s, o(s.gas_used), r);
    }
}

/// The oracle that answers `r` at the gas count `prev` starts at and as
/// `o` elsewhere: continuing from `s0` under any oracle that agrees with it
/// ends as continuing after the step from `prev` to `step(prev, r)`.
proof fn lemma_cont_extend(
    s0: MachineState,
    breaks: Seq<u32>,
    limit: u64,
    o: Oracle,
    g0: u64,
    prev: MachineState,
    r: HostReply,
    len: nat,
) -> (on: Oracle)
    requires
        forall|o2: Oracle|
            #[trigger] agree(o2, o, g0, prev.gas_used) ==> cont(s0, breaks, limit, o2) == cont(
                prev,
                breaks,
                limit,
                o2,
            ),
        prev.status == Status::Running,
        prev.gas_used <= u64::MAX - 10,
        g0 <= prev.gas_used,
        oracle_fits(o, len),
        r.mem.len() == len,
    ensures
        oracle_fits(on, len),
        forall|o2: Oracle|
            #[trigger] agree(o2, on, g0, step(prev, r).gas_used) ==> cont(s0, breaks, limit, o2)
                == after_step(step(prev, r), breaks, limit, o2),
{
    let g = prev.gas_used;
    lemma_step_frame(prev, r);
    let on: Oracle = |x: u64| if x == g { r } else { o(x) };
    assert forall|o2: Oracle| #[trigger] agree(o2, on, g0, step(prev, r).gas_used) implies cont(
        s0,
        breaks,
        limit,
        o2,
    ) == after_step(step(prev, r), breaks, limit, o2) by {
        assert(agree(o2, o, g0, g)) by {
            assert forall|x: u64| g0 <= x < g implies #[trigger] o2(x) == o(x) by {
                assert(on(x) == o(x));
            }
        }
        if calls_host(prev) {
            assert(step(prev, r).gas_used == g + 10);
            assert(on(g) == r);
            assert(o2(g) == r);
        }
        lemma_cont_after_step(prev, r, breaks, limit, o2);
    }
    on
}

/// Steps until the machine stops, reaches a breakpoint or uses the limit.
fn continue_to(vm: &mut Vm, breaks: &Vec<u32>, limit: u64) -> (stop: Stop)
    requires
        old(vm)@.code.len() <= u32::MAX,
    ensures
        exists|o: Oracle|
            oracle_fits(o, old(vm)@.mem.len()) && (final(vm)@, stop) == #[trigger] cont(
                old(vm)@,
                breaks@,
                limit,
                o,
            ),
{
    let ghost s0 = vm@;
    let ghost g0 = s0.gas_used;
    let ghost len = s0.mem.len();
    let ghost mut o: Oracle = |g: u64| HostReply { mem: s0.mem, result: None };
    let mut stop = Stop::Stopped;
    loop
        invariant_except_break
            vm@.code == s0.code,
            s0.code.len() <= u32::MAX,
            vm@.mem.len() == len,
            g0 <= vm@.gas_used,
            oracle_fits(o, len),
            forall|o2: Oracle|
                #[trigger] agree(o2, o, g0, vm@.gas_used) ==> cont(s0, breaks@, limit, o2) == cont(
                    vm@,
                    breaks@,
                    limit,
                    o2,
                ),
        ensures
            oracle_fits(o, len),
            forall|o2: Oracle|
                #[trigger] agree(o2, o, g0, vm@.gas_used) ==> cont(s0, breaks@, limit, o2) == (
                    vm@,
                    stop,
                ),
        decreases if vm@.gas_used < limit {
            limit - vm@.gas_used
        } else {
            0
        },
    {
        if vm.status != Status::Running {
            stop = Stop::Stopped;
            break;
        }
        if vm.gas_used > u64::MAX - 10 {
            stop = Stop::Limit;
            break;
        }
        let ghost prev = vm@;
        vm.step();
        let ghost r = choose|r: HostReply|
            r.mem.len() == prev.mem.len() && vm@ == #[trigger] step(prev, r);
        proof {
            lemma_step_frame(prev, r);
            o = lemma_cont_extend(s0, breaks@, limit, o, g0, prev, r, len);
        }
        if vm.status != Status::Running {
            stop = Stop::Stopped;
            break;
        }
        if has_break(breaks, vm.pc) {
            stop = Stop::Breakpoint;
            break;
        }
        if vm.gas_used >= limit {
            stop = Stop::Limit;
            break;
        }
    }
    proof {
        assert(agree(o, o, g0, vm@.gas_used));
    }
    stop
}

/// Why continuing stopped, as the debugger says it.
pub open spec fn stop_text(t: MachineState, why: Stop, limit: u64) -> Seq<char> {
    match why {
        Stop::Stopped => "stopped: "@ + status_text(t.status) + " (gas "@ + dec_nat(
            t.gas_used as nat,
        ) + ")\n"@,
        Stop::Breakpoint => "breakpoint at "@ + dec_padded(t.pc as nat, 4) + "\n"@,
        Stop::Limit => "gas limit "@ + dec_nat(limit as nat) + " reached\n"@,
    }
}

/// Word `k` read as an unsigned number no greater than `hi`, if it is one.
pub open spec fn number_arg(ws: Seq<Seq<char>>, k: int, hi: int) -> Option<int> {
    if 0 <= k < ws.len() {
        std_parse(ws[k], 10, false, 0, hi)
    } else {
        None
    }
}

/// Word `k` read as a `usize`, or `d` when it is missing or not one.
pub open spec fn size_arg(ws: Seq<Seq<char>>, k: int, d: nat) -> nat {
    match number_arg(ws, k, usize::MAX as int) {
        Some(v) => v as nat,
        None => d,
    }
}

/// The first position of `x` in `s`.
pub open spec fn first_index(s: Seq<u32>, x: u32) -> int {
    choose|i: int| 0 <= i < s.len() && s[i] == x && forall|j: int| 0 <= j < i ==> s[j] != x
}

/// The command word of an input line: its first word, or nothing.
pub open spec fn command_word(line: Seq<char>) -> Seq<char> {
    let ws = words(line);
    if ws.len() > 0 {
        ws[0]
    } else {
        Seq::empty()
    }
}

/// Whether the command is a memory dump whose end address does not fit in
/// a `usize`.
pub open spec fn dump_overflows(line: Seq<char>) -> bool {
    let ws = words(line);
    let cmd = command_word(line);
    &&& command_of(cmd) == Command::Mem
    &&& size_arg(ws, 1, 0) + size_arg(ws, 2, 64) > usize::MAX
}

/// What one command does: the machine, the breakpoints, what is said,
/// and whether the session ends.
pub struct Outcome {
    pub state: MachineState,
    pub breaks: Seq<u32>,
    pub text: Seq<char>,
    pub quit: bool,
}

/// `s [n]`: up to `n` steps (one by default), then the gas, the status
/// and where the machine stands.
pub open spec fn step_outcome(s: MachineState, breaks: Seq<u32>, ws: Seq<Seq<char>>, o: Oracle) -> Outcome {
    let t = step_n(s, size_arg(ws, 1, 1), o);
    Outcome { state: t, breaks, text: step_report(t), quit: false }
}

/// What stepping reports: the gas used, the status and where the machine
/// stands.
pub open spec fn step_report(t: MachineState) -> Seq<char> {
    "gas "@ + dec_nat(t.gas_used as nat) + "  status "@ + status_text(t.status) + "\n"@
        + show_text(t)
}

/// `c`: continue, then why it stopped and where the machine stands.
pub open spec fn cont_outcome(s: MachineState, breaks: Seq<u32>, gas: u64, o: Oracle) -> Outcome {
    let (t, why) = cont(s, breaks, gas, o);
    Outcome { state: t, breaks, text: stop_text(t, why, gas) + show_text(t), quit: false }
}

/// `b PC`: the breakpoints with the one at `PC` toggled, and what is said.
pub open spec fn break_toggle(breaks: Seq<u32>, ws: Seq<Seq<char>>) -> (Seq<u32>, Seq<char>) {
    match number_arg(ws, 1, u32::MAX as int) {
        Some(v) => {
            let pc = v as u32;
            if breaks.contains(pc) {
                (
                    breaks.remove(first_index(breaks, pc)),
                    "breakpoint "@ + dec_nat(pc as nat) + " removed\n"@,
                )
            } else {
                (breaks.push(pc), "breakpoint "@ + dec_nat(pc as nat) + " set\n"@)
            }
        },
        None => (breaks, "usage: b PC\n"@),
    }
}

/// The debugger's commands, each with its long and short name.
pub enum Command {
    Empty,
    Quit,
    Help,
    Step,
    Continue,
    Regs,
    Mem,
    Break,
    Dis,
    Stacks,
    Hash,
    Unknown,
}

/// Which command a command word names.
pub open spec fn command_of(cmd: Seq<char>) -> Command {
    if cmd.len() == 0 {
        Command::Empty
    } else if cmd == "q"@ || cmd == "quit"@ {
        Command::Quit
    } else if cmd == "h"@ || cmd == "help"@ {
        Command::Help
    } else if cmd == "s"@ || cmd == "step"@ {
        Command::Step
    } else if cmd == "c"@ || cmd == "continue"@ {
        Command::Continue
    } else if cmd == "r"@ || cmd == "regs"@ {
        Command::Regs
    } else if cmd == "m"@ || cmd == "mem"@ {
        Command::Mem
    } else if cmd == "b"@ || cmd == "break"@ {
        Command::Break
    } else if cmd == "d"@ || cmd == "dis"@ {
        Command::Dis
    } else if cmd == "st"@ {
        Command::Stacks
    } else if cmd == "hash"@ {
        Command::Hash
    } else {
        Command::Unknown
    }
}

/// The outcome of the command `line` on machine `s` with breakpoints
/// `breaks` and gas limit `gas`, the host answering as `o` does.
pub open spec fn outcome(
    s: MachineState,
    breaks: Seq<u32>,
    gas: u64,
    line: Seq<char>,
    o: Oracle,
) -> Outcome {
    let ws = words(line);
    let cmd = command_word(line);
    let same = Outcome { state: s, breaks, text: Seq::empty(), quit: false };
    match command_of(cmd) {
        Command::Empty => same,
        Command::Quit => Outcome { quit: true, ..same },
        Command::Help => Outcome { text: help_text(), ..same },
        Command::Step => step_outcome(s, breaks, ws, o),
        Command::Continue => cont_outcome(s, breaks, gas, o),
        Command::Regs => Outcome { text: regs_text(s), ..same },
        Command::Mem => Outcome {
            text: mem_text(s.mem, size_arg(ws, 1, 0), size_arg(ws, 2, 64)),
            ..same
        },
        Command::Break => {
            let (nb, text) = break_toggle(breaks, ws);
            Outcome { breaks: nb, text, ..same }
        },
        Command::Dis => Outcome { text: window_text(s), ..same },
        Command::Stacks => Outcome { text: stacks_text(s), ..same },
        Command::Hash => Outcome { text: hash_text(s), ..same },
        Command::Unknown => Outcome { text: "unknown command "@ + cmd + " (h for help)\n"@, ..same },
    }
}

fn command_kind(cmd: &Vec<char>) -> (k: Command)
    ensures
        k == command_of(cmd@),
{
    if cmd.len() == 0 {
        Command::Empty
    } else if chars_eq(cmd, "q") || chars_eq(cmd, "quit") {
        Command::Quit
    } else if chars_eq(cmd, "h") || chars_eq(cmd, "help") {
        Command::Help
    } else if chars_eq(cmd, "s") || chars_eq(cmd, "step") {
        Command::Step
    } else if chars_eq(cmd, "c") || chars_eq(cmd, "continue") {
        Command::Continue
    } else if chars_eq(cmd, "r") || chars_eq(cmd, "regs") {
        Command::Regs
    } else if chars_eq(cmd, "m") || chars_eq(cmd, "mem") {
        Command::Mem
    } else if chars_eq(cmd, "b") || chars_eq(cmd, "break") {
        Command::Break
    } else if chars_eq(cmd, "d") || chars_eq(cmd, "dis") {
        Command::Dis
    } else if chars_eq(cmd, "st") {
        Command::Stacks
    } else if chars_eq(cmd, "hash") {
        Command::Hash
    } else {
        Command::Unknown
    }
}

/// A debugging session: the breakpoints set so far, and the gas limit at
/// which continuing stops.
pub struct Debugger {
    pub breaks: Vec<u32>,
    pub gas: u64,
}

/// The answer to one command: what to print, and whether to stop reading
/// commands.
pub struct Reply {
    pub text: String,
    pub quit: bool,
}

fn size_arg_exec(ws: &Vec<Vec<char>>, k: usize, d: usize) -> (r: usize)
    ensures
        r == size_arg(ws@.map_values(|w: Vec<char>| w@), k as int, d as nat),
{
    let ghost wv = ws@.map_values(|w: Vec<char>| w@);
    if k < ws.len() {
        assert(wv[k as int] == ws@[k as int]@);
        match parse_unsigned(&ws[k], usize::MAX as u64) {
            Some(v) => v as usize,
            None => d,
        }
    } else {
        d
    }
}

fn step_command(vm: &mut Vm, n: usize) -> (text: Vec<char>)
    requires
        old(vm)@.code.len() <= u32::MAX,
    ensures
        exists|o: Oracle|
            oracle_fits(o, old(vm)@.mem.len()) && final(vm)@ == #[trigger] step_n(
                old(vm)@,
                n as nat,
                o,
            ),
        text@ == step_report(final(vm)@),
{
    step_many(vm, n);
    let mut out: Vec<char> = Vec::new();
    push_str(&mut out, "gas ");
    push_dec(&mut out, vm.gas_used);
    push_str(&mut out, "  status ");
    push_status_text(&mut out, vm.status);
    push_str(&mut out, "\n");
    push_show(&mut out, vm);
    assert(out@ =~= step_report(vm@));
    out
}

fn continue_command(vm: &mut Vm, breaks: &Vec<u32>, gas: u64) -> (text: Vec<char>)
    requires
        old(vm)@.code.len() <= u32::MAX,
    ensures
        exists|o: Oracle|
            oracle_fits(o, old(vm)@.mem.len()) && {
                let out = #[trigger] cont_outcome(old(vm)@, breaks@, gas, o);
                final(vm)@ == out.state && text@ == out.text
            },
{
    let ghost s0 = vm@;
    let why = continue_to(vm, breaks, gas);
    let ghost o = choose|o: Oracle|
        oracle_fits(o, s0.mem.len()) && (vm@, why) == #[trigger] cont(s0, breaks@, gas, o);
    let mut out: Vec<char> = Vec::new();
    match why {
        Stop::Stopped => {
            push_str(&mut out, "stopped: ");
            push_status_text(&mut out, vm.status);
            push_str(&mut out, " (gas ");
            push_dec(&mut out, vm.gas_used);
            push_str(&mut out, ")\n");
        },
        Stop::Breakpoint => {
            push_str(&mut out, "breakpoint at ");
            push_dec_padded(&mut out, vm.pc as u64, 4);
            push_str(&mut out, "\n");
        },
        Stop::Limit => {
            push_str(&mut out, "gas limit ");
            push_dec(&mut out, gas);
            push_str(&mut out, " reached\n");
        },
    }
    assert(out@ =~= stop_text(vm@, why, gas));
    push_show(&mut out, vm);
    assert(cont_outcome(s0, breaks@, gas, o).text =~= out@);
    out
}

impl Debugger {
    fn break_command(&mut self, ws: &Vec<Vec<char>>) -> (text: Vec<char>)
        ensures
            (final(self).breaks@, text@) == break_toggle(
                old(self).breaks@,
                ws@.map_values(|w: Vec<char>| w@),
            ),
            final(self).gas == old(self).gas,
    {
        let ghost wv = ws@.map_values(|w: Vec<char>| w@);
        let ghost b0 = self.breaks@;
        let mut out: Vec<char> = Vec::new();
        let arg = if ws.len() > 1 {
            assert(wv[1] == ws@[1]@);
            parse_unsigned(&ws[1], u32::MAX as u64)
        } else {
            None
        };
        match arg {
            Some(v) => {
                let pc = v as u32;
                let mut k: usize = 0;
                while k < self.breaks.len() && self.breaks[k] != pc
                    invariant
                        k <= self.breaks@.len(),
                        self.breaks@ == b0,
                        forall|j: int| 0 <= j < k ==> b0[j] != pc,
                    decreases self.breaks@.len() - k,
                {
                    k = k + 1;
                }
                if k < self.breaks.len() {
                    assert(b0[k as int] == pc);
                    assert(b0.contains(pc));
                    assert(first_index(b0, pc) == k) by {
                        let i = first_index(b0, pc);
                        assert(0 <= k < b0.len() && b0[k as int] == pc && forall|j: int|
                            0 <= j < k ==> b0[j] != pc);
                        if i < k {
                            assert(b0[i] != pc);
                        }
                    }
                    self.breaks.remove(k);
                    push_str(&mut out, "breakpoint ");
                    push_dec(&mut out, pc as u64);
                    push_str(&mut out, " removed\n");
                } else {
                    assert(!b0.contains(pc));
                    self.breaks.push(pc);
                    push_str(&mut out, "breakpoint ");
                    push_dec(&mut out, pc as u64);
                    push_str(&mut out, " set\n");
                }
            },
            None => {
                push_str(&mut out, "usage: b PC\n");
            },
        }
        assert(out@ =~= break_toggle(b0, wv).1);
        out
    }
}

impl Debugger {
    /// A session with no breakpoints that stops continuing at `gas`.
    pub fn new(gas: u64) -> (d: Debugger)
        ensures
            d.breaks@ == Seq::<u32>::empty(),
            d.gas == gas,
    {
        Debugger { breaks: Vec::new(), gas }
    }

    /// The greeting for a session on `vm`, loaded from `prog`.
    pub fn banner(prog: &Program, vm: &Vm) -> (r: String)
        ensures
            r@ == banner_text(prog.code@.len(), prog.data@.len(), vm@),
    {
        let mut out: Vec<char> = Vec::new();
        push_str(&mut out, "Halyard debugger \u{2014} ");
        push_dec(&mut out, prog.code.len() as u64);
        push_str(&mut out, " instructions, ");
        push_dec(&mut out, prog.data.len() as u64);
        push_str(&mut out, " data bytes. Type h for help.\n");
        push_show(&mut out, vm);
        assert(out@ =~= banner_text(prog.code@.len(), prog.data@.len(), vm@));
        string_of(&out)
    }

    /// Whether `line` asks for a memory dump whose end address overflows;
    /// such a command is refused by `command`.
    pub fn dump_overflows(line: &str) -> (r: bool)
        ensures
            r == dump_overflows(line@),
    {
        let chars = chars_of(line);
        let ws = split_words(&chars);
        let ghost wv = ws@.map_values(|w: Vec<char>| w@);
        if ws.len() == 0 {
            return false;
        }
        assert(wv[0] == ws@[0]@);
        match command_kind(&ws[0]) {
            Command::Mem => {},
            _ => {
                return false;
            },
        }
        let a = size_arg_exec(&ws, 1, 0);
        let n = size_arg_exec(&ws, 2, 64);
        a > usize::MAX - n
    }

    /// Carries out one command line: steps or continues the machine,
    /// toggles a breakpoint, or describes the machine. The machine and the
    /// breakpoints end as `outcome` says, for the answers the host gave,
    /// and the reply holds its text and whether the session ends.
    pub fn command(&mut self, vm: &mut Vm, line: &str) -> (r: Reply)
        requires
            old(vm)@.code.len() <= u32::MAX,
            !dump_overflows(line@),
        ensures
            exists|o: Oracle|
                oracle_fits(o, old(vm)@.mem.len()) && {
                    let out = #[trigger] outcome(old(vm)@, old(self).breaks@, old(self).gas, line@, o);
                    &&& final(vm)@ == out.state
                    &&& final(self).breaks@ == out.breaks
                    &&& r.text@ == out.text
                    &&& r.quit == out.quit
                },
            final(self).gas == old(self).gas,
    {
        let ghost s0 = vm@;
        let ghost b0 = self.breaks@;
        let ghost idle: Oracle = |g: u64| HostReply { mem: s0.mem, result: None };
        let chars = chars_of(line);
        let ws = split_words(&chars);
        let ghost wv = ws@.map_values(|w: Vec<char>| w@);
        assert(wv == words(line@));
        let kind = if ws.len() == 0 {
            assert(command_word(line@) =~= Seq::<char>::empty());
            Command::Empty
        } else {
            assert(wv[0] == ws@[0]@);
            command_kind(&ws[0])
        };
        assert(kind == command_of(command_word(line@)));
        let mut out: Vec<char> = Vec::new();
        let mut quit = false;
        let ghost mut o: Oracle = idle;
        match kind {
            Command::Empty => {},
            Command::Quit => {
                quit = true;
            },
            Command::Help => {
                push_str(&mut out, "s [n]   step n instructions\nc       continue to breakpoint/halt/trap\nr       registers\nm A N   dump N bytes at A\nb PC    toggle breakpoint\nd       disassemble around pc\nst      data stack + call stack\nhash    state hash\nq       quit\n");
            },
            Command::Step => {
                let n = size_arg_exec(&ws, 1, 1);
                out = step_command(vm, n);
                proof {
                    o = choose|o: Oracle|
                        oracle_fits(o, s0.mem.len()) && vm@ == #[trigger] step_n(s0, n as nat, o);
                }
            },
            Command::Continue => {
                out = continue_command(vm, &self.breaks, self.gas);
                proof {
                    o = choose|o: Oracle|
                        oracle_fits(o, s0.mem.len()) && {
                            let c = #[trigger] cont_outcome(s0, b0, self.gas, o);
                            vm@ == c.state && out@ == c.text
                        };
                }
            },
            Command::Regs => {
                push_regs(&mut out, vm);
            },
            Command::Mem => {
                let a = size_arg_exec(&ws, 1, 0);
                let n = size_arg_exec(&ws, 2, 64);
                push_mem(&mut out, vm, a, n);
            },
            Command::Break => {
                out = self.break_command(&ws);
            },
            Command::Dis => {
                push_window(&mut out, vm);
            },
            Command::Stacks => {
                push_stacks(&mut out, vm);
            },
            Command::Hash => {
                push_hash(&mut out, vm);
            },
            Command::Unknown => {
                push_str(&mut out, "unknown command ");
                push_all(&mut out, &ws[0]);
                push_str(&mut out, " (h for help)\n");
            },
        }
        proof {
            let want = outcome(s0, b0, self.gas, line@, o);
            assert(want.text =~= out@);
        }
        Reply { text: string_of(&out), quit }
    }
}

} // verus!
