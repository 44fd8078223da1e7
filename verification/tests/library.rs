//! Scenarios for the library's contracts: encodings, names, error messages,
//! listings, snapshots and the machine's laws on concrete programs.

use std::cell::RefCell;
use std::rc::Rc;

use halyard::assembler::{self, AsmError};
use halyard::{Cap, Config, Instr, Op, Program, Status, Vm, sys, trap};

fn err(src: &str) -> AsmError {
    assembler::assemble(src).unwrap_err()
}

#[test]
fn instruction_encoding_round_trips_both_ways() {
    let i = Instr::new(Op::Muli, 15, 0, 7, i32::MIN);
    assert_eq!(i.op, 37);
    assert_eq!(i.to_bytes(), [37, 15, 0, 7, 0, 0, 0, 0x80]);
    assert_eq!(Instr::from_bytes(i.to_bytes()), i);
    let raw = [250, 1, 2, 3, 4, 5, 6, 7];
    assert_eq!(Instr::from_bytes(raw).to_bytes(), raw);
    assert_eq!(Instr::from_bytes(raw).imm, 0x0706_0504);
}

#[test]
fn program_files_round_trip_and_report_each_error() {
    let p = Program {
        code: vec![Instr::new(Op::Halt, 0, 0, 0, 0), Instr::new(Op::Addi, 1, 2, 0, -3)],
        data: b"xyz".to_vec(),
    };
    let b = p.to_bytes();
    assert_eq!(&b[..16], &[72, 76, 89, 68, 1, 0, 0, 0, 2, 0, 0, 0, 3, 0, 0, 0]);
    assert_eq!(b.len(), 16 + 16 + 3);
    assert_eq!(Program::from_bytes(&b).unwrap(), p);
    assert_eq!(Program::from_bytes(&b).unwrap().to_bytes(), b);
    assert_eq!(
        Program::from_bytes(&b[..10]).unwrap_err(),
        "not a Halyard program (bad magic)"
    );
    let mut v = b.clone();
    v[4] = 2;
    assert_eq!(Program::from_bytes(&v).unwrap_err(), "unsupported program version 2");
    assert_eq!(
        Program::from_bytes(&b[..b.len() - 1]).unwrap_err(),
        "truncated program: expected 35 bytes, got 34"
    );
    let empty = Program::default();
    assert_eq!(Program::from_bytes(&empty.to_bytes()).unwrap(), empty);
}

#[test]
fn names_of_operations_syscalls_traps_and_statuses() {
    assert_eq!(Op::from_u8(19), Some(Op::Jlt));
    assert_eq!(Op::from_u8(38), None);
    assert_eq!(Op::Jlt.code(), 19);
    assert_eq!(Op::Alloc.mnemonic(), "alloc");
    assert_eq!(Op::Jlt.shape(), "abi");
    assert_eq!(Op::from_mnemonic("muli"), Some(Op::Muli));
    assert_eq!(Op::from_mnemonic("MULI"), None);
    assert_eq!(sys::name(sys::EMIT), Some("emit"));
    assert_eq!(sys::name(9), None);
    assert_eq!(sys::from_name("read"), Some(sys::READ));
    assert_eq!(sys::from_name("Read"), None);
    assert_eq!(trap::name(trap::BAD_JUMP), "jump target out of range");
    assert_eq!(trap::name(40), "user trap 40");
    assert_eq!(trap::name(-12), "user trap -12");
    assert_eq!(Status::Trapped(trap::OOM).describe(), "trapped: out of memory");
    assert_eq!(Status::OutOfGas.describe(), "out of gas");
    assert_eq!(Status::Halted.describe(), "halted");
    assert_eq!(Status::Running.describe(), "running");
}

#[test]
fn instructions_are_formatted_as_the_assembler_reads_them() {
    assert_eq!(assembler::format_instr(Instr::new(Op::Jlt, 3, 2, 0, -7)), "jlt r3, r2, -7");
    assert_eq!(assembler::format_instr(Instr::new(Op::Sys, 0, 0, 0, 1)), "sys write");
    assert_eq!(assembler::format_instr(Instr::new(Op::Sys, 0, 0, 0, 77)), "sys 77");
    assert_eq!(assembler::format_instr(Instr::new(Op::Ret, 9, 9, 9, 9)), "ret");
    assert_eq!(assembler::format_instr(Instr::new(Op::Add, 1, 2, 15, 0)), "add r1, r2, r15");
    let bad = Instr { op: 250, a: 0, b: 0, c: 0, imm: 0 };
    assert_eq!(assembler::format_instr(bad), "??? 0xfa");
    let bad = Instr { op: 40, a: 0, b: 0, c: 0, imm: 0 };
    assert_eq!(assembler::format_instr(bad), "??? 0x28");
}

#[test]
fn listing_numbers_code_and_dumps_data() {
    let p = assembler::assemble(".data s \"AB\\x01\"\nmovi r1, s\n halt").unwrap();
    let text = assembler::disassemble(&p);
    let dump = format!("; 0000  {:<48} AB.\n", "41 42 01");
    assert_eq!(
        text,
        format!("0000  movi r1, 0\n0001  halt\n; data (3 bytes)\n{dump}")
    );
    let long = Program { code: vec![], data: (0u8..20).collect() };
    let text = assembler::disassemble(&long);
    assert!(text.starts_with("; data (20 bytes)\n; 0000  00 01 02"));
    assert!(text.contains("\n; 0010  10 11 12 13"));
    assert_eq!(assembler::disassemble(&Program::default()), "");
}

#[test]
fn every_assembler_error_has_its_message_and_line() {
    assert_eq!(err("nop\n.data x").msg, "expected `.data name value`");
    assert_eq!(err("nop\n.data x").line, 2);
    assert_eq!(err(".word w 1.5").msg, "bad integer 1.5");
    assert_eq!(err(".data d -3").msg, "negative reservation");
    assert_eq!(err(".data d abc").msg, "bad .data value abc");
    assert_eq!(err("a b:").msg, "bad label \"a b\"");
    assert_eq!(err(":").msg, "bad label \"\"");
    assert_eq!(err("\n\nFROB r1").msg, "unknown instruction FROB");
    assert_eq!(err("\n\nFROB r1").line, 3);
    assert_eq!(err("add r1, r2").msg, "add takes 3 operand(s), got 2");
    assert_eq!(err("push 3").msg, "operand 1 of push must be a register, got 3");
    assert_eq!(err("movi r1, -2147483649").msg, "immediate -2147483649 does not fit in 32 bits");
    assert_eq!(err("jmp r3").msg, "jmp expects an immediate or label, got register r3");
    assert_eq!(err("nop\njmp there\nnop").msg, "undefined label there");
    assert_eq!(err("nop\njmp there\nnop").line, 2);
    assert_eq!(err("x:\n.data x 1").msg, "duplicate label x");
    assert_eq!(err(".data s \"a\\qb\"").msg, "bad escape \\q");
    assert_eq!(err(".data s \"ab\\\"").msg, "bad escape \\ ");
    assert_eq!(err(".data s \"\\x4\"").msg, "bad \\x escape");
}

#[test]
fn sources_are_read_line_by_line_with_unicode_and_escapes() {
    let p = assembler::assemble("été:\r\n  MOVI r1, été ; comment\r\n.data s \"é\\t\\0\\\\\\\"\\x7e\"\n").unwrap();
    assert_eq!(p.code, vec![Instr::new(Op::Movi, 1, 0, 0, 0)]);
    assert_eq!(p.data, vec![0xc3, 0xa9, 9, 0, b'\\', b'"', 0x7e]);
    let p = assembler::assemble("sys 4\n sys host\n movi r2, 0x+10\n movi r3, --5\n movi r4, r+3").unwrap_err();
    assert_eq!(p.msg, "movi expects an immediate or label, got register r+3");
    let p = assembler::assemble("sys 4\n sys host\n movi r2, 0x+10\n movi r3, --5").unwrap();
    assert_eq!(p.code.iter().map(|i| i.imm).collect::<Vec<_>>(), vec![4, 4, 16, 5]);
}

#[test]
fn gas_is_charged_per_instruction_and_the_limit_is_only_overshot_by_one_step() {
    let p = assembler::assemble("loop:\n mul r1, r1, r1\n jmp loop").unwrap();
    let mut vm = Vm::new(&p, Config::default());
    assert_eq!(vm.run(5), Status::OutOfGas);
    assert_eq!(vm.gas_used, 7);
    let mut vm = Vm::new(&p, Config::default());
    assert_eq!(vm.step(), Status::Running);
    assert_eq!(vm.gas_used, 3);
    assert_eq!(vm.pc, 1);
}

#[test]
fn resuming_after_running_out_of_gas_matches_one_long_run() {
    let src = "movi r1, 0\n movi r2, 500\nloop:\n addi r1, r1, 1\n jlt r1, r2, loop\n sys ticks\n halt";
    let p = assembler::assemble(src).unwrap();
    let mut whole = Vm::new(&p, Config::default());
    assert_eq!(whole.run(10_000), Status::Halted);
    let mut part = Vm::new(&p, Config::default());
    assert_eq!(part.run(101), Status::OutOfGas);
    assert_eq!(part.resume(9_899), Status::Halted);
    assert_eq!(part.state_hash(), whole.state_hash());
    assert_eq!(part.regs, whole.regs);
}

#[test]
fn snapshots_restore_everything_they_hold_and_reject_what_does_not_fit() {
    let p = assembler::assemble(
        ".data m \"hey\"\n seth h\n movi r1, m\n movi r2, 3\n sys write\n push r2\n call f\n halt\nf:\n trap 50\nh:\n halt",
    )
    .unwrap();
    let mut a = Vm::new(&p, Config { caps: vec![Cap::Output, Cap::Emit], ..Default::default() });
    assert_eq!(a.run(17), Status::OutOfGas);
    assert_eq!((a.stack.len(), a.calls.len()), (1, 1));
    let snap = a.snapshot();
    assert_eq!(&snap[..4], b"HSNP");
    let mut b = Vm::new(&p, Config::default());
    b.restore(&snap).unwrap();
    assert_eq!(b.state_hash(), a.state_hash());
    assert_eq!((b.regs, b.pc, b.heap, b.handler, b.gas_used), (a.regs, a.pc, a.heap, a.handler, a.gas_used));
    assert_eq!((&b.stack, &b.calls, &b.output, b.status), (&a.stack, &a.calls, &a.output, a.status));
    let tiny = assembler::assemble("nop").unwrap();
    let mut c = Vm::new(&tiny, Config::default());
    let before = c.state_hash();
    assert_eq!(c.restore(&snap).unwrap_err(), "snapshot does not match this program");
    assert_eq!(c.state_hash(), before);
    assert_eq!(c.restore(b"HSN").unwrap_err(), "truncated snapshot");
    assert_eq!(c.restore(b"HSNQ").unwrap_err(), "not a Halyard snapshot");
    assert_eq!(c.restore(&snap[..snap.len() - 1]).unwrap_err(), "truncated snapshot");
    let mut t = Vm::new(&p, Config::default());
    t.status = Status::Trapped(77);
    let mut u = Vm::new(&p, Config::default());
    u.restore(&t.snapshot()).unwrap();
    assert_eq!(u.status, Status::Trapped(77));
}

#[test]
fn runs_without_host_access_are_deterministic_and_host_results_land_in_r0() {
    let p = assembler::assemble("sys rand\n mov r1, r0\n sys rand\n halt").unwrap();
    let mut a = Vm::new(&p, Config { seed: 5, ..Default::default() });
    let mut b = Vm::new(&p, Config { seed: 5, ..Default::default() });
    a.run(100);
    b.run(100);
    assert_eq!(a.state_hash(), b.state_hash());
    assert!(a.regs[0] >= 0 && a.regs[1] >= 0 && a.regs[0] != a.regs[1]);
    let h = assembler::assemble("movi r0, 3\n movi r1, 5\n sys host\n halt").unwrap();
    let mut vm = Vm::new(&h, Config { caps: vec![Cap::Host(3)], ..Default::default() });
    vm.register_host(3, Box::new(|m: &mut [u8], a: [i64; 3]| {
        m[1] = 9;
        Ok(a[0] * 10)
    }));
    assert_eq!(vm.run(100), Status::Halted);
    assert_eq!(vm.regs[0], 50);
    assert_eq!(vm.mem[1], 9);
    assert_eq!(vm.mem.len(), 64 * 1024);
}

#[test]
fn a_new_machine_holds_its_data_and_aligns_its_heap() {
    let p = Program { code: vec![], data: vec![1, 2, 3, 4, 5, 6, 7, 8, 9] };
    let vm = Vm::new(&p, Config { memory_size: 4, ..Default::default() });
    assert_eq!(vm.mem, vec![1, 2, 3, 4, 5, 6, 7, 8, 9]);
    assert_eq!(vm.heap, 16);
    assert_eq!(vm.status, Status::Running);
    assert_eq!(vm.regs, [0; 16]);
    let cfg = Config::default();
    assert_eq!((cfg.memory_size, cfg.max_stack, cfg.max_call_depth), (65536, 1024, 256));
    assert_eq!(cfg.caps, vec![Cap::Output]);
}

#[test]
fn handlers_are_one_shot_and_out_of_range_handlers_do_not_catch() {
    let p = assembler::assemble("seth 99\n trap 33").unwrap();
    let mut vm = Vm::new(&p, Config::default());
    assert_eq!(vm.run(100), Status::Trapped(33));
    assert_eq!(vm.handler, None);
    let p = assembler::assemble("trap 33").unwrap();
    let mut vm = Vm::new(&p, Config::default());
    vm.handler = Some(7);
    assert_eq!(vm.run(100), Status::Trapped(33));
    assert_eq!(vm.handler, Some(7));
}

#[test]
fn division_edge_cases_wrap_like_the_hardware_would_not() {
    let vm = {
        let p = assembler::assemble(
            "movi r1, 1\n movi r2, 63\n shl r1, r1, r2\n movi r3, -1\n div r4, r1, r3\n mod r5, r1, r3\n neg r6, r1\n cmp r7, r3, r1\n halt",
        )
        .unwrap();
        let mut vm = Vm::new(&p, Config::default());
        vm.run(1000);
        vm
    };
    assert_eq!(vm.regs[1], i64::MIN);
    assert_eq!(vm.regs[4], i64::MIN);
    assert_eq!(vm.regs[5], 0);
    assert_eq!(vm.regs[6], i64::MIN);
    assert_eq!(vm.regs[7], 1);
}

#[test]
fn every_assembled_instruction_reassembles_from_its_text() {
    let src = "start:\n nop\n movi r15, -2147483648\n mov r0, r1\n sub r1, r2, r3\n addi r4, r5, 2147483647\n jmp start\n jz r1, 0\n jne r2, r3, -1\n ld r6, r7, -8\n stb r8, r9, 255\n push r10\n pop r11\n call start\n ret\n alloc r12, r13\n sys 4\n sys 99\n sys -3\n trap 'A'\n seth 0x10\n not r14, r15\n neg r0, r0\n muli r1, r2, -7\n cmp r3, r4, r5\n halt";
    let p = assembler::assemble(src).unwrap();
    let text: String = p
        .code
        .iter()
        .map(|i| assembler::format_instr(*i) + "\n")
        .collect();
    assert!(text.contains("sys host\n"));
    assert!(text.contains("sys 99\n"));
    assert!(text.contains("trap 65\n"));
    let again = assembler::assemble(&text).unwrap();
    assert_eq!(again.code, p.code);
    assert!(again.data.is_empty());
}

#[test]
fn instructions_the_assembler_cannot_make_do_not_reassemble_the_same() {
    let odd = Instr { op: Op::Halt as u8, a: 3, b: 0, c: 0, imm: 0 };
    assert_eq!(assembler::format_instr(odd), "halt");
    let again = assembler::assemble(&assembler::format_instr(odd)).unwrap();
    assert_ne!(again.code[0], odd);
    let unknown = Instr { op: 200, a: 0, b: 0, c: 0, imm: 0 };
    assert!(assembler::assemble(&assembler::format_instr(unknown)).is_err());
}

#[test]
fn an_unbounded_budget_runs_to_completion_and_stepping_matches_running() {
    let p = assembler::assemble("movi r1, 0\n movi r2, 50\nl:\n addi r1, r1, 1\n jlt r1, r2, l\n halt").unwrap();
    let mut a = Vm::new(&p, Config { trace: true, ..Config::default() });
    assert_eq!(a.run(u64::MAX), Status::Halted);
    let mut b = Vm::new(&p, Config { trace: true, ..Config::default() });
    while b.step() == Status::Running {}
    assert_eq!(b.trace, a.trace);
    assert_eq!(b.gas_used, a.gas_used);
    assert_eq!(b.state_hash(), a.state_hash());
    assert_eq!(b.step(), Status::Halted);
    assert_eq!(b.state_hash(), a.state_hash());
}

#[test]
fn a_host_function_is_called_once_with_r1_r2_r3_and_the_machine_memory() {
    let h = assembler::assemble(".data d \"Q\"\n movi r0, 4\n movi r1, 11\n movi r2, 22\n movi r3, 33\n sys host\n halt").unwrap();
    let seen: Rc<RefCell<Vec<([i64; 3], u8, usize)>>> = Rc::new(RefCell::new(Vec::new()));
    let log = seen.clone();
    let mut vm = Vm::new(&h, Config { caps: vec![Cap::Host(4)], memory_size: 32, ..Default::default() });
    vm.register_host(4, Box::new(move |m: &mut [u8], a: [i64; 3]| {
        log.borrow_mut().push((a, m[0], m.len()));
        Ok(a[2] - a[0])
    }));
    assert_eq!(vm.run(100), Status::Halted);
    assert_eq!(*seen.borrow(), vec![([11, 22, 33], b'Q', 32)]);
    assert_eq!(vm.regs[0], 22);
}

#[test]
fn accessors_read_the_machine_and_registration_replaces() {
    let h = assembler::assemble("movi r0, 2\n movi r1, 7\n push r1\n sys host\n halt").unwrap();
    let mut vm = Vm::new(&h, Config { caps: vec![Cap::Host(2)], ..Default::default() });
    vm.register_host(2, Box::new(|_: &mut [u8], _: [i64; 3]| Ok(1)));
    vm.register_host(2, Box::new(|_: &mut [u8], a: [i64; 3]| Ok(a[0] + 100)));
    assert_eq!(vm.run(100), Status::Halted);
    assert_eq!(vm.status(), Status::Halted);
    assert_eq!(vm.regs()[0], 107);
    assert_eq!(vm.regs()[1], 7);
    assert_eq!(vm.pc(), 5);
    assert_eq!(vm.stack(), &vec![7]);
    assert!(vm.calls().is_empty());
    assert_eq!(vm.heap(), 0);
    assert_eq!(vm.handler(), None);
    assert_eq!(vm.gas_used(), vm.gas_used);
    assert_eq!(vm.mem().len(), 64 * 1024);
    assert!(vm.output().is_empty() && vm.events().is_empty() && vm.trace().is_empty());
}
