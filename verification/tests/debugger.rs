//! The debugger's commands on a small program, answer by answer.

use halyard::assembler;
use halyard::vm::debugger::Debugger;
use halyard::{Config, Program, Status, Vm};

fn program() -> Program {
    assembler::assemble(
        ".data msg \"AB\"\n movi r1, 3\n movi r2, 0\nl:\n addi r2, r2, 1\n jlt r2, r1, l\n push r1\n halt",
    )
    .unwrap()
}

fn say(d: &mut Debugger, vm: &mut Vm, line: &str) -> String {
    let r = d.command(vm, line);
    assert!(!r.quit);
    r.text
}

#[test]
fn the_banner_names_the_program_and_the_first_instruction() {
    let p = program();
    let vm = Vm::new(&p, Config::default());
    assert_eq!(
        Debugger::banner(&p, &vm),
        "Halyard debugger \u{2014} 6 instructions, 2 data bytes. Type h for help.\n0000  movi r1, 3\n"
    );
}

#[test]
fn stepping_breakpoints_and_continuing() {
    let p = program();
    let mut vm = Vm::new(&p, Config::default());
    let mut d = Debugger::new(10_000_000);
    assert_eq!(say(&mut d, &mut vm, "s\n"), "gas 1  status running\n0001  movi r2, 0\n");
    assert_eq!(say(&mut d, &mut vm, "b 3"), "breakpoint 3 set\n");
    assert_eq!(d.breaks, vec![3]);
    assert_eq!(say(&mut d, &mut vm, "  continue  "), "breakpoint at 0003\n0003  jlt r2, r1, 2\n");
    assert_eq!(vm.gas_used, 3);
    assert_eq!(say(&mut d, &mut vm, "break 3"), "breakpoint 3 removed\n");
    assert!(d.breaks.is_empty());
    assert_eq!(say(&mut d, &mut vm, "b x"), "usage: b PC\n");
    assert_eq!(say(&mut d, &mut vm, "b"), "usage: b PC\n");
    assert_eq!(say(&mut d, &mut vm, "c"), "stopped: halted (gas 11)\n0006  <end of code>\n");
    assert_eq!(vm.status, Status::Halted);
    assert_eq!(say(&mut d, &mut vm, "c"), "stopped: halted (gas 11)\n0006  <end of code>\n");
    assert_eq!(say(&mut d, &mut vm, "step 5"), "gas 11  status halted\n0006  <end of code>\n");
}

#[test]
fn stepping_several_stops_when_the_machine_stops() {
    let p = program();
    let mut vm = Vm::new(&p, Config::default());
    let mut d = Debugger::new(10_000_000);
    assert_eq!(say(&mut d, &mut vm, "s 4"), "gas 4  status running\n0002  addi r2, r2, 1\n");
    assert_eq!(say(&mut d, &mut vm, "s 100"), "gas 11  status halted\n0006  <end of code>\n");
    assert_eq!(say(&mut d, &mut vm, "s +2"), "gas 11  status halted\n0006  <end of code>\n");
}

#[test]
fn continuing_stops_at_the_gas_limit() {
    let p = program();
    let mut vm = Vm::new(&p, Config::default());
    let mut d = Debugger::new(2);
    assert_eq!(say(&mut d, &mut vm, "c"), "gas limit 2 reached\n0002  addi r2, r2, 1\n");
    assert_eq!(say(&mut d, &mut vm, "c"), "gas limit 2 reached\n0003  jlt r2, r1, 2\n");
}

#[test]
fn registers_memory_code_stacks_and_hash_are_shown() {
    let p = program();
    let mut vm = Vm::new(&p, Config::default());
    let mut d = Debugger::new(10_000_000);
    say(&mut d, &mut vm, "s 3");
    let mut regs = String::new();
    for (i, r) in vm.regs.iter().enumerate() {
        regs += &format!("r{i:<2}={r:<12}");
        if i % 4 == 3 {
            regs += "\n";
        }
    }
    regs += "pc=3 heap=8 handler=None gas=3\n";
    assert_eq!(say(&mut d, &mut vm, "r"), regs);
    assert!(regs.starts_with("r0 =0           r1 =3           r2 =1"));
    assert_eq!(
        say(&mut d, &mut vm, "m 0 4"),
        format!("{:06x}  {:<48} {}\n", 0, "41 42 00 00", "AB..")
    );
    assert_eq!(
        say(&mut d, &mut vm, "mem 30 3"),
        format!("{:06x}  {:<48} {}\n", 30, "00 00 00", "...")
    );
    let two_rows = say(&mut d, &mut vm, "m 0 20");
    assert_eq!(two_rows.lines().count(), 2);
    assert!(two_rows.contains("\n000010  00 00 00 00"));
    assert_eq!(say(&mut d, &mut vm, "m 70000 5"), "");
    assert_eq!(
        say(&mut d, &mut vm, "d"),
        "  0000  movi r1, 3\n  0001  movi r2, 0\n  0002  addi r2, r2, 1\n=>0003  jlt r2, r1, 2\n  0004  push r1\n  0005  halt\n"
    );
    assert_eq!(say(&mut d, &mut vm, "st"), "stack []\ncalls []\n");
    say(&mut d, &mut vm, "s 6");
    assert_eq!(say(&mut d, &mut vm, "st"), "stack [3]\ncalls []\n");
    assert_eq!(say(&mut d, &mut vm, "hash"), format!("{:016x}\n", vm.state_hash()));
    assert_eq!(say(&mut d, &mut vm, "zz top"), "unknown command zz (h for help)\n");
    assert_eq!(say(&mut d, &mut vm, ""), "");
    assert!(say(&mut d, &mut vm, "h").starts_with("s [n]   step n instructions\n"));
    let q = d.command(&mut vm, "quit");
    assert!(q.quit);
    assert_eq!(q.text, "");
}

#[test]
fn a_dump_past_the_address_range_is_refused_and_exit_codes_follow_the_status() {
    assert!(Debugger::dump_overflows(&format!("m {} 1", usize::MAX)));
    assert!(!Debugger::dump_overflows(&format!("m {} 0", usize::MAX)));
    assert!(!Debugger::dump_overflows("m 1 2"));
    assert!(!Debugger::dump_overflows(&format!("s {}", usize::MAX)));
    assert_eq!(Status::Halted.exit_code(), 0);
    assert_eq!(Status::OutOfGas.exit_code(), 3);
    assert_eq!(Status::Trapped(7).exit_code(), 4);
    assert_eq!(Status::Running.exit_code(), 5);
}
