//! Assembler and disassembler for Halyard's text format.
//!
//! ```text
//! ; comments start with ';'
//! .data greeting "Hello\n"     ; bytes in the data segment; label = address
//! .data buf 64                 ; 64 zero bytes
//! .word counter 42             ; one 8-byte little-endian integer
//!
//! main:                        ; code label = instruction index
//!   movi r1, greeting
//!   movi r2, 6
//!   sys write                  ; syscall by name or number
//!   jmp done
//! done:
//!   halt
//! ```
//!
//! Operands are registers `r0`-`r15`, decimal/hex (`0x1f`) immediates
//! (negative allowed), labels, or `'c'` character literals.

use vstd::prelude::*;
use crate::instr::Instr;
use crate::le::i64_le;
use crate::lex::{
    ascii_lower, lines, parse_int, parse_reg, split_operands, split_white, strip_comment, trim,
    unescape,
};
use crate::op::{Op, op_code, op_from_mnemonic, op_shape};
use crate::sys::{sys_name, sys_number};
use crate::lex::{
    ascii_lower_chars, parse_int_chars, parse_reg_chars, slice_chars, split_lines,
    split_operands_chars, split_white_chars, starts_with, strip_comment_chars, trim_chars,
    unescape_chars,
};
use crate::op::{op_decode, op_from_chars, op_mnemonic};
use crate::program::Program;
use crate::sys::number_of_chars;
use crate::text::{
    chars_of, debug_quote, debug_quoted, dec_int, dec_nat, hex_nat, is_alphanumeric, pad_left,
    pad_right, push_all, push_dec, push_dec_i64, push_hex, push_padded_left, push_padded_right,
    push_str, string_of, unicode_alphanumeric,
};

verus! {

/// An assembly error: the 1-based source line and a message.
#[derive(Debug, Clone, PartialEq, Eq)]
pub struct AsmError {
    pub line: usize,
    pub msg: String,
}

/// An assembly error as values.
#[verifier::ext_equal]
pub struct Fault {
    pub line: usize,
    pub msg: Seq<char>,
}

/// An instruction whose immediate may still name a label: the label
/// references, each with its source line.
#[verifier::ext_equal]
pub struct Pending {
    pub instr: Instr,
    pub fixups: Seq<(usize, Seq<char>)>,
}

/// What the first pass has gathered: labels with their values, the data
/// segment and the instructions.
#[verifier::ext_equal]
pub struct Gathered {
    pub labels: Seq<(Seq<char>, i64)>,
    pub data: Seq<u8>,
    pub code: Seq<Pending>,
}

/// The value of the label `name`.
pub open spec fn find_label(labels: Seq<(Seq<char>, i64)>, name: Seq<char>) -> Option<i64>
    decreases labels.len(),
{
    if labels.len() == 0 {
        None
    } else if labels[0].0 == name {
        Some(labels[0].1)
    } else {
        find_label(labels.drop_first(), name)
    }
}

/// `g` with the label `name` defined as `v`, or the duplicate-label error.
pub open spec fn define(g: Gathered, name: Seq<char>, v: i64, ln: usize) -> Result<Gathered, Fault> {
    if find_label(g.labels, name) is Some {
        Err(Fault { line: ln, msg: "duplicate label "@ + name })
    } else {
        Ok(Gathered { labels: g.labels.push((name, v)), ..g })
    }
}

/// `n` zero bytes.
pub open spec fn zeros(n: nat) -> Seq<u8> {
    Seq::new(n, |i: int| 0u8)
}

/// A `.data` / `.word` line (the first five characters are the directive).
pub open spec fn directive(g: Gathered, line: Seq<char>, ln: usize) -> Result<Gathered, Fault> {
    let is_word = line.subrange(0, 5) == ".word"@;
    let rest = trim(line.subrange(5, line.len() as int));
    match split_white(rest) {
        None => Err(Fault { line: ln, msg: "expected `.data name value`"@ }),
        Some((name, value0)) => {
            let value = trim(value0);
            match define(g, name, g.data.len() as i64, ln) {
                Err(e) => Err(e),
                Ok(g1) => if is_word {
                    match parse_int(value) {
                        None => Err(Fault { line: ln, msg: "bad integer "@ + value }),
                        Some(v) => Ok(Gathered { data: g1.data + i64_le(v), ..g1 }),
                    }
                } else if value.len() >= 2 && value[0] == '"' && value.last() == '"' {
                    match unescape(value.subrange(1, value.len() - 1)) {
                        Err(m) => Err(Fault { line: ln, msg: m }),
                        Ok(bytes) => Ok(Gathered { data: g1.data + bytes, ..g1 }),
                    }
                } else {
                    match parse_int(value) {
                        Some(n) => if n < 0 {
                            Err(Fault { line: ln, msg: "negative reservation"@ })
                        } else {
                            Ok(Gathered { data: g1.data + zeros((n as usize) as nat), ..g1 })
                        },
                        None => Err(Fault { line: ln, msg: "bad .data value "@ + value }),
                    }
                },
            }
        },
    }
}

/// Whether a label name is made of alphanumerics and `_`.
pub open spec fn label_chars(name: Seq<char>) -> bool {
    forall|i: int| 0 <= i < name.len() ==> unicode_alphanumeric(#[trigger] name[i]) || name[i] == '_'
}

/// A `name:` line: a code label for the next instruction's index.
pub open spec fn label_line(g: Gathered, line: Seq<char>, ln: usize) -> Result<Gathered, Fault> {
    let name = trim(line.drop_last());
    if name.len() == 0 || !label_chars(name) {
        Err(Fault { line: ln, msg: "bad label "@ + debug_quoted(name) })
    } else {
        define(g, name, g.code.len() as i64, ln)
    }
}

/// Sets register field `want` (`a`, `b` or `c`) of `i`.
pub open spec fn set_field(i: Instr, want: char, r: u8) -> Instr {
    if want == 'a' {
        Instr { a: r, ..i }
    } else if want == 'b' {
        Instr { b: r, ..i }
    } else {
        Instr { c: r, ..i }
    }
}

/// Operand `k` (0-based) of an instruction, of kind `want`, written `text`.
pub open spec fn operand(
    op: Op,
    mn: Seq<char>,
    ln: usize,
    k: int,
    want: char,
    text: Seq<char>,
    p: Pending,
) -> Result<Pending, Fault> {
    if want == 'a' || want == 'b' || want == 'c' {
        match parse_reg(text) {
            None => Err(
                Fault {
                    line: ln,
                    msg: "operand "@ + dec_nat((k + 1) as nat) + " of "@ + mn
                        + " must be a register, got "@ + text,
                },
            ),
            Some(r) => Ok(Pending { instr: set_field(p.instr, want, r), ..p }),
        }
    } else if op == Op::Sys && sys_number(text) is Some {
        Ok(Pending { instr: Instr { imm: sys_number(text)->Some_0, ..p.instr }, ..p })
    } else {
        match parse_int(text) {
            Some(v) => if i32::MIN <= v <= i32::MAX {
                Ok(Pending { instr: Instr { imm: v as i32, ..p.instr }, ..p })
            } else {
                Err(
                    Fault {
                        line: ln,
                        msg: "immediate "@ + dec_int(v as int) + " does not fit in 32 bits"@,
                    },
                )
            },
            None => if parse_reg(text) is Some {
                Err(
                    Fault {
                        line: ln,
                        msg: mn + " expects an immediate or label, got register "@ + text,
                    },
                )
            } else {
                Ok(Pending { fixups: p.fixups.push((ln, text)), ..p })
            },
        }
    }
}

/// The first `n` operands, read into an instruction of operation `op`.
pub open spec fn operands(
    op: Op,
    mn: Seq<char>,
    ln: usize,
    shape: Seq<char>,
    ops: Seq<Seq<char>>,
    n: nat,
) -> Result<Pending, Fault>
    decreases n,
{
    if n == 0 {
        Ok(Pending { instr: Instr { op: op_code(op), a: 0, b: 0, c: 0, imm: 0 }, fixups: Seq::empty() })
    } else {
        match operands(op, mn, ln, shape, ops, (n - 1) as nat) {
            Err(e) => Err(e),
            Ok(p) => operand(op, mn, ln, n - 1, shape[n - 1], ops[n - 1], p),
        }
    }
}

/// An instruction line: a mnemonic (any case) and its operands.
pub open spec fn instruction_line(g: Gathered, line: Seq<char>, ln: usize) -> Result<Gathered, Fault> {
    let (mn, rest) = match split_white(line) {
        Some((m, r)) => (m, r),
        None => (line, Seq::empty()),
    };
    match op_from_mnemonic(ascii_lower(mn)) {
        None => Err(Fault { line: ln, msg: "unknown instruction "@ + mn }),
        Some(op) => {
            let ops = split_operands(rest);
            let shape = op_shape(op);
            if ops.len() != shape.len() {
                Err(
                    Fault {
                        line: ln,
                        msg: mn + " takes "@ + dec_nat(shape.len()) + " operand(s), got "@
                            + dec_nat(ops.len()),
                    },
                )
            } else {
                match operands(op, mn, ln, shape, ops, shape.len()) {
                    Err(e) => Err(e),
                    Ok(p) => Ok(Gathered { code: g.code.push(p), ..g }),
                }
            }
        },
    }
}

/// One source line of the first pass; `ln` is its 1-based number.
pub open spec fn source_line(g: Gathered, raw: Seq<char>, ln: usize) -> Result<Gathered, Fault> {
    let line = trim(strip_comment(raw));
    if line.len() == 0 {
        Ok(g)
    } else if line.len() >= 5 && (line.subrange(0, 5) == ".data"@ || line.subrange(0, 5)
        == ".word"@) {
        directive(g, line, ln)
    } else if line.last() == ':' {
        label_line(g, line, ln)
    } else {
        instruction_line(g, line, ln)
    }
}

/// The first pass over the first `n` lines.
pub open spec fn gather(ls: Seq<Seq<char>>, n: nat) -> Result<Gathered, Fault>
    decreases n,
{
    if n == 0 {
        Ok(Gathered { labels: Seq::empty(), data: Seq::empty(), code: Seq::empty() })
    } else {
        match gather(ls, (n - 1) as nat) {
            Err(e) => Err(e),
            Ok(g) => source_line(g, ls[n - 1], n as usize),
        }
    }
}

/// An instruction's first `n` label references resolved.
pub open spec fn fix(
    i: Instr,
    fixups: Seq<(usize, Seq<char>)>,
    labels: Seq<(Seq<char>, i64)>,
    n: nat,
) -> Result<Instr, Fault>
    decreases n,
{
    if n == 0 {
        Ok(i)
    } else {
        match fix(i, fixups, labels, (n - 1) as nat) {
            Err(e) => Err(e),
            Ok(j) => {
                let (ln, name) = fixups[n - 1];
                match find_label(labels, name) {
                    None => Err(Fault { line: ln, msg: "undefined label "@ + name }),
                    Some(v) => if i32::MIN <= v <= i32::MAX {
                        Ok(Instr { imm: v as i32, ..j })
                    } else {
                        Err(Fault { line: ln, msg: "label out of range"@ })
                    },
                }
            },
        }
    }
}

/// The second pass over the first `n` instructions.
pub open spec fn resolve(code: Seq<Pending>, labels: Seq<(Seq<char>, i64)>, n: nat) -> Result<
    Seq<Instr>,
    Fault,
>
    decreases n,
{
    if n == 0 {
        Ok(Seq::empty())
    } else {
        match resolve(code, labels, (n - 1) as nat) {
            Err(e) => Err(e),
            Ok(v) => match fix(
                code[n - 1].instr,
                code[n - 1].fixups,
                labels,
                code[n - 1].fixups.len(),
            ) {
                Err(e) => Err(e),
                Ok(i) => Ok(v.push(i)),
            },
        }
    }
}

/// What `assemble` makes of a source text: the code and data segments, or
/// the first error.
pub open spec fn assembly(src: Seq<char>) -> Result<(Seq<Instr>, Seq<u8>), Fault> {
    let ls = lines(src);
    match gather(ls, ls.len()) {
        Err(e) => Err(e),
        Ok(g) => match resolve(g.code, g.labels, g.code.len()) {
            Err(e) => Err(e),
            Ok(code) => Ok((code, g.data)),
        },
    }
}

/// Label table entries as values.
pub open spec fn labels_view(v: Seq<(Vec<char>, i64)>) -> Seq<(Seq<char>, i64)> {
    v.map_values(|e: (Vec<char>, i64)| (e.0@, e.1))
}

/// Label references as values.
pub open spec fn fixups_view(v: Seq<(usize, Vec<char>)>) -> Seq<(usize, Seq<char>)> {
    v.map_values(|e: (usize, Vec<char>)| (e.0, e.1@))
}

struct PendingInstr {
    instr: Instr,
    fixups: Vec<(usize, Vec<char>)>,
}

impl View for PendingInstr {
    type V = Pending;

    closed spec fn view(&self) -> Pending {
        Pending { instr: self.instr, fixups: fixups_view(self.fixups@) }
    }
}

struct Collected {
    labels: Vec<(Vec<char>, i64)>,
    data: Vec<u8>,
    code: Vec<PendingInstr>,
}

impl View for Collected {
    type V = Gathered;

    closed spec fn view(&self) -> Gathered {
        Gathered {
            labels: labels_view(self.labels@),
            data: self.data@,
            code: self.code@.map_values(|p: PendingInstr| p@),
        }
    }
}

/// Whether an exec error is the fault `f`.
pub open spec fn is_fault(e: AsmError, f: Fault) -> bool {
    e.line == f.line && e.msg@ == f.msg
}

fn fault(line: usize, msg: &Vec<char>) -> (e: AsmError)
    ensures
        e.line == line,
        e.msg@ == msg@,
{
    AsmError { line, msg: string_of(msg) }
}

/// `text` followed by `v`.
fn message(text: &str, v: &Vec<char>) -> (m: Vec<char>)
    ensures
        m@ == text@ + v@,
{
    let mut m: Vec<char> = Vec::new();
    push_str(&mut m, text);
    push_all(&mut m, v);
    m
}

fn find_label_chars(labels: &Vec<(Vec<char>, i64)>, name: &Vec<char>) -> (r: Option<i64>)
    ensures
        r == find_label(labels_view(labels@), name@),
{
    let n = labels.len();
    let mut k: usize = 0;
    assert(labels_view(labels@).subrange(0, n as int) =~= labels_view(labels@));
    while k < n
        invariant
            k <= n,
            n == labels@.len(),
            find_label(labels_view(labels@), name@) == find_label(
                labels_view(labels@).subrange(k as int, n as int),
                name@,
            ),
        decreases n - k,
    {
        let ghost rest = labels_view(labels@).subrange(k as int, n as int);
        assert(rest[0] == (labels@[k as int].0@, labels@[k as int].1));
        if crate::lex::chars_eq_chars(&labels[k].0, name) {
            return Some(labels[k].1);
        }
        assert(rest.drop_first() =~= labels_view(labels@).subrange(k + 1, n as int));
        k = k + 1;
    }
    None
}

impl Collected {
    fn define(&mut self, name: Vec<char>, v: i64, ln: usize) -> (r: Result<(), AsmError>)
        ensures
            match define(old(self)@, name@, v, ln) {
                Ok(g) => r is Ok && final(self)@ == g,
                Err(f) => r matches Err(e) && is_fault(e, f),
            },
    {
        if find_label_chars(&self.labels, &name).is_some() {
            let m = message("duplicate label ", &name);
            return Err(fault(ln, &m));
        }
        let ghost before = self.labels@;
        self.labels.push((name, v));
        assert(labels_view(self.labels@) =~= labels_view(before).push((name@, v)));
        Ok(())
    }
}

fn push_zeros(v: &mut Vec<u8>, n: usize)
    ensures
        final(v)@ == old(v)@ + zeros(n as nat),
{
    let mut k: usize = 0;
    while k < n
        invariant
            k <= n,
            v@ == old(v)@ + zeros(k as nat),
        decreases n - k,
    {
        v.push(0);
        k = k + 1;
        assert(v@ =~= old(v)@ + zeros(k as nat));
    }
}

fn push_byte_seq(v: &mut Vec<u8>, x: &Vec<u8>)
    ensures
        final(v)@ == old(v)@ + x@,
{
    let mut k: usize = 0;
    while k < x.len()
        invariant
            k <= x@.len(),
            v@ == old(v)@ + x@.subrange(0, k as int),
        decreases x@.len() - k,
    {
        v.push(x[k]);
        k = k + 1;
        assert(v@ =~= old(v)@ + x@.subrange(0, k as int));
    }
    assert(x@.subrange(0, k as int) =~= x@);
}

impl Collected {
    fn directive(&mut self, line: &Vec<char>, ln: usize) -> (r: Result<(), AsmError>)
        requires
            line@.len() >= 5,
        ensures
            match directive(old(self)@, line@, ln) {
                Ok(g) => r is Ok && final(self)@ == g,
                Err(f) => r matches Err(e) && is_fault(e, f),
            },
    {
        proof {
            reveal_strlit(".word");
        }
        let is_word = starts_with(line, ".word");
        let rest0 = slice_chars(line, 5, line.len());
        let rest = trim_chars(&rest0);
        let (name, value0) = match split_white_chars(&rest) {
            None => {
                let mut m: Vec<char> = Vec::new();
                push_str(&mut m, "expected `.data name value`");
                return Err(fault(ln, &m));
            },
            Some(p) => p,
        };
        let value = trim_chars(&value0);
        let dl = self.data.len() as i64;
        match self.define(name, dl, ln) {
            Err(e) => {
                return Err(e);
            },
            Ok(()) => {},
        }
        if is_word {
            match parse_int_chars(&value) {
                None => {
                    let m = message("bad integer ", &value);
                    Err(fault(ln, &m))
                },
                Some(v) => {
                    crate::le::push_u64_le(&mut self.data, v as u64);
                    Ok(())
                },
            }
        } else if value.len() >= 2 && value[0] == '"' && value[value.len() - 1] == '"' {
            let inner = slice_chars(&value, 1, value.len() - 1);
            match unescape_chars(&inner) {
                Err(m) => Err(fault(ln, &m)),
                Ok(bytes) => {
                    push_byte_seq(&mut self.data, &bytes);
                    Ok(())
                },
            }
        } else {
            match parse_int_chars(&value) {
                Some(n) => {
                    if n < 0 {
                        let mut m: Vec<char> = Vec::new();
                        push_str(&mut m, "negative reservation");
                        Err(fault(ln, &m))
                    } else {
                        push_zeros(&mut self.data, n as usize);
                        Ok(())
                    }
                },
                None => {
                    let m = message("bad .data value ", &value);
                    Err(fault(ln, &m))
                },
            }
        }
    }

    fn label_line(&mut self, line: &Vec<char>, ln: usize) -> (r: Result<(), AsmError>)
        requires
            line@.len() >= 1,
        ensures
            match label_line(old(self)@, line@, ln) {
                Ok(g) => r is Ok && final(self)@ == g,
                Err(f) => r matches Err(e) && is_fault(e, f),
            },
    {
        let body = slice_chars(line, 0, line.len() - 1);
        assert(body@ =~= line@.drop_last());
        let name = trim_chars(&body);
        let mut ok = name.len() > 0;
        let mut k: usize = 0;
        while ok && k < name.len()
            invariant
                k <= name@.len(),
                ok ==> name@.len() > 0,
                ok ==> forall|j: int|
                    0 <= j < k ==> unicode_alphanumeric(#[trigger] name@[j]) || name@[j] == '_',
                !ok ==> name@.len() == 0 || !label_chars(name@),
            decreases name@.len() - k + (if ok { 1int } else { 0 }),
        {
            let c = name[k];
            if !(is_alphanumeric(c) || c == '_') {
                ok = false;
            } else {
                k = k + 1;
            }
        }
        if !ok {
            let q = debug_quote(&name);
            let m = message("bad label ", &q);
            return Err(fault(ln, &m));
        }
        let cl = self.code.len() as i64;
        self.define(name, cl, ln)
    }
}

fn operand_exec(
    op: Op,
    mn: &Vec<char>,
    ln: usize,
    k: usize,
    want: char,
    text: &Vec<char>,
    p: &mut PendingInstr,
) -> (r: Result<(), AsmError>)
    requires
        k < 16,
    ensures
        match operand(op, mn@, ln, k as int, want, text@, old(p)@) {
            Ok(q) => r is Ok && final(p)@ == q,
            Err(f) => r matches Err(e) && is_fault(e, f),
        },
{
    if want == 'a' || want == 'b' || want == 'c' {
        match parse_reg_chars(text) {
            None => {
                let mut m: Vec<char> = Vec::new();
                push_str(&mut m, "operand ");
                push_dec(&mut m, (k + 1) as u64);
                push_str(&mut m, " of ");
                push_all(&mut m, mn);
                push_str(&mut m, " must be a register, got ");
                push_all(&mut m, text);
                Err(fault(ln, &m))
            },
            Some(reg) => {
                if want == 'a' {
                    p.instr.a = reg;
                } else if want == 'b' {
                    p.instr.b = reg;
                } else {
                    p.instr.c = reg;
                }
                Ok(())
            },
        }
    } else {
        let named = if op == Op::Sys { number_of_chars(text) } else { None };
        match named {
            Some(n) => {
                p.instr.imm = n;
                return Ok(());
            },
            None => {},
        }
        match parse_int_chars(text) {
            Some(v) => {
                if i32::MIN as i64 <= v && v <= i32::MAX as i64 {
                    p.instr.imm = v as i32;
                    Ok(())
                } else {
                    let mut m: Vec<char> = Vec::new();
                    push_str(&mut m, "immediate ");
                    push_dec_i64(&mut m, v);
                    push_str(&mut m, " does not fit in 32 bits");
                    Err(fault(ln, &m))
                }
            },
            None => {
                if parse_reg_chars(text).is_some() {
                    let mut m: Vec<char> = Vec::new();
                    push_all(&mut m, mn);
                    push_str(&mut m, " expects an immediate or label, got register ");
                    push_all(&mut m, text);
                    Err(fault(ln, &m))
                } else {
                    let ghost before = p.fixups@;
                    let t = slice_chars(text, 0, text.len());
                    assert(t@ =~= text@);
                    p.fixups.push((ln, t));
                    assert(fixups_view(p.fixups@) =~= fixups_view(before).push((ln, text@)));
                    Ok(())
                }
            },
        }
    }
}

impl Collected {
    fn instruction_line(&mut self, line: &Vec<char>, ln: usize) -> (r: Result<(), AsmError>)
        ensures
            match instruction_line(old(self)@, line@, ln) {
                Ok(g) => r is Ok && final(self)@ == g,
                Err(f) => r matches Err(e) && is_fault(e, f),
            },
    {
        let (mn, rest) = match split_white_chars(line) {
            Some(p) => p,
            None => (slice_chars(line, 0, line.len()), Vec::new()),
        };
        assert(line@.subrange(0, line@.len() as int) =~= line@);
        let lower = ascii_lower_chars(&mn);
        let op = match op_from_chars(&lower) {
            None => {
                let m = message("unknown instruction ", &mn);
                return Err(fault(ln, &m));
            },
            Some(op) => op,
        };
        let ops = split_operands_chars(&rest);
        let shape = chars_of(op.shape());
        if ops.len() != shape.len() {
            let mut m: Vec<char> = Vec::new();
            push_all(&mut m, &mn);
            push_str(&mut m, " takes ");
            push_dec(&mut m, shape.len() as u64);
            push_str(&mut m, " operand(s), got ");
            push_dec(&mut m, ops.len() as u64);
            return Err(fault(ln, &m));
        }
        proof {
            lemma_shape_short(op);
        }
        let ghost opsv = ops@.map_values(|o: Vec<char>| o@);
        let mut p = PendingInstr {
            instr: Instr { op: op.code(), a: 0, b: 0, c: 0, imm: 0 },
            fixups: Vec::new(),
        };
        assert(fixups_view(p.fixups@) =~= Seq::<(usize, Seq<char>)>::empty());
        assert(instruction_line(old(self)@, line@, ln) == (match operands(
            op,
            mn@,
            ln,
            shape@,
            opsv,
            shape@.len(),
        ) {
            Err(e) => Err(e),
            Ok(q) => Ok(Gathered { code: old(self)@.code.push(q), ..old(self)@ }),
        }));
        let mut k: usize = 0;
        while k < shape.len()
            invariant
                self@ == old(self)@,
                instruction_line(old(self)@, line@, ln) == (match operands(
                    op,
                    mn@,
                    ln,
                    shape@,
                    opsv,
                    shape@.len(),
                ) {
                    Err(e) => Err(e),
                    Ok(q) => Ok(Gathered { code: old(self)@.code.push(q), ..old(self)@ }),
                }),
                k <= shape@.len(),
                shape@.len() <= 3,
                shape@ == op_shape(op),
                ops@.len() == shape@.len(),
                opsv == ops@.map_values(|o: Vec<char>| o@),
                operands(op, mn@, ln, shape@, opsv, k as nat) == Ok::<Pending, Fault>(p@),
            decreases shape@.len() - k,
        {
            let ghost before = p@;
            match operand_exec(op, &mn, ln, k, shape[k], &ops[k], &mut p) {
                Err(e) => {
                    proof {
                        lemma_operands_err(op, mn@, ln, shape@, opsv, (k + 1) as nat, shape@.len());
                    }
                    return Err(e);
                },
                Ok(()) => {},
            }
            k = k + 1;
        }
        let ghost before = self.code@.map_values(|q: PendingInstr| q@);
        self.code.push(p);
        assert(self.code@.map_values(|q: PendingInstr| q@) =~= before.push(p@));
        Ok(())
    }
}

/// Operation shapes have at most three operands.
proof fn lemma_shape_short(op: Op)
    ensures
        op_shape(op).len() <= 3,
{
    reveal_strlit("");
    reveal_strlit("a");
    reveal_strlit("i");
    reveal_strlit("ab");
    reveal_strlit("ai");
    reveal_strlit("abc");
    reveal_strlit("abi");
}

/// Once reading operands fails, reading more fails with the same error.
proof fn lemma_operands_err(
    op: Op,
    mn: Seq<char>,
    ln: usize,
    shape: Seq<char>,
    ops: Seq<Seq<char>>,
    n: nat,
    m: nat,
)
    requires
        operands(op, mn, ln, shape, ops, n) is Err,
        n <= m,
    ensures
        operands(op, mn, ln, shape, ops, m) == operands(op, mn, ln, shape, ops, n),
    decreases m,
{
    if n < m {
        lemma_operands_err(op, mn, ln, shape, ops, n, (m - 1) as nat);
    }
}

impl Collected {
    fn source_line(&mut self, raw: &Vec<char>, ln: usize) -> (r: Result<(), AsmError>)
        ensures
            match source_line(old(self)@, raw@, ln) {
                Ok(g) => r is Ok && final(self)@ == g,
                Err(f) => r matches Err(e) && is_fault(e, f),
            },
    {
        proof {
            reveal_strlit(".data");
            reveal_strlit(".word");
        }
        let stripped = strip_comment_chars(raw);
        let line = trim_chars(&stripped);
        if line.len() == 0 {
            return Ok(());
        }
        if starts_with(&line, ".data") || starts_with(&line, ".word") {
            return self.directive(&line, ln);
        }
        if line[line.len() - 1] == ':' {
            return self.label_line(&line, ln);
        }
        self.instruction_line(&line, ln)
    }
}

/// Once the first pass fails, it fails with the same error on more lines.
proof fn lemma_gather_err(ls: Seq<Seq<char>>, n: nat, m: nat)
    requires
        gather(ls, n) is Err,
        n <= m,
    ensures
        gather(ls, m) == gather(ls, n),
    decreases m,
{
    if n < m {
        lemma_gather_err(ls, n, (m - 1) as nat);
    }
}

/// Once resolving fails, it fails with the same error on more instructions.
proof fn lemma_resolve_err(code: Seq<Pending>, labels: Seq<(Seq<char>, i64)>, n: nat, m: nat)
    requires
        resolve(code, labels, n) is Err,
        n <= m,
    ensures
        resolve(code, labels, m) == resolve(code, labels, n),
    decreases m,
{
    if n < m {
        lemma_resolve_err(code, labels, n, (m - 1) as nat);
    }
}

/// Once fixing fails, it fails with the same error on more references.
proof fn lemma_fix_err(
    i: Instr,
    fixups: Seq<(usize, Seq<char>)>,
    labels: Seq<(Seq<char>, i64)>,
    n: nat,
    m: nat,
)
    requires
        fix(i, fixups, labels, n) is Err,
        n <= m,
    ensures
        fix(i, fixups, labels, m) == fix(i, fixups, labels, n),
    decreases m,
{
    if n < m {
        lemma_fix_err(i, fixups, labels, n, (m - 1) as nat);
    }
}

fn fix_exec(p: &PendingInstr, labels: &Vec<(Vec<char>, i64)>) -> (r: Result<Instr, AsmError>)
    ensures
        match fix(p@.instr, p@.fixups, labels_view(labels@), p@.fixups.len()) {
            Ok(i) => r == Ok::<Instr, AsmError>(i),
            Err(f) => r matches Err(e) && is_fault(e, f),
        },
{
    let mut ins = p.instr;
    let mut k: usize = 0;
    while k < p.fixups.len()
        invariant
            k <= p@.fixups.len(),
            p@.fixups.len() == p.fixups@.len(),
            fix(p@.instr, p@.fixups, labels_view(labels@), k as nat) == Ok::<Instr, Fault>(ins),
        decreases p.fixups@.len() - k,
    {
        let ln = p.fixups[k].0;
        let name = &p.fixups[k].1;
        match find_label_chars(labels, name) {
            None => {
                proof {
                    lemma_fix_err(p@.instr, p@.fixups, labels_view(labels@), (k + 1) as nat, p@.fixups.len());
                }
                let m = message("undefined label ", name);
                return Err(fault(ln, &m));
            },
            Some(v) => {
                if i32::MIN as i64 <= v && v <= i32::MAX as i64 {
                    ins.imm = v as i32;
                } else {
                    proof {
                        lemma_fix_err(p@.instr, p@.fixups, labels_view(labels@), (k + 1) as nat, p@.fixups.len());
                    }
                    let mut m: Vec<char> = Vec::new();
                    push_str(&mut m, "label out of range");
                    return Err(fault(ln, &m));
                }
            },
        }
        k = k + 1;
    }
    Ok(ins)
}

/// Assembles source text into a program: see `assembly`.
pub fn assemble(src: &str) -> (r: Result<Program, AsmError>)
    ensures
        match assembly(src@) {
            Ok((code, data)) => r matches Ok(p) && p.code@ == code && p.data@ == data,
            Err(f) => r matches Err(e) && is_fault(e, f),
        },
{
    let text = chars_of(src);
    let ls = split_lines(&text);
    let ghost lsv = ls@.map_values(|l: Vec<char>| l@);
    let mut g = Collected { labels: Vec::new(), data: Vec::new(), code: Vec::new() };
    assert(g@ =~= Gathered { labels: Seq::empty(), data: Seq::empty(), code: Seq::empty() });
    let mut k: usize = 0;
    while k < ls.len()
        invariant
            k <= ls@.len(),
            lsv == ls@.map_values(|l: Vec<char>| l@),
            lsv == lines(src@),
            gather(lsv, k as nat) == Ok::<Gathered, Fault>(g@),
        decreases ls@.len() - k,
    {
        match g.source_line(&ls[k], k + 1) {
            Err(e) => {
                proof {
                    lemma_gather_err(lsv, (k + 1) as nat, lsv.len());
                }
                return Err(e);
            },
            Ok(()) => {},
        }
        k = k + 1;
    }
    let mut out: Vec<Instr> = Vec::new();
    let mut j: usize = 0;
    while j < g.code.len()
        invariant
            j <= g@.code.len(),
            g@.code.len() == g.code@.len(),
            gather(lsv, lsv.len()) == Ok::<Gathered, Fault>(g@),
            lsv == lines(src@),
            resolve(g@.code, g@.labels, j as nat) == Ok::<Seq<Instr>, Fault>(out@),
        decreases g.code@.len() - j,
    {
        match fix_exec(&g.code[j], &g.labels) {
            Err(e) => {
                proof {
                    lemma_resolve_err(g@.code, g@.labels, (j + 1) as nat, g@.code.len());
                }
                return Err(e);
            },
            Ok(i) => {
                out.push(i);
            },
        }
        j = j + 1;
    }
    Ok(Program { code: out, data: g.data })
}

/// The parts joined with `sep` between them.
pub open spec fn join(parts: Seq<Seq<char>>, sep: Seq<char>) -> Seq<char>
    decreases parts.len(),
{
    if parts.len() == 0 {
        Seq::empty()
    } else if parts.len() == 1 {
        parts[0]
    } else {
        join(parts.drop_last(), sep) + sep + parts.last()
    }
}

/// How an operand of kind `ch` of instruction `i` is written.
pub open spec fn operand_text(op: Op, i: Instr, ch: char) -> Seq<char> {
    if ch == 'a' {
        "r"@ + dec_nat(i.a as nat)
    } else if ch == 'b' {
        "r"@ + dec_nat(i.b as nat)
    } else if ch == 'c' {
        "r"@ + dec_nat(i.c as nat)
    } else if op == Op::Sys && sys_name(i.imm) is Some {
        sys_name(i.imm)->Some_0
    } else {
        dec_int(i.imm as int)
    }
}

/// How an instruction is written: the mnemonic and the operands its shape
/// names, separated by `, `; an unknown opcode as `??? 0xNN`.
pub open spec fn instr_text(i: Instr) -> Seq<char> {
    match op_decode(i.op) {
        None => "??? 0x"@ + pad_left(hex_nat(i.op as nat), 2, '0'),
        Some(op) => {
            let sh = op_shape(op);
            if sh.len() == 0 {
                op_mnemonic(op)
            } else {
                op_mnemonic(op) + " "@ + join(sh.map_values(|c: char| operand_text(op, i, c)), ", "@)
            }
        },
    }
}

fn push_operand(out: &mut Vec<char>, op: Op, i: Instr, ch: char)
    ensures
        final(out)@ == old(out)@ + operand_text(op, i, ch),
{
    if ch == 'a' || ch == 'b' || ch == 'c' {
        let r = if ch == 'a' { i.a } else if ch == 'b' { i.b } else { i.c };
        push_str(out, "r");
        push_dec(out, r as u64);
        assert(final(out)@ =~= old(out)@ + operand_text(op, i, ch));
    } else {
        let named = if op == Op::Sys { crate::sys::name(i.imm) } else { None };
        match named {
            Some(nm) => push_str(out, nm),
            None => push_dec_i64(out, i.imm as i64),
        }
    }
}

pub(crate) fn push_instr_text(out: &mut Vec<char>, i: Instr)
    ensures
        final(out)@ == old(out)@ + instr_text(i),
{
    match Op::from_u8(i.op) {
        None => {
            push_str(out, "??? 0x");
            let mut h: Vec<char> = Vec::new();
            push_hex(&mut h, i.op as u64);
            assert(h@ =~= hex_nat(i.op as nat));
            push_padded_left(out, &h, 2, '0');
        },
        Some(op) => {
            let sh = chars_of(op.shape());
            push_str(out, op.mnemonic());
            let ghost base = out@;
            let ghost parts = sh@.map_values(|c: char| operand_text(op, i, c));
            let mut k: usize = 0;
            while k < sh.len()
                invariant
                    k <= sh@.len(),
                    sh@ == op_shape(op),
                    parts == sh@.map_values(|c: char| operand_text(op, i, c)),
                    k == 0 ==> out@ == base,
                    k > 0 ==> out@ == base + " "@ + join(parts.subrange(0, k as int), ", "@),
                decreases sh@.len() - k,
            {
                let ghost prev = out@;
                if k == 0 {
                    push_str(out, " ");
                } else {
                    push_str(out, ", ");
                }
                push_operand(out, op, i, sh[k]);
                assert(parts.subrange(0, k + 1).drop_last() =~= parts.subrange(0, k as int));
                k = k + 1;
                if k == 1 {
                    assert(out@ =~= base + " "@ + join(parts.subrange(0, k as int), ", "@));
                } else {
                    assert(out@ =~= base + " "@ + join(parts.subrange(0, k as int), ", "@));
                }
            }
            assert(parts.subrange(0, k as int) =~= parts);
        },
    }
}

/// Renders one instruction the way the assembler would accept it.
pub fn format_instr(i: Instr) -> (r: String)
    ensures
        r@ == instr_text(i),
{
    let mut v: Vec<char> = Vec::new();
    push_instr_text(&mut v, i);
    string_of(&v)
}

/// The numbered listing of the first `n` instructions: `NNNN  text`.
pub open spec fn code_listing(code: Seq<Instr>, n: nat) -> Seq<char>
    decreases n,
{
    if n == 0 {
        Seq::empty()
    } else {
        code_listing(code, (n - 1) as nat) + pad_left(dec_nat((n - 1) as nat), 4, '0') + "  "@
            + instr_text(code[n - 1]) + "\n"@
    }
}

/// A byte as two hexadecimal digits.
pub open spec fn hex_byte(b: u8) -> Seq<char> {
    pad_left(hex_nat(b as nat), 2, '0')
}

/// A byte as shown in the text column: itself when printable ASCII.
pub open spec fn shown(b: u8) -> char {
    if 32 <= b < 127 {
        b as char
    } else {
        '.'
    }
}

/// Up to sixteen bytes as a dump shows them: the hexadecimal bytes padded
/// to a column of 48, a space, and the bytes as text.
pub open spec fn dump_cells(chunk: Seq<u8>) -> Seq<char> {
    pad_right(join(chunk.map_values(|b: u8| hex_byte(b)), " "@), 48) + " "@ + chunk.map_values(
        |b: u8| shown(b),
    )
}

/// The `k`th sixteen-byte row of the data dump.
pub open spec fn data_row(data: Seq<u8>, k: int) -> Seq<char> {
    let end = if 16 * k + 16 <= data.len() { 16 * k + 16 } else { data.len() as int };
    let chunk = data.subrange(16 * k, end);
    "; "@ + pad_left(hex_nat((16 * k) as nat), 4, '0') + "  "@ + dump_cells(chunk) + "\n"@
}

/// The first `n` rows of the data dump.
pub open spec fn data_rows(data: Seq<u8>, n: nat) -> Seq<char>
    decreases n,
{
    if n == 0 {
        Seq::empty()
    } else {
        data_rows(data, (n - 1) as nat) + data_row(data, n - 1)
    }
}

/// A program's listing: numbered code lines, then a data dump.
pub open spec fn listing(code: Seq<Instr>, data: Seq<u8>) -> Seq<char> {
    code_listing(code, code.len()) + if data.len() == 0 {
        Seq::empty()
    } else {
        "; data ("@ + dec_nat(data.len()) + " bytes)\n"@ + data_rows(
            data,
            ((data.len() + 15) / 16) as nat,
        )
    }
}

/// The text column closes every dump row: after the hexadecimal cells and
/// a space, each byte of the chunk in order, itself where it is printable
/// ASCII (32 to 126, the space included) and `.` otherwise.
pub proof fn lemma_dump_text_column(chunk: Seq<u8>)
    ensures
        dump_cells(chunk).len() >= chunk.len() + 1,
        dump_cells(chunk)[dump_cells(chunk).len() - chunk.len() - 1] == ' ',
        forall|k: int|
            0 <= k < chunk.len() ==> #[trigger] dump_cells(chunk)[dump_cells(chunk).len()
                - chunk.len() + k] == (if 32 <= chunk[k] && chunk[k] < 127 {
                chunk[k] as char
            } else {
                '.'
            }),
{
    let head = pad_right(join(chunk.map_values(|b: u8| hex_byte(b)), " "@), 48) + " "@;
    let tail = chunk.map_values(|b: u8| shown(b));
    reveal_strlit(" ");
    assert(dump_cells(chunk) =~= head + tail);
    assert forall|k: int| 0 <= k < chunk.len() implies #[trigger] dump_cells(chunk)[dump_cells(
        chunk,
    ).len() - chunk.len() + k] == (if 32 <= chunk[k] && chunk[k] < 127 {
        chunk[k] as char
    } else {
        '.'
    }) by {
        assert((head + tail)[head.len() + k] == tail[k]);
    }
}

/// In every row of the data dump, the row's bytes close it as text, just
/// before the line break: each printable ASCII byte (32 to 126) as itself,
/// every other byte as `.`.
pub proof fn lemma_data_row_text(data: Seq<u8>, r: int)
    requires
        0 <= r,
        16 * r < data.len(),
    ensures
        ({
            let row = data_row(data, r);
            let end = if 16 * r + 16 <= data.len() {
                16 * r + 16
            } else {
                data.len() as int
            };
            let n = end - 16 * r;
            &&& row.len() >= n + 2
            &&& row[row.len() - 1] == '\n'
            &&& forall|k: int|
                0 <= k < n ==> #[trigger] row[row.len() - 1 - n + k] == (if 32 <= data[16 * r + k]
                    && data[16 * r + k] < 127 {
                    data[16 * r + k] as char
                } else {
                    '.'
                })
        }),
{
    let end = if 16 * r + 16 <= data.len() {
        16 * r + 16
    } else {
        data.len() as int
    };
    let chunk = data.subrange(16 * r, end);
    let front = "; "@ + pad_left(hex_nat((16 * r) as nat), 4, '0') + "  "@;
    let cells = dump_cells(chunk);
    lemma_dump_text_column(chunk);
    reveal_strlit("\n");
    let row = data_row(data, r);
    assert(row =~= front + cells + "\n"@);
    let n = end - 16 * r;
    assert forall|k: int| 0 <= k < n implies #[trigger] row[row.len() - 1 - n + k] == (if 32
        <= data[16 * r + k] && data[16 * r + k] < 127 {
        data[16 * r + k] as char
    } else {
        '.'
    }) by {
        assert(chunk[k] == data[16 * r + k]);
        assert(row[row.len() - 1 - n + k] == cells[cells.len() - n + k]);
    }
}

/// Appends the dump cells of `data[start..end]`.
pub(crate) fn push_dump_cells(out: &mut Vec<char>, data: &Vec<u8>, start: usize, end: usize)
    requires
        start <= end <= data@.len(),
    ensures
        final(out)@ == old(out)@ + dump_cells(data@.subrange(start as int, end as int)),
{
    let ghost chunk = data@.subrange(start as int, end as int);
    let mut hexes: Vec<char> = Vec::new();
    let ghost parts = chunk.map_values(|b: u8| hex_byte(b));
    let mut j = start;
    while j < end
        invariant
            start <= j <= end,
            end <= data@.len(),
            chunk == data@.subrange(start as int, end as int),
            parts == chunk.map_values(|b: u8| hex_byte(b)),
            hexes@ == join(parts.subrange(0, j - start), " "@),
        decreases end - j,
    {
        if j > start {
            hexes.push(' ');
        }
        let mut two: Vec<char> = Vec::new();
        push_hex(&mut two, data[j] as u64);
        assert(two@ =~= hex_nat(data@[j as int] as nat));
        let ghost before = hexes@;
        push_padded_left(&mut hexes, &two, 2, '0');
        assert(parts[j - start] == hex_byte(data@[j as int]));
        let ghost nxt = parts.subrange(0, j + 1 - start);
        assert(nxt.drop_last() =~= parts.subrange(0, j - start));
        assert(nxt.last() == parts[j - start]);
        if j > start {
            proof { reveal_strlit(" "); }
            assert(hexes@ =~= join(nxt.drop_last(), " "@) + " "@ + nxt.last());
        } else {
            assert(hexes@ =~= nxt[0]);
        }
        j = j + 1;
    }
    assert(parts.subrange(0, end - start) =~= parts);
    push_padded_right(out, &hexes, 48);
    push_str(out, " ");
    let ghost before = out@;
    let mut j = start;
    while j < end
        invariant
            start <= j <= end,
            end <= data@.len(),
            chunk == data@.subrange(start as int, end as int),
            out@ == before + chunk.subrange(0, j - start).map_values(|b: u8| shown(b)),
        decreases end - j,
    {
        let b = data[j];
        let c: char = if 32 <= b && b < 127 { b as char } else { '.' };
        out.push(c);
        j = j + 1;
        assert(out@ =~= before + chunk.subrange(0, j - start).map_values(|b: u8| shown(b)));
    }
    assert(chunk.subrange(0, end - start) =~= chunk);
    assert(final(out)@ =~= old(out)@ + dump_cells(chunk));
}

fn push_data_row(out: &mut Vec<char>, data: &Vec<u8>, k: usize)
    requires
        16 * k < data@.len(),
    ensures
        final(out)@ == old(out)@ + data_row(data@, k as int),
{
    let n = data.len();
    let start = 16 * k;
    let end = if n - start >= 16 { start + 16 } else { n };
    push_str(out, "; ");
    let mut h: Vec<char> = Vec::new();
    push_hex(&mut h, start as u64);
    assert(h@ =~= hex_nat((16 * k) as nat));
    push_padded_left(out, &h, 4, '0');
    push_str(out, "  ");
    push_dump_cells(out, data, start, end);
    push_str(out, "\n");
    assert(final(out)@ =~= old(out)@ + data_row(data@, k as int));
}

/// Disassembles a whole program: numbered code lines, then a data dump.
pub fn disassemble(p: &Program) -> (r: String)
    ensures
        r@ == listing(p.code@, p.data@),
{
    let mut s: Vec<char> = Vec::new();
    let mut pc: usize = 0;
    while pc < p.code.len()
        invariant
            pc <= p.code@.len(),
            s@ == code_listing(p.code@, pc as nat),
        decreases p.code@.len() - pc,
    {
        let mut d: Vec<char> = Vec::new();
        push_dec(&mut d, pc as u64);
        push_padded_left(&mut s, &d, 4, '0');
        push_str(&mut s, "  ");
        push_instr_text(&mut s, p.code[pc]);
        push_str(&mut s, "\n");
        pc = pc + 1;
        assert(s@ =~= code_listing(p.code@, pc as nat));
    }
    let ghost code_part = s@;
    if p.data.len() > 0 {
        push_str(&mut s, "; data (");
        push_dec(&mut s, p.data.len() as u64);
        push_str(&mut s, " bytes)\n");
        let ghost head = s@;
        let rows = p.data.len() / 16 + if p.data.len() % 16 == 0 { 0 } else { 1 };
        assert(rows == (p.data@.len() + 15) / 16);
        let mut k: usize = 0;
        while k < rows
            invariant
                k <= rows,
                rows == (p.data@.len() + 15) / 16,
                s@ == head + data_rows(p.data@, k as nat),
            decreases rows - k,
        {
            assert(16 * k < p.data@.len());
            push_data_row(&mut s, &p.data, k);
            k = k + 1;
        }
        assert(s@ =~= listing(p.code@, p.data@));
    } else {
        assert(s@ =~= listing(p.code@, p.data@));
    }
    string_of(&s)
}

} // verus!
