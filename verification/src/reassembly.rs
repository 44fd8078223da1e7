//! The disassembler's text assembles back to the code it was made from.

use vstd::prelude::*;
use crate::assembler::{
    Fault, Gathered, Pending, assembly, code_listing, data_row, data_rows, dump_cells, listing, fix, gather, hex_byte, instr_text,
    join, operand, operand_text, operands, resolve, shown, source_line,
};
use crate::instr::Instr;
use crate::lex::{
    all_digits, ascii_lower, comment_start, digit_value, digits_value, is_first_white, is_white,
    lines, lines_from, operands_from, parse_int, parse_reg, split_operands, split_white, std_parse, strip_comment, strip_cr, trim,
    trim_end, trim_start,
};
use crate::op::{
    Op, lemma_op_code_decode, lemma_op_decode_code, mnemonic_from, op_code, op_decode,
    op_from_mnemonic, op_mnemonic, op_shape,
};
use crate::sys::{sys_name, sys_number};
use crate::text::{dec_int, dec_nat, digit_char, hex_nat, pad_left, pad_right};

verus! {

/// A decimal digit character.
pub open spec fn is_digit(c: char) -> bool {
    48 <= (c as u32) <= 57
}

/// Whether every character of `s` is a decimal digit.
pub open spec fn digits_only(s: Seq<char>) -> bool {
    forall|k: int| 0 <= k < s.len() ==> is_digit(#[trigger] s[k])
}

proof fn lemma_digit_char(d: nat)
    requires
        d < 10,
    ensures
        is_digit(digit_char(d)),
        digit_value(digit_char(d), 10) == Some(d as int),
{
    let b = (d + 48) as u8;
    assert(b == d + 48);
    assert((b as char) as u32 == b as u32);
}

/// `dec_nat(n)` is a non-empty string of digits whose decimal value is `n`.
pub proof fn lemma_dec_nat(n: nat)
    ensures
        dec_nat(n).len() > 0,
        digits_only(dec_nat(n)),
        all_digits(dec_nat(n), 10),
        digits_value(dec_nat(n), 10) == n,
    decreases n,
{
    if n < 10 {
        lemma_digit_char(n);
        assert(dec_nat(n) =~= seq![digit_char(n)]);
        assert(dec_nat(n).drop_last() =~= Seq::<char>::empty());
        assert(digits_value(dec_nat(n), 10) == digits_value(Seq::<char>::empty(), 10) * 10 + n);
    } else {
        lemma_dec_nat(n / 10);
        lemma_digit_char(n % 10);
        let s = dec_nat(n);
        assert(s.drop_last() =~= dec_nat(n / 10));
        assert(s.last() == digit_char(n % 10));
        assert(digits_value(s, 10) == (n / 10) * 10 + n % 10);
        assert forall|k: int| 0 <= k < s.len() implies is_digit(#[trigger] s[k]) by {
            if k < s.len() - 1 {
                assert(s[k] == dec_nat(n / 10)[k]);
            }
        }
        assert forall|k: int| 0 <= k < s.len() implies (#[trigger] digit_value(s[k], 10)) is Some by {
            assert(is_digit(s[k]));
        }
    }
}

/// `from_str_radix` reads back the decimal text of `n`.
proof fn lemma_std_parse_dec(n: nat, signed: bool, lo: int, hi: int)
    requires
        lo <= n <= hi,
    ensures
        std_parse(dec_nat(n), 10, signed, lo, hi) == Some(n as int),
{
    lemma_dec_nat(n);
    let t = dec_nat(n);
    assert(is_digit(t[0]));
}

/// `rN` reads back as register `N`.
pub proof fn lemma_parse_reg_text(n: u8)
    requires
        n < 16,
    ensures
        parse_reg("r"@ + dec_nat(n as nat)) == Some(n),
{
    reveal_strlit("r");
    let s = "r"@ + dec_nat(n as nat);
    assert(s.drop_first() =~= dec_nat(n as nat));
    lemma_std_parse_dec(n as nat, false, 0, 255);
}

/// The decimal text of an `i32` reads back as that integer.
pub proof fn lemma_parse_int_text(v: i32)
    ensures
        parse_int(dec_int(v as int)) == Some(v as i64),
        dec_int(v as int).len() > 0,
        forall|k: int| 0 <= k < dec_int(v as int).len() ==> #[trigger] dec_int(v as int)[k] == '-'
            || is_digit(dec_int(v as int)[k]),
{
    let s = dec_int(v as int);
    if v < 0 {
        let m = (-v) as nat;
        lemma_dec_nat(m);
        let t = dec_nat(m);
        assert(s =~= seq!['-'] + t);
        assert(s.drop_first() =~= t);
        assert(is_digit(t[0]));
        if t.len() >= 2 {
            assert(is_digit(t[1]));
        }
        lemma_std_parse_dec(m, true, i64::MIN as int, i64::MAX as int);
        assert(s.len() < 2 || s.last() != '\'') by {
            assert(is_digit(t[t.len() - 1]));
            assert(s.last() == t[t.len() - 1]);
        }
        assert forall|k: int| 0 <= k < s.len() implies #[trigger] s[k] == '-' || is_digit(s[k]) by {
            if k > 0 {
                assert(s[k] == t[k - 1]);
            }
        }
    } else {
        let m = v as nat;
        lemma_dec_nat(m);
        assert(is_digit(s[0]));
        if s.len() >= 2 {
            assert(is_digit(s[1]));
        }
        lemma_std_parse_dec(m, true, i64::MIN as int, i64::MAX as int);
    }
}

/// A lower-case ASCII letter.
pub open spec fn is_lower(c: char) -> bool {
    97 <= (c as u32) <= 122
}

/// Every mnemonic is a non-empty word of lower-case letters that names its
/// own operation.
pub proof fn lemma_mnemonic(op: Op)
    ensures
        op_mnemonic(op).len() > 0,
        forall|k: int| 0 <= k < op_mnemonic(op).len() ==> is_lower(#[trigger] op_mnemonic(op)[k]),
        op_from_mnemonic(op_mnemonic(op)) == Some(op),
{
    reveal_strlit("nop");
    reveal_strlit("halt");
    reveal_strlit("movi");
    reveal_strlit("mov");
    reveal_strlit("add");
    reveal_strlit("sub");
    reveal_strlit("mul");
    reveal_strlit("div");
    reveal_strlit("mod");
    reveal_strlit("and");
    reveal_strlit("or");
    reveal_strlit("xor");
    reveal_strlit("shl");
    reveal_strlit("shr");
    reveal_strlit("addi");
    reveal_strlit("cmp");
    reveal_strlit("jmp");
    reveal_strlit("jz");
    reveal_strlit("jnz");
    reveal_strlit("jlt");
    reveal_strlit("jge");
    reveal_strlit("jeq");
    reveal_strlit("jne");
    reveal_strlit("ld");
    reveal_strlit("st");
    reveal_strlit("ldb");
    reveal_strlit("stb");
    reveal_strlit("push");
    reveal_strlit("pop");
    reveal_strlit("call");
    reveal_strlit("ret");
    reveal_strlit("alloc");
    reveal_strlit("sys");
    reveal_strlit("trap");
    reveal_strlit("seth");
    reveal_strlit("not");
    reveal_strlit("neg");
    reveal_strlit("muli");
    lemma_mnemonic_from(op, 0);
}

proof fn lemma_mnemonic_from(op: Op, k: nat)
    requires
        k <= op_code(op),
    ensures
        mnemonic_from(op_mnemonic(op), k) == Some(op),
    decreases op_code(op) - k,
{
    lemma_op_code_decode(op);
    if k < op_code(op) {
        lemma_op_decode_code(k as u8);
        let other = op_decode(k as u8)->Some_0;
        lemma_mnemonics_differ(other, op);
        lemma_mnemonic_from(op, k + 1);
    }
}

proof fn lemma_mnemonics_differ(a: Op, b: Op)
    requires
        a != b,
    ensures
        op_mnemonic(a) != op_mnemonic(b),
{
    let x = op_mnemonic(a);
    let y = op_mnemonic(b);
    reveal_strlit("nop");
    reveal_strlit("halt");
    reveal_strlit("movi");
    reveal_strlit("mov");
    reveal_strlit("add");
    reveal_strlit("sub");
    reveal_strlit("mul");
    reveal_strlit("div");
    reveal_strlit("mod");
    reveal_strlit("and");
    reveal_strlit("or");
    reveal_strlit("xor");
    reveal_strlit("shl");
    reveal_strlit("shr");
    reveal_strlit("addi");
    reveal_strlit("cmp");
    reveal_strlit("jmp");
    reveal_strlit("jz");
    reveal_strlit("jnz");
    reveal_strlit("jlt");
    reveal_strlit("jge");
    reveal_strlit("jeq");
    reveal_strlit("jne");
    reveal_strlit("ld");
    reveal_strlit("st");
    reveal_strlit("ldb");
    reveal_strlit("stb");
    reveal_strlit("push");
    reveal_strlit("pop");
    reveal_strlit("call");
    reveal_strlit("ret");
    reveal_strlit("alloc");
    reveal_strlit("sys");
    reveal_strlit("trap");
    reveal_strlit("seth");
    reveal_strlit("not");
    reveal_strlit("neg");
    reveal_strlit("muli");
    if x == y {
        assert(x.len() == y.len());
        assert(x[0] == y[0]);
        assert(x[1] == y[1]);
        assert(x[2] == y[2]);
        assert(x[3] == y[3]);
        assert(x[4] == y[4]);
    }
}

/// A character the disassembler writes inside an operand or mnemonic.
pub open spec fn word_char(c: char) -> bool {
    is_lower(c) || is_digit(c) || c == '-'
}

/// A non-empty run of word characters.
pub open spec fn is_word(s: Seq<char>) -> bool {
    &&& s.len() > 0
    &&& forall|k: int| 0 <= k < s.len() ==> word_char(#[trigger] s[k])
}

/// Syscall names are lower-case words that name their own number, and no
/// text that starts otherwise names a syscall.
proof fn lemma_sys_names(n: i32, t: Seq<char>)
    ensures
        sys_name(n) matches Some(nm) ==> sys_number(nm) == Some(n) && nm.len() > 0 && forall|k: int|
            0 <= k < nm.len() ==> is_lower(#[trigger] nm[k]),
        t.len() > 0 && !is_lower(t[0]) ==> sys_number(t) is None,
{
    reveal_strlit("write");
    reveal_strlit("ticks");
    reveal_strlit("rand");
    reveal_strlit("host");
    reveal_strlit("emit");
    reveal_strlit("read");
    assert("write"@[0] == 'w');
    assert("ticks"@[0] == 't');
    assert("rand"@[0] == 'r' && "rand"@[1] == 'a');
    assert("host"@[0] == 'h');
    assert("emit"@[0] == 'e');
    assert("read"@[0] == 'r' && "read"@[1] == 'e');
}

/// Field `ch` of `j` (`a`, `b`, `c`, or the immediate) taken from `i`.
pub open spec fn fill(j: Instr, ch: char, i: Instr) -> Instr {
    if ch == 'a' {
        Instr { a: i.a, ..j }
    } else if ch == 'b' {
        Instr { b: i.b, ..j }
    } else if ch == 'c' {
        Instr { c: i.c, ..j }
    } else {
        Instr { imm: i.imm, ..j }
    }
}

/// Whether operand kind `ch` of `i` can be written and read back: a
/// register below 16, or the immediate.
pub open spec fn operand_fits(i: Instr, ch: char) -> bool {
    ||| ch == 'a' && i.a < 16
    ||| ch == 'b' && i.b < 16
    ||| ch == 'c' && i.c < 16
    ||| ch == 'i'
}

/// The text of an operand is a word, and reading it back fills in that
/// operand of the instruction.
proof fn lemma_operand(op: Op, i: Instr, mn: Seq<char>, ln: usize, k: int, ch: char, p: Pending)
    requires
        operand_fits(i, ch),
    ensures
        is_word(operand_text(op, i, ch)),
        operand(op, mn, ln, k, ch, operand_text(op, i, ch), p) == Ok::<Pending, Fault>(
            Pending { instr: fill(p.instr, ch, i), ..p },
        ),
{
    let t = operand_text(op, i, ch);
    if ch == 'a' || ch == 'b' || ch == 'c' {
        let r = if ch == 'a' { i.a } else if ch == 'b' { i.b } else { i.c };
        reveal_strlit("r");
        lemma_parse_reg_text(r);
        lemma_dec_nat(r as nat);
        assert(t =~= "r"@ + dec_nat(r as nat));
        assert forall|k: int| 0 <= k < t.len() implies word_char(#[trigger] t[k]) by {
            if k > 0 {
                assert(t[k] == dec_nat(r as nat)[k - 1]);
            }
        }
    } else {
        lemma_sys_names(i.imm, dec_int(i.imm as int));
        lemma_parse_int_text(i.imm);
        if op == Op::Sys && sys_name(i.imm) is Some {
        } else {
            let d = dec_int(i.imm as int);
            assert(d[0] == '-' || is_digit(d[0]));
            assert forall|k: int| 0 <= k < d.len() implies word_char(#[trigger] d[k]) by {
                assert(d[k] == '-' || is_digit(d[k]));
            }
        }
    }
}

/// The instruction of operation `op` with the first `n` operand kinds of
/// `sh` taken from `i` and every other field zero.
pub open spec fn partial(op: Op, i: Instr, sh: Seq<char>, n: nat) -> Instr
    decreases n,
{
    if n == 0 {
        Instr { op: op_code(op), a: 0, b: 0, c: 0, imm: 0 }
    } else {
        fill(partial(op, i, sh, (n - 1) as nat), sh[n - 1], i)
    }
}

/// Reading back the texts of the first `n` operands builds the instruction
/// up kind by kind, with no label left to resolve.
proof fn lemma_operands(op: Op, i: Instr, mn: Seq<char>, ln: usize, sh: Seq<char>, n: nat)
    requires
        n <= sh.len(),
        forall|k: int| 0 <= k < sh.len() ==> operand_fits(i, #[trigger] sh[k]),
    ensures
        operands(op, mn, ln, sh, sh.map_values(|c: char| operand_text(op, i, c)), n) == Ok::<
            Pending,
            Fault,
        >(Pending { instr: partial(op, i, sh, n), fixups: Seq::empty() }),
    decreases n,
{
    if n > 0 {
        lemma_operands(op, i, mn, ln, sh, (n - 1) as nat);
        let parts = sh.map_values(|c: char| operand_text(op, i, c));
        assert(parts[n - 1] == operand_text(op, i, sh[n - 1]));
        lemma_operand(
            op,
            i,
            mn,
            ln,
            n - 1,
            sh[n - 1],
            Pending { instr: partial(op, i, sh, (n - 1) as nat), fixups: Seq::empty() },
        );
    }
}

/// An instruction as the assembler makes it: a known operation, registers
/// below 16 in the fields its shape names, and every other field zero.
pub open spec fn canonical(i: Instr) -> bool {
    match op_decode(i.op) {
        None => false,
        Some(op) => {
            let sh = op_shape(op);
            &&& if sh.contains('a') { i.a < 16 } else { i.a == 0 }
            &&& if sh.contains('b') { i.b < 16 } else { i.b == 0 }
            &&& if sh.contains('c') { i.c < 16 } else { i.c == 0 }
            &&& sh.contains('i') || i.imm == 0
        },
    }
}

/// A canonical instruction is what reading its operands back builds.
proof fn lemma_canonical(i: Instr, op: Op)
    requires
        canonical(i),
        op_decode(i.op) == Some(op),
    ensures
        forall|k: int| 0 <= k < op_shape(op).len() ==> operand_fits(i, #[trigger] op_shape(op)[k]),
        partial(op, i, op_shape(op), op_shape(op).len()) == i,
{
    lemma_op_decode_code(i.op);
    reveal_strlit("");
    reveal_strlit("a");
    reveal_strlit("i");
    reveal_strlit("ab");
    reveal_strlit("ai");
    reveal_strlit("abc");
    reveal_strlit("abi");
    let sh = op_shape(op);
    reveal_with_fuel(partial, 4);
    if sh.len() > 0 {
        assert(sh.contains(sh[0]));
    }
    if sh.len() > 1 {
        assert(sh.contains(sh[1]));
    }
    if sh.len() > 2 {
        assert(sh.contains(sh[2]));
    }
}

/// `join` seen from the front.
proof fn lemma_join_front(parts: Seq<Seq<char>>, sep: Seq<char>)
    requires
        parts.len() >= 2,
    ensures
        join(parts, sep) == parts[0] + sep + join(parts.drop_first(), sep),
    decreases parts.len(),
{
    if parts.len() > 2 {
        let a = parts.drop_last();
        let b = parts.drop_first();
        lemma_join_front(a, sep);
        assert(a.drop_first() =~= b.drop_last());
        assert(a[0] == parts[0]);
        assert(b.last() == parts.last());
        assert(join(parts, sep) == join(a, sep) + sep + parts.last());
        assert(join(b, sep) == join(b.drop_last(), sep) + sep + b.last());
        assert(join(parts, sep) =~= parts[0] + sep + join(parts.drop_first(), sep));
    } else {
        assert(parts.drop_first() =~= seq![parts[1]]);
        assert(parts.drop_last() =~= seq![parts[0]]);
        assert(join(parts.drop_last(), sep) == parts[0]);
        assert(join(parts.drop_first(), sep) == parts[1]);
        assert(join(parts, sep) =~= parts[0] + sep + join(parts.drop_first(), sep));
    }
}

/// Word characters are neither whitespace nor punctuation the scanners
/// stop at.
proof fn lemma_word_char(c: char)
    requires
        word_char(c),
    ensures
        !is_white(c),
        c != ',',
        c != '"',
        c != '\'',
        c != ';',
        c != '\n',
        c != '\r',
        c != ':',
        c != '.',
{
}

/// Scanning operand text without commas or quotes only extends the
/// current operand.
proof fn lemma_operands_scan(s: Seq<char>, i: int, j: int, parts: Seq<Seq<char>>, cur: Seq<char>)
    requires
        0 <= i <= j <= s.len(),
        forall|k: int| i <= k < j ==> word_char(#[trigger] s[k]) || s[k] == ' ',
    ensures
        operands_from(s, i, parts, cur, None) == operands_from(
            s,
            j,
            parts,
            cur + s.subrange(i, j),
            None,
        ),
    decreases j - i,
{
    if i == j {
        assert(cur + s.subrange(i, j) =~= cur);
    } else {
        if word_char(s[i]) {
            lemma_word_char(s[i]);
        }
        lemma_operands_scan(s, i + 1, j, parts, cur.push(s[i]));
        assert(cur.push(s[i]) + s.subrange(i + 1, j) =~= cur + s.subrange(i, j));
    }
}

/// Whitespace before a word is trimmed away, and the word itself is kept.
proof fn lemma_trim_word(w: Seq<char>, t: Seq<char>)
    requires
        forall|k: int| 0 <= k < w.len() ==> is_white(#[trigger] w[k]),
        is_word(t),
    ensures
        trim(w + t) == t,
    decreases w.len(),
{
    if w.len() > 0 {
        assert((w + t).drop_first() =~= w.drop_first() + t);
        lemma_trim_word(w.drop_first(), t);
    } else {
        assert(w + t =~= t);
        lemma_word_char(t[0]);
        lemma_word_char(t[t.len() - 1]);
    }
}

/// Operands written with `, ` between them split back into the same
/// operands.
proof fn lemma_operands_join(s: Seq<char>, i: int, parts: Seq<Seq<char>>, done: Seq<Seq<char>>, cur: Seq<char>)
    requires
        0 <= i <= s.len(),
        s.subrange(i, s.len() as int) == join(parts, ", "@),
        parts.len() >= 1,
        forall|k: int| 0 <= k < parts.len() ==> is_word(#[trigger] parts[k]),
        forall|k: int| 0 <= k < cur.len() ==> is_white(#[trigger] cur[k]),
    ensures
        operands_from(s, i, done, cur, None) == done + parts,
    decreases parts.len(),
{
    reveal_strlit(", ");
    let p0 = parts[0];
    assert(is_word(p0));
    if parts.len() == 1 {
        assert(s.subrange(i, s.len() as int) =~= p0);
        assert forall|k: int| i <= k < s.len() implies word_char(#[trigger] s[k]) || s[k] == ' ' by {
            assert(s[k] == p0[k - i]);
        }
        lemma_operands_scan(s, i, s.len() as int, done, cur);
        lemma_trim_word(cur, p0);
        assert(done.push(p0) =~= done + parts);
    } else {
        lemma_join_front(parts, ", "@);
        let rest = join(parts.drop_first(), ", "@);
        let j = i + p0.len();
        let sub = s.subrange(i, s.len() as int);
        assert(sub =~= p0 + ", "@ + rest);
        assert forall|k: int| i <= k < j implies word_char(#[trigger] s[k]) || s[k] == ' ' by {
            assert(sub[k - i] == s[k]);
            assert(sub[k - i] == p0[k - i]);
        }
        lemma_operands_scan(s, i, j, done, cur);
        assert(s.subrange(i, j) =~= p0);
        assert(sub[j - i] == s[j]);
        assert(sub[j - i + 1] == s[j + 1]);
        assert(s[j] == ',');
        assert(s[j + 1] == ' ');
        lemma_trim_word(cur, p0);
        assert(s.subrange(j + 1, j + 2) =~= seq![' ']);
        lemma_operands_scan(s, j + 1, j + 2, done.push(p0), Seq::empty());
        assert(Seq::<char>::empty() + s.subrange(j + 1, j + 2) =~= seq![' ']);
        assert(sub.subrange(p0.len() + 2int, sub.len() as int) =~= rest);
        assert(s.subrange(j + 2, s.len() as int) =~= sub.subrange(p0.len() + 2int, sub.len() as int));
        assert forall|k: int| 0 <= k < parts.drop_first().len() implies is_word(
            #[trigger] parts.drop_first()[k],
        ) by {
            assert(parts.drop_first()[k] == parts[k + 1]);
        }
        lemma_operands_join(s, j + 2, parts.drop_first(), done.push(p0), seq![' ']);
        assert(done.push(p0) + parts.drop_first() =~= done + parts);
    }
}

/// The texts of an instruction's operands, in shape order.
pub open spec fn operand_texts(op: Op, i: Instr) -> Seq<Seq<char>> {
    op_shape(op).map_values(|c: char| operand_text(op, i, c))
}

/// A character of a disassembled instruction line.
pub open spec fn line_char(c: char) -> bool {
    word_char(c) || c == ' ' || c == ','
}

/// Words joined with `, ` are made of line characters and end in the last
/// word's last character.
proof fn lemma_join_chars(parts: Seq<Seq<char>>)
    requires
        parts.len() >= 1,
        forall|k: int| 0 <= k < parts.len() ==> is_word(#[trigger] parts[k]),
    ensures
        join(parts, ", "@).len() > 0,
        join(parts, ", "@).last() == parts.last().last(),
        forall|k: int| 0 <= k < join(parts, ", "@).len() ==> line_char(#[trigger] join(parts, ", "@)[k]),
    decreases parts.len(),
{
    reveal_strlit(", ");
    let j = join(parts, ", "@);
    let w = parts.last();
    assert(is_word(w));
    if parts.len() == 1 {
        assert forall|k: int| 0 <= k < j.len() implies line_char(#[trigger] j[k]) by {
            assert(word_char(w[k]));
        }
    } else {
        let a = parts.drop_last();
        assert forall|k: int| 0 <= k < a.len() implies is_word(#[trigger] a[k]) by {
            assert(a[k] == parts[k]);
        }
        lemma_join_chars(a);
        let ja = join(a, ", "@);
        assert(j =~= ja + ", "@ + w);
        assert forall|k: int| 0 <= k < j.len() implies line_char(#[trigger] j[k]) by {
            if k < ja.len() {
                assert(j[k] == ja[k]);
            } else if k >= ja.len() + 2 {
                assert(j[k] == w[k - ja.len() - 2]);
                assert(word_char(w[k - ja.len() - 2]));
            }
        }
    }
}

/// Without `;` or quotes there is no comment.
proof fn lemma_no_comment(s: Seq<char>, i: int)
    requires
        0 <= i <= s.len(),
        forall|k: int| 0 <= k < s.len() ==> line_char(#[trigger] s[k]),
    ensures
        comment_start(s, i, None) == s.len(),
    decreases s.len() - i,
{
    if i < s.len() {
        assert(line_char(s[i]));
        if word_char(s[i]) {
            lemma_word_char(s[i]);
        }
        lemma_no_comment(s, i + 1);
    }
}

/// The line `instr_text(i)`: its mnemonic, and the operand list after a
/// space when there is one.
proof fn lemma_text_form(i: Instr, op: Op)
    requires
        canonical(i),
        op_decode(i.op) == Some(op),
    ensures
        instr_text(i).len() > 0,
        is_lower(instr_text(i)[0]),
        word_char(instr_text(i).last()),
        forall|k: int| 0 <= k < instr_text(i).len() ==> line_char(#[trigger] instr_text(i)[k]),
        op_shape(op).len() == 0 ==> instr_text(i) == op_mnemonic(op),
        op_shape(op).len() > 0 ==> instr_text(i) == op_mnemonic(op) + " "@ + join(
            operand_texts(op, i),
            ", "@,
        ),
        forall|k: int| 0 <= k < op_shape(op).len() ==> is_word(#[trigger] operand_texts(op, i)[k]),
{
    reveal_strlit(" ");
    let sh = op_shape(op);
    let mn = op_mnemonic(op);
    let parts = sh.map_values(|c: char| operand_text(op, i, c));
    let t = instr_text(i);
    lemma_mnemonic(op);
    lemma_canonical(i, op);
    assert forall|k: int| 0 <= k < sh.len() implies is_word(#[trigger] parts[k]) by {
        assert(operand_fits(i, sh[k]));
        lemma_operand(op, i, mn, 0, k, sh[k], Pending { instr: i, fixups: Seq::empty() });
    }
    if sh.len() == 0 {
        assert forall|k: int| 0 <= k < t.len() implies line_char(#[trigger] t[k]) by {
            assert(is_lower(mn[k]));
        }
        assert(is_lower(mn[mn.len() - 1]));
    } else {
        lemma_join_chars(parts);
        let j = join(parts, ", "@);
        assert(t =~= mn + " "@ + j);
        assert forall|k: int| 0 <= k < t.len() implies line_char(#[trigger] t[k]) by {
            if k < mn.len() {
                assert(t[k] == mn[k]);
                assert(is_lower(mn[k]));
            } else if k > mn.len() {
                assert(t[k] == j[k - mn.len() - 1]);
            }
        }
        assert(t.last() == j.last());
        assert(is_word(parts.last()));
        assert(word_char(parts.last().last()));
        assert(t[0] == mn[0]);
    }
}

/// The text the disassembler gives a canonical instruction, read as a
/// source line, adds exactly that instruction, with no label to resolve.
pub proof fn lemma_line_reassembles(g: Gathered, i: Instr, ln: usize)
    requires
        canonical(i),
    ensures
        source_line(g, instr_text(i), ln) == Ok::<Gathered, Fault>(
            Gathered { code: g.code.push(Pending { instr: i, fixups: Seq::empty() }), ..g },
        ),
{
    let op = op_decode(i.op)->Some_0;
    let t = instr_text(i);
    let sh = op_shape(op);
    let mn = op_mnemonic(op);
    let parts = operand_texts(op, i);
    lemma_text_form(i, op);
    lemma_mnemonic(op);
    lemma_canonical(i, op);
    lemma_no_comment(t, 0);
    assert(strip_comment(t) =~= t);
    lemma_word_char(t[0]);
    lemma_word_char(t.last());
    assert(trim_start(t) == t);
    assert(trim_end(t) == t);
    reveal_strlit(".data");
    reveal_strlit(".word");
    if t.len() >= 5 {
        assert(t.subrange(0, 5)[0] == t[0]);
        assert(".data"@[0] == '.');
        assert(".word"@[0] == '.');
    }
    assert(ascii_lower(mn) =~= mn) by {
        assert forall|k: int| 0 <= k < mn.len() implies #[trigger] ascii_lower(mn)[k] == mn[k] by {
            assert(is_lower(mn[k]));
        }
    }
    if sh.len() == 0 {
        assert(t == mn);
        assert(!exists|k: int| is_first_white(t, k)) by {
            if exists|k: int| is_first_white(t, k) {
                let k = choose|k: int| is_first_white(t, k);
                lemma_word_char(t[k]);
            }
        }
        assert(split_white(t) is None);
        assert(split_operands(Seq::empty()) =~= Seq::<Seq<char>>::empty()) by {
            assert(trim_start(Seq::<char>::empty()) =~= Seq::<char>::empty());
            assert(trim_end(Seq::<char>::empty()) =~= Seq::<char>::empty());
        }
        assert(parts =~= Seq::<Seq<char>>::empty());
        lemma_operands(op, i, mn, ln, sh, 0);
    } else {
        let j = join(parts, ", "@);
        reveal_strlit(" ");
        assert(t =~= mn + " "@ + j);
        assert(is_first_white(t, mn.len() as int)) by {
            assert(t[mn.len() as int] == ' ');
            assert forall|k: int| 0 <= k < mn.len() implies !is_white(#[trigger] t[k]) by {
                assert(t[k] == mn[k]);
                assert(is_lower(mn[k]));
                lemma_word_char(mn[k]);
            }
        }
        let w = choose|k: int| is_first_white(t, k);
        assert(w == mn.len()) by {
            if w < mn.len() {
                assert(t[w] == mn[w]);
                assert(is_lower(mn[w]));
                lemma_word_char(mn[w]);
            } else if w > mn.len() {
                assert(!is_white(t[mn.len() as int]));
            }
        }
        assert(t.subrange(0, w) =~= mn);
        assert(t.subrange(w + 1, t.len() as int) =~= j);
        assert(j.subrange(0, j.len() as int) =~= j);
        lemma_operands_join(j, 0, parts, Seq::empty(), Seq::empty());
        assert(Seq::<Seq<char>>::empty() + parts =~= parts);
        lemma_operands(op, i, mn, ln, sh, sh.len());
    }
}

/// The code as text: each instruction as `format_instr` writes it, on a
/// line of its own.
pub open spec fn code_text(code: Seq<Instr>) -> Seq<char>
    decreases code.len(),
{
    if code.len() == 0 {
        Seq::empty()
    } else {
        instr_text(code[0]) + seq!['\n'] + code_text(code.drop_first())
    }
}

/// Lines read after a prefix are the lines of the rest.
proof fn lemma_lines_shift(p: Seq<char>, s: Seq<char>, k: int, cur: Seq<char>)
    requires
        0 <= k <= s.len(),
    ensures
        lines_from(p + s, p.len() + k, cur) == lines_from(s, k, cur),
    decreases s.len() - k,
{
    if k < s.len() {
        assert((p + s)[p.len() + k] == s[k]);
        if s[k] == '\n' {
            lemma_lines_shift(p, s, k + 1, Seq::empty());
        } else {
            lemma_lines_shift(p, s, k + 1, cur.push(s[k]));
        }
    }
}

/// Reading characters other than `\n` only extends the current line.
proof fn lemma_lines_scan(s: Seq<char>, i: int, j: int, cur: Seq<char>)
    requires
        0 <= i <= j <= s.len(),
        forall|k: int| i <= k < j ==> #[trigger] s[k] != '\n',
    ensures
        lines_from(s, i, cur) == lines_from(s, j, cur + s.subrange(i, j)),
    decreases j - i,
{
    if i == j {
        assert(cur + s.subrange(i, j) =~= cur);
    } else {
        lemma_lines_scan(s, i + 1, j, cur.push(s[i]));
        assert(cur.push(s[i]) + s.subrange(i + 1, j) =~= cur + s.subrange(i, j));
    }
}

/// The lines of the code text are the instructions' texts.
proof fn lemma_code_lines(code: Seq<Instr>)
    requires
        forall|k: int| 0 <= k < code.len() ==> canonical(#[trigger] code[k]),
    ensures
        lines(code_text(code)) == code.map_values(|i: Instr| instr_text(i)),
    decreases code.len(),
{
    if code.len() == 0 {
        assert(lines(code_text(code)) =~= code.map_values(|i: Instr| instr_text(i)));
    } else {
        let rest = code.drop_first();
        assert forall|k: int| 0 <= k < rest.len() implies canonical(#[trigger] rest[k]) by {
            assert(rest[k] == code[k + 1]);
        }
        lemma_code_lines(rest);
        let t = instr_text(code[0]);
        let op = op_decode(code[0].op)->Some_0;
        assert(canonical(code[0]));
        lemma_text_form(code[0], op);
        let s = code_text(code);
        let head = t + seq!['\n'];
        assert(s =~= head + code_text(rest));
        assert forall|k: int| 0 <= k < t.len() implies #[trigger] s[k] != '\n' by {
            assert(s[k] == t[k]);
            assert(line_char(t[k]));
            if word_char(t[k]) {
                lemma_word_char(t[k]);
            }
        }
        lemma_lines_scan(s, 0, t.len() as int, Seq::empty());
        assert(Seq::<char>::empty() + s.subrange(0, t.len() as int) =~= t);
        assert(s[t.len() as int] == '\n');
        lemma_word_char(t.last());
        assert(strip_cr(t) == t);
        lemma_lines_shift(head, code_text(rest), 0, Seq::empty());
        assert(lines(code_text(code)) =~= code.map_values(|i: Instr| instr_text(i)));
    }
}

/// The first pass over the first `n` lines of the code text gathers the
/// first `n` instructions and nothing else.
proof fn lemma_gather_code(code: Seq<Instr>, n: nat)
    requires
        n <= code.len(),
        forall|k: int| 0 <= k < code.len() ==> canonical(#[trigger] code[k]),
    ensures
        gather(code.map_values(|i: Instr| instr_text(i)), n) == Ok::<Gathered, Fault>(
            Gathered {
                labels: Seq::empty(),
                data: Seq::empty(),
                code: code.subrange(0, n as int).map_values(
                    |i: Instr| Pending { instr: i, fixups: Seq::empty() },
                ),
            },
        ),
    decreases n,
{
    let ls = code.map_values(|i: Instr| instr_text(i));
    if n == 0 {
        assert(code.subrange(0, 0).map_values(|i: Instr| Pending { instr: i, fixups: Seq::empty() })
            =~= Seq::<Pending>::empty());
    } else {
        lemma_gather_code(code, (n - 1) as nat);
        let g = gather(ls, (n - 1) as nat)->Ok_0;
        assert(canonical(code[n - 1]));
        lemma_line_reassembles(g, code[n - 1], n as usize);
        assert(g.code.push(Pending { instr: code[n - 1], fixups: Seq::empty() }) =~= code.subrange(
            0,
            n as int,
        ).map_values(|i: Instr| Pending { instr: i, fixups: Seq::empty() }));
    }
}

/// Instructions with no label references resolve to themselves.
proof fn lemma_resolve_plain(code: Seq<Instr>, n: nat)
    requires
        n <= code.len(),
    ensures
        resolve(
            code.map_values(|i: Instr| Pending { instr: i, fixups: Seq::empty() }),
            Seq::empty(),
            n,
        ) == Ok::<Seq<Instr>, Fault>(code.subrange(0, n as int)),
    decreases n,
{
    if n > 0 {
        lemma_resolve_plain(code, (n - 1) as nat);
        assert(code.subrange(0, n - 1).push(code[n - 1]) =~= code.subrange(0, n as int));
    } else {
        assert(code.subrange(0, 0) =~= Seq::<Instr>::empty());
    }
}

/// Disassembling and assembling again gives back the code: the text that
/// `format_instr` writes for each canonical instruction, one per line,
/// assembles to exactly those instructions and an empty data segment.
pub proof fn lemma_code_text_reassembles(code: Seq<Instr>)
    requires
        forall|k: int| 0 <= k < code.len() ==> canonical(#[trigger] code[k]),
    ensures
        assembly(code_text(code)) == Ok::<(Seq<Instr>, Seq<u8>), Fault>((code, Seq::empty())),
{
    lemma_code_lines(code);
    lemma_gather_code(code, code.len());
    assert(code.subrange(0, code.len() as int) =~= code);
    lemma_resolve_plain(code, code.len());
}

/// Whether some of the first `n` kinds of `sh` is `x`.
pub open spec fn names(sh: Seq<char>, n: int, x: char) -> bool {
    exists|k: int| 0 <= k < n && sh[k] == x
}

/// What reading the first `n` operands has built: the operation, registers
/// below 16 in the fields read so far and zero elsewhere, and an immediate
/// or label reference only once the immediate has been read.
pub open spec fn built(op: Op, sh: Seq<char>, n: int, p: Pending) -> bool {
    &&& p.instr.op == op_code(op)
    &&& if names(sh, n, 'a') { p.instr.a < 16 } else { p.instr.a == 0 }
    &&& if names(sh, n, 'b') { p.instr.b < 16 } else { p.instr.b == 0 }
    &&& if names(sh, n, 'c') { p.instr.c < 16 } else { p.instr.c == 0 }
    &&& !names(sh, n, 'i') ==> p.instr.imm == 0 && p.fixups.len() == 0
}

proof fn lemma_operands_built(
    op: Op,
    mn: Seq<char>,
    ln: usize,
    sh: Seq<char>,
    ops: Seq<Seq<char>>,
    n: nat,
)
    requires
        n <= sh.len(),
        n <= ops.len(),
        forall|k: int| 0 <= k < sh.len() ==> #[trigger] sh[k] == 'a' || sh[k] == 'b' || sh[k] == 'c' || sh[k] == 'i',
        operands(op, mn, ln, sh, ops, n) is Ok,
    ensures
        built(op, sh, n as int, operands(op, mn, ln, sh, ops, n)->Ok_0),
    decreases n,
{
    if n > 0 {
        let m = (n - 1) as nat;
        lemma_operands_built(op, mn, ln, sh, ops, m);
        let p = operands(op, mn, ln, sh, ops, m)->Ok_0;
        let q = operands(op, mn, ln, sh, ops, n)->Ok_0;
        let x = sh[m as int];
        assert(x == 'a' || x == 'b' || x == 'c' || x == 'i');
        assert(names(sh, n as int, x));
        assert forall|y: char| y != x implies names(sh, n as int, y) == names(sh, m as int, y) by {
            if names(sh, n as int, y) {
                let k = choose|k: int| 0 <= k < n && sh[k] == y;
                assert(0 <= k < m && sh[k] == y);
            }
        }
        assert(names(sh, n as int, 'a') == (names(sh, m as int, 'a') || x == 'a'));
        assert(names(sh, n as int, 'b') == (names(sh, m as int, 'b') || x == 'b'));
        assert(names(sh, n as int, 'c') == (names(sh, m as int, 'c') || x == 'c'));
        assert(names(sh, n as int, 'i') == (names(sh, m as int, 'i') || x == 'i'));
    } else {
        assert(!names(sh, 0, 'a'));
        assert(!names(sh, 0, 'b'));
        assert(!names(sh, 0, 'c'));
        assert(!names(sh, 0, 'i'));
    }
}

/// Operand kinds are `a`, `b`, `c` and `i`.
proof fn lemma_shape_kinds(op: Op)
    ensures
        forall|k: int| 0 <= k < op_shape(op).len() ==> #[trigger] op_shape(op)[k] == 'a' || op_shape(op)[k]
            == 'b' || op_shape(op)[k] == 'c' || op_shape(op)[k] == 'i',
{
    reveal_strlit("");
    reveal_strlit("a");
    reveal_strlit("i");
    reveal_strlit("ab");
    reveal_strlit("ai");
    reveal_strlit("abc");
    reveal_strlit("abi");
}

/// An instruction the first pass may gather: canonical, and with label
/// references only where its operation takes an immediate.
pub open spec fn pending_ok(p: Pending) -> bool {
    &&& canonical(p.instr)
    &&& p.fixups.len() > 0 ==> op_shape(op_decode(p.instr.op)->Some_0).contains('i')
}

proof fn lemma_built_ok(op: Op, p: Pending)
    requires
        built(op, op_shape(op), op_shape(op).len() as int, p),
    ensures
        pending_ok(p),
{
    let sh = op_shape(op);
    lemma_op_code_decode(op);
    assert forall|x: char| #[trigger] names(sh, sh.len() as int, x) == sh.contains(x) by {
        if sh.contains(x) {
            let k = choose|k: int| 0 <= k < sh.len() && sh[k] == x;
            assert(0 <= k < sh.len() && sh[k] == x);
        }
    }
    assert(names(sh, sh.len() as int, 'a') == sh.contains('a'));
    assert(names(sh, sh.len() as int, 'b') == sh.contains('b'));
    assert(names(sh, sh.len() as int, 'c') == sh.contains('c'));
    assert(names(sh, sh.len() as int, 'i') == sh.contains('i'));
}

/// A source line adds at most one instruction, and that one is as the
/// first pass may gather it.
proof fn lemma_source_line_ok(g: Gathered, raw: Seq<char>, ln: usize)
    requires
        source_line(g, raw, ln) is Ok,
    ensures
        source_line(g, raw, ln)->Ok_0.code == g.code || (source_line(g, raw, ln)->Ok_0.code.len()
            == g.code.len() + 1 && source_line(g, raw, ln)->Ok_0.code.drop_last() == g.code
            && pending_ok(source_line(g, raw, ln)->Ok_0.code.last())),
{
    let line = trim(strip_comment(raw));
    if line.len() == 0 {
    } else if line.len() >= 5 && (line.subrange(0, 5) == ".data"@ || line.subrange(0, 5)
        == ".word"@) {
    } else if line.last() == ':' {
    } else {
        let (mn, rest) = match split_white(line) {
            Some((m, r)) => (m, r),
            None => (line, Seq::empty()),
        };
        let op = op_from_mnemonic(ascii_lower(mn))->Some_0;
        let ops = split_operands(rest);
        let sh = op_shape(op);
        lemma_shape_kinds(op);
        lemma_operands_built(op, mn, ln, sh, ops, sh.len());
        let p = operands(op, mn, ln, sh, ops, sh.len())->Ok_0;
        lemma_built_ok(op, p);
        assert(g.code.push(p).drop_last() =~= g.code);
    }
}

proof fn lemma_gather_ok(ls: Seq<Seq<char>>, n: nat)
    requires
        gather(ls, n) is Ok,
    ensures
        forall|k: int|
            0 <= k < gather(ls, n)->Ok_0.code.len() ==> pending_ok(
                #[trigger] gather(ls, n)->Ok_0.code[k],
            ),
    decreases n,
{
    if n > 0 {
        lemma_gather_ok(ls, (n - 1) as nat);
        let g = gather(ls, (n - 1) as nat)->Ok_0;
        lemma_source_line_ok(g, ls[n - 1], n as usize);
        let h = gather(ls, n)->Ok_0;
        if h.code != g.code {
            assert forall|k: int| 0 <= k < h.code.len() implies pending_ok(#[trigger] h.code[k]) by {
                if k < g.code.len() {
                    assert(h.code[k] == h.code.drop_last()[k]);
                }
            }
        }
    }
}

/// Resolving labels touches only the immediate, and nothing when there is
/// no label reference.
proof fn lemma_fix_fields(i: Instr, fixups: Seq<(usize, Seq<char>)>, labels: Seq<(Seq<char>, i64)>, n: nat)
    requires
        fix(i, fixups, labels, n) is Ok,
    ensures
        fix(i, fixups, labels, n)->Ok_0 == (Instr { imm: fix(i, fixups, labels, n)->Ok_0.imm, ..i }),
        n == 0 ==> fix(i, fixups, labels, n)->Ok_0 == i,
    decreases n,
{
    if n > 0 {
        lemma_fix_fields(i, fixups, labels, (n - 1) as nat);
    }
}

proof fn lemma_resolve_ok(code: Seq<Pending>, labels: Seq<(Seq<char>, i64)>, n: nat)
    requires
        n <= code.len(),
        forall|k: int| 0 <= k < code.len() ==> pending_ok(#[trigger] code[k]),
        resolve(code, labels, n) is Ok,
    ensures
        resolve(code, labels, n)->Ok_0.len() == n,
        forall|k: int|
            0 <= k < n ==> canonical(#[trigger] resolve(code, labels, n)->Ok_0[k]),
    decreases n,
{
    if n > 0 {
        lemma_resolve_ok(code, labels, (n - 1) as nat);
        let v = resolve(code, labels, (n - 1) as nat)->Ok_0;
        let p = code[n - 1];
        assert(pending_ok(p));
        lemma_fix_fields(p.instr, p.fixups, labels, p.fixups.len());
        let j = fix(p.instr, p.fixups, labels, p.fixups.len())->Ok_0;
        assert(canonical(j));
        let w = resolve(code, labels, n)->Ok_0;
        assert(w == v.push(j));
        assert forall|k: int| 0 <= k < n implies canonical(#[trigger] w[k]) by {
            if k < n - 1 {
                assert(w[k] == v[k]);
            }
        }
    }
}

/// Whatever the assembler accepts disassembles to a text that assembles
/// back to the same code: the code it makes is canonical, and the text of
/// canonical code reassembles to it.
pub proof fn lemma_reassembly(src: Seq<char>)
    requires
        assembly(src) is Ok,
    ensures
        forall|k: int|
            0 <= k < assembly(src)->Ok_0.0.len() ==> canonical(#[trigger] assembly(src)->Ok_0.0[k]),
        assembly(code_text(assembly(src)->Ok_0.0)) == Ok::<(Seq<Instr>, Seq<u8>), Fault>(
            (assembly(src)->Ok_0.0, Seq::empty()),
        ),
{
    let ls = lines(src);
    lemma_gather_ok(ls, ls.len());
    let g = gather(ls, ls.len())->Ok_0;
    lemma_resolve_ok(g.code, g.labels, g.code.len());
    lemma_code_text_reassembles(assembly(src)->Ok_0.0);
}

/// One canonical instruction's text, `format_instr`'s output on its own,
/// assembles to exactly that instruction and no data.
pub proof fn lemma_instr_text_reassembles(i: Instr)
    requires
        canonical(i),
    ensures
        assembly(instr_text(i)) == Ok::<(Seq<Instr>, Seq<u8>), Fault>((seq![i], Seq::empty())),
{
    let t = instr_text(i);
    let op = op_decode(i.op)->Some_0;
    lemma_text_form(i, op);
    assert forall|k: int| 0 <= k < t.len() implies #[trigger] t[k] != '\n' by {
        assert(line_char(t[k]));
        if word_char(t[k]) {
            lemma_word_char(t[k]);
        }
    }
    lemma_lines_scan(t, 0, t.len() as int, Seq::empty());
    assert(Seq::<char>::empty() + t.subrange(0, t.len() as int) =~= t);
    assert(lines(t) =~= seq![t]);
    let code = seq![i];
    assert(code.map_values(|j: Instr| instr_text(j)) =~= seq![t]);
    assert forall|k: int| 0 <= k < code.len() implies canonical(#[trigger] code[k]) by {}
    lemma_gather_code(code, 1);
    assert(code.subrange(0, 1) =~= code);
    lemma_resolve_plain(code, 1);
}

proof fn lemma_lines_append_from(a: Seq<char>, b: Seq<char>, i: int, cur: Seq<char>)
    requires
        a.len() > 0,
        a.last() == '\n',
        0 <= i < a.len(),
    ensures
        lines_from(a + b, i, cur) == lines_from(a, i, cur) + lines(b),
    decreases a.len() - i,
{
    assert((a + b)[i] == a[i]);
    if a[i] == '\n' {
        if i + 1 == a.len() {
            lemma_lines_shift(a, b, 0, Seq::empty());
            assert(lines_from(a, i + 1, Seq::<char>::empty()) =~= Seq::<Seq<char>>::empty());
            assert(lines_from(a + b, i, cur) =~= lines_from(a, i, cur) + lines(b));
        } else {
            lemma_lines_append_from(a, b, i + 1, Seq::empty());
            assert(lines_from(a + b, i, cur) =~= lines_from(a, i, cur) + lines(b));
        }
    } else {
        lemma_lines_append_from(a, b, i + 1, cur.push(a[i]));
    }
}

/// The lines of two texts one after another, the first ending a line.
pub(crate) proof fn lemma_lines_append(a: Seq<char>, b: Seq<char>)
    requires
        a.len() == 0 || a.last() == '\n',
    ensures
        lines(a + b) == lines(a) + lines(b),
{
    if a.len() == 0 {
        assert(a + b =~= b);
        assert(lines(a) =~= Seq::<Seq<char>>::empty());
        assert(lines(a + b) =~= lines(a) + lines(b));
    } else {
        lemma_lines_append_from(a, b, 0, Seq::empty());
    }
}

/// A text without line breaks, ended by one, is one line.
pub(crate) proof fn lemma_one_line(t: Seq<char>)
    requires
        forall|k: int| 0 <= k < t.len() ==> #[trigger] t[k] != '\n',
        t.len() == 0 || t.last() != '\r',
    ensures
        lines(t + seq!['\n']) == seq![t],
{
    let s = t + seq!['\n'];
    assert forall|k: int| 0 <= k < t.len() implies #[trigger] s[k] != '\n' by {
        assert(s[k] == t[k]);
    }
    lemma_lines_scan(s, 0, t.len() as int, Seq::empty());
    assert(Seq::<char>::empty() + s.subrange(0, t.len() as int) =~= t);
    assert(s[t.len() as int] == '\n');
    assert(lines_from(s, t.len() + 1int, Seq::<char>::empty()) =~= Seq::<Seq<char>>::empty());
    assert(lines(s) =~= seq![t]);
}

/// A printable ASCII character: neither a line break nor a carriage
/// return.
pub open spec fn printable(c: char) -> bool {
    32 <= (c as u32) <= 126
}

/// Whether every character of `s` is printable.
pub open spec fn all_printable(s: Seq<char>) -> bool {
    forall|k: int| 0 <= k < s.len() ==> printable(#[trigger] s[k])
}

pub(crate) proof fn lemma_printable_add(a: Seq<char>, b: Seq<char>)
    requires
        all_printable(a),
        all_printable(b),
    ensures
        all_printable(a + b),
{
    assert forall|k: int| 0 <= k < (a + b).len() implies printable(#[trigger] (a + b)[k]) by {
        if k < a.len() {
            assert((a + b)[k] == a[k]);
        } else {
            assert((a + b)[k] == b[k - a.len()]);
        }
    }
}

proof fn lemma_hex_nat_printable(n: nat)
    ensures
        all_printable(hex_nat(n)),
        hex_nat(n).len() > 0,
    decreases n,
{
    let d = if n < 16 { n } else { n % 16 };
    let b: u8 = if d < 10 { (d + 48) as u8 } else { (d + 87) as u8 };
    assert((b as char) as u32 == b as u32);
    assert(printable(digit_char(d)));
    if n >= 16 {
        lemma_hex_nat_printable(n / 16);
        lemma_printable_add(hex_nat(n / 16), seq![digit_char(d)]);
    }
}

pub(crate) proof fn lemma_dec_printable(n: nat)
    ensures
        all_printable(dec_nat(n)),
{
    lemma_dec_nat(n);
}

pub(crate) proof fn lemma_pad_left_printable(t: Seq<char>, w: nat, c: char)
    requires
        all_printable(t),
        printable(c),
    ensures
        all_printable(pad_left(t, w, c)),
{
    if t.len() < w {
        lemma_printable_add(Seq::new((w - t.len()) as nat, |i: int| c), t);
    }
}

proof fn lemma_pad_right_printable(t: Seq<char>, w: nat)
    requires
        all_printable(t),
    ensures
        all_printable(pad_right(t, w)),
{
    if t.len() < w {
        lemma_printable_add(t, Seq::new((w - t.len()) as nat, |i: int| ' '));
    }
}

proof fn lemma_join_printable(parts: Seq<Seq<char>>, sep: Seq<char>)
    requires
        forall|k: int| 0 <= k < parts.len() ==> all_printable(#[trigger] parts[k]),
        all_printable(sep),
    ensures
        all_printable(join(parts, sep)),
    decreases parts.len(),
{
    if parts.len() > 1 {
        let a = parts.drop_last();
        assert forall|k: int| 0 <= k < a.len() implies all_printable(#[trigger] a[k]) by {
            assert(a[k] == parts[k]);
        }
        lemma_join_printable(a, sep);
        assert(all_printable(parts.last()));
        lemma_printable_add(join(a, sep), sep);
        lemma_printable_add(join(a, sep) + sep, parts.last());
    } else if parts.len() == 1 {
        assert(all_printable(parts[0]));
    }
}

/// A row of the data dump is one printable line starting with `;`.
proof fn lemma_data_row_line(data: Seq<u8>, k: int)
    requires
        0 <= k,
        16 * k < data.len(),
    ensures
        ({
            let row = data_row(data, k);
            &&& row.len() > 0
            &&& row.last() == '\n'
            &&& all_printable(row.drop_last())
            &&& row.drop_last().len() > 0
            &&& row.drop_last()[0] == ';'
        }),
{
    reveal_strlit("; ");
    reveal_strlit("  ");
    reveal_strlit(" ");
    reveal_strlit("\n");
    let end = if 16 * k + 16 <= data.len() { 16 * k + 16 } else { data.len() as int };
    let chunk = data.subrange(16 * k, end);
    let hexes = chunk.map_values(|b: u8| hex_byte(b));
    assert forall|j: int| 0 <= j < hexes.len() implies all_printable(#[trigger] hexes[j]) by {
        lemma_hex_nat_printable(chunk[j] as nat);
        lemma_pad_left_printable(hex_nat(chunk[j] as nat), 2, '0');
    }
    lemma_join_printable(hexes, " "@);
    lemma_pad_right_printable(join(hexes, " "@), 48);
    let shows = chunk.map_values(|b: u8| shown(b));
    assert forall|j: int| 0 <= j < shows.len() implies printable(#[trigger] shows[j]) by {
        let b = chunk[j];
        if 32 <= b < 127 {
            assert((b as char) as u32 == b as u32);
        }
    }
    lemma_printable_add(pad_right(join(hexes, " "@), 48), " "@);
    lemma_printable_add(pad_right(join(hexes, " "@), 48) + " "@, shows);
    lemma_hex_nat_printable((16 * k) as nat);
    lemma_pad_left_printable(hex_nat((16 * k) as nat), 4, '0');
    let head = "; "@ + pad_left(hex_nat((16 * k) as nat), 4, '0') + "  "@;
    lemma_printable_add("; "@, pad_left(hex_nat((16 * k) as nat), 4, '0'));
    lemma_printable_add("; "@ + pad_left(hex_nat((16 * k) as nat), 4, '0'), "  "@);
    lemma_printable_add(head, dump_cells(chunk));
    let row = data_row(data, k);
    assert(row.drop_last() =~= head + dump_cells(chunk));
}

/// The listing's lines made source again: each line that does not start
/// with `;`, from its seventh character on, ended by a newline.
pub open spec fn relisted(ls: Seq<Seq<char>>) -> Seq<char>
    decreases ls.len(),
{
    if ls.len() == 0 {
        Seq::empty()
    } else {
        let l = ls.last();
        relisted(ls.drop_last()) + if l.len() > 0 && l[0] == ';' {
            Seq::empty()
        } else {
            l.skip(6) + seq!['\n']
        }
    }
}

proof fn lemma_relisted_append(a: Seq<Seq<char>>, b: Seq<Seq<char>>)
    ensures
        relisted(a + b) == relisted(a) + relisted(b),
    decreases b.len(),
{
    if b.len() == 0 {
        assert(a + b =~= a);
        assert(relisted(a) + relisted(b) =~= relisted(a));
    } else {
        lemma_relisted_append(a, b.drop_last());
        assert((a + b).drop_last() =~= a + b.drop_last());
        assert((a + b).last() == b.last());
        assert(relisted(a + b) =~= relisted(a) + relisted(b));
    }
}

/// A line that starts with `;` is dropped.
proof fn lemma_comment_line(body: Seq<char>)
    requires
        all_printable(body),
        body.len() > 0,
        body[0] == ';',
    ensures
        relisted(lines(body + seq!['\n'])) == Seq::<char>::empty(),
{
    assert forall|k: int| 0 <= k < body.len() implies #[trigger] body[k] != '\n' by {
        assert(printable(body[k]));
    }
    assert(printable(body.last()));
    lemma_one_line(body);
    let one = seq![body];
    assert(one.drop_last() =~= Seq::<Seq<char>>::empty());
    assert(one.last() == body);
    assert(relisted(one.drop_last()) == Seq::<char>::empty());
    assert(relisted(one) =~= Seq::<char>::empty());
}

/// The data dump's rows are all dropped.
proof fn lemma_data_rows_dropped(data: Seq<u8>, n: nat)
    requires
        16 * n <= data.len() + 15,
    ensures
        relisted(lines(data_rows(data, n))) == Seq::<char>::empty(),
        n == 0 || data_rows(data, n).last() == '\n',
    decreases n,
{
    if n == 0 {
        assert(lines(Seq::<char>::empty()) =~= Seq::<Seq<char>>::empty());
    } else {
        let m = (n - 1) as nat;
        lemma_data_rows_dropped(data, m);
        lemma_data_row_line(data, m as int);
        let row = data_row(data, m as int);
        assert(row =~= row.drop_last() + seq!['\n']);
        lemma_comment_line(row.drop_last());
        lemma_lines_append(data_rows(data, m), row);
        lemma_relisted_append(lines(data_rows(data, m)), lines(row));
        assert(relisted(lines(data_rows(data, n))) =~= Seq::<char>::empty());
    }
}

proof fn lemma_dec_short(n: nat)
    ensures
        n < 10 ==> dec_nat(n).len() == 1,
        n < 100 ==> dec_nat(n).len() <= 2,
        n < 1000 ==> dec_nat(n).len() <= 3,
        n < 10000 ==> dec_nat(n).len() <= 4,
    decreases n,
{
    if n >= 10 {
        lemma_dec_short(n / 10);
    }
}

/// Line `k` of the numbered code listing.
pub open spec fn listing_line(code: Seq<Instr>, k: int) -> Seq<char> {
    pad_left(dec_nat(k as nat), 4, '0') + "  "@ + instr_text(code[k])
}

proof fn lemma_listing_line(code: Seq<Instr>, k: int)
    requires
        0 <= k < code.len(),
        k < 10000,
        canonical(code[k]),
    ensures
        forall|j: int| 0 <= j < listing_line(code, k).len() ==> #[trigger] listing_line(code, k)[j]
            != '\n',
        listing_line(code, k).last() != '\r',
        listing_line(code, k)[0] != ';',
        listing_line(code, k).len() > 0,
        listing_line(code, k).skip(6) == instr_text(code[k]),
{
    reveal_strlit("  ");
    let i = code[k];
    let op = op_decode(i.op)->Some_0;
    lemma_text_form(i, op);
    lemma_dec_nat(k as nat);
    lemma_dec_short(k as nat);
    lemma_dec_printable(k as nat);
    let d = dec_nat(k as nat);
    let p = pad_left(d, 4, '0');
    assert(p.len() == 4);
    assert(printable('0'));
    lemma_pad_left_printable(d, 4, '0');
    let t = instr_text(i);
    let l = listing_line(code, k);
    assert(l =~= p + "  "@ + t);
    assert forall|j: int| 0 <= j < l.len() implies #[trigger] l[j] != '\n' by {
        if j < 4 {
            assert(l[j] == p[j]);
            assert(printable(p[j]));
        } else if j >= 6 {
            assert(l[j] == t[j - 6]);
            assert(line_char(t[j - 6]));
            if word_char(t[j - 6]) {
                lemma_word_char(t[j - 6]);
            }
        }
    }
    assert(l.last() == t.last());
    lemma_word_char(t.last());
    assert(l[0] == p[0]);
    assert(printable(p[0]));
    assert(p[0] == '0' || is_digit(p[0])) by {
        if d.len() < 4 {
        } else {
            assert(p[0] == d[0]);
        }
    }
    assert(l.skip(6) =~= t);
}

/// The lines of the first `n` numbered code lines.
proof fn lemma_code_listing_lines(code: Seq<Instr>, n: nat)
    requires
        n <= code.len(),
        n <= 10000,
        forall|k: int| 0 <= k < code.len() ==> canonical(#[trigger] code[k]),
    ensures
        lines(code_listing(code, n)) == Seq::new(n, |k: int| listing_line(code, k)),
        n == 0 || code_listing(code, n).last() == '\n',
    decreases n,
{
    reveal_strlit("\n");
    if n == 0 {
        assert(lines(code_listing(code, 0)) =~= Seq::new(0, |k: int| listing_line(code, k)));
    } else {
        let m = (n - 1) as nat;
        lemma_code_listing_lines(code, m);
        assert(canonical(code[m as int]));
        lemma_listing_line(code, m as int);
        let l = listing_line(code, m as int);
        assert(code_listing(code, n) =~= code_listing(code, m) + (l + seq!['\n']));
        lemma_one_line(l);
        lemma_lines_append(code_listing(code, m), l + seq!['\n']);
        assert(lines(code_listing(code, n)) =~= Seq::new(n, |k: int| listing_line(code, k)));
    }
}

proof fn lemma_code_text_push(c: Seq<Instr>, i: Instr)
    ensures
        code_text(c.push(i)) == code_text(c) + instr_text(i) + seq!['\n'],
    decreases c.len(),
{
    if c.len() == 0 {
        assert(c.push(i).drop_first() =~= Seq::<Instr>::empty());
        assert(c.push(i)[0] == i);
        assert(code_text(c.push(i).drop_first()) == Seq::<char>::empty());
        assert(code_text(c) == Seq::<char>::empty());
        assert(code_text(c.push(i)) =~= code_text(c) + instr_text(i) + seq!['\n']);
    } else {
        lemma_code_text_push(c.drop_first(), i);
        assert(c.push(i).drop_first() =~= c.drop_first().push(i));
        assert(c.push(i)[0] == c[0]);
        assert(code_text(c.push(i)) == instr_text(c[0]) + seq!['\n'] + code_text(
            c.drop_first().push(i),
        ));
        assert(code_text(c) == instr_text(c[0]) + seq!['\n'] + code_text(c.drop_first()));
        assert(code_text(c.push(i)) =~= code_text(c) + instr_text(i) + seq!['\n']);
    }
}

/// The numbered code lines, made source again, are the code's text.
proof fn lemma_relisted_code(code: Seq<Instr>, n: nat)
    requires
        n <= code.len(),
        n <= 10000,
        forall|k: int| 0 <= k < code.len() ==> canonical(#[trigger] code[k]),
    ensures
        relisted(Seq::new(n, |k: int| listing_line(code, k))) == code_text(code.take(n as int)),
    decreases n,
{
    if n == 0 {
        assert(code.take(0) =~= Seq::<Instr>::empty());
        assert(relisted(Seq::new(0, |k: int| listing_line(code, k))) =~= Seq::<char>::empty());
    } else {
        let m = (n - 1) as nat;
        lemma_relisted_code(code, m);
        assert(canonical(code[m as int]));
        lemma_listing_line(code, m as int);
        let ls = Seq::new(n, |k: int| listing_line(code, k));
        assert(ls.drop_last() =~= Seq::new(m, |k: int| listing_line(code, k)));
        assert(ls.last() == listing_line(code, m as int));
        assert(code.take(n as int) =~= code.take(m as int).push(code[m as int]));
        lemma_code_text_push(code.take(m as int), code[m as int]);
        assert(relisted(ls) =~= code_text(code.take(n as int)));
    }
}

/// Disassembling and assembling again, as a reader does with the listing
/// `disassemble` prints: with the lines that start with `;` (the data dump)
/// left out and the first six characters (the instruction number and two
/// spaces) of the others cut off, the listing of canonical code assembles
/// back to the same code, for code short enough that its instruction
/// numbers take four digits.
pub proof fn lemma_listing_reassembles(code: Seq<Instr>, data: Seq<u8>)
    requires
        forall|k: int| 0 <= k < code.len() ==> canonical(#[trigger] code[k]),
        code.len() <= 10000,
    ensures
        assembly(relisted(lines(listing(code, data)))) == Ok::<(Seq<Instr>, Seq<u8>), Fault>(
            (code, Seq::empty()),
        ),
{
    reveal_strlit("; data (");
    reveal_strlit(" bytes)\n");
    let n = code.len();
    let cl = code_listing(code, n);
    lemma_code_listing_lines(code, n);
    lemma_relisted_code(code, n);
    assert(code.take(n as int) =~= code);
    let tail = if data.len() == 0 {
        Seq::<char>::empty()
    } else {
        "; data ("@ + dec_nat(data.len()) + " bytes)\n"@ + data_rows(
            data,
            ((data.len() + 15) / 16) as nat,
        )
    };
    assert(listing(code, data) == cl + tail);
    lemma_lines_append(cl, tail);
    lemma_relisted_append(lines(cl), lines(tail));
    if data.len() == 0 {
        assert(lines(tail) =~= Seq::<Seq<char>>::empty());
    } else {
        let body = "; data ("@ + dec_nat(data.len());
        let head = "; data ("@ + dec_nat(data.len()) + " bytes)\n"@;
        let hb = body + " bytes)"@;
        reveal_strlit(" bytes)");
        lemma_dec_printable(data.len());
        lemma_printable_add("; data ("@, dec_nat(data.len()));
        lemma_printable_add(body, " bytes)"@);
        assert(head =~= hb + seq!['\n']);
        lemma_comment_line(hb);
        let rows = ((data.len() + 15) / 16) as nat;
        lemma_data_rows_dropped(data, rows);
        lemma_lines_append(head, data_rows(data, rows));
        lemma_relisted_append(lines(head), lines(data_rows(data, rows)));
    }
    assert(relisted(lines(listing(code, data))) =~= code_text(code));
    lemma_code_text_reassembles(code);
}

proof fn lemma_operand_printable(op: Op, i: Instr, ch: char)
    ensures
        all_printable(operand_text(op, i, ch)),
{
    reveal_strlit("r");
    assert(all_printable("r"@)) by {
        assert("r"@[0] == 'r');
    }
    if ch == 'a' || ch == 'b' || ch == 'c' {
        let f: u8 = if ch == 'a' { i.a } else if ch == 'b' { i.b } else { i.c };
        lemma_dec_printable(f as nat);
        lemma_printable_add("r"@, dec_nat(f as nat));
    } else if op == Op::Sys && sys_name(i.imm) is Some {
        lemma_sys_names(i.imm, Seq::empty());
        let nm = sys_name(i.imm)->Some_0;
        assert forall|k: int| 0 <= k < nm.len() implies printable(#[trigger] nm[k]) by {
            assert(is_lower(nm[k]));
        }
    } else {
        lemma_parse_int_text(i.imm);
        let d = dec_int(i.imm as int);
        assert forall|k: int| 0 <= k < d.len() implies printable(#[trigger] d[k]) by {
            assert(d[k] == '-' || is_digit(d[k]));
        }
    }
}

/// Every instruction's text, valid or not, is a non-empty line of
/// printable characters.
pub(crate) proof fn lemma_instr_text_printable(i: Instr)
    ensures
        all_printable(instr_text(i)),
        instr_text(i).len() > 0,
{
    reveal_strlit("??? 0x");
    reveal_strlit(" ");
    reveal_strlit(", ");
    match op_decode(i.op) {
        None => {
            assert(all_printable("??? 0x"@)) by {
                assert forall|k: int| 0 <= k < 6 implies printable(#[trigger] "??? 0x"@[k]) by {}
            }
            lemma_hex_nat_printable(i.op as nat);
            assert(printable('0'));
            lemma_pad_left_printable(hex_nat(i.op as nat), 2, '0');
            lemma_printable_add("??? 0x"@, pad_left(hex_nat(i.op as nat), 2, '0'));
        },
        Some(op) => {
            lemma_mnemonic(op);
            let mn = op_mnemonic(op);
            assert forall|k: int| 0 <= k < mn.len() implies printable(#[trigger] mn[k]) by {
                assert(is_lower(mn[k]));
            }
            let parts = op_shape(op).map_values(|c: char| operand_text(op, i, c));
            if op_shape(op).len() > 0 {
                assert forall|k: int| 0 <= k < parts.len() implies all_printable(#[trigger] parts[k]) by {
                    lemma_operand_printable(op, i, op_shape(op)[k]);
                }
                assert(all_printable(", "@)) by {
                    assert forall|k: int| 0 <= k < 2 implies printable(#[trigger] ", "@[k]) by {}
                }
                assert(all_printable(" "@)) by {
                    assert(" "@[0] == ' ');
                }
                lemma_join_printable(parts, ", "@);
                lemma_printable_add(mn, " "@);
                lemma_printable_add(mn + " "@, join(parts, ", "@));
            }
        },
    }
}

} // verus!
