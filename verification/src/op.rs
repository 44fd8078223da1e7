use vstd::prelude::*;

verus! {

/// The instruction set. Each operation is identified on the wire by its
/// opcode byte (`Op::code`); `shape` lists its operands: `a`, `b`, `c` are
/// register operands and `i` is the immediate.
#[derive(Debug, Clone, Copy, PartialEq, Eq, Structural)]
pub enum Op {
    Nop,
    Halt,
    Movi,
    Mov,
    Add,
    Sub,
    Mul,
    Div,
    Mod,
    And,
    Or,
    Xor,
    Shl,
    Shr,
    Addi,
    Cmp,
    Jmp,
    Jz,
    Jnz,
    Jlt,
    Jge,
    Jeq,
    Jne,
    Ld,
    St,
    Ldb,
    Stb,
    Push,
    Pop,
    Call,
    Ret,
    Alloc,
    Sys,
    Trap,
    Seth,
    Not,
    Neg,
    Muli,
}

/// The opcode byte of an operation.
pub open spec fn op_code(op: Op) -> u8 {
    match op {
        Op::Nop => 0,
        Op::Halt => 1,
        Op::Movi => 2,
        Op::Mov => 3,
        Op::Add => 4,
        Op::Sub => 5,
        Op::Mul => 6,
        Op::Div => 7,
        Op::Mod => 8,
        Op::And => 9,
        Op::Or => 10,
        Op::Xor => 11,
        Op::Shl => 12,
        Op::Shr => 13,
        Op::Addi => 14,
        Op::Cmp => 15,
        Op::Jmp => 16,
        Op::Jz => 17,
        Op::Jnz => 18,
        Op::Jlt => 19,
        Op::Jge => 20,
        Op::Jeq => 21,
        Op::Jne => 22,
        Op::Ld => 23,
        Op::St => 24,
        Op::Ldb => 25,
        Op::Stb => 26,
        Op::Push => 27,
        Op::Pop => 28,
        Op::Call => 29,
        Op::Ret => 30,
        Op::Alloc => 31,
        Op::Sys => 32,
        Op::Trap => 33,
        Op::Seth => 34,
        Op::Not => 35,
        Op::Neg => 36,
        Op::Muli => 37,
    }
}

/// The operation an opcode byte denotes, if any.
pub open spec fn op_decode(v: u8) -> Option<Op> {
    match v {
        0 => Some(Op::Nop),
        1 => Some(Op::Halt),
        2 => Some(Op::Movi),
        3 => Some(Op::Mov),
        4 => Some(Op::Add),
        5 => Some(Op::Sub),
        6 => Some(Op::Mul),
        7 => Some(Op::Div),
        8 => Some(Op::Mod),
        9 => Some(Op::And),
        10 => Some(Op::Or),
        11 => Some(Op::Xor),
        12 => Some(Op::Shl),
        13 => Some(Op::Shr),
        14 => Some(Op::Addi),
        15 => Some(Op::Cmp),
        16 => Some(Op::Jmp),
        17 => Some(Op::Jz),
        18 => Some(Op::Jnz),
        19 => Some(Op::Jlt),
        20 => Some(Op::Jge),
        21 => Some(Op::Jeq),
        22 => Some(Op::Jne),
        23 => Some(Op::Ld),
        24 => Some(Op::St),
        25 => Some(Op::Ldb),
        26 => Some(Op::Stb),
        27 => Some(Op::Push),
        28 => Some(Op::Pop),
        29 => Some(Op::Call),
        30 => Some(Op::Ret),
        31 => Some(Op::Alloc),
        32 => Some(Op::Sys),
        33 => Some(Op::Trap),
        34 => Some(Op::Seth),
        35 => Some(Op::Not),
        36 => Some(Op::Neg),
        37 => Some(Op::Muli),
        _ => None,
    }
}

/// The assembler mnemonic of an operation.
pub open spec fn op_mnemonic(op: Op) -> Seq<char> {
    match op {
        Op::Nop => "nop"@,
        Op::Halt => "halt"@,
        Op::Movi => "movi"@,
        Op::Mov => "mov"@,
        Op::Add => "add"@,
        Op::Sub => "sub"@,
        Op::Mul => "mul"@,
        Op::Div => "div"@,
        Op::Mod => "mod"@,
        Op::And => "and"@,
        Op::Or => "or"@,
        Op::Xor => "xor"@,
        Op::Shl => "shl"@,
        Op::Shr => "shr"@,
        Op::Addi => "addi"@,
        Op::Cmp => "cmp"@,
        Op::Jmp => "jmp"@,
        Op::Jz => "jz"@,
        Op::Jnz => "jnz"@,
        Op::Jlt => "jlt"@,
        Op::Jge => "jge"@,
        Op::Jeq => "jeq"@,
        Op::Jne => "jne"@,
        Op::Ld => "ld"@,
        Op::St => "st"@,
        Op::Ldb => "ldb"@,
        Op::Stb => "stb"@,
        Op::Push => "push"@,
        Op::Pop => "pop"@,
        Op::Call => "call"@,
        Op::Ret => "ret"@,
        Op::Alloc => "alloc"@,
        Op::Sys => "sys"@,
        Op::Trap => "trap"@,
        Op::Seth => "seth"@,
        Op::Not => "not"@,
        Op::Neg => "neg"@,
        Op::Muli => "muli"@,
    }
}

/// The operand shape of an operation.
pub open spec fn op_shape(op: Op) -> Seq<char> {
    match op {
        Op::Nop => ""@,
        Op::Halt => ""@,
        Op::Movi => "ai"@,
        Op::Mov => "ab"@,
        Op::Add => "abc"@,
        Op::Sub => "abc"@,
        Op::Mul => "abc"@,
        Op::Div => "abc"@,
        Op::Mod => "abc"@,
        Op::And => "abc"@,
        Op::Or => "abc"@,
        Op::Xor => "abc"@,
        Op::Shl => "abc"@,
        Op::Shr => "abc"@,
        Op::Addi => "abi"@,
        Op::Cmp => "abc"@,
        Op::Jmp => "i"@,
        Op::Jz => "ai"@,
        Op::Jnz => "ai"@,
        Op::Jlt => "abi"@,
        Op::Jge => "abi"@,
        Op::Jeq => "abi"@,
        Op::Jne => "abi"@,
        Op::Ld => "abi"@,
        Op::St => "abi"@,
        Op::Ldb => "abi"@,
        Op::Stb => "abi"@,
        Op::Push => "a"@,
        Op::Pop => "a"@,
        Op::Call => "i"@,
        Op::Ret => ""@,
        Op::Alloc => "ab"@,
        Op::Sys => "i"@,
        Op::Trap => "i"@,
        Op::Seth => "i"@,
        Op::Not => "ab"@,
        Op::Neg => "ab"@,
        Op::Muli => "abi"@,
    }
}

/// Every operation decodes from its own opcode byte, and opcode bytes are
/// exactly the bytes below 38.
pub proof fn lemma_op_code_decode(op: Op)
    ensures
        op_decode(op_code(op)) == Some(op),
        op_code(op) < 38,
{
}

/// A byte decodes to an operation exactly when it is below 38, and then to
/// the operation whose opcode it is.
pub proof fn lemma_op_decode_code(v: u8)
    ensures
        op_decode(v) is Some <==> v < 38,
        op_decode(v) matches Some(op) ==> op_code(op) == v,
{
}

impl Op {
    /// The opcode byte of this operation.
    pub fn code(self) -> (r: u8)
        ensures
            r == op_code(self),
    {
        match self {
            Op::Nop => 0,
            Op::Halt => 1,
            Op::Movi => 2,
            Op::Mov => 3,
            Op::Add => 4,
            Op::Sub => 5,
            Op::Mul => 6,
            Op::Div => 7,
            Op::Mod => 8,
            Op::And => 9,
            Op::Or => 10,
            Op::Xor => 11,
            Op::Shl => 12,
            Op::Shr => 13,
            Op::Addi => 14,
            Op::Cmp => 15,
            Op::Jmp => 16,
            Op::Jz => 17,
            Op::Jnz => 18,
            Op::Jlt => 19,
            Op::Jge => 20,
            Op::Jeq => 21,
            Op::Jne => 22,
            Op::Ld => 23,
            Op::St => 24,
            Op::Ldb => 25,
            Op::Stb => 26,
            Op::Push => 27,
            Op::Pop => 28,
            Op::Call => 29,
            Op::Ret => 30,
            Op::Alloc => 31,
            Op::Sys => 32,
            Op::Trap => 33,
            Op::Seth => 34,
            Op::Not => 35,
            Op::Neg => 36,
            Op::Muli => 37,
        }
    }

    /// Decodes an opcode byte.
    pub fn from_u8(v: u8) -> (r: Option<Op>)
        ensures
            r == op_decode(v),
    {
        match v {
            0 => Some(Op::Nop),
            1 => Some(Op::Halt),
            2 => Some(Op::Movi),
            3 => Some(Op::Mov),
            4 => Some(Op::Add),
            5 => Some(Op::Sub),
            6 => Some(Op::Mul),
            7 => Some(Op::Div),
            8 => Some(Op::Mod),
            9 => Some(Op::And),
            10 => Some(Op::Or),
            11 => Some(Op::Xor),
            12 => Some(Op::Shl),
            13 => Some(Op::Shr),
            14 => Some(Op::Addi),
            15 => Some(Op::Cmp),
            16 => Some(Op::Jmp),
            17 => Some(Op::Jz),
            18 => Some(Op::Jnz),
            19 => Some(Op::Jlt),
            20 => Some(Op::Jge),
            21 => Some(Op::Jeq),
            22 => Some(Op::Jne),
            23 => Some(Op::Ld),
            24 => Some(Op::St),
            25 => Some(Op::Ldb),
            26 => Some(Op::Stb),
            27 => Some(Op::Push),
            28 => Some(Op::Pop),
            29 => Some(Op::Call),
            30 => Some(Op::Ret),
            31 => Some(Op::Alloc),
            32 => Some(Op::Sys),
            33 => Some(Op::Trap),
            34 => Some(Op::Seth),
            35 => Some(Op::Not),
            36 => Some(Op::Neg),
            37 => Some(Op::Muli),
            _ => None,
        }
    }

    /// The assembler mnemonic.
    pub fn mnemonic(self) -> (r: &'static str)
        ensures
            r@ == op_mnemonic(self),
    {
        match self {
            Op::Nop => "nop",
            Op::Halt => "halt",
            Op::Movi => "movi",
            Op::Mov => "mov",
            Op::Add => "add",
            Op::Sub => "sub",
            Op::Mul => "mul",
            Op::Div => "div",
            Op::Mod => "mod",
            Op::And => "and",
            Op::Or => "or",
            Op::Xor => "xor",
            Op::Shl => "shl",
            Op::Shr => "shr",
            Op::Addi => "addi",
            Op::Cmp => "cmp",
            Op::Jmp => "jmp",
            Op::Jz => "jz",
            Op::Jnz => "jnz",
            Op::Jlt => "jlt",
            Op::Jge => "jge",
            Op::Jeq => "jeq",
            Op::Jne => "jne",
            Op::Ld => "ld",
            Op::St => "st",
            Op::Ldb => "ldb",
            Op::Stb => "stb",
            Op::Push => "push",
            Op::Pop => "pop",
            Op::Call => "call",
            Op::Ret => "ret",
            Op::Alloc => "alloc",
            Op::Sys => "sys",
            Op::Trap => "trap",
            Op::Seth => "seth",
            Op::Not => "not",
            Op::Neg => "neg",
            Op::Muli => "muli",
        }
    }

    /// Operand shape, e.g. "abc", "ai", "i", "".
    pub fn shape(self) -> (r: &'static str)
        ensures
            r@ == op_shape(self),
    {
        match self {
            Op::Nop => "",
            Op::Halt => "",
            Op::Movi => "ai",
            Op::Mov => "ab",
            Op::Add => "abc",
            Op::Sub => "abc",
            Op::Mul => "abc",
            Op::Div => "abc",
            Op::Mod => "abc",
            Op::And => "abc",
            Op::Or => "abc",
            Op::Xor => "abc",
            Op::Shl => "abc",
            Op::Shr => "abc",
            Op::Addi => "abi",
            Op::Cmp => "abc",
            Op::Jmp => "i",
            Op::Jz => "ai",
            Op::Jnz => "ai",
            Op::Jlt => "abi",
            Op::Jge => "abi",
            Op::Jeq => "abi",
            Op::Jne => "abi",
            Op::Ld => "abi",
            Op::St => "abi",
            Op::Ldb => "abi",
            Op::Stb => "abi",
            Op::Push => "a",
            Op::Pop => "a",
            Op::Call => "i",
            Op::Ret => "",
            Op::Alloc => "ab",
            Op::Sys => "i",
            Op::Trap => "i",
            Op::Seth => "i",
            Op::Not => "ab",
            Op::Neg => "ab",
            Op::Muli => "abi",
        }
    }
}

/// The first operation, by opcode from `k` on, whose mnemonic is `s`.
pub open spec fn mnemonic_from(s: Seq<char>, k: nat) -> Option<Op>
    decreases 38 - k,
{
    if k >= 38 {
        None
    } else if op_mnemonic(op_decode(k as u8)->Some_0) == s {
        op_decode(k as u8)
    } else {
        mnemonic_from(s, k + 1)
    }
}

/// The operation whose mnemonic is `s`.
pub open spec fn op_from_mnemonic(s: Seq<char>) -> Option<Op> {
    mnemonic_from(s, 0)
}

/// The operation whose mnemonic the characters spell.
pub fn op_from_chars(s: &Vec<char>) -> (r: Option<Op>)
    ensures
        r == op_from_mnemonic(s@),
{
    let mut k: u8 = 0;
    while k < 38
        invariant
            k <= 38,
            op_from_mnemonic(s@) == mnemonic_from(s@, k as nat),
        decreases 38 - k,
    {
        let op = match Op::from_u8(k) {
            Some(op) => op,
            None => {
                proof {
                    lemma_op_decode_code(k);
                }
                return None;
            },
        };
        if crate::lex::chars_eq(s, op.mnemonic()) {
            return Some(op);
        }
        k = k + 1;
    }
    None
}

impl Op {
    /// The operation with the given mnemonic.
    pub fn from_mnemonic(s: &str) -> (r: Option<Op>)
        ensures
            r == op_from_mnemonic(s@),
    {
        let v = crate::text::chars_of(s);
        op_from_chars(&v)
    }
}

} // verus!
