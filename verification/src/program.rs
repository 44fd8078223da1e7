use vstd::prelude::*;
use crate::instr::{
    Instr, instr_bytes, instr_of_bytes, lemma_instr_decode_encode, lemma_instr_encode_decode,
};
use crate::le::{
    le_u32, lemma_le_u32_of_u32_le, lemma_u32_le_of_le_u32, push_u32_le, read_u32_le, u32_le,
};
use crate::text::{dec_nat, push_dec, push_str, string_of};

verus! {

/// A loadable program: code segment + initial data segment.
#[derive(Debug, Clone, PartialEq, Eq, Default)]
pub struct Program {
    pub code: Vec<Instr>,
    pub data: Vec<u8>,
}

/// The file magic, `HLYD`.
pub open spec fn program_magic() -> Seq<u8> {
    seq![72u8, 76u8, 89u8, 68u8]
}

/// The instructions' encodings, one after another.
pub open spec fn code_bytes(code: Seq<Instr>) -> Seq<u8>
    decreases code.len(),
{
    if code.len() == 0 {
        Seq::empty()
    } else {
        code_bytes(code.drop_last()) + instr_bytes(code.last())
    }
}

/// The program file: magic, version 1, instruction count, data length
/// (each a little-endian `u32`), the instructions, the data.
pub open spec fn program_bytes(code: Seq<Instr>, data: Seq<u8>) -> Seq<u8> {
    program_magic() + u32_le(1) + u32_le(code.len() as u32) + u32_le(data.len() as u32)
        + code_bytes(code) + data
}

/// What `Program::from_bytes` makes of a file: the code and data, or the
/// message it rejects the file with.
pub open spec fn parse_program(b: Seq<u8>) -> Result<(Seq<Instr>, Seq<u8>), Seq<char>> {
    if b.len() < 16 || b.subrange(0, 4) != program_magic() {
        Err("not a Halyard program (bad magic)"@)
    } else if le_u32(b.subrange(4, 8)) != 1 {
        Err("unsupported program version "@ + dec_nat(le_u32(b.subrange(4, 8)) as nat))
    } else {
        let ncode = le_u32(b.subrange(8, 12)) as int;
        let ndata = le_u32(b.subrange(12, 16)) as int;
        let need = 16 + ncode * 8 + ndata;
        if need > usize::MAX {
            Err("size overflow"@)
        } else if b.len() != need {
            Err(
                "truncated program: expected "@ + dec_nat(need as nat) + " bytes, got "@ + dec_nat(
                    b.len(),
                ),
            )
        } else {
            Ok(
                (
                    Seq::new(
                        ncode as nat,
                        |k: int| instr_of_bytes(b.subrange(16 + 8 * k, 16 + 8 * k + 8)),
                    ),
                    b.subrange(16 + ncode * 8, b.len() as int),
                ),
            )
        }
    }
}

/// The encoding of `code` is eight bytes per instruction, the `k`th eight
/// being the encoding of `code[k]`.
pub proof fn lemma_code_bytes(code: Seq<Instr>)
    ensures
        code_bytes(code).len() == 8 * code.len(),
        forall|k: int|
            0 <= k < code.len() ==> #[trigger] code_bytes(code).subrange(8 * k, 8 * k + 8)
                == instr_bytes(code[k]),
    decreases code.len(),
{
    if code.len() > 0 {
        let init = code.drop_last();
        lemma_code_bytes(init);
        lemma_instr_decode_encode(code.last());
        assert forall|k: int| 0 <= k < code.len() implies #[trigger] code_bytes(code).subrange(
            8 * k,
            8 * k + 8,
        ) == instr_bytes(code[k]) by {
            if k < init.len() {
                assert(code_bytes(code).subrange(8 * k, 8 * k + 8) =~= code_bytes(init).subrange(
                    8 * k,
                    8 * k + 8,
                ));
                assert(code[k] == init[k]);
            } else {
                assert(code_bytes(code).subrange(8 * k, 8 * k + 8) =~= instr_bytes(code.last()));
            }
        }
    }
}

/// Loading what was saved gives back the program, for programs whose sizes
/// fit the file's 32-bit fields and whose file fits in memory.
pub proof fn lemma_program_round_trip(code: Seq<Instr>, data: Seq<u8>)
    requires
        code.len() <= u32::MAX,
        data.len() <= u32::MAX,
        16 + 8 * code.len() + data.len() <= usize::MAX,
    ensures
        parse_program(program_bytes(code, data)) == Ok::<(Seq<Instr>, Seq<u8>), Seq<char>>((code, data)),
{
    let b = program_bytes(code, data);
    lemma_code_bytes(code);
    lemma_le_u32_of_u32_le(1);
    lemma_le_u32_of_u32_le(code.len() as u32);
    lemma_le_u32_of_u32_le(data.len() as u32);
    assert(b.subrange(0, 4) =~= program_magic());
    assert(b.subrange(4, 8) =~= u32_le(1));
    assert(b.subrange(8, 12) =~= u32_le(code.len() as u32));
    assert(b.subrange(12, 16) =~= u32_le(data.len() as u32));
    let ncode = code.len() as int;
    assert(b.subrange(16 + ncode * 8, b.len() as int) =~= data);
    let decoded = Seq::new(
        ncode as nat,
        |k: int| instr_of_bytes(b.subrange(16 + 8 * k, 16 + 8 * k + 8)),
    );
    assert forall|k: int| 0 <= k < ncode implies decoded[k] == code[k] by {
        assert(b.subrange(16 + 8 * k, 16 + 8 * k + 8) =~= code_bytes(code).subrange(
            8 * k,
            8 * k + 8,
        ));
        lemma_instr_decode_encode(code[k]);
    }
    assert(decoded =~= code);
}

/// Saving what was loaded gives back the file: a file `parse_program`
/// accepts is exactly the encoding of the program it yields.
pub proof fn lemma_program_resaves(b: Seq<u8>)
    requires
        parse_program(b) is Ok,
    ensures
        program_bytes(parse_program(b)->Ok_0.0, parse_program(b)->Ok_0.1) == b,
{
    let code = parse_program(b)->Ok_0.0;
    let data = parse_program(b)->Ok_0.1;
    let ncode = le_u32(b.subrange(8, 12)) as int;
    lemma_code_bytes(code);
    lemma_u32_le_of_le_u32(b.subrange(4, 8));
    lemma_u32_le_of_le_u32(b.subrange(8, 12));
    lemma_u32_le_of_le_u32(b.subrange(12, 16));
    let cb = code_bytes(code);
    assert forall|j: int| 0 <= j < 8 * ncode implies #[trigger] cb[j] == b[16 + j] by {
        let k = j / 8;
        assert(0 <= k < ncode && 8 * k <= j < 8 * k + 8) by (nonlinear_arith)
            requires
                0 <= j < 8 * ncode,
                k == j / 8,
        ;
        let piece = b.subrange(16 + 8 * k, 16 + 8 * k + 8);
        assert(code[k] == instr_of_bytes(piece));
        lemma_instr_encode_decode(piece);
        assert(cb.subrange(8 * k, 8 * k + 8) == instr_bytes(code[k]));
        assert(cb[j] == cb.subrange(8 * k, 8 * k + 8)[j - 8 * k]);
        assert(piece[j - 8 * k] == b[16 + j]);
    }
    assert(b.subrange(0, 4) =~= program_magic());
    assert(program_bytes(code, data) =~= b);
}

impl Program {
    /// The program file: see `program_bytes`.
    pub fn to_bytes(&self) -> (r: Vec<u8>)
        requires
            16 + self.code@.len() * 8 + self.data@.len() <= usize::MAX,
        ensures
            r@ == program_bytes(self.code@, self.data@),
    {
        let mut b: Vec<u8> = Vec::new();
        b.push(72u8);
        b.push(76u8);
        b.push(89u8);
        b.push(68u8);
        push_u32_le(&mut b, 1);
        push_u32_le(&mut b, self.code.len() as u32);
        push_u32_le(&mut b, self.data.len() as u32);
        let ghost head = b@;
        let mut k: usize = 0;
        while k < self.code.len()
            invariant
                k <= self.code@.len(),
                b@ == head + code_bytes(self.code@.subrange(0, k as int)),
            decreases self.code@.len() - k,
        {
            let enc = self.code[k].to_bytes();
            let mut j: usize = 0;
            let ghost before = b@;
            while j < 8
                invariant
                    j <= 8,
                    enc@ == instr_bytes(self.code@[k as int]),
                    b@ == before + enc@.subrange(0, j as int),
                decreases 8 - j,
            {
                b.push(enc[j]);
                j = j + 1;
                assert(b@ =~= before + enc@.subrange(0, j as int));
            }
            assert(self.code@.subrange(0, k + 1).drop_last() =~= self.code@.subrange(0, k as int));
            k = k + 1;
            assert(b@ =~= head + code_bytes(self.code@.subrange(0, k as int)));
        }
        assert(self.code@.subrange(0, k as int) =~= self.code@);
        let ghost mid = b@;
        let mut j: usize = 0;
        while j < self.data.len()
            invariant
                j <= self.data@.len(),
                b@ == mid + self.data@.subrange(0, j as int),
            decreases self.data@.len() - j,
        {
            b.push(self.data[j]);
            j = j + 1;
            assert(b@ =~= mid + self.data@.subrange(0, j as int));
        }
        assert(b@ =~= program_bytes(self.code@, self.data@));
        b
    }

    /// Loads a program file: see `parse_program`.
    pub fn from_bytes(b: &[u8]) -> (r: Result<Program, String>)
        ensures
            match (r, parse_program(b@)) {
                (Ok(p), Ok((code, data))) => p.code@ == code && p.data@ == data,
                (Err(e), Err(m)) => e@ == m,
                _ => false,
            },
    {
        let magic_ok = b.len() >= 16 && b[0] == 72u8 && b[1] == 76u8 && b[2] == 89u8 && b[3]
            == 68u8;
        if !magic_ok {
            proof {
                if b@.len() >= 16 {
                    assert(b@.subrange(0, 4) != program_magic()) by {
                        if b@.subrange(0, 4) == program_magic() {
                            assert(b@.subrange(0, 4)[0] == b@[0]);
                            assert(b@.subrange(0, 4)[1] == b@[1]);
                            assert(b@.subrange(0, 4)[2] == b@[2]);
                            assert(b@.subrange(0, 4)[3] == b@[3]);
                        }
                    }
                }
            }
            let mut m: Vec<char> = Vec::new();
            push_str(&mut m, "not a Halyard program (bad magic)");
            return Err(string_of(&m));
        }
        assert(b@.subrange(0, 4) =~= program_magic());
        let ver = read_u32_le(b, 4);
        if ver != 1 {
            let mut m: Vec<char> = Vec::new();
            push_str(&mut m, "unsupported program version ");
            push_dec(&mut m, ver as u64);
            return Err(string_of(&m));
        }
        let ncode = read_u32_le(b, 8) as usize;
        let ndata = read_u32_le(b, 12) as usize;
        let need: Option<usize> = match ncode.checked_mul(8) {
            Some(c8) => match 16usize.checked_add(c8) {
                Some(n1) => n1.checked_add(ndata),
                None => None,
            },
            None => None,
        };
        let need = match need {
            Some(n) => n,
            None => {
                let mut m: Vec<char> = Vec::new();
                push_str(&mut m, "size overflow");
                return Err(string_of(&m));
            },
        };
        if b.len() != need {
            let mut m: Vec<char> = Vec::new();
            push_str(&mut m, "truncated program: expected ");
            push_dec(&mut m, need as u64);
            push_str(&mut m, " bytes, got ");
            push_dec(&mut m, b.len() as u64);
            return Err(string_of(&m));
        }
        let mut code: Vec<Instr> = Vec::new();
        let mut k: usize = 0;
        while k < ncode
            invariant
                k <= ncode,
                b@.len() == 16 + ncode * 8 + ndata,
                16 + ncode * 8 + ndata <= usize::MAX,
                code@ == Seq::new(
                    k as nat,
                    |q: int| instr_of_bytes(b@.subrange(16 + 8 * q, 16 + 8 * q + 8)),
                ),
            decreases ncode - k,
        {
            let p = 16 + 8 * k;
            let enc: [u8; 8] = [b[p], b[p + 1], b[p + 2], b[p + 3], b[p + 4], b[p + 5], b[p + 6], b[p + 7]];
            assert(enc@ =~= b@.subrange(p as int, p + 8));
            code.push(Instr::from_bytes(enc));
            k = k + 1;
            assert(code@ =~= Seq::new(
                k as nat,
                |q: int| instr_of_bytes(b@.subrange(16 + 8 * q, 16 + 8 * q + 8)),
            ));
        }
        let mut data: Vec<u8> = Vec::new();
        let start = 16 + ncode * 8;
        let mut j = start;
        while j < b.len()
            invariant
                start <= j <= b@.len(),
                data@ == b@.subrange(start as int, j as int),
            decreases b@.len() - j,
        {
            data.push(b[j]);
            j = j + 1;
            assert(data@ =~= b@.subrange(start as int, j as int));
        }
        Ok(Program { code, data })
    }
}

} // verus!
