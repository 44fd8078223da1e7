//! Byte images of a machine: the sequence its state hash is computed over,
//! and the snapshot format that `restore` reads back.

use vstd::prelude::*;
use crate::le::{
    i64_le, le_i64, le_u32, le_u64, lemma_le_i64_of_i64_le, lemma_le_u32_of_u32_le,
    lemma_le_u64_of_u64_le, u32_le, u64_le,
};
use crate::semantics::MachineState;
use crate::vm::Status;

verus! {

/// The encodings of signed words, one after another.
pub open spec fn i64s_le(v: Seq<i64>) -> Seq<u8>
    decreases v.len(),
{
    if v.len() == 0 {
        Seq::empty()
    } else {
        i64s_le(v.drop_last()) + i64_le(v.last())
    }
}

/// The encodings of 32-bit words, one after another.
pub open spec fn u32s_le(v: Seq<u32>) -> Seq<u8>
    decreases v.len(),
{
    if v.len() == 0 {
        Seq::empty()
    } else {
        u32s_le(v.drop_last()) + u32_le(v.last())
    }
}

/// The handler as stored: its index, or `u32::MAX` for none.
pub open spec fn handler_word(h: Option<u32>) -> u32 {
    match h {
        Some(x) => x,
        None => u32::MAX,
    }
}

/// The bytes the state hash is computed over: registers, pc, memory, data
/// stack, call stack, heap pointer, handler, gas and generator state.
pub open spec fn state_bytes(s: MachineState) -> Seq<u8> {
    i64s_le(s.regs) + u32_le(s.pc) + s.mem + i64s_le(s.stack) + u32s_le(s.calls) + u64_le(
        s.heap as u64,
    ) + u32_le(handler_word(s.handler)) + u64_le(s.gas_used) + u64_le(s.rng)
}

/// The 64-bit FNV-1a offset basis.
pub open spec fn fnv_basis() -> u64 {
    0xcbf2_9ce4_8422_2325u64
}

/// FNV-1a, continued from `h` over `bytes`.
pub open spec fn fnv(h: u64, bytes: Seq<u8>) -> u64
    decreases bytes.len(),
{
    if bytes.len() == 0 {
        h
    } else {
        vstd::wrapping::u64_specs::wrapping_mul(
            fnv(h, bytes.drop_last()) ^ (bytes.last() as u64),
            0x0000_0100_0000_01b3u64,
        )
    }
}

/// The state hash of a machine.
pub open spec fn state_hash(s: MachineState) -> u64 {
    fnv(fnv_basis(), state_bytes(s))
}

/// The snapshot's status byte.
pub open spec fn status_byte(st: Status) -> u8 {
    match st {
        Status::Running => 0,
        Status::Halted => 1,
        Status::OutOfGas => 2,
        Status::Trapped(_) => 3,
    }
}

/// The snapshot's trap code field.
pub open spec fn status_code(st: Status) -> i64 {
    match st {
        Status::Trapped(c) => c,
        _ => 0,
    }
}

/// A length-prefixed byte string.
pub open spec fn blob(x: Seq<u8>) -> Seq<u8> {
    u32_le(x.len() as u32) + x
}

/// Length-prefixed byte strings, one after another.
pub open spec fn blobs(v: Seq<Seq<u8>>) -> Seq<u8>
    decreases v.len(),
{
    if v.len() == 0 {
        Seq::empty()
    } else {
        blobs(v.drop_last()) + blob(v.last())
    }
}

/// The snapshot magic, `HSNP`.
pub open spec fn snapshot_magic() -> Seq<u8> {
    seq![72u8, 83u8, 78u8, 80u8]
}

/// The fixed-size part of a snapshot: magic, registers, pc, heap, handler,
/// gas, generator state, status byte and trap code.
pub open spec fn snapshot_header(s: MachineState) -> Seq<u8> {
    snapshot_magic() + i64s_le(s.regs) + u32_le(s.pc) + u64_le(s.heap as u64) + u32_le(
        handler_word(s.handler),
    ) + u64_le(s.gas_used) + u64_le(s.rng) + seq![status_byte(s.status)] + i64_le(
        status_code(s.status),
    )
}

/// A snapshot: the header, then memory, data stack, call stack and output
/// as length-prefixed blobs, then the number of events and each event.
pub open spec fn snapshot_bytes(s: MachineState) -> Seq<u8> {
    snapshot_header(s) + blob(s.mem) + blob(i64s_le(s.stack)) + blob(u32s_le(s.calls)) + blob(
        s.output,
    ) + u32_le(s.events.len() as u32) + blobs(s.events)
}

/// The size of the header of a machine with sixteen registers.
pub open spec fn header_len() -> int {
    173
}

/// What a snapshot holds, as `restore` reads it.
pub struct SnapshotData {
    pub regs: Seq<i64>,
    pub pc: u32,
    pub heap: u64,
    pub handler: u32,
    pub gas_used: u64,
    pub rng: u64,
    pub status: u8,
    pub code: i64,
    pub mem: Seq<u8>,
    pub stack: Seq<u8>,
    pub calls: Seq<u8>,
    pub output: Seq<u8>,
    pub events: Seq<Seq<u8>>,
}

/// The length-prefixed blob at `pos`, and where it ends.
pub open spec fn take_blob(b: Seq<u8>, pos: int) -> Option<(Seq<u8>, int)> {
    if pos + 4 > b.len() {
        None
    } else {
        let n = le_u32(b.subrange(pos, pos + 4)) as int;
        if pos + 4 + n > b.len() {
            None
        } else {
            Some((b.subrange(pos + 4, pos + 4 + n), pos + 4 + n))
        }
    }
}

/// `count` blobs from `pos` on, and where they end.
pub open spec fn take_blobs(b: Seq<u8>, pos: int, count: nat) -> Option<(Seq<Seq<u8>>, int)>
    decreases count,
{
    if count == 0 {
        Some((Seq::empty(), pos))
    } else {
        match take_blobs(b, pos, (count - 1) as nat) {
            Some((v, p)) => match take_blob(b, p) {
                Some((x, q)) => Some((v.push(x), q)),
                None => None,
            },
            None => None,
        }
    }
}

/// The register file of a header.
pub open spec fn header_regs(b: Seq<u8>) -> Seq<i64> {
    Seq::new(16, |k: int| le_i64(b.subrange(4 + 8 * k, 4 + 8 * k + 8)))
}

/// How `restore` reads a snapshot: its contents, or why it is refused.
pub open spec fn parse_snapshot(b: Seq<u8>) -> Result<SnapshotData, Seq<char>> {
    if b.len() < 4 {
        Err("truncated snapshot"@)
    } else if b.subrange(0, 4) != snapshot_magic() {
        Err("not a Halyard snapshot"@)
    } else if b.len() < header_len() {
        Err("truncated snapshot"@)
    } else {
        let h = header_len();
        match take_blob(b, h) {
            None => Err("truncated snapshot"@),
            Some((mem, p1)) => match take_blob(b, p1) {
                None => Err("truncated snapshot"@),
                Some((stack, p2)) => match take_blob(b, p2) {
                    None => Err("truncated snapshot"@),
                    Some((calls, p3)) => match take_blob(b, p3) {
                        None => Err("truncated snapshot"@),
                        Some((output, p4)) => if p4 + 4 > b.len() {
                            Err("truncated snapshot"@)
                        } else {
                            match take_blobs(b, p4 + 4, le_u32(b.subrange(p4, p4 + 4)) as nat) {
                                None => Err("truncated snapshot"@),
                                Some((events, _)) => Ok(
                                    SnapshotData {
                                        regs: header_regs(b),
                                        pc: le_u32(b.subrange(132, 136)),
                                        heap: le_u64(b.subrange(136, 144)),
                                        handler: le_u32(b.subrange(144, 148)),
                                        gas_used: le_u64(b.subrange(148, 156)),
                                        rng: le_u64(b.subrange(156, 164)),
                                        status: b[164],
                                        code: le_i64(b.subrange(165, 173)),
                                        mem,
                                        stack,
                                        calls,
                                        output,
                                        events,
                                    },
                                ),
                            }
                        },
                    },
                },
            },
        }
    }
}

/// The signed words whose encodings are the whole eight-byte groups of `b`
/// (a trailing partial group is ignored).
pub open spec fn words_i64(b: Seq<u8>) -> Seq<i64> {
    Seq::new((b.len() / 8) as nat, |k: int| le_i64(b.subrange(8 * k, 8 * k + 8)))
}

/// The 32-bit words whose encodings are the whole four-byte groups of `b`.
pub open spec fn words_u32(b: Seq<u8>) -> Seq<u32> {
    Seq::new((b.len() / 4) as nat, |k: int| le_u32(b.subrange(4 * k, 4 * k + 4)))
}

/// The status a snapshot's status byte and code stand for.
pub open spec fn status_of(st: u8, code: i64) -> Status {
    if st == 0 {
        Status::Running
    } else if st == 1 {
        Status::Halted
    } else if st == 2 {
        Status::OutOfGas
    } else {
        Status::Trapped(code)
    }
}

/// Whether a snapshot fits a machine: its pc lies within the code (or just
/// past it) and its heap pointer within its memory.
pub open spec fn snapshot_fits(d: SnapshotData, code_len: int) -> bool {
    d.pc <= code_len && (d.heap as usize) <= d.mem.len()
}

/// A machine after restoring a fitting snapshot: everything the snapshot
/// holds is replaced, the rest (code, input, capabilities, host functions,
/// limits, trace) stays.
pub open spec fn restored(s: MachineState, d: SnapshotData) -> MachineState {
    MachineState {
        regs: d.regs,
        pc: d.pc,
        heap: d.heap as usize,
        handler: if d.handler != u32::MAX { Some(d.handler) } else { None },
        gas_used: d.gas_used,
        rng: d.rng,
        status: status_of(d.status, d.code),
        mem: d.mem,
        stack: words_i64(d.stack),
        calls: words_u32(d.calls),
        output: d.output,
        events: d.events,
        ..s
    }
}

/// `i64s_le` is eight bytes per word, the `k`th eight encoding `v[k]`.
pub proof fn lemma_i64s_le(v: Seq<i64>)
    ensures
        i64s_le(v).len() == 8 * v.len(),
        forall|k: int|
            0 <= k < v.len() ==> #[trigger] i64s_le(v).subrange(8 * k, 8 * k + 8) == i64_le(v[k]),
    decreases v.len(),
{
    if v.len() > 0 {
        let init = v.drop_last();
        lemma_i64s_le(init);
        lemma_le_i64_of_i64_le(v.last());
        assert forall|k: int| 0 <= k < v.len() implies #[trigger] i64s_le(v).subrange(
            8 * k,
            8 * k + 8,
        ) == i64_le(v[k]) by {
            if k < init.len() {
                assert(i64s_le(v).subrange(8 * k, 8 * k + 8) =~= i64s_le(init).subrange(
                    8 * k,
                    8 * k + 8,
                ));
                assert(v[k] == init[k]);
            } else {
                assert(i64s_le(v).subrange(8 * k, 8 * k + 8) =~= i64_le(v.last()));
            }
        }
    }
}

/// Decoding the encodings of signed words gives them back.
pub proof fn lemma_words_i64(v: Seq<i64>)
    ensures
        words_i64(i64s_le(v)) == v,
{
    lemma_i64s_le(v);
    let b = i64s_le(v);
    assert(b.len() / 8 == v.len()) by (nonlinear_arith)
        requires
            b.len() == 8 * v.len(),
    ;
    assert forall|k: int| 0 <= k < v.len() implies #[trigger] words_i64(b)[k] == v[k] by {
        assert(b.subrange(8 * k, 8 * k + 8) == i64_le(v[k]));
        lemma_le_i64_of_i64_le(v[k]);
    }
    assert(words_i64(b) =~= v);
}

/// `u32s_le` is four bytes per word, the `k`th four encoding `v[k]`.
pub proof fn lemma_u32s_le(v: Seq<u32>)
    ensures
        u32s_le(v).len() == 4 * v.len(),
        forall|k: int|
            0 <= k < v.len() ==> #[trigger] u32s_le(v).subrange(4 * k, 4 * k + 4) == u32_le(v[k]),
    decreases v.len(),
{
    if v.len() > 0 {
        let init = v.drop_last();
        lemma_u32s_le(init);
        lemma_le_u32_of_u32_le(v.last());
        assert forall|k: int| 0 <= k < v.len() implies #[trigger] u32s_le(v).subrange(
            4 * k,
            4 * k + 4,
        ) == u32_le(v[k]) by {
            if k < init.len() {
                assert(u32s_le(v).subrange(4 * k, 4 * k + 4) =~= u32s_le(init).subrange(
                    4 * k,
                    4 * k + 4,
                ));
                assert(v[k] == init[k]);
            } else {
                assert(u32s_le(v).subrange(4 * k, 4 * k + 4) =~= u32_le(v.last()));
            }
        }
    }
}

/// Decoding the encodings of 32-bit words gives them back.
pub proof fn lemma_words_u32(v: Seq<u32>)
    ensures
        words_u32(u32s_le(v)) == v,
{
    lemma_u32s_le(v);
    let b = u32s_le(v);
    assert(b.len() / 4 == v.len()) by (nonlinear_arith)
        requires
            b.len() == 4 * v.len(),
    ;
    assert forall|k: int| 0 <= k < v.len() implies #[trigger] words_u32(b)[k] == v[k] by {
        assert(b.subrange(4 * k, 4 * k + 4) == u32_le(v[k]));
        lemma_le_u32_of_u32_le(v[k]);
    }
    assert(words_u32(b) =~= v);
}

/// A blob written at `pos` is read back from `pos`.
pub proof fn lemma_take_blob(b: Seq<u8>, pos: int, x: Seq<u8>)
    requires
        0 <= pos,
        pos + 4 + x.len() <= b.len(),
        x.len() <= u32::MAX,
        b.subrange(pos, pos + 4 + x.len()) == blob(x),
    ensures
        take_blob(b, pos) == Some::<(Seq<u8>, int)>((x, pos + 4 + x.len())),
{
    lemma_le_u32_of_u32_le(x.len() as u32);
    assert(b.subrange(pos, pos + 4) =~= blob(x).subrange(0, 4));
    assert(blob(x).subrange(0, 4) =~= u32_le(x.len() as u32));
    assert(b.subrange(pos + 4, pos + 4 + x.len()) =~= blob(x).subrange(4, 4 + x.len() as int));
    assert(blob(x).subrange(4, 4 + x.len() as int) =~= x);
}

/// Blobs written one after another from `pos` are read back from `pos`.
pub proof fn lemma_take_blobs(b: Seq<u8>, pos: int, v: Seq<Seq<u8>>)
    requires
        0 <= pos,
        pos + blobs(v).len() <= b.len(),
        forall|k: int| 0 <= k < v.len() ==> (#[trigger] v[k]).len() <= u32::MAX,
        b.subrange(pos, pos + blobs(v).len()) == blobs(v),
    ensures
        take_blobs(b, pos, v.len()) == Some::<(Seq<Seq<u8>>, int)>((v, pos + blobs(v).len())),
    decreases v.len(),
{
    if v.len() > 0 {
        let init = v.drop_last();
        let x = v.last();
        assert(blobs(v) == blobs(init) + blob(x));
        assert(b.subrange(pos, pos + blobs(init).len()) =~= blobs(v).subrange(
            0,
            blobs(init).len() as int,
        ));
        assert(blobs(v).subrange(0, blobs(init).len() as int) =~= blobs(init));
        lemma_take_blobs(b, pos, init);
        let p = pos + blobs(init).len();
        assert(b.subrange(p, p + 4 + x.len()) =~= blobs(v).subrange(
            blobs(init).len() as int,
            blobs(v).len() as int,
        ));
        assert(blobs(v).subrange(blobs(init).len() as int, blobs(v).len() as int) =~= blob(x));
        lemma_take_blob(b, p, x);
        assert(init.push(x) =~= v);
    } else {
        assert(v =~= Seq::<Seq<u8>>::empty());
    }
}

/// A machine whose snapshot can be read back exactly: every length the
/// snapshot stores fits its 32-bit field, and the handler is not the
/// stored "none" value.
pub open spec fn snapshot_storable(s: MachineState) -> bool {
    &&& s.regs.len() == 16
    &&& s.mem.len() <= u32::MAX
    &&& 8 * s.stack.len() <= u32::MAX
    &&& 4 * s.calls.len() <= u32::MAX
    &&& s.output.len() <= u32::MAX
    &&& s.events.len() <= u32::MAX
    &&& forall|k: int| 0 <= k < s.events.len() ==> (#[trigger] s.events[k]).len() <= u32::MAX
    &&& s.handler != Some(u32::MAX)
}

/// A subrange that lies inside the second part of a concatenation.
proof fn lemma_subrange_right(x: Seq<u8>, y: Seq<u8>, i: int, j: int)
    requires
        0 <= i <= j <= y.len(),
    ensures
        (x + y).subrange(x.len() + i, x.len() + j) == y.subrange(i, j),
{
    assert((x + y).subrange(x.len() + i, x.len() + j) =~= y.subrange(i, j));
}

/// The part of a snapshot after its header.
pub open spec fn snapshot_tail(s: MachineState) -> Seq<u8> {
    blob(s.mem) + blob(i64s_le(s.stack)) + blob(u32s_le(s.calls)) + blob(s.output) + u32_le(
        s.events.len() as u32,
    ) + blobs(s.events)
}

proof fn lemma_header_fields(s: MachineState, b: Seq<u8>)
    requires
        s.regs.len() == 16,
        b.len() >= 173,
        b.subrange(0, 173) == snapshot_header(s),
    ensures
        b.subrange(0, 4) == snapshot_magic(),
        header_regs(b) == s.regs,
        le_u32(b.subrange(132, 136)) == s.pc,
        le_u64(b.subrange(136, 144)) == s.heap as u64,
        le_u32(b.subrange(144, 148)) == handler_word(s.handler),
        le_u64(b.subrange(148, 156)) == s.gas_used,
        le_u64(b.subrange(156, 164)) == s.rng,
        b[164] == status_byte(s.status),
        le_i64(b.subrange(165, 173)) == status_code(s.status),
{
    let regs = i64s_le(s.regs);
    lemma_i64s_le(s.regs);
    let p1 = snapshot_magic() + regs;
    let p2 = p1 + u32_le(s.pc);
    let p3 = p2 + u64_le(s.heap as u64);
    let p4 = p3 + u32_le(handler_word(s.handler));
    let p5 = p4 + u64_le(s.gas_used);
    let p6 = p5 + u64_le(s.rng);
    let p7 = p6 + seq![status_byte(s.status)];
    let hd = p7 + i64_le(status_code(s.status));
    assert(hd == snapshot_header(s));
    assert(b.subrange(0, 165) == p7) by {
        assert(b.subrange(0, 165) =~= hd.subrange(0, 165));
        assert(hd.subrange(0, 165) =~= p7);
    }
    assert(b.subrange(0, 164) == p6) by {
        assert(b.subrange(0, 164) =~= p7.subrange(0, 164));
        assert(p7.subrange(0, 164) =~= p6);
    }
    assert(b.subrange(0, 156) == p5) by {
        assert(b.subrange(0, 156) =~= p6.subrange(0, 156));
        assert(p6.subrange(0, 156) =~= p5);
    }
    assert(b.subrange(0, 148) == p4) by {
        assert(b.subrange(0, 148) =~= p5.subrange(0, 148));
        assert(p5.subrange(0, 148) =~= p4);
    }
    assert(b.subrange(0, 144) == p3) by {
        assert(b.subrange(0, 144) =~= p4.subrange(0, 144));
        assert(p4.subrange(0, 144) =~= p3);
    }
    assert(b.subrange(0, 136) == p2) by {
        assert(b.subrange(0, 136) =~= p3.subrange(0, 136));
        assert(p3.subrange(0, 136) =~= p2);
    }
    assert(b.subrange(0, 132) == p1) by {
        assert(b.subrange(0, 132) =~= p2.subrange(0, 132));
        assert(p2.subrange(0, 132) =~= p1);
    }
    assert(b.subrange(0, 4) == snapshot_magic()) by {
        assert(b.subrange(0, 4) =~= p1.subrange(0, 4));
    }
    assert(b.subrange(165, 173) == i64_le(status_code(s.status))) by {
        assert(b.subrange(165, 173) =~= hd.subrange(165, 173));
    }
    lemma_le_i64_of_i64_le(status_code(s.status));
    assert(b[164] == p7[164]);
    assert(b.subrange(156, 164) == u64_le(s.rng)) by {
        assert(b.subrange(156, 164) =~= p6.subrange(156, 164));
    }
    lemma_le_u64_of_u64_le(s.rng);
    assert(b.subrange(148, 156) == u64_le(s.gas_used)) by {
        assert(b.subrange(148, 156) =~= p5.subrange(148, 156));
    }
    lemma_le_u64_of_u64_le(s.gas_used);
    assert(b.subrange(144, 148) == u32_le(handler_word(s.handler))) by {
        assert(b.subrange(144, 148) =~= p4.subrange(144, 148));
    }
    lemma_le_u32_of_u32_le(handler_word(s.handler));
    assert(b.subrange(136, 144) == u64_le(s.heap as u64)) by {
        assert(b.subrange(136, 144) =~= p3.subrange(136, 144));
    }
    lemma_le_u64_of_u64_le(s.heap as u64);
    assert(b.subrange(132, 136) == u32_le(s.pc)) by {
        assert(b.subrange(132, 136) =~= p2.subrange(132, 136));
    }
    lemma_le_u32_of_u32_le(s.pc);
    assert forall|k: int| 0 <= k < 16 implies #[trigger] header_regs(b)[k] == s.regs[k] by {
        assert(b.subrange(4 + 8 * k, 4 + 8 * k + 8) =~= p1.subrange(4 + 8 * k, 4 + 8 * k + 8));
        assert(p1.subrange(4 + 8 * k, 4 + 8 * k + 8) =~= regs.subrange(8 * k, 8 * k + 8));
        lemma_le_i64_of_i64_le(s.regs[k]);
    }
    assert(header_regs(b) =~= s.regs);
}

#[verifier::rlimit(60)]
proof fn lemma_tail_blobs(s: MachineState, b: Seq<u8>)
    requires
        snapshot_storable(s),
        b == snapshot_header(s) + snapshot_tail(s),
        snapshot_header(s).len() == 173,
    ensures
        ({
            let sb = i64s_le(s.stack);
            let cb = u32s_le(s.calls);
            let p1: int = 173 + 4 + s.mem.len() as int;
            let p2: int = p1 + 4 + sb.len();
            let p3: int = p2 + 4 + cb.len();
            let p4: int = p3 + 4 + s.output.len();
            &&& take_blob(b, 173) == Some::<(Seq<u8>, int)>((s.mem, p1))
            &&& take_blob(b, p1) == Some::<(Seq<u8>, int)>((sb, p2))
            &&& take_blob(b, p2) == Some::<(Seq<u8>, int)>((cb, p3))
            &&& take_blob(b, p3) == Some::<(Seq<u8>, int)>((s.output, p4))
            &&& p4 + 4 <= b.len()
            &&& take_blobs(b, p4 + 4, le_u32(b.subrange(p4, p4 + 4)) as nat) == Some::<
                (Seq<Seq<u8>>, int),
            >((s.events, p4 + 4 + blobs(s.events).len()))
        }),
{
    let hd = snapshot_header(s);
    let sb = i64s_le(s.stack);
    let cb = u32s_le(s.calls);
    lemma_i64s_le(s.stack);
    lemma_u32s_le(s.calls);
    let t = snapshot_tail(s);
    let m1 = blob(s.mem).len() as int;
    let m2 = m1 + blob(sb).len();
    let m3 = m2 + blob(cb).len();
    let m4 = m3 + blob(s.output).len();
    assert(t.len() == m4 + 4 + blobs(s.events).len());
    assert(take_blob(b, 173) == Some::<(Seq<u8>, int)>((s.mem, 173 + m1))) by {
        assert(t.subrange(0, m1) =~= blob(s.mem));
        lemma_subrange_right(hd, t, 0, m1);
        lemma_take_blob(b, 173, s.mem);
    }
    assert(take_blob(b, 173 + m1) == Some::<(Seq<u8>, int)>((sb, 173 + m2))) by {
        assert(t.subrange(m1, m2) =~= blob(sb));
        lemma_subrange_right(hd, t, m1, m2);
        lemma_take_blob(b, 173 + m1, sb);
    }
    assert(take_blob(b, 173 + m2) == Some::<(Seq<u8>, int)>((cb, 173 + m3))) by {
        assert(t.subrange(m2, m3) =~= blob(cb));
        lemma_subrange_right(hd, t, m2, m3);
        lemma_take_blob(b, 173 + m2, cb);
    }
    assert(take_blob(b, 173 + m3) == Some::<(Seq<u8>, int)>((s.output, 173 + m4))) by {
        assert(t.subrange(m3, m4) =~= blob(s.output));
        lemma_subrange_right(hd, t, m3, m4);
        lemma_take_blob(b, 173 + m3, s.output);
    }
    assert(le_u32(b.subrange(173 + m4, 173 + m4 + 4)) == s.events.len()) by {
        assert(t.subrange(m4, m4 + 4) =~= u32_le(s.events.len() as u32));
        lemma_subrange_right(hd, t, m4, m4 + 4);
        lemma_le_u32_of_u32_le(s.events.len() as u32);
    }
    assert(take_blobs(b, 173 + m4 + 4, s.events.len()) == Some::<(Seq<Seq<u8>>, int)>(
        (s.events, 173 + m4 + 4 + blobs(s.events).len()),
    )) by {
        assert(t.subrange(m4 + 4, t.len() as int) =~= blobs(s.events));
        lemma_subrange_right(hd, t, m4 + 4, t.len() as int);
        lemma_take_blobs(b, 173 + m4 + 4, s.events);
    }
}

/// What the snapshot of `s` holds.
pub open spec fn snapshot_data(s: MachineState) -> SnapshotData {
    SnapshotData {
        regs: s.regs,
        pc: s.pc,
        heap: s.heap as u64,
        handler: handler_word(s.handler),
        gas_used: s.gas_used,
        rng: s.rng,
        status: status_byte(s.status),
        code: status_code(s.status),
        mem: s.mem,
        stack: i64s_le(s.stack),
        calls: u32s_le(s.calls),
        output: s.output,
        events: s.events,
    }
}

#[verifier::rlimit(40)]
proof fn lemma_parse_snapshot_bytes(s: MachineState)
    requires
        snapshot_storable(s),
    ensures
        parse_snapshot(snapshot_bytes(s)) == Ok::<SnapshotData, Seq<char>>(snapshot_data(s)),
{
    let b = snapshot_bytes(s);
    let hd = snapshot_header(s);
    lemma_i64s_le(s.regs);
    assert(hd.len() == 173);
    assert(b =~= hd + snapshot_tail(s));
    assert(b.subrange(0, 173) =~= hd);
    lemma_header_fields(s, b);
    lemma_tail_blobs(s, b);
}

proof fn lemma_restored_data(s: MachineState, t: MachineState)
    requires
        snapshot_storable(s),
    ensures
        restored(t, snapshot_data(s)) == (MachineState {
            regs: s.regs,
            pc: s.pc,
            mem: s.mem,
            stack: s.stack,
            calls: s.calls,
            heap: s.heap,
            handler: s.handler,
            gas_used: s.gas_used,
            output: s.output,
            events: s.events,
            status: s.status,
            rng: s.rng,
            ..t
        }),
{
    lemma_words_i64(s.stack);
    lemma_words_u32(s.calls);
    assert((s.heap as u64) as usize == s.heap);
    assert(status_of(status_byte(s.status), status_code(s.status)) == s.status);
}

/// Restoring a machine's snapshot brings back everything the snapshot
/// holds: registers, pc, memory, both stacks, heap pointer, handler, gas,
/// generator state, status, output and events. It is accepted whenever the
/// pc fits the restoring machine's code and the heap pointer the memory.
pub proof fn lemma_snapshot_round_trip(s: MachineState, t: MachineState)
    requires
        snapshot_storable(s),
        s.pc <= t.code.len(),
        s.heap <= s.mem.len(),
    ensures
        parse_snapshot(snapshot_bytes(s)) is Ok,
        snapshot_fits(parse_snapshot(snapshot_bytes(s))->Ok_0, t.code.len() as int),
        restored(t, parse_snapshot(snapshot_bytes(s))->Ok_0) == (MachineState {
            regs: s.regs,
            pc: s.pc,
            mem: s.mem,
            stack: s.stack,
            calls: s.calls,
            heap: s.heap,
            handler: s.handler,
            gas_used: s.gas_used,
            output: s.output,
            events: s.events,
            status: s.status,
            rng: s.rng,
            ..t
        }),
{
    lemma_parse_snapshot_bytes(s);
    lemma_restored_data(s, t);
    assert((s.heap as u64) as usize == s.heap);
}

/// The state hash depends only on the state it covers: machines that
/// agree on registers, pc, memory, stacks, heap pointer, handler, gas and
/// generator state hash equally.
pub proof fn lemma_state_hash_covers(s: MachineState, t: MachineState)
    requires
        s.regs == t.regs,
        s.pc == t.pc,
        s.mem == t.mem,
        s.stack == t.stack,
        s.calls == t.calls,
        s.heap == t.heap,
        s.handler == t.handler,
        s.gas_used == t.gas_used,
        s.rng == t.rng,
    ensures
        state_hash(s) == state_hash(t),
{
}

/// A machine restored from a snapshot has the state hash of the machine
/// the snapshot was taken from.
pub proof fn lemma_restore_keeps_hash(s: MachineState, t: MachineState)
    requires
        snapshot_storable(s),
        s.pc <= t.code.len(),
        s.heap <= s.mem.len(),
    ensures
        state_hash(restored(t, parse_snapshot(snapshot_bytes(s))->Ok_0)) == state_hash(s),
{
    lemma_snapshot_round_trip(s, t);
    lemma_state_hash_covers(restored(t, parse_snapshot(snapshot_bytes(s))->Ok_0), s);
}

/// The bytes the state hash covers determine the state they cover: two
/// machines with memories of one size and data stacks of one depth (the
/// byte image does not mark where memory, data stack and call stack end)
/// and with handlers that are not `u32::MAX` (the word that stands for
/// none) have the same byte image only when their registers, pc, memory,
/// data stack, call stack, heap pointer, handler, gas and generator state
/// are the same.
pub proof fn lemma_state_bytes_determine(s: MachineState, t: MachineState)
    requires
        s.regs.len() == 16,
        t.regs.len() == 16,
        s.mem.len() == t.mem.len(),
        s.stack.len() == t.stack.len(),
        s.handler != Some(u32::MAX),
        t.handler != Some(u32::MAX),
        state_bytes(s) == state_bytes(t),
    ensures
        s.regs == t.regs,
        s.pc == t.pc,
        s.mem == t.mem,
        s.stack == t.stack,
        s.calls == t.calls,
        s.heap == t.heap,
        s.handler == t.handler,
        s.gas_used == t.gas_used,
        s.rng == t.rng,
{
    lemma_i64s_le(s.regs);
    lemma_i64s_le(t.regs);
    lemma_i64s_le(s.stack);
    lemma_i64s_le(t.stack);
    lemma_u32s_le(s.calls);
    lemma_u32s_le(t.calls);
    lemma_le_u32_of_u32_le(s.pc);
    lemma_le_u32_of_u32_le(t.pc);
    lemma_le_u32_of_u32_le(handler_word(s.handler));
    lemma_le_u32_of_u32_le(handler_word(t.handler));
    lemma_le_u64_of_u64_le(s.heap as u64);
    lemma_le_u64_of_u64_le(t.heap as u64);
    lemma_le_u64_of_u64_le(s.gas_used);
    lemma_le_u64_of_u64_le(t.gas_used);
    lemma_le_u64_of_u64_le(s.rng);
    lemma_le_u64_of_u64_le(t.rng);
    let b = state_bytes(s);
    let m = s.mem.len() as int;
    let k = 8 * s.stack.len() as int;
    let c1 = 4 * s.calls.len() as int;
    let c2 = 4 * t.calls.len() as int;
    assert(state_bytes(s).len() == 128 + 4 + m + k + c1 + 28);
    assert(state_bytes(t).len() == 128 + 4 + m + k + c2 + 28);
    assert(c1 == c2);
    let p0 = 128int;
    let p1 = p0 + 4;
    let p2 = p1 + m;
    let p3 = p2 + k;
    let p4 = p3 + c1;
    assert(b.subrange(0, p0) =~= i64s_le(s.regs));
    assert(state_bytes(t).subrange(0, p0) =~= i64s_le(t.regs));
    assert(b.subrange(p0, p1) =~= u32_le(s.pc));
    assert(state_bytes(t).subrange(p0, p1) =~= u32_le(t.pc));
    assert(b.subrange(p1, p2) =~= s.mem);
    assert(state_bytes(t).subrange(p1, p2) =~= t.mem);
    assert(b.subrange(p2, p3) =~= i64s_le(s.stack));
    assert(state_bytes(t).subrange(p2, p3) =~= i64s_le(t.stack));
    assert(b.subrange(p3, p4) =~= u32s_le(s.calls));
    assert(state_bytes(t).subrange(p3, p4) =~= u32s_le(t.calls));
    assert(b.subrange(p4, p4 + 8) =~= u64_le(s.heap as u64));
    assert(state_bytes(t).subrange(p4, p4 + 8) =~= u64_le(t.heap as u64));
    assert(b.subrange(p4 + 8, p4 + 12) =~= u32_le(handler_word(s.handler)));
    assert(state_bytes(t).subrange(p4 + 8, p4 + 12) =~= u32_le(handler_word(t.handler)));
    assert(b.subrange(p4 + 12, p4 + 20) =~= u64_le(s.gas_used));
    assert(state_bytes(t).subrange(p4 + 12, p4 + 20) =~= u64_le(t.gas_used));
    assert(b.subrange(p4 + 20, p4 + 28) =~= u64_le(s.rng));
    assert(state_bytes(t).subrange(p4 + 20, p4 + 28) =~= u64_le(t.rng));
    lemma_words_i64(s.regs);
    lemma_words_i64(t.regs);
    lemma_words_i64(s.stack);
    lemma_words_i64(t.stack);
    lemma_words_u32(s.calls);
    lemma_words_u32(t.calls);
    assert(s.handler == t.handler) by {
        match (s.handler, t.handler) {
            (Some(x), Some(y)) => {},
            (None, None) => {},
            (Some(x), None) => {},
            (None, Some(y)) => {},
        }
    }
}

/// Where each part of the machine stands in the bytes its state hash
/// covers, read back: the sixteen registers as eight-byte words, the pc as
/// four bytes, memory as it is, the data stack bottom first as eight-byte
/// words, the call stack as four-byte words, then the heap pointer, the
/// handler word (`u32::MAX` for none), the gas used and the generator
/// state, all little-endian.
pub proof fn lemma_state_bytes_layout(s: MachineState)
    requires
        s.regs.len() == 16,
    ensures
        ({
            let b = state_bytes(s);
            let p2: int = 132 + s.mem.len() as int;
            let p3: int = p2 + 8 * s.stack.len();
            let p4: int = p3 + 4 * s.calls.len();
            &&& b.len() == p4 + 28
            &&& words_i64(b.subrange(0, 128)) == s.regs
            &&& le_u32(b.subrange(128, 132)) == s.pc
            &&& b.subrange(132, p2) == s.mem
            &&& words_i64(b.subrange(p2, p3)) == s.stack
            &&& words_u32(b.subrange(p3, p4)) == s.calls
            &&& le_u64(b.subrange(p4, p4 + 8)) == s.heap
            &&& le_u32(b.subrange(p4 + 8, p4 + 12)) == (match s.handler {
                Some(h) => h,
                None => u32::MAX,
            })
            &&& le_u64(b.subrange(p4 + 12, p4 + 20)) == s.gas_used
            &&& le_u64(b.subrange(p4 + 20, p4 + 28)) == s.rng
        }),
{
    lemma_i64s_le(s.regs);
    lemma_i64s_le(s.stack);
    lemma_u32s_le(s.calls);
    lemma_le_u32_of_u32_le(s.pc);
    lemma_le_u32_of_u32_le(handler_word(s.handler));
    lemma_le_u64_of_u64_le(s.heap as u64);
    lemma_le_u64_of_u64_le(s.gas_used);
    lemma_le_u64_of_u64_le(s.rng);
    lemma_words_i64(s.regs);
    lemma_words_i64(s.stack);
    lemma_words_u32(s.calls);
    let b = state_bytes(s);
    let p2: int = 132 + s.mem.len() as int;
    let p3: int = p2 + 8 * s.stack.len();
    let p4: int = p3 + 4 * s.calls.len();
    assert(b.subrange(0, 128) =~= i64s_le(s.regs));
    assert(b.subrange(128, 132) =~= u32_le(s.pc));
    assert(b.subrange(132, p2) =~= s.mem);
    assert(b.subrange(p2, p3) =~= i64s_le(s.stack));
    assert(b.subrange(p3, p4) =~= u32s_le(s.calls));
    assert(b.subrange(p4, p4 + 8) =~= u64_le(s.heap as u64));
    assert(b.subrange(p4 + 8, p4 + 12) =~= u32_le(handler_word(s.handler)));
    assert(b.subrange(p4 + 12, p4 + 20) =~= u64_le(s.gas_used));
    assert(b.subrange(p4 + 20, p4 + 28) =~= u64_le(s.rng));
}

} // verus!
