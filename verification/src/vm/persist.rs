//! The state hash, snapshots and restoring them.

use vstd::prelude::*;
use crate::image::{
    self, SnapshotData, blob, blobs, fnv, fnv_basis, handler_word, header_regs, i64s_le,
    parse_snapshot, restored, snapshot_bytes, snapshot_fits, snapshot_header, snapshot_magic,
    state_bytes, status_byte, status_code, take_blob, take_blobs, u32s_le, words_i64, words_u32,
};
use crate::le::{i64_le, le_i64, le_u32, push_u32_le, push_u64_le, read_u32_le, read_u64_le, u32_le, u64_le};
use crate::semantics::MachineState;
use crate::text::{push_str, string_of};
use crate::vm::{Status, Vm};

verus! {

fn push_i64s(out: &mut Vec<u8>, v: &Vec<i64>)
    ensures
        final(out)@ == old(out)@ + i64s_le(v@),
{
    let mut k: usize = 0;
    while k < v.len()
        invariant
            k <= v@.len(),
            out@ == old(out)@ + i64s_le(v@.subrange(0, k as int)),
        decreases v@.len() - k,
    {
        push_u64_le(out, v[k] as u64);
        assert(v@.subrange(0, k + 1).drop_last() =~= v@.subrange(0, k as int));
        k = k + 1;
        assert(out@ =~= old(out)@ + i64s_le(v@.subrange(0, k as int)));
    }
    assert(v@.subrange(0, k as int) =~= v@);
}

fn push_regs(out: &mut Vec<u8>, v: &[i64; 16])
    ensures
        final(out)@ == old(out)@ + i64s_le(v@),
{
    let mut k: usize = 0;
    while k < 16
        invariant
            k <= 16,
            v@.len() == 16,
            out@ == old(out)@ + i64s_le(v@.subrange(0, k as int)),
        decreases 16 - k,
    {
        push_u64_le(out, v[k] as u64);
        assert(v@.subrange(0, k + 1).drop_last() =~= v@.subrange(0, k as int));
        k = k + 1;
        assert(out@ =~= old(out)@ + i64s_le(v@.subrange(0, k as int)));
    }
    assert(v@.subrange(0, 16) =~= v@);
}

fn push_u32s(out: &mut Vec<u8>, v: &Vec<u32>)
    ensures
        final(out)@ == old(out)@ + u32s_le(v@),
{
    let mut k: usize = 0;
    while k < v.len()
        invariant
            k <= v@.len(),
            out@ == old(out)@ + u32s_le(v@.subrange(0, k as int)),
        decreases v@.len() - k,
    {
        push_u32_le(out, v[k]);
        assert(v@.subrange(0, k + 1).drop_last() =~= v@.subrange(0, k as int));
        k = k + 1;
        assert(out@ =~= old(out)@ + u32s_le(v@.subrange(0, k as int)));
    }
    assert(v@.subrange(0, k as int) =~= v@);
}

fn push_bytes(out: &mut Vec<u8>, x: &Vec<u8>)
    ensures
        final(out)@ == old(out)@ + x@,
{
    let mut k: usize = 0;
    while k < x.len()
        invariant
            k <= x@.len(),
            out@ == old(out)@ + x@.subrange(0, k as int),
        decreases x@.len() - k,
    {
        out.push(x[k]);
        k = k + 1;
        assert(out@ =~= old(out)@ + x@.subrange(0, k as int));
    }
    assert(x@.subrange(0, k as int) =~= x@);
}

fn push_blob(out: &mut Vec<u8>, x: &Vec<u8>)
    ensures
        final(out)@ == old(out)@ + blob(x@),
{
    push_u32_le(out, x.len() as u32);
    push_bytes(out, x);
    assert(final(out)@ =~= old(out)@ + blob(x@));
}

fn fnv_of(b: &Vec<u8>) -> (h: u64)
    ensures
        h == fnv(fnv_basis(), b@),
{
    let mut h: u64 = 0xcbf2_9ce4_8422_2325u64;
    let mut k: usize = 0;
    while k < b.len()
        invariant
            k <= b@.len(),
            h == fnv(fnv_basis(), b@.subrange(0, k as int)),
        decreases b@.len() - k,
    {
        h = h ^ (b[k] as u64);
        h = h.wrapping_mul(0x0000_0100_0000_01b3u64);
        assert(b@.subrange(0, k + 1).drop_last() =~= b@.subrange(0, k as int));
        k = k + 1;
    }
    assert(b@.subrange(0, k as int) =~= b@);
    h
}

/// The blob at `pos`: see `take_blob`.
fn read_blob(b: &[u8], pos: usize) -> (r: Option<(Vec<u8>, usize)>)
    requires
        pos <= b@.len(),
    ensures
        match (r, take_blob(b@, pos as int)) {
            (Some((x, p)), Some((y, q))) => x@ == y && p == q,
            (None, None) => true,
            _ => false,
        },
{
    if b.len() - pos < 4 {
        return None;
    }
    let n = read_u32_le(b, pos) as usize;
    if b.len() - pos - 4 < n {
        return None;
    }
    let start = pos + 4;
    let end = start + n;
    let mut x: Vec<u8> = Vec::new();
    let mut j = start;
    while j < end
        invariant
            start <= j <= end,
            end <= b@.len(),
            x@ == b@.subrange(start as int, j as int),
        decreases end - j,
    {
        x.push(b[j]);
        j = j + 1;
        assert(x@ =~= b@.subrange(start as int, j as int));
    }
    Some((x, end))
}

impl Vm {
    fn state_bytes_vec(&self) -> (b: Vec<u8>)
        ensures
            b@ == state_bytes(self@),
    {
        let mut b: Vec<u8> = Vec::new();
        push_regs(&mut b, &self.regs);
        push_u32_le(&mut b, self.pc);
        push_bytes(&mut b, &self.mem);
        push_i64s(&mut b, &self.stack);
        push_u32s(&mut b, &self.calls);
        push_u64_le(&mut b, self.heap as u64);
        let hw: u32 = match self.handler {
            Some(h) => h,
            None => u32::MAX,
        };
        push_u32_le(&mut b, hw);
        push_u64_le(&mut b, self.gas_used);
        push_u64_le(&mut b, self.rng);
        assert(b@ =~= state_bytes(self@));
        b
    }

    /// FNV-1a over the complete machine state (registers, pc, memory,
    /// stacks, heap pointer, handler, gas, generator state).
    pub fn state_hash(&self) -> (h: u64)
        ensures
            h == image::state_hash(self@),
    {
        let b = self.state_bytes_vec();
        fnv_of(&b)
    }

    /// Serialises the resumable state (everything except host functions,
    /// which cannot be serialised and must be re-registered).
    pub fn snapshot(&self) -> (b: Vec<u8>)
        ensures
            b@ == snapshot_bytes(self@),
    {
        let mut b: Vec<u8> = Vec::new();
        b.push(72u8);
        b.push(83u8);
        b.push(78u8);
        b.push(80u8);
        push_regs(&mut b, &self.regs);
        push_u32_le(&mut b, self.pc);
        push_u64_le(&mut b, self.heap as u64);
        let hw: u32 = match self.handler {
            Some(h) => h,
            None => u32::MAX,
        };
        push_u32_le(&mut b, hw);
        push_u64_le(&mut b, self.gas_used);
        push_u64_le(&mut b, self.rng);
        let (sb, code): (u8, i64) = match self.status {
            Status::Running => (0, 0),
            Status::Halted => (1, 0),
            Status::OutOfGas => (2, 0),
            Status::Trapped(c) => (3, c),
        };
        b.push(sb);
        push_u64_le(&mut b, code as u64);
        assert(b@ =~= snapshot_header(self@));
        push_blob(&mut b, &self.mem);
        let mut stack: Vec<u8> = Vec::new();
        push_i64s(&mut stack, &self.stack);
        assert(stack@ =~= i64s_le(self@.stack));
        push_blob(&mut b, &stack);
        let mut calls: Vec<u8> = Vec::new();
        push_u32s(&mut calls, &self.calls);
        assert(calls@ =~= u32s_le(self@.calls));
        push_blob(&mut b, &calls);
        push_blob(&mut b, &self.output);
        push_u32_le(&mut b, self.events.len() as u32);
        let ghost mid = b@;
        let mut k: usize = 0;
        while k < self.events.len()
            invariant
                k <= self.events@.len(),
                b@ == mid + blobs(self@.events.subrange(0, k as int)),
                self@.events == self.events@.map_values(|e: Vec<u8>| e@),
            decreases self.events@.len() - k,
        {
            push_blob(&mut b, &self.events[k]);
            assert(self@.events.subrange(0, k + 1).drop_last() =~= self@.events.subrange(
                0,
                k as int,
            ));
            k = k + 1;
            assert(b@ =~= mid + blobs(self@.events.subrange(0, k as int)));
        }
        assert(self@.events.subrange(0, k as int) =~= self@.events);
        assert(b@ =~= snapshot_bytes(self@));
        b
    }
}

fn truncated() -> (r: Result<(), String>)
    ensures
        r matches Err(e) && e@ == "truncated snapshot"@,
{
    let mut m: Vec<char> = Vec::new();
    push_str(&mut m, "truncated snapshot");
    Err(string_of(&m))
}

/// The whole eight-byte groups of `b` as signed words.
fn decode_i64s(b: &Vec<u8>) -> (r: Vec<i64>)
    ensures
        r@ == words_i64(b@),
{
    let n = b.len() / 8;
    assert(n * 8 <= b@.len()) by (nonlinear_arith)
        requires
            n == b@.len() / 8,
    ;
    let mut r: Vec<i64> = Vec::new();
    let mut k: usize = 0;
    while k < n
        invariant
            n == b@.len() / 8,
            n * 8 <= b@.len(),
            b@.len() <= usize::MAX,
            k <= n,
            r@ == words_i64(b@).subrange(0, k as int),
        decreases n - k,
    {
        r.push(read_u64_le(b.as_slice(), 8 * k) as i64);
        k = k + 1;
        assert(r@ =~= words_i64(b@).subrange(0, k as int));
    }
    assert(words_i64(b@).subrange(0, k as int) =~= words_i64(b@));
    r
}

/// The whole four-byte groups of `b` as 32-bit words.
fn decode_u32s(b: &Vec<u8>) -> (r: Vec<u32>)
    ensures
        r@ == words_u32(b@),
{
    let n = b.len() / 4;
    assert(n * 4 <= b@.len()) by (nonlinear_arith)
        requires
            n == b@.len() / 4,
    ;
    let mut r: Vec<u32> = Vec::new();
    let mut k: usize = 0;
    while k < n
        invariant
            n == b@.len() / 4,
            n * 4 <= b@.len(),
            b@.len() <= usize::MAX,
            k <= n,
            r@ == words_u32(b@).subrange(0, k as int),
        decreases n - k,
    {
        r.push(read_u32_le(b.as_slice(), 4 * k));
        k = k + 1;
        assert(r@ =~= words_u32(b@).subrange(0, k as int));
    }
    assert(words_u32(b@).subrange(0, k as int) =~= words_u32(b@));
    r
}

impl Vm {
    /// Restores a snapshot taken from a machine running the same program.
    /// On any error the machine is left as it was.
    pub fn restore(&mut self, snap: &[u8]) -> (r: Result<(), String>)
        ensures
            match parse_snapshot(snap@) {
                Err(m) => r matches Err(e) && e@ == m && final(self)@ == old(self)@,
                Ok(d) => if snapshot_fits(d, old(self)@.code.len() as int) {
                    r is Ok && final(self)@ == restored(old(self)@, d)
                } else {
                    r matches Err(e) && e@ == "snapshot does not match this program"@
                        && final(self)@ == old(self)@
                },
            },
    {
        let b = snap;
        if b.len() < 4 {
            return truncated();
        }
        if !(b[0] == 72u8 && b[1] == 83u8 && b[2] == 78u8 && b[3] == 80u8) {
            proof {
                assert(b@.subrange(0, 4) != snapshot_magic()) by {
                    if b@.subrange(0, 4) == snapshot_magic() {
                        assert(b@.subrange(0, 4)[0] == b@[0]);
                        assert(b@.subrange(0, 4)[1] == b@[1]);
                        assert(b@.subrange(0, 4)[2] == b@[2]);
                        assert(b@.subrange(0, 4)[3] == b@[3]);
                    }
                }
            }
            let mut m: Vec<char> = Vec::new();
            push_str(&mut m, "not a Halyard snapshot");
            return Err(string_of(&m));
        }
        assert(b@.subrange(0, 4) =~= snapshot_magic());
        if b.len() < 173 {
            return truncated();
        }
        let mut regs = [0i64; 16];
        let mut k: usize = 0;
        while k < 16
            invariant
                k <= 16,
                b@.len() >= 173,
                regs@.len() == 16,
                forall|j: int| 0 <= j < k ==> regs@[j] == header_regs(b@)[j],
            decreases 16 - k,
        {
            let w = read_u64_le(b, 4 + 8 * k) as i64;
            regs[k] = w;
            k = k + 1;
        }
        assert(regs@ =~= header_regs(b@));
        let pc = read_u32_le(b, 132);
        let heap = read_u64_le(b, 136);
        let handler = read_u32_le(b, 144);
        let gas = read_u64_le(b, 148);
        let rng = read_u64_le(b, 156);
        let st = b[164];
        let code = read_u64_le(b, 165) as i64;
        let (mem, p1) = match read_blob(b, 173) {
            Some(x) => x,
            None => return truncated(),
        };
        let (stack, p2) = match read_blob(b, p1) {
            Some(x) => x,
            None => return truncated(),
        };
        let (calls, p3) = match read_blob(b, p2) {
            Some(x) => x,
            None => return truncated(),
        };
        let (output, p4) = match read_blob(b, p3) {
            Some(x) => x,
            None => return truncated(),
        };
        if b.len() - p4 < 4 {
            return truncated();
        }
        let n_events = read_u32_le(b, p4);
        let mut events: Vec<Vec<u8>> = Vec::new();
        let mut pos = p4 + 4;
        let mut e: u32 = 0;
        while e < n_events
            invariant
                e <= n_events,
                pos <= b@.len(),
                self@ == old(self)@,
                b@ == snap@,
                b@.len() >= 173,
                b@.subrange(0, 4) == snapshot_magic(),
                take_blob(b@, 173) == Some::<(Seq<u8>, int)>((mem@, p1 as int)),
                take_blob(b@, p1 as int) == Some::<(Seq<u8>, int)>((stack@, p2 as int)),
                take_blob(b@, p2 as int) == Some::<(Seq<u8>, int)>((calls@, p3 as int)),
                take_blob(b@, p3 as int) == Some::<(Seq<u8>, int)>((output@, p4 as int)),
                p4 + 4 <= b@.len(),
                n_events == le_u32(b@.subrange(p4 as int, p4 + 4)),
                take_blobs(b@, p4 + 4, e as nat) == Some::<(Seq<Seq<u8>>, int)>(
                    (events@.map_values(|x: Vec<u8>| x@), pos as int),
                ),
            decreases n_events - e,
        {
            let ghost before = events@;
            match read_blob(b, pos) {
                Some((x, q)) => {
                    events.push(x);
                    pos = q;
                },
                None => {
                    proof {
                        assert(take_blobs(b@, p4 + 4, (e + 1) as nat) is None);
                        assert(parse_snapshot(b@) == Err::<SnapshotData, Seq<char>>(
                            "truncated snapshot"@,
                        )) by {
                            lemma_take_blobs_none(b@, p4 + 4, (e + 1) as nat, n_events as nat);
                        }
                    }
                    return truncated();
                },
            }
            assert(events@.map_values(|x: Vec<u8>| x@) =~= before.map_values(|x: Vec<u8>| x@).push(
                events@.last()@,
            ));
            e = e + 1;
        }
        let ghost d = SnapshotData {
            regs: header_regs(b@),
            pc: pc,
            heap: heap,
            handler: handler,
            gas_used: gas,
            rng: rng,
            status: st,
            code: code,
            mem: mem@,
            stack: stack@,
            calls: calls@,
            output: output@,
            events: events@.map_values(|x: Vec<u8>| x@),
        };
        assert(parse_snapshot(b@) == Ok::<SnapshotData, Seq<char>>(d));
        if pc as usize > self.code.len() || heap as usize > mem.len() {
            let mut m: Vec<char> = Vec::new();
            push_str(&mut m, "snapshot does not match this program");
            return Err(string_of(&m));
        }
        self.regs = regs;
        self.pc = pc;
        self.heap = heap as usize;
        self.handler = if handler != u32::MAX { Some(handler) } else { None };
        self.gas_used = gas;
        self.rng = rng;
        self.status = if st == 0 {
            Status::Running
        } else if st == 1 {
            Status::Halted
        } else if st == 2 {
            Status::OutOfGas
        } else {
            Status::Trapped(code)
        };
        self.mem = mem;
        self.stack = decode_i64s(&stack);
        self.calls = decode_u32s(&calls);
        self.output = output;
        self.events = events;
        assert(self@ == restored(old(self)@, d));
        Ok(())
    }
}

/// Once `count` blobs cannot be read, neither can more.
proof fn lemma_take_blobs_none(b: Seq<u8>, pos: int, count: nat, more: nat)
    requires
        take_blobs(b, pos, count) is None,
        count <= more,
    ensures
        take_blobs(b, pos, more) is None,
    decreases more,
{
    if count < more {
        lemma_take_blobs_none(b, pos, count, (more - 1) as nat);
    }
}

} // verus!
