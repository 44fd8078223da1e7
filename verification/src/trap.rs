//! Trap codes delivered to the handler in `r0` (or reported as
//! `Status::Trapped`). User traps (`trap n`) use `n` directly; keep them >= 32.

use vstd::prelude::*;
use crate::text::{dec_int, push_dec_i64, push_str, string_of};

verus! {

pub const DIV_ZERO: i64 = 1;
pub const MEM_OOB: i64 = 2;
pub const STACK_OVERFLOW: i64 = 3;
pub const STACK_UNDERFLOW: i64 = 4;
pub const ILLEGAL: i64 = 5;
pub const OOM: i64 = 6;
pub const CAP_DENIED: i64 = 7;
pub const BAD_SYSCALL: i64 = 8;
pub const HOST_ERROR: i64 = 9;
pub const BAD_JUMP: i64 = 10;

/// How a trap code reads: the name of a machine trap, else `user trap n`.
pub open spec fn trap_name(c: i64) -> Seq<char> {
    if c == DIV_ZERO {
        "division by zero"@
    } else if c == MEM_OOB {
        "memory access out of bounds"@
    } else if c == STACK_OVERFLOW {
        "stack overflow"@
    } else if c == STACK_UNDERFLOW {
        "stack underflow"@
    } else if c == ILLEGAL {
        "illegal instruction"@
    } else if c == OOM {
        "out of memory"@
    } else if c == CAP_DENIED {
        "capability denied"@
    } else if c == BAD_SYSCALL {
        "bad syscall"@
    } else if c == HOST_ERROR {
        "host function error"@
    } else if c == BAD_JUMP {
        "jump target out of range"@
    } else {
        "user trap "@ + dec_int(c as int)
    }
}

/// Appends how a trap code reads.
pub fn push_name(out: &mut Vec<char>, c: i64)
    ensures
        final(out)@ == old(out)@ + trap_name(c),
{
    if c == DIV_ZERO {
        push_str(out, "division by zero");
    } else if c == MEM_OOB {
        push_str(out, "memory access out of bounds");
    } else if c == STACK_OVERFLOW {
        push_str(out, "stack overflow");
    } else if c == STACK_UNDERFLOW {
        push_str(out, "stack underflow");
    } else if c == ILLEGAL {
        push_str(out, "illegal instruction");
    } else if c == OOM {
        push_str(out, "out of memory");
    } else if c == CAP_DENIED {
        push_str(out, "capability denied");
    } else if c == BAD_SYSCALL {
        push_str(out, "bad syscall");
    } else if c == HOST_ERROR {
        push_str(out, "host function error");
    } else if c == BAD_JUMP {
        push_str(out, "jump target out of range");
    } else {
        push_str(out, "user trap ");
        push_dec_i64(out, c);
        assert(final(out)@ =~= old(out)@ + trap_name(c));
    }
}

/// How a trap code reads.
pub fn name(c: i64) -> (r: String)
    ensures
        r@ == trap_name(c),
{
    let mut v: Vec<char> = Vec::new();
    push_name(&mut v, c);
    string_of(&v)
}

} // verus!
