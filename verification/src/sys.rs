//! Syscall numbers (the `sys` immediate).

use vstd::prelude::*;

verus! {

/// Append `mem[r1 .. r1+r2]` to the VM's output. Needs `Cap::Output`.
pub const WRITE: i32 = 1;
/// `r0 = gas used so far`: a deterministic clock.
pub const TICKS: i32 = 2;
/// `r0 = next value` of the run's seeded PRNG (deterministic).
pub const RAND: i32 = 3;
/// Call host function `r0` with `(r1, r2, r3)`; result in `r0`.
/// Needs `Cap::Host(id)`.
pub const HOST: i32 = 4;
/// Emit an event: `mem[r1 .. r1+r2]` is appended to `Vm::events`.
/// Needs `Cap::Emit`.
pub const EMIT: i32 = 5;
/// Copies the host-provided input into `mem[r1 .. r1+len]`, truncated to
/// `r2` bytes; `r0 = bytes copied`. Needs `Cap::Input`.
pub const READ: i32 = 6;

/// The name of syscall `n`, if it has one.
pub open spec fn sys_name(n: i32) -> Option<Seq<char>> {
    if n == WRITE {
        Some("write"@)
    } else if n == TICKS {
        Some("ticks"@)
    } else if n == RAND {
        Some("rand"@)
    } else if n == HOST {
        Some("host"@)
    } else if n == EMIT {
        Some("emit"@)
    } else if n == READ {
        Some("read"@)
    } else {
        None
    }
}

/// The syscall a name stands for.
pub open spec fn sys_number(s: Seq<char>) -> Option<i32> {
    if s == "write"@ {
        Some(WRITE)
    } else if s == "ticks"@ {
        Some(TICKS)
    } else if s == "rand"@ {
        Some(RAND)
    } else if s == "host"@ {
        Some(HOST)
    } else if s == "emit"@ {
        Some(EMIT)
    } else if s == "read"@ {
        Some(READ)
    } else {
        None
    }
}

/// The name of syscall `n`, if it has one.
pub fn name(n: i32) -> (r: Option<&'static str>)
    ensures
        match (r, sys_name(n)) {
            (Some(x), Some(y)) => x@ == y,
            (None, None) => true,
            _ => false,
        },
{
    if n == WRITE {
        Some("write")
    } else if n == TICKS {
        Some("ticks")
    } else if n == RAND {
        Some("rand")
    } else if n == HOST {
        Some("host")
    } else if n == EMIT {
        Some("emit")
    } else if n == READ {
        Some("read")
    } else {
        None
    }
}

/// The syscall the characters name.
pub fn number_of_chars(s: &Vec<char>) -> (r: Option<i32>)
    ensures
        r == sys_number(s@),
{
    if crate::lex::chars_eq(s, "write") {
        Some(WRITE)
    } else if crate::lex::chars_eq(s, "ticks") {
        Some(TICKS)
    } else if crate::lex::chars_eq(s, "rand") {
        Some(RAND)
    } else if crate::lex::chars_eq(s, "host") {
        Some(HOST)
    } else if crate::lex::chars_eq(s, "emit") {
        Some(EMIT)
    } else if crate::lex::chars_eq(s, "read") {
        Some(READ)
    } else {
        None
    }
}

/// Names and numbers agree: `s` names syscall `n` exactly when `n`'s name
/// is `s`; names are case-sensitive.
pub proof fn lemma_name_number(n: i32, s: Seq<char>)
    ensures
        sys_number(s) == Some(n) <==> sys_name(n) == Some(s),
{
    reveal_strlit("write");
    reveal_strlit("ticks");
    reveal_strlit("rand");
    reveal_strlit("host");
    reveal_strlit("emit");
    reveal_strlit("read");
    assert("write"@[0] == 'w');
    assert("ticks"@[0] == 't');
    assert("rand"@[0] == 'r' && "rand"@[1] == 'a');
    assert("host"@[0] == 'h');
    assert("emit"@[0] == 'e');
    assert("read"@[0] == 'r' && "read"@[1] == 'e');
}

/// The syscall a name stands for: `Some(n)` exactly when `name(n)` is `s`.
pub fn from_name(s: &str) -> (r: Option<i32>)
    ensures
        r == sys_number(s@),
        forall|n: i32| r == Some(n) <==> #[trigger] sys_name(n) == Some(s@),
{
    let v = crate::text::chars_of(s);
    let r = number_of_chars(&v);
    proof {
        assert forall|n: i32| r == Some(n) <==> #[trigger] sys_name(n) == Some(s@) by {
            lemma_name_number(n, s@);
        }
    }
    r
}

} // verus!
