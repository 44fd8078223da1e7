//! The host functions a machine may call through `sys host`.

use vstd::prelude::*;
use std::collections::HashMap;
use crate::semantics::{HostInvocation, HostReply};

verus! {

/// A host function: it sees the guest memory and three arguments.
pub trait HostCall {
    fn invoke(&mut self, mem: &mut [u8], args: [i64; 3]) -> Result<i64, String>;
}

impl<F: FnMut(&mut [u8], [i64; 3]) -> Result<i64, String>> HostCall for F {
    fn invoke(&mut self, mem: &mut [u8], args: [i64; 3]) -> Result<i64, String> {
        call_closure(self, mem, args)
    }
}

/// Calls a host closure. Nothing is stated of what it returns or does to
/// the memory it is handed: that is the host's own code.
#[verifier::external_body]
fn call_closure<F: FnMut(&mut [u8], [i64; 3]) -> Result<i64, String>>(
    f: &mut F,
    mem: &mut [u8],
    args: [i64; 3],
) -> Result<i64, String> {
    f(mem, args)
}

/// The registered host functions, keyed by id. Held in a `HashMap` of boxed
/// trait objects, which Verus cannot see into; `host_ids` names its key set.
#[verifier::external_body]
pub struct HostTable {
    fns: HashMap<i64, Box<dyn HostCall>>,
}

/// The ids that have a registered host function.
pub uninterp spec fn host_ids(t: HostTable) -> Set<i64>;

/// The calls made through the table so far, oldest first: ghost
/// bookkeeping that the table's own operations below keep.
pub uninterp spec fn host_log(t: HostTable) -> Seq<HostInvocation>;

/// For each registered id, the number of the registration in force for it:
/// ghost bookkeeping that the table's own operations below keep.
pub uninterp spec fn host_registry(t: HostTable) -> Map<i64, nat>;

/// How many registrations were made on the table: ghost bookkeeping that
/// the table's own operations below keep.
pub uninterp spec fn host_registrations(t: HostTable) -> nat;

impl HostTable {
    /// An empty table (`HashMap::new`): no id is registered and no call
    /// has been made.
    #[verifier::external_body]
    pub(crate) fn new() -> (t: HostTable)
        ensures
            host_ids(t) == Set::<i64>::empty(),
            host_log(t) == Seq::<HostInvocation>::empty(),
            host_registry(t).dom() == Set::<i64>::empty(),
            host_registrations(t) == 0,
    {
        HostTable { fns: HashMap::new() }
    }

    /// `HashMap::insert`: afterwards `id` is registered, `f` replacing any
    /// earlier function for it, and the other ids are unchanged. This
    /// registration gets the next number, which `id` now maps to.
    #[verifier::external_body]
    pub(crate) fn insert<F: FnMut(&mut [u8], [i64; 3]) -> Result<i64, String> + 'static>(
        &mut self,
        id: i64,
        f: Box<F>,
    )
        ensures
            host_ids(*final(self)) == host_ids(*old(self)).insert(id),
            host_log(*final(self)) == host_log(*old(self)),
            host_registry(*final(self)) == host_registry(*old(self)).insert(
                id,
                host_registrations(*old(self)),
            ),
            host_registrations(*final(self)) == host_registrations(*old(self)) + 1,
    {
        self.fns.insert(id, f);
    }

    /// `HashMap::get_mut` and one call of the function found, with `args`
    /// and the whole of `mem`. `None` exactly when `id` is not registered:
    /// then nothing is called, the memory is untouched and the log kept.
    /// Otherwise the function registered last for `id` is called, and the
    /// call is logged with its id, that registration's number, its
    /// arguments, the memory it was handed, the memory as it left it and
    /// its result (`None` for an error). The function is handed a slice of the memory, so its
    /// length stays. What the function returns and writes is not stated:
    /// it is the host's code.
    #[verifier::external_body]
    pub(crate) fn call(&mut self, id: i64, mem: &mut Vec<u8>, args: [i64; 3]) -> (r: Option<
        Result<i64, String>,
    >)
        ensures
            host_ids(*final(self)) == host_ids(*old(self)),
            host_registry(*final(self)) == host_registry(*old(self)),
            host_registrations(*final(self)) == host_registrations(*old(self)),
            r is None <==> !host_ids(*old(self)).contains(id),
            final(mem)@.len() == old(mem)@.len(),
            r is None ==> final(mem)@ == old(mem)@ && host_log(*final(self)) == host_log(
                *old(self),
            ),
            r is Some ==> host_log(*final(self)) == host_log(*old(self)).push(
                HostInvocation {
                    id,
                    registration: host_registry(*old(self))[id],
                    args: seq![args[0], args[1], args[2]],
                    handed: old(mem)@,
                    reply: HostReply {
                        mem: final(mem)@,
                        result: match r {
                            Some(Ok(v)) => Some(v),
                            _ => None,
                        },
                    },
                },
            ),
    {
        match self.fns.get_mut(&id) {
            Some(f) => Some(f.invoke(mem.as_mut_slice(), args)),
            None => None,
        }
    }
}

} // verus!
