//! Clearing of sensitive buffers.
use vstd::prelude::*;

verus! {

/// Calls `std::sync::atomic::compiler_fence` with sequentially consistent ordering, which
/// keeps the compiler from reordering memory accesses across it. It changes no value that
/// Verus sees, so it states nothing of values; it does not panic for this ordering, so it
/// does not unwind.
#[verifier::external_body]
pub(crate) fn store_fence()
    opens_invariants none
    no_unwind
{
    std::sync::atomic::compiler_fence(std::sync::atomic::Ordering::SeqCst);
}

/// Overwrites every byte of a secret with zero, then issues a sequentially consistent
/// compiler fence after the stores. The fence orders the stores; it does not by itself
/// guarantee that an optimiser keeps stores to memory that is never read again.
pub fn secret_zeroize(buf: &mut [u8])
    ensures
        final(buf)@.len() == old(buf)@.len(),
        forall|i: int| 0 <= i < final(buf)@.len() ==> #[trigger] final(buf)@[i] == 0u8,
{
    crate::util::zeroize(buf);
    store_fence();
}

} // verus!
