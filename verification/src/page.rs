//! The page size of the machine.

use vstd::prelude::*;

verus! {

/// Whether `size` is what the machine reports as its page size when it is asked.
///
/// It depends on the machine which sizes these are.
pub closed spec fn reported(size: usize) -> bool {
    call_ensures(query, (), size)
}

/// A size that is said to be reported is an answer that the machine gave.
pub(crate) proof fn reported_is_answered(size: usize)
    requires
        reported(size),
    ensures
        call_ensures(query, (), size),
{
}

/// The page size of the machine, as `page_size::get` reports it.
///
/// The value depends on the machine that the program runs on, and nothing is claimed of it: not
/// even that it is a power of two.
#[verifier::external_body]
pub(crate) fn query() -> usize {
    page_size::get()
}

/// Asks for the page size of the machine.
pub(crate) fn size() -> (r: usize)
    ensures
        reported(r),
{
    query()
}

} // verus!
