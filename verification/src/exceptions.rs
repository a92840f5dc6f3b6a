//! Exception plumbing: the register frame an exception handler receives
//! and the classification of a synchronous exception's syndrome.  Taking
//! the exception and returning from it are hardware control transfers and
//! live with the machine-facing code.

use vstd::prelude::*;

verus! {

/// Mask of the exception-class field of the syndrome register.
pub const EXCEPTION_CLASS_MASK: u64 = 0xfc00_0000;

/// The exception class of a supervisor call from 64-bit state.
pub const SVC_EXCEPTION_CLASS: u64 = 0x5400_0000;

/// The general-purpose registers saved on entry to an exception handler.
#[derive(Clone, Copy, Debug)]
pub struct ExceptionFrame {
    pub registers: [u64; 30],
}

/// Whether a synchronous exception's syndrome says it was a supervisor
/// call, which the handler forwards to the system-call dispatcher instead
/// of reporting a fault.
pub fn is_svc_exception(syndrome_reg: u64) -> (r: bool)
    ensures
        r == (syndrome_reg & EXCEPTION_CLASS_MASK == SVC_EXCEPTION_CLASS),
{
    syndrome_reg & EXCEPTION_CLASS_MASK == SVC_EXCEPTION_CLASS
}

} // verus!
