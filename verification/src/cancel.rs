//! The flag by which a running conversion is called off.

use std::sync::atomic::AtomicBool;
use vstd::prelude::*;

verus! {

/// The flag that stops a conversion. It is shared between threads: what a read
/// finds depends on what another thread wrote last, so nothing is stated of it.
/// What follows from a read is stated where it is handed on as a plain value.
pub struct ConvertCancel(pub AtomicBool);

impl ConvertCancel {
    /// A flag that is not set. What it holds is not part of the contract.
    pub fn new() -> (r: Self) {
        ConvertCancel(AtomicBool::new(false))
    }

    /// Whether the flag is set at the moment of the call. Either answer may come:
    /// another thread can write at any time.
    pub fn is_set(&self) -> (r: bool) {
        self.0.load(std::sync::atomic::Ordering::Relaxed)
    }
}

/// Calls the running conversion off: sets the flag. It never fails. What a later
/// read finds is not part of the contract.
pub fn cancel_convert(cancel: &ConvertCancel) -> (r: Result<(), String>)
    ensures
        r is Ok,
{
    cancel.0.store(true, std::sync::atomic::Ordering::Relaxed);
    Ok(())
}

/// Clears the flag before the next conversion. It never fails. What a later read
/// finds is not part of the contract.
pub fn reset_cancel(cancel: &ConvertCancel) -> (r: Result<(), String>)
    ensures
        r is Ok,
{
    cancel.0.store(false, std::sync::atomic::Ordering::Relaxed);
    Ok(())
}

} // verus!
