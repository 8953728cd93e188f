//! Cooperative cancellation.
//!
//! Download loops look at the flag after every chunk and stop when it is
//! signalled. Because partial `.part` files stay on disk, cancelling is
//! exactly how pause works: resume just starts the missing ranges again.

use std::sync::atomic::{AtomicBool, Ordering};
use std::sync::Arc;

use vstd::prelude::*;

use crate::error::{CcdmError, ErrorView};

verus! {

/// Cheaply cloneable cancellation flag shared between the UI thread
/// (pause button) and the download task.
///
/// Any clone may be signalled from another thread at any time, so no contract
/// says what the flag holds when it is read. The contracts say what it was made
/// with, what it is set to, and that a result is a reading of this flag;
/// [`check_signal`] says what follows from a reading.
#[derive(Debug)]
pub struct CancelFlag {
    cancelled: Arc<AtomicBool>,
}

/// What a download loop does on a reading of the flag: it stops with
/// `Cancelled` when the flag is signalled, and goes on otherwise.
pub fn check_signal(cancelled: bool) -> (r: Result<(), CcdmError>)
    ensures
        r is Err <==> cancelled,
        r matches Err(e) ==> e@ == ErrorView::Cancelled,
{
    if cancelled {
        Err(CcdmError::Cancelled)
    } else {
        Ok(())
    }
}

impl CancelFlag {
    /// The flag was made to hold `c`.
    pub closed spec fn made_with(&self, c: bool) -> bool {
        call_ensures(AtomicBool::new, (c,), *self.cancelled)
    }

    /// The flag was set to `c`.
    pub closed spec fn was_set(&self, c: bool) -> bool {
        call_ensures(AtomicBool::store, (&*self.cancelled, c, Ordering::SeqCst), ())
    }

    /// A reading of the flag gave `c`.
    pub closed spec fn reads_as(&self, c: bool) -> bool {
        call_ensures(AtomicBool::load, (&*self.cancelled, Ordering::SeqCst), c)
    }

    /// Unsignalled flag.
    pub fn new() -> (r: Self)
        ensures
            r.made_with(false),
    {
        CancelFlag { cancelled: Arc::new(AtomicBool::new(false)) }
    }

    /// Ask the download loop to stop at the next chunk boundary.
    pub fn cancel(&self)
        ensures
            self.was_set(true),
    {
        self.cancelled.store(true, Ordering::SeqCst);
    }

    /// Re-arm after a cancel (used when resuming).
    pub fn clear(&self)
        ensures
            self.was_set(false),
    {
        self.cancelled.store(false, Ordering::SeqCst);
    }

    /// Whether cancellation was requested.
    pub fn is_cancelled(&self) -> (r: bool)
        ensures
            self.reads_as(r),
    {
        self.cancelled.load(Ordering::SeqCst)
    }

    /// `Err(Cancelled)` when signalled, `Ok(())` otherwise, for byte loops.
    pub fn check(&self) -> (r: Result<(), CcdmError>)
        ensures
            self.reads_as(r is Err),
            r matches Err(e) ==> e@ == ErrorView::Cancelled,
    {
        check_signal(self.is_cancelled())
    }
}

impl Clone for CancelFlag {
    /// The same flag: what is set or read through a clone is set or read
    /// through all of them.
    fn clone(&self) -> (r: Self)
        ensures
            r == *self,
    {
        CancelFlag { cancelled: self.cancelled.clone() }
    }
}

impl Default for CancelFlag {
    fn default() -> (r: Self)
        ensures
            r.made_with(false),
    {
        CancelFlag::new()
    }
}

} // verus!
