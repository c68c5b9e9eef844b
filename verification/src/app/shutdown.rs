//! Cooperative shutdown: UI, sync and network tasks share one signal.
use vstd::prelude::*;
use std::sync::Arc;
use std::sync::atomic::{AtomicBool, Ordering};
use crate::error::AppError;

verus! {

/// Broadcast shutdown signal. Clone freely across tasks.
#[derive(Debug, Clone)]
pub struct Shutdown {
    flag: Arc<AtomicBool>,
}

/// The single owner that triggers shutdown.
#[derive(Debug)]
pub struct ShutdownTrigger {
    flag: Arc<AtomicBool>,
}

/// `Arc::clone`: a second handle to the same allocation, so the clone and
/// `a` hold one and the same flag.
#[verifier::external_body]
fn share_flag(a: &Arc<AtomicBool>) -> (r: Arc<AtomicBool>)
    ensures
        r == *a,
{
    Arc::clone(a)
}

impl Shutdown {
    /// A linked trigger/signal pair, initially untriggered.
    pub fn new() -> (pair: (ShutdownTrigger, Shutdown))
        ensures
            pair.0.fires(&pair.1),
    {
        let flag = Arc::new(AtomicBool::new(false));
        (ShutdownTrigger { flag: share_flag(&flag) }, Shutdown { flag })
    }

    /// True once the trigger has fired. Other tasks may fire it at any time,
    /// so nothing is claimed of one reading.
    pub fn is_triggered(&self) -> bool {
        self.flag.load(Ordering::SeqCst)
    }
}

impl ShutdownTrigger {
    /// This trigger and `signal` share one flag: firing the trigger is what
    /// `signal` reads.
    pub closed spec fn fires(&self, signal: &Shutdown) -> bool {
        self.flag == signal.flag
    }

    /// Fires the signal. Idempotent.
    pub fn trigger(&self) {
        self.flag.store(true, Ordering::SeqCst);
    }
}

/// The check before any sync work: once shutdown fired (`triggered`, as read
/// from the signal), the work fails with `Shutdown` and touches nothing.
pub fn shutdown_gate(triggered: bool) -> (r: Result<(), AppError>)
    ensures
        triggered ==> r == Err::<(), AppError>(AppError::Shutdown),
        !triggered ==> r is Ok,
{
    if triggered {
        Err(AppError::Shutdown)
    } else {
        Ok(())
    }
}

} // verus!
