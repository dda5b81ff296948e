//! A completion latch whose body may decline: running it under the latch
//! flips the `done` flag only when the body reports success, so a caller
//! that arrives too early can leave the door open for a later attempt.

use vstd::prelude::*;

verus! {

/// A single-shot completion latch that a failed attempt leaves unset.
#[derive(Debug)]
pub struct OnceFallible {
    done: bool,
}

impl View for OnceFallible {
    type V = bool;

    closed spec fn view(&self) -> bool {
        self.done
    }
}

impl OnceFallible {
    /// A fresh latch, not yet completed.
    pub fn new() -> (r: OnceFallible)
        ensures
            !r@,
    {
        OnceFallible { done: false }
    }

    /// Whether some attempt has completed the latch.
    pub fn is_completed(&self) -> (r: bool)
        ensures
            r == self@,
    {
        self.done
    }

    /// Runs `f`; the latch flips to done exactly when `f` reports success,
    /// and an earlier completion is never undone. The result is what `f`
    /// returned.
    pub fn call_once_maybe<T>(&mut self, f: T) -> (r: bool) where T: FnOnce() -> bool
        requires
            call_requires(f, ()),
        ensures
            call_ensures(f, (), r),
            r ==> final(self)@,
            old(self)@ ==> final(self)@,
            !r && !old(self)@ ==> !final(self)@,
    {
        let r = f();
        if r {
            self.done = true;
        }
        r
    }
}

} // verus!
