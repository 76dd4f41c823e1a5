//! Clocks that bound a search: a wall-clock deadline and a counted budget.

use std::time::Duration;
use std::time::Instant;
use vstd::prelude::*;

verus! {

/// `std::time::Instant`: a reading of the machine's monotonic clock, carried
/// as an opaque value.
#[verifier::external_type_specification]
#[verifier::external_body]
pub struct ExInstant(std::time::Instant);

/// `Instant::now` reads the machine's monotonic clock; nothing is claimed of
/// the value it returns.
pub assume_specification[ Instant::now ]() -> Instant;

/// `Instant::elapsed` measures the time since the instant was taken; nothing
/// is claimed of the value it returns.
pub assume_specification[ Instant::elapsed ](start: &Instant) -> Duration;

/// `Duration::as_millis` gives the whole milliseconds of a duration; nothing
/// is claimed of the value it returns.
pub assume_specification[ Duration::as_millis ](d: &Duration) -> u128;

/// What a search asks of its clock: one question, put before a unit of work.
pub trait Clock {
    /// The number of checks that will still pass before the clock reports
    /// expiry, where that is fixed in advance; `None` where only the machine's
    /// time decides.
    spec fn checks_left(&self) -> Option<nat>;

    /// Has the budget run out?
    fn expired(&mut self) -> (over: bool)
        ensures
            old(self).checks_left() matches Some(n) ==> {
                &&& over == (n == 0)
                &&& final(self).checks_left() == Some(if n == 0 { 0nat } else { (n - 1) as nat })
            },
            old(self).checks_left() is None ==> final(self).checks_left() is None,
    ;
}

/// A wall-clock deadline: the instant of creation and a budget in milliseconds.
pub struct TimeKeeper {
    start_time: Instant,
    time_threshold: usize,
}

impl TimeKeeper {
    /// The budget in milliseconds.
    pub closed spec fn threshold(&self) -> nat {
        self.time_threshold as nat
    }

    /// Starts a clock now, with a budget of `time_threshold` milliseconds.
    pub fn new(time_threshold: usize) -> (keeper: Self)
        ensures
            keeper.threshold() == time_threshold,
    {
        TimeKeeper { start_time: Instant::now(), time_threshold }
    }

    /// Would the budget be over `elapsed_millis` milliseconds after the clock
    /// was started? It is once the elapsed time has reached the budget.
    pub fn is_over_after(&self, elapsed_millis: u128) -> (over: bool)
        ensures
            over == (elapsed_millis >= self.threshold()),
    {
        elapsed_millis >= self.time_threshold as u128
    }

    /// True once the milliseconds elapsed since the clock was started have
    /// reached the budget: the machine's clock is read, and
    /// [`TimeKeeper::is_over_after`] decides. The elapsed time is never
    /// negative, so a budget of zero is over at once.
    pub fn is_time_over(&self) -> (over: bool)
        ensures
            self.threshold() == 0 ==> over,
    {
        let elapsed: u128 = self.start_time.elapsed().as_millis();
        self.is_over_after(elapsed)
    }
}

impl Clock for TimeKeeper {
    open spec fn checks_left(&self) -> Option<nat> {
        if self.threshold() == 0 {
            Some(0nat)
        } else {
            None
        }
    }

    fn expired(&mut self) -> (over: bool) {
        self.is_time_over()
    }
}

/// A clock that lets a fixed number of checks pass and then reports expiry,
/// whatever the machine's time.
pub struct StepBudget {
    left: usize,
}

impl StepBudget {
    /// The number of checks that will still pass.
    pub closed spec fn remaining(&self) -> nat {
        self.left as nat
    }

    /// A budget of `checks` passing checks.
    pub fn new(checks: usize) -> (budget: Self)
        ensures
            budget.remaining() == checks,
    {
        StepBudget { left: checks }
    }

    /// The number of checks that will still pass.
    pub fn left(&self) -> (n: usize)
        ensures
            n == self.remaining(),
    {
        self.left
    }
}

impl Clock for StepBudget {
    open spec fn checks_left(&self) -> Option<nat> {
        Some(self.remaining())
    }

    fn expired(&mut self) -> (over: bool) {
        if self.left == 0 {
            true
        } else {
            self.left = self.left - 1;
            false
        }
    }
}

} // verus!
