//! The election timer: periods that are drawn at random, so that nodes seldom stand for election at
//! the same time.
use vstd::prelude::*;

verus! {

/// Something happened; that is all there is to say.
#[derive(Clone, Copy, Debug, PartialEq, Eq, Structural)]
pub struct Signal;

/// Calls `rand::random_range` on an inclusive range. The claim is that the value lies in the range;
/// which one it is is left to chance. An empty range would panic, so there has to be a value in it.
#[verifier::external_body]
fn random_in_range(lower: u32, upper: u32) -> (value: u32)
    requires
        lower <= upper,
    ensures
        lower <= value <= upper,
{
    rand::random_range(lower..=upper)
}

/// Draws a period in milliseconds between two bounds, both of them included.
pub fn rand_duration(lower_bound_ms: u32, upper_bound_ms: u32) -> (period_ms: u32)
    requires
        lower_bound_ms <= upper_bound_ms,
    ensures
        lower_bound_ms <= period_ms <= upper_bound_ms,
{
    random_in_range(lower_bound_ms, upper_bound_ms)
}

/// What wakes a timer.
#[derive(Clone, Copy, Debug, PartialEq, Eq, Structural)]
pub enum Wakeup {
    /// The period is over, and a signal was sent.
    Signalled,
    /// The period is over, and nobody listens any more.
    Unheard,
    /// The timer is to start over.
    Reset,
    /// Nobody can reset the timer any more.
    Abandoned,
}

/// A timer that goes off after a random period, again and again.
#[derive(Debug)]
pub struct Timer {
    lower_bound_ms: u32,
    upper_bound_ms: u32,
    period_ms: u32,
    running: bool,
    started: bool,
}

impl Timer {
    /// The shortest period.
    pub closed spec fn lower(&self) -> u32 {
        self.lower_bound_ms
    }

    /// The longest period.
    pub closed spec fn upper(&self) -> u32 {
        self.upper_bound_ms
    }

    /// The period that runs.
    pub closed spec fn period(&self) -> u32 {
        self.period_ms
    }

    /// The timer goes on.
    pub closed spec fn running(&self) -> bool {
        self.running
    }

    /// The clock was started on the present period. Until it is, the period has yet to begin.
    pub closed spec fn started(&self) -> bool {
        self.started
    }

    /// The period lies between the bounds.
    pub open spec fn valid(&self) -> bool {
        self.lower() <= self.period() <= self.upper()
    }

    /// Starts a timer. Bounds that are the wrong way round are swapped.
    pub fn new(lower_bound_ms: u32, upper_bound_ms: u32) -> (timer: Self)
        ensures
            timer.valid(),
            timer.running(),
            !timer.started(),
            timer.lower() == (if lower_bound_ms <= upper_bound_ms {
                lower_bound_ms
            } else {
                upper_bound_ms
            }),
            timer.upper() == (if lower_bound_ms <= upper_bound_ms {
                upper_bound_ms
            } else {
                lower_bound_ms
            }),
    {
        let mut lower: u32 = lower_bound_ms;
        let mut upper: u32 = upper_bound_ms;
        if lower > upper {
            std::mem::swap(&mut lower, &mut upper);
        }
        Timer::with_period(lower, upper, rand_duration(lower, upper))
    }

    /// Starts a timer whose first period is given.
    pub fn with_period(lower_bound_ms: u32, upper_bound_ms: u32, period_ms: u32) -> (timer: Self)
        requires
            lower_bound_ms <= period_ms <= upper_bound_ms,
        ensures
            timer.valid(),
            timer.running(),
            !timer.started(),
            timer.lower() == lower_bound_ms,
            timer.upper() == upper_bound_ms,
            timer.period() == period_ms,
    {
        Timer { lower_bound_ms, upper_bound_ms, period_ms, running: true, started: false }
    }

    /// The period that runs, in milliseconds.
    pub fn period_ms(&self) -> (period_ms: u32)
        ensures
            period_ms == self.period(),
    {
        self.period_ms
    }

    /// Whether the timer goes on.
    pub fn is_running(&self) -> (running: bool)
        ensures
            running == self.running(),
    {
        self.running
    }

    /// Whether the clock was started on the present period.
    pub fn is_started(&self) -> (started: bool)
        ensures
            started == self.started(),
    {
        self.started
    }

    /// Starts the clock on the present period, and says how long that is in milliseconds.
    pub fn start(&mut self) -> (period_ms: u32)
        ensures
            period_ms == old(self).period(),
            final(self).started(),
            final(self).period() == old(self).period(),
            final(self).lower() == old(self).lower(),
            final(self).upper() == old(self).upper(),
            final(self).running() == old(self).running(),
    {
        self.started = true;
        self.period_ms
    }

    /// Wakes the timer with a newly drawn period. After a signal and after a reset that period
    /// is the next one, from its beginning; where nobody is left to hear the timer or to reset it, it
    /// stops.
    pub fn wake_with(&mut self, wakeup: Wakeup, drawn_ms: u32)
        requires
            old(self).valid(),
            old(self).lower() <= drawn_ms <= old(self).upper(),
        ensures
            final(self).valid(),
            final(self).lower() == old(self).lower(),
            final(self).upper() == old(self).upper(),
            final(self).running() == (old(self).running() && (wakeup == Wakeup::Signalled || wakeup
                == Wakeup::Reset)),
            final(self).period() == (if final(self).running() {
                drawn_ms
            } else {
                old(self).period()
            }),
            final(self).started() == (old(self).started() && !final(self).running()),
    {
        match wakeup {
            Wakeup::Signalled | Wakeup::Reset => {
                if self.running {
                    self.period_ms = drawn_ms;
                    self.started = false;
                }
            },
            Wakeup::Unheard | Wakeup::Abandoned => {
                self.running = false;
            },
        }
    }

    /// Wakes the timer and draws the period that it may go on with.
    pub fn wake(&mut self, wakeup: Wakeup)
        requires
            old(self).valid(),
        ensures
            final(self).valid(),
            final(self).lower() == old(self).lower(),
            final(self).upper() == old(self).upper(),
            final(self).running() == (old(self).running() && (wakeup == Wakeup::Signalled || wakeup
                == Wakeup::Reset)),
            !final(self).running() ==> final(self).period() == old(self).period(),
            final(self).started() == (old(self).started() && !final(self).running()),
    {
        let drawn_ms: u32 = rand_duration(self.lower_bound_ms, self.upper_bound_ms);
        self.wake_with(wakeup, drawn_ms);
    }

    /// Starts the timer over: a new period is drawn, and runs from its beginning. A timer that has
    /// stopped stays as it is.
    pub fn reset(&mut self)
        requires
            old(self).valid(),
        ensures
            final(self).valid(),
            final(self).lower() == old(self).lower(),
            final(self).upper() == old(self).upper(),
            final(self).running() == old(self).running(),
            old(self).running() ==> !final(self).started(),
            !old(self).running() ==> *final(self) == *old(self),
    {
        self.wake(Wakeup::Reset);
    }

    /// Stops the timer.
    pub fn stop(&mut self)
        requires
            old(self).valid(),
        ensures
            final(self).valid(),
            final(self).lower() == old(self).lower(),
            final(self).upper() == old(self).upper(),
            final(self).period() == old(self).period(),
            final(self).started() == old(self).started(),
            !final(self).running(),
    {
        self.running = false;
    }
}

/// A timer is valid where its period lies between its bounds.
pub proof fn lemma_period_within_bounds(timer: Timer)
    ensures
        timer.valid() <==> timer.lower() <= timer.period() && timer.period() <= timer.upper(),
{
}

} // verus!
