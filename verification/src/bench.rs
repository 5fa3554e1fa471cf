//! The measurement loop: a state machine that, fed the current time each
//! step, records the interval since its previous step into the histogram and
//! decides whether the run goes on, under an iteration-count or wall-clock
//! stop condition.

use vstd::prelude::*;
use vstd::string::StringExecFns;
use crate::hist::{Data, fresh_data, register_step, summary_spec, warmup_step};
use crate::strfmt::dec_spec;
use crate::strfmt::u128_to_dec;

verus! {

/// Whether the run goes on after a step: under an iteration bound while the
/// steps taken have not passed it, under a duration bound while the time
/// elapsed since the start is under it, and never without a bound.
pub open spec fn continues(
    iter: Option<usize>,
    duration: Option<u128>,
    steps_after: int,
    now: int,
    start: int,
) -> bool {
    match iter {
        Some(n) => steps_after <= n,
        None => match duration {
            Some(d) => now - start < d,
            None => false,
        },
    }
}

/// A measurement run: a labelled histogram driven by timestamps, with at
/// most one transition from running to stopped.
pub struct Benchy {
    title: String,
    iter: Option<usize>,
    duration: Option<u128>,
    start_at: u128,
    prev: u128,
    steps: usize,
    stopped: bool,
    data: Data,
}

impl Benchy {
    /// Internal consistency: a sound histogram and timestamps that never run
    /// backwards past the start.
    pub closed spec fn wf(self) -> bool {
        &&& self.data.wf()
        &&& self.start_at <= self.prev
        &&& self.steps == self.data.spec_cnt() + self.data.spec_dropped()
    }

    pub closed spec fn spec_title(self) -> Seq<char> {
        self.title@
    }

    pub closed spec fn spec_iter(self) -> Option<usize> {
        self.iter
    }

    pub closed spec fn spec_duration(self) -> Option<u128> {
        self.duration
    }

    pub closed spec fn spec_start_at(self) -> u128 {
        self.start_at
    }

    pub closed spec fn spec_prev(self) -> u128 {
        self.prev
    }

    pub closed spec fn spec_steps(self) -> usize {
        self.steps
    }

    pub closed spec fn spec_stopped(self) -> bool {
        self.stopped
    }

    pub closed spec fn spec_data(self) -> Data {
        self.data
    }

    /// Start an iteration-bounded run: it continues until `n` steps have been
    /// counted. `now` is the current reading of the caller's monotonic clock
    /// in microseconds.
    pub fn new_n(title: &str, n: usize, now: u128) -> (b: Benchy)
        ensures
            b.wf(),
            b.spec_title() == title@,
            b.spec_iter() == Some(n),
            b.spec_duration() is None,
            b.spec_start_at() == now,
            b.spec_prev() == now,
            !b.spec_stopped(),
            b.spec_steps() == 0,
            fresh_data(b.spec_data()),
    {
        Benchy {
            title: String::from_str(title),
            iter: Some(n),
            duration: None,
            start_at: now,
            prev: now,
            steps: 0,
            stopped: false,
            data: Data::new(),
        }
    }

    /// Start a duration-bounded run: it continues until `duration`
    /// microseconds have elapsed since `now`, the current reading of the
    /// caller's monotonic clock in microseconds.
    pub fn new_duration(title: &str, duration: u128, now: u128) -> (b: Benchy)
        ensures
            b.wf(),
            b.spec_title() == title@,
            b.spec_iter() is None,
            b.spec_duration() == Some(duration),
            b.spec_start_at() == now,
            b.spec_prev() == now,
            !b.spec_stopped(),
            b.spec_steps() == 0,
            fresh_data(b.spec_data()),
    {
        Benchy {
            title: String::from_str(title),
            iter: None,
            duration: Some(duration),
            start_at: now,
            prev: now,
            steps: 0,
            stopped: false,
            data: Data::new(),
        }
    }

    /// The histogram accumulated so far.
    pub fn data(&self) -> (d: &Data)
        requires
            self.wf(),
        ensures
            *d == self.spec_data(),
            d.wf(),
    {
        &self.data
    }

    /// Steps taken so far: every call answered while the run was live,
    /// whether its interval was registered, dropped, or the warm-up.
    pub fn steps(&self) -> (s: usize)
        ensures
            s == self.spec_steps(),
    {
        self.steps
    }

    /// Whether the run has stopped; once true it stays true.
    pub fn is_stopped(&self) -> (r: bool)
        ensures
            r == self.spec_stopped(),
    {
        self.stopped
    }

    /// One step of the run at time `now`: the very first step only warms the
    /// histogram up, every later one registers the interval since the
    /// previous step; then the stop condition decides whether the caller gets
    /// the zero-based index of the step just taken or the run stops for good.
    /// Every live call counts as a step, a dropped interval included, so the
    /// indices never repeat and an iteration bound is a bound on calls. A
    /// step after the stop changes nothing and keeps answering that the run
    /// is over.
    pub fn step(&mut self, now: u128) -> (r: Option<usize>)
        requires
            old(self).wf(),
            now >= old(self).spec_prev(),
            old(self).spec_data().spec_cnt() < u32::MAX,
            old(self).spec_steps() < usize::MAX,
        ensures
            final(self).wf(),
            final(self).spec_title() == old(self).spec_title(),
            final(self).spec_iter() == old(self).spec_iter(),
            final(self).spec_duration() == old(self).spec_duration(),
            final(self).spec_start_at() == old(self).spec_start_at(),
            old(self).spec_stopped() ==> {
                &&& final(self).spec_prev() == old(self).spec_prev()
                &&& final(self).spec_data() == old(self).spec_data()
                &&& final(self).spec_steps() == old(self).spec_steps()
                &&& final(self).spec_stopped()
                &&& r is None
            },
            !old(self).spec_stopped() ==> {
                &&& final(self).spec_prev() == now
                &&& final(self).spec_steps() == old(self).spec_steps() + 1
                &&& (old(self).spec_steps() == 0 ==> warmup_step(
                    old(self).spec_data(),
                    final(self).spec_data(),
                ))
                &&& (old(self).spec_steps() > 0 ==> register_step(
                    old(self).spec_data(),
                    (now - old(self).spec_prev()) as u128,
                    final(self).spec_data(),
                ))
                &&& (continues(
                    old(self).spec_iter(),
                    old(self).spec_duration(),
                    final(self).spec_steps() as int,
                    now as int,
                    old(self).spec_start_at() as int,
                ) ==> !final(self).spec_stopped() && r == Some(
                    (final(self).spec_steps() - 1) as usize,
                ))
                &&& (!continues(
                    old(self).spec_iter(),
                    old(self).spec_duration(),
                    final(self).spec_steps() as int,
                    now as int,
                    old(self).spec_start_at() as int,
                ) ==> final(self).spec_stopped() && r is None)
            },
    {
        if self.stopped {
            return None;
        }
        if self.steps == 0 {
            self.data.note_warmup();
        } else {
            self.data.register_val(now - self.prev);
        }
        self.prev = now;
        self.steps = self.steps + 1;
        let cont: bool = match self.iter {
            Some(n) => self.steps <= n,
            None => match self.duration {
                Some(d) => now - self.start_at < d,
                None => false,
            },
        };
        if cont {
            Some(self.steps - 1)
        } else {
            self.stopped = true;
            None
        }
    }

    /// Render the run's report line: the label, the microseconds between the
    /// start and the last step, and the histogram summary.
    pub fn report(&self) -> (r: String)
        requires
            self.wf(),
        ensures
            r@ == report_spec(*self),
    {
        let mut out = self.title.clone();
        out.append(": usecs=");
        let total = u128_to_dec(self.prev - self.start_at);
        out.append(total.as_str());
        out.append(", ");
        let sum = self.data.summary();
        out.append(sum.as_str());
        proof {
            assert(out@ =~= report_spec(*self));
        }
        out
    }
}

/// The report line: label, elapsed microseconds, histogram summary.
pub open spec fn report_spec(b: Benchy) -> Seq<char> {
    b.spec_title() + ": usecs="@ + dec_spec((b.spec_prev() - b.spec_start_at()) as nat) + ", "@
        + summary_spec(b.spec_data())
}

} // verus!
