use vstd::prelude::*;

verus! {

/// Relies on num_cpus::get: the number of CPUs this process may use. Its
/// count is read from the machine, and on Linux is not clamped below, so
/// nothing is promised of it here.
#[verifier::external_body]
fn cpu_count() -> (r: usize) {
    num_cpus::get()
}

/// Degree of parallelism for a CPU count: the count itself, and at least one.
pub fn parallelism_for(cpus: usize) -> (r: usize)
    ensures
        r >= 1,
        cpus >= 1 ==> r == cpus,
        cpus == 0 ==> r == 1,
{
    if cpus == 0 {
        1
    } else {
        cpus
    }
}

/// Degree of parallelism of the transform stage: one task per available
/// CPU, and at least one.
pub fn transform_parallelism() -> (r: usize)
    ensures
        r >= 1,
{
    parallelism_for(cpu_count())
}

/// The bookkeeping of the bounded transform stage: how many assignment tasks
/// are in flight, whether the input has ended, and whether a task failed.
/// A new task may start only while fewer than `capacity` are in flight, which
/// holds back the input until a slot frees; one failure ends the stage.
pub struct TransformWindow {
    capacity: usize,
    in_flight: usize,
    input_done: bool,
    failed: bool,
}

impl TransformWindow {
    pub closed spec fn spec_capacity(&self) -> int {
        self.capacity as int
    }

    pub closed spec fn spec_in_flight(&self) -> int {
        self.in_flight as int
    }

    pub closed spec fn spec_input_done(&self) -> bool {
        self.input_done
    }

    pub closed spec fn spec_failed(&self) -> bool {
        self.failed
    }

    /// At most `capacity` tasks are ever in flight.
    pub closed spec fn wf(&self) -> bool {
        1 <= self.capacity && self.in_flight <= self.capacity
    }

    /// A window of `capacity` slots, at least one.
    pub fn new(capacity: usize) -> (r: TransformWindow)
        ensures
            r.wf(),
            r.spec_capacity() == if capacity == 0 {
                1
            } else {
                capacity as int
            },
            r.spec_in_flight() == 0,
            !r.spec_input_done(),
            !r.spec_failed(),
    {
        TransformWindow {
            capacity: parallelism_for(capacity),
            in_flight: 0,
            input_done: false,
            failed: false,
        }
    }

    pub fn in_flight(&self) -> (r: usize)
        ensures
            r == self.spec_in_flight(),
    {
        self.in_flight
    }

    /// Starts a task if the stage may take one more batch: it has not failed,
    /// the input has not ended and a slot is free. Says whether it did.
    pub fn try_spawn(&mut self) -> (r: bool)
        requires
            old(self).wf(),
        ensures
            final(self).wf(),
            r == (!old(self).spec_failed() && !old(self).spec_input_done()
                && old(self).spec_in_flight() < old(self).spec_capacity()),
            final(self).spec_in_flight() == old(self).spec_in_flight() + if r {
                1int
            } else {
                0int
            },
            final(self).spec_capacity() == old(self).spec_capacity(),
            final(self).spec_failed() == old(self).spec_failed(),
            final(self).spec_input_done() == old(self).spec_input_done(),
    {
        if !self.failed && !self.input_done && self.in_flight < self.capacity {
            self.in_flight = self.in_flight + 1;
            true
        } else {
            false
        }
    }

    /// A task has ended, successfully or not. An end with no task in flight
    /// changes nothing.
    pub fn finish(&mut self, ok: bool)
        requires
            old(self).wf(),
        ensures
            final(self).wf(),
            old(self).spec_in_flight() == 0 ==> *final(self) == *old(self),
            old(self).spec_in_flight() > 0 ==> final(self).spec_in_flight() == old(
                self,
            ).spec_in_flight() - 1 && final(self).spec_failed() == (old(self).spec_failed() || !ok),
            final(self).spec_capacity() == old(self).spec_capacity(),
            final(self).spec_input_done() == old(self).spec_input_done(),
    {
        if self.in_flight > 0 {
            self.in_flight = self.in_flight - 1;
            if !ok {
                self.failed = true;
            }
        }
    }

    /// The input has no more batches.
    pub fn end_input(&mut self)
        requires
            old(self).wf(),
        ensures
            final(self).wf(),
            final(self).spec_input_done(),
            final(self).spec_in_flight() == old(self).spec_in_flight(),
            final(self).spec_capacity() == old(self).spec_capacity(),
            final(self).spec_failed() == old(self).spec_failed(),
    {
        self.input_done = true;
    }

    /// The stage is over: a task failed, or the input ended and no task is
    /// in flight.
    pub fn is_done(&self) -> (r: bool)
        ensures
            r == (self.spec_failed() || (self.spec_input_done() && self.spec_in_flight() == 0)),
    {
        self.failed || (self.input_done && self.in_flight == 0)
    }

    pub fn has_failed(&self) -> (r: bool)
        ensures
            r == self.spec_failed(),
    {
        self.failed
    }
}

} // verus!
