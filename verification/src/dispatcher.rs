//! The dispatcher: it starts one worker per source and then gives the sources
//! their turn to print, one at a time, in the order in which they were listed.

use vstd::prelude::*;

verus! {

/// One thing for the dispatcher's caller to do. The number is the position of
/// the source in the list.
#[derive(Clone, Copy, Debug, PartialEq, Eq, Structural)]
pub enum Step {
    /// Obtain the source's timeline and start its worker in the background.
    Start(usize),
    /// Print the source's label line.
    Announce(usize),
    /// Send the source's worker its release signal.
    Release(usize),
    /// Wait until the source's worker has returned.
    Join(usize),
    /// Print the blank line that closes the source's output.
    Separate(usize),
    /// Nothing is left to do.
    Finished,
}

/// The first step for a list of `sources` sources.
pub open spec fn first_step(sources: nat) -> Step {
    if sources == 0 {
        Step::Finished
    } else {
        Step::Start(0)
    }
}

/// The step that follows `step`. All workers are started before the first
/// source is announced; then each source in turn is announced, released,
/// joined and closed with a blank line before the next one is announced.
pub open spec fn step_after(sources: nat, step: Step) -> Step {
    match step {
        Step::Start(i) => if i + 1 < sources {
            Step::Start((i + 1) as usize)
        } else {
            Step::Announce(0)
        },
        Step::Announce(i) => Step::Release(i),
        Step::Release(i) => Step::Join(i),
        Step::Join(i) => Step::Separate(i),
        Step::Separate(i) => if i + 1 < sources {
            Step::Announce((i + 1) as usize)
        } else {
            Step::Finished
        },
        Step::Finished => Step::Finished,
    }
}

/// Whether `step` can come up with `sources` sources: it names a source of
/// the list, or is the last one.
pub open spec fn step_in_range(sources: nat, step: Step) -> bool {
    match step {
        Step::Start(i) => i < sources,
        Step::Announce(i) => i < sources,
        Step::Release(i) => i < sources,
        Step::Join(i) => i < sources,
        Step::Separate(i) => i < sources,
        Step::Finished => true,
    }
}

/// The step that comes up after `taken` steps were taken.
pub open spec fn nth_step(sources: nat, taken: nat) -> Step
    decreases taken,
{
    if taken == 0 {
        first_step(sources)
    } else {
        step_after(sources, nth_step(sources, (taken - 1) as nat))
    }
}

/// The whole plan written out: `sources` starts, then four steps for each
/// source in order, then nothing.
pub open spec fn planned_step(sources: nat, taken: nat) -> Step {
    if taken < sources {
        Step::Start(taken as usize)
    } else if taken < 5 * sources {
        let turn = ((taken - sources) / 4) as usize;
        let part = (taken - sources) % 4;
        if part == 0 {
            Step::Announce(turn)
        } else if part == 1 {
            Step::Release(turn)
        } else if part == 2 {
            Step::Join(turn)
        } else {
            Step::Separate(turn)
        }
    } else {
        Step::Finished
    }
}

/// The dispatcher follows the plan: after any number of steps, the step that
/// comes up is the one that the plan has at that place. So every worker is
/// started before anything is printed, source `i` is announced, released,
/// joined and closed in this order, and source `i + 1` is announced only
/// after source `i` was closed.
pub proof fn lemma_steps_follow_plan(sources: nat, taken: nat)
    requires
        sources <= usize::MAX,
    ensures
        nth_step(sources, taken) == planned_step(sources, taken),
    decreases taken,
{
    if taken > 0 {
        let before = (taken - 1) as nat;
        lemma_steps_follow_plan(sources, before);
        if before >= sources && before < 5 * sources {
            let offset = before - sources;
            assert(offset / 4 < sources);
            if offset % 4 == 3 {
                assert((offset + 1) / 4 == offset / 4 + 1);
                assert((offset + 1) % 4 == 0);
            } else {
                assert((offset + 1) / 4 == offset / 4);
                assert((offset + 1) % 4 == offset % 4 + 1);
            }
        }
    }
}

/// Every step has one place in the plan. The worker of source `i` is started
/// once, at place `i`; its label is printed once, its release is sent once,
/// it is joined once and its blank line is printed once, at four places in a
/// row that come after all the starts and after the places of the sources
/// before it. From place `5 * sources` on, nothing is left to do.
pub proof fn lemma_step_places(sources: nat, taken: nat, i: usize)
    requires
        sources <= usize::MAX,
    ensures
        nth_step(sources, taken) == Step::Start(i) <==> i < sources && taken == i,
        nth_step(sources, taken) == Step::Announce(i) <==> i < sources && taken == sources + 4 * i,
        nth_step(sources, taken) == Step::Release(i) <==> i < sources && taken == sources + 4 * i
            + 1,
        nth_step(sources, taken) == Step::Join(i) <==> i < sources && taken == sources + 4 * i + 2,
        nth_step(sources, taken) == Step::Separate(i) <==> i < sources && taken == sources + 4 * i
            + 3,
        nth_step(sources, taken) is Finished <==> taken >= 5 * sources,
{
    lemma_steps_follow_plan(sources, taken);
    if sources <= taken < 5 * sources {
        let offset = taken - sources;
        assert(offset == 4 * (offset / 4) + offset % 4);
        assert(offset / 4 < sources);
    }
}

/// Where a run stands: how many sources there are and what is to be done next.
pub struct Dispatcher {
    sources: usize,
    pending: Step,
}

impl Dispatcher {
    #[verifier::type_invariant]
    spec fn well_formed(self) -> bool {
        step_in_range(self.sources as nat, self.pending)
    }

    /// The number of sources.
    pub closed spec fn sources(self) -> nat {
        self.sources as nat
    }

    /// The step that `next_step` will hand out.
    pub closed spec fn pending(self) -> Step {
        self.pending
    }

    /// A dispatcher for a list of `sources` sources, before its first step.
    pub fn new(sources: usize) -> (dispatcher: Dispatcher)
        ensures
            dispatcher.sources() == sources,
            dispatcher.pending() == first_step(sources as nat),
    {
        if sources == 0 {
            Dispatcher { sources, pending: Step::Finished }
        } else {
            Dispatcher { sources, pending: Step::Start(0) }
        }
    }

    /// Whether nothing is left to do.
    pub fn is_finished(&self) -> (finished: bool)
        ensures
            finished == (self.pending() is Finished),
    {
        match self.pending {
            Step::Finished => true,
            _ => false,
        }
    }

    /// Hands out the pending step and moves on to the one after it. The caller
    /// carries the step out before it asks for the next one.
    pub fn next_step(&mut self) -> (step: Step)
        ensures
            step == old(self).pending(),
            step_in_range(old(self).sources(), step),
            final(self).sources() == old(self).sources(),
            final(self).pending() == step_after(old(self).sources(), step),
    {
        proof {
            use_type_invariant(&*self);
        }
        let step = self.pending;
        let following = match step {
            Step::Start(i) => if i + 1 < self.sources {
                Step::Start(i + 1)
            } else {
                Step::Announce(0)
            },
            Step::Announce(i) => Step::Release(i),
            Step::Release(i) => Step::Join(i),
            Step::Join(i) => Step::Separate(i),
            Step::Separate(i) => if i + 1 < self.sources {
                Step::Announce(i + 1)
            } else {
                Step::Finished
            },
            Step::Finished => Step::Finished,
        };
        self.pending = following;
        step
    }
}

} // verus!
