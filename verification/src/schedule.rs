//! The course of a training run: which step comes next, and when it ends.

use vstd::prelude::*;
use crate::arith::{Arith, lawful, s_count, s_equals, s_exceeds, s_over};
use crate::trainer::is_eval_step;

verus! {

/// What a training run does next.
#[derive(Debug, Clone, Copy, PartialEq, Eq, Structural)]
pub enum Turn {
    /// All steps are done.
    Done,
    /// The time is up before this step.
    TimeUp(usize),
    /// Train this step.
    Train(usize),
    /// Train this step, and evaluate the model behind it.
    TrainAndEvaluate(usize),
}

/// Whether the time limit itself is still within the time.
#[derive(Debug, Clone, Copy, PartialEq, Eq, Structural)]
pub enum Limit {
    /// The time is up as soon as the limit is reached.
    Reached,
    /// The time is up when the limit is exceeded.
    Exceeded,
}

/// A run of steps, and how far it has come.
pub struct Schedule {
    pub max_steps: usize,
    pub eval_interval: usize,
    /// The steps that were handed out.
    pub step: usize,
}

/// Whether the time is up.
pub open spec fn is_time_up<B: Arith>(elapsed: B::T, limit: B::T, kind: Limit) -> bool {
    s_exceeds::<B>(elapsed, limit) || (kind == Limit::Reached && s_equals::<B>(elapsed, limit))
}

impl Schedule {
    /// The steps are counted up to their number.
    pub open spec fn wf(&self) -> bool {
        self.step <= self.max_steps
    }

    /// A step is left, and there is time for it.
    pub open spec fn is_due<B: Arith>(&self, elapsed: B::T, limit: B::T, kind: Limit) -> bool {
        self.step < self.max_steps && !is_time_up::<B>(elapsed, limit, kind)
    }

    /// What comes next.
    pub open spec fn turn<B: Arith>(&self, elapsed: B::T, limit: B::T, kind: Limit) -> Turn {
        let step = (self.step + 1) as usize;
        if self.step >= self.max_steps {
            Turn::Done
        } else if is_time_up::<B>(elapsed, limit, kind) {
            Turn::TimeUp(step)
        } else if step % self.eval_interval == 0 || step == 1 {
            Turn::TrainAndEvaluate(step)
        } else {
            Turn::Train(step)
        }
    }

    pub fn new(max_steps: usize, eval_interval: usize) -> (s: Self)
        ensures
            s.wf(),
            s.max_steps == max_steps,
            s.eval_interval == eval_interval,
            s.step == 0,
    {
        Schedule { max_steps, eval_interval, step: 0 }
    }

    /// Whether a step is left, and there is time for it.
    pub fn has_step_due<B: Arith>(&self, elapsed: B::T, limit: B::T, kind: Limit) -> (due: bool)
        requires
            lawful::<B>(),
        ensures
            due == self.is_due::<B>(elapsed, limit, kind),
    {
        self.step < self.max_steps && !time_is_up::<B>(elapsed, limit, kind)
    }

    /// Hand out the next step, unless all are done or the time is up.
    pub fn next<B: Arith>(&mut self, elapsed: B::T, limit: B::T, kind: Limit) -> (turn: Turn)
        requires
            lawful::<B>(),
            old(self).wf(),
            old(self).is_due::<B>(elapsed, limit, kind) ==> old(self).eval_interval > 0,
        ensures
            turn == old(self).turn::<B>(elapsed, limit, kind),
            final(self).wf(),
            final(self).max_steps == old(self).max_steps,
            final(self).eval_interval == old(self).eval_interval,
            final(self).step == match turn {
                Turn::Train(s) => s,
                Turn::TrainAndEvaluate(s) => s,
                _ => old(self).step,
            },
    {
        if self.step >= self.max_steps {
            return Turn::Done;
        }
        let step: usize = self.step + 1;
        let up: bool = time_is_up::<B>(elapsed, limit, kind);
        if up {
            return Turn::TimeUp(step);
        }
        self.step = step;
        if is_eval_step(step, self.eval_interval) {
            Turn::TrainAndEvaluate(step)
        } else {
            Turn::Train(step)
        }
    }
}

/// Whether the time is up.
fn time_is_up<B: Arith>(elapsed: B::T, limit: B::T, kind: Limit) -> (up: bool)
    requires
        lawful::<B>(),
    ensures
        up == is_time_up::<B>(elapsed, limit, kind),
{
    match kind {
        Limit::Reached => B::exceeds(elapsed, limit) || B::equals(elapsed, limit),
        Limit::Exceeded => B::exceeds(elapsed, limit),
    }
}

/// Tokens per second after some steps.
pub open spec fn rate_after<B: Arith>(
    step: usize,
    batch_size: usize,
    seq_len: usize,
    elapsed: B::T,
) -> B::T {
    s_over::<B>(s_count::<B>((step * batch_size * seq_len) as usize), elapsed)
}

/// Tokens per second after some steps.
pub fn tokens_per_sec<B: Arith>(
    step: usize,
    batch_size: usize,
    seq_len: usize,
    elapsed: B::T,
) -> (rate: B::T)
    requires
        lawful::<B>(),
        step * batch_size <= usize::MAX,
        step * batch_size * seq_len <= usize::MAX,
    ensures
        rate == rate_after::<B>(step, batch_size, seq_len, elapsed),
{
    B::over(B::count(step * batch_size * seq_len), elapsed)
}

} // verus!
