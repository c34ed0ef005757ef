//! Training runs of the FORGE model that go on step by step.

use vstd::prelude::*;
use rand::rngs::StdRng;
use crate::arith::{Arith, lawful, s_count, s_lit, s_over, s_plus};
use crate::forge_eval::{
    draw_runs, draws_runs, evaluate_forge_bpc, evaluates_to, is_run, runs_lie_in_the_data,
};
use crate::forge_model::{ForgeModel, ForgeModelValues};
use crate::forge_trainer::{ForgeAdam, forge_lr_of, forge_train_step, is_forge_step};
use crate::rng::{is_seeded, seeded};
use crate::runs::{Event, holds_windows, turn_of};
use crate::schedule::{Limit, Schedule, Turn};

verus! {

/// How a FORGE model is trained.
pub struct ForgeRunConfig<A: Arith> {
    pub batch_size: usize,
    pub seq_len: usize,
    pub max_steps: usize,
    pub base_lr: A::T,
}

/// What a run reports of a step.
pub struct ForgeProgress<A: Arith> {
    pub step: usize,
    /// The mean loss of the tokens of the batch.
    pub train_loss: A::T,
    pub lr: A::T,
    /// The FLOPs of the step.
    pub flops: u64,
    /// Whether the model is to be validated now.
    pub validate: bool,
}

/// A training run on random windows. The optimiser, batch size, seq len and step count do not
/// depend on the model.
pub struct ForgeRun<A: Arith, B: Arith> {
    pub optimizer: ForgeAdam<A>,
    pub rng: StdRng,
    pub schedule: Schedule,
    /// The FLOPs of the steps so far.
    pub flops_so_far: B::T,
}

/// The mean of a sum of losses over the tokens of a batch, at least one.
pub open spec fn batch_mean<A: Arith>(loss: A::T, batch_size: usize, seq_len: usize) -> A::T {
    let n = (batch_size * seq_len) as usize;
    s_over::<A>(
        loss,
        s_count::<A>(
            if n > 0 {
                n
            } else {
                1
            },
        ),
    )
}

impl<A: Arith, B: Arith> ForgeRun<A, B> {
    /// The run is one of this model under this configuration.
    pub open spec fn wf(&self, model: ForgeModelValues<A>, config: ForgeRunConfig<A>) -> bool {
        &&& self.schedule.wf()
        &&& self.schedule.max_steps == config.max_steps
        &&& self.schedule.eval_interval == 25
        &&& self.optimizer.fits(model, self.schedule.step + 1)
        &&& model.d * model.d <= usize::MAX
    }

    /// The model can be trained for a step on this corpus under this configuration.
    pub open spec fn can_step(
        model: ForgeModelValues<A>,
        train: Seq<u8>,
        config: ForgeRunConfig<A>,
    ) -> bool {
        &&& config.batch_size * config.seq_len <= usize::MAX
        &&& model.with_no_flops().can_train(config.batch_size * config.seq_len)
        &&& holds_windows(train, model.vocab, config.seq_len as nat)
    }

    /// What a step of the run comes to: the generator draws the batch, and the model is trained
    /// on it.
    pub open spec fn trains(
        &self,
        model: ForgeModelValues<A>,
        train: Seq<u8>,
        config: ForgeRunConfig<A>,
        p: ForgeProgress<A>,
        next: ForgeRun<A, B>,
        next_model: ForgeModelValues<A>,
    ) -> bool {
        &&& next.schedule.step == p.step
        &&& next.flops_so_far == s_plus::<B>(self.flops_so_far, s_lit::<B>(p.flops, 0))
        &&& next_model.train_flops() == model.train_flops()
        &&& model.nothing_pending() ==> next_model.nothing_pending() && p.flops == (
        config.batch_size * config.seq_len) * model.train_flops()
        &&& p.lr == forge_lr_of::<A>(p.step, config.max_steps, config.base_lr)
        &&& exists|batch: Seq<Vec<usize>>, loss: A::T|
            {
                &&& batch.len() == config.batch_size
                &&& draws_runs(self.rng, train, (config.seq_len + 1) as nat, batch, next.rng)
                &&& #[trigger] is_forge_step::<A>(
                    model,
                    self.optimizer,
                    batch,
                    config.seq_len,
                    (loss, p.lr, p.flops),
                    next_model,
                    next.optimizer,
                )
                &&& p.train_loss == batch_mean::<A>(loss, config.batch_size, config.seq_len)
            }
    }

    /// A run before its first step; the FLOP counter of the model is set to zero.
    pub fn new(model: &mut ForgeModel<A>, config: &ForgeRunConfig<A>) -> (run: Self)
        requires
            lawful::<A>(),
            lawful::<B>(),
            old(model)@.has_room(0),
            old(model).d * old(model).d <= usize::MAX,
        ensures
            final(model)@ == old(model)@.with_no_flops(),
            is_seeded(777, run.rng),
            run.schedule.wf(),
            run.schedule.max_steps == config.max_steps,
            run.schedule.eval_interval == 25,
            run.schedule.step == 0,
            run.optimizer.is_new(final(model)@),
            run.flops_so_far == s_lit::<B>(0, 0),
    {
        model.reset_flop_counter();
        ForgeRun {
            optimizer: ForgeAdam::new(model),
            rng: seeded(777),
            schedule: Schedule::new(config.max_steps, 25),
            flops_so_far: B::lit(0, 0),
        }
    }

    /// Go on with a run when some time has passed: train the next step, unless all are done or
    /// the time is up.
    pub fn advance(
        &mut self,
        model: &mut ForgeModel<A>,
        train: &[u8],
        config: &ForgeRunConfig<A>,
        elapsed: B::T,
        limit: B::T,
    ) -> (event: Event<ForgeProgress<A>>)
        requires
            lawful::<A>(),
            lawful::<B>(),
            old(self).wf(old(model)@, *config),
            old(self).schedule.is_due::<B>(elapsed, limit, Limit::Exceeded) ==> Self::can_step(
                old(model)@,
                train@,
                *config,
            ),
        ensures
            final(self).wf(final(model)@, *config),
            ({
                let turn = old(self).schedule.turn::<B>(elapsed, limit, Limit::Exceeded);
                match event {
                    Event::Finished => turn is Done && *final(self) == *old(self) && final(model)@
                        == old(model)@,
                    Event::TimeUp(s) => turn == Turn::TimeUp(s) && *final(self) == *old(self)
                        && final(model)@ == old(model)@,
                    Event::Stepped(p) => turn == turn_of(p.step, p.validate) && old(self).trains(
                        old(model)@,
                        train@,
                        *config,
                        p,
                        *final(self),
                        final(model)@,
                    ),
                }
            }),
    {
        let ghost (run0, m0) = (*self, model@);
        let turn = self.schedule.next::<B>(elapsed, limit, Limit::Exceeded);
        let (step, validate): (usize, bool) = match turn {
            Turn::Done => return Event::Finished,
            Turn::TimeUp(step) => return Event::TimeUp(step),
            Turn::Train(step) => (step, false),
            Turn::TrainAndEvaluate(step) => (step, true),
        };
        assert(train.len() == train@.len());
        let batch = draw_runs(train, config.batch_size, config.seq_len + 1, &mut self.rng);
        proof {
            let n = (config.seq_len + 1) as nat;
            runs_lie_in_the_data(run0.rng, train@, n, batch@, self.rng);
            assert forall|i: int| 0 <= i < batch@.len() implies m0.is_training(
                #[trigger] batch@[i]@,
            ) && batch@[i]@.len() == config.seq_len + 1 by {
                assert(is_run(train@, n, batch@[i]@));
            }
            assert(self.optimizer.fits(m0, usize::MAX as int));
        }
        let (loss, lr, flops) = forge_train_step(
            model,
            &mut self.optimizer,
            batch.as_slice(),
            config.seq_len,
            step,
            config.max_steps,
            config.base_lr,
        );
        self.flops_so_far = B::plus(self.flops_so_far, B::lit(flops, 0));
        let tokens: usize = config.batch_size * config.seq_len;
        let train_loss = A::over(
            loss,
            A::count(
                if tokens > 0 {
                    tokens
                } else {
                    1
                },
            ),
        );
        let p = ForgeProgress { step, train_loss, lr, flops, validate };
        proof {
            assert(is_forge_step::<A>(
                m0,
                run0.optimizer,
                batch@,
                config.seq_len,
                (loss, p.lr, p.flops),
                model@,
                self.optimizer,
            ));
            assert(run0.trains(m0, train@, *config, p, *self, model@));
            assert(self.optimizer.fits(model@, (self.schedule.step + 1) as int));
        }
        Event::Stepped(p)
    }
}

/// The validation behind a step: mean loss and BPC on windows whose seed is the step.
pub fn validate<A: Arith>(
    model: &mut ForgeModel<A>,
    val: &[u8],
    config: &ForgeRunConfig<A>,
    step: usize,
) -> (r: (A::T, A::T))
    requires
        lawful::<A>(),
        old(model)@.with_no_flops().can_evaluate(8 * config.seq_len),
        8 * config.seq_len <= usize::MAX,
        holds_windows(val@, old(model)@.vocab, config.seq_len as nat),
    ensures
        evaluates_to::<A>(
            old(model)@.with_no_flops(),
            val@,
            8,
            config.seq_len as nat,
            step as u64,
            final(model)@,
            r,
        ),
        final(model)@.train_flops() == old(model)@.train_flops(),
        old(model)@.nothing_pending() ==> final(model)@.nothing_pending(),
{
    evaluate_forge_bpc(model, val, 8, config.seq_len, step as u64)
}

} // verus!
