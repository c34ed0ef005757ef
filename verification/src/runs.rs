//! Training runs that go on step by step: the caller reads the clock, and a run draws the next
//! batch, trains on it and validates the model where it is time to.

use vstd::prelude::*;
use rand::rngs::StdRng;
use crate::arith::{Arith, lawful, s_lit};
use crate::dataset::{
    CharDataset, draws_windows, is_batch_row, sample_windows, windows_lie_in_the_data,
};
use crate::freezing_trainer::{
    evaluate_upper_bpc, freezing_lr, freezing_lr_of, freezing_step, go_together,
    is_freezing_eval, is_freezing_eval_step, is_freezing_step, is_upper_validation,
};
use crate::gru::GruModel;
use crate::gru_trainer::{
    GruAdamW, baseline_lr_of, evaluate_gru_bpc, gru_train_step, is_gru_step, is_gru_validation,
};
use crate::model::AxiomSingleLayerModel;
use crate::optimizer::{AdamW, AdamWConfig, StackedAdamW};
use crate::rng::{is_seeded, seeded};
use crate::schedule::{Limit, Schedule, Turn};
use crate::stacked_model::AxiomModel;
use crate::stacked_trainer::{
    evaluate_stacked_bpc, is_stacked_step, is_stacked_validation, stacked_train_step,
};
use crate::trainer::{
    LocalLossConfig, TrainerConfig, evaluate_bpc, is_sequence, is_train_step, is_validation,
    train_step,
};
use crate::transformer_model::TransformerModel;
use crate::transformer_trainer::{
    TransformerAdamW, evaluate_transformer_bpc, is_transformer_step, is_transformer_validation,
    transformer_train_step,
};

verus! {

/// What comes of letting a run go on.
pub enum Event<P> {
    /// All steps are done.
    Finished,
    /// The time is up before this step.
    TimeUp(usize),
    /// A step was trained.
    Stepped(P),
}

/// What a run reports of a step.
pub struct Progress<A: Arith> {
    pub step: usize,
    pub train_loss: A::T,
    pub lr: A::T,
    /// Validation loss and BPC, where the step is one of those that are evaluated.
    pub validation: Option<(A::T, A::T)>,
}

/// What a run of a stack reports of a step.
pub struct StackedProgress<A: Arith> {
    pub step: usize,
    pub lr: A::T,
    /// Validation BPC of each layer, where the step is one of those that are evaluated.
    pub validation: Option<Vec<A::T>>,
}

/// All bytes are tokens of a vocabulary, and a window with its targets fits in them.
pub open spec fn holds_windows(data: Seq<u8>, vocab: nat, seq_len: nat) -> bool {
    &&& data.len() >= seq_len + 1
    &&& forall|i: int| 0 <= i < data.len() ==> #[trigger] data[i] < vocab
}

/// The bytes hold windows, and there is more than one place for them: a dataset asks for that.
pub open spec fn is_corpus(data: Seq<u8>, vocab: nat, seq_len: nat) -> bool {
    &&& holds_windows(data, vocab, seq_len)
    &&& data.len() > seq_len + 1
}

/// The turn of a step that is trained, and evaluated or not.
pub open spec fn turn_of(step: usize, evaluated: bool) -> Turn {
    if evaluated {
        Turn::TrainAndEvaluate(step)
    } else {
        Turn::Train(step)
    }
}

/// A training run of a single layer by backpropagation through time.
pub struct BpttRun<A: Arith> {
    pub optimizer: AdamW<A>,
    pub rng: StdRng,
    pub schedule: Schedule,
}

impl<A: Arith> BpttRun<A> {
    /// The run is one of this model under this configuration.
    pub open spec fn wf(&self, model: AxiomSingleLayerModel<A>, config: TrainerConfig<A>) -> bool {
        &&& self.schedule.wf()
        &&& self.schedule.max_steps == config.max_steps
        &&& self.schedule.eval_interval == config.eval_interval
        &&& self.optimizer.step == self.schedule.step
        &&& self.optimizer.fits(model)
    }

    /// The model can be trained for a step on this corpus under this configuration.
    pub open spec fn can_step(
        model: AxiomSingleLayerModel<A>,
        train: Seq<u8>,
        config: TrainerConfig<A>,
    ) -> bool {
        let seq_len = config.seq_len as nat;
        &&& config.eval_interval > 0
        &&& model.can_train(seq_len)
        &&& config.batch_size * seq_len <= usize::MAX
        &&& is_corpus(train, model.config.vocab_size as nat, seq_len)
    }

    /// The model can be validated on this corpus under this configuration.
    pub open spec fn can_validate(
        model: AxiomSingleLayerModel<A>,
        val: Seq<u8>,
        config: TrainerConfig<A>,
    ) -> bool {
        let seq_len = config.seq_len as nat;
        &&& 10 * seq_len <= usize::MAX
        &&& is_corpus(val, model.config.vocab_size as nat, seq_len)
    }

    /// What a step of the run comes to: the generator draws the batch, the model is trained on it,
    /// and what is reported of a validation is that of the trained model.
    pub open spec fn trains(
        &self,
        model: AxiomSingleLayerModel<A>,
        train: Seq<u8>,
        val: Seq<u8>,
        config: TrainerConfig<A>,
        p: Progress<A>,
        next: BpttRun<A>,
        next_model: AxiomSingleLayerModel<A>,
    ) -> bool {
        let seq_len = config.seq_len as nat;
        &&& next.schedule.step == p.step
        &&& exists|xs: Seq<Vec<usize>>, ys: Seq<Vec<usize>>|
            {
                &&& xs.len() == config.batch_size
                &&& #[trigger] draws_windows(self.rng, train, seq_len, xs, ys, next.rng)
                &&& is_train_step::<A>(
                    model,
                    self.optimizer,
                    xs,
                    ys,
                    config,
                    p.step,
                    (p.train_loss, p.lr),
                    next_model,
                    next.optimizer,
                )
            }
        &&& p.validation matches Some(v) ==> is_validation::<A>(next_model, val, 10, seq_len, v)
    }

    /// A run before its first step.
    pub fn new(model: &AxiomSingleLayerModel<A>, config: &TrainerConfig<A>) -> (run: Self)
        requires
            lawful::<A>(),
        ensures
            is_seeded(42, run.rng),
            run.schedule.wf(),
            run.schedule.max_steps == config.max_steps,
            run.schedule.eval_interval == config.eval_interval,
            run.schedule.step == 0,
            run.optimizer.config.lr == config.base_lr,
            run.optimizer.config.is_usual(),
            run.optimizer.is_new(*model),
    {
        BpttRun {
            optimizer: AdamW::new(AdamWConfig::with_lr(config.base_lr), model),
            rng: seeded(42),
            schedule: Schedule::new(config.max_steps, config.eval_interval),
        }
    }

    /// Go on with a run when some time has passed: train the next step, unless all are done or
    /// the time is up.
    pub fn advance<B: Arith>(
        &mut self,
        model: &mut AxiomSingleLayerModel<A>,
        train: &CharDataset,
        val: &CharDataset,
        config: &TrainerConfig<A>,
        elapsed: B::T,
        limit: B::T,
    ) -> (event: Event<Progress<A>>)
        requires
            lawful::<A>(),
            lawful::<B>(),
            old(self).wf(*old(model), *config),
            old(self).schedule.is_due::<B>(elapsed, limit, Limit::Reached) ==> Self::can_step(
                *old(model),
                train.data@,
                *config,
            ),
            old(self).schedule.turn::<B>(
                elapsed,
                limit,
                Limit::Reached,
            ) is TrainAndEvaluate ==> Self::can_validate(*old(model), val.data@, *config),
        ensures
            final(self).wf(*final(model), *config),
            Self::can_step(*old(model), train.data@, *config) ==> Self::can_step(
                *final(model),
                train.data@,
                *config,
            ),
            Self::can_validate(*old(model), val.data@, *config) ==> Self::can_validate(
                *final(model),
                val.data@,
                *config,
            ),
            ({
                let turn = old(self).schedule.turn::<B>(elapsed, limit, Limit::Reached);
                match event {
                    Event::Finished => turn is Done && *final(self) == *old(self) && *final(model)
                        == *old(model),
                    Event::TimeUp(s) => turn == Turn::TimeUp(s) && *final(self) == *old(self)
                        && *final(model) == *old(model),
                    Event::Stepped(p) => turn == turn_of(p.step, p.validation is Some) && old(
                        self,
                    ).trains(
                        *old(model),
                        train.data@,
                        val.data@,
                        *config,
                        p,
                        *final(self),
                        *final(model),
                    ),
                }
            }),
    {
        let ghost (run0, model0) = (*self, *model);
        let turn = self.schedule.next::<B>(elapsed, limit, Limit::Reached);
        let (step, evaluate): (usize, bool) = match turn {
            Turn::Done => return Event::Finished,
            Turn::TimeUp(step) => return Event::TimeUp(step),
            Turn::Train(step) => (step, false),
            Turn::TrainAndEvaluate(step) => (step, true),
        };
        let (xs, ys) = train.sample_batch(config.batch_size, config.seq_len, &mut self.rng);
        proof {
            let (data, n) = (train.data@, config.seq_len as nat);
            windows_lie_in_the_data(run0.rng, data, n, xs@, ys@, self.rng);
            assert forall|i: int| 0 <= i < xs@.len() implies model.trainable(
                #[trigger] xs@[i]@,
                ys@[i]@,
                config.seq_len,
            ) by {
                assert(is_batch_row(data, n, xs@[i]@, ys@[i]@));
            }
        }
        let (train_loss, lr) = train_step(
            model,
            &mut self.optimizer,
            xs.as_slice(),
            ys.as_slice(),
            config,
            step,
        );
        let validation = if evaluate {
            Some(evaluate_bpc(model, val, 10, config.seq_len))
        } else {
            None
        };
        let p = Progress { step, train_loss, lr, validation };
        proof {
            assert(draws_windows(
                run0.rng,
                train.data@,
                config.seq_len as nat,
                xs@,
                ys@,
                self.rng,
            ));
            assert(run0.trains(model0, train.data@, val.data@, *config, p, *self, *model));
        }
        Event::Stepped(p)
    }
}

/// A training run of a stack, with all layers trained at once, each on its own loss.
pub struct StackedRun<A: Arith> {
    pub optimizer: StackedAdamW<A>,
    pub rng: StdRng,
    pub schedule: Schedule,
}

impl<A: Arith> StackedRun<A> {
    /// The run is one of this model under this configuration.
    pub open spec fn wf(&self, model: AxiomModel<A>, config: TrainerConfig<A>) -> bool {
        &&& self.schedule.wf()
        &&& self.schedule.max_steps == config.max_steps
        &&& self.schedule.eval_interval == config.eval_interval
        &&& self.optimizer.step == self.schedule.step
        &&& self.optimizer.fits(model)
    }

    /// The model can be trained for a step on this corpus under this configuration.
    pub open spec fn can_step(
        model: AxiomModel<A>,
        train: Seq<u8>,
        config: TrainerConfig<A>,
    ) -> bool {
        let seq_len = config.seq_len as nat;
        &&& config.eval_interval > 0
        &&& model.can_train(seq_len)
        &&& config.batch_size * seq_len <= usize::MAX
        &&& is_corpus(train, model.config.vocab_size as nat, seq_len)
    }

    /// The model can be validated on this corpus under this configuration.
    pub open spec fn can_validate(
        model: AxiomModel<A>,
        val: Seq<u8>,
        config: TrainerConfig<A>,
    ) -> bool {
        let seq_len = config.seq_len as nat;
        &&& 10 * seq_len <= usize::MAX
        &&& is_corpus(val, model.config.vocab_size as nat, seq_len)
    }

    /// What a step of the run comes to: the generator draws the batch, the model is trained on it,
    /// and what is reported of a validation is that of the trained model.
    pub open spec fn trains(
        &self,
        model: AxiomModel<A>,
        train: Seq<u8>,
        val: Seq<u8>,
        config: TrainerConfig<A>,
        p: StackedProgress<A>,
        next: StackedRun<A>,
        next_model: AxiomModel<A>,
    ) -> bool {
        let seq_len = config.seq_len as nat;
        &&& next.schedule.step == p.step
        &&& exists|xs: Seq<Vec<usize>>, ys: Seq<Vec<usize>>|
            {
                &&& xs.len() == config.batch_size
                &&& #[trigger] draws_windows(self.rng, train, seq_len, xs, ys, next.rng)
                &&& is_stacked_step::<A>(
                    model,
                    self.optimizer,
                    xs,
                    ys,
                    config,
                    p.step,
                    p.lr,
                    next_model,
                    next.optimizer,
                )
            }
        &&& p.validation matches Some(v) ==> is_stacked_validation::<A>(
            next_model,
            val,
            10,
            seq_len,
            v@,
        )
    }

    /// A run before its first step.
    pub fn new(model: &AxiomModel<A>, config: &TrainerConfig<A>) -> (run: Self)
        requires
            lawful::<A>(),
        ensures
            is_seeded(42, run.rng),
            run.schedule.wf(),
            run.schedule.max_steps == config.max_steps,
            run.schedule.eval_interval == config.eval_interval,
            run.schedule.step == 0,
            run.optimizer.config.lr == config.base_lr,
            run.optimizer.config.is_usual(),
            run.optimizer.is_new(*model),
    {
        StackedRun {
            optimizer: StackedAdamW::new(AdamWConfig::with_lr(config.base_lr), model),
            rng: seeded(42),
            schedule: Schedule::new(config.max_steps, config.eval_interval),
        }
    }

    /// Go on with a run when some time has passed: train the next step, unless all are done or
    /// the time is up.
    pub fn advance<B: Arith>(
        &mut self,
        model: &mut AxiomModel<A>,
        train: &CharDataset,
        val: &CharDataset,
        config: &TrainerConfig<A>,
        elapsed: B::T,
        limit: B::T,
    ) -> (event: Event<StackedProgress<A>>)
        requires
            lawful::<A>(),
            lawful::<B>(),
            old(self).wf(*old(model), *config),
            old(self).schedule.is_due::<B>(elapsed, limit, Limit::Reached) ==> Self::can_step(
                *old(model),
                train.data@,
                *config,
            ),
            old(self).schedule.turn::<B>(
                elapsed,
                limit,
                Limit::Reached,
            ) is TrainAndEvaluate ==> Self::can_validate(*old(model), val.data@, *config),
        ensures
            final(self).wf(*final(model), *config),
            Self::can_step(*old(model), train.data@, *config) ==> Self::can_step(
                *final(model),
                train.data@,
                *config,
            ),
            Self::can_validate(*old(model), val.data@, *config) ==> Self::can_validate(
                *final(model),
                val.data@,
                *config,
            ),
            ({
                let turn = old(self).schedule.turn::<B>(elapsed, limit, Limit::Reached);
                match event {
                    Event::Finished => turn is Done && *final(self) == *old(self) && *final(model)
                        == *old(model),
                    Event::TimeUp(s) => turn == Turn::TimeUp(s) && *final(self) == *old(self)
                        && *final(model) == *old(model),
                    Event::Stepped(p) => turn == turn_of(p.step, p.validation is Some) && old(
                        self,
                    ).trains(
                        *old(model),
                        train.data@,
                        val.data@,
                        *config,
                        p,
                        *final(self),
                        *final(model),
                    ),
                }
            }),
    {
        let ghost (run0, model0) = (*self, *model);
        let turn = self.schedule.next::<B>(elapsed, limit, Limit::Reached);
        let (step, evaluate): (usize, bool) = match turn {
            Turn::Done => return Event::Finished,
            Turn::TimeUp(step) => return Event::TimeUp(step),
            Turn::Train(step) => (step, false),
            Turn::TrainAndEvaluate(step) => (step, true),
        };
        let (xs, ys) = train.sample_batch(config.batch_size, config.seq_len, &mut self.rng);
        proof {
            let (data, n) = (train.data@, config.seq_len as nat);
            windows_lie_in_the_data(run0.rng, data, n, xs@, ys@, self.rng);
            assert forall|i: int| 0 <= i < xs@.len() implies model.trainable(
                #[trigger] xs@[i]@,
                ys@[i]@,
                config.seq_len,
            ) by {
                assert(is_batch_row(data, n, xs@[i]@, ys@[i]@));
            }
        }
        let lr = stacked_train_step(
            model,
            &mut self.optimizer,
            xs.as_slice(),
            ys.as_slice(),
            config,
            step,
        );
        let validation = if evaluate {
            Some(evaluate_stacked_bpc(model, val, 10, config.seq_len))
        } else {
            None
        };
        let p = StackedProgress { step, lr, validation };
        proof {
            assert(draws_windows(
                run0.rng,
                train.data@,
                config.seq_len as nat,
                xs@,
                ys@,
                self.rng,
            ));
            assert(run0.trains(model0, train.data@, val.data@, *config, p, *self, *model));
        }
        Event::Stepped(p)
    }
}

/// How a baseline is trained.
pub struct BaselineConfig<A: Arith> {
    pub batch_size: usize,
    pub seq_len: usize,
    pub max_steps: usize,
    pub base_lr: A::T,
}

/// A training run of the recurrent baseline.
pub struct GruRun<A: Arith> {
    pub optimizer: GruAdamW<A>,
    pub rng: StdRng,
    pub schedule: Schedule,
}

impl<A: Arith> GruRun<A> {
    /// The run is one of this model under this configuration.
    pub open spec fn wf(&self, model: GruModel<A>, config: BaselineConfig<A>) -> bool {
        &&& self.schedule.wf()
        &&& self.schedule.max_steps == config.max_steps
        &&& self.schedule.eval_interval == 50
        &&& self.optimizer.step == self.schedule.step
        &&& self.optimizer.fits(model)
    }

    /// The model can be trained for a step on this corpus under this configuration.
    pub open spec fn can_step(
        model: GruModel<A>,
        train: Seq<u8>,
        config: BaselineConfig<A>,
    ) -> bool {
        let seq_len = config.seq_len as nat;
        &&& model.can_train(seq_len)
        &&& config.batch_size * seq_len <= usize::MAX
        &&& holds_windows(train, model.vocab_size as nat, seq_len)
    }

    /// The model can be validated on this corpus under this configuration.
    pub open spec fn can_validate(
        model: GruModel<A>,
        val: Seq<u8>,
        config: BaselineConfig<A>,
    ) -> bool {
        let seq_len = config.seq_len as nat;
        &&& 10 * seq_len <= usize::MAX
        &&& holds_windows(val, model.vocab_size as nat, seq_len)
    }

    /// What a step of the run comes to: the generator draws the batch, the model is trained on it,
    /// and what is reported of a validation is that of the trained model.
    pub open spec fn trains(
        &self,
        model: GruModel<A>,
        train: Seq<u8>,
        val: Seq<u8>,
        config: BaselineConfig<A>,
        p: Progress<A>,
        next: GruRun<A>,
        next_model: GruModel<A>,
    ) -> bool {
        let seq_len = config.seq_len as nat;
        &&& next.schedule.step == p.step
        &&& exists|xs: Seq<Vec<usize>>, ys: Seq<Vec<usize>>|
            {
                &&& xs.len() == config.batch_size
                &&& #[trigger] draws_windows(self.rng, train, seq_len, xs, ys, next.rng)
                &&& is_gru_step::<A>(
                    model,
                    self.optimizer,
                    xs,
                    ys,
                    config.seq_len,
                    baseline_lr_of::<A>(p.step, config.max_steps, config.base_lr),
                    (p.train_loss, p.lr),
                    next_model,
                    next.optimizer,
                )
            }
        &&& p.validation matches Some(v) ==> is_gru_validation::<A>(next_model, val, 10, seq_len, v)
    }

    /// A run before its first step.
    pub fn new(model: &GruModel<A>, config: &BaselineConfig<A>) -> (run: Self)
        requires
            lawful::<A>(),
        ensures
            is_seeded(42, run.rng),
            run.schedule.wf(),
            run.schedule.max_steps == config.max_steps,
            run.schedule.eval_interval == 50,
            run.schedule.step == 0,
            run.optimizer.config().lr == config.base_lr,
            run.optimizer.config().is_usual(),
            run.optimizer.step == 0,
            run.optimizer.fits(*model),
            run.optimizer.first() == model.values().cleared::<A>(),
            run.optimizer.second() == model.values().cleared::<A>(),
    {
        GruRun {
            optimizer: GruAdamW::new(model, config.base_lr),
            rng: seeded(42),
            schedule: Schedule::new(config.max_steps, 50),
        }
    }

    /// Go on with a run when some time has passed: train the next step, unless all are done or
    /// the time is up.
    pub fn advance<B: Arith>(
        &mut self,
        model: &mut GruModel<A>,
        train: &[u8],
        val: &[u8],
        config: &BaselineConfig<A>,
        elapsed: B::T,
        limit: B::T,
    ) -> (event: Event<Progress<A>>)
        requires
            lawful::<A>(),
            lawful::<B>(),
            old(self).wf(*old(model), *config),
            old(self).schedule.is_due::<B>(elapsed, limit, Limit::Reached) ==> Self::can_step(
                *old(model),
                train@,
                *config,
            ),
            old(self).schedule.turn::<B>(
                elapsed,
                limit,
                Limit::Reached,
            ) is TrainAndEvaluate ==> Self::can_validate(*old(model), val@, *config),
        ensures
            final(self).wf(*final(model), *config),
            Self::can_step(*old(model), train@, *config) ==> Self::can_step(
                *final(model),
                train@,
                *config,
            ),
            Self::can_validate(*old(model), val@, *config) ==> Self::can_validate(
                *final(model),
                val@,
                *config,
            ),
            ({
                let turn = old(self).schedule.turn::<B>(elapsed, limit, Limit::Reached);
                match event {
                    Event::Finished => turn is Done && *final(self) == *old(self) && *final(model)
                        == *old(model),
                    Event::TimeUp(s) => turn == Turn::TimeUp(s) && *final(self) == *old(self)
                        && *final(model) == *old(model),
                    Event::Stepped(p) => turn == turn_of(p.step, p.validation is Some) && old(
                        self,
                    ).trains(
                        *old(model),
                        train@,
                        val@,
                        *config,
                        p,
                        *final(self),
                        *final(model),
                    ),
                }
            }),
    {
        let ghost (run0, model0) = (*self, *model);
        let turn = self.schedule.next::<B>(elapsed, limit, Limit::Reached);
        let (step, evaluate): (usize, bool) = match turn {
            Turn::Done => return Event::Finished,
            Turn::TimeUp(step) => return Event::TimeUp(step),
            Turn::Train(step) => (step, false),
            Turn::TrainAndEvaluate(step) => (step, true),
        };
        let (xs, ys) = sample_windows(train, config.batch_size, config.seq_len, &mut self.rng);
        proof {
            let (data, n) = (train@, config.seq_len as nat);
            windows_lie_in_the_data(run0.rng, data, n, xs@, ys@, self.rng);
            assert forall|i: int| 0 <= i < xs@.len() implies model.trainable(
                #[trigger] xs@[i]@,
                ys@[i]@,
                config.seq_len,
            ) by {
                assert(is_batch_row(data, n, xs@[i]@, ys@[i]@));
            }
        }
        let (train_loss, lr) = gru_train_step(
            model,
            &mut self.optimizer,
            xs.as_slice(),
            ys.as_slice(),
            config.seq_len,
            step,
            config.max_steps,
            config.base_lr,
        );
        let validation = if evaluate {
            Some(evaluate_gru_bpc(model, val, 10, config.seq_len))
        } else {
            None
        };
        let p = Progress { step, train_loss, lr, validation };
        proof {
            assert(draws_windows(
                run0.rng,
                train@,
                config.seq_len as nat,
                xs@,
                ys@,
                self.rng,
            ));
            assert(run0.trains(model0, train@, val@, *config, p, *self, *model));
        }
        Event::Stepped(p)
    }
}

/// A training run of the Transformer baseline.
pub struct TransformerRun<A: Arith> {
    pub optimizer: TransformerAdamW<A>,
    pub rng: StdRng,
    pub schedule: Schedule,
}

impl<A: Arith> TransformerRun<A> {
    /// The run is one of this model under this configuration.
    pub open spec fn wf(&self, model: TransformerModel<A>, config: BaselineConfig<A>) -> bool {
        &&& self.schedule.wf()
        &&& self.schedule.max_steps == config.max_steps
        &&& self.schedule.eval_interval == 50
        &&& self.optimizer.step == self.schedule.step
        &&& self.optimizer.fits(model)
    }

    /// The model can be trained for a step on this corpus under this configuration.
    pub open spec fn can_step(
        model: TransformerModel<A>,
        train: Seq<u8>,
        config: BaselineConfig<A>,
    ) -> bool {
        let seq_len = config.seq_len as nat;
        &&& model.can_train()
        &&& seq_len <= model.max_seq_len
        &&& config.batch_size * seq_len <= usize::MAX
        &&& holds_windows(train, model.vocab_size as nat, seq_len)
    }

    /// The model can be validated on this corpus under this configuration.
    pub open spec fn can_validate(
        model: TransformerModel<A>,
        val: Seq<u8>,
        config: BaselineConfig<A>,
    ) -> bool {
        let seq_len = config.seq_len as nat;
        &&& 10 * seq_len <= usize::MAX
        &&& holds_windows(val, model.vocab_size as nat, seq_len)
    }

    /// What a step of the run comes to: the generator draws the batch, the model is trained on it,
    /// and what is reported of a validation is that of the trained model.
    pub open spec fn trains(
        &self,
        model: TransformerModel<A>,
        train: Seq<u8>,
        val: Seq<u8>,
        config: BaselineConfig<A>,
        p: Progress<A>,
        next: TransformerRun<A>,
        next_model: TransformerModel<A>,
    ) -> bool {
        let seq_len = config.seq_len as nat;
        &&& next.schedule.step == p.step
        &&& exists|xs: Seq<Vec<usize>>, ys: Seq<Vec<usize>>|
            {
                &&& xs.len() == config.batch_size
                &&& #[trigger] draws_windows(self.rng, train, seq_len, xs, ys, next.rng)
                &&& is_transformer_step::<A>(
                    model,
                    self.optimizer,
                    xs,
                    ys,
                    config.seq_len,
                    baseline_lr_of::<A>(p.step, config.max_steps, config.base_lr),
                    (p.train_loss, p.lr),
                    next_model,
                    next.optimizer,
                )
            }
        &&& p.validation matches Some(v) ==> is_transformer_validation::<A>(
            next_model,
            val,
            10,
            seq_len,
            v,
        )
    }

    /// A run before its first step.
    pub fn new(model: &TransformerModel<A>, config: &BaselineConfig<A>) -> (run: Self)
        requires
            lawful::<A>(),
        ensures
            is_seeded(42, run.rng),
            run.schedule.wf(),
            run.schedule.max_steps == config.max_steps,
            run.schedule.eval_interval == 50,
            run.schedule.step == 0,
            run.optimizer.config().lr == config.base_lr,
            run.optimizer.config().is_usual(),
            run.optimizer.step == 0,
            run.optimizer.fits(*model),
            run.optimizer.first() == model.values().cleared::<A>(),
            run.optimizer.second() == model.values().cleared::<A>(),
    {
        TransformerRun {
            optimizer: TransformerAdamW::new(model, config.base_lr),
            rng: seeded(42),
            schedule: Schedule::new(config.max_steps, 50),
        }
    }

    /// Go on with a run when some time has passed: train the next step, unless all are done or
    /// the time is up.
    pub fn advance<B: Arith>(
        &mut self,
        model: &mut TransformerModel<A>,
        train: &[u8],
        val: &[u8],
        config: &BaselineConfig<A>,
        elapsed: B::T,
        limit: B::T,
    ) -> (event: Event<Progress<A>>)
        requires
            lawful::<A>(),
            lawful::<B>(),
            old(self).wf(*old(model), *config),
            old(self).schedule.is_due::<B>(elapsed, limit, Limit::Reached) ==> Self::can_step(
                *old(model),
                train@,
                *config,
            ),
            old(self).schedule.turn::<B>(
                elapsed,
                limit,
                Limit::Reached,
            ) is TrainAndEvaluate ==> Self::can_validate(*old(model), val@, *config),
        ensures
            final(self).wf(*final(model), *config),
            Self::can_step(*old(model), train@, *config) ==> Self::can_step(
                *final(model),
                train@,
                *config,
            ),
            Self::can_validate(*old(model), val@, *config) ==> Self::can_validate(
                *final(model),
                val@,
                *config,
            ),
            ({
                let turn = old(self).schedule.turn::<B>(elapsed, limit, Limit::Reached);
                match event {
                    Event::Finished => turn is Done && *final(self) == *old(self) && *final(model)
                        == *old(model),
                    Event::TimeUp(s) => turn == Turn::TimeUp(s) && *final(self) == *old(self)
                        && *final(model) == *old(model),
                    Event::Stepped(p) => turn == turn_of(p.step, p.validation is Some) && old(
                        self,
                    ).trains(
                        *old(model),
                        train@,
                        val@,
                        *config,
                        p,
                        *final(self),
                        *final(model),
                    ),
                }
            }),
    {
        let ghost (run0, model0) = (*self, *model);
        let turn = self.schedule.next::<B>(elapsed, limit, Limit::Reached);
        let (step, evaluate): (usize, bool) = match turn {
            Turn::Done => return Event::Finished,
            Turn::TimeUp(step) => return Event::TimeUp(step),
            Turn::Train(step) => (step, false),
            Turn::TrainAndEvaluate(step) => (step, true),
        };
        let (xs, ys) = sample_windows(train, config.batch_size, config.seq_len, &mut self.rng);
        proof {
            let (data, n) = (train@, config.seq_len as nat);
            windows_lie_in_the_data(run0.rng, data, n, xs@, ys@, self.rng);
            assert forall|i: int| 0 <= i < xs@.len() implies model.accepts(
                #[trigger] xs@[i]@,
                ys@[i]@,
            ) by {
                assert(is_batch_row(data, n, xs@[i]@, ys@[i]@));
            }
        }
        let (train_loss, lr) = transformer_train_step(
            model,
            &mut self.optimizer,
            xs.as_slice(),
            ys.as_slice(),
            config.seq_len,
            step,
            config.max_steps,
            config.base_lr,
        );
        let validation = if evaluate {
            Some(evaluate_transformer_bpc(model, val, 10, config.seq_len))
        } else {
            None
        };
        let p = Progress { step, train_loss, lr, validation };
        proof {
            assert(draws_windows(
                run0.rng,
                train@,
                config.seq_len as nat,
                xs@,
                ys@,
                self.rng,
            ));
            assert(run0.trains(model0, train@, val@, *config, p, *self, *model));
        }
        Event::Stepped(p)
    }
}

/// How the second stage of the freezing diagnostic is trained.
pub struct FreezingConfig<A: Arith> {
    pub batch_size: usize,
    pub seq_len: usize,
    pub steps: usize,
    pub loss_weights: LocalLossConfig<A>,
}

/// What the second stage reports of a step.
pub struct FreezingProgress<A: Arith> {
    pub step: usize,
    pub lr: A::T,
    /// Validation loss and BPC, where the step is one of those that are evaluated.
    pub validation: Option<(A::T, A::T)>,
}

/// The second stage of the freezing diagnostic: the first layer is frozen, and the second one is
/// trained on what it puts out.
pub struct FreezingRun<A: Arith> {
    pub optimizer: AdamW<A>,
    pub rng: StdRng,
    /// The steps that were trained.
    pub step: usize,
}

impl<A: Arith> FreezingRun<A> {
    /// The run is one of this model under this configuration.
    pub open spec fn wf(
        &self,
        upper: AxiomSingleLayerModel<A>,
        config: FreezingConfig<A>,
    ) -> bool {
        &&& self.step <= config.steps
        &&& self.optimizer.step == self.step
        &&& self.optimizer.fits(upper)
    }

    /// The upper layer can be trained for a step on this corpus.
    pub open spec fn can_step(
        frozen: AxiomModel<A>,
        upper: AxiomSingleLayerModel<A>,
        train: Seq<u8>,
        config: FreezingConfig<A>,
    ) -> bool {
        let seq_len = config.seq_len as nat;
        &&& go_together::<A>(frozen, upper, seq_len)
        &&& config.batch_size * seq_len <= usize::MAX
        &&& is_corpus(train, frozen.config.vocab_size as nat, seq_len)
    }

    /// The upper layer can be validated on this corpus.
    pub open spec fn can_validate(
        frozen: AxiomModel<A>,
        val: Seq<u8>,
        config: FreezingConfig<A>,
    ) -> bool {
        let seq_len = config.seq_len as nat;
        &&& 10 * seq_len <= usize::MAX
        &&& is_corpus(val, frozen.config.vocab_size as nat, seq_len)
    }

    /// What a step of the run comes to: the generator draws the batch, the upper layer is trained
    /// on it, and what is reported of a validation is that of the trained layer.
    pub open spec fn trains(
        &self,
        frozen: AxiomModel<A>,
        upper: AxiomSingleLayerModel<A>,
        train: Seq<u8>,
        val: Seq<u8>,
        config: FreezingConfig<A>,
        p: FreezingProgress<A>,
        next: FreezingRun<A>,
        next_upper: AxiomSingleLayerModel<A>,
    ) -> bool {
        let seq_len = config.seq_len as nat;
        &&& p.step == self.step + 1
        &&& next.step == p.step
        &&& p.lr == freezing_lr_of::<A>(p.step, config.steps)
        &&& exists|xs: Seq<Vec<usize>>, ys: Seq<Vec<usize>>|
            {
                &&& xs.len() == config.batch_size
                &&& #[trigger] draws_windows(self.rng, train, seq_len, xs, ys, next.rng)
                &&& is_freezing_step::<A>(
                    frozen,
                    upper,
                    self.optimizer,
                    xs,
                    ys,
                    config.seq_len,
                    config.loss_weights,
                    p.lr,
                    next_upper,
                    next.optimizer,
                )
            }
        &&& p.validation is Some <==> is_freezing_eval(p.step as int, config.steps as int)
        &&& p.validation matches Some(v) ==> is_upper_validation::<A>(
            frozen,
            next_upper.layer,
            val,
            10,
            seq_len,
            v,
        )
    }

    /// The stage before its first step. The moments are those of a model of the same size.
    pub fn new(carrier: &AxiomSingleLayerModel<A>) -> (run: Self)
        requires
            lawful::<A>(),
        ensures
            is_seeded(1042, run.rng),
            run.step == 0,
            run.optimizer.config.lr == s_lit::<A>(5, 3),
            run.optimizer.config.is_usual(),
            run.optimizer.is_new(*carrier),
    {
        FreezingRun {
            optimizer: AdamW::new(AdamWConfig::with_lr(A::lit(5, 3)), carrier),
            rng: seeded(1042),
            step: 0,
        }
    }

    /// Train the next step, unless all are done.
    pub fn advance(
        &mut self,
        frozen: &AxiomModel<A>,
        upper: &mut AxiomSingleLayerModel<A>,
        train: &CharDataset,
        val: &CharDataset,
        config: &FreezingConfig<A>,
    ) -> (progress: Option<FreezingProgress<A>>)
        requires
            lawful::<A>(),
            old(self).wf(*old(upper), *config),
            old(self).step < config.steps ==> Self::can_step(
                *frozen,
                *old(upper),
                train.data@,
                *config,
            ),
            old(self).step < config.steps && is_freezing_eval(
                old(self).step + 1,
                config.steps as int,
            ) ==> Self::can_validate(*frozen, val.data@, *config),
        ensures
            final(self).wf(*final(upper), *config),
            Self::can_step(*frozen, *old(upper), train.data@, *config) ==> Self::can_step(
                *frozen,
                *final(upper),
                train.data@,
                *config,
            ),
            progress is None <==> old(self).step == config.steps,
            match progress {
                None => *final(self) == *old(self) && *final(upper) == *old(upper),
                Some(p) => old(self).trains(
                    *frozen,
                    *old(upper),
                    train.data@,
                    val.data@,
                    *config,
                    p,
                    *final(self),
                    *final(upper),
                ),
            },
    {
        if self.step == config.steps {
            return None;
        }
        let ghost (run0, upper0) = (*self, *upper);
        let step: usize = self.step + 1;
        self.step = step;
        let (xs, ys) = train.sample_batch(config.batch_size, config.seq_len, &mut self.rng);
        proof {
            let (data, n) = (train.data@, config.seq_len as nat);
            windows_lie_in_the_data(run0.rng, data, n, xs@, ys@, self.rng);
            assert forall|i: int| 0 <= i < xs@.len() implies is_sequence(
                #[trigger] xs@[i]@,
                ys@[i]@,
                frozen.config.vocab_size as nat,
            ) && xs@[i]@.len() == config.seq_len by {
                assert(is_batch_row(data, n, xs@[i]@, ys@[i]@));
            }
        }
        let lr = freezing_lr::<A>(step, config.steps);
        freezing_step(
            frozen,
            upper,
            &mut self.optimizer,
            xs.as_slice(),
            ys.as_slice(),
            config.seq_len,
            &config.loss_weights,
            lr,
        );
        let validation = if is_freezing_eval_step(step, config.steps) {
            Some(evaluate_upper_bpc(frozen, &upper.layer, val, 10, config.seq_len))
        } else {
            None
        };
        let p = FreezingProgress { step, lr, validation };
        proof {
            assert(draws_windows(
                run0.rng,
                train.data@,
                config.seq_len as nat,
                xs@,
                ys@,
                self.rng,
            ));
            assert(run0.trains(
                *frozen,
                upper0,
                train.data@,
                val.data@,
                *config,
                p,
                *self,
                *upper,
            ));
        }
        Some(p)
    }
}

} // verus!
