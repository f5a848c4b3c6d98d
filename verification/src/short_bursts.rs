//! Optimization by short bursts: workers run short chains side by side,
//! and after every round the driver takes up what they found.
//!
//! Nothing here waits, sends or spawns. A worker and the driver are state
//! machines: whoever runs them hands in what happened and is told what to do
//! next.
use crate::recom::{RecomParams, RecomVariant};
use vstd::prelude::*;

verus! {

/// The score of a plan. Higher is better.
pub type ScoreValue = i64;

/// A unit of work for a worker.
pub struct OptJobPacket<P> {
    /// The number of accepted steps to run.
    pub n_steps: usize,
    /// The plan to start from, where it differs from the worker's own.
    pub diff: Option<P>,
    /// Whether the worker is to stop.
    pub terminate: bool,
}

/// What a worker found in one unit of work.
pub struct OptResultPacket<P> {
    /// The best plan of the burst, if any plan matched the starting score.
    pub best_partition: Option<P>,
    /// The score of that plan.
    pub best_score: Option<ScoreValue>,
}

impl<P> OptJobPacket<P> {
    /// The job that asks for a burst of `burst_length` steps, from `diff`
    /// where one is given.
    pub fn burst(diff: Option<P>, burst_length: usize) -> (job: Self)
        ensures
            job == (OptJobPacket { n_steps: burst_length, diff, terminate: false }),
    {
        OptJobPacket { n_steps: burst_length, diff, terminate: false }
    }

    /// The job that stops a worker.
    pub fn stop() -> (job: Self)
        ensures
            job == (OptJobPacket::<P> { n_steps: 0, diff: None, terminate: true }),
    {
        OptJobPacket { n_steps: 0, diff: None, terminate: true }
    }
}

/// The ways of drawing spanning trees that a burst can use.
#[derive(Copy, Clone, PartialEq, Eq, Structural, Debug)]
pub enum SamplerKind {
    /// Spanning trees weighted to keep regions whole.
    RegionAware,
    /// Spanning trees of least random weight.
    RMST,
}

/// What is wrong with the configuration of a run.
#[derive(Copy, Clone, PartialEq, Eq, Structural, Debug)]
pub enum ConfigError {
    /// The region-aware chain was asked for without region weights.
    MissingRegionWeights,
    /// The kind of chain is none that bursts can run.
    UnsupportedVariant,
}

/// The sampler for a kind of chain, given whether region weights came with
/// the configuration.
pub open spec fn sampler_of(variant: RecomVariant, region_weights: bool) -> Result<
    SamplerKind,
    ConfigError,
> {
    match variant {
        RecomVariant::DistrictPairsRegionAware => if region_weights {
            Ok(SamplerKind::RegionAware)
        } else {
            Err(ConfigError::MissingRegionWeights)
        },
        RecomVariant::DistrictPairsRMST => Ok(SamplerKind::RMST),
        _ => Err(ConfigError::UnsupportedVariant),
    }
}

/// Picks the sampler that a worker draws its spanning trees with.
pub fn choose_sampler(variant: RecomVariant, region_weights: bool) -> (res: Result<
    SamplerKind,
    ConfigError,
>)
    ensures
        res == sampler_of(variant, region_weights),
{
    match variant {
        RecomVariant::DistrictPairsRegionAware => {
            if region_weights {
                Ok(SamplerKind::RegionAware)
            } else {
                Err(ConfigError::MissingRegionWeights)
            }
        },
        RecomVariant::DistrictPairsRMST => Ok(SamplerKind::RMST),
        _ => Err(ConfigError::UnsupportedVariant),
    }
}

/// Where a worker stands.
#[derive(Copy, Clone, PartialEq, Eq, Structural, Debug)]
pub enum WorkerPhase {
    /// Waiting for a job.
    Idle,
    /// A job has come; the score of its starting plan is awaited.
    Seeding,
    /// In a burst.
    Running,
    /// Stopped for good.
    Terminated,
}

/// What happened to a worker.
pub enum WorkerEvent<P> {
    /// A job arrived.
    Job(OptJobPacket<P>),
    /// The starting plan was scored.
    Seeded(ScoreValue),
    /// The attempt gave no proposal: no pair of adjacent districts was
    /// drawn, or the split failed.
    Rejected,
    /// The attempt gave a proposal, which was applied: the score of the plan
    /// before it, and the plan after it.
    Accepted { score: ScoreValue, plan: P },
}

/// What a worker is to do next.
pub enum WorkerAction<P> {
    /// Wait for a job.
    Await,
    /// Set the local plan to the starting plan and score it.
    Seed,
    /// Attempt a step.
    Propose,
    /// Send the result, then wait for a job.
    Report(OptResultPacket<P>),
    /// Leave.
    Exit,
}

/// One worker of the pool.
pub struct BurstWorker<P> {
    /// Where the worker stands.
    pub phase: WorkerPhase,
    /// The plan that bursts start from.
    pub base: P,
    /// The best plan of the burst so far.
    pub best: Option<P>,
    /// The score to match: that of the starting plan, or of `best`.
    pub best_score: ScoreValue,
    /// The accepted steps of the burst so far.
    pub step: usize,
    /// The accepted steps that the burst is to have.
    pub budget: usize,
}

impl<P> BurstWorker<P> {
    /// What the worker reports at the end of a burst.
    pub open spec fn result(self) -> OptResultPacket<P> {
        match self.best {
            Some(plan) => OptResultPacket {
                best_partition: Some(plan),
                best_score: Some(self.best_score),
            },
            None => OptResultPacket { best_partition: None, best_score: None },
        }
    }

    /// The worker after the burst has ended.
    pub open spec fn rested(self) -> Self {
        BurstWorker { phase: WorkerPhase::Idle, best: None, ..self }
    }

    /// The worker after `event`, and what it is to do. An event that the
    /// phase has no use for changes nothing, and the worker is told again
    /// what the phase calls for.
    pub open spec fn react(self, event: WorkerEvent<P>) -> (Self, WorkerAction<P>) {
        match self.phase {
            WorkerPhase::Terminated => (self, WorkerAction::Exit),
            WorkerPhase::Idle => match event {
                WorkerEvent::Job(job) => if job.terminate {
                    (BurstWorker { phase: WorkerPhase::Terminated, ..self }, WorkerAction::Exit)
                } else {
                    (
                        BurstWorker {
                            phase: WorkerPhase::Seeding,
                            base: match job.diff {
                                Some(plan) => plan,
                                None => self.base,
                            },
                            best: None,
                            best_score: self.best_score,
                            step: 0,
                            budget: job.n_steps,
                        },
                        WorkerAction::Seed,
                    )
                },
                _ => (self, WorkerAction::Await),
            },
            WorkerPhase::Seeding => match event {
                WorkerEvent::Seeded(score) => {
                    let seeded = BurstWorker { best_score: score, ..self };
                    if seeded.step < seeded.budget {
                        (
                            BurstWorker { phase: WorkerPhase::Running, ..seeded },
                            WorkerAction::Propose,
                        )
                    } else {
                        (seeded.rested(), WorkerAction::Report(seeded.result()))
                    }
                },
                _ => (self, WorkerAction::Seed),
            },
            WorkerPhase::Running => match event {
                WorkerEvent::Accepted { score, plan } => {
                    let kept = if score >= self.best_score {
                        BurstWorker { best: Some(plan), best_score: score, ..self }
                    } else {
                        self
                    };
                    let stepped = if kept.step < kept.budget {
                        BurstWorker { step: (kept.step + 1) as usize, ..kept }
                    } else {
                        kept
                    };
                    if stepped.step < stepped.budget {
                        (stepped, WorkerAction::Propose)
                    } else {
                        (stepped.rested(), WorkerAction::Report(stepped.result()))
                    }
                },
                _ => (self, WorkerAction::Propose),
            },
        }
    }

    /// A worker that waits for its first job, with `plan` to start from.
    pub fn new(plan: P) -> (worker: Self)
        ensures
            worker == (BurstWorker {
                phase: WorkerPhase::Idle,
                base: plan,
                best: None,
                best_score: 0,
                step: 0,
                budget: 0,
            }),
    {
        BurstWorker {
            phase: WorkerPhase::Idle,
            base: plan,
            best: None,
            best_score: 0,
            step: 0,
            budget: 0,
        }
    }

    /// Ends the burst: the result to send, and the worker waits again.
    fn finish(&mut self) -> (result: OptResultPacket<P>)
        ensures
            result == old(self).result(),
            *final(self) == old(self).rested(),
    {
        self.phase = WorkerPhase::Idle;
        match self.best.take() {
            Some(plan) => OptResultPacket {
                best_partition: Some(plan),
                best_score: Some(self.best_score),
            },
            None => OptResultPacket { best_partition: None, best_score: None },
        }
    }

    /// Takes `event` in and says what to do next.
    pub fn step(&mut self, event: WorkerEvent<P>) -> (action: WorkerAction<P>)
        ensures
            (*final(self), action) == old(self).react(event),
    {
        match self.phase {
            WorkerPhase::Terminated => WorkerAction::Exit,
            WorkerPhase::Idle => match event {
                WorkerEvent::Job(job) => {
                    if job.terminate {
                        self.phase = WorkerPhase::Terminated;
                        WorkerAction::Exit
                    } else {
                        match job.diff {
                            Some(plan) => {
                                self.base = plan;
                            },
                            None => {},
                        }
                        self.phase = WorkerPhase::Seeding;
                        self.best = None;
                        self.step = 0;
                        self.budget = job.n_steps;
                        WorkerAction::Seed
                    }
                },
                _ => WorkerAction::Await,
            },
            WorkerPhase::Seeding => match event {
                WorkerEvent::Seeded(score) => {
                    self.best_score = score;
                    if self.step < self.budget {
                        self.phase = WorkerPhase::Running;
                        WorkerAction::Propose
                    } else {
                        WorkerAction::Report(self.finish())
                    }
                },
                _ => WorkerAction::Seed,
            },
            WorkerPhase::Running => match event {
                WorkerEvent::Accepted { score, plan } => {
                    if score >= self.best_score {
                        self.best = Some(plan);
                        self.best_score = score;
                    }
                    if self.step < self.budget {
                        self.step = self.step + 1;
                    }
                    if self.step < self.budget {
                        WorkerAction::Propose
                    } else {
                        WorkerAction::Report(self.finish())
                    }
                },
                _ => WorkerAction::Propose,
            },
        }
    }
}

/// The worker after a run of events.
pub open spec fn after<P>(worker: BurstWorker<P>, events: Seq<WorkerEvent<P>>) -> BurstWorker<P>
    decreases events.len(),
{
    if events.len() == 0 {
        worker
    } else {
        after(worker, events.drop_last()).react(events.last()).0
    }
}

/// A waiting worker that is told to stop leaves, and from then on, whatever
/// happens, it stays stopped: it is told to leave and never to report.
pub proof fn lemma_stop_is_final<P>(
    worker: BurstWorker<P>,
    job: OptJobPacket<P>,
    events: Seq<WorkerEvent<P>>,
    event: WorkerEvent<P>,
)
    requires
        worker.phase == WorkerPhase::Idle,
        job.terminate,
    ensures
        worker.react(WorkerEvent::Job(job)).1 is Exit,
        after(worker.react(WorkerEvent::Job(job)).0, events).phase == WorkerPhase::Terminated,
        after(worker.react(WorkerEvent::Job(job)).0, events).react(event).1 is Exit,
    decreases events.len(),
{
    if events.len() > 0 {
        lemma_stop_is_final(worker, job, events.drop_last(), events.last());
    }
}

/// A burst of `n` steps ends with the `n`-th accepted step and not before:
/// until then the worker is told to go on, whatever is rejected in between.
pub proof fn lemma_burst_length<P>(worker: BurstWorker<P>, event: WorkerEvent<P>)
    requires
        worker.phase == WorkerPhase::Running,
        worker.step < worker.budget,
    ensures
        event is Rejected ==> worker.react(event) == (worker, WorkerAction::<P>::Propose),
        event is Accepted ==> worker.react(event).0.step == worker.step + 1,
        event is Accepted && worker.step + 1 < worker.budget ==> worker.react(event).1 is Propose,
        event is Accepted && worker.step + 1 == worker.budget ==> worker.react(event).1 is Report
            && worker.react(event).0.phase == WorkerPhase::Idle,
{
}

/// The settings of a run by short bursts.
#[derive(Copy, Clone)]
pub struct ShortBurstsOptimizer {
    /// The parameters of the chains.
    pub params: RecomParams,
    /// The number of workers.
    pub n_threads: usize,
    /// The number of steps in a burst.
    pub burst_length: usize,
    /// Whether every round that changes the plan is reported.
    pub verbose: bool,
}

/// Where the driver stands.
#[derive(Copy, Clone, PartialEq, Eq, Structural, Debug)]
pub enum DriverPhase {
    /// A job is to go out to every worker.
    Dispatching,
    /// Results of the round are awaited.
    Collecting,
    /// The run is over.
    Finished,
}

/// What happened to the driver.
pub enum DriverEvent<P> {
    /// The job went out to every worker.
    Sent,
    /// A result came in.
    Result(OptResultPacket<P>),
}

/// What the driver is to do next.
#[derive(Copy, Clone, PartialEq, Eq, Structural, Debug)]
pub enum DriverAction {
    /// Send every worker a job of `n_steps` steps, with the driver's plan
    /// where `with_plan` is set. Where `report` is set, report the round
    /// first.
    Broadcast { n_steps: usize, with_plan: bool, report: bool },
    /// Wait for a result.
    Await,
    /// Stop every worker. The driver's plan is the outcome.
    Finish,
}

/// The driver of a run.
pub struct BurstDriver<P> {
    /// The settings of the run.
    pub settings: ShortBurstsOptimizer,
    /// Where the driver stands.
    pub phase: DriverPhase,
    /// The plan taken up last.
    pub plan: P,
    /// The score that came with it.
    pub score: ScoreValue,
    /// The steps run so far, over all workers.
    pub step: u64,
    /// The results that have come in this round.
    pub received: usize,
    /// Whether a result of this round brought a plan.
    pub updated: bool,
}

impl ShortBurstsOptimizer {
    /// The settings of a run with `n_threads` workers and bursts of
    /// `burst_length` steps.
    pub fn new(params: RecomParams, n_threads: usize, burst_length: usize, verbose: bool) -> (opt:
        ShortBurstsOptimizer)
        ensures
            opt.params == params,
            opt.n_threads == n_threads,
            opt.burst_length == burst_length,
            opt.verbose == verbose,
    {
        ShortBurstsOptimizer { params, n_threads, burst_length, verbose }
    }

    /// The steps that one round adds to the count.
    pub open spec fn round_steps(&self) -> int {
        self.n_threads * self.burst_length
    }

    /// The step count can be kept: it stays within a `u64` up to the end of
    /// the round that reaches `num_steps`.
    pub open spec fn steps_fit(&self) -> bool {
        self.params.num_steps + self.round_steps() <= u64::MAX
    }

    /// Whether the step count can be kept.
    pub fn can_count_steps(&self) -> (fit: bool)
        ensures
            fit == self.steps_fit(),
    {
        let a: u128 = self.n_threads as u128;
        let b: u128 = self.burst_length as u128;
        assert(a * b <= 0xffff_ffff_ffff_ffff * 0xffff_ffff_ffff_ffff) by (nonlinear_arith)
            requires
                0 <= a <= 0xffff_ffff_ffff_ffff,
                0 <= b <= 0xffff_ffff_ffff_ffff,
        ;
        a * b + self.params.num_steps as u128 <= u64::MAX as u128
    }

    /// The seed of the random source of worker `index`: the seed of the
    /// run, the index, and one. `None` where that is no `u64`.
    pub fn worker_seed(&self, index: usize) -> (seed: Option<u64>)
        ensures
            seed == if self.params.rng_seed + index + 1 <= u64::MAX {
                Some((self.params.rng_seed + index + 1) as u64)
            } else {
                None::<u64>
            },
    {
        let sum: u128 = self.params.rng_seed as u128 + index as u128 + 1;
        if sum <= u64::MAX as u128 {
            Some(sum as u64)
        } else {
            None
        }
    }

    /// The driver at the start of a run from `plan`, whose score is
    /// `score`, and its first order: a burst for every worker, each from its
    /// own copy of the plan.
    pub fn start<P>(&self, plan: P, score: ScoreValue) -> (begun: (BurstDriver<P>, DriverAction))
        requires
            self.steps_fit(),
        ensures
            begun.0 == (BurstDriver {
                settings: *self,
                phase: DriverPhase::Dispatching,
                plan,
                score,
                step: 0,
                received: 0,
                updated: false,
            }),
            begun.1 == (DriverAction::Broadcast {
                n_steps: self.burst_length,
                with_plan: false,
                report: false,
            }),
            begun.0.wf(),
    {
        (
            BurstDriver {
                settings: *self,
                phase: DriverPhase::Dispatching,
                plan,
                score,
                step: 0,
                received: 0,
                updated: false,
            },
            DriverAction::Broadcast { n_steps: self.burst_length, with_plan: false, report: false },
        )
    }
}

impl<P> BurstDriver<P> {
    /// The step count can be kept, and while results are awaited the round
    /// is neither over nor is the run.
    pub open spec fn wf(&self) -> bool {
        &&& self.settings.steps_fit()
        &&& self.phase == DriverPhase::Collecting ==> self.step < self.settings.params.num_steps
            && self.received < self.settings.n_threads
    }

    /// The driver after taking up `packet`: a result that brings a plan and
    /// a score replaces the driver's own, whatever the scores; any other
    /// changes nothing.
    pub open spec fn adopt(self, packet: OptResultPacket<P>) -> Self {
        match (packet.best_partition, packet.best_score) {
            (Some(plan), Some(score)) => BurstDriver { plan, score, updated: true, ..self },
            _ => self,
        }
    }

    /// The order that ends a round: the next burst, from the driver's plan
    /// where the round brought one.
    pub open spec fn next_order(self) -> DriverAction {
        DriverAction::Broadcast {
            n_steps: self.settings.burst_length,
            with_plan: self.updated,
            report: self.updated && self.settings.verbose,
        }
    }

    /// The driver after `event`, and what it is to do. An event that the
    /// phase has no use for changes nothing, and the driver is told again
    /// what the phase calls for.
    pub open spec fn react(self, event: DriverEvent<P>) -> (Self, DriverAction) {
        match self.phase {
            DriverPhase::Finished => (self, DriverAction::Finish),
            DriverPhase::Dispatching => match event {
                DriverEvent::Sent => if self.step >= self.settings.params.num_steps {
                    (BurstDriver { phase: DriverPhase::Finished, ..self }, DriverAction::Finish)
                } else if self.settings.n_threads == 0 {
                    let fresh = BurstDriver { received: 0, updated: false, ..self };
                    (fresh, fresh.next_order())
                } else {
                    (
                        BurstDriver {
                            phase: DriverPhase::Collecting,
                            received: 0,
                            updated: false,
                            ..self
                        },
                        DriverAction::Await,
                    )
                },
                DriverEvent::Result(_) => (self, self.next_order()),
            },
            DriverPhase::Collecting => match event {
                DriverEvent::Result(packet) => {
                    let taken = self.adopt(packet);
                    if taken.received + 1 < taken.settings.n_threads {
                        (
                            BurstDriver { received: (taken.received + 1) as usize, ..taken },
                            DriverAction::Await,
                        )
                    } else {
                        let ended = BurstDriver {
                            phase: DriverPhase::Dispatching,
                            received: (taken.received + 1) as usize,
                            step: (taken.step + taken.settings.round_steps()) as u64,
                            ..taken
                        };
                        (ended, ended.next_order())
                    }
                },
                DriverEvent::Sent => (self, DriverAction::Await),
            },
        }
    }

    /// The order that ends a round.
    fn order(&self) -> (action: DriverAction)
        ensures
            action == self.next_order(),
    {
        DriverAction::Broadcast {
            n_steps: self.settings.burst_length,
            with_plan: self.updated,
            report: self.updated && self.settings.verbose,
        }
    }

    /// Takes `event` in and says what to do next.
    pub fn step(&mut self, event: DriverEvent<P>) -> (action: DriverAction)
        requires
            old(self).wf(),
        ensures
            final(self).wf(),
            (*final(self), action) == old(self).react(event),
    {
        match self.phase {
            DriverPhase::Finished => DriverAction::Finish,
            DriverPhase::Dispatching => match event {
                DriverEvent::Sent => {
                    if self.step >= self.settings.params.num_steps {
                        self.phase = DriverPhase::Finished;
                        DriverAction::Finish
                    } else if self.settings.n_threads == 0 {
                        self.received = 0;
                        self.updated = false;
                        self.order()
                    } else {
                        self.phase = DriverPhase::Collecting;
                        self.received = 0;
                        self.updated = false;
                        DriverAction::Await
                    }
                },
                DriverEvent::Result(_) => self.order(),
            },
            DriverPhase::Collecting => match event {
                DriverEvent::Result(packet) => {
                    match (packet.best_partition, packet.best_score) {
                        (Some(plan), Some(score)) => {
                            self.plan = plan;
                            self.score = score;
                            self.updated = true;
                        },
                        _ => {},
                    }
                    self.received = self.received + 1;
                    if self.received < self.settings.n_threads {
                        DriverAction::Await
                    } else {
                        assert(self.settings.n_threads * self.settings.burst_length >= 0)
                            by (nonlinear_arith);
                        self.phase = DriverPhase::Dispatching;
                        let round: u64 = (self.settings.n_threads as u64) * (
                        self.settings.burst_length as u64);
                        self.step = self.step + round;
                        self.order()
                    }
                },
                DriverEvent::Sent => DriverAction::Await,
            },
        }
    }
}

/// Of two results of one round that both bring a plan and a score, the one
/// taken up later stays, whichever score is higher.
pub proof fn lemma_last_result_wins<P>(
    driver: BurstDriver<P>,
    first: OptResultPacket<P>,
    second: OptResultPacket<P>,
)
    requires
        driver.phase == DriverPhase::Collecting,
        driver.received + 2 <= driver.settings.n_threads,
        first.best_partition is Some,
        first.best_score is Some,
        second.best_partition is Some,
        second.best_score is Some,
    ensures
        ({
            let end = driver.react(DriverEvent::Result(first)).0.react(
                DriverEvent::Result(second),
            ).0;
            &&& end.plan == second.best_partition->0
            &&& end.score == second.best_score->0
            &&& end.updated
        }),
{
}

/// The number of districts, among the first `k`, where twice the first sum
/// is no less than the second.
pub open spec fn majorities(part: Seq<u32>, whole: Seq<u32>, k: int) -> int
    decreases k,
{
    if k <= 0 {
        0
    } else {
        majorities(part, whole, k - 1) + if 2 * part[k - 1] >= whole[k - 1] {
            1int
        } else {
            0int
        }
    }
}

/// Counts the districts where twice the sum in `part` is no less than the
/// sum in `whole`. Districts without a sum in both are left out.
pub fn majority_count(part: &Vec<u32>, whole: &Vec<u32>) -> (count: usize)
    ensures
        count == majorities(
            part@,
            whole@,
            if part.len() <= whole.len() {
                part.len() as int
            } else {
                whole.len() as int
            },
        ),
{
    let n = if part.len() <= whole.len() {
        part.len()
    } else {
        whole.len()
    };
    let mut count: usize = 0;
    let mut i: usize = 0;
    while i < n
        invariant
            i <= n,
            n <= part.len(),
            n <= whole.len(),
            count <= i,
            count == majorities(part@, whole@, i as int),
        decreases n - i,
    {
        if 2 * (part[i] as u64) >= whole[i] as u64 {
            count = count + 1;
        }
        i += 1;
    }
    count
}

} // verus!
