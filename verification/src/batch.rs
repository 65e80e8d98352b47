//! The course of an offline run: what is done next, after what has happened.
use crate::arg_error::ArgError;
use crate::cli::RenderSfzArgs;
use crate::messages::{batch_verdict, verdict_of, Verdict};
use vstd::prelude::*;

verus! {

/// Where an offline run stands.
#[derive(Copy, Clone, Debug, PartialEq, Eq, Structural)]
pub enum BatchStage {
    /// Nothing is done yet.
    Start,
    /// The engine is being located.
    Locating,
    /// A font is being analysed.
    Analysing(usize),
    /// The jobs are being rendered.
    Rendering,
    /// The run is over.
    Over,
}

/// What is done next in an offline run.
#[derive(Copy, Clone, Debug, PartialEq, Eq, Structural)]
pub enum BatchRequest {
    /// Print the plan; the run is over.
    PrintPlan,
    /// Locate the engine.
    LocateEngine,
    /// Analyse this font with the engine.
    Analyse(usize),
    /// Build the jobs and render them with the engine.
    Render,
    /// List what was written and end so; the run is over.
    Finish(Verdict),
    /// Fail with what came; the run is over.
    Fail,
    /// Nothing.
    Nothing,
}

/// What has happened since the last request.
#[derive(Copy, Clone, Debug, PartialEq, Eq, Structural)]
pub enum BatchOutcome {
    /// The request was carried out.
    Done,
    /// The request failed.
    Failed,
    /// The jobs are rendered.
    Rendered {
        /// Whether some job failed.
        any_failed: bool,
        /// How many files were written.
        files: usize,
    },
}

/// An offline run.
#[derive(Copy, Clone, Debug, PartialEq, Eq, Structural)]
pub struct Batch {
    /// Only print the plan.
    pub dry_run: bool,
    /// How many fonts there are.
    pub fonts: usize,
    /// Where it stands.
    pub stage: BatchStage,
}

/// Whether a request has the engine looked for or run.
pub open spec fn uses_engine(request: BatchRequest) -> bool {
    request is LocateEngine || request is Analyse || request is Render
}

impl Batch {
    /// A run that has not begun.
    pub open spec fn fresh(args: RenderSfzArgs) -> Batch {
        Batch { dry_run: args.dry_run, fonts: args.sfz.len(), stage: BatchStage::Start }
    }

    /// The run at a stage, and what is done there.
    pub open spec fn at(self, stage: BatchStage, request: BatchRequest) -> (Batch, BatchRequest) {
        (Batch { stage, ..self }, request)
    }

    /// On to font `k`, or to the jobs where there is none.
    pub open spec fn to_font(self, k: usize) -> (Batch, BatchRequest) {
        if k < self.fonts {
            self.at(BatchStage::Analysing(k), BatchRequest::Analyse(k))
        } else {
            self.at(BatchStage::Rendering, BatchRequest::Render)
        }
    }

    /// What follows on an outcome.
    pub open spec fn follow(self, outcome: BatchOutcome) -> (Batch, BatchRequest) {
        match self.stage {
            BatchStage::Start => if self.dry_run {
                self.at(BatchStage::Over, BatchRequest::PrintPlan)
            } else {
                self.at(BatchStage::Locating, BatchRequest::LocateEngine)
            },
            BatchStage::Locating => if outcome is Failed {
                self.at(BatchStage::Over, BatchRequest::Fail)
            } else {
                self.to_font(0)
            },
            BatchStage::Analysing(k) => if outcome is Failed || k >= self.fonts {
                self.at(BatchStage::Over, BatchRequest::Fail)
            } else {
                self.to_font((k + 1) as usize)
            },
            BatchStage::Rendering => match outcome {
                BatchOutcome::Rendered { any_failed, files } => self.at(
                    BatchStage::Over,
                    BatchRequest::Finish(verdict_of(any_failed, files)),
                ),
                _ => self.at(BatchStage::Over, BatchRequest::Fail),
            },
            BatchStage::Over => (self, BatchRequest::Nothing),
        }
    }

    /// Begins a run, where its arguments are valid: they are looked at before
    /// anything is done.
    pub fn begin(args: &RenderSfzArgs) -> (r: Result<Batch, ArgError>)
        ensures
            r is Ok <==> args.valid(),
            r matches Ok(b) ==> b == Batch::fresh(*args),
            r matches Err(e) ==> Some(e) == args.fault(),
    {
        match args.validate() {
            Ok(()) => Ok(
                Batch { dry_run: args.dry_run, fonts: args.sfz.len(), stage: BatchStage::Start },
            ),
            Err(e) => Err(e),
        }
    }

    /// Goes to a stage and says what is done there.
    fn go(&mut self, stage: BatchStage, request: BatchRequest) -> (r: BatchRequest)
        ensures
            (*final(self), r) == old(self).at(stage, request),
    {
        self.stage = stage;
        request
    }

    /// Goes on to a font, or to the jobs.
    fn go_to_font(&mut self, k: usize) -> (r: BatchRequest)
        ensures
            (*final(self), r) == old(self).to_font(k),
    {
        if k < self.fonts {
            self.go(BatchStage::Analysing(k), BatchRequest::Analyse(k))
        } else {
            self.go(BatchStage::Rendering, BatchRequest::Render)
        }
    }

    /// Takes note of an outcome and says what is done next.
    pub fn next(&mut self, outcome: BatchOutcome) -> (r: BatchRequest)
        ensures
            (*final(self), r) == old(self).follow(outcome),
    {
        let failed: bool = match outcome {
            BatchOutcome::Failed => true,
            _ => false,
        };
        match self.stage {
            BatchStage::Start => {
                if self.dry_run {
                    self.go(BatchStage::Over, BatchRequest::PrintPlan)
                } else {
                    self.go(BatchStage::Locating, BatchRequest::LocateEngine)
                }
            },
            BatchStage::Locating => {
                if failed {
                    self.go(BatchStage::Over, BatchRequest::Fail)
                } else {
                    self.go_to_font(0)
                }
            },
            BatchStage::Analysing(k) => {
                if failed || k >= self.fonts {
                    self.go(BatchStage::Over, BatchRequest::Fail)
                } else {
                    self.go_to_font(k + 1)
                }
            },
            BatchStage::Rendering => match outcome {
                BatchOutcome::Rendered { any_failed, files } => {
                    let verdict = batch_verdict(any_failed, files);
                    self.go(BatchStage::Over, BatchRequest::Finish(verdict))
                },
                _ => self.go(BatchStage::Over, BatchRequest::Fail),
            },
            BatchStage::Over => BatchRequest::Nothing,
        }
    }

    /// The run after some outcomes, and all that was done in it.
    pub open spec fn history(args: RenderSfzArgs, events: Seq<BatchOutcome>) -> (Batch, Seq<BatchRequest>)
        decreases events.len(),
    {
        if events.len() == 0 {
            (Batch::fresh(args), Seq::empty())
        } else {
            let (before, requests) = Batch::history(args, events.drop_last());
            let (after, request) = before.follow(events.last());
            (after, requests.push(request))
        }
    }

    /// A dry run prints its plan first and does nothing else: whatever happens, the
    /// engine is neither looked for nor run.
    pub proof fn lemma_dry_run_needs_no_engine(args: RenderSfzArgs, events: Seq<BatchOutcome>)
        requires
            args.dry_run,
        ensures
            ({
                let (after, requests) = Batch::history(args, events);
                &&& after.dry_run
                &&& requests.len() == events.len()
                &&& events.len() == 0 ==> after.stage == BatchStage::Start
                &&& events.len() > 0 ==> after.stage == BatchStage::Over && requests[0]
                    == BatchRequest::PrintPlan
                &&& forall|i: int| 1 <= i < events.len() ==> #[trigger] requests[i] == BatchRequest::Nothing
                &&& forall|i: int| 0 <= i < events.len() ==> !uses_engine(#[trigger] requests[i])
            }),
        decreases events.len(),
    {
        if events.len() > 0 {
            Batch::lemma_dry_run_needs_no_engine(args, events.drop_last());
            let before = Batch::history(args, events.drop_last()).1;
            let all = Batch::history(args, events).1;
            assert forall|i: int| 0 <= i < events.len() implies !uses_engine(#[trigger] all[i]) && (i
                >= 1 ==> all[i] == BatchRequest::Nothing) && (i == 0 ==> all[i]
                == BatchRequest::PrintPlan) by {
                if i < before.len() {
                    assert(all[i] == before[i]);
                }
            }
        }
    }

    /// A run that is over does nothing more.
    pub proof fn lemma_over_is_over(self, outcome: BatchOutcome)
        requires
            self.stage == BatchStage::Over,
        ensures
            self.follow(outcome) == (self, BatchRequest::Nothing),
    {
    }

    /// Fonts are analysed one after the other, and jobs are rendered only after the
    /// last of them.
    pub proof fn lemma_fonts_in_order(self, k: usize)
        requires
            self.stage == BatchStage::Analysing(k),
            k < self.fonts,
        ensures
            self.follow(BatchOutcome::Done).1 == (if k + 1 < self.fonts {
                BatchRequest::Analyse((k + 1) as usize)
            } else {
                BatchRequest::Render
            }),
    {
    }
}

} // verus!
