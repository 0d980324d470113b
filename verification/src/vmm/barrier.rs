//! Operations that need something to stand still while they are done.

use vstd::prelude::*;

verus! {

/// The failure that counts: the first one, as long as `counted` says that this one counts at all.
pub open spec fn first_failure<E>(failure: Option<E>, counted: bool, outcome: Result<(), E>) -> Option<E> {
    if failure is Some {
        failure
    } else {
        match outcome {
            Ok(()) => None,
            Err(e) => if counted { Some(e) } else { None },
        }
    }
}

/// The operations around one that needs something to stand still.
#[derive(Clone, Copy, Debug, Eq, PartialEq, Structural)]
pub enum BarrierStage {
    Pause,
    Operate,
    Resume,
    Done,
}

pub open spec fn barrier_next(stage: BarrierStage, ok: bool) -> BarrierStage {
    match stage {
        BarrierStage::Pause => if ok { BarrierStage::Operate } else { BarrierStage::Done },
        BarrierStage::Operate => BarrierStage::Resume,
        BarrierStage::Resume => BarrierStage::Done,
        BarrierStage::Done => BarrierStage::Done,
    }
}

/// An operation on something that is paused for it. The failure of the operation counts before that
/// of the resume which follows it.
#[derive(Debug)]
pub struct Barrier<E> {
    stage: BarrierStage,
    failure: Option<E>,
}

impl<E> Barrier<E> {
    pub closed spec fn spec_stage(self) -> BarrierStage {
        self.stage
    }

    pub closed spec fn failure(self) -> Option<E> {
        self.failure
    }

    /// A barrier at which nothing was done yet.
    pub open spec fn fresh(self) -> bool {
        self.spec_stage() is Pause && self.failure() is None
    }

    pub fn new() -> (barrier: Self)
        ensures
            barrier.fresh(),
    {
        Barrier { stage: BarrierStage::Pause, failure: None }
    }

    /// The operation at hand.
    pub fn stage(&self) -> (stage: BarrierStage)
        ensures
            stage == self.spec_stage(),
    {
        self.stage
    }

    /// Goes on with the outcome of the operation at hand.
    pub fn advance(&mut self, outcome: Result<(), E>)
        ensures
            final(self).spec_stage() == barrier_next(old(self).spec_stage(), outcome is Ok),
            final(self).failure() == first_failure(old(self).failure(), !(old(self).spec_stage() is Done), outcome),
    {
        let ok = outcome.is_ok();
        let over = match self.stage {
            BarrierStage::Done => true,
            _ => false,
        };
        if self.failure.is_none() && !over {
            if let Err(error) = outcome {
                self.failure = Some(error);
            }
        }
        self.stage = match self.stage {
            BarrierStage::Pause => if ok { BarrierStage::Operate } else { BarrierStage::Done },
            BarrierStage::Operate => BarrierStage::Resume,
            BarrierStage::Resume => BarrierStage::Done,
            BarrierStage::Done => BarrierStage::Done,
        };
    }

    /// What it has all come to.
    pub fn finish(self) -> (r: Result<(), E>)
        requires
            self.spec_stage() is Done,
        ensures
            match self.failure() {
                Some(e) => r == Err::<(), E>(e),
                None => r == Ok::<(), E>(()),
            },
    {
        match self.failure {
            Some(error) => Err(error),
            None => Ok(()),
        }
    }
}

/// The operation is done only while the thing stands still, which is resumed afterwards whatever
/// the operation came to.
pub proof fn barrier_is_left_again(stage: BarrierStage, ok: bool)
    ensures
        stage is Operate ==> barrier_next(stage, ok) is Resume,
        barrier_next(stage, ok) is Operate ==> stage is Pause && ok,
        barrier_next(stage, ok) is Resume ==> stage is Operate,
{
}

} // verus!
