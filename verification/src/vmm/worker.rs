//! What the lifecycle of a VMM worker and the registration of guest RAM come to.
//!
//! Eventfds, threads and KVM are outside. Their failures come in as the texts of the error and of
//! its causes, outermost first.

use vstd::prelude::*;
use vstd::string::StringExecFns;

use crate::vmm::error::Error;
#[allow(unused_imports)]
use crate::vmm::error::chained;
use crate::vmm::ram::KvmGuestRam;

verus! {

/// Whether an error is the failure of a primitive, told by these texts.
pub open spec fn is_backend(e: Error, operation: &'static str, causes: Seq<String>) -> bool {
    &&& e is Backend
    &&& e->operation == operation
    &&& e->message@ == chained(causes.map_values(|cause: String| cause@))
}

/// The operations in which a worker is started.
#[derive(Clone, Copy, Debug, Eq, PartialEq, Structural)]
pub enum StartStage {
    CreateApiEvent,
    CreateExitEvent,
    CreateHypervisor,
    CloneApiEvent,
    CloneExitEvent,
    StartWorker,
    Running,
}

pub open spec fn start_next(stage: StartStage) -> StartStage {
    match stage {
        StartStage::CreateApiEvent => StartStage::CreateExitEvent,
        StartStage::CreateExitEvent => StartStage::CreateHypervisor,
        StartStage::CreateHypervisor => StartStage::CloneApiEvent,
        StartStage::CloneApiEvent => StartStage::CloneExitEvent,
        StartStage::CloneExitEvent => StartStage::StartWorker,
        StartStage::StartWorker => StartStage::Running,
        StartStage::Running => StartStage::Running,
    }
}

pub open spec fn start_operation(stage: StartStage) -> &'static str {
    match stage {
        StartStage::CreateApiEvent => "create VMM API eventfd",
        StartStage::CreateExitEvent => "create VMM exit eventfd",
        StartStage::CreateHypervisor => "create KVM hypervisor",
        StartStage::CloneApiEvent => "clone VMM API eventfd",
        StartStage::CloneExitEvent => "clone VMM exit eventfd",
        StartStage::StartWorker => "start VMM worker",
        StartStage::Running => "start VMM worker",
    }
}

/// Why a request did not reach the worker or was not granted.
#[derive(Debug)]
pub enum SendFailure {
    /// The worker's eventfd could not be cloned.
    Event(Vec<String>),
    /// The request failed.
    Request(Vec<String>),
}

impl SendFailure {
    pub open spec fn causes(self) -> Seq<String> {
        match self {
            SendFailure::Event(causes) => causes@,
            SendFailure::Request(causes) => causes@,
        }
    }
}

/// Whether an answer is the outcome of a request for `operation`.
pub open spec fn answers(operation: &'static str, sent: Result<(), SendFailure>, r: Result<(), Error>) -> bool {
    match sent {
        Ok(()) => r == Ok::<(), Error>(()),
        Err(SendFailure::Event(causes)) => r matches Err(e) && is_backend(e, "clone VMM API eventfd", causes@),
        Err(SendFailure::Request(causes)) => r matches Err(e) && is_backend(e, operation, causes@),
    }
}

/// How a worker ended.
#[derive(Debug)]
pub enum WorkerExit {
    Panicked,
    Failed(Vec<String>),
    Clean,
}

/// One VMM worker embedded in this process; it owns one guest.
#[derive(Debug)]
pub struct CloudHypervisorVm {
    stage: StartStage,
    worker: bool,
}

impl CloudHypervisorVm {
    pub closed spec fn spec_stage(self) -> StartStage {
        self.stage
    }

    /// Whether the worker was started and has not been told to stop.
    pub closed spec fn has_worker(self) -> bool {
        self.worker
    }

    /// A worker that is to be started.
    pub fn start() -> (vm: Self)
        ensures
            vm.spec_stage() is CreateApiEvent,
            !vm.has_worker(),
    {
        CloudHypervisorVm { stage: StartStage::CreateApiEvent, worker: false }
    }

    /// The operation at hand.
    pub fn stage(&self) -> (stage: StartStage)
        ensures
            stage == self.spec_stage(),
    {
        self.stage
    }

    /// Goes on with the outcome of the operation at hand.
    pub fn started(&mut self, outcome: Result<(), Vec<String>>) -> (r: Result<(), Error>)
        requires
            !(old(self).spec_stage() is Running),
            outcome matches Err(causes) ==> causes@.len() > 0,
        ensures
            match outcome {
                Ok(()) => {
                    &&& r == Ok::<(), Error>(())
                    &&& final(self).spec_stage() == start_next(old(self).spec_stage())
                    &&& final(self).has_worker() == (old(self).has_worker() || old(self).spec_stage() is StartWorker)
                },
                Err(causes) => {
                    &&& r matches Err(e) && is_backend(e, start_operation(old(self).spec_stage()), causes@)
                    &&& *final(self) == *old(self)
                },
            },
    {
        if let Err(causes) = outcome {
            let operation = match self.stage {
                StartStage::CreateApiEvent => "create VMM API eventfd",
                StartStage::CreateExitEvent => "create VMM exit eventfd",
                StartStage::CreateHypervisor => "create KVM hypervisor",
                StartStage::CloneApiEvent => "clone VMM API eventfd",
                StartStage::CloneExitEvent => "clone VMM exit eventfd",
                StartStage::StartWorker => "start VMM worker",
                StartStage::Running => "start VMM worker",
            };
            return Err(Error::backend(operation, &causes));
        }
        if let StartStage::StartWorker = self.stage {
            self.worker = true;
        }
        self.stage = match self.stage {
            StartStage::CreateApiEvent => StartStage::CreateExitEvent,
            StartStage::CreateExitEvent => StartStage::CreateHypervisor,
            StartStage::CreateHypervisor => StartStage::CloneApiEvent,
            StartStage::CloneApiEvent => StartStage::CloneExitEvent,
            StartStage::CloneExitEvent => StartStage::StartWorker,
            StartStage::StartWorker => StartStage::Running,
            StartStage::Running => StartStage::Running,
        };
        Ok(())
    }

    fn answer(operation: &'static str, sent: Result<(), SendFailure>) -> (r: Result<(), Error>)
        requires
            sent matches Err(failure) ==> failure.causes().len() > 0,
        ensures
            answers(operation, sent, r),
    {
        match sent {
            Ok(()) => Ok(()),
            Err(SendFailure::Event(causes)) => Err(Error::backend("clone VMM API eventfd", &causes)),
            Err(SendFailure::Request(causes)) => Err(Error::backend(operation, &causes)),
        }
    }

    /// What installing a configuration comes to.
    pub fn create(&self, sent: Result<(), SendFailure>) -> (r: Result<(), Error>)
        requires
            sent matches Err(failure) ==> failure.causes().len() > 0,
        ensures
            answers("create VM", sent, r),
    {
        Self::answer("create VM", sent)
    }

    /// What booting the configured guest comes to.
    pub fn boot(&self, sent: Result<(), SendFailure>) -> (r: Result<(), Error>)
        requires
            sent matches Err(failure) ==> failure.causes().len() > 0,
        ensures
            answers("boot VM", sent, r),
    {
        Self::answer("boot VM", sent)
    }

    /// What pausing vCPUs and devices comes to.
    pub fn pause(&self, sent: Result<(), SendFailure>) -> (r: Result<(), Error>)
        requires
            sent matches Err(failure) ==> failure.causes().len() > 0,
        ensures
            answers("pause VM", sent, r),
    {
        Self::answer("pause VM", sent)
    }

    /// What resuming vCPUs and devices comes to.
    pub fn resume(&self, sent: Result<(), SendFailure>) -> (r: Result<(), Error>)
        requires
            sent matches Err(failure) ==> failure.causes().len() > 0,
        ensures
            answers("resume VM", sent, r),
    {
        Self::answer("resume VM", sent)
    }

    /// Takes the worker out, to stop it; tells whether there was one.
    pub fn take_worker(&mut self) -> (taken: bool)
        ensures
            taken == old(self).has_worker(),
            !final(self).has_worker(),
            final(self).spec_stage() == old(self).spec_stage(),
    {
        let taken = self.worker;
        self.worker = false;
        taken
    }

    /// What stopping the worker and waiting for its end comes to: how it ended counts before
    /// whether it could be told to.
    pub fn shutdown(&self, sent: Result<(), SendFailure>, exit: WorkerExit) -> (r: Result<(), Error>)
        requires
            sent matches Err(failure) ==> failure.causes().len() > 0,
            exit matches WorkerExit::Failed(causes) ==> causes@.len() > 0,
        ensures
            match exit {
                WorkerExit::Panicked => r == Err::<(), Error>(Error::WorkerPanicked),
                WorkerExit::Failed(causes) => r matches Err(e) && is_backend(e, "VMM worker exit", causes@),
                WorkerExit::Clean => answers("shut down VMM", sent, r),
            },
    {
        match exit {
            WorkerExit::Panicked => Err(Error::WorkerPanicked),
            WorkerExit::Failed(causes) => Err(Error::backend("VMM worker exit", &causes)),
            WorkerExit::Clean => Self::answer("shut down VMM", sent),
        }
    }
}

/// The operations in which guest RAM is made a memory slot.
#[derive(Clone, Copy, Debug, Eq, PartialEq, Structural)]
pub enum RegisterStage {
    CreateRegion,
    StartDirtyLog,
    /// Removes the region again.
    RollBack,
    Done,
}

/// How a registration goes on after an operation, and what it comes to once it ends: a region whose
/// dirty log could not be started is removed again.
pub open spec fn registration_advanced(
    before: RamRegistration,
    outcome: Result<(), Vec<String>>,
    after: RamRegistration,
    r: Option<Result<(), Error>>,
) -> bool {
    match (before.spec_stage(), outcome) {
        (RegisterStage::CreateRegion, Ok(())) => r is None && after.spec_stage() is StartDirtyLog,
        (RegisterStage::CreateRegion, Err(causes)) => {
            &&& after.spec_stage() is Done
            &&& r matches Some(Err(e)) && is_backend(e, "register KVM RAM", causes@)
        },
        (RegisterStage::StartDirtyLog, Ok(())) => r == Some(Ok::<(), Error>(())) && after.spec_stage() is Done,
        (RegisterStage::StartDirtyLog, Err(causes)) => {
            &&& r is None
            &&& after.spec_stage() is RollBack
            &&& after.failure() == Some(causes@)
        },
        (RegisterStage::RollBack, Ok(())) => {
            &&& after.spec_stage() is Done
            &&& r matches Some(Err(e)) && is_backend(e, "start KVM dirty log", before.failure()->0)
        },
        (RegisterStage::RollBack, Err(causes)) => {
            &&& after.spec_stage() is Done
            &&& r matches Some(Err(e)) && e is Backend && e->operation == "start KVM dirty log" && e->message@ == before.failure()->0[0]@
                + "; memory-slot rollback also failed: "@ + causes@[0]@
        },
        (RegisterStage::Done, _) => true,
    }
}

/// Guest RAM that is being made a memory slot.
#[derive(Debug)]
pub struct RamRegistration {
    stage: RegisterStage,
    failure: Option<Vec<String>>,
}

impl RamRegistration {
    pub closed spec fn spec_stage(self) -> RegisterStage {
        self.stage
    }

    /// Why the dirty log could not be started.
    pub closed spec fn failure(self) -> Option<Seq<String>> {
        match self.failure {
            Some(causes) => Some(causes@),
            None => None,
        }
    }

    pub open spec fn inv(self) -> bool {
        self.spec_stage() is RollBack ==> self.failure() is Some && self.failure()->0.len() > 0
    }

    /// The operation at hand.
    pub fn stage(&self) -> (stage: RegisterStage)
        ensures
            stage == self.spec_stage(),
    {
        self.stage
    }

    /// Goes on with the outcome of the operation at hand; tells what it all comes to where that is
    /// the last one.
    pub fn advance(&mut self, outcome: Result<(), Vec<String>>) -> (r: Option<Result<(), Error>>)
        requires
            old(self).inv(),
            !(old(self).spec_stage() is Done),
            outcome matches Err(causes) ==> causes@.len() > 0,
        ensures
            final(self).inv(),
            registration_advanced(*old(self), outcome, *final(self), r),
    {
        match self.stage {
            RegisterStage::CreateRegion => match outcome {
                Ok(()) => {
                    self.stage = RegisterStage::StartDirtyLog;
                    None
                },
                Err(causes) => {
                    self.stage = RegisterStage::Done;
                    Some(Err(Error::backend("register KVM RAM", &causes)))
                },
            },
            RegisterStage::StartDirtyLog => match outcome {
                Ok(()) => {
                    self.stage = RegisterStage::Done;
                    Some(Ok(()))
                },
                Err(causes) => {
                    self.stage = RegisterStage::RollBack;
                    self.failure = Some(causes);
                    None
                },
            },
            RegisterStage::RollBack => {
                self.stage = RegisterStage::Done;
                match self.failure.take() {
                    Some(failed) => match outcome {
                        Ok(()) => Some(Err(Error::backend("start KVM dirty log", &failed))),
                        Err(causes) => {
                            let mut message: String = failed[0].clone();
                            message.append("; memory-slot rollback also failed: ");
                            message.append(causes[0].as_str());
                            Some(Err(Error::Backend { operation: "start KVM dirty log", message }))
                        },
                    },
                    None => Some(Ok(())),
                }
            },
            RegisterStage::Done => None,
        }
    }
}

impl KvmGuestRam {
    /// Begins to make the RAM a memory slot.
    pub fn register(&self) -> (registration: RamRegistration)
        ensures
            registration.inv(),
            registration.spec_stage() is CreateRegion,
            registration.failure() is None,
    {
        RamRegistration { stage: RegisterStage::CreateRegion, failure: None }
    }

    /// What removing the memory slot comes to.
    pub fn unregister(&self, removed: Result<(), Vec<String>>) -> (r: Result<(), Error>)
        requires
            removed matches Err(causes) ==> causes@.len() > 0,
        ensures
            match removed {
                Ok(()) => r == Ok::<(), Error>(()),
                Err(causes) => r matches Err(e) && is_backend(e, "unregister KVM RAM", causes@),
            },
    {
        match removed {
            Ok(()) => Ok(()),
            Err(causes) => Err(Error::backend("unregister KVM RAM", &causes)),
        }
    }
}

} // verus!
