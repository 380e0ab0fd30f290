//! Service configuration and the number of workers it asks for.

use vstd::prelude::*;

verus! {

/// How many concurrent workers serve one service type.
#[derive(Debug, Clone, Copy, PartialEq, Eq, Structural)]
pub enum ServiceConcurrency {
    /// `Unlimited` for a service value without state, `OnePerCore` otherwise.
    Automatic,
    /// One worker: messages are handled one after another.
    NoConcurrency,
    /// One worker per core.
    OnePerCore,
    /// One worker for every two cores.
    OneEachTwoCore,
    /// Exactly this many workers.
    Fixed(usize),
    /// One worker loop that starts a detached task per message.
    Unlimited,
}

/// What a service returns next to its value when it is initialized.
#[derive(Debug, Clone, Copy, PartialEq, Eq, Structural)]
pub struct ServiceConfiguration {
    pub concurrency: ServiceConcurrency,
}

impl Default for ServiceConfiguration {
    fn default() -> (configuration: ServiceConfiguration)
        ensures
            configuration.concurrency == ServiceConcurrency::Automatic,
    {
        ServiceConfiguration { concurrency: ServiceConcurrency::Automatic }
    }
}

/// The shape of a worker set: how many loops run, and whether a loop waits for
/// a handler to finish before it receives again.
#[derive(Debug, Clone, Copy, PartialEq, Eq, Structural)]
pub struct WorkerPlan {
    pub workers: usize,
    pub wait_for_service: bool,
}

/// The worker plan of a configuration on a machine with `cpus` cores, for a
/// service value that is zero-sized or not.
pub open spec fn worker_plan_of(
    concurrency: ServiceConcurrency,
    cpus: usize,
    zero_sized: bool,
) -> WorkerPlan {
    match concurrency {
        ServiceConcurrency::Automatic => if zero_sized {
            WorkerPlan { workers: 1, wait_for_service: false }
        } else {
            WorkerPlan { workers: cpus, wait_for_service: true }
        },
        ServiceConcurrency::NoConcurrency => WorkerPlan { workers: 1, wait_for_service: true },
        ServiceConcurrency::OnePerCore => WorkerPlan { workers: cpus, wait_for_service: true },
        ServiceConcurrency::OneEachTwoCore => WorkerPlan {
            workers: (cpus / 2) as usize,
            wait_for_service: true,
        },
        ServiceConcurrency::Fixed(quantity) => WorkerPlan {
            workers: quantity,
            wait_for_service: true,
        },
        ServiceConcurrency::Unlimited => WorkerPlan { workers: 1, wait_for_service: false },
    }
}

/// Derives the worker plan from a configuration, the core count and whether
/// the service value is zero-sized.
pub fn worker_plan(concurrency: ServiceConcurrency, cpus: usize, zero_sized: bool) -> (plan:
    WorkerPlan)
    ensures
        plan == worker_plan_of(concurrency, cpus, zero_sized),
{
    match concurrency {
        ServiceConcurrency::Automatic => {
            if zero_sized {
                WorkerPlan { workers: 1, wait_for_service: false }
            } else {
                WorkerPlan { workers: cpus, wait_for_service: true }
            }
        },
        ServiceConcurrency::NoConcurrency => WorkerPlan { workers: 1, wait_for_service: true },
        ServiceConcurrency::OnePerCore => WorkerPlan { workers: cpus, wait_for_service: true },
        ServiceConcurrency::OneEachTwoCore => WorkerPlan {
            workers: cpus / 2,
            wait_for_service: true,
        },
        ServiceConcurrency::Fixed(quantity) => WorkerPlan {
            workers: quantity,
            wait_for_service: true,
        },
        ServiceConcurrency::Unlimited => WorkerPlan { workers: 1, wait_for_service: false },
    }
}

/// Calls `num_cpus::get`. The count depends on the machine and on the limits
/// set for the process; its documentation promises only that it is at least 1.
#[verifier::external_body]
pub(crate) fn cpu_count() -> (cpus: usize)
    ensures
        cpus >= 1,
{
    num_cpus::get()
}

} // verus!
