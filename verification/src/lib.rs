//! Dispatch and lifecycle engine of an in-process actor and service runtime.
//!
//! Actors are identified, stateful and served one message at a time; services
//! are unidentified and served by a fixed set of workers. This crate holds the
//! deterministic core of the runtime: mailboxes, per-type pools, routers, the
//! publish/subscribe table and the coordinator that owns them. Every operation
//! is a step of a state machine with a verified contract; a host performs what
//! a step asks for (running a handler, waiting, waking a waiter).

pub mod actors;
pub mod registry;
pub mod services;
pub mod system_director;
pub mod utils;

pub use actors::director::{ActorsDirector, ActorsDirectorConfiguration};
pub use actors::envelope::{CallError, Letter, Responder};
pub use actors::manager::{ActorManagerProxyCommand, ActorsManager, ManagerStep, Retirement};
pub use actors::proxy::{ActorProxy, ActorReport, LoopAction, MailboxState, MAILBOX_CAPACITY};
pub use registry::Registry;
pub use services::broker::MessageBroker;
pub use services::director::ServicesDirector;
pub use services::manager::{
    ServiceManager, ServiceReport, WorkerAction, WorkerRetirement, WorkerState,
};
pub use services::service::{worker_plan, ServiceConcurrency, ServiceConfiguration, WorkerPlan};
pub use system_director::SystemDirector;
pub use utils::{recv_until_command_or_end, Command};
