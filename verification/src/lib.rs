//! A task-spooling library: priority queues of future-dated tasks, an
//! admission codec for the line protocol, due-time polling, reschedule
//! arithmetic, and request planning for the worker.

pub mod codec;
pub mod dates;
pub mod queue;
pub mod sched;
pub mod task;
pub mod text;
pub mod utils;
pub mod worker;

pub use task::Task;
pub use task::TaskSettings;
pub use task::TaskType;
