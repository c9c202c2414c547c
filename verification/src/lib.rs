//! The reactor and the drivers of an asynchronous I/O runtime.
//!
//! Tasks wait on I/O sources and timers. The reactor keeps their wakers, and hands out in each round those
//! whose event or point in time has come. The library decides; polling I/O, reading the clock, waking,
//! sleeping and locking are left to the caller, who reports what came of them.
//!
//! - `slots`: the wakers of the futures that wait on one direction of a source.
//! - `source`: I/O sources, and how tasks and futures wait on them.
//! - `timers`: the registered timers, and the queue of operations on them.
//! - `reactor`: the table of sources, and the rounds in which events are delivered.
//! - `ready`: the futures that wait until an I/O object is readable or writable.
//! - `driver`: the helper thread, and the threads that block on a future.
//! - `laws`: what holds of all these together.
//! - `awaiting`: what holds of those who wait on sources.
//! - `calls`: what calls do, and how calls in a row relate.
//! - `histories`: what the drivers do, told from all that came before.
pub mod awaiting;
pub mod calls;
pub mod driver;
pub mod histories;
pub mod laws;
pub mod reactor;
pub mod ready;
pub mod slots;
pub mod source;
pub mod timers;
