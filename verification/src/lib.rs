//! A toy reactor and executor.
//!
//! [`mioio`] and [`miokqueue`] register event sources with a kernel queue, [`timer`] and
//! [`periodic`] wake tasks at given times, and [`exec`] keeps the tasks and decides which
//! of them is polled next. None of it touches the system: each part says what is to be
//! done and is told what came of it.

pub mod bitset;
pub mod exec;
pub mod mioio;
pub mod miokqueue;
pub mod net;
pub mod periodic;
pub mod sys;
pub mod task;
pub mod timer;
pub mod timer_run;
