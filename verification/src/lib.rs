//! Pomodoro-paced task scheduling: a cadence state machine, a slot timeline
//! and an allocator that places tasks on the slots of their working periods.

pub mod allocator;
mod chance;
pub mod clock;
pub mod db;
pub mod event;
pub mod order;
pub mod pomodoro;
pub mod scheduler;
pub mod strategy;
