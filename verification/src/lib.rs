//! Core of a work/break time tracker: a chronological log of state-change
//! events, a compaction algorithm that keeps the persisted log minimal, an
//! aggregation engine that turns the event sequence into worked seconds, and
//! a row-oriented text codec for the backing file.

pub mod aggregate;
pub mod calendar;
pub mod clock;
pub mod codec;
pub mod compact;
pub mod day_log;
pub mod record;
pub mod shell;
pub mod sort;
