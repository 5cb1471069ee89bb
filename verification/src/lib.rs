//! Verified cores of concurrency and systems-programming techniques: tagged
//! words, stacks and queues, work-stealing deques, monitors, counters and
//! locks, an arena, string scanning, a circuit breaker, a packet parser,
//! parallel scans, line rasterising, small language tools, an event store and
//! order validation.

pub mod tagging;
pub mod monitor;
pub mod lockfree;
pub mod ring;
pub mod work_stealing;
pub mod capstone;
pub mod text;
pub mod pgo;
pub mod reliability;
pub mod contracts;
pub mod unify;
pub mod paradigms;
pub mod stlc;
pub mod raster;
pub mod counters;
pub mod locks;
pub mod measurement;
pub mod generators;
pub mod cells;
pub mod prng;
pub mod actors;
pub mod transactions;
pub mod futures;
pub mod scan;
pub mod events;
pub mod orders;
pub mod framebuffer;
