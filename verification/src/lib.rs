//! A single-elimination tournament engine.
//!
//! Teams register and fill their rosters; once the pool starts, complete
//! teams are grouped into matches stage by stage.  Reporting a match winner
//! advances the bracket until a single team remains and the pool ends.
//! Observer events (team completed, match scheduled, stage scheduled, pool
//! ended) are recorded in an event log that a host application can drain.

pub mod pool;
