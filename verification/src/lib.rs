//! A fixed-size worker pool, modelled and verified as a state machine:
//! jobs are submitted to an ordered queue, claimed first-in-first-out by
//! idle workers, and run to completion; teardown closes the queue and
//! waits for every worker to terminate.

pub mod pool;
