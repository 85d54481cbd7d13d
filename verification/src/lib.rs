//! A load-balancing router for a pool of LLM inference workers.
//!
//! The library is the verified core of an HTTP dispatcher: it owns the worker
//! pool, the selection policies (random, round-robin, power-of-two-choices and
//! cache-aware prefix affinity), the retry state machine that drives one
//! request's dispatch, and the health-probe hysteresis. All networking stays
//! outside; callers forward requests themselves and feed the outcomes back in.

pub mod worker;
pub mod pool;
pub mod policy;
pub mod router;
pub mod dispatch;
pub mod monitor;
