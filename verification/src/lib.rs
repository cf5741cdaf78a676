//! Core of a resilient event-stream relay: an incremental SSE frame decoder,
//! an event normalizer and completion detector, a bounded replay buffer, and
//! the reconnect/backoff state machine that drives them.

use vstd::prelude::*;

pub mod buffer;
pub mod detect;
pub mod enhancer;
pub mod format;
pub mod frame;
pub mod json;
pub mod normalize;
pub mod payloads;
pub mod power;
pub mod relay;

verus! {

/// Saturating double of a reconnect delay, capped at a ceiling.
pub fn double_capped(delay_ms: u64, ceiling_ms: u64) -> (r: u64)
    ensures
        r == if 2 * delay_ms <= ceiling_ms {
            2 * delay_ms
        } else {
            ceiling_ms as int
        },
{
    if delay_ms <= ceiling_ms / 2 {
        2 * delay_ms
    } else {
        ceiling_ms
    }
}


} // verus!
