//! Stack-resident multiqueues: a fixed number of independent bounded FIFO
//! queues ("lanes"), each with a fixed number of slots, sized at compile time.
//!
//! Every operation acts on one lane only and runs in constant time. The
//! contracts describe each lane as the sequence of values it holds, oldest
//! first.
mod error;
mod laws;
mod queue;

pub use error::MSQError;
pub use laws::{
    lemma_capacity_boundary, lemma_fifo, lemma_pop_empty, lemma_pop_times_within,
    lemma_push_each_fits, lemma_refill, pop_times, push_each,
};
pub use queue::{pop_outcome, push_outcome, MultiStackQueue};
