//! Online mean and standard deviation over a fixed-size sliding window.
//!
//! The window keeps the most recent samples in a fixed ring buffer and
//! maintains second-order statistics in two phases: while the buffer is
//! still filling up it follows Welford's online recurrence, and once it is
//! full it slides, evicting the oldest sample as each new one arrives.
//!
//! Samples are carried through the buffer as opaque 64-bit words (for
//! instance IEEE-754 bit patterns); the buffer never interprets them. The
//! verified core decides, for every push, exactly which slot is overwritten,
//! which sample leaves the logical window, and which numeric update — with
//! which operands — the embedding code must perform. The numeric update
//! itself is ordinary machine arithmetic supplied from outside the core.

mod buffer;

pub use buffer::PhaseUpdate;
pub use buffer::StatWindow;
pub use buffer::WindowModel;
pub use buffer::lemma_constant_history_gives_constant_window;
pub use buffer::lemma_first_push_resets;
pub use buffer::lemma_growing_window_is_whole_history;
pub use buffer::lemma_sliding_window_is_last_capacity;
pub use buffer::lemma_window_evolution;
