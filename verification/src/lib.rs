//! A family of linked-list containers, each a different answer to the same
//! question: how to keep an ordered sequence with insertion and removal at
//! the ends, element access, and iteration.
//!
//! - [`deque`]: the centrepiece, a doubly-linked deque whose nodes live in a
//!   dense arena and reach each other through slot indices in both directions.
//! - [`stack`]: a singly-linked push/pop stack with single ownership.
//! - [`persistent`]: a structurally-shared, copy-on-prepend list with
//!   reference-counted read-only sharing.
//! - [`queue`]: a queue with constant-time append, built on the deque's
//!   arena, the kept tail index standing in for a raw tail cursor.

pub mod deque;
pub mod persistent;
pub mod queue;
pub mod stack;
