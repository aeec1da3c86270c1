//! Dynamic memory management for a small x86_64 kernel: a buddy page
//! allocator, a slab allocator layered on it, and a segregated-list
//! allocator with a linked-list fallback heap. Beside it, the rules of two
//! devices that need no device: interrupt vector numbers and the VGA text
//! screen.

pub mod drivers;
pub mod mm;
