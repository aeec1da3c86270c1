//! Device-facing rules that need no device: interrupt vector numbers and
//! the text-mode colour encoding.

pub mod pic8259;
pub mod vga_buffer;
