//! A freestanding kernel's dynamic-memory subsystem, modelled and verified.
//!
//! The heart of the crate is the heap allocator engine: three interchangeable
//! allocation strategies (bump, intrusive free-list, segregated
//! fixed-size-block with free-list fallback) unified behind one
//! allocation/deallocation contract, plus the heap-initialization protocol
//! that prepares the backing memory region.
//!
//! Around the engine stand the collaborators that the rest of the kernel
//! sees: the event-dispatch layer that fans interrupt-recorded data out to
//! registered listeners, and the text-mode writer that renders bytes into a
//! screen buffer.

pub mod allocator;
pub mod event;
pub mod interrupts;
pub mod keyboard;
pub mod memory;
pub mod testing;
pub mod vga_buffer;
