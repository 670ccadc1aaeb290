//! Virtual-memory core of a small teaching kernel: the page-permission codec,
//! translation of user buffers into physical byte ranges, and the mmap/munmap
//! region mapper, all over an explicit address space and physical memory.
pub mod address_space;
pub mod buffer;
pub mod config;
pub mod mapper;
pub mod memory;
pub mod permission;
pub mod record;
pub mod syscall;
pub mod translate;
