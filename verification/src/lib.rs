//! A verified interpreter for the classic 8-bit CHIP-8 virtual machine: a
//! register file, 4096 bytes of memory, a bounded call stack, two countdown
//! timers, a 64x32 monochrome framebuffer and a 16-key input bitmask, driven
//! one instruction at a time by an external caller.
pub mod cpu;
pub mod keypad;
pub mod laws;
