//! A CHIP-8 virtual machine core (with SUPER-CHIP and XO-CHIP extensions):
//! instruction engine, bit-planed display compositor, wall-clock-decaying
//! timers, keypad state, audio pattern buffer, and the scheduling decisions
//! that connect the engine to an I/O frontend.

pub mod audio;
pub mod colors;
pub mod cpu;
pub mod display;
pub mod keyboard;
pub mod sched;
pub mod timer;
