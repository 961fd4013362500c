//! Host-side driver logic for the serial ROM bootloader of CC13xx/CC26xx parts:
//! the command codec, the firmware image model and the flashing sequencer.

pub mod commands;
pub mod firmware_image;
pub mod bootloader;
