//! A serial bootloader for Cortex-M microcontrollers: the framed wire
//! protocol, the request engine that drives flash and transport, the
//! 512-byte page adapter over larger flash pages, and the boot entry logic.
pub mod attributes;
pub mod bytes;
pub mod crc;
pub mod engine;
pub mod entry;
pub mod flash_adapter;
pub mod protocol;
pub mod uart_receive;
