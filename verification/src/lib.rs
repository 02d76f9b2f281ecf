//! SaeOS kernel logic: boot information, memory management, collections,
//! interrupt routing, drivers' decision logic and the configuration model.
pub mod apic;
pub mod arch;
pub mod boot;
pub mod bytes;
pub mod mm;
pub mod collections;
pub mod config;
pub mod config_toml;
pub mod drivers;
pub mod gdt;
pub mod interrupt_controller;
pub mod interrupts;
pub mod keyboard;
pub mod serial;
pub mod shell;
pub mod time;


