pub mod acpi;
pub mod apic;
pub mod cpu;
pub mod interrupt_controller;
pub mod pic;
pub mod uefi;
