pub mod ioapic;
pub mod lapic;
