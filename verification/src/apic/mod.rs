pub mod ioapic;
