# saeos

The logic of the SaeOS x86_64 kernel and of its `ratconf` configuration
tool, as a library whose behaviour is stated in contracts and proved with
Verus.

## Layout

- `src/boot`, `src/mm/multiboot.rs`, `src/arch/x86_64/uefi`: boot information,
  the Multiboot and UEFI memory maps read from their bytes, UEFI framebuffer
  decisions.
- `src/mm`: the physical frame allocator (`frame`), the direct-map planning
  model (`mapping_model`), address conversions and entry encodings
  (`paging`), four-level page tables for user address spaces and for the
  kernel (`page_table`), the boot-time identity map, direct map and
  bootstrap window (`boot_map`), the first-fit heap with merged free regions
  (`heap`) and the memory self-checks (`selftest`).
- `src/collections`: FNV and identity hashers, an open-addressing map, a set
  on top of it, a fixed-capacity map and a chained map, behind the
  `KernelMap` and `KernelSet` traits.
- `src/arch/x86_64`: ACPI (RSDP, RSDT/XSDT, MADT) parsed from physical
  memory bytes, I/O APIC and local APIC programming as register writes, the
  8259 PIC, the choice of interrupt controller, CPU register helpers.
- `src/drivers`, `src/keyboard.rs`, `src/serial.rs`: keyboard decoding and
  key queues, serial output, the framebuffer text console.
- `src/time`: TSC calibration and conversions, PIT ticks, RTC decoding, the
  local APIC timer.
- `src/gdt.rs`, `src/interrupts.rs`: the TSS descriptor layout and IDT gates.
- `src/shell`: the line editor, command selection and command output text of
  the kernel shell.
- `src/config.rs`, `src/config_toml.rs`: configuration modules, chosen
  values and the rendered `.config`, Cargo feature list and minimal
  configuration; module and configuration files read from TOML text
  through the `toml` crate.
- `app/`: the `ratconf` command-line tool (terminal menu, files) and the
  kernel glue that performs the hardware accesses the
  library decides on (spin lock, port and MMIO writes, global allocator,
  boot-time table building, the memory self-test with its probes, and the
  printing of shell command output).

Hardware access (port I/O, MMIO, MSRs, control registers) is never done in
`src/`: operations that touch hardware return the writes to perform, or take
the values read as arguments.
