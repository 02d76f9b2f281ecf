//! What the UEFI entry path decides from the firmware's answers: the
//! framebuffer it hands the kernel, the memory map it reads, and the
//! debug output it prints.
use vstd::prelude::*;
use crate::arch::x86_64::uefi::proto::EfiGraphicsOutputModeInformation;
use crate::boot::boot_info::{FramebufferInfo, PhysicalMemoryKind, PhysicalMemoryRegion, PixelFormat};
use crate::bytes::{le_at, read_u32, read_u64};

pub mod proto;

verus! {

/// The framebuffer of a GOP mode, or `None` where the mode has no
/// framebuffer. Pixel format 0 is RGB; every other format is taken as BGR.
pub fn extract_framebuffer(frame_buffer_base: u64, frame_buffer_size: usize, info: &EfiGraphicsOutputModeInformation) -> (r:
    Option<FramebufferInfo>)
    ensures
        frame_buffer_base == 0 ==> r is None,
        frame_buffer_base != 0 ==> (r matches Some(fb) && fb.base_addr == frame_buffer_base && fb.size
            == frame_buffer_size && fb.width == info.horizontal_resolution && fb.height == info.vertical_resolution
            && fb.stride == info.pixels_per_scan_line && fb.pixel_format == (if info.pixel_format == 0 {
            PixelFormat::Rgb
        } else {
            PixelFormat::Bgr
        })),
{
    if frame_buffer_base == 0 {
        return None;
    }
    let pixel_format = if info.pixel_format == 0 { PixelFormat::Rgb } else { PixelFormat::Bgr };
    Some(
        FramebufferInfo {
            base_addr: frame_buffer_base,
            size: frame_buffer_size,
            width: info.horizontal_resolution as usize,
            height: info.vertical_resolution as usize,
            stride: info.pixels_per_scan_line as usize,
            pixel_format,
        },
    )
}

/// Default linear framebuffer of a Bochs VBE adapter.
pub const BOCHS_DEFAULT_BASE: u32 = 0xE000_0000;

/// The framebuffer of a Bochs VBE adapter from its DISPI registers: none
/// unless the ID is one of `0xB0C0..=0xB0C5` and a mode is set. The base is
/// the VGA device's BAR0 when one was found; pixels are BGR.
pub fn probe_bochs_vbe(id: u16, width: u16, height: u16, bpp: u16, virtual_width: u16, bar0: Option<u32>) -> (r:
    Option<FramebufferInfo>)
    ensures
        !(0xB0C0 <= id <= 0xB0C5) || width == 0 || height == 0 || bpp == 0 ==> r is None,
        (0xB0C0 <= id <= 0xB0C5) && width != 0 && height != 0 && bpp != 0 ==> (r matches Some(fb) && fb.base_addr
            == (match bar0 {
            Some(b) => b,
            None => BOCHS_DEFAULT_BASE,
        }) && fb.width == width && fb.height == height && fb.stride == (if virtual_width > 0 {
            virtual_width
        } else {
            width
        }) && fb.size == ((if virtual_width > 0 { virtual_width } else { width }) * height * ((bpp + 7) / 8)) as usize
            && fb.pixel_format == PixelFormat::Bgr),
{
    if !(0xB0C0 <= id && id <= 0xB0C5) {
        return None;
    }
    if width == 0 || height == 0 || bpp == 0 {
        return None;
    }
    let fb_base = match bar0 {
        Some(b) => b,
        None => BOCHS_DEFAULT_BASE,
    };
    let bytes_per_pixel = (bpp as u64 + 7) / 8;
    let stride: u16 = if virtual_width > 0 { virtual_width } else { width };
    proof {
        assert((stride as u64) * (height as u64) <= 0xFFFF * 0xFFFF) by (nonlinear_arith)
            requires
                stride <= 0xFFFF,
                height <= 0xFFFF,
        ;
        assert((stride as u64) * (height as u64) * bytes_per_pixel <= 0xFFFF * 0xFFFF * 0x2000) by (nonlinear_arith)
            requires
                (stride as u64) * (height as u64) <= 0xFFFF * 0xFFFF,
                bytes_per_pixel <= 0x2000,
        ;
    }
    let fb_size = (stride as u64) * (height as u64) * bytes_per_pixel;
    Some(
        FramebufferInfo {
            base_addr: fb_base as u64,
            size: fb_size as usize,
            width: width as usize,
            height: height as usize,
            stride: stride as usize,
            pixel_format: PixelFormat::Bgr,
        },
    )
}

/// The PCI configuration address of register `offset` of a function.
pub fn pci_config_address(bus: u8, dev: u8, func: u8, offset: u8) -> (r: u32)
    ensures
        r == 0x8000_0000u32 | ((bus as u32) << 16u32) | ((dev as u32) << 11u32) | ((func as u32) << 8u32) | ((
        offset as u32) & 0xFC),
{
    0x8000_0000u32 | ((bus as u32) << 16) | ((dev as u32) << 11) | ((func as u32) << 8) | ((offset as u32) & 0xFC)
}

/// The memory aperture of a PCI function on bus 0 that is a display
/// controller (class `0x0300` or `0x0302`), from its vendor/device, class
/// and BAR0 registers.
pub fn vga_bar0(vendor_device: u32, class_rev: u32, bar0: u32) -> (r: Option<u32>)
    ensures
        r == (if vendor_device == 0xFFFF_FFFF || vendor_device == 0 {
            None
        } else if (class_rev / 0x1_0000 == 0x0300 || class_rev / 0x1_0000 == 0x0302) && bar0 % 2 == 0 && bar0
            > 0x1000 {
            Some((bar0 - bar0 % 0x1000) as u32)
        } else {
            None::<u32>
        }),
{
    if vendor_device == 0xFFFF_FFFF || vendor_device == 0 {
        return None;
    }
    let class_code = class_rev / 0x1_0000;
    if (class_code == 0x0300 || class_code == 0x0302) && bar0 % 2 == 0 && bar0 > 0x1000 {
        Some(bar0 - bar0 % 0x1000)
    } else {
        None
    }
}

/// The lowercase hexadecimal digit of `nibble`.
pub open spec fn hex_digit(nibble: int) -> u8 {
    if nibble < 10 {
        (0x30 + nibble) as u8
    } else {
        (0x61 + nibble - 10) as u8
    }
}

/// The hexadecimal digits are the ASCII characters `0`-`9` then `a`-`f`.
pub proof fn law_hex_digits_are_ascii(nibble: int)
    requires
        0 <= nibble < 16,
    ensures
        hex_digit(nibble) == seq![
            0x30u8, 0x31u8, 0x32u8, 0x33u8, 0x34u8, 0x35u8, 0x36u8, 0x37u8,
            0x38u8, 0x39u8, 0x61u8, 0x62u8, 0x63u8, 0x64u8, 0x65u8, 0x66u8,
        ][nibble],
{
    assert(nibble == 0 || nibble == 1 || nibble == 2 || nibble == 3 || nibble == 4 || nibble == 5 || nibble == 6
        || nibble == 7 || nibble == 8 || nibble == 9 || nibble == 10 || nibble == 11 || nibble == 12 || nibble == 13
        || nibble == 14 || nibble == 15);
}

/// The sixteen hexadecimal digits of `value`, most significant first.
pub fn hex_digits(value: u64) -> (r: [u8; 16])
    ensures
        forall|i: int| 0 <= i < 16 ==> r@[i] == hex_digit((value as int / vstd::arithmetic::power::pow(16, (15 - i) as nat)) % 16),
{
    let mut digits = [0x30u8; 16];
    let mut rest = value;
    let mut k: usize = 16;
    proof {
        vstd::arithmetic::power::lemma_pow0(16);
    }
    while k > 0
        invariant
            0 <= k <= 16,
            rest as int == value as int / vstd::arithmetic::power::pow(16, (16 - k) as nat),
            forall|i: int| k <= i < 16 ==> digits@[i] == hex_digit((value as int / vstd::arithmetic::power::pow(16, (15 - i) as nat)) % 16),
        decreases k,
    {
        let nibble = (rest % 16) as u8;
        digits[k - 1] = if nibble < 10 { 0x30 + nibble } else { 0x61 + nibble - 10 };
        proof {
            vstd::arithmetic::power::lemma_pow_positive(16, (16 - k) as nat);
            vstd::arithmetic::div_mod::lemma_div_denominator(value as int, vstd::arithmetic::power::pow(16, (16 - k) as nat), 16);
            vstd::arithmetic::power::lemma_pow_adds(16, (16 - k) as nat, 1);
            vstd::arithmetic::power::lemma_pow1(16);
        }
        rest = rest / 16;
        k = k - 1;
    }
    digits
}

/// Bytes of the part of a UEFI memory descriptor that is read: type,
/// padding, physical start, virtual start, page count and attributes.
pub const EFI_DESCRIPTOR_MIN: usize = 40;

pub const LOADER_CODE: u32 = 1;
pub const LOADER_DATA: u32 = 2;
pub const BOOT_SERVICES_CODE: u32 = 3;
pub const BOOT_SERVICES_DATA: u32 = 4;
pub const RUNTIME_CODE: u32 = 5;
pub const RUNTIME_DATA: u32 = 6;
pub const CONVENTIONAL_MEMORY: u32 = 7;
pub const ACPI_RECLAIM: u32 = 9;
pub const ACPI_NVS: u32 = 10;
pub const MMIO: u32 = 11;
pub const MMIO_PORT_SPACE: u32 = 12;

/// The kind of memory a UEFI memory type stands for once boot services
/// have exited: loader and boot-services memory is free again.
pub open spec fn spec_uefi_memory_kind(memory_type: u32) -> PhysicalMemoryKind {
    if memory_type == CONVENTIONAL_MEMORY || memory_type == LOADER_CODE || memory_type == LOADER_DATA
        || memory_type == BOOT_SERVICES_CODE || memory_type == BOOT_SERVICES_DATA {
        PhysicalMemoryKind::Usable
    } else if memory_type == ACPI_RECLAIM {
        PhysicalMemoryKind::AcpiReclaimable
    } else if memory_type == ACPI_NVS {
        PhysicalMemoryKind::AcpiNvs
    } else if memory_type == RUNTIME_CODE || memory_type == RUNTIME_DATA {
        PhysicalMemoryKind::Runtime
    } else if memory_type == MMIO || memory_type == MMIO_PORT_SPACE {
        PhysicalMemoryKind::Mmio
    } else {
        PhysicalMemoryKind::Reserved
    }
}

pub fn uefi_memory_kind(memory_type: u32) -> (r: PhysicalMemoryKind)
    ensures
        r == spec_uefi_memory_kind(memory_type),
{
    match memory_type {
        CONVENTIONAL_MEMORY | LOADER_CODE | LOADER_DATA | BOOT_SERVICES_CODE | BOOT_SERVICES_DATA => {
            PhysicalMemoryKind::Usable
        },
        ACPI_RECLAIM => PhysicalMemoryKind::AcpiReclaimable,
        ACPI_NVS => PhysicalMemoryKind::AcpiNvs,
        RUNTIME_CODE | RUNTIME_DATA => PhysicalMemoryKind::Runtime,
        MMIO | MMIO_PORT_SPACE => PhysicalMemoryKind::Mmio,
        _ => PhysicalMemoryKind::Reserved,
    }
}

/// The UEFI memory types, by their numbers in the UEFI specification, sort
/// into the kinds the kernel uses once boot services have exited: loader
/// code and data (1, 2), boot-services code and data (3, 4) and
/// conventional memory (7) are usable; runtime-services code and data
/// (5, 6) stay with the firmware; ACPI reclaimable memory (9) and ACPI NVS
/// (10) keep their ACPI kinds; memory-mapped I/O and port space (11, 12)
/// are device memory; every other type is reserved.
pub proof fn law_uefi_memory_types(t: u32)
    ensures
        (spec_uefi_memory_kind(t) == PhysicalMemoryKind::Usable) == (t == 1 || t == 2 || t == 3 || t == 4 || t == 7),
        (spec_uefi_memory_kind(t) == PhysicalMemoryKind::Runtime) == (t == 5 || t == 6),
        (spec_uefi_memory_kind(t) == PhysicalMemoryKind::AcpiReclaimable) == (t == 9),
        (spec_uefi_memory_kind(t) == PhysicalMemoryKind::AcpiNvs) == (t == 10),
        (spec_uefi_memory_kind(t) == PhysicalMemoryKind::Mmio) == (t == 11 || t == 12),
        (spec_uefi_memory_kind(t) == PhysicalMemoryKind::Reserved) == !(1 <= t <= 7 || 9 <= t <= 12),
{
}

/// The region that the descriptor at `offset` describes, or `None` where
/// its length in bytes or its end does not fit in 64 bits.
pub open spec fn descriptor_region(bytes: Seq<u8>, offset: int) -> Option<PhysicalMemoryRegion> {
    let memory_type = le_at(bytes, offset, 4);
    let start = le_at(bytes, offset + 8, 8);
    let pages = le_at(bytes, offset + 24, 8);
    if pages * 4096 > u64::MAX || start + pages * 4096 > u64::MAX {
        None
    } else {
        Some(
            PhysicalMemoryRegion {
                start: start as u64,
                length: (pages * 4096) as u64,
                kind: spec_uefi_memory_kind(memory_type as u32),
            },
        )
    }
}

/// The regions of the descriptors from `offset` on, `descriptor_size`
/// bytes apart in the first `size` bytes, up to the first whose extent
/// does not fit in 64 bits; and whether there was such a descriptor.
pub open spec fn decoded_regions(bytes: Seq<u8>, size: int, descriptor_size: int, offset: int) -> (
    Seq<PhysicalMemoryRegion>,
    bool,
)
    decreases size - offset + descriptor_size,
{
    if descriptor_size < EFI_DESCRIPTOR_MIN || offset < 0 || offset > size || size - offset < EFI_DESCRIPTOR_MIN {
        (Seq::empty(), false)
    } else {
        match descriptor_region(bytes, offset) {
            None => (Seq::empty(), true),
            Some(region) => {
                let rest = decoded_regions(bytes, size, descriptor_size, offset + descriptor_size);
                (seq![region] + rest.0, rest.1)
            },
        }
    }
}

/// The regions a UEFI memory map holds, in order, and whether a
/// descriptor with an extent beyond 64 bits cut it short.
pub struct UefiMemoryMap {
    pub regions: Vec<PhysicalMemoryRegion>,
    pub overflowed: bool,
}

/// Reads the memory map that `GetMemoryMap` left in the first `size`
/// bytes of `bytes`: one region per descriptor, `descriptor_size` bytes
/// apart, up to the first descriptor whose extent does not fit in 64 bits.
/// `None` where the descriptor layout is one this reader does not know:
/// descriptors shorter than 40 bytes or not a multiple of 8, or version 0.
pub fn parse_memory_map(bytes: &[u8], size: usize, descriptor_size: usize, descriptor_version: u32) -> (r:
    Option<UefiMemoryMap>)
    requires
        size <= bytes@.len(),
    ensures
        (descriptor_size < EFI_DESCRIPTOR_MIN || descriptor_size % 8 != 0 || descriptor_version == 0) <==> r is None,
        r matches Some(map) ==> map.regions@ == decoded_regions(bytes@, size as int, descriptor_size as int, 0).0
            && map.overflowed == decoded_regions(bytes@, size as int, descriptor_size as int, 0).1,
{
    if descriptor_size < EFI_DESCRIPTOR_MIN || descriptor_size % 8 != 0 || descriptor_version == 0 {
        return None;
    }
    let ghost whole = decoded_regions(bytes@, size as int, descriptor_size as int, 0);
    let mut regions: Vec<PhysicalMemoryRegion> = Vec::new();
    let mut overflowed = false;
    let mut stop = false;
    let mut offset: usize = 0;
    while !stop && size - offset >= EFI_DESCRIPTOR_MIN
        invariant
            size <= bytes@.len(),
            descriptor_size >= EFI_DESCRIPTOR_MIN,
            offset <= size,
            whole == decoded_regions(bytes@, size as int, descriptor_size as int, 0),
            stop ==> regions@ == whole.0 && overflowed == whole.1,
            !stop ==> !overflowed && regions@ + decoded_regions(
                bytes@,
                size as int,
                descriptor_size as int,
                offset as int,
            ).0 == whole.0 && decoded_regions(bytes@, size as int, descriptor_size as int, offset as int).1
                == whole.1,
        decreases size - offset + (if stop { 0int } else { 1 }),
    {
        let memory_type = read_u32(bytes, offset);
        let start = read_u64(bytes, offset + 8);
        let pages = read_u64(bytes, offset + 24);
        let ghost here = decoded_regions(bytes@, size as int, descriptor_size as int, offset as int);
        let fits = match pages.checked_mul(4096) {
            Some(length) => start.checked_add(length).is_some(),
            None => false,
        };
        if !fits {
            proof {
                assert(descriptor_region(bytes@, offset as int) is None);
                assert(regions@ =~= regions@ + here.0);
            }
            overflowed = true;
            stop = true;
        } else {
            let length = pages * 4096;
            let region = PhysicalMemoryRegion { start, length, kind: uefi_memory_kind(memory_type) };
            let ghost before = regions@;
            regions.push(region);
            proof {
                assert(descriptor_region(bytes@, offset as int) == Some(region));
                let rest = decoded_regions(bytes@, size as int, descriptor_size as int, offset + descriptor_size);
                assert(here.0 == seq![region] + rest.0);
                assert(regions@ + rest.0 =~= before + here.0);
            }
            if descriptor_size <= size - offset {
                offset = offset + descriptor_size;
            } else {
                proof {
                    let rest = decoded_regions(bytes@, size as int, descriptor_size as int, offset + descriptor_size);
                    assert(rest.0 =~= Seq::<PhysicalMemoryRegion>::empty());
                    assert(regions@ =~= regions@ + rest.0);
                }
                stop = true;
            }
        }
    }
    proof {
        if !stop {
            assert(regions@ =~= regions@ + decoded_regions(
                bytes@,
                size as int,
                descriptor_size as int,
                offset as int,
            ).0);
        }
    }
    Some(UefiMemoryMap { regions, overflowed })
}

} // verus!
