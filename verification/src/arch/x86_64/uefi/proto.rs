//! UEFI structures that the kernel reads as plain data. Firmware tables are
//! addressed by physical address here; the function-pointer tables of boot
//! services stay with the firmware glue.
use vstd::prelude::*;

verus! {

pub const EFI_SUCCESS: u64 = 0;
pub const EFI_BUFFER_TOO_SMALL: u64 = 0x8000000000000005;

/// A UEFI GUID.
#[derive(Debug, Clone, Copy)]
pub struct EfiGuid {
    pub data1: u32,
    pub data2: u16,
    pub data3: u16,
    pub data4: [u8; 8],
}

impl EfiGuid {
    pub open spec fn same(&self, other: &EfiGuid) -> bool {
        &&& self.data1 == other.data1
        &&& self.data2 == other.data2
        &&& self.data3 == other.data3
        &&& self.data4@ == other.data4@
    }

    /// The two GUIDs are equal.
    pub fn equals(&self, other: &EfiGuid) -> (r: bool)
        ensures
            r == self.same(other),
    {
        if self.data1 != other.data1 || self.data2 != other.data2 || self.data3 != other.data3 {
            return false;
        }
        let mut i: usize = 0;
        while i < 8
            invariant
                0 <= i <= 8,
                forall|j: int| 0 <= j < i ==> self.data4@[j] == other.data4@[j],
            decreases 8 - i,
        {
            if self.data4[i] != other.data4[i] {
                return false;
            }
            i = i + 1;
        }
        proof {
            assert(self.data4@ =~= other.data4@);
        }
        true
    }
}

/// The graphics output protocol.
pub fn efi_graphics_output_protocol_guid() -> (r: EfiGuid)
    ensures
        r.data1 == 0x9042a9de && r.data2 == 0x23dc && r.data3 == 0x4a38,
        r.data4@ == seq![0x96u8, 0xfbu8, 0x7au8, 0xddu8, 0xe0u8, 0x80u8, 0x51u8, 0x6au8],
{
    let r = EfiGuid {
        data1: 0x9042a9de,
        data2: 0x23dc,
        data3: 0x4a38,
        data4: [0x96, 0xfb, 0x7a, 0xdd, 0xe0, 0x80, 0x51, 0x6a],
    };
    proof {
        assert(r.data4@ =~= seq![0x96u8, 0xfbu8, 0x7au8, 0xddu8, 0xe0u8, 0x80u8, 0x51u8, 0x6au8]);
    }
    r
}

pub open spec fn is_acpi20_guid(g: EfiGuid) -> bool {
    &&& g.data1 == 0x8868e871
    &&& g.data2 == 0xe4f1
    &&& g.data3 == 0x11d3
    &&& g.data4@ == seq![0xbcu8, 0x22u8, 0x00u8, 0x80u8, 0xc7u8, 0x3cu8, 0x88u8, 0x81u8]
}

pub open spec fn is_acpi10_guid(g: EfiGuid) -> bool {
    &&& g.data1 == 0xeb9d2d30
    &&& g.data2 == 0x2d88
    &&& g.data3 == 0x11d3
    &&& g.data4@ == seq![0x9au8, 0x16u8, 0x00u8, 0x90u8, 0x27u8, 0x3fu8, 0xc1u8, 0x4du8]
}

/// The configuration table of the ACPI 2.0 RSDP.
pub fn efi_acpi_20_table_guid() -> (r: EfiGuid)
    ensures
        is_acpi20_guid(r),
{
    let r = EfiGuid {
        data1: 0x8868e871,
        data2: 0xe4f1,
        data3: 0x11d3,
        data4: [0xbc, 0x22, 0x00, 0x80, 0xc7, 0x3c, 0x88, 0x81],
    };
    proof {
        assert(r.data4@ =~= seq![0xbcu8, 0x22u8, 0x00u8, 0x80u8, 0xc7u8, 0x3cu8, 0x88u8, 0x81u8]);
    }
    r
}

/// The configuration table of the ACPI 1.0 RSDP.
pub fn efi_acpi_table_guid() -> (r: EfiGuid)
    ensures
        is_acpi10_guid(r),
{
    let r = EfiGuid {
        data1: 0xeb9d2d30,
        data2: 0x2d88,
        data3: 0x11d3,
        data4: [0x9a, 0x16, 0x00, 0x90, 0x27, 0x3f, 0xc1, 0x4d],
    };
    proof {
        assert(r.data4@ =~= seq![0x9au8, 0x16u8, 0x00u8, 0x90u8, 0x27u8, 0x3fu8, 0xc1u8, 0x4du8]);
    }
    r
}

/// The header of every UEFI table.
#[derive(Debug, Clone, Copy, PartialEq, Eq, Structural)]
pub struct EfiTableHeader {
    pub signature: u64,
    pub revision: u32,
    pub header_size: u32,
    pub crc32: u32,
    pub reserved: u32,
}

/// One entry of the system table's configuration table: a GUID and the
/// physical address of the table it names.
#[derive(Debug, Clone, Copy)]
pub struct EfiConfigurationTable {
    pub vendor_guid: EfiGuid,
    pub vendor_table: u64,
}

/// A graphics mode as the graphics output protocol describes it.
#[derive(Debug, Clone, Copy)]
pub struct EfiGraphicsOutputModeInformation {
    pub version: u32,
    pub horizontal_resolution: u32,
    pub vertical_resolution: u32,
    pub pixel_format: u32,
    pub pixel_information: [u32; 4],
    pub pixels_per_scan_line: u32,
}

} // verus!
