//! What is asked for: partitions and filesystem drivers to create.
use vstd::prelude::*;
use vstd::string::*;

use crate::{envec_defaults, fshd_defaults};

verus! {

/// One loadable filesystem driver to write: which partitions it serves, what
/// version it is, its binary, and whichever device-node fields it wants
/// patched.
///
/// The binary is not parsed: any bytes are accepted. The eight patchable
/// fields are [`Option`]s because unset means "this filesystem does not
/// override that device-node field", which is not the same as overriding it
/// with zero.
#[derive(Debug, Clone, PartialEq, Eq)]
pub struct FileSystemSpec {
    /// `fhb_DosType`: the dostype whose partitions this driver serves.
    pub dos_type: u32,
    /// The driver binary, unparsed.
    pub binary: Vec<u8>,
    /// `fhb_Version`'s high half.
    pub version_major: u16,
    /// `fhb_Version`'s low half.
    pub version_minor: u16,
    /// `fhb_HostID`.
    pub host_id: u32,
    /// `fhb_Flags`.
    pub flags: u32,
    /// `fhb_PatchFlags` written verbatim, or `None` to derive it from which
    /// fields below are `Some`, plus the driver-chain bit where there is a
    /// chain. The override changes only the mask: the longwords themselves are
    /// still written from the fields.
    pub patch_flags: Option<u32>,
    /// `fhb_Type`.
    pub node_type: Option<u32>,
    /// `fhb_Task`.
    pub task: Option<u32>,
    /// `fhb_Lock`.
    pub lock: Option<u32>,
    /// `fhb_Handler`.
    pub handler: Option<u32>,
    /// `fhb_StackSize`.
    pub stack_size: Option<u32>,
    /// `fhb_Priority`.
    pub priority: Option<i32>,
    /// `fhb_Startup`.
    pub startup: Option<i32>,
    /// `fhb_GlobalVec`.
    pub global_vec: Option<i32>,
}

impl FileSystemSpec {
    /// A driver for `dos_type` carrying `binary`, with every patchable field at
    /// its default.
    pub fn new(dos_type: u32, binary: Vec<u8>) -> (r: Self)
        ensures
            r == (FileSystemSpec {
                dos_type,
                binary,
                version_major: 0,
                version_minor: 0,
                host_id: fshd_defaults::HOST_ID,
                flags: fshd_defaults::FLAGS,
                patch_flags: None,
                node_type: None,
                task: None,
                lock: None,
                handler: None,
                stack_size: None,
                priority: None,
                startup: None,
                global_vec: Some(fshd_defaults::GLOBAL_VEC),
            }),
    {
        FileSystemSpec {
            dos_type,
            binary,
            version_major: 0,
            version_minor: 0,
            host_id: fshd_defaults::HOST_ID,
            flags: fshd_defaults::FLAGS,
            patch_flags: None,
            node_type: None,
            task: None,
            lock: None,
            handler: None,
            stack_size: None,
            priority: None,
            startup: None,
            global_vec: Some(fshd_defaults::GLOBAL_VEC),
        }
    }

    /// Set `fhb_Version` from its two halves.
    pub fn version(self, major: u16, minor: u16) -> (r: Self)
        ensures
            r == (FileSystemSpec { version_major: major, version_minor: minor, ..self }),
    {
        FileSystemSpec { version_major: major, version_minor: minor, ..self }
    }

    /// Patch `fhb_StackSize` into the device node.
    pub fn stack_size(self, bytes: u32) -> (r: Self)
        ensures
            r == (FileSystemSpec { stack_size: Some(bytes), ..self }),
    {
        FileSystemSpec { stack_size: Some(bytes), ..self }
    }

    /// Patch `fhb_Priority` into the device node.
    pub fn priority(self, priority: i32) -> (r: Self)
        ensures
            r == (FileSystemSpec { priority: Some(priority), ..self }),
    {
        FileSystemSpec { priority: Some(priority), ..self }
    }

    /// Patch `fhb_GlobalVec`.
    pub fn global_vec(self, global_vec: i32) -> (r: Self)
        ensures
            r == (FileSystemSpec { global_vec: Some(global_vec), ..self }),
    {
        FileSystemSpec { global_vec: Some(global_vec), ..self }
    }
}

/// Where a partition goes: a size the builder turns into cylinders, or the
/// cylinders themselves.
#[derive(Debug, Clone, Copy, PartialEq, Eq, Structural)]
pub enum Placement {
    /// At most this many bytes, placed after the previous partition. The
    /// cylinder count is rounded down, so a partition never claims more space
    /// than was asked for; a size below one whole cylinder describes no
    /// partition at all and is refused.
    Size(u64),
    /// Exactly these cylinders, `high` *inclusive*.
    Cylinders {
        /// `de_LowCyl`, the first cylinder.
        low: u32,
        /// `de_HighCyl`, the last.
        high: u32,
    },
}

/// One partition to create: where it goes and what its `PART` block will say.
#[derive(Debug, Clone, PartialEq, Eq)]
pub struct PartitionSpec {
    /// Where the partition goes.
    pub placement: Placement,
    /// `pb_DriveName`, or `None` to have the first free `DH`*n* assigned.
    pub name: Option<String>,
    /// `pb_Flags` bit 0: the ROM may boot from this partition.
    pub bootable: bool,
    /// `pb_Flags` bit 1: present, but not to be mounted automatically.
    pub no_automount: bool,
    /// `de_BootPri`.
    pub boot_pri: i32,
    /// `de_DosType`.
    pub dos_type: u32,
    /// `de_SizeBlock`, in longwords; `None` follows the device block size.
    pub size_block_longs: Option<u32>,
    /// `de_SecOrg`.
    pub sec_org: u32,
    /// `de_SectorPerBlock`.
    pub sectors_per_block: u32,
    /// `de_Reserved`.
    pub reserved: u32,
    /// `de_PreAlloc`.
    pub pre_alloc: u32,
    /// `de_Interleave`.
    pub interleave: u32,
    /// `de_NumBuffers`.
    pub num_buffers: u32,
    /// `de_BufMemType`.
    pub buf_mem_type: u32,
    /// `de_MaxTransfer`.
    pub max_transfer: u32,
    /// `de_Mask`.
    pub mask: u32,
}

/// A spec whose every mount parameter is the default.
pub open spec fn default_partition(placement: Placement) -> PartitionSpec {
    PartitionSpec {
        placement,
        name: None,
        bootable: false,
        no_automount: false,
        boot_pri: 0,
        dos_type: envec_defaults::DOS_TYPE,
        size_block_longs: None,
        sec_org: envec_defaults::SEC_ORG,
        sectors_per_block: envec_defaults::SECTORS_PER_BLOCK,
        reserved: envec_defaults::RESERVED,
        pre_alloc: envec_defaults::PRE_ALLOC,
        interleave: envec_defaults::INTERLEAVE,
        num_buffers: envec_defaults::NUM_BUFFERS,
        buf_mem_type: envec_defaults::BUF_MEM_TYPE,
        max_transfer: envec_defaults::MAX_TRANSFER,
        mask: envec_defaults::MASK,
    }
}

impl PartitionSpec {
    /// A partition of at most `bytes`, placed after the previous one.
    pub fn by_size(bytes: u64) -> (r: Self)
        ensures
            r == default_partition(Placement::Size(bytes)),
    {
        PartitionSpec::with_placement(Placement::Size(bytes))
    }

    /// A partition on exactly cylinders `low..=high`.
    pub fn by_cylinders(low: u32, high: u32) -> (r: Self)
        ensures
            r == default_partition(Placement::Cylinders { low, high }),
    {
        PartitionSpec::with_placement(Placement::Cylinders { low, high })
    }

    fn with_placement(placement: Placement) -> (r: Self)
        ensures
            r == default_partition(placement),
    {
        PartitionSpec {
            placement,
            name: None,
            bootable: false,
            no_automount: false,
            boot_pri: 0,
            dos_type: envec_defaults::DOS_TYPE,
            size_block_longs: None,
            sec_org: envec_defaults::SEC_ORG,
            sectors_per_block: envec_defaults::SECTORS_PER_BLOCK,
            reserved: envec_defaults::RESERVED,
            pre_alloc: envec_defaults::PRE_ALLOC,
            interleave: envec_defaults::INTERLEAVE,
            num_buffers: envec_defaults::NUM_BUFFERS,
            buf_mem_type: envec_defaults::BUF_MEM_TYPE,
            max_transfer: envec_defaults::MAX_TRANSFER,
            mask: envec_defaults::MASK,
        }
    }

    /// The name asked for, if one was.
    pub open spec fn explicit_name(self) -> Option<Seq<char>> {
        match self.name {
            Some(n) => Some(n@),
            None => None,
        }
    }

    /// Set `pb_DriveName` explicitly instead of taking an assigned one.
    pub fn named(self, name: &str) -> (r: Self)
        ensures
            r.explicit_name() == Some(name@),
            r == (PartitionSpec { name: r.name, ..self }),
    {
        PartitionSpec { name: Some(String::from_str(name)), ..self }
    }

    /// Set `de_DosType`.
    pub fn dos_type(self, dos_type: u32) -> (r: Self)
        ensures
            r == (PartitionSpec { dos_type, ..self }),
    {
        PartitionSpec { dos_type, ..self }
    }

    /// Mark the partition bootable with the given `de_BootPri`.
    pub fn bootable(self, boot_pri: i32) -> (r: Self)
        ensures
            r == (PartitionSpec { bootable: true, boot_pri, ..self }),
    {
        PartitionSpec { bootable: true, boot_pri, ..self }
    }

    /// Set `de_SizeBlock` in longwords.
    pub fn size_block_longs(self, longs: u32) -> (r: Self)
        ensures
            r == (PartitionSpec { size_block_longs: Some(longs), ..self }),
    {
        PartitionSpec { size_block_longs: Some(longs), ..self }
    }
}

} // verus!
