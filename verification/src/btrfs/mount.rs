//! Telling btrfs filesystems from others, and opening them.

use vstd::prelude::*;

use crate::btrfs::error::BtrfsError;
use crate::scan::FilesystemInfo;
use crate::text;

verus! {

/// The number by which the system tells that a mounted filesystem is btrfs.
pub const BTRFS_SUPER_MAGIC: u64 = 0x9123_683e;

/// Where the magic bytes stand on a device.
pub const MAGIC_OFFSET: u64 = 0x10040;

/// The magic bytes of a btrfs device, `_BHRfS_M`.
pub open spec fn device_magic() -> Seq<u8> {
    seq![0x5fu8, 0x42u8, 0x48u8, 0x52u8, 0x66u8, 0x53u8, 0x5fu8, 0x4du8]
}

/// Whether the number of a mounted filesystem is that of btrfs.
pub fn is_btrfs_magic(filesystem_type: u64) -> (is_btrfs: bool)
    ensures
        is_btrfs == (filesystem_type == BTRFS_SUPER_MAGIC),
{
    filesystem_type == BTRFS_SUPER_MAGIC
}

/// Whether the bytes at the place of the magic are the magic of btrfs.
pub fn is_btrfs_device(magic: &[u8]) -> (is_btrfs: bool)
    ensures
        is_btrfs == (magic@ == device_magic()),
{
    let same: bool = magic.len() == 8 && magic[0] == 0x5f && magic[1] == 0x42 && magic[2] == 0x48
        && magic[3] == 0x52 && magic[4] == 0x66 && magic[5] == 0x53 && magic[6] == 0x5f && magic[7]
        == 0x4d;
    proof {
        if same {
            assert(magic@ =~= device_magic());
        }
    }
    same
}

/// How a btrfs filesystem is read.
#[derive(Clone, Copy, Debug, Eq, PartialEq, Structural)]
pub enum Scanner {
    /// Through tree searches.
    Direct,
    /// Directory by directory.
    Naive,
}

/// The text that selects the walk.
pub open spec fn naive_choice() -> Seq<u8> {
    seq![0x6eu8, 0x61u8, 0x69u8, 0x76u8, 0x65u8]
}

/// The scanner that a setting selects: the walk for `naive` and where nothing is set, tree searches
/// for anything else.
pub fn choose_scanner(setting: Option<&[u8]>) -> (scanner: Scanner)
    ensures
        scanner == if setting matches Some(value) && value@ != naive_choice() {
            Scanner::Direct
        } else {
            Scanner::Naive
        },
{
    match setting {
        Some(value) => {
            let naive: bool = value.len() == 5 && value[0] == 0x6e && value[1] == 0x61 && value[2]
                == 0x69 && value[3] == 0x76 && value[4] == 0x65;
            if naive {
                assert(value@ =~= naive_choice());
                Scanner::Naive
            } else {
                Scanner::Direct
            }
        },
        None => Scanner::Naive,
    }
}

/// What the system says of the path of a filesystem.
#[derive(Clone, Copy, Debug, Eq, PartialEq, Structural)]
pub struct MountMetadata {
    pub is_dir: bool,
    pub block_size: u64,
    /// The path lies on a mounted btrfs.
    pub on_btrfs: bool,
}

/// An open btrfs filesystem.
#[derive(Debug)]
pub struct BtrfsFilesystem {
    pub root: Vec<u8>,
    pub info: FilesystemInfo,
    /// How long opening took, in nanoseconds.
    pub open_time: u128,
}

impl BtrfsFilesystem {
    /// Opens the mounted directory at `root`. Devices and images are not taken, whatever they hold.
    pub fn open(root: &[u8], metadata: MountMetadata, open_time: u128) -> (result: Result<
        BtrfsFilesystem,
        BtrfsError,
    >)
        ensures
            result is Ok <==> metadata.is_dir && metadata.on_btrfs,
            match result {
                Ok(filesystem) => {
                    &&& filesystem.root@ == root@
                    &&& filesystem.open_time == open_time
                    &&& filesystem.info.device@ == root@
                    &&& filesystem.info.filesystem_type@ == "btrfs"@
                    &&& filesystem.info.block_size == if metadata.block_size == 0 {
                        1
                    } else {
                        metadata.block_size as u32
                    }
                    &&& filesystem.info.inode_count == 0
                    &&& filesystem.info.reported_allocated_inodes == 0
                    &&& filesystem.info.feature_compat == 0
                    &&& filesystem.info.feature_incompat == 0
                    &&& filesystem.info.feature_ro_compat == 0
                    &&& filesystem.info.size_accounting@
                        == "allocated blocks; reflinks and snapshots may be counted more than once"@
                },
                Err(error) => error matches BtrfsError::RequiresMountedDirectory(path) && path@
                    == root@,
            },
    {
        if !metadata.is_dir || !metadata.on_btrfs {
            return Err(BtrfsError::RequiresMountedDirectory(text::copy_bytes(root)));
        }
        let at_least_one: u64 = if metadata.block_size == 0 {
            1
        } else {
            metadata.block_size
        };
        #[verifier::truncate]
        let block_size: u32 = at_least_one as u32;
        Ok(
            BtrfsFilesystem {
                root: text::copy_bytes(root),
                info: FilesystemInfo {
                    device: text::copy_bytes(root),
                    filesystem_type: "btrfs",
                    block_size,
                    inode_count: 0,
                    reported_allocated_inodes: 0,
                    feature_compat: 0,
                    feature_incompat: 0,
                    feature_ro_compat: 0,
                    size_accounting:
                        "allocated blocks; reflinks and snapshots may be counted more than once",
                },
                open_time,
            },
        )
    }

    /// What is known of the filesystem.
    pub fn info(&self) -> (info: &FilesystemInfo)
        ensures
            *info == self.info,
    {
        &self.info
    }
}

} // verus!
