//! Filesystems of either sort.

use vstd::prelude::*;

use crate::btrfs::error::BtrfsError;
use crate::btrfs::mount::BtrfsFilesystem;
use crate::ext4::error::Ext4Error;
use crate::ext4::scan::Ext4Filesystem;
use crate::scan::FilesystemInfo;
use crate::text;

verus! {

/// Why a filesystem cannot be opened or scanned.
#[derive(Debug)]
pub enum FilesystemError {
    Ext4(Ext4Error),
    Btrfs(BtrfsError),
    UnsupportedPath { path: Vec<u8> },
}

impl FilesystemError {
    /// The failure is a lack of permission.
    pub open spec fn denied(self) -> bool {
        match self {
            FilesystemError::Ext4(error) => error.denied(),
            FilesystemError::Btrfs(error) => error.denied(),
            FilesystemError::UnsupportedPath { .. } => false,
        }
    }

    /// Whether the failure is a lack of permission.
    pub fn is_permission_denied(&self) -> (denied: bool)
        ensures
            denied == self.denied(),
    {
        match self {
            FilesystemError::Ext4(error) => error.is_permission_denied(),
            FilesystemError::Btrfs(error) => error.is_permission_denied(),
            FilesystemError::UnsupportedPath { .. } => false,
        }
    }

    /// The error in words.
    pub open spec fn words(self) -> Seq<char> {
        match self {
            FilesystemError::Ext4(error) => error.words(),
            FilesystemError::Btrfs(error) => error.words(),
            FilesystemError::UnsupportedPath { path } => text::lossy_text(path@)
                + " is not a supported filesystem path"@,
        }
    }

    /// Describes the error.
    pub fn message(&self) -> (message: String)
        ensures
            message@ == self.words(),
    {
        match self {
            FilesystemError::Ext4(error) => error.message(),
            FilesystemError::Btrfs(error) => error.message(),
            FilesystemError::UnsupportedPath { path } => {
                let mut message = text::from_utf8_lossy(path.as_slice());
                message.append(" is not a supported filesystem path");
                message
            },
        }
    }
}

/// An open filesystem.
#[derive(Debug)]
pub enum Filesystem {
    Ext4(Ext4Filesystem),
    Btrfs(BtrfsFilesystem),
}

/// Which scanner a path goes to.
#[derive(Clone, Copy, Debug, Eq, PartialEq, Structural)]
pub enum Route {
    Btrfs,
    Ext4,
    Unsupported,
}

impl Filesystem {
    /// The scanner for a path. A directory goes by the filesystem that it lies on; a device or an
    /// image goes by what it holds, wherever it is stored.
    pub fn route(is_dir: bool, on_btrfs: bool, holds_btrfs: bool) -> (route: Route)
        ensures
            route == if is_dir {
                if on_btrfs {
                    Route::Btrfs
                } else {
                    Route::Unsupported
                }
            } else if holds_btrfs {
                Route::Btrfs
            } else {
                Route::Ext4
            },
    {
        if is_dir {
            if on_btrfs {
                return Route::Btrfs;
            }
            return Route::Unsupported;
        }
        if holds_btrfs {
            return Route::Btrfs;
        }
        Route::Ext4
    }

    /// Whether this is a btrfs filesystem.
    pub fn is_btrfs(&self) -> (is_btrfs: bool)
        ensures
            is_btrfs == (self is Btrfs),
    {
        matches!(self, Filesystem::Btrfs(_))
    }

    /// What is known of the filesystem.
    pub fn info(&self) -> (info: &FilesystemInfo)
        ensures
            *info == match *self {
                Filesystem::Ext4(filesystem) => filesystem.info,
                Filesystem::Btrfs(filesystem) => filesystem.info,
            },
    {
        match self {
            Filesystem::Ext4(filesystem) => filesystem.info(),
            Filesystem::Btrfs(filesystem) => filesystem.info(),
        }
    }
}

/// A lack of permission is recognised whichever scanner met it.
pub proof fn law_denials_are_recognised(ext4: Ext4Error, btrfs: BtrfsError, path: Vec<u8>)
    ensures
        FilesystemError::Ext4(ext4).denied() == ext4.denied(),
        FilesystemError::Btrfs(btrfs).denied() == btrfs.denied(),
        !(FilesystemError::UnsupportedPath { path }).denied(),
{
}

} // verus!
