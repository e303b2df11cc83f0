//! Deleting items of a mounted volume.

use vstd::prelude::*;

use crate::failure::IoError;
use crate::node::NodeKind;
use crate::paths;
use crate::paths::{Component, Piece};
use crate::text;

verus! {

/// How an item is deleted.
#[derive(Clone, Copy, Debug, Eq, PartialEq, Structural)]
pub enum DeleteMode {
    Trash,
    Permanent,
}

/// Why an item was not deleted.
#[derive(Debug)]
pub struct DeleteError {
    pub message: String,
}

impl DeleteError {
    /// An error with this message.
    pub fn new(message: &str) -> (error: DeleteError)
        ensures
            error.message@ == message@,
    {
        DeleteError { message: String::from_str(message) }
    }
}

/// An item to delete, as the scan saw it.
#[derive(Debug)]
pub struct DeleteTarget {
    mount_point: Vec<u8>,
    relative_path: Vec<u8>,
    expected_device: u64,
    expected_inode: u64,
    expected_kind: NodeKind,
}

/// A target as a value.
#[verifier::ext_equal]
pub struct TargetView {
    pub mount_point: Seq<u8>,
    pub relative_path: Seq<u8>,
    pub expected_device: u64,
    pub expected_inode: u64,
    pub expected_kind: NodeKind,
}

impl View for DeleteTarget {
    type V = TargetView;

    closed spec fn view(&self) -> TargetView {
        TargetView {
            mount_point: self.mount_point@,
            relative_path: self.relative_path@,
            expected_device: self.expected_device,
            expected_inode: self.expected_inode,
            expected_kind: self.expected_kind,
        }
    }
}

/// A path made of names alone.
pub open spec fn names_only(path: Seq<u8>) -> bool {
    forall|i: int| 0 <= i < paths::pieces(path).len() ==> #[trigger] paths::pieces(path)[i] is Name
}

/// A relative path that leads to something below where it starts.
pub open spec fn safe(path: Seq<u8>) -> bool {
    path.len() > 0 && names_only(path)
}

/// The error of a system call in words.
pub open spec fn io_text(action: Seq<char>, error: IoError) -> Seq<char> {
    if error.permission_denied {
        action
            + ": permission denied. Akimi does not have permission to delete this item"@
    } else {
        action + ": "@ + error.message@
    }
}

/// The error of a system call.
pub fn io_error(action: &str, error: &IoError) -> (result: DeleteError)
    ensures
        result.message@ == io_text(action@, *error),
{
    let mut message = String::from_str(action);
    if error.permission_denied {
        message.append(": permission denied. Akimi does not have permission to delete this item");
    } else {
        message.append(": ");
        message.append(error.message.as_str());
    }
    DeleteError { message }
}

/// What the system says of the mount point of a volume.
#[derive(Clone, Copy, Debug, Eq, PartialEq, Structural)]
pub struct MountStatus {
    pub is_dir: bool,
    pub device: u64,
}

/// What the system says of an item.
#[derive(Clone, Copy, Debug, Eq, PartialEq, Structural)]
pub struct ItemStatus {
    pub device: u64,
    pub inode: u64,
    pub kind: NodeKind,
}

/// What to ask of the system.
#[derive(Clone, Copy, Debug, Eq, PartialEq, Structural)]
pub enum DeleteAction {
    MoveToTrash,
    RemoveDirectory,
    RemoveFile,
}

impl DeleteTarget {
    /// An item of the volume at `mount_point`. Its path may not lead out of the volume.
    pub fn new(
        mount_point: Vec<u8>,
        relative_path: Vec<u8>,
        expected_device: u64,
        expected_inode: u64,
        expected_kind: NodeKind,
    ) -> (result: Result<DeleteTarget, DeleteError>)
        ensures
            match result {
                Ok(target) => {
                    &&& paths::absolute(mount_point@)
                    &&& safe(relative_path@)
                    &&& target.wf()
                    &&& target@ == TargetView {
                        mount_point: mount_point@,
                        relative_path: relative_path@,
                        expected_device,
                        expected_inode,
                        expected_kind,
                    }
                },
                Err(error) => if paths::absolute(mount_point@) {
                    !safe(relative_path@) && error.message@
                        == "the selected path is not safe to delete"@
                } else {
                    error.message@ == "the mount point is not absolute"@
                },
            },
    {
        if !paths::is_absolute(mount_point.as_slice()) {
            return Err(DeleteError::new("the mount point is not absolute"));
        }
        let components = paths::components(relative_path.as_slice());
        let ghost pieces = paths::pieces(relative_path@);
        let mut only_names: bool = true;
        let mut i: usize = 0;
        assert(components.len() == pieces.len());
        while i < components.len()
            invariant
                i <= components.len(),
                components.len() == pieces.len(),
                paths::piece_views(components@) == pieces,
                pieces == paths::pieces(relative_path@),
                only_names == forall|k: int| 0 <= k < i ==> #[trigger] pieces[k] is Name,
            decreases components.len() - i,
        {
            assert(pieces[i as int] == components@[i as int]@);
            if !matches!(components[i], Component::Name(_)) {
                only_names = false;
                assert(!(pieces[i as int] is Name));
            }
            i = i + 1;
        }
        if relative_path.len() == 0 || !only_names {
            return Err(DeleteError::new("the selected path is not safe to delete"));
        }
        Ok(
            DeleteTarget {
                mount_point,
                relative_path,
                expected_device,
                expected_inode,
                expected_kind,
            },
        )
    }

    /// The target lies below an absolute mount point.
    pub open spec fn wf(self) -> bool {
        paths::absolute(self@.mount_point) && safe(self@.relative_path)
    }

    /// The path of the volume.
    pub fn mount_point(&self) -> (path: &[u8])
        ensures
            path@ == self@.mount_point,
    {
        self.mount_point.as_slice()
    }

    /// The path of the item.
    pub fn path(&self) -> (path: Vec<u8>)
        ensures
            path@ == paths::joined(self@.mount_point, self@.relative_path),
    {
        paths::join(self.mount_point.as_slice(), self.relative_path.as_slice())
    }

    /// Checks that the volume is still the one that was scanned, and returns the path of the item.
    pub fn check_mount(&self, status: Result<MountStatus, IoError>) -> (result: Result<
        Vec<u8>,
        DeleteError,
    >)
        requires
            self.wf(),
        ensures
            match (status, result) {
                (Ok(mount), Ok(path)) => {
                    &&& mount.is_dir
                    &&& mount.device == self@.expected_device
                    &&& path@ == paths::joined(self@.mount_point, self@.relative_path)
                },
                (Ok(mount), Err(error)) => {
                    &&& !mount.is_dir || mount.device != self@.expected_device
                    &&& error.message@
                        == "the volume changed after the scan; scan it again before deleting"@
                },
                (Err(failure), Err(error)) => error.message@ == io_text(
                    "checking the mounted volume"@,
                    failure,
                ),
                (Err(_), Ok(_)) => false,
            },
    {
        let mount = match status {
            Ok(mount) => mount,
            Err(error) => return Err(io_error("checking the mounted volume", &error)),
        };
        if !mount.is_dir || mount.device != self.expected_device {
            return Err(
                DeleteError::new(
                    "the volume changed after the scan; scan it again before deleting",
                ),
            );
        }
        let path = self.path();
        proof {
            law_target_stays_below_its_mount(self@.mount_point, self@.relative_path);
        }
        if paths::same_path(path.as_slice(), self.mount_point.as_slice()) {
            return Err(DeleteError::new("the volume root cannot be deleted"));
        }
        Ok(path)
    }

    /// Checks that the item is still the one that was scanned.
    pub fn check_item(&self, status: Result<ItemStatus, IoError>) -> (result: Result<
        (),
        DeleteError,
    >)
        ensures
            match (status, result) {
                (Ok(item), Ok(())) => item == (ItemStatus {
                    device: self@.expected_device,
                    inode: self@.expected_inode,
                    kind: self@.expected_kind,
                }),
                (Ok(item), Err(error)) => {
                    &&& item != (ItemStatus {
                        device: self@.expected_device,
                        inode: self@.expected_inode,
                        kind: self@.expected_kind,
                    })
                    &&& error.message@
                        == "the selected item changed after the scan; scan it again before deleting"@
                },
                (Err(failure), Err(error)) => error.message@ == io_text(
                    "checking the selected item"@,
                    failure,
                ),
                (Err(_), Ok(())) => false,
            },
    {
        let item = match status {
            Ok(item) => item,
            Err(error) => return Err(io_error("checking the selected item", &error)),
        };
        if item.device != self.expected_device || item.inode != self.expected_inode || item.kind
            != self.expected_kind {
            return Err(
                DeleteError::new(
                    "the selected item changed after the scan; scan it again before deleting",
                ),
            );
        }
        Ok(())
    }

    /// What to ask of the system to delete the item.
    pub fn action(&self, mode: DeleteMode) -> (action: DeleteAction)
        ensures
            action == match mode {
                DeleteMode::Trash => DeleteAction::MoveToTrash,
                DeleteMode::Permanent => if self@.expected_kind == NodeKind::Directory {
                    DeleteAction::RemoveDirectory
                } else {
                    DeleteAction::RemoveFile
                },
            },
    {
        match mode {
            DeleteMode::Trash => DeleteAction::MoveToTrash,
            DeleteMode::Permanent => if self.expected_kind == NodeKind::Directory {
                DeleteAction::RemoveDirectory
            } else {
                DeleteAction::RemoveFile
            },
        }
    }

    /// A copy of the target.
    pub fn duplicate(&self) -> (copy: DeleteTarget)
        ensures
            copy@ == self@,
            self.wf() ==> copy.wf(),
    {
        DeleteTarget {
            mount_point: text::copy_bytes(self.mount_point.as_slice()),
            relative_path: text::copy_bytes(self.relative_path.as_slice()),
            expected_device: self.expected_device,
            expected_inode: self.expected_inode,
            expected_kind: self.expected_kind,
        }
    }
}

impl DeleteAction {
    /// A failure of the action in words.
    pub open spec fn failure_text(self, error: IoError) -> Seq<char> {
        match self {
            DeleteAction::MoveToTrash => "moving the item to Trash: "@ + error.message@,
            DeleteAction::RemoveDirectory => io_text("deleting the folder"@, error),
            DeleteAction::RemoveFile => io_text("deleting the file"@, error),
        }
    }

    /// The outcome of the action.
    pub fn outcome(self, result: Result<(), IoError>) -> (outcome: Result<(), DeleteError>)
        ensures
            match (result, outcome) {
                (Ok(()), Ok(())) => true,
                (Err(error), Err(reported)) => reported.message@ == self.failure_text(error),
                _ => false,
            },
    {
        match result {
            Ok(()) => Ok(()),
            Err(error) => match self {
                DeleteAction::MoveToTrash => {
                    let mut message = String::from_str("moving the item to Trash: ");
                    message.append(error.message.as_str());
                    Err(DeleteError { message })
                },
                DeleteAction::RemoveDirectory => Err(io_error("deleting the folder", &error)),
                DeleteAction::RemoveFile => Err(io_error("deleting the file", &error)),
            },
        }
    }
}

/// A safe relative path is not empty of names.
proof fn lemma_safe_has_names(path: Seq<u8>)
    requires
        safe(path),
    ensures
        !paths::absolute(path),
        !paths::starts_here(path),
        paths::pieces(path).len() >= 1,
{
    let pieces = paths::pieces(path);
    if paths::absolute(path) {
        assert(pieces[0] == Piece::Root);
    } else if paths::starts_here(path) {
        assert(pieces[0] == Piece::Current);
    } else {
        paths::law_segment_ends_at_slash(path);
        let n = paths::segment_length(path) as int;
        assert(n > 0);
        assert(path.take(n).len() == n);
        assert(paths::segment_pieces(path.take(n)).len() == 1);
    }
}

/// The path of a target consists of the mount point and at least one name behind it: it neither is
/// the mount point nor leads out of it.
pub proof fn law_target_stays_below_its_mount(mount_point: Seq<u8>, relative_path: Seq<u8>)
    requires
        paths::absolute(mount_point),
        safe(relative_path),
    ensures
        ({
            let mount = paths::pieces(mount_point);
            let path = paths::pieces(paths::joined(mount_point, relative_path));
            &&& path.len() > mount.len()
            &&& path.take(mount.len() as int) == mount
            &&& forall|i: int| mount.len() <= i < path.len() ==> #[trigger] path[i] is Name
        }),
{
    lemma_safe_has_names(relative_path);
    paths::law_join_adds_components(mount_point, relative_path);
    let mount = paths::pieces(mount_point);
    let path = paths::pieces(paths::joined(mount_point, relative_path));
    assert(path.take(mount.len() as int) =~= mount);
    assert forall|i: int| mount.len() <= i < path.len() implies #[trigger] path[i] is Name by {
        assert(path[i] == paths::pieces(relative_path)[i - mount.len()]);
    }
}

/// A path that may be deleted is relative, and no part of it leads up.
pub proof fn law_safe_paths_do_not_lead_out(path: Seq<u8>, start: int, end: int)
    requires
        safe(path),
        paths::is_segment(path, start, end),
    ensures
        path[0] != 0x2f,
        path.subrange(start, end) != seq![0x2eu8, 0x2eu8],
{
    lemma_safe_has_names(path);
    paths::law_every_segment_counts(path, start, end);
    let pieces = paths::pieces(path);
    if path.subrange(start, end) == seq![0x2eu8, 0x2eu8] {
        let k = choose|k: int| 0 <= k < pieces.len() && pieces[k] == Piece::Parent;
        assert(pieces[k] is Name);
    }
}

/// Every path of proper names may be deleted, whatever the names: hidden ones are no exception.
pub proof fn law_names_are_safe(names: Seq<Seq<u8>>)
    requires
        names.len() > 0,
        forall|i: int| 0 <= i < names.len() ==> #[trigger] paths::is_name(names[i]),
    ensures
        safe(paths::path_of_names(names).drop_first()),
{
    let path = paths::path_of_names(names);
    let relative = path.drop_first();
    paths::law_names_make_components(names);
    assert(paths::is_name(names[0]));
    assert(relative[0] == names[0][0]);
    assert(!paths::absolute(relative));
    assert(paths::segment_length(path) == 0);
    assert(path.take(0) =~= Seq::empty());
    assert(paths::behind_segment(path) =~= relative);
    assert(paths::inner_pieces(path) =~= paths::inner_pieces(relative));
    assert(paths::pieces(path) =~= seq![Piece::Root] + paths::inner_pieces(relative));
    assert(paths::inner_pieces(relative) =~= paths::name_pieces(names)) by {
        assert(paths::pieces(path).drop_first() =~= paths::inner_pieces(relative));
        assert((seq![Piece::Root] + paths::name_pieces(names)).drop_first()
            =~= paths::name_pieces(names));
    }
    if paths::starts_here(relative) {
        let length = paths::segment_length(relative) as int;
        paths::law_segment_ends_at_slash(relative);
        let first = relative.take(length);
        assert(first == seq![0x2eu8]);
        assert(first.len() == 1 && first[0] == 0x2e);
        assert(relative[0] == 0x2e);
        if names[0].len() == 1 {
            assert(names[0] =~= seq![0x2eu8]);
        } else {
            assert(relative[1] == names[0][1]);
        }
    }
}

/// A failure says what was attempted and why it failed: for want of permission, or in the words of
/// the system.
pub proof fn law_failures_are_told(action: Seq<char>, error: IoError)
    ensures
        action.is_prefix_of(io_text(action, error)),
        error.permission_denied ==> text::ends_with(
            io_text(action, error),
            ": permission denied. Akimi does not have permission to delete this item"@,
        ),
        !error.permission_denied ==> text::ends_with(io_text(action, error), error.message@),
{
    let words = io_text(action, error);
    assert(action =~= words.subrange(0, action.len() as int));
    if error.permission_denied {
        let end = ": permission denied. Akimi does not have permission to delete this item"@;
        assert(words.skip(words.len() - end.len()) =~= end);
    }
    if !error.permission_denied {
        assert(words.skip(words.len() - error.message@.len()) =~= error.message@);
    }
}

} // verus!
