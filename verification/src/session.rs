//! What the graphical front end shows, and how that changes.

use vstd::prelude::*;

use crate::aggregate;
use crate::arena;
use crate::file_ops;
use crate::file_ops::{DeleteMode, DeleteTarget, TargetView};
use crate::node::{NodeId, NodeKind};
use crate::paths;
use crate::presentation;
use crate::scan::{FilesystemScan, ScanResult};
use crate::text;
use crate::text::SLASH;
use crate::tree_model;
use crate::tree_model::TreeModel;
use crate::treemap::viewport::TreemapViewport;
use crate::volumes;
use crate::volumes::Volume;

verus! {

/// A scanned volume.
#[derive(Debug)]
pub struct ReadyState {
    pub device: Vec<u8>,
    pub mount_point: Option<Vec<u8>>,
    /// Number of the device that is mounted there.
    pub mount_device: Option<u64>,
    pub scan: FilesystemScan,
    pub selected: NodeId,
    pub tree: TreeModel,
    pub treemap: TreemapViewport,
    /// How long the scan took, in nanoseconds.
    pub elapsed: u128,
}

/// A result that can be browsed and whose nodes have their parents.
pub open spec fn displayable(result: ScanResult) -> bool {
    &&& result.browsable()
    &&& aggregate::parents_exist(result.arena.node_list())
}

/// Whether a result can be displayed.
pub fn is_displayable(result: &ScanResult) -> (is: bool)
    ensures
        is == displayable(*result),
{
    let nodes = result.arena.nodes();
    let count: usize = nodes.len();
    if count == 0 || count as u64 > 0x1_0000_0000 || result.totals.len() != count {
        return false;
    }
    let stored: usize = result.arena.names().len();
    let mut i: usize = 0;
    while i < count
        invariant
            i <= count,
            count == nodes@.len(),
            nodes@ == result.arena.node_list(),
            stored == result.arena.name_bytes().len(),
            forall|a: int, b: int|
                1 <= a <= b < i ==> (#[trigger] nodes@[a]).parent.0 <= (
                #[trigger] nodes@[b]).parent.0,
            forall|k: int|
                0 <= k < i ==> arena::name_stored(
                    result.arena.name_bytes(),
                    (#[trigger] nodes@[k]).name,
                ),
            forall|k: int| 1 <= k < i ==> (#[trigger] nodes@[k]).parent.0 < count,
        decreases count - i,
    {
        let node = nodes[i];
        if node.name.offset as u64 + node.name.len as u64 > stored as u64 {
            assert(!arena::name_stored(result.arena.name_bytes(), nodes@[i as int].name));
            return false;
        }
        if i > 0 && node.parent.index() >= count {
            assert(nodes@[i as int].parent.0 >= count);
            return false;
        }
        if i > 1 && node.parent.0 < nodes[i - 1].parent.0 {
            assert(nodes@[i - 1].parent.0 > nodes@[i as int].parent.0);
            return false;
        }
        i = i + 1;
    }
    true
}

impl ReadyState {
    /// The tree and the map show the scan, and the selection is one of its nodes.
    pub open spec fn valid(self) -> bool {
        &&& displayable(self.scan.result)
        &&& self.tree.shows(self.scan.result)
        &&& self.treemap.valid()
        &&& self.selected.0 < self.scan.result.arena.node_list().len()
    }

    /// The rows are those of the directories that are expanded.
    pub open spec fn rows_follow(self) -> bool {
        self.tree.row_list() == tree_model::tree_rows(self.scan.result, self.tree.expanded_ids())
    }

    /// A scan of which the root is selected and expanded.
    pub fn new(
        device: Vec<u8>,
        mount_point: Option<Vec<u8>>,
        mount_device: Option<u64>,
        scan: FilesystemScan,
        elapsed: u128,
    ) -> (ready: ReadyState)
        requires
            displayable(scan.result),
        ensures
            ready.valid(),
            ready.device == device,
            ready.mount_point == mount_point,
            ready.mount_device == mount_device,
            ready.scan == scan,
            ready.selected == NodeId(0),
            ready.tree.expanded_ids() == Set::<u32>::empty().insert(0),
            ready.rows_follow(),
            ready.treemap.root == NodeId(0),
            ready.treemap.kept@ == seq![NodeId(0)],
            ready.elapsed == elapsed,
    {
        let tree = TreeModel::new(&scan);
        ReadyState {
            device,
            mount_point,
            mount_device,
            scan,
            selected: NodeId::root(),
            tree,
            treemap: TreemapViewport::new(),
            elapsed,
        }
    }

    /// Everything but the selection and the tree is as in `before`.
    pub open spec fn keeps(self, before: ReadyState) -> bool {
        &&& self.device == before.device
        &&& self.mount_point == before.mount_point
        &&& self.mount_device == before.mount_device
        &&& self.scan == before.scan
        &&& self.treemap == before.treemap
        &&& self.elapsed == before.elapsed
    }

    /// Selects a node.
    pub fn select(&mut self, id: NodeId)
        requires
            old(self).valid(),
            id.0 < old(self).scan.result.arena.node_list().len(),
        ensures
            final(self).valid(),
            final(self).keeps(*old(self)),
            final(self).tree == old(self).tree,
            final(self).selected == id,
    {
        self.selected = id;
    }

    /// Expands or collapses a directory and selects it, if it has anything to show.
    pub fn toggle_directory(&mut self, id: NodeId) -> (toggled: bool)
        requires
            old(self).valid(),
            id.0 < old(self).scan.result.arena.node_list().len(),
        ensures
            final(self).valid(),
            final(self).keeps(*old(self)),
            final(self).rows_follow(),
            toggled == tree_model::can_expand(old(self).scan.result.arena.node_list(), id),
            toggled ==> {
                &&& final(self).selected == id
                &&& final(self).tree.expanded_ids() == if old(
                    self,
                ).tree.expanded_ids().contains(id.0) {
                    old(self).tree.expanded_ids().remove(id.0)
                } else {
                    old(self).tree.expanded_ids().insert(id.0)
                }
            },
            !toggled ==> {
                &&& final(self).selected == old(self).selected
                &&& final(self).tree.expanded_ids() == old(self).tree.expanded_ids()
            },
    {
        if !self.tree.toggle(&self.scan, id) {
            return false;
        }
        self.selected = id;
        true
    }

    /// Selects a node and expands everything above it. Returns its row, if it is among those
    /// listed.
    pub fn reveal_node(&mut self, id: NodeId) -> (position: Option<usize>)
        requires
            old(self).valid(),
            id.0 < old(self).scan.result.arena.node_list().len(),
        ensures
            final(self).valid(),
            final(self).keeps(*old(self)),
            final(self).rows_follow(),
            final(self).selected == id,
            forall|other: u32|
                final(self).tree.expanded_ids().contains(other) <==> old(
                    self,
                ).tree.expanded_ids().contains(other) || (other != id.0 && tree_model::chain_of(
                    old(self).scan.result.arena.node_list(),
                    id,
                ).contains(NodeId(other))),
            match position {
                Some(position) => tree_model::last_row_of(
                    final(self).tree.row_list(),
                    id,
                    position as int,
                ),
                None => !tree_model::is_listed(final(self).tree.row_list(), id),
            },
    {
        self.selected = id;
        self.tree.reveal_node(&self.scan, id)
    }

    /// Collapses everything but the root, and selects the root.
    pub fn collapse_all(&mut self)
        requires
            old(self).valid(),
        ensures
            final(self).valid(),
            final(self).keeps(*old(self)),
            final(self).rows_follow(),
            final(self).selected == NodeId(0),
            final(self).tree.expanded_ids() == Set::<u32>::empty().insert(0),
    {
        self.tree.collapse_all(&self.scan);
        self.selected = NodeId::root();
    }
}

/// An item that was chosen to be deleted.
#[derive(Debug)]
pub struct DeleteSelection {
    pub target: DeleteTarget,
    /// Device of the volume that holds the item.
    pub device: Vec<u8>,
    pub name: String,
    pub is_directory: bool,
}

/// A chosen item as a value.
#[verifier::ext_equal]
pub struct SelectionView {
    pub target: TargetView,
    pub device: Seq<u8>,
    pub name: Seq<char>,
    pub is_directory: bool,
}

impl View for DeleteSelection {
    type V = SelectionView;

    open spec fn view(&self) -> SelectionView {
        SelectionView {
            target: self.target@,
            device: self.device@,
            name: self.name@,
            is_directory: self.is_directory,
        }
    }
}

/// A chosen item as a value, if there is one.
pub open spec fn selection_view(selection: Option<DeleteSelection>) -> Option<SelectionView> {
    match selection {
        Some(selection) => Some(selection@),
        None => None,
    }
}

impl DeleteSelection {
    /// A copy of the selection.
    pub fn duplicate(&self) -> (copy: DeleteSelection)
        ensures
            copy@ == self@,
            self.target.wf() ==> copy.target.wf(),
    {
        DeleteSelection {
            target: self.target.duplicate(),
            device: text::copy_bytes(self.device.as_slice()),
            name: self.name.clone(),
            is_directory: self.is_directory,
        }
    }
}

/// The path of a node on its volume.
pub open spec fn path_on_volume(result: ScanResult, id: NodeId) -> Seq<u8> {
    arena::path_of(result.arena.node_list(), result.arena.name_bytes(), id.0 as int)
}

/// The path without the slash that it starts with.
pub open spec fn without_slash(path: Seq<u8>) -> Option<Seq<u8>> {
    if path.len() > 0 && path[0] == SLASH {
        Some(path.skip(1))
    } else {
        None
    }
}

fn strip_slash(path: &Vec<u8>) -> (stripped: Option<Vec<u8>>)
    ensures
        volumes::path_view(stripped) == without_slash(path@),
{
    if path.len() > 0 && path[0] == SLASH {
        let stripped = text::copy_bytes(
            vstd::slice::slice_subrange(path.as_slice(), 1, path.len()),
        );
        assert(stripped@ =~= path@.skip(1));
        Some(stripped)
    } else {
        None
    }
}

impl ReadyState {
    /// What deleting a node would delete. The root cannot be deleted, nor can anything on a volume
    /// that is not mounted, nor a path that could lead elsewhere.
    pub open spec fn deletable(self, id: NodeId) -> Option<SelectionView> {
        let nodes = self.scan.result.arena.node_list();
        match (
            volumes::path_view(self.mount_point),
            self.mount_device,
            without_slash(path_on_volume(self.scan.result, id)),
        ) {
            (Some(mount_point), Some(expected_device), Some(relative_path)) => {
                if id != NodeId(0) && id.0 < nodes.len() && paths::absolute(mount_point)
                    && file_ops::safe(relative_path) {
                    let node = nodes[id.0 as int];
                    Some(
                        SelectionView {
                            target: TargetView {
                                mount_point,
                                relative_path,
                                expected_device,
                                expected_inode: node.inode,
                                expected_kind: node.kind,
                            },
                            device: self.device@,
                            name: text::lossy_text(
                                arena::name_at(self.scan.result.arena.name_bytes(), node.name),
                            ),
                            is_directory: node.kind == NodeKind::Directory,
                        },
                    )
                } else {
                    None
                }
            },
            _ => None,
        }
    }

    /// What deleting a node would delete.
    pub fn delete_selection(&self, id: NodeId) -> (selection: Option<DeleteSelection>)
        requires
            self.valid(),
        ensures
            selection_view(selection) == self.deletable(id),
            selection is Some ==> selection->0.target.wf(),
    {
        if id == NodeId::root() {
            return None;
        }
        let mount_point = match &self.mount_point {
            Some(path) => text::copy_bytes(path.as_slice()),
            None => {
                return None;
            },
        };
        let mount_device: u64 = match self.mount_device {
            Some(device) => device,
            None => {
                return None;
            },
        };
        let nodes = self.scan.result.arena.nodes();
        if id.index() >= nodes.len() {
            return None;
        }
        let node = nodes[id.index()];
        proof {
            arena::law_trail_stored(
                nodes@,
                self.scan.result.arena.name_bytes(),
                id.0 as int,
                nodes@.len(),
            );
        }
        let path = self.scan.result.arena.path_bytes(id);
        let relative_path = match strip_slash(&path) {
            Some(path) => path,
            None => {
                return None;
            },
        };
        match DeleteTarget::new(mount_point, relative_path, mount_device, node.inode, node.kind) {
            Ok(target) => Some(
                DeleteSelection {
                    target,
                    device: text::copy_bytes(self.device.as_slice()),
                    name: text::from_utf8_lossy(self.scan.result.arena.name(id)),
                    is_directory: node.kind == NodeKind::Directory,
                },
            ),
            Err(_) => None,
        }
    }

    /// Where a node is found in the file system of the machine, if its volume is mounted.
    pub open spec fn mounted_path(self, id: NodeId) -> Option<Seq<u8>> {
        match volumes::path_view(self.mount_point) {
            None => None,
            Some(mount_point) => if id == NodeId(0) {
                Some(mount_point)
            } else {
                match without_slash(path_on_volume(self.scan.result, id)) {
                    None => None,
                    Some(relative) => Some(paths::joined(mount_point, relative)),
                }
            },
        }
    }

    /// Where a node is found in the file system of the machine.
    pub fn explorer_path(&self, id: NodeId) -> (path: Option<Vec<u8>>)
        requires
            self.valid(),
            id.0 < self.scan.result.arena.node_list().len(),
        ensures
            volumes::path_view(path) == self.mounted_path(id),
    {
        let mount_point = match &self.mount_point {
            Some(path) => path,
            None => {
                return None;
            },
        };
        if id == NodeId::root() {
            return Some(text::copy_bytes(mount_point.as_slice()));
        }
        proof {
            arena::law_trail_stored(
                self.scan.result.arena.node_list(),
                self.scan.result.arena.name_bytes(),
                id.0 as int,
                self.scan.result.arena.node_list().len(),
            );
        }
        let path = self.scan.result.arena.path_bytes(id);
        match strip_slash(&path) {
            Some(relative) => Some(paths::join(mount_point.as_slice(), relative.as_slice())),
            None => None,
        }
    }
}

/// What is being deleted.
#[derive(Debug)]
pub struct DeleteProgress {
    pub name: String,
    pub mode: DeleteMode,
}

/// What the window shows.
#[derive(Debug)]
pub enum Stage {
    /// The volumes to choose from.
    Picker,
    Scanning { device: Vec<u8> },
    Ready(ReadyState),
    Failed { device: Vec<u8>, message: String },
}

/// A scan to run.
#[derive(Debug)]
pub struct ScanRequest {
    pub device: Vec<u8>,
    pub mount_point: Option<Vec<u8>>,
    /// What to open: the scan path of the volume, or else its device.
    pub scan_path: Vec<u8>,
}

/// What came of deleting an item.
#[derive(Debug)]
pub struct DeleteNotice {
    pub success: bool,
    pub message: String,
    /// The volume is still shown and has to be scanned anew.
    pub rescan: bool,
}

/// Which entries of the menu of an item cannot be used.
#[derive(Clone, Copy, Debug, PartialEq, Eq, Structural)]
pub struct MenuState {
    pub open_disabled: bool,
    pub delete_disabled: bool,
}

/// The state of the front end.
#[derive(Debug)]
pub struct Session {
    pub volumes: Vec<Volume>,
    pub selected_volume: usize,
    pub stage: Stage,
    pub delete_confirmation: Option<DeleteSelection>,
    pub deletion: Option<DeleteProgress>,
}

impl Session {
    /// What is shown of a scanned volume is sound.
    pub open spec fn valid(self) -> bool {
        match self.stage {
            Stage::Ready(ready) => ready.valid(),
            _ => true,
        }
    }

    /// Choosing among volumes.
    pub fn new(volumes: Vec<Volume>) -> (session: Session)
        ensures
            session == (Session {
                volumes,
                selected_volume: 0,
                stage: Stage::Picker,
                delete_confirmation: None,
                deletion: None,
            }),
    {
        Session {
            volumes,
            selected_volume: 0,
            stage: Stage::Picker,
            delete_confirmation: None,
            deletion: None,
        }
    }

    /// Starts to scan the selected volume, if there is one.
    pub fn start_scan(&mut self) -> (request: Option<ScanRequest>)
        requires
            old(self).valid(),
        ensures
            final(self).valid(),
            final(self).volumes == old(self).volumes,
            final(self).selected_volume == old(self).selected_volume,
            final(self).deletion == old(self).deletion,
            match request {
                None => old(self).selected_volume >= old(self).volumes@.len() && *final(self)
                    == *old(self),
                Some(request) => {
                    let volume = old(self).volumes@[old(self).selected_volume as int]@;
                    &&& old(self).selected_volume < old(self).volumes@.len()
                    &&& request.device@ == volume.device
                    &&& volumes::path_view(request.mount_point) == volume.mount_point
                    &&& request.scan_path@ == match volume.scan_path {
                        Some(path) => path,
                        None => volume.device,
                    }
                    &&& final(self).delete_confirmation is None
                    &&& final(self).stage matches Stage::Scanning { device } && device@
                        == volume.device
                },
            },
    {
        if self.selected_volume >= self.volumes.len() {
            return None;
        }
        let volume = self.volumes[self.selected_volume].duplicate();
        let device = text::copy_bytes(volume.device.as_slice());
        let scan_path = match volume.scan_path {
            Some(path) => path,
            None => text::copy_bytes(volume.device.as_slice()),
        };
        self.delete_confirmation = None;
        self.stage = Stage::Scanning { device };
        Some(ScanRequest { device: volume.device, mount_point: volume.mount_point, scan_path })
    }

    /// The device that is being scanned, or nothing.
    pub open spec fn scanned_device(self) -> Seq<u8> {
        match self.stage {
            Stage::Scanning { device } => device@,
            _ => Seq::empty(),
        }
    }

    /// Everything but the stage is as in `before`.
    pub open spec fn keeps_but_stage(self, before: Session) -> bool {
        &&& self.volumes == before.volumes
        &&& self.selected_volume == before.selected_volume
        &&& self.delete_confirmation == before.delete_confirmation
        &&& self.deletion == before.deletion
    }

    /// Shows what came of a scan.
    pub fn finish_scan(&mut self, outcome: Result<ReadyState, String>)
        requires
            old(self).valid(),
            outcome is Ok ==> outcome->Ok_0.valid(),
        ensures
            final(self).valid(),
            final(self).keeps_but_stage(*old(self)),
            match outcome {
                Ok(ready) => final(self).stage == Stage::Ready(ready),
                Err(message) => final(self).stage matches Stage::Failed { device, message: shown }
                    && device@ == old(self).scanned_device() && shown == message,
            },
    {
        match outcome {
            Ok(ready) => {
                self.stage = Stage::Ready(ready);
            },
            Err(message) => {
                let device: Vec<u8> = match &self.stage {
                    Stage::Scanning { device } => text::copy_bytes(device.as_slice()),
                    _ => Vec::new(),
                };
                assert(device@ =~= self.scanned_device());
                self.stage = Stage::Failed { device, message };
            },
        }
    }

    /// Goes back to choosing among volumes.
    pub fn show_picker(&mut self)
        ensures
            *final(self) == (Session {
                stage: Stage::Picker,
                delete_confirmation: None,
                ..*old(self)
            }),
    {
        self.delete_confirmation = None;
        self.stage = Stage::Picker;
    }

    /// The device that the window names.
    pub fn shown_device(&self) -> (device: Option<Vec<u8>>)
        ensures
            volumes::path_view(device) == match self.stage {
                Stage::Picker => None::<Seq<u8>>,
                Stage::Scanning { device } => Some(device@),
                Stage::Ready(ready) => Some(ready.device@),
                Stage::Failed { device, message: _ } => Some(device@),
            },
    {
        match &self.stage {
            Stage::Picker => None,
            Stage::Scanning { device } => Some(text::copy_bytes(device.as_slice())),
            Stage::Ready(ready) => Some(text::copy_bytes(ready.device.as_slice())),
            Stage::Failed { device, message: _ } => Some(text::copy_bytes(device.as_slice())),
        }
    }

    /// Asks whether to delete an item for good, unless another one is being deleted.
    pub fn request_permanent_delete(&mut self, selection: DeleteSelection)
        ensures
            *final(self) == if old(self).deletion is Some {
                *old(self)
            } else {
                Session { delete_confirmation: Some(selection), ..*old(self) }
            },
    {
        if self.deletion.is_some() {
            return;
        }
        self.delete_confirmation = Some(selection);
    }

    /// Leaves the item as it is.
    pub fn cancel_permanent_delete(&mut self)
        ensures
            *final(self) == (Session { delete_confirmation: None, ..*old(self) }),
    {
        self.delete_confirmation = None;
    }

    /// Starts to delete an item, unless another one is being deleted. Returns whether the item is
    /// to be deleted.
    pub fn begin_delete(&mut self, selection: &DeleteSelection, mode: DeleteMode) -> (begun: bool)
        ensures
            begun == (old(self).deletion is None),
            !begun ==> *final(self) == *old(self),
            begun ==> {
                &&& final(self).volumes == old(self).volumes
                &&& final(self).selected_volume == old(self).selected_volume
                &&& final(self).stage == old(self).stage
                &&& final(self).delete_confirmation is None
                &&& final(self).deletion matches Some(progress) && progress.name@
                    == selection.name@ && progress.mode == mode
            },
    {
        if self.deletion.is_some() {
            return false;
        }
        self.delete_confirmation = None;
        self.deletion = Some(DeleteProgress { name: selection.name.clone(), mode });
        true
    }

    /// The volume of the selection is still shown.
    pub open spec fn still_shows(self, device: Seq<u8>) -> bool {
        match self.stage {
            Stage::Ready(ready) => paths::pieces(ready.device@) == paths::pieces(device),
            _ => false,
        }
    }

    /// Reports what came of deleting an item.
    pub fn finish_delete(
        &mut self,
        selection: &DeleteSelection,
        mode: DeleteMode,
        result: Result<(), String>,
    ) -> (notice: DeleteNotice)
        ensures
            *final(self) == (Session { deletion: None, ..*old(self) }),
            notice.success == (result is Ok),
            notice.rescan == (result is Ok && old(self).still_shows(selection.device@)),
            notice.message@ == match result {
                Ok(_) => presentation::deleted_words(mode, selection.name@),
                Err(error) => presentation::undeleted_words(mode, selection.name@, error@),
            },
    {
        self.deletion = None;
        match result {
            Ok(_) => {
                let rescan = match &self.stage {
                    Stage::Ready(ready) => paths::same_path(
                        ready.device.as_slice(),
                        selection.device.as_slice(),
                    ),
                    _ => false,
                };
                DeleteNotice {
                    success: true,
                    message: presentation::deleted_text(mode, selection.name.as_str()),
                    rescan,
                }
            },
            Err(error) => DeleteNotice {
                success: false,
                message: presentation::undeleted_text(
                    mode,
                    selection.name.as_str(),
                    error.as_str(),
                ),
                rescan: false,
            },
        }
    }

    /// Which entries of the menu of an item cannot be used: none while an item is being deleted,
    /// and not those that have nothing to act on.
    pub fn menu_state(&self, has_path: bool, has_selection: bool) -> (state: MenuState)
        ensures
            state.open_disabled == (self.deletion is Some || !has_path),
            state.delete_disabled == (self.deletion is Some || !has_selection),
    {
        let busy = self.deletion.is_some();
        MenuState { open_disabled: busy || !has_path, delete_disabled: busy || !has_selection }
    }
}

/// The path that the file browser opens for an item: a directory itself, otherwise what lies around
/// it, if there is anything.
pub fn browsed_path(path: Vec<u8>, parent: Option<Vec<u8>>, is_dir: bool) -> (browsed: Vec<u8>)
    ensures
        browsed@ == match parent {
            Some(parent) if !is_dir => parent@,
            _ => path@,
        },
{
    if is_dir {
        return path;
    }
    match parent {
        Some(parent) => parent,
        None => path,
    }
}

/// The root of a volume is never deleted.
pub proof fn law_root_is_not_deletable(ready: ReadyState)
    ensures
        ready.deletable(NodeId(0)) is None,
{
}

/// On a volume that is not mounted nothing is deleted.
pub proof fn law_unmounted_volumes_keep_their_items(ready: ReadyState, id: NodeId)
    requires
        ready.mount_point is None || ready.mount_device is None,
    ensures
        ready.deletable(id) is None,
{
}

/// What would be deleted lies below the mount point of the volume: its path is where the file
/// browser finds the node.
pub proof fn law_deletion_stays_on_the_volume(ready: ReadyState, id: NodeId)
    requires
        ready.deletable(id) is Some,
    ensures
        ({
            let target = (ready.deletable(id)->0).target;
            &&& ready.mounted_path(id) == Some(
                paths::joined(target.mount_point, target.relative_path),
            )
            &&& file_ops::safe(target.relative_path)
            &&& paths::absolute(target.mount_point)
        }),
{
}

/// What would be deleted is the item as the scan saw it: its inode and kind, on the device that was
/// mounted, at its path on the volume. Everything but the root can be deleted on a mounted volume
/// whose device is known, as long as its path is safe.
pub proof fn law_deletion_takes_the_scanned_item(ready: ReadyState, id: NodeId)
    requires
        ready.mount_point is Some,
        ready.mount_device is Some,
        paths::absolute(ready.mount_point->0@),
        0 < id.0 < ready.scan.result.arena.node_list().len(),
        ({
            let path = path_on_volume(ready.scan.result, id);
            path.len() > 0 && path[0] == 0x2f && file_ops::safe(path.skip(1))
        }),
    ensures
        ready.deletable(id) is Some,
        ({
            let selection = ready.deletable(id)->0;
            let node = ready.scan.result.arena.node_list()[id.0 as int];
            let path = path_on_volume(ready.scan.result, id);
            &&& selection.target.mount_point == ready.mount_point->0@
            &&& seq![0x2fu8] + selection.target.relative_path == path
            &&& selection.target.expected_device == ready.mount_device->0
            &&& selection.target.expected_inode == node.inode
            &&& selection.target.expected_kind == node.kind
            &&& selection.is_directory <==> node.kind == NodeKind::Directory
            &&& selection.device == ready.device@
            &&& selection.name == text::lossy_text(
                arena::name_at(ready.scan.result.arena.name_bytes(), node.name),
            )
        }),
{
    let path = path_on_volume(ready.scan.result, id);
    assert(seq![0x2fu8] + path.skip(1) =~= path);
}

/// The file browser finds the root of a volume at its mount point and every other item behind it;
/// what is not mounted is not found.
pub proof fn law_items_are_found_below_the_mount(ready: ReadyState, id: NodeId)
    ensures
        ready.mount_point is None ==> ready.mounted_path(id) is None,
        ready.mount_point is Some ==> ready.mounted_path(NodeId(0)) == Some(ready.mount_point->0@),
        ready.mounted_path(id) is Some && id.0 != 0 ==> exists|relative: Seq<u8>|
            {
                &&& path_on_volume(ready.scan.result, id) == seq![0x2fu8] + relative
                &&& ready.mounted_path(id) == Some(
                    #[trigger] paths::joined(ready.mount_point->0@, relative),
                )
            },
{
    if ready.mounted_path(id) is Some && id.0 != 0 {
        let path = path_on_volume(ready.scan.result, id);
        assert(seq![0x2fu8] + path.skip(1) =~= path);
        assert(ready.mounted_path(id) == Some(
            paths::joined(ready.mount_point->0@, path.skip(1)),
        ));
    }
}

/// A failed scan names the device that was being scanned.
pub proof fn law_failures_name_the_scanned_device(session: Session, device: Vec<u8>)
    requires
        session.stage == (Stage::Scanning { device }),
    ensures
        session.scanned_device() == device@,
{
}

/// A volume is still shown exactly if its scan is, whatever the spelling of its path; while another
/// one is chosen or scanned, it is not.
pub proof fn law_shown_volumes_are_recognised(session: Session, device: Seq<u8>)
    ensures
        session.stage matches Stage::Ready(ready) && ready.device@ == device
            ==> session.still_shows(device),
        session.stage matches Stage::Ready(ready) && paths::pieces(ready.device@)
            != paths::pieces(device) ==> !session.still_shows(device),
        session.stage is Picker || session.stage is Scanning || session.stage is Failed
            ==> !session.still_shows(device),
{
}

/// Browsing changes neither the scan nor what is known of the volume, and showing the outcome of a
/// scan changes nothing but the stage.
pub proof fn law_browsing_keeps_the_volume(
    now: ReadyState,
    before: ReadyState,
    after: Session,
    session: Session,
)
    ensures
        now.keeps(before) ==> now.scan == before.scan && now.device == before.device
            && now.mount_point == before.mount_point && now.mount_device == before.mount_device
            && now.treemap == before.treemap && now.elapsed == before.elapsed,
        after.keeps_but_stage(session) ==> after == (Session { stage: after.stage, ..session }),
{
}

} // verus!
