//! Storage for node names and for the nodes of one scan.

use std::ops::Range;

use vstd::prelude::*;

use crate::aggregate;
use crate::node::{NameRef, Node, NodeId};
use crate::text;

verus! {

/// Why something does not fit into an arena.
#[derive(Clone, Debug, Eq, PartialEq, Structural)]
pub enum ArenaError {
    NameTooLong(usize),
    NamesTooLarge,
    TooManyNodes,
}

impl ArenaError {
    /// The error in words.
    pub open spec fn words(self) -> Seq<char> {
        match self {
            ArenaError::NameTooLong(len) => "name is "@ + text::decimal(len as nat)
                + " bytes; maximum is 65535"@,
            ArenaError::NamesTooLarge => "name arena exceeds 4 GiB"@,
            ArenaError::TooManyNodes => "node arena exceeds u32::MAX entries"@,
        }
    }

    /// Describes the error.
    pub fn message(&self) -> (message: String)
        ensures
            message@ == self.words(),
    {
        match self {
            ArenaError::NameTooLong(len) => {
                let mut message = String::from_str("name is ");
                text::push_decimal(&mut message, *len as u64);
                message.append(" bytes; maximum is 65535");
                message
            },
            ArenaError::NamesTooLarge => String::from_str("name arena exceeds 4 GiB"),
            ArenaError::TooManyNodes => String::from_str("node arena exceeds u32::MAX entries"),
        }
    }
}

/// Names packed back to back, each with a NUL byte behind it.
#[derive(Debug)]
pub struct NameArena {
    bytes: Vec<u8>,
}

impl View for NameArena {
    type V = Seq<u8>;

    closed spec fn view(&self) -> Seq<u8> {
        self.bytes@
    }
}

impl Default for NameArena {
    fn default() -> (names: NameArena)
        ensures
            names@ == Seq::<u8>::empty(),
    {
        NameArena { bytes: Vec::new() }
    }
}

/// `name` lies inside an arena of these bytes.
pub open spec fn name_stored(bytes: Seq<u8>, name: NameRef) -> bool {
    name.offset + name.len <= bytes.len()
}

/// The name at `name` in an arena of these bytes.
pub open spec fn name_at(bytes: Seq<u8>, name: NameRef) -> Seq<u8> {
    bytes.subrange(name.offset as int, name.offset + name.len)
}

/// Why a name cannot be stored behind these bytes.
pub open spec fn push_error(bytes: Seq<u8>, name: Seq<u8>) -> Option<ArenaError> {
    if name.len() > u16::MAX {
        Some(ArenaError::NameTooLong(name.len() as usize))
    } else if bytes.len() + name.len() + 1 > u32::MAX {
        Some(ArenaError::NamesTooLarge)
    } else {
        None
    }
}

impl NameArena {
    /// An empty arena with room for `capacity` bytes.
    pub fn with_capacity(capacity: usize) -> (names: NameArena)
        requires
            capacity <= isize::MAX,
        ensures
            names@ == Seq::<u8>::empty(),
    {
        NameArena { bytes: Vec::with_capacity(capacity) }
    }

    /// Makes room for `additional` more bytes.
    pub fn reserve(&mut self, additional: usize)
        requires
            old(self)@.len() + additional <= isize::MAX,
        ensures
            final(self)@ == old(self)@,
    {
        self.bytes.reserve(additional);
    }

    /// Stores a name. Offsets and the total size, separators included, stay below 4 GiB.
    pub fn push(&mut self, name: &[u8]) -> (result: Result<NameRef, ArenaError>)
        ensures
            match result {
                Ok(stored) => {
                    &&& push_error(old(self)@, name@) is None
                    &&& final(self)@ == old(self)@ + name@ + seq![0u8]
                    &&& stored.offset == old(self)@.len()
                    &&& stored.len == name@.len()
                },
                Err(error) => {
                    &&& push_error(old(self)@, name@) == Some(error)
                    &&& final(self)@ == old(self)@
                },
            },
    {
        if name.len() > u16::MAX as usize {
            return Err(ArenaError::NameTooLong(name.len()));
        }
        let len: u16 = name.len() as u16;
        let used: usize = self.bytes.len();
        if used > u32::MAX as usize {
            return Err(ArenaError::NamesTooLarge);
        }
        let offset: u32 = used as u32;
        let end: usize = match used.checked_add(name.len()) {
            Some(end) => end,
            None => return Err(ArenaError::NamesTooLarge),
        };
        let end: usize = match end.checked_add(1) {
            Some(end) => end,
            None => return Err(ArenaError::NamesTooLarge),
        };
        if end > u32::MAX as usize {
            return Err(ArenaError::NamesTooLarge);
        }
        self.bytes.extend_from_slice(name);
        self.bytes.push(0);
        assert(self.bytes@ =~= old(self).bytes@ + name@ + seq![0u8]);
        Ok(NameRef { offset, len })
    }

    /// Moves all names of `other` to the end and returns by how much their offsets grow.
    pub fn append(&mut self, other: NameArena) -> (result: Result<u32, ArenaError>)
        ensures
            match result {
                Ok(offset) => {
                    &&& old(self)@.len() + other@.len() <= u32::MAX
                    &&& final(self)@ == old(self)@ + other@
                    &&& offset == old(self)@.len()
                },
                Err(error) => {
                    &&& old(self)@.len() + other@.len() > u32::MAX
                    &&& final(self)@ == old(self)@
                    &&& error == ArenaError::NamesTooLarge
                },
            },
    {
        let used: usize = self.bytes.len();
        if used > u32::MAX as usize {
            return Err(ArenaError::NamesTooLarge);
        }
        let offset: u32 = used as u32;
        let end: usize = match used.checked_add(other.bytes.len()) {
            Some(end) => end,
            None => return Err(ArenaError::NamesTooLarge),
        };
        if end > u32::MAX as usize {
            return Err(ArenaError::NamesTooLarge);
        }
        let mut bytes = other.bytes;
        self.bytes.append(&mut bytes);
        Ok(offset)
    }

    /// The name stored at `name`.
    pub fn get(&self, name: NameRef) -> (bytes: &[u8])
        requires
            name_stored(self@, name),
        ensures
            bytes@ == name_at(self@, name),
    {
        let start: usize = name.offset as usize;
        assert(self.bytes.len() <= usize::MAX);
        let end: usize = start + name.len as usize;
        vstd::slice::slice_subrange(self.bytes.as_slice(), start, end)
    }

    /// An arena that holds these bytes.
    pub fn from_bytes(bytes: Vec<u8>) -> (names: NameArena)
        ensures
            names@ == bytes@,
    {
        NameArena { bytes }
    }

    /// The bytes of all names.
    pub fn as_bytes(&self) -> (bytes: &[u8])
        ensures
            bytes@ == self@,
    {
        self.bytes.as_slice()
    }

    /// Number of bytes in use, separators included.
    pub fn len(&self) -> (len: usize)
        ensures
            len == self@.len(),
    {
        self.bytes.len()
    }

    /// Whether nothing is stored.
    pub fn is_empty(&self) -> (empty: bool)
        ensures
            empty == (self@.len() == 0),
    {
        self.bytes.len() == 0
    }
}

/// A stored name reads back as it was written, and later names leave it alone.
pub proof fn law_name_survives(before: Seq<u8>, name: Seq<u8>, stored: NameRef, later: Seq<u8>)
    requires
        stored.offset == before.len(),
        stored.len == name.len(),
    ensures
        name_stored(before + name + seq![0u8] + later, stored),
        name_at(before + name + seq![0u8] + later, stored) == name,
{
    assert(name_at(before + name + seq![0u8] + later, stored) =~= name);
}

/// Appending an arena keeps the names in front and moves the appended ones by the returned offset.
pub proof fn law_append_shifts(front: Seq<u8>, back: Seq<u8>, first: NameRef, second: NameRef, moved: NameRef)
    requires
        name_stored(front, first),
        name_stored(back, second),
        moved.offset == second.offset + front.len(),
        moved.len == second.len,
    ensures
        name_at(front + back, first) == name_at(front, first),
        name_stored(front + back, moved),
        name_at(front + back, moved) == name_at(back, second),
{
    assert(name_at(front + back, first) =~= name_at(front, first));
    assert(name_at(front + back, moved) =~= name_at(back, second));
}

/// The nodes of one scan with their names.
#[derive(Debug)]
pub struct NodeArena {
    nodes: Vec<Node>,
    names: NameArena,
}

impl Default for NodeArena {
    fn default() -> (arena: NodeArena)
        ensures
            arena.node_list() == Seq::<Node>::empty(),
            arena.name_bytes() == Seq::<u8>::empty(),
    {
        NodeArena { nodes: Vec::new(), names: NameArena::default() }
    }
}

/// From the second node on, children stand in ascending order of their parents.
pub open spec fn children_grouped(nodes: Seq<Node>) -> bool {
    forall|i: int, j: int|
        1 <= i <= j < nodes.len() ==> (#[trigger] nodes[i]).parent.0 <= (#[trigger] nodes[j]).parent.0
}

/// The nodes from `i` up to, but without, the root, at most `steps` of them.
pub open spec fn trail(nodes: Seq<Node>, i: int, steps: nat) -> Seq<int>
    decreases steps,
{
    if steps == 0 || i == 0 {
        Seq::empty()
    } else {
        seq![i] + trail(nodes, aggregate::parent_of(nodes, i), (steps - 1) as nat)
    }
}

/// Every node of the trail exists and has its name in the arena.
pub open spec fn trail_stored(nodes: Seq<Node>, bytes: Seq<u8>, trail: Seq<int>) -> bool {
    forall|k: int|
        0 <= k < trail.len() ==> 0 <= #[trigger] trail[k] < nodes.len() && name_stored(
            bytes,
            nodes[trail[k]].name,
        )
}

/// The names along a trail from its far end to its start, separated by slashes.
pub open spec fn joined(nodes: Seq<Node>, bytes: Seq<u8>, trail: Seq<int>) -> Seq<u8>
    decreases trail.len(),
{
    if trail.len() == 0 {
        Seq::empty()
    } else if trail.len() == 1 {
        name_at(bytes, nodes[trail[0]].name)
    } else {
        joined(nodes, bytes, trail.drop_first()) + seq![text::SLASH] + name_at(
            bytes,
            nodes[trail[0]].name,
        )
    }
}

/// The absolute path of node `i`.
pub open spec fn path_of(nodes: Seq<Node>, bytes: Seq<u8>, i: int) -> Seq<u8> {
    seq![text::SLASH] + joined(nodes, bytes, trail(nodes, i, nodes.len()))
}

impl NodeArena {
    /// The nodes, by id.
    pub closed spec fn node_list(self) -> Seq<Node> {
        self.nodes@
    }

    /// The bytes of the name arena.
    pub closed spec fn name_bytes(self) -> Seq<u8> {
        self.names@
    }

    /// An arena of nodes whose children are grouped by parent.
    pub fn from_parts(nodes: Vec<Node>, names: NameArena) -> (arena: NodeArena)
        requires
            children_grouped(nodes@),
        ensures
            arena.node_list() == nodes@,
            arena.name_bytes() == names@,
    {
        NodeArena { nodes, names }
    }

    /// Adds a node behind the others.
    pub fn push_node(&mut self, node: Node) -> (result: Result<NodeId, ArenaError>)
        ensures
            final(self).name_bytes() == old(self).name_bytes(),
            match result {
                Ok(id) => {
                    &&& id.0 == old(self).node_list().len()
                    &&& final(self).node_list() == old(self).node_list().push(node)
                },
                Err(error) => {
                    &&& error == ArenaError::TooManyNodes
                    &&& old(self).node_list().len() > u32::MAX
                    &&& final(self).node_list() == old(self).node_list()
                },
            },
    {
        if self.nodes.len() > u32::MAX as usize {
            return Err(ArenaError::TooManyNodes);
        }
        let id: u32 = self.nodes.len() as u32;
        self.nodes.push(node);
        Ok(NodeId(id))
    }

    /// All nodes.
    pub fn nodes(&self) -> (nodes: &[Node])
        ensures
            nodes@ == self.node_list(),
    {
        self.nodes.as_slice()
    }

    /// The names.
    pub fn names(&self) -> (names: &NameArena)
        ensures
            names@ == self.name_bytes(),
    {
        &self.names
    }

    /// The name of a node.
    pub fn name(&self, id: NodeId) -> (name: &[u8])
        requires
            id.0 < self.node_list().len(),
            name_stored(self.name_bytes(), self.node_list()[id.0 as int].name),
        ensures
            name@ == name_at(self.name_bytes(), self.node_list()[id.0 as int].name),
    {
        self.names.get(self.nodes[id.index()].name)
    }

    /// Number of leading nodes, the root included, that come before the children of `parent`, or,
    /// where `past`, before what follows them.
    fn children_boundary(&self, parent: NodeId, past: bool) -> (boundary: usize)
        requires
            children_grouped(self.node_list()),
        ensures
            1 <= boundary,
            boundary <= self.node_list().len() || boundary == 1,
            forall|i: int|
                1 <= i < boundary ==> (#[trigger] self.node_list()[i]).parent.0 < parent.0 || past
                    && self.node_list()[i].parent.0 == parent.0,
            forall|i: int|
                boundary <= i < self.node_list().len() ==> (#[trigger] self.node_list()[i]).parent.0
                    > parent.0 || !past && self.node_list()[i].parent.0 == parent.0,
    {
        if self.nodes.len() <= 1 {
            return 1;
        }
        let mut low: usize = 1;
        let mut high: usize = self.nodes.len();
        while low < high
            invariant
                1 <= low <= high <= self.nodes.len(),
                children_grouped(self.nodes@),
                forall|i: int|
                    1 <= i < low ==> (#[trigger] self.nodes@[i]).parent.0 < parent.0 || past
                        && self.nodes@[i].parent.0 == parent.0,
                forall|i: int|
                    high <= i < self.nodes.len() ==> (#[trigger] self.nodes@[i]).parent.0 > parent.0
                        || !past && self.nodes@[i].parent.0 == parent.0,
            decreases high - low,
        {
            let middle: usize = low + (high - low) / 2;
            let key: u32 = self.nodes[middle].parent.0;
            if key < parent.0 || (past && key == parent.0) {
                low = middle + 1;
            } else {
                high = middle;
            }
        }
        low
    }

    /// The ids of the children of `parent`, found by binary search.
    pub fn child_range(&self, parent: NodeId) -> (range: Range<usize>)
        requires
            children_grouped(self.node_list()),
        ensures
            1 <= range.start <= range.end,
            range.end <= self.node_list().len() || range.end == 1,
            forall|i: int|
                1 <= i < range.start ==> (#[trigger] self.node_list()[i]).parent.0 < parent.0,
            forall|i: int|
                range.start <= i < range.end ==> (#[trigger] self.node_list()[i]).parent == parent,
            forall|i: int|
                range.end <= i < self.node_list().len() ==> (#[trigger] self.node_list()[i]).parent.0
                    > parent.0,
    {
        let start: usize = self.children_boundary(parent, false);
        let end: usize = self.children_boundary(parent, true);
        proof {
            if end < start {
                let node = self.node_list()[end as int];
                assert(node.parent.0 < parent.0);
            }
        }
        start..end
    }

    /// The absolute path of a node. Where the parents form a loop, the walk towards the root ends
    /// after as many steps as there are nodes.
    pub fn path_bytes(&self, id: NodeId) -> (path: Vec<u8>)
        requires
            trail_stored(
                self.node_list(),
                self.name_bytes(),
                trail(self.node_list(), id.0 as int, self.node_list().len()),
            ),
        ensures
            path@ == path_of(self.node_list(), self.name_bytes(), id.0 as int),
    {
        let ghost nodes = self.node_list();
        let ghost bytes = self.name_bytes();
        let ghost whole = trail(nodes, id.0 as int, nodes.len());
        if id == NodeId::root() {
            let mut path: Vec<u8> = Vec::new();
            path.push(text::SLASH);
            assert(path@ =~= path_of(nodes, bytes, 0));
            return path;
        }
        let mut components: Vec<NameRef> = Vec::new();
        let mut current: NodeId = id;
        let mut step: usize = 0;
        let ghost mut at: Seq<int> = Seq::empty();
        proof {
            assert(at + whole =~= whole);
        }
        while step < self.nodes.len() && current != NodeId::root()
            invariant
                step <= self.nodes.len(),
                nodes == self.nodes@,
                bytes == self.names@,
                nodes == self.node_list(),
                whole == at + trail(nodes, current.0 as int, (nodes.len() - step) as nat),
                trail_stored(nodes, bytes, whole),
                components.len() == at.len(),
                forall|k: int|
                    0 <= k < at.len() ==> #[trigger] components@[k] == nodes[at[k]].name,
            decreases self.nodes.len() - step,
        {
            proof {
                let rest = trail(nodes, current.0 as int, (nodes.len() - step) as nat);
                assert(rest[0] == current.0 as int);
                assert(whole[at.len() as int] == current.0 as int);
                at = at.push(current.0 as int);
                assert(whole =~= at + trail(
                    nodes,
                    aggregate::parent_of(nodes, current.0 as int),
                    (nodes.len() - step - 1) as nat,
                ));
            }
            let node = self.nodes[current.index()];
            components.push(node.name);
            current = node.parent;
            step = step + 1;
        }
        assert(at =~= whole);
        let mut path: Vec<u8> = Vec::new();
        path.push(text::SLASH);
        let mut left: usize = components.len();
        assert(path@ =~= seq![text::SLASH] + joined(nodes, bytes, whole.skip(left as int)));
        while left > 0
            invariant
                left <= components.len(),
                components.len() == whole.len(),
                nodes == self.nodes@,
                bytes == self.names@,
                trail_stored(nodes, bytes, whole),
                forall|k: int|
                    0 <= k < whole.len() ==> #[trigger] components@[k] == nodes[whole[k]].name,
                path@ == seq![text::SLASH] + joined(nodes, bytes, whole.skip(left as int)),
            decreases left,
        {
            let ghost before = whole.skip(left as int);
            if left < components.len() {
                path.push(text::SLASH);
            }
            left = left - 1;
            proof {
                assert(name_stored(bytes, nodes[whole[left as int]].name));
                assert(whole.skip(left as int).drop_first() =~= before);
                assert(whole.skip(left as int)[0] == whole[left as int]);
            }
            path.extend_from_slice(self.names.get(components[left]));
            assert(path@ =~= seq![text::SLASH] + joined(nodes, bytes, whole.skip(left as int)));
        }
        assert(whole.skip(0) =~= whole);
        path
    }

    /// The path of a node as text.
    pub fn display_path(&self, id: NodeId) -> (path: String)
        requires
            trail_stored(
                self.node_list(),
                self.name_bytes(),
                trail(self.node_list(), id.0 as int, self.node_list().len()),
            ),
        ensures
            path@ == text::lossy_text(
                path_of(self.node_list(), self.name_bytes(), id.0 as int),
            ),
            vstd::utf8::valid_utf8(path_of(self.node_list(), self.name_bytes(), id.0 as int))
                ==> path@ == vstd::utf8::decode_utf8(
                path_of(self.node_list(), self.name_bytes(), id.0 as int),
            ),
    {
        let path = self.path_bytes(id);
        text::from_utf8_lossy(path.as_slice())
    }
}

/// Every node's name lies inside the arena.
pub open spec fn names_stored(nodes: Seq<Node>, bytes: Seq<u8>) -> bool {
    forall|i: int| 0 <= i < nodes.len() ==> name_stored(bytes, (#[trigger] nodes[i]).name)
}

/// Where parents exist and names are stored, every trail is stored.
pub proof fn law_trail_stored(nodes: Seq<Node>, bytes: Seq<u8>, i: int, steps: nat)
    requires
        aggregate::parents_exist(nodes),
        names_stored(nodes, bytes),
        0 <= i < nodes.len(),
    ensures
        trail_stored(nodes, bytes, trail(nodes, i, steps)),
    decreases steps,
{
    if steps > 0 && i != 0 {
        assert(nodes[i].parent.0 < nodes.len());
        let up = aggregate::parent_of(nodes, i);
        law_trail_stored(nodes, bytes, up, (steps - 1) as nat);
        let rest = trail(nodes, up, (steps - 1) as nat);
        assert forall|k: int| 0 <= k < trail(nodes, i, steps).len() implies 0
            <= #[trigger] trail(nodes, i, steps)[k] < nodes.len() && name_stored(
            bytes,
            nodes[trail(nodes, i, steps)[k]].name,
        ) by {
            if k > 0 {
                assert(trail(nodes, i, steps)[k] == rest[k - 1]);
            }
        }
    }
}

proof fn lemma_trail_settles(nodes: Seq<Node>, i: int, k: nat, steps: nat)
    requires
        aggregate::reaches(nodes, i, k),
        steps >= k,
    ensures
        trail(nodes, i, steps) == trail(nodes, i, k),
    decreases k,
{
    if k > 0 {
        assert(i != 0) by {
            aggregate::lemma_ancestor_of_root(nodes, (k - 1) as nat);
        }
        let up = aggregate::parent_of(nodes, i);
        if k > 1 {
            assert(aggregate::ancestor(nodes, i, (k - 1) as nat) == aggregate::ancestor(
                nodes,
                up,
                (k - 2) as nat,
            ));
        }
        lemma_trail_settles(nodes, up, (k - 1) as nat, (steps - 1) as nat);
    }
}

/// The path of a node below the root's children is its parent's path, a slash and its name; that
/// of a child of the root is a slash and its name. The root's path is a slash. The nodes between it
/// and the root have to exist.
pub proof fn law_path_extends_parent(nodes: Seq<Node>, bytes: Seq<u8>, i: int, depth: nat)
    requires
        aggregate::reaches(nodes, i, depth),
        aggregate::way_exists(nodes, i, depth),
    ensures
        path_of(nodes, bytes, i) == if i == 0 {
            seq![text::SLASH]
        } else if aggregate::parent_of(nodes, i) == 0 {
            seq![text::SLASH] + name_at(bytes, nodes[i].name)
        } else {
            path_of(nodes, bytes, aggregate::parent_of(nodes, i)) + seq![text::SLASH] + name_at(
                bytes,
                nodes[i].name,
            )
        },
{
    if i == 0 {
        assert(path_of(nodes, bytes, 0) =~= seq![text::SLASH]);
    } else {
        let up = aggregate::parent_of(nodes, i);
        let k = depth;
        aggregate::law_depth_below_count(nodes, i, k);
        if k > 1 {
            assert(aggregate::ancestor(nodes, i, (k - 1) as nat) == aggregate::ancestor(
                nodes,
                up,
                (k - 2) as nat,
            ));
        }
        assert(aggregate::reaches(nodes, up, (k - 1) as nat));
        lemma_trail_settles(nodes, up, (k - 1) as nat, nodes.len());
        lemma_trail_settles(nodes, up, (k - 1) as nat, (nodes.len() - 1) as nat);
        let whole = trail(nodes, i, nodes.len());
        let above = trail(nodes, up, nodes.len());
        assert(whole == seq![i] + above);
        assert(whole.drop_first() =~= above);
        assert(whole[0] == i);
        if up == 0 {
            assert(above.len() == 0);
        } else {
            assert(above[0] == up);
            assert(path_of(nodes, bytes, i) =~= path_of(nodes, bytes, up) + seq![text::SLASH]
                + name_at(bytes, nodes[i].name));
        }
    }
}

/// A name is stored unless it is longer than 65535 bytes or would fill more than 4 GiB, separators
/// included.
pub proof fn law_names_that_fit_are_stored(bytes: Seq<u8>, name: Seq<u8>)
    ensures
        push_error(bytes, name) is None <==> name.len() <= 65535 && bytes.len() + name.len()
            < 0xffff_ffff,
        name.len() > 65535 && name.len() <= usize::MAX ==> push_error(bytes, name) == Some(
            ArenaError::NameTooLong(name.len() as usize),
        ),
        name.len() <= 65535 && push_error(bytes, name) is Some ==> push_error(bytes, name) == Some(
            ArenaError::NamesTooLarge,
        ),
{
}

/// The root's path is a slash, whatever the nodes.
pub proof fn law_the_root_is_a_slash(nodes: Seq<Node>, bytes: Seq<u8>)
    ensures
        path_of(nodes, bytes, 0) == seq![0x2fu8],
{
    assert(path_of(nodes, bytes, 0) =~= seq![0x2fu8]);
}

} // verus!
