//! The blend graph: a tree describing how layers composite into an image.
//!
//! Elements live in a flat arena table keyed by stable handles, with
//! explicit parent and ordered children links; handles are never reused
//! while referenced. The tree stays acyclic by construction: a reparent
//! walks the destination's ancestor chain first and is rejected when it
//! would place an element under itself or one of its descendants.

use vstd::prelude::*;

pub mod rendering;

verus! {

/// An RGBA color, each channel carried as the raw bits of its sample.
#[derive(Clone, Copy, PartialEq, Eq, Structural, Debug)]
pub struct ColorBits {
    pub r: u32,
    pub g: u32,
    pub b: u32,
    pub a: u32,
}

/// A terminal content element of the tree.
#[derive(Clone, Copy, PartialEq, Eq, Structural, Debug)]
pub enum LeafType {
    /// Strokes of one stroke collection, composited with a blend.
    StrokeLayer {
        blend: crate::Blend,
        /// The stroke collection the layer draws.
        source: crate::state::stroke_collection::StrokeCollectionID,
    },
    /// A solid fill, composited with a blend.
    SolidColor {
        blend: crate::Blend,
        /// The fill color.
        source: ColorBits,
    },
    /// A note to the artist; the element's name is the note. Non-visual.
    Note,
}

impl LeafType {
    /// The leaf's blend assignment, if its kind carries one.
    pub fn blend(&self) -> (r: Option<crate::Blend>)
        ensures
            r == spec_leaf_blend(*self),
    {
        match self {
            Self::StrokeLayer { blend, .. } => Some(*blend),
            Self::SolidColor { blend, .. } => Some(*blend),
            Self::Note => None,
        }
    }

    /// Mutable access to the leaf's blend assignment, if any.
    pub fn blend_mut(&mut self) -> (r: Option<&mut crate::Blend>)
        ensures
            spec_leaf_blend(*old(self)) is None ==> r is None && *final(self) == *old(self),
            spec_leaf_blend(*old(self)) matches Some(b) ==> (r matches Some(m) && *m == b
                && spec_leaf_blend(*final(self)) == Some(*final(m)) && spec_set_leaf_blend(
                *old(self),
                *final(m),
            ) == *final(self)),
    {
        match self {
            Self::StrokeLayer { blend, .. } => Some(blend),
            Self::SolidColor { blend, .. } => Some(blend),
            Self::Note => None,
        }
    }
}

/// The blend a leaf carries, if its kind has one.
pub open spec fn spec_leaf_blend(leaf: LeafType) -> Option<crate::Blend> {
    match leaf {
        LeafType::StrokeLayer { blend, .. } => Some(blend),
        LeafType::SolidColor { blend, .. } => Some(blend),
        LeafType::Note => None,
    }
}

/// The leaf with its blend replaced; a Note is unchanged.
pub open spec fn spec_set_leaf_blend(leaf: LeafType, b: crate::Blend) -> LeafType {
    match leaf {
        LeafType::StrokeLayer { blend, source } => LeafType::StrokeLayer { blend: b, source },
        LeafType::SolidColor { blend, source } => LeafType::SolidColor { blend: b, source },
        LeafType::Note => LeafType::Note,
    }
}

/// A grouping element of the tree.
#[derive(Clone, Copy, PartialEq, Eq, Structural, Debug)]
pub enum NodeType {
    /// Children are grouped for organization only; the tree composites
    /// them as if they were the group's siblings.
    Passthrough,
    /// Children are rendered as a group and the output is blended as a
    /// single image.
    GroupedBlend(crate::Blend),
}

impl NodeType {
    /// The node's blend assignment, if its kind carries one.
    pub fn blend(&self) -> (r: Option<crate::Blend>)
        ensures
            r == spec_node_blend(*self),
    {
        match self {
            Self::Passthrough => None,
            Self::GroupedBlend(blend) => Some(*blend),
        }
    }

    /// Mutable access to the node's blend assignment, if any.
    pub fn blend_mut(&mut self) -> (r: Option<&mut crate::Blend>)
        ensures
            spec_node_blend(*old(self)) is None ==> r is None && *final(self) == *old(self),
            spec_node_blend(*old(self)) matches Some(b) ==> (r matches Some(m) && *m == b
                && *final(self) == NodeType::GroupedBlend(*final(m))),
    {
        match self {
            Self::Passthrough => None,
            Self::GroupedBlend(blend) => Some(blend),
        }
    }
}

/// The blend a node carries, if its kind has one.
pub open spec fn spec_node_blend(node: NodeType) -> Option<crate::Blend> {
    match node {
        NodeType::Passthrough => None,
        NodeType::GroupedBlend(blend) => Some(blend),
    }
}

/// Handle of a leaf of the tree. The payload is a plain arena index;
/// the tree checks liveness and kind on every use, so a handle that was
/// not minted by it simply fails its lookups.
#[derive(Clone, Copy, PartialEq, Eq, Structural, Debug)]
pub struct LeafID(pub usize);

/// Handle of a grouping node of the tree; see [`LeafID`] on forgery.
#[derive(Clone, Copy, PartialEq, Eq, Structural, Debug)]
pub struct NodeID(pub usize);

/// Handle of either kind of element.
#[derive(Clone, Copy, PartialEq, Eq, Structural, Debug)]
pub enum AnyID {
    Leaf(LeafID),
    Node(NodeID),
}

impl LeafID {
    /// The arena index behind the handle.
    pub open spec fn spec_index(self) -> int {
        self.0 as int
    }
}

impl NodeID {
    /// The arena index behind the handle.
    pub open spec fn spec_index(self) -> int {
        self.0 as int
    }
}

impl AnyID {
    /// The arena index behind the handle, whatever its kind.
    pub open spec fn spec_index(self) -> int {
        match self {
            AnyID::Leaf(l) => l.spec_index(),
            AnyID::Node(n) => n.spec_index(),
        }
    }

    /// The arena index behind the handle.
    fn into_raw(self) -> (r: usize)
        ensures
            r == self.spec_index(),
    {
        match self {
            AnyID::Leaf(LeafID(id)) => id,
            AnyID::Node(NodeID(id)) => id,
        }
    }
}

impl From<LeafID> for AnyID {
    /// A leaf handle is an element handle.
    fn from(value: LeafID) -> (r: Self) {
        AnyID::Leaf(value)
    }
}

impl vstd::std_specs::convert::FromSpecImpl<LeafID> for AnyID {
    open spec fn obeys_from_spec() -> bool {
        true
    }

    open spec fn from_spec(value: LeafID) -> Self {
        AnyID::Leaf(value)
    }
}

impl From<NodeID> for AnyID {
    /// A node handle is an element handle.
    fn from(value: NodeID) -> (r: Self) {
        AnyID::Node(value)
    }
}

impl vstd::std_specs::convert::FromSpecImpl<NodeID> for AnyID {
    open spec fn obeys_from_spec() -> bool {
        true
    }

    open spec fn from_spec(value: NodeID) -> Self {
        AnyID::Node(value)
    }
}

/// What one element of the tree is: a grouping node or a content leaf.
#[derive(Clone, PartialEq, Eq, Structural, Debug)]
pub enum NodeDataTy {
    Node(NodeType),
    Leaf(LeafType),
}

/// One element of the tree: its kind and payload, plus its name.
#[derive(Clone, Debug)]
pub struct NodeData {
    /// Kept private so the payload kind cannot be swapped out from under
    /// the handle that names it.
    ty: NodeDataTy,
    pub name: String,
}

impl NodeData {
    /// The element's kind and payload.
    pub closed spec fn spec_ty(&self) -> NodeDataTy {
        self.ty
    }

    /// The element's name.
    pub closed spec fn spec_name(&self) -> Seq<char> {
        self.name@
    }

    /// The element's name.
    pub fn name(&self) -> (r: &str)
        ensures
            r@ == self.spec_name(),
    {
        self.name.as_str()
    }

    /// Mutable access to the element's name.
    pub fn name_mut(&mut self) -> (r: &mut String)
        ensures
            r@ == old(self).spec_name(),
            final(self).spec_name() == final(r)@,
            final(self).spec_ty() == old(self).spec_ty(),
    {
        &mut self.name
    }

    /// Is this element a content leaf?
    pub fn is_leaf(&self) -> (r: bool)
        ensures
            r == (self.spec_ty() is Leaf),
    {
        match &self.ty {
            NodeDataTy::Leaf(..) => true,
            _ => false,
        }
    }

    /// Is this element a grouping node?
    pub fn is_node(&self) -> (r: bool)
        ensures
            r == (self.spec_ty() is Node),
    {
        match &self.ty {
            NodeDataTy::Node(..) => true,
            _ => false,
        }
    }

    /// The leaf payload, if this element is a leaf.
    pub fn leaf(&self) -> (r: Option<&LeafType>)
        ensures
            self.spec_ty() matches NodeDataTy::Leaf(l) ==> (r matches Some(x) && *x == l),
            self.spec_ty() is Node ==> r is None,
    {
        if let NodeDataTy::Leaf(l) = &self.ty {
            Some(l)
        } else {
            None
        }
    }

    /// The node payload, if this element is a node.
    pub fn node(&self) -> (r: Option<&NodeType>)
        ensures
            self.spec_ty() matches NodeDataTy::Node(n) ==> (r matches Some(x) && *x == n),
            self.spec_ty() is Leaf ==> r is None,
    {
        if let NodeDataTy::Node(n) = &self.ty {
            Some(n)
        } else {
            None
        }
    }

    /// Replace the element's name, leaving its payload alone.
    pub fn rename(&mut self, name: String)
        ensures
            final(self).spec_ty() == old(self).spec_ty(),
            final(self).spec_name() == name@,
    {
        self.name = name;
    }

    /// Replace the element's blend assignment, if its kind carries one;
    /// passthrough groups and notes are left untouched. The element's
    /// kind never changes.
    pub fn set_blend(&mut self, b: crate::Blend)
        ensures
            final(self).spec_ty() == spec_set_ty_blend(old(self).spec_ty(), b),
            final(self).spec_name() == old(self).spec_name(),
    {
        match &mut self.ty {
            NodeDataTy::Node(n) => {
                match n.blend_mut() {
                    Some(m) => {
                        *m = b;
                    },
                    None => {},
                }
            },
            NodeDataTy::Leaf(l) => {
                match l.blend_mut() {
                    Some(m) => {
                        *m = b;
                    },
                    None => {},
                }
            },
        }
    }

    /// The element's blend assignment, if its kind carries one.
    pub fn blend(&self) -> (r: Option<crate::Blend>)
        ensures
            r == spec_data_blend(self.spec_ty()),
    {
        match &self.ty {
            NodeDataTy::Node(n) => n.blend(),
            NodeDataTy::Leaf(l) => l.blend(),
        }
    }
}

/// The element's payload with its blend replaced; kinds without a blend
/// are unchanged, and the kind itself never changes.
pub open spec fn spec_set_ty_blend(ty: NodeDataTy, b: crate::Blend) -> NodeDataTy {
    match ty {
        NodeDataTy::Node(NodeType::Passthrough) => ty,
        NodeDataTy::Node(NodeType::GroupedBlend(..)) => NodeDataTy::Node(
            NodeType::GroupedBlend(b),
        ),
        NodeDataTy::Leaf(l) => NodeDataTy::Leaf(spec_set_leaf_blend(l, b)),
    }
}

/// The blend an element carries: none for passthrough groups and notes.
pub open spec fn spec_data_blend(ty: NodeDataTy) -> Option<crate::Blend> {
    match ty {
        NodeDataTy::Node(n) => spec_node_blend(n),
        NodeDataTy::Leaf(l) => spec_leaf_blend(l),
    }
}

/// The target of a tree operation does not exist.
#[derive(Clone, Copy, PartialEq, Eq, Structural, Debug)]
pub enum TargetError {
    /// The target handle is not known to this blend graph.
    TargetNotFound,
}

/// Why a reparent was rejected. All of these leave the tree unchanged
/// and are surfaced to the editing layer as a rejected operation.
#[derive(Clone, Copy, PartialEq, Eq, Structural, Debug)]
pub enum ReparentError {
    /// The element to move is not known to this blend graph.
    TargetError(TargetError),
    /// The destination is not known to this blend graph.
    DestinationNotFound,
    /// The destination lies at or under the element to move.
    WouldCycle,
}

/// An insertion point in the tree, where the top child has index zero.
#[derive(Clone, Copy, PartialEq, Eq, Structural, Debug)]
pub enum Location {
    /// The sibling slot directly above the given element.
    AboveSelection(AnyID),
    /// The nth child slot of the given node.
    IndexIntoNode(NodeID, usize),
    /// The nth child slot of the root.
    IndexIntoRoot(usize),
}

/// One arena slot of the tree.
struct Slot {
    /// Whether the slot currently holds an element; handles of dead
    /// slots are never reused.
    live: bool,
    /// The element's kind, payload and name.
    data: NodeData,
    /// The parent node's index; `None` places the element under the
    /// implicit root.
    parent: Option<usize>,
    /// The element's children, ordered top-first. Empty for leaves.
    children: Vec<usize>,
}

/// The compositing tree itself.
pub struct BlendGraph {
    /// The arena table; handles are indices into it.
    slots: Vec<Slot>,
    /// The root's children, ordered top-first.
    root_children: Vec<usize>,
}

impl BlendGraph {
    /// How many handles have ever been minted.
    pub closed spec fn num_slots(&self) -> nat {
        self.slots@.len()
    }

    /// The arena table is a machine-indexed vector, so its size fits a
    /// machine word.
    pub proof fn lemma_num_slots_bound(&self)
        ensures
            self.num_slots() <= usize::MAX,
    {
        broadcast use vstd::std_specs::vec::axiom_spec_len;

        assert(self.slots.len() == self.slots@.len());
    }

    /// Does index `i` currently hold an element?
    pub closed spec fn live(&self, i: int) -> bool {
        0 <= i < self.slots@.len() && self.slots@[i].live
    }

    /// The parent of element `i`; `None` stands for the implicit root.
    pub closed spec fn parent_of(&self, i: int) -> Option<int> {
        match self.slots@[i].parent {
            None => None,
            Some(p) => Some(p as int),
        }
    }

    /// The payload of element `i`.
    pub closed spec fn ty_of(&self, i: int) -> NodeDataTy {
        self.slots@[i].data.ty
    }

    /// The name of element `i`.
    pub closed spec fn name_of(&self, i: int) -> Seq<char> {
        self.slots@[i].data.name@
    }

    /// Is element `i` a live grouping node?
    pub open spec fn is_node(&self, i: int) -> bool {
        self.live(i) && self.ty_of(i) is Node
    }

    /// Is element `i` a live content leaf?
    pub open spec fn is_leaf(&self, i: int) -> bool {
        self.live(i) && self.ty_of(i) is Leaf
    }

    /// The ordered children of a parent key: a node's list, or the
    /// root's.
    pub closed spec fn child_list(&self, key: Option<int>) -> Seq<int> {
        match key {
            None => self.root_children@.map_values(|c: usize| c as int),
            Some(p) => self.slots@[p].children@.map_values(|c: usize| c as int),
        }
    }

    /// Does the handle name a live element of matching kind?
    pub open spec fn contains_any(&self, id: AnyID) -> bool {
        match id {
            AnyID::Leaf(l) => self.is_leaf(l.spec_index()),
            AnyID::Node(n) => self.is_node(n.spec_index()),
        }
    }

    /// The handle under which element `i` is exposed.
    pub open spec fn any_of(&self, i: int) -> AnyID {
        if self.ty_of(i) is Leaf {
            AnyID::Leaf(LeafID(i as usize))
        } else {
            AnyID::Node(NodeID(i as usize))
        }
    }

    /// Does the ancestor chain from `i` reach the root within `fuel`
    /// parent steps?
    pub closed spec fn bounded(&self, i: int, fuel: nat) -> bool
        decreases fuel,
    {
        match self.parent_of(i) {
            None => true,
            Some(p) => fuel > 0 && self.bounded(p, (fuel - 1) as nat),
        }
    }

    /// The ancestor chain of `i`, nearest parent first, computed with
    /// `fuel` steps available.
    pub closed spec fn chain(&self, i: int, fuel: nat) -> Seq<int>
        decreases fuel,
    {
        match self.parent_of(i) {
            None => Seq::empty(),
            Some(p) => {
                if fuel > 0 {
                    seq![p] + self.chain(p, (fuel - 1) as nat)
                } else {
                    Seq::empty()
                }
            },
        }
    }

    /// Some fuel under which `i`'s ancestor chain terminates.
    pub closed spec fn fuel_of(&self, i: int) -> nat {
        choose|f: nat| self.bounded(i, f)
    }

    /// The ancestor chain of `i`, nearest parent first, excluding the
    /// implicit root.
    pub closed spec fn ancestors_of(&self, i: int) -> Seq<int> {
        self.chain(i, self.fuel_of(i))
    }

    /// Parent links are sound: every live element's parent is a live
    /// node, and every ancestor chain terminates.
    pub closed spec fn parents_ok(&self) -> bool {
        forall|i: int|
            self.live(i) ==> {
                &&& (match #[trigger] self.parent_of(i) {
                    None => true,
                    Some(p) => self.is_node(p),
                })
                &&& exists|f: nat| self.bounded(i, f)
            }
    }

    /// Children lists are sound: lists hang off the root or live nodes
    /// only, hold each child once, agree with the children's parent
    /// links, and leaves have none.
    pub closed spec fn children_ok(&self) -> bool {
        &&& self.list_ok(None)
        &&& forall|p: int| self.is_node(p) ==> self.list_ok(Some(p))
        &&& forall|i: int|
            self.is_leaf(i) ==> (#[trigger] self.child_list(Some(i))).len() == 0
        &&& forall|i: int|
            !self.live(i) && 0 <= i < self.num_slots() ==> (#[trigger] self.child_list(
                Some(i),
            )).len() == 0
        &&& forall|i: int|
            self.live(i) ==> (#[trigger] self.child_list(self.parent_of(i))).contains(i)
    }

    /// One children list is sound.
    pub closed spec fn list_ok(&self, key: Option<int>) -> bool {
        let l = self.child_list(key);
        &&& l.no_duplicates()
        &&& forall|k: int|
            0 <= k < l.len() ==> self.live(#[trigger] l[k]) && self.parent_of(l[k]) == key
    }

    /// The tree is well formed.
    pub closed spec fn wf(&self) -> bool {
        self.parents_ok() && self.children_ok()
    }

    /// An empty tree: no elements yet.
    pub fn new() -> (r: Self)
        ensures
            r.wf(),
            r.num_slots() == 0,
            r.child_list(None) == Seq::<int>::empty(),
    {
        let r = BlendGraph { slots: Vec::new(), root_children: Vec::new() };
        proof {
            assert(r.child_list(None) =~= Seq::<int>::empty());
        }
        r
    }

    /// Where a location points: the parent key and the index at which an
    /// element would land there. `None` when the location's anchor is
    /// not in the tree. An index past the end of the destination's
    /// children is taken as its end.
    pub open spec fn spec_resolve(&self, loc: Location) -> Option<(Option<int>, int)> {
        match loc {
            Location::AboveSelection(id) => {
                if self.contains_any(id) {
                    let i = id.spec_index();
                    let key = self.parent_of(i);
                    Some((key, spec_position(self.child_list(key), i)))
                } else {
                    None
                }
            },
            Location::IndexIntoNode(n, idx) => {
                if self.is_node(n.spec_index()) {
                    let l = self.child_list(Some(n.spec_index())).len() as int;
                    Some(
                        (
                            Some(n.spec_index()),
                            if idx <= l {
                                idx as int
                            } else {
                                l
                            },
                        ),
                    )
                } else {
                    None
                }
            },
            Location::IndexIntoRoot(idx) => {
                let l = self.child_list(None).len() as int;
                Some(
                    (
                        None,
                        if idx <= l {
                            idx as int
                        } else {
                            l
                        },
                    ),
                )
            },
        }
    }

    /// Does the handle name a live element of matching kind?
    pub fn contains(&self, id: AnyID) -> (r: bool)
        ensures
            r == self.contains_any(id),
    {
        let i = id.into_raw();
        if i >= self.slots.len() || !self.slots[i].live {
            return false;
        }
        match id {
            AnyID::Leaf(..) => self.slots[i].data.is_leaf(),
            AnyID::Node(..) => self.slots[i].data.is_node(),
        }
    }

    /// The children list hanging off a parent key.
    fn list_of(&self, key: Option<usize>) -> (r: &Vec<usize>)
        requires
            key matches Some(p) ==> p < self.num_slots(),
        ensures
            r@.map_values(|c: usize| c as int) == self.child_list(spec_key(key)),
    {
        match key {
            None => &self.root_children,
            Some(p) => &self.slots[p].children,
        }
    }

    /// Resolve a location to a parent key and insertion index.
    fn resolve_location(&self, location: &Location) -> (r: Result<
        (Option<usize>, usize),
        TargetError,
    >)
        requires
            self.wf(),
        ensures
            r is Ok <==> self.spec_resolve(*location) is Some,
            r matches Ok((key, idx)) ==> self.spec_resolve(*location) == Some(
                (spec_key(key), idx as int),
            ),
            r matches Ok((key, idx)) ==> (key matches Some(p) ==> self.is_node(p as int) && idx
                as int <= self.child_list(spec_key(key)).len()),
            r matches Ok((key, idx)) ==> (key is None ==> idx as int <= self.child_list(
                None,
            ).len()),
            r matches Err(e) ==> e == TargetError::TargetNotFound,
    {
        match location {
            Location::AboveSelection(id) => {
                if !self.contains(*id) {
                    return Err(TargetError::TargetNotFound);
                }
                let i = id.into_raw();
                let key = self.slots[i].parent;
                proof {
                    assert(self.live(i as int));
                    assert(spec_key(key) == self.parent_of(i as int));
                    if key is Some {
                        assert(self.is_node(self.parent_of(i as int)->0));
                    }
                    assert(self.list_ok(spec_key(key)));
                    assert(self.child_list(self.parent_of(i as int)).contains(i as int));
                }
                let list = self.list_of(key);
                match position_in(list, i) {
                    Some(k) => {
                        proof {
                            let l = self.child_list(spec_key(key));
                            let w = spec_position(l, i as int);
                            assert(l[k as int] == i);
                            assert(0 <= w < l.len() && l[w] == i);
                            assert(w == k as int);  // the list holds each child once
                        }
                        Ok((key, k))
                    },
                    None => {
                        proof {
                            let l = self.child_list(spec_key(key));
                            let w = choose|w: int| 0 <= w < l.len() && l[w] == i as int;
                            assert(list@[w] == i);
                        }
                        Err(TargetError::TargetNotFound)
                    },
                }
            },
            Location::IndexIntoNode(n, idx) => {
                if !self.contains(AnyID::Node(*n)) {
                    return Err(TargetError::TargetNotFound);
                }
                let p = n.0;
                let list_len = self.slots[p].children.len();
                Ok((Some(p), if *idx <= list_len {
                    *idx
                } else {
                    list_len
                }))
            },
            Location::IndexIntoRoot(idx) => {
                let list_len = self.root_children.len();
                Ok((None, if *idx <= list_len {
                    *idx
                } else {
                    list_len
                }))
            },
        }
    }
}

/// A machine-word parent key, as the spec sees it.
pub open spec fn spec_key(key: Option<usize>) -> Option<int> {
    match key {
        None => None,
        Some(p) => Some(p as int),
    }
}

/// The position of `x` in `l`; meaningful when `l` holds `x` exactly
/// once, as the tree's children lists do.
pub open spec fn spec_position(l: Seq<int>, x: int) -> int {
    choose|k: int| 0 <= k < l.len() && l[k] == x
}

impl BlendGraph {
    /// Append a fresh element under the resolved location.
    fn add_element(&mut self, location: &Location, ty: NodeDataTy) -> (r: Result<
        usize,
        TargetError,
    >)
        requires
            old(self).wf(),
        ensures
            final(self).wf(),
            old(self).spec_resolve(*location) is None ==> r == Err::<usize, TargetError>(
                TargetError::TargetNotFound,
            ) && *final(self) == *old(self),
            old(self).spec_resolve(*location) matches Some((key, idx)) ==> (r matches Ok(new)
                && spec_added(*old(self), *final(self), new as int, ty, key, idx)),
    {
        let (key, idx) = match self.resolve_location(location) {
            Ok(x) => x,
            Err(e) => {
                return Err(e);
            },
        };
        let ghost pre = *self;
        let new_idx = self.slots.len();
        self.slots.push(
            Slot { live: true, data: NodeData { ty, name: String::new() }, parent: key, children: Vec::new() },
        );
        match key {
            None => self.root_children.insert(idx, new_idx),
            Some(p) => self.slots[p].children.insert(idx, new_idx),
        }
        proof {
            let g1 = pre;
            let g2 = *self;
            let n = new_idx as int;
            let k = spec_key(key);
            // The one touched children list is the old one with the new
            // element slotted in; everything already present is untouched.
            assert(g2.child_list(k) =~= g1.child_list(k).insert(idx as int, n));
            assert(g2.child_list(Some(n)) =~= Seq::<int>::empty());
            assert forall|p2: int| 0 <= p2 < g1.num_slots() && Some(p2) != k implies #[trigger] g2.child_list(
                Some(p2),
            ) == g1.child_list(Some(p2)) by {
                assert(g2.child_list(Some(p2)) =~= g1.child_list(Some(p2)));
            }
            if k != None::<int> {
                assert(g2.child_list(None) =~= g1.child_list(None));
            }
            assert forall|j: int| 0 <= j < g1.num_slots() implies #[trigger] g2.live(j) == g1.live(
                j,
            ) && g2.ty_of(j) == g1.ty_of(j) && g2.name_of(j) == g1.name_of(j) && g2.parent_of(j)
                == g1.parent_of(j) by {}
            assert(spec_added(g1, g2, n, ty, k, idx as int));
            lemma_added_wf(g1, g2, n, ty, k, idx as int);
        }
        Ok(new_idx)
    }

    /// Add a grouping node at the given location. Fails, leaving the tree
    /// unchanged, when the location's anchor is not in the tree.
    pub fn add_node(&mut self, location: Location, node_ty: NodeType) -> (r: Result<
        NodeID,
        TargetError,
    >)
        requires
            old(self).wf(),
        ensures
            final(self).wf(),
            old(self).spec_resolve(location) is None ==> r == Err::<NodeID, TargetError>(
                TargetError::TargetNotFound,
            ) && *final(self) == *old(self),
            old(self).spec_resolve(location) matches Some((key, idx)) ==> (r matches Ok(nid)
                && spec_added(
                *old(self),
                *final(self),
                nid.spec_index(),
                NodeDataTy::Node(node_ty),
                key,
                idx,
            )),
    {
        match self.add_element(&location, NodeDataTy::Node(node_ty)) {
            Ok(i) => Ok(NodeID(i)),
            Err(e) => Err(e),
        }
    }

    /// Add a content leaf at the given location. Fails, leaving the tree
    /// unchanged, when the location's anchor is not in the tree.
    pub fn add_leaf(&mut self, location: Location, leaf_ty: LeafType) -> (r: Result<
        LeafID,
        TargetError,
    >)
        requires
            old(self).wf(),
        ensures
            final(self).wf(),
            old(self).spec_resolve(location) is None ==> r == Err::<LeafID, TargetError>(
                TargetError::TargetNotFound,
            ) && *final(self) == *old(self),
            old(self).spec_resolve(location) matches Some((key, idx)) ==> (r matches Ok(lid)
                && spec_added(
                *old(self),
                *final(self),
                lid.spec_index(),
                NodeDataTy::Leaf(leaf_ty),
                key,
                idx,
            )),
    {
        match self.add_element(&location, NodeDataTy::Leaf(leaf_ty)) {
            Ok(i) => Ok(LeafID(i)),
            Err(e) => Err(e),
        }
    }

    /// The element under a handle, if the handle names a live element of
    /// matching kind.
    pub fn get(&self, id: AnyID) -> (r: Option<&NodeData>)
        ensures
            self.contains_any(id) ==> (r matches Some(d) && d.spec_ty() == self.ty_of(
                id.spec_index(),
            ) && d.spec_name() == self.name_of(id.spec_index())),
            !self.contains_any(id) ==> r is None,
    {
        if self.contains(id) {
            let i = id.into_raw();
            Some(&self.slots[i].data)
        } else {
            None
        }
    }

    /// Replace the name of the given element. Unknown handles are a
    /// `TargetNotFound` error and leave the tree unchanged.
    pub fn set_name(&mut self, target: AnyID, name: String) -> (r: Result<(), TargetError>)
        requires
            old(self).wf(),
        ensures
            final(self).wf(),
            !old(self).contains_any(target) ==> r == Err::<(), TargetError>(
                TargetError::TargetNotFound,
            ) && *final(self) == *old(self),
            old(self).contains_any(target) ==> r == Ok::<(), TargetError>(())
                && final(self).name_of(target.spec_index()) == name@ && spec_payload_edited(
                *old(self),
                *final(self),
                target.spec_index(),
            ) && final(self).ty_of(target.spec_index()) == old(self).ty_of(target.spec_index()),
    {
        if !self.contains(target) {
            return Err(TargetError::TargetNotFound);
        }
        let t = target.into_raw();
        let ghost g1 = *self;
        self.slots[t].data.rename(name);
        proof {
            lemma_payload_edit_wf(g1, *self, t as int);
        }
        Ok(())
    }

    /// Replace the blend of the given element; elements without an own
    /// blend (passthrough groups and notes) are left as they are.
    /// Unknown handles are a `TargetNotFound` error and leave the tree
    /// unchanged.
    pub fn set_blend(&mut self, target: AnyID, b: crate::Blend) -> (r: Result<(), TargetError>)
        requires
            old(self).wf(),
        ensures
            final(self).wf(),
            !old(self).contains_any(target) ==> r == Err::<(), TargetError>(
                TargetError::TargetNotFound,
            ) && *final(self) == *old(self),
            old(self).contains_any(target) ==> r == Ok::<(), TargetError>(())
                && final(self).ty_of(target.spec_index()) == spec_set_ty_blend(
                old(self).ty_of(target.spec_index()),
                b,
            ) && spec_payload_edited(*old(self), *final(self), target.spec_index())
                && final(self).name_of(target.spec_index()) == old(self).name_of(
                target.spec_index(),
            ),
    {
        if !self.contains(target) {
            return Err(TargetError::TargetNotFound);
        }
        let t = target.into_raw();
        let ghost g1 = *self;
        self.slots[t].data.set_blend(b);
        proof {
            assert(spec_set_ty_blend(g1.ty_of(t as int), b) is Node <==> g1.ty_of(
                t as int,
            ) is Node);
            lemma_payload_edit_wf(g1, *self, t as int);
        }
        Ok(())
    }

    /// The handle under which a live element is exposed.
    fn id_at(&self, i: usize) -> (r: AnyID)
        requires
            self.live(i as int),
        ensures
            r == self.any_of(i as int),
    {
        if self.slots[i].data.is_leaf() {
            AnyID::Leaf(LeafID(i))
        } else {
            AnyID::Node(NodeID(i))
        }
    }

    /// The ordered children of a node, or of the root, top first. Stored
    /// order is front-to-back for hit testing; compositing paints it
    /// bottom to top, i.e. in reverse. An unknown parent is a
    /// `TargetNotFound` error.
    pub fn children_of(&self, parent: Option<NodeID>) -> (r: Result<Vec<AnyID>, TargetError>)
        requires
            self.wf(),
        ensures
            ({
                let key = match parent {
                    None => None::<int>,
                    Some(n) => Some(n.spec_index()),
                };
                &&& (match parent {
                    None => true,
                    Some(n) => self.is_node(n.spec_index()),
                }) <==> r is Ok
                &&& (r matches Ok(list) ==> list@.len() == self.child_list(key).len() && (forall|
                    k: int,
                |
                    0 <= k < list@.len() ==> list@[k] == self.any_of(
                        #[trigger] self.child_list(key)[k],
                    )))
                &&& (r is Err ==> r == Err::<Vec<AnyID>, TargetError>(TargetError::TargetNotFound))
            }),
    {
        let key: Option<usize> = match parent {
            None => None,
            Some(n) => {
                if !self.contains(AnyID::Node(n)) {
                    return Err(TargetError::TargetNotFound);
                }
                Some(n.0)
            },
        };
        proof {
            assert(self.list_ok(spec_key(key)));
        }
        let list = self.list_of(key);
        let mut out: Vec<AnyID> = Vec::new();
        let mut k: usize = 0;
        while k < list.len()
            invariant
                self.wf(),
                k <= list@.len(),
                self.list_ok(spec_key(key)),
                list@.map_values(|c: usize| c as int) == self.child_list(spec_key(key)),
                out@.len() == k,
                forall|q: int|
                    0 <= q < k ==> out@[q] == self.any_of(
                        #[trigger] self.child_list(spec_key(key))[q],
                    ),
            decreases list@.len() - k,
        {
            let c = list[k];
            proof {
                assert(self.child_list(spec_key(key))[k as int] == c as int);
                assert(self.live(c as int));
            }
            out.push(self.id_at(c));
            k = k + 1;
        }
        Ok(out)
    }

    /// The handles of every live element of the tree, each once, in no
    /// particular order.
    pub fn live_ids(&self) -> (r: Vec<AnyID>)
        ensures
            r@.no_duplicates(),
            forall|a: AnyID| #[trigger] r@.contains(a) <==> self.contains_any(a),
    {
        let mut out: Vec<AnyID> = Vec::new();
        let mut i: usize = 0;
        while i < self.slots.len()
            invariant
                i <= self.num_slots(),
                out@.no_duplicates(),
                forall|a: AnyID|
                    #[trigger] out@.contains(a) <==> (self.contains_any(a) && a.spec_index()
                        < i),
            decreases self.num_slots() - i,
        {
            let ghost out_pre = out@;
            let ghost pushed: AnyID = AnyID::Leaf(LeafID(i));
            let mut did_push = false;
            if self.slots[i].live {
                let id = if self.slots[i].data.is_leaf() {
                    AnyID::Leaf(LeafID(i))
                } else {
                    AnyID::Node(NodeID(i))
                };
                proof {
                    pushed = id;
                }
                out.push(id);
                did_push = true;
            }
            i = i + 1;
            proof {
                assert(out@.no_duplicates()) by {
                    if did_push {
                        assert(!out_pre.contains(pushed)) by {
                            if out_pre.contains(pushed) {
                                assert(pushed.spec_index() < i - 1);
                            }
                        }
                        assert forall|q1: int, q2: int|
                            0 <= q1 < out@.len() && 0 <= q2 < out@.len() && q1 != q2 implies out@[
                            q1] != out@[q2] by {
                            if q1 == out@.len() - 1 {
                                assert(out_pre[q2] == out@[q2]);
                                assert(out_pre.contains(out@[q2]));
                            } else if q2 == out@.len() - 1 {
                                assert(out_pre[q1] == out@[q1]);
                                assert(out_pre.contains(out@[q1]));
                            } else {
                                assert(out_pre[q1] == out@[q1] && out_pre[q2] == out@[q2]);
                            }
                        }
                    }
                }
                assert forall|a: AnyID| #[trigger] out@.contains(a) <==> (self.contains_any(a)
                    && a.spec_index() < i) by {
                    if out@.contains(a) {
                        if out_pre.contains(a) {
                        } else {
                            let w = choose|w: int| 0 <= w < out@.len() && out@[w] == a;
                            assert(w == out@.len() - 1 && did_push) by {
                                if w < out_pre.len() {
                                    assert(out_pre[w] == a);
                                }
                            }
                            assert(a == pushed);
                            assert(self.contains_any(a) && a.spec_index() == i - 1);
                        }
                    } else {
                        assert(!out_pre.contains(a)) by {
                            if out_pre.contains(a) {
                                let w = choose|w: int|
                                    0 <= w < out_pre.len() && out_pre[w] == a;
                                assert(out@[w] == a);
                            }
                        }
                        if self.contains_any(a) && a.spec_index() < i {
                            assert(a.spec_index() == i - 1);
                            assert(self.live(i - 1));
                            assert(did_push);
                            assert(a == pushed) by {
                                match a {
                                    AnyID::Leaf(l) => {
                                        assert(self.is_leaf(i - 1));
                                    },
                                    AnyID::Node(n) => {
                                        assert(self.is_node(i - 1));
                                    },
                                }
                            }
                            assert(out@[out@.len() - 1] == pushed);
                            assert(false);
                        }
                    }
                }
            }
        }
        out
    }

    /// The blend assigned to the given element, or `None` for elements
    /// without an own blend (passthrough groups and notes). Unknown
    /// handles are a `TargetNotFound` error.
    pub fn blend_of(&self, target: AnyID) -> (r: Result<Option<crate::Blend>, TargetError>)
        ensures
            self.contains_any(target) ==> r == Ok::<Option<crate::Blend>, TargetError>(
                spec_data_blend(self.ty_of(target.spec_index())),
            ),
            !self.contains_any(target) ==> r == Err::<Option<crate::Blend>, TargetError>(
                TargetError::TargetNotFound,
            ),
    {
        match self.get(target) {
            Some(data) => Ok(data.blend()),
            None => Err(TargetError::TargetNotFound),
        }
    }
}

/// How a freshly added element relates the new tree to the old: one slot
/// appended under the resolved parent key at the resolved index, with
/// every existing element, link and sibling list untouched.
pub open spec fn spec_added(
    g1: BlendGraph,
    g2: BlendGraph,
    new: int,
    ty: NodeDataTy,
    key: Option<int>,
    idx: int,
) -> bool {
    &&& new == g1.num_slots()
    &&& g2.num_slots() == g1.num_slots() + 1
    &&& g2.live(new)
    &&& g2.ty_of(new) == ty
    &&& g2.name_of(new) == Seq::<char>::empty()
    &&& g2.parent_of(new) == key
    &&& g2.child_list(key) == g1.child_list(key).insert(idx, new)
    &&& g2.child_list(Some(new)) == Seq::<int>::empty()
    &&& forall|j: int|
        0 <= j < g1.num_slots() ==> #[trigger] g2.live(j) == g1.live(j) && g2.ty_of(j) == g1.ty_of(
            j,
        ) && g2.name_of(j) == g1.name_of(j) && g2.parent_of(j) == g1.parent_of(j)
    &&& forall|p: int|
        0 <= p < g1.num_slots() && Some(p) != key ==> #[trigger] g2.child_list(Some(p))
            == g1.child_list(Some(p))
    &&& (key != None::<int> ==> g2.child_list(None) == g1.child_list(None))
}

/// Parent links that agree on every live element keep every terminating
/// ancestor chain terminating.
proof fn lemma_bounded_frame(g1: BlendGraph, g2: BlendGraph, i: int, fuel: nat)
    requires
        g1.parents_ok(),
        g1.live(i),
        g1.bounded(i, fuel),
        forall|j: int| g1.live(j) ==> #[trigger] g2.parent_of(j) == g1.parent_of(j),
    ensures
        g2.bounded(i, fuel),
    decreases fuel,
{
    match g1.parent_of(i) {
        None => {},
        Some(p) => {
            assert(g1.is_node(p));
            lemma_bounded_frame(g1, g2, p, (fuel - 1) as nat);
        },
    }
}

/// A tree extended as `spec_added` describes stays well formed.
proof fn lemma_added_wf(
    g1: BlendGraph,
    g2: BlendGraph,
    new: int,
    ty: NodeDataTy,
    key: Option<int>,
    idx: int,
)
    requires
        g1.wf(),
        spec_added(g1, g2, new, ty, key, idx),
        0 <= idx <= g1.child_list(key).len(),
        key matches Some(p) ==> g1.is_node(p),
    ensures
        g2.wf(),
{
    g1.child_list(key).insert_ensures(idx, new);
    let l1 = g1.child_list(key);
    let l2 = g2.child_list(key);
    assert(g1.list_ok(key));
    assert forall|j: int| g1.live(j) implies #[trigger] g2.parent_of(j) == g1.parent_of(j) by {
        assert(g2.live(j) == g1.live(j));
    }
    assert(g2.parents_ok()) by {
        assert forall|i: int| g2.live(i) implies {
            &&& (match g2.parent_of(i) {
                None => true,
                Some(p) => g2.is_node(p),
            })
            &&& exists|f: nat| g2.bounded(i, f)
        } by {
            if i < g1.num_slots() {
                assert(g1.live(i));
                assert(exists|f: nat| g1.bounded(i, f)) by {
                // Mentioning the parent link lets the termination
                // clause of `parents_ok` fire.
                let probe = g1.parent_of(i);
                }
                let f = choose|f: nat| g1.bounded(i, f);
                lemma_bounded_frame(g1, g2, i, f);
                assert(g2.bounded(i, f));
                if g2.parent_of(i) is Some {
                    let pp = g2.parent_of(i)->0;
                    assert(g1.is_node(pp));
                    assert(g2.live(pp) == g1.live(pp));
                    assert(g2.is_node(pp));
                }
            } else {
                assert(i == new);
                match key {
                    None => {
                        assert(g2.bounded(new, 0));
                    },
                    Some(p) => {
                        assert(g1.is_node(p));
                        assert(exists|f: nat| g1.bounded(p, f)) by {
                    // Mentioning the parent link lets the termination
                    // clause of `parents_ok` fire.
                    let probe = g1.parent_of(p);
                        }
                        let f = choose|f: nat| g1.bounded(p, f);
                        lemma_bounded_frame(g1, g2, p, f);
                        assert(g2.bounded(new, f + 1));
                        assert(g2.live(p) == g1.live(p));
                        assert(g2.is_node(p));
                    },
                }
            }
        }
    }
    assert(g2.children_ok()) by {
        assert(g2.list_ok(key)) by {
            assert forall|q: int| 0 <= q < l2.len() implies g2.live(#[trigger] l2[q])
                && g2.parent_of(l2[q]) == key by {
                if q < idx {
                    assert(l2[q] == l1[q]);
                    assert(g1.live(l1[q]) && g1.parent_of(l1[q]) == key);
                    assert(g2.live(l1[q]) == g1.live(l1[q]));
                } else if q == idx {
                    assert(l2[q] == new);
                } else {
                    assert(l2[q] == l1[q - 1]);
                    assert(g1.live(l1[q - 1]) && g1.parent_of(l1[q - 1]) == key);
                    assert(g2.live(l1[q - 1]) == g1.live(l1[q - 1]));
                }
            }
            assert(l2.no_duplicates()) by {
                assert forall|q1: int, q2: int|
                    0 <= q1 < l2.len() && 0 <= q2 < l2.len() && q1 != q2 implies l2[q1] != l2[
                    q2
                ] by {
                    if l2[q1] == new && q1 != idx {
                        assert(g1.list_ok(key));
                        if q1 < idx {
                            assert(l1[q1] == new);
                            assert(g1.live(new));
                        } else {
                            assert(l1[q1 - 1] == new);
                            assert(g1.live(new));
                        }
                    }
                    if l2[q2] == new && q2 != idx {
                        assert(g1.list_ok(key));
                        if q2 < idx {
                            assert(l1[q2] == new);
                            assert(g1.live(new));
                        } else {
                            assert(l1[q2 - 1] == new);
                            assert(g1.live(new));
                        }
                    }
                }
            }
        }
        assert forall|p2: int| g2.is_node(p2) implies g2.list_ok(Some(p2)) by {
            if Some(p2) != key {
                if p2 == new {
                    assert(g2.child_list(Some(p2)).len() == 0);
                } else {
                    assert(g1.is_node(p2));
                    assert(g2.child_list(Some(p2)) == g1.child_list(Some(p2)));
                    assert(g1.list_ok(Some(p2)));
                }
            }
        }
        if key != None::<int> {
            assert(g2.list_ok(None)) by {
                assert(g2.child_list(None) == g1.child_list(None));
                assert(g1.list_ok(None));
            }
        }
        assert forall|i: int| g2.is_leaf(i) implies (#[trigger] g2.child_list(Some(i))).len()
            == 0 by {
            if i < g1.num_slots() {
                assert(g1.is_leaf(i));
                assert(Some(i) != key);
                assert(g2.child_list(Some(i)) == g1.child_list(Some(i)));
            }
        }
        assert forall|i: int|
            !g2.live(i) && 0 <= i < g2.num_slots() implies (#[trigger] g2.child_list(
            Some(i),
        )).len() == 0 by {
            assert(i < g1.num_slots());
            assert(!g1.live(i));
            assert(Some(i) != key);
            assert(g2.child_list(Some(i)) == g1.child_list(Some(i)));
        }
        assert forall|i: int| g2.live(i) implies (#[trigger] g2.child_list(
            g2.parent_of(i),
        )).contains(i) by {
            if i < g1.num_slots() {
                assert(g1.live(i));
                assert(g1.child_list(g1.parent_of(i)).contains(i));
                let lp = g1.child_list(g1.parent_of(i));
                let q = choose|q: int| 0 <= q < lp.len() && lp[q] == i;
                if g1.parent_of(i) == key {
                    if q < idx {
                        assert(l2[q] == i);
                    } else {
                        assert(l2[q + 1] == i);
                    }
                    assert(l2.contains(i));
                }
            } else {
                assert(l2[idx] == i);
                assert(l2.contains(i));
            }
        }
    }
}

impl BlendGraph {
    /// More fuel never hurts a terminating chain.
    proof fn lemma_bounded_mono(&self, i: int, f1: nat, f2: nat)
        requires
            self.bounded(i, f1),
            f1 <= f2,
        ensures
            self.bounded(i, f2),
        decreases f1,
    {
        match self.parent_of(i) {
            None => {},
            Some(p) => {
                self.lemma_bounded_mono(p, (f1 - 1) as nat, (f2 - 1) as nat);
            },
        }
    }

    /// Any two fuels that let the chain terminate spell out the same
    /// chain.
    proof fn lemma_chain_fuel(&self, i: int, f1: nat, f2: nat)
        requires
            self.bounded(i, f1),
            self.bounded(i, f2),
        ensures
            self.chain(i, f1) == self.chain(i, f2),
        decreases f1,
    {
        match self.parent_of(i) {
            None => {},
            Some(p) => {
                self.lemma_chain_fuel(p, (f1 - 1) as nat, (f2 - 1) as nat);
            },
        }
    }

    /// The ancestor chain, unrolled one parent step.
    proof fn lemma_ancestors_step(&self, i: int)
        requires
            exists|f: nat| self.bounded(i, f),
        ensures
            match self.parent_of(i) {
                None => self.ancestors_of(i) == Seq::<int>::empty(),
                Some(p) => self.ancestors_of(i) == seq![p] + self.ancestors_of(p),
            },
    {
        let f = choose|f: nat| self.bounded(i, f);
        assert(self.bounded(i, self.fuel_of(i)));
        let fi = self.fuel_of(i);
        match self.parent_of(i) {
            None => {},
            Some(p) => {
                assert(self.bounded(p, (fi - 1) as nat));
                assert(self.bounded(p, self.fuel_of(p)));
                self.lemma_chain_fuel(p, (fi - 1) as nat, self.fuel_of(p));
            },
        }
    }

    /// Every entry of a live element's ancestor chain is a live node.
    proof fn lemma_chain_nodes(&self, i: int, f: nat)
        requires
            self.parents_ok(),
            self.live(i),
            self.bounded(i, f),
        ensures
            forall|k: int|
                0 <= k < self.chain(i, f).len() ==> self.is_node(#[trigger] self.chain(i, f)[k]),
        decreases f,
    {
        match self.parent_of(i) {
            None => {},
            Some(p) => {
                assert(self.is_node(p));
                self.lemma_chain_nodes(p, (f - 1) as nat);
                let c = self.chain(i, f);
                let cp = self.chain(p, (f - 1) as nat);
                assert forall|k: int| 0 <= k < c.len() implies self.is_node(#[trigger] c[k]) by {
                    if k > 0 {
                        assert(c[k] == cp[k - 1]);
                    }
                }
            },
        }
    }

    /// One step of the ancestor chain of a live element: empty for a
    /// child of the root, else the parent followed by the parent's own
    /// chain.
    pub proof fn lemma_ancestors_unfold(&self, i: int)
        requires
            self.wf(),
            self.live(i),
        ensures
            match self.parent_of(i) {
                None => self.ancestors_of(i) == Seq::<int>::empty(),
                Some(p) => self.ancestors_of(i) == seq![p] + self.ancestors_of(p),
            },
    {
        assert(exists|f: nat| self.bounded(i, f)) by {
            // Mentioning the parent link lets the termination
            // clause of `parents_ok` fire.
            let probe = self.parent_of(i);
        }
        self.lemma_ancestors_step(i);
    }

    /// Every entry of a live element's ancestor chain is a live node.
    pub proof fn lemma_ancestors_nodes(&self, i: int)
        requires
            self.wf(),
            self.live(i),
        ensures
            forall|k: int|
                0 <= k < self.ancestors_of(i).len() ==> self.is_node(
                    #[trigger] self.ancestors_of(i)[k],
                ),
    {
        assert(exists|f: nat| self.bounded(i, f)) by {
            // Mentioning the parent link lets the termination
            // clause of `parents_ok` fire.
            let probe = self.parent_of(i);
        }
        assert(self.bounded(i, self.fuel_of(i)));
        self.lemma_chain_nodes(i, self.fuel_of(i));
    }

    /// The ancestor chain of a live element, nearest parent first,
    /// excluding the implicit root.
    pub fn ancestors(&self, i: usize) -> (r: Vec<usize>)
        requires
            self.wf(),
            self.live(i as int),
        ensures
            r@.map_values(|x: usize| x as int) == self.ancestors_of(i as int),
    {
        let mut out: Vec<usize> = Vec::new();
        proof {
            assert(exists|f: nat| self.bounded(i as int, f)) by {
                // Mentioning the parent link lets the termination
                // clause of `parents_ok` fire.
                let probe = self.parent_of(i as int);
            }
        }
        let ghost mut fuel: nat = choose|f: nat| self.bounded(i as int, f);
        let mut cur: Option<usize> = self.slots[i].parent;
        proof {
            self.lemma_ancestors_step(i as int);
            if cur is Some {
                fuel = (fuel - 1) as nat;
            }
        }
        loop
            invariant
                self.wf(),
                match cur {
                    None => self.ancestors_of(i as int) == out@.map_values(|x: usize| x as int),
                    Some(c) => {
                        &&& self.is_node(c as int)
                        &&& self.bounded(c as int, fuel)
                        &&& self.ancestors_of(i as int) == out@.map_values(|x: usize| x as int)
                            + seq![c as int] + self.ancestors_of(c as int)
                    },
                },
            decreases fuel + (if cur is Some {
                1nat
            } else {
                0nat
            }),
        {
            match cur {
                None => {
                    return out;
                },
                Some(c) => {
                    out.push(c);
                    proof {
                        self.lemma_ancestors_step(c as int);
                    }
                    cur = self.slots[c].parent;
                    proof {
                        assert(out@.map_values(|x: usize| x as int) == out@.subrange(
                            0,
                            out@.len() - 1,
                        ).map_values(|x: usize| x as int).push(c as int)) by {
                            assert(out@.map_values(|x: usize| x as int) =~= out@.subrange(
                                0,
                                out@.len() - 1,
                            ).map_values(|x: usize| x as int).push(c as int));
                        }
                        match cur {
                            None => {
                                assert(self.ancestors_of(i as int) =~= out@.map_values(
                                    |x: usize| x as int,
                                ));
                            },
                            Some(n) => {
                                fuel = (fuel - 1) as nat;
                                assert(self.ancestors_of(i as int) =~= out@.map_values(
                                    |x: usize| x as int,
                                ) + seq![n as int] + self.ancestors_of(n as int));
                            },
                        }
                    }
                },
            }
        }
    }
}

impl Slot {
    /// Rewire this slot's parent link, leaving everything else alone.
    fn set_parent(&mut self, key: Option<usize>)
        ensures
            final(self).parent == key,
            final(self).live == old(self).live,
            final(self).data == old(self).data,
            final(self).children == old(self).children,
    {
        self.parent = key;
    }
}

/// Would making `key` the parent of `t` close a cycle: is the new parent
/// `t` itself or one of `t`'s descendants?
pub open spec fn spec_cycle(g: BlendGraph, t: int, key: Option<int>) -> bool {
    match key {
        None => false,
        Some(p) => p == t || g.ancestors_of(p).contains(t),
    }
}

/// What a reparent decides before touching the tree: the error it is
/// rejected with, or the resolved parent key and insertion index.
pub open spec fn spec_reparent_plan(
    g: BlendGraph,
    target: AnyID,
    destination: Location,
) -> Result<(Option<int>, int), ReparentError> {
    if !g.contains_any(target) {
        Err(ReparentError::TargetError(TargetError::TargetNotFound))
    } else {
        match g.spec_resolve(destination) {
            None => Err(ReparentError::DestinationNotFound),
            Some((key, idx)) => {
                if spec_cycle(g, target.spec_index(), key) {
                    Err(ReparentError::WouldCycle)
                } else {
                    Ok((key, idx))
                }
            },
        }
    }
}

/// How a completed reparent relates the new tree to the old: `t` now
/// hangs off `key`, slotted in at the destination index (clamped to the
/// list's new end); it is gone from its old sibling list; and every
/// other element, link and sibling list is untouched.
pub open spec fn spec_reparented(
    g1: BlendGraph,
    g2: BlendGraph,
    t: int,
    key: Option<int>,
    idx: int,
) -> bool {
    let ok = g1.parent_of(t);
    let pos = spec_position(g1.child_list(ok), t);
    let removed = g1.child_list(ok).remove(pos);
    let base = if key == ok {
        removed
    } else {
        g1.child_list(key)
    };
    let idx2 = if idx <= base.len() {
        idx
    } else {
        base.len() as int
    };
    &&& g2.num_slots() == g1.num_slots()
    &&& forall|j: int|
        0 <= j < g1.num_slots() ==> #[trigger] g2.live(j) == g1.live(j) && g2.ty_of(j)
            == g1.ty_of(j) && g2.name_of(j) == g1.name_of(j)
    &&& g2.parent_of(t) == key
    &&& forall|j: int|
        0 <= j < g1.num_slots() && j != t ==> #[trigger] g2.parent_of(j) == g1.parent_of(j)
    &&& g2.child_list(key) == base.insert(idx2, t)
    &&& (key != ok ==> g2.child_list(ok) == removed)
    &&& forall|p: int|
        0 <= p < g1.num_slots() && Some(p) != key && Some(p) != ok ==> #[trigger] g2.child_list(
            Some(p),
        ) == g1.child_list(Some(p))
    &&& (key != None::<int> && ok != None::<int> ==> g2.child_list(None) == g1.child_list(None))
}

/// A chain that avoids the one rewired element is untouched by the
/// rewiring.
proof fn lemma_avoid_chain(g1: BlendGraph, g2: BlendGraph, t: int, j: int, fuel: nat)
    requires
        g1.parents_ok(),
        g1.live(j),
        j != t,
        g1.bounded(j, fuel),
        !g1.chain(j, fuel).contains(t),
        forall|x: int| g1.live(x) && x != t ==> #[trigger] g2.parent_of(x) == g1.parent_of(x),
    ensures
        g2.bounded(j, fuel),
        g2.chain(j, fuel) == g1.chain(j, fuel),
    decreases fuel,
{
    match g1.parent_of(j) {
        None => {},
        Some(p) => {
            assert(g1.is_node(p));
            let c = g1.chain(j, fuel);
            let cp = g1.chain(p, (fuel - 1) as nat);
            assert(c == seq![p] + cp);
            assert(c.contains(p)) by {
                assert(c[0] == p);
            }
            assert(p != t);
            assert(!cp.contains(t)) by {
                if cp.contains(t) {
                    let k = choose|k: int| 0 <= k < cp.len() && cp[k] == t;
                    assert(c[k + 1] == t);
                    assert(c.contains(t));
                }
            }
            lemma_avoid_chain(g1, g2, t, p, (fuel - 1) as nat);
        },
    }
}

/// Once the rewired element's own chain terminates, every chain does.
proof fn lemma_rewire_bounded(
    g1: BlendGraph,
    g2: BlendGraph,
    t: int,
    tf: nat,
    j: int,
    fuel: nat,
)
    requires
        g1.parents_ok(),
        g1.live(j),
        g1.bounded(j, fuel),
        g2.bounded(t, tf),
        forall|x: int| g1.live(x) && x != t ==> #[trigger] g2.parent_of(x) == g1.parent_of(x),
    ensures
        exists|f: nat| g2.bounded(j, f),
    decreases fuel,
{
    if j == t {
        assert(g2.bounded(j, tf));
    } else {
        match g1.parent_of(j) {
            None => {
                assert(g2.bounded(j, 0));
            },
            Some(p) => {
                assert(g1.is_node(p));
                lemma_rewire_bounded(g1, g2, t, tf, p, (fuel - 1) as nat);
                let fp = choose|f: nat| g2.bounded(p, f);
                assert(g2.bounded(j, fp + 1));
            },
        }
    }
}

/// A tree rewired as `spec_reparented` describes, with the cycle check
/// passed, stays well formed.
#[verifier::rlimit(100)]
#[verifier::spinoff_prover]
proof fn lemma_reparented_wf(g1: BlendGraph, g2: BlendGraph, t: int, key: Option<int>, idx: int)
    requires
        g1.wf(),
        g1.live(t),
        0 <= idx,
        spec_reparented(g1, g2, t, key, idx),
        !spec_cycle(g1, t, key),
        key matches Some(p) ==> g1.is_node(p),
    ensures
        g2.wf(),
{
    let ok = g1.parent_of(t);
    let lo1 = g1.child_list(ok);
    assert(g1.list_ok(ok));
    assert(lo1.contains(t));
    let pos = spec_position(lo1, t);
    assert(0 <= pos < lo1.len() && lo1[pos] == t) by {
        let w = choose|k: int| 0 <= k < lo1.len() && lo1[k] == t;
        assert(lo1[w] == t);
    }
    let removed = lo1.remove(pos);
    lo1.remove_ensures(pos);
    let base = if key == ok {
        removed
    } else {
        g1.child_list(key)
    };
    let idx2 = if idx <= base.len() {
        idx
    } else {
        base.len() as int
    };
    assert(g1.list_ok(key));
    base.insert_ensures(idx2, t);
    // The old list minus `t` still holds no duplicates and no `t`.
    assert(removed.no_duplicates()) by {
        assert forall|q1: int, q2: int|
            0 <= q1 < removed.len() && 0 <= q2 < removed.len() && q1 != q2 implies removed[q1]
            != removed[q2] by {
            let m1 = if q1 < pos { q1 } else { q1 + 1 };
            let m2 = if q2 < pos { q2 } else { q2 + 1 };
            assert(removed[q1] == lo1[m1]);
            assert(removed[q2] == lo1[m2]);
        }
    }
    assert(!removed.contains(t)) by {
        if removed.contains(t) {
            let q = choose|q: int| 0 <= q < removed.len() && removed[q] == t;
            let m = if q < pos { q } else { q + 1 };
            assert(removed[q] == lo1[m]);
            assert(lo1[m] == t && lo1[pos] == t && m != pos);
        }
    }
    assert(!base.contains(t)) by {
        if key != ok && base.contains(t) {
            let q = choose|q: int| 0 <= q < base.len() && base[q] == t;
            assert(g1.parent_of(base[q]) == key);
            assert(g1.parent_of(t) == ok);
        }
    }
    // Parent links agree everywhere but at `t`.
    assert forall|x: int| g1.live(x) && x != t implies #[trigger] g2.parent_of(x) == g1.parent_of(
        x,
    ) by {
        assert(g2.live(x) == g1.live(x));
    }
    assert(g2.parents_ok()) by {
        let tf: nat = match key {
            None => 0,
            Some(p) => {
                assert(p != t);
                assert(exists|f: nat| g1.bounded(p, f)) by {
                    // Mentioning the parent link lets the termination
                    // clause of `parents_ok` fire.
                    let probe = g1.parent_of(p);
                }
                let fp = choose|f: nat| g1.bounded(p, f);
                assert(g1.bounded(p, g1.fuel_of(p)));
                g1.lemma_chain_fuel(p, fp, g1.fuel_of(p));
                assert(!g1.chain(p, fp).contains(t));
                lemma_avoid_chain(g1, g2, t, p, fp);
                assert(g2.bounded(t, fp + 1));
                fp + 1
            },
        };
        assert(g2.bounded(t, tf));
        assert forall|i: int| g2.live(i) implies {
            &&& (match g2.parent_of(i) {
                None => true,
                Some(p) => g2.is_node(p),
            })
            &&& exists|f: nat| g2.bounded(i, f)
        } by {
            assert(g1.live(i));
            assert(exists|f: nat| g1.bounded(i, f)) by {
                // Mentioning the parent link lets the termination
                // clause of `parents_ok` fire.
                let probe = g1.parent_of(i);
            }
            let f = choose|f: nat| g1.bounded(i, f);
            lemma_rewire_bounded(g1, g2, t, tf, i, f);
            if g2.parent_of(i) is Some {
                let pp = g2.parent_of(i)->0;
                if i == t {
                    assert(g1.is_node(pp));
                } else {
                    assert(g1.is_node(pp));
                }
                assert(g2.live(pp) == g1.live(pp));
                assert(g2.is_node(pp));
            }
        }
    }
    assert(g2.children_ok()) by {
        let l2k = g2.child_list(key);
        // The destination list: the base entries, plus `t` at its slot.
        assert(g2.list_ok(key)) by {
            assert forall|q: int| 0 <= q < l2k.len() implies g2.live(#[trigger] l2k[q])
                && g2.parent_of(l2k[q]) == key by {
                if q == idx2 {
                    assert(l2k[q] == t);
                } else {
                    let b = if q < idx2 { base[q] } else { base[q - 1] };
                    assert(l2k[q] == b);
                    let m = if key == ok {
                        let m0 = if q < idx2 { q } else { q - 1 };
                        if m0 < pos { m0 } else { m0 + 1 }
                    } else {
                        if q < idx2 { q } else { q - 1 }
                    };
                    if key == ok {
                        assert(b == lo1[m]);
                        assert(g1.live(b) && g1.parent_of(b) == key);
                    } else {
                        assert(g1.live(b) && g1.parent_of(b) == key);
                    }
                    assert(b != t);
                    assert(g2.live(b) == g1.live(b));
                }
            }
            assert(l2k.no_duplicates()) by {
                assert forall|q1: int, q2: int|
                    0 <= q1 < l2k.len() && 0 <= q2 < l2k.len() && q1 != q2 implies l2k[q1]
                    != l2k[q2] by {
                    if q1 != idx2 && q2 != idx2 {
                        let m1 = if q1 < idx2 { q1 } else { q1 - 1 };
                        let m2 = if q2 < idx2 { q2 } else { q2 - 1 };
                        assert(l2k[q1] == base[m1] && l2k[q2] == base[m2]);
                        assert(base.no_duplicates());
                    } else if q1 == idx2 {
                        let m2 = if q2 < idx2 { q2 } else { q2 - 1 };
                        assert(l2k[q1] == t && l2k[q2] == base[m2]);
                    } else {
                        let m1 = if q1 < idx2 { q1 } else { q1 - 1 };
                        assert(l2k[q2] == t && l2k[q1] == base[m1]);
                    }
                }
            }
        }
        // The source list with `t` taken out.
        if key != ok {
            assert(g2.list_ok(ok)) by {
                let l2o = g2.child_list(ok);
                assert(l2o == removed);
                assert forall|q: int| 0 <= q < l2o.len() implies g2.live(#[trigger] l2o[q])
                    && g2.parent_of(l2o[q]) == ok by {
                    let m = if q < pos { q } else { q + 1 };
                    assert(l2o[q] == lo1[m]);
                    assert(g1.live(lo1[m]) && g1.parent_of(lo1[m]) == ok);
                    assert(l2o[q] != t);
                    assert(g2.live(l2o[q]) == g1.live(l2o[q]));
                }
            }
        }
        // Untouched lists stay sound.
        assert forall|p2: int| g2.is_node(p2) implies g2.list_ok(Some(p2)) by {
            assert(g2.live(p2) == g1.live(p2));
            assert(g1.is_node(p2));
            if Some(p2) != key && Some(p2) != ok {
                assert(g2.child_list(Some(p2)) == g1.child_list(Some(p2)));
                assert(g1.list_ok(Some(p2)));
                let lp = g1.child_list(Some(p2));
                assert forall|q: int| 0 <= q < lp.len() implies g2.live(#[trigger] lp[q])
                    && g2.parent_of(lp[q]) == Some(p2) by {
                    assert(g1.live(lp[q]) && g1.parent_of(lp[q]) == Some(p2));
                    assert(lp[q] != t);
                    assert(g2.live(lp[q]) == g1.live(lp[q]));
                }
            }
        }
        if key != None::<int> && ok != None::<int> {
            assert(g2.list_ok(None)) by {
                assert(g2.child_list(None) == g1.child_list(None));
                assert(g1.list_ok(None));
                let lr = g1.child_list(None);
                assert forall|q: int| 0 <= q < lr.len() implies g2.live(#[trigger] lr[q])
                    && g2.parent_of(lr[q]) == None::<int> by {
                    assert(g1.live(lr[q]) && g1.parent_of(lr[q]) == None::<int>);
                    assert(lr[q] != t);
                    assert(g2.live(lr[q]) == g1.live(lr[q]));
                }
            }
        }
        // Leaves and dead slots still have no children.
        assert forall|i: int| g2.is_leaf(i) implies (#[trigger] g2.child_list(Some(i))).len()
            == 0 by {
            assert(g2.live(i) == g1.live(i));
            assert(g1.is_leaf(i));
            assert(Some(i) != key && Some(i) != ok);
            assert(g2.child_list(Some(i)) == g1.child_list(Some(i)));
        }
        assert forall|i: int|
            !g2.live(i) && 0 <= i < g2.num_slots() implies (#[trigger] g2.child_list(
            Some(i),
        )).len() == 0 by {
            assert(g2.live(i) == g1.live(i));
            assert(Some(i) != key && Some(i) != ok);
            assert(g2.child_list(Some(i)) == g1.child_list(Some(i)));
        }
        // Every live element still sits in its parent's list.
        assert forall|i: int| g2.live(i) implies (#[trigger] g2.child_list(
            g2.parent_of(i),
        )).contains(i) by {
            assert(g1.live(i));
            if i == t {
                assert(l2k[idx2] == t);
                assert(l2k.contains(t));
            } else {
                assert(g2.parent_of(i) == g1.parent_of(i));
                let gp = g1.parent_of(i);
                assert(g1.child_list(gp).contains(i));
                let lp = g1.child_list(gp);
                let q = choose|q: int| 0 <= q < lp.len() && lp[q] == i;
                assert(i != t);
                if gp == key {
                    if key == ok {
                        // through removal then insertion
                        let q2 = if q < pos { q } else { q - 1 };
                        assert(lo1[q] == i && lo1[pos] == t);
                        assert(q != pos);
                        assert(removed[q2] == i);
                        let q3 = if q2 < idx2 { q2 } else { q2 + 1 };
                        assert(l2k[q3] == i);
                        assert(l2k.contains(i));
                    } else {
                        let q3 = if q < idx2 { q } else { q + 1 };
                        assert(l2k[q3] == i);
                        assert(l2k.contains(i));
                    }
                } else if gp == ok {
                    let q2 = if q < pos { q } else { q - 1 };
                    assert(lo1[q] == i && lo1[pos] == t);
                    assert(q != pos);
                    assert(removed[q2] == i);
                    assert(g2.child_list(ok) == removed);
                    assert(g2.child_list(gp).contains(i)) by {
                        assert(removed[q2] == i);
                    }
                } else {
                    assert(g2.child_list(gp) == g1.child_list(gp)) by {
                        match gp {
                            None => {},
                            Some(p2) => {
                                assert(g1.is_node(p2));
                            },
                        }
                    }
                }
            }
        }
    }
}

impl BlendGraph {
    /// Reparent the target onto a new location; its children come along.
    ///
    /// Rejected, leaving the tree exactly as it was, when the target is
    /// unknown, when the destination's anchor is unknown, or when the
    /// destination lies at or under the target itself (which would close
    /// a cycle).
    pub fn reparent(&mut self, target: AnyID, destination: Location) -> (r: Result<
        (),
        ReparentError,
    >)
        requires
            old(self).wf(),
        ensures
            final(self).wf(),
            spec_reparent_plan(*old(self), target, destination) matches Err(e) ==> r
                == Err::<(), ReparentError>(e) && *final(self) == *old(self),
            spec_reparent_plan(*old(self), target, destination) matches Ok((key, idx)) ==> r
                == Ok::<(), ReparentError>(()) && spec_reparented(
                *old(self),
                *final(self),
                target.spec_index(),
                key,
                idx,
            ),
    {
        if !self.contains(target) {
            return Err(ReparentError::TargetError(TargetError::TargetNotFound));
        }
        let t = target.into_raw();
        let (key, idx) = match self.resolve_location(&destination) {
            Ok(x) => x,
            Err(..) => {
                return Err(ReparentError::DestinationNotFound);
            },
        };
        if let Some(p) = key {
            if p == t {
                return Err(ReparentError::WouldCycle);
            }
            let anc = self.ancestors(p);
            let hit = position_in(&anc, t);
            proof {
                let m = anc@.map_values(|x: usize| x as int);
                if hit is Some {
                    let k = hit->0 as int;
                    assert(m[k] == t as int);
                    assert(self.ancestors_of(p as int).contains(t as int));
                } else {
                    if self.ancestors_of(p as int).contains(t as int) {
                        let k = choose|k: int| 0 <= k < m.len() && m[k] == t as int;
                        assert(anc@[k] == t);
                    }
                }
            }
            if hit.is_some() {
                return Err(ReparentError::WouldCycle);
            }
        }
        let ghost g1 = *self;
        let ghost tt = t as int;
        // Detach the target from its old sibling list.
        let old_key = self.slots[t].parent;
        proof {
            assert(g1.live(tt));
            assert(g1.child_list(spec_key(old_key)).contains(tt));
            if old_key is Some {
                assert(g1.is_node(spec_key(old_key)->0));
            }
            assert(g1.list_ok(spec_key(old_key)));
        }
        let pos = {
            let found = match old_key {
                None => position_in(&self.root_children, t),
                Some(op) => position_in(&self.slots[op].children, t),
            };
            match found {
                Some(k) => k,
                None => {
                    proof {
                        let l = g1.child_list(spec_key(old_key));
                        let w = choose|w: int| 0 <= w < l.len() && l[w] == tt;
                        assert(false);
                    }
                    0
                },
            }
        };
        proof {
            let l = g1.child_list(spec_key(old_key));
            let w = spec_position(l, tt);
            assert(l[pos as int] == tt);
            let w0 = choose|k: int| 0 <= k < l.len() && l[k] == tt;
            assert(l[w0] == tt);
            assert(w == pos as int);  // sibling lists hold each child once
        }
        match old_key {
            None => {
                self.root_children.remove(pos);
            },
            Some(op) => {
                self.slots[op].children.remove(pos);
            },
        };
        // Rewire the parent link.
        self.slots[t].set_parent(key);
        // Insert into the new sibling list, clamped to its end.
        match key {
            None => {
                let end = self.root_children.len();
                let idx2 = if idx <= end {
                    idx
                } else {
                    end
                };
                self.root_children.insert(idx2, t);
            },
            Some(p) => {
                let end = self.slots[p].children.len();
                let idx2 = if idx <= end {
                    idx
                } else {
                    end
                };
                self.slots[p].children.insert(idx2, t);
            },
        }
        proof {
            let g2 = *self;
            let k = spec_key(key);
            let ok = spec_key(old_key);
            assert(g1.parent_of(tt) == ok);
            let lo1 = g1.child_list(ok);
            let removed = lo1.remove(pos as int);
            let base = if k == ok {
                removed
            } else {
                g1.child_list(k)
            };
            let idx2 = if idx as int <= base.len() {
                idx as int
            } else {
                base.len() as int
            };
            assert(g2.child_list(k) =~= base.insert(idx2, tt));
            if k != ok {
                assert(g2.child_list(ok) =~= removed);
            }
            assert forall|p2: int|
                0 <= p2 < g1.num_slots() && Some(p2) != k && Some(p2) != ok implies #[trigger] g2.child_list(
                Some(p2),
            ) == g1.child_list(Some(p2)) by {
                assert(g2.child_list(Some(p2)) =~= g1.child_list(Some(p2)));
            }
            if k != None::<int> && ok != None::<int> {
                assert(g2.child_list(None) =~= g1.child_list(None));
            }
            assert forall|j: int| 0 <= j < g1.num_slots() implies #[trigger] g2.live(j)
                == g1.live(j) && g2.ty_of(j) == g1.ty_of(j) && g2.name_of(j) == g1.name_of(j) by {}
            assert(spec_reparented(g1, g2, tt, k, idx as int));
            lemma_reparented_wf(g1, g2, tt, k, idx as int);
        }
        Ok(())
    }
}

impl Slot {
    /// Mark this slot dead, leaving everything else alone.
    fn kill(&mut self)
        ensures
            final(self).live == false,
            final(self).data == old(self).data,
            final(self).parent == old(self).parent,
            final(self).children == old(self).children,
    {
        self.live = false;
    }
}

/// How a completed leaf removal relates the new tree to the old: the
/// leaf's slot is dead (its handle is never reused), it is gone from its
/// old sibling list, and everything else is untouched.
pub open spec fn spec_leaf_removed(g1: BlendGraph, g2: BlendGraph, t: int) -> bool {
    let ok = g1.parent_of(t);
    let pos = spec_position(g1.child_list(ok), t);
    &&& g2.num_slots() == g1.num_slots()
    &&& !g2.live(t)
    &&& forall|j: int|
        0 <= j < g1.num_slots() && j != t ==> #[trigger] g2.live(j) == g1.live(j)
    &&& forall|j: int|
        0 <= j < g1.num_slots() ==> #[trigger] g2.ty_of(j) == g1.ty_of(j) && g2.name_of(j)
            == g1.name_of(j) && g2.parent_of(j) == g1.parent_of(j)
    &&& g2.child_list(ok) == g1.child_list(ok).remove(pos)
    &&& forall|p: int|
        0 <= p < g1.num_slots() && Some(p) != ok ==> #[trigger] g2.child_list(Some(p))
            == g1.child_list(Some(p))
    &&& (ok != None::<int> ==> g2.child_list(None) == g1.child_list(None))
}

impl BlendGraph {
    /// Remove a content leaf from the tree. Its handle is never reused
    /// and becomes unknown to every later lookup. An unknown handle is a
    /// `TargetNotFound` error and leaves the tree unchanged.
    pub fn remove_leaf(&mut self, target: LeafID) -> (r: Result<(), TargetError>)
        requires
            old(self).wf(),
        ensures
            final(self).wf(),
            !old(self).contains_any(AnyID::Leaf(target)) ==> r == Err::<(), TargetError>(
                TargetError::TargetNotFound,
            ) && *final(self) == *old(self),
            old(self).contains_any(AnyID::Leaf(target)) ==> r == Ok::<(), TargetError>(())
                && spec_leaf_removed(*old(self), *final(self), target.spec_index()),
    {
        if !self.contains(AnyID::Leaf(target)) {
            return Err(TargetError::TargetNotFound);
        }
        let t = target.0;
        let ghost g1 = *self;
        let ghost tt = t as int;
        let old_key = self.slots[t].parent;
        proof {
            assert(g1.live(tt));
            assert(g1.parent_of(tt) == spec_key(old_key));
            assert(g1.child_list(g1.parent_of(tt)).contains(tt));
            if old_key is Some {
                assert(g1.is_node(spec_key(old_key)->0));
            }
            assert(g1.list_ok(spec_key(old_key)));
        }
        let pos = {
            let found = match old_key {
                None => position_in(&self.root_children, t),
                Some(op) => position_in(&self.slots[op].children, t),
            };
            match found {
                Some(k) => k,
                None => {
                    proof {
                        let l = g1.child_list(spec_key(old_key));
                        let w = choose|w: int| 0 <= w < l.len() && l[w] == tt;
                        assert(false);
                    }
                    0
                },
            }
        };
        proof {
            let l = g1.child_list(spec_key(old_key));
            let w = spec_position(l, tt);
            assert(l[pos as int] == tt);
            let w0 = choose|k: int| 0 <= k < l.len() && l[k] == tt;
            assert(l[w0] == tt);
            assert(w == pos as int);  // sibling lists hold each child once
        }
        match old_key {
            None => {
                self.root_children.remove(pos);
            },
            Some(op) => {
                self.slots[op].children.remove(pos);
            },
        };
        self.slots[t].kill();
        proof {
            let g2 = *self;
            let ok = spec_key(old_key);
            assert(g2.child_list(ok) =~= g1.child_list(ok).remove(pos as int));
            assert forall|p2: int|
                0 <= p2 < g1.num_slots() && Some(p2) != ok implies #[trigger] g2.child_list(
                Some(p2),
            ) == g1.child_list(Some(p2)) by {
                assert(g2.child_list(Some(p2)) =~= g1.child_list(Some(p2)));
            }
            if ok != None::<int> {
                assert(g2.child_list(None) =~= g1.child_list(None));
            }
            assert(spec_leaf_removed(g1, g2, tt));
            lemma_leaf_removed_wf(g1, g2, tt);
        }
        Ok(())
    }
}

/// A tree with one leaf removed as `spec_leaf_removed` describes stays
/// well formed. A leaf is nobody's parent, so no ancestor chain moves.
proof fn lemma_leaf_removed_wf(g1: BlendGraph, g2: BlendGraph, t: int)
    requires
        g1.wf(),
        g1.is_leaf(t),
        spec_leaf_removed(g1, g2, t),
    ensures
        g2.wf(),
{
    let ok = g1.parent_of(t);
    let lo1 = g1.child_list(ok);
    assert(g1.list_ok(ok));
    assert(lo1.contains(t));
    let pos = spec_position(lo1, t);
    assert(0 <= pos < lo1.len() && lo1[pos] == t) by {
        let w = choose|k: int| 0 <= k < lo1.len() && lo1[k] == t;
        assert(lo1[w] == t);
    }
    let removed = lo1.remove(pos);
    lo1.remove_ensures(pos);
    assert forall|x: int| g1.live(x) implies #[trigger] g2.parent_of(x) == g1.parent_of(x) by {
        assert(g2.ty_of(x) == g1.ty_of(x));
    }
    assert(g2.parents_ok()) by {
        assert forall|i: int| g2.live(i) implies {
            &&& (match g2.parent_of(i) {
                None => true,
                Some(p) => g2.is_node(p),
            })
            &&& exists|f: nat| g2.bounded(i, f)
        } by {
            assert(i != t);
            assert(g2.live(i) == g1.live(i));
            assert(g1.live(i));
            assert(exists|f: nat| g1.bounded(i, f)) by {
                // Mentioning the parent link lets the termination
                // clause of `parents_ok` fire.
                let probe = g1.parent_of(i);
            }
            let f = choose|f: nat| g1.bounded(i, f);
            lemma_bounded_frame(g1, g2, i, f);
            if g2.parent_of(i) is Some {
                let pp = g2.parent_of(i)->0;
                assert(g1.is_node(pp));
                assert(pp != t);
                assert(g2.live(pp) == g1.live(pp));
                assert(g2.is_node(pp));
            }
        }
    }
    assert(g2.children_ok()) by {
        assert(g2.list_ok(ok)) by {
            let l2o = g2.child_list(ok);
            assert(l2o == removed);
            assert forall|q: int| 0 <= q < l2o.len() implies g2.live(#[trigger] l2o[q])
                && g2.parent_of(l2o[q]) == ok by {
                let m = if q < pos {
                    q
                } else {
                    q + 1
                };
                assert(l2o[q] == lo1[m]);
                assert(g1.live(lo1[m]) && g1.parent_of(lo1[m]) == ok);
                assert(l2o[q] != t);
                assert(g2.live(l2o[q]) == g1.live(l2o[q]));
            }
            assert(l2o.no_duplicates()) by {
                assert forall|q1: int, q2: int|
                    0 <= q1 < l2o.len() && 0 <= q2 < l2o.len() && q1 != q2 implies l2o[q1]
                    != l2o[q2] by {
                    let m1 = if q1 < pos {
                        q1
                    } else {
                        q1 + 1
                    };
                    let m2 = if q2 < pos {
                        q2
                    } else {
                        q2 + 1
                    };
                    assert(l2o[q1] == lo1[m1]);
                    assert(l2o[q2] == lo1[m2]);
                }
            }
        }
        assert forall|p2: int| g2.is_node(p2) implies g2.list_ok(Some(p2)) by {
            assert(g2.live(p2) == g1.live(p2) && p2 != t);
            assert(g1.is_node(p2));
            if Some(p2) != ok {
                assert(g2.child_list(Some(p2)) == g1.child_list(Some(p2)));
                assert(g1.list_ok(Some(p2)));
                let lp = g1.child_list(Some(p2));
                assert forall|q: int| 0 <= q < lp.len() implies g2.live(#[trigger] lp[q])
                    && g2.parent_of(lp[q]) == Some(p2) by {
                    assert(g1.live(lp[q]) && g1.parent_of(lp[q]) == Some(p2));
                    assert(lp[q] != t || g1.parent_of(t) == Some(p2));
                    if lp[q] == t {
                        assert(ok == Some(p2));
                    }
                    assert(g2.live(lp[q]) == g1.live(lp[q]) || lp[q] == t);
                    assert(lp[q] != t);
                }
            }
        }
        if ok != None::<int> {
            assert(g2.list_ok(None)) by {
                assert(g2.child_list(None) == g1.child_list(None));
                assert(g1.list_ok(None));
                let lr = g1.child_list(None);
                assert forall|q: int| 0 <= q < lr.len() implies g2.live(#[trigger] lr[q])
                    && g2.parent_of(lr[q]) == None::<int> by {
                    assert(g1.live(lr[q]) && g1.parent_of(lr[q]) == None::<int>);
                    if lr[q] == t {
                        assert(ok == None::<int>);
                    }
                    assert(lr[q] != t);
                    assert(g2.live(lr[q]) == g1.live(lr[q]));
                }
            }
        }
        assert forall|i: int| g2.is_leaf(i) implies (#[trigger] g2.child_list(Some(i))).len()
            == 0 by {
            assert(g2.live(i) == g1.live(i) && i != t);
            assert(g1.is_leaf(i));
            assert(Some(i) != ok);
            assert(g2.child_list(Some(i)) == g1.child_list(Some(i)));
        }
        assert forall|i: int|
            !g2.live(i) && 0 <= i < g2.num_slots() implies (#[trigger] g2.child_list(
            Some(i),
        )).len() == 0 by {
            assert(Some(i) != ok);
            assert(g2.child_list(Some(i)) == g1.child_list(Some(i)));
            if i != t {
                assert(!g1.live(i));
            } else {
                assert(g1.is_leaf(t));
            }
        }
        assert forall|i: int| g2.live(i) implies (#[trigger] g2.child_list(
            g2.parent_of(i),
        )).contains(i) by {
            assert(i != t && g1.live(i));
            assert(g2.parent_of(i) == g1.parent_of(i));
            let gp = g1.parent_of(i);
            assert(g1.child_list(gp).contains(i));
            let lp = g1.child_list(gp);
            let q = choose|q: int| 0 <= q < lp.len() && lp[q] == i;
            if gp == ok {
                let q2 = if q < pos {
                    q
                } else {
                    q - 1
                };
                assert(lo1[q] == i && lo1[pos] == t);
                assert(q != pos);
                assert(removed[q2] == i);
                assert(g2.child_list(gp).contains(i)) by {
                    assert(g2.child_list(gp)[q2] == i);
                }
            } else {
                assert(g2.child_list(gp) == g1.child_list(gp)) by {
                    match gp {
                        None => {},
                        Some(p2) => {
                            assert(g1.is_node(p2));
                        },
                    }
                }
            }
        }
    }
}

/// An edit that touched one element's payload or name and nothing of the
/// tree: same handles, same liveness, same kinds, same links, same
/// sibling lists, and every other element's payload and name untouched.
pub open spec fn spec_payload_edited(g1: BlendGraph, g2: BlendGraph, t: int) -> bool {
    &&& g2.num_slots() == g1.num_slots()
    &&& forall|j: int| 0 <= j < g1.num_slots() ==> #[trigger] g2.live(j) == g1.live(j)
    &&& forall|j: int|
        0 <= j < g1.num_slots() ==> #[trigger] g2.parent_of(j) == g1.parent_of(j)
    &&& (g2.ty_of(t) is Node <==> g1.ty_of(t) is Node)
    &&& forall|j: int|
        0 <= j < g1.num_slots() && j != t ==> #[trigger] g2.ty_of(j) == g1.ty_of(j)
            && g2.name_of(j) == g1.name_of(j)
    &&& forall|p: int|
        0 <= p < g1.num_slots() ==> #[trigger] g2.child_list(Some(p)) == g1.child_list(Some(p))
    &&& g2.child_list(None) == g1.child_list(None)
}

/// A payload edit leaves the tree well formed: nothing the invariants
/// speak of moved.
proof fn lemma_payload_edit_wf(g1: BlendGraph, g2: BlendGraph, t: int)
    requires
        g1.wf(),
        spec_payload_edited(g1, g2, t),
    ensures
        g2.wf(),
{
    assert forall|x: int| g1.live(x) implies #[trigger] g2.parent_of(x) == g1.parent_of(x) by {}
    assert(g2.parents_ok()) by {
        assert forall|i: int| g2.live(i) implies {
            &&& (match g2.parent_of(i) {
                None => true,
                Some(p) => g2.is_node(p),
            })
            &&& exists|f: nat| g2.bounded(i, f)
        } by {
            assert(g1.live(i));
            assert(exists|f: nat| g1.bounded(i, f)) by {
                // Mentioning the parent link lets the termination
                // clause of `parents_ok` fire.
                let probe = g1.parent_of(i);
            }
            let f = choose|f: nat| g1.bounded(i, f);
            lemma_bounded_frame(g1, g2, i, f);
            if g2.parent_of(i) is Some {
                let pp = g2.parent_of(i)->0;
                assert(g1.is_node(pp));
                assert(g2.live(pp) == g1.live(pp));
                assert(g2.is_node(pp)) by {
                    if pp == t {
                    } else {
                        assert(g2.ty_of(pp) == g1.ty_of(pp));
                    }
                }
            }
        }
    }
    assert(g2.children_ok()) by {
        assert forall|key: Option<int>|
            key is None || (key matches Some(p) && 0 <= p < g1.num_slots()) implies (
        g2.child_list(key) == g1.child_list(key)) by {}
        assert(g2.list_ok(None)) by {
            let lr = g1.child_list(None);
            assert(g1.list_ok(None));
            assert forall|q: int| 0 <= q < lr.len() implies g2.live(#[trigger] lr[q])
                && g2.parent_of(lr[q]) == None::<int> by {
                assert(g1.live(lr[q]) && g1.parent_of(lr[q]) == None::<int>);
            }
        }
        assert forall|p2: int| g2.is_node(p2) implies g2.list_ok(Some(p2)) by {
            assert(g2.live(p2) == g1.live(p2));
            assert(g1.is_node(p2)) by {
                if p2 != t {
                    assert(g2.ty_of(p2) == g1.ty_of(p2));
                }
            }
            assert(g1.list_ok(Some(p2)));
            let lp = g1.child_list(Some(p2));
            assert forall|q: int| 0 <= q < lp.len() implies g2.live(#[trigger] lp[q])
                && g2.parent_of(lp[q]) == Some(p2) by {
                assert(g1.live(lp[q]) && g1.parent_of(lp[q]) == Some(p2));
            }
        }
        assert forall|i: int| g2.is_leaf(i) implies (#[trigger] g2.child_list(Some(i))).len()
            == 0 by {
            assert(g2.live(i) == g1.live(i));
            assert(g1.is_leaf(i)) by {
                if i != t {
                    assert(g2.ty_of(i) == g1.ty_of(i));
                }
            }
        }
        assert forall|i: int|
            !g2.live(i) && 0 <= i < g2.num_slots() implies (#[trigger] g2.child_list(
            Some(i),
        )).len() == 0 by {
            assert(!g1.live(i));
        }
        assert forall|i: int| g2.live(i) implies (#[trigger] g2.child_list(
            g2.parent_of(i),
        )).contains(i) by {
            assert(g1.live(i));
            assert(g1.child_list(g1.parent_of(i)).contains(i));
            assert(g2.child_list(g2.parent_of(i)) == g1.child_list(g1.parent_of(i))) by {
                match g1.parent_of(i) {
                    None => {},
                    Some(p) => {
                        assert(g1.is_node(p));
                    },
                }
            }
        }
    }
}

/// First position of `x` in a list of indices, if any.
fn position_in(list: &Vec<usize>, x: usize) -> (r: Option<usize>)
    ensures
        r matches Some(k) ==> k < list@.len() && list@[k as int] == x,
        r is None ==> forall|j: int| 0 <= j < list@.len() ==> list@[j] != x,
{
    let mut k: usize = 0;
    while k < list.len()
        invariant
            k <= list@.len(),
            forall|j: int| 0 <= j < k ==> list@[j] != x,
        decreases list@.len() - k,
    {
        if list[k] == x {
            return Some(k);
        }
        k = k + 1;
    }
    None
}

} // verus!
