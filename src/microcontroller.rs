//! The microcontroller aggregate: its nodes, id allocation, and validation.

use vstd::prelude::*;

pub mod document;

use crate::catalog::bridge_kind_of;
use crate::components::{
    BridgeComponent, Component, ComponentConnection, ComponentType, PositionXY, SlotView,
    TypedInputConnection, TypedOutputConnection,
};
use crate::tree::AttrMap;
use crate::types::{IONodeType, Type};

verus! {

/// Why a microcontroller is invalid.
#[derive(Clone, Copy, Debug, PartialEq, Eq, Structural)]
pub enum MCValidationError {
    /// Width or length outside `1..=6`.
    InvalidSize { w: u8, h: u8 },
    /// Two IO nodes share a node id.
    DuplicateIONodeId(u32),
    /// An IO node id is above the IO node id counter.
    NodeIdTooHigh { found_id: u32, max: u32 },
    /// An IO node's bridge node id is missing from the bridge order.
    MissingIONodeComponentOrder(u32),
    /// Two nodes share an id.
    DuplicateComponentId(u32),
    /// A node id is above the id counter.
    ComponentIdTooHigh { found_id: u32, max: u32 },
}

/// Why a microcontroller document could not be read.
#[derive(Clone, Copy, Debug, PartialEq, Eq)]
pub enum MCSerDeError {
    /// The tree is not exactly the document form of a microcontroller.
    Malformed,
    /// The document describes an invalid microcontroller.
    ValidationError(MCValidationError),
}

/// The design (schematic) side of an IO node.
#[derive(Debug, PartialEq)]
pub struct IONodeDesign {
    /// Unique id of this IO node.
    pub node_id: u32,
    /// The name of the node.
    pub label: String,
    /// The description of the node.
    pub description: String,
    /// The signal type of the node.
    pub typ: Type,
    /// Input or output.
    pub mode: IONodeType,
    /// Position in the design view (0,0 is bottom left).
    pub position: PositionXY,
}

/// An input or output pin of the microcontroller.
#[derive(Debug, PartialEq)]
pub struct IONode {
    /// Design part of the node.
    pub design: IONodeDesign,
    /// Logic part of the node.
    pub logic: BridgeComponent,
}

impl IONode {
    /// Gets the node id of this IO node.
    pub fn get_id(&self) -> (r: u32)
        ensures
            r == self.design.node_id,
    {
        self.design.node_id
    }
}

/// A microcontroller: its settings, its IO pins and its logic nodes.
#[derive(Debug)]
pub struct Microcontroller {
    /// The name of the microcontroller.
    pub name: String,
    /// The description of the microcontroller.
    pub description: String,
    /// The width, `1..=6`.
    pub width: u8,
    /// The length, `1..=6`.
    pub length: u8,
    /// The highest node id handed out.
    id_counter: u32,
    /// The highest IO node id handed out, if any was.
    id_counter_node: Option<u32>,
    /// 16x16 binary icon, one row per entry.
    pub icon: [u16; 16],
    data_type: Option<String>,
    io: Vec<IONode>,
    /// Ids of the bridge nodes in document order.
    components_bridge_order: Vec<u32>,
    components: Vec<Component>,
}

// ---------------------------------------------------------------------------
// Validation, stated over id lists.
// ---------------------------------------------------------------------------

/// The problem with IO node `i`, if any: a node id used by an earlier node,
/// a bridge id missing from the bridge order, or a node id above `node_max`.
pub open spec fn io_node_error(
    io_ids: Seq<u32>,
    logic_ids: Seq<u32>,
    order: Seq<u32>,
    node_max: u32,
    i: int,
) -> Option<MCValidationError> {
    if exists|j: int| 0 <= j < i && io_ids[j] == io_ids[i] {
        Some(MCValidationError::DuplicateIONodeId(io_ids[i]))
    } else if !order.contains(logic_ids[i]) {
        Some(MCValidationError::MissingIONodeComponentOrder(logic_ids[i]))
    } else if io_ids[i] > node_max {
        Some(MCValidationError::NodeIdTooHigh { found_id: io_ids[i], max: node_max })
    } else {
        None
    }
}

/// The first problem among the first `k` IO nodes.
pub open spec fn io_error(
    io_ids: Seq<u32>,
    logic_ids: Seq<u32>,
    order: Seq<u32>,
    node_max: u32,
    k: int,
) -> Option<MCValidationError>
    decreases k,
{
    if k <= 0 {
        None
    } else {
        match io_error(io_ids, logic_ids, order, node_max, k - 1) {
            Some(e) => Some(e),
            None => io_node_error(io_ids, logic_ids, order, node_max, k - 1),
        }
    }
}

/// The problem with node `i`, if any: an id used by an earlier node, or an
/// id above `max`.
pub open spec fn component_error_at(ids: Seq<u32>, max: u32, i: int) -> Option<MCValidationError> {
    if exists|j: int| 0 <= j < i && ids[j] == ids[i] {
        Some(MCValidationError::DuplicateComponentId(ids[i]))
    } else if ids[i] > max {
        Some(MCValidationError::ComponentIdTooHigh { found_id: ids[i], max })
    } else {
        None
    }
}

/// The first problem among the first `k` nodes.
pub open spec fn component_error(ids: Seq<u32>, max: u32, k: int) -> Option<MCValidationError>
    decreases k,
{
    if k <= 0 {
        None
    } else {
        match component_error(ids, max, k - 1) {
            Some(e) => Some(e),
            None => component_error_at(ids, max, k - 1),
        }
    }
}

/// The first problem found when checking, in order: the size, each IO node,
/// then each node.
pub open spec fn validation_error(
    width: u8,
    length: u8,
    io_ids: Seq<u32>,
    logic_ids: Seq<u32>,
    order: Seq<u32>,
    node_max: u32,
    ids: Seq<u32>,
    max: u32,
) -> Option<MCValidationError> {
    if !(1 <= width <= 6) || !(1 <= length <= 6) {
        Some(MCValidationError::InvalidSize { w: width, h: length })
    } else {
        match io_error(io_ids, logic_ids, order, node_max, io_ids.len() as int) {
            Some(e) => Some(e),
            None => component_error(ids, max, ids.len() as int),
        }
    }
}

/// The first position of `x` in `s` (meaningful when `s` contains `x`).
pub open spec fn first_pos(s: Seq<u32>, x: u32) -> int {
    choose|i: int| 0 <= i < s.len() && s[i] == x && forall|j: int| 0 <= j < i ==> s[j] != x
}

/// The id counter after removing the node with id `id`: it goes down only
/// when `id` is the last id handed out.
pub open spec fn counter_after_removal(counter: u32, id: u32) -> u32 {
    if counter == id && counter > 0 {
        (counter - 1) as u32
    } else {
        counter
    }
}

fn find_u32(v: &Vec<u32>, x: u32) -> (r: Option<usize>)
    ensures
        r is None <==> !v@.contains(x),
        r is Some ==> r->0 == first_pos(v@, x) && r->0 < v@.len(),
{
    let n = v.len();
    let mut i: usize = 0;
    while i < n
        invariant
            n == v@.len(),
            i <= n,
            forall|j: int| 0 <= j < i ==> v@[j] != x,
        decreases n - i,
    {
        if v[i] == x {
            proof {
                let f = first_pos(v@, x);
                assert(0 <= i < v@.len() && v@[i as int] == x && forall|j: int| 0 <= j < i ==> v@[j] != x);
                assert(f == i) by {
                    if f < i {
                        assert(v@[f] == x);
                    } else if f > i {
                        assert(v@[i as int] == x);
                    }
                }
            }
            return Some(i);
        }
        i += 1;
    }
    None
}

/// Removing any node but the one with the last id handed out leaves the
/// counter where it was, so the next node gets an id above every id handed
/// out so far, the removed one included.
pub proof fn lemma_ids_not_reused(ids: Seq<u32>, counter: u32, removed: u32)
    requires
        forall|i: int| 0 <= i < ids.len() ==> ids[i] <= counter,
        removed <= counter,
        removed != counter,
    ensures
        counter_after_removal(counter, removed) == counter,
        forall|i: int|
            0 <= i < ids.len() ==> counter_after_removal(counter, removed) + 1 > #[trigger] ids[i],
        counter_after_removal(counter, removed) + 1 > removed,
{
}

proof fn lemma_component_error_prefix(ids: Seq<u32>, max: u32, k: int)
    requires
        0 <= k <= ids.len(),
        forall|i: int| 0 <= i < ids.len() ==> ids[i] <= max,
    ensures
        (forall|a: int, b: int| 0 <= a < b < k ==> ids[a] != ids[b]) ==> component_error(
            ids,
            max,
            k,
        ) is None,
        (exists|a: int, b: int| 0 <= a < b < k && ids[a] == ids[b]) ==> (component_error(
            ids,
            max,
            k,
        ) matches Some(MCValidationError::DuplicateComponentId(x)) && exists|a: int, b: int|
            0 <= a < b < k && ids[a] == x && ids[b] == x),
    decreases k,
{
    if k > 0 {
        lemma_component_error_prefix(ids, max, k - 1);
        if exists|a: int, b: int| 0 <= a < b < k - 1 && ids[a] == ids[b] {
        } else if exists|a: int, b: int| 0 <= a < b < k && ids[a] == ids[b] {
            let (a, b) = choose|a: int, b: int| 0 <= a < b < k && ids[a] == ids[b];
            assert(b == k - 1);
            assert(exists|j: int| 0 <= j < k - 1 && #[trigger] ids[j] == ids[k - 1]);
            let j = choose|j: int| 0 <= j < k - 1 && #[trigger] ids[j] == ids[k - 1];
            assert(0 <= j < k - 1 && ids[j] == ids[k - 1]);
        } else {
            assert(!(exists|j: int| 0 <= j < k - 1 && #[trigger] ids[j] == ids[k - 1])) by {
                if exists|j: int| 0 <= j < k - 1 && #[trigger] ids[j] == ids[k - 1] {
                    let j = choose|j: int| 0 <= j < k - 1 && #[trigger] ids[j] == ids[k - 1];
                    assert(0 <= j < k - 1 < k && ids[j] == ids[k - 1]);
                }
            }
        }
    }
}

/// A microcontroller of valid size with sound IO nodes, all of whose node
/// ids are within the counter but two of which share an id, fails
/// validation with a duplicate-id error naming a shared id.
pub proof fn lemma_duplicate_component_id_reported(
    width: u8,
    length: u8,
    io_ids: Seq<u32>,
    logic_ids: Seq<u32>,
    order: Seq<u32>,
    node_max: u32,
    ids: Seq<u32>,
    max: u32,
)
    requires
        1 <= width <= 6,
        1 <= length <= 6,
        io_error(io_ids, logic_ids, order, node_max, io_ids.len() as int) is None,
        forall|i: int| 0 <= i < ids.len() ==> ids[i] <= max,
        exists|a: int, b: int| 0 <= a < b < ids.len() && ids[a] == ids[b],
    ensures
        validation_error(width, length, io_ids, logic_ids, order, node_max, ids, max) matches Some(
            MCValidationError::DuplicateComponentId(x),
        ) && exists|a: int, b: int| 0 <= a < b < ids.len() && ids[a] == x && ids[b] == x,
{
    lemma_component_error_prefix(ids, max, ids.len() as int);
}

/// Any size outside `1..=6` is the first problem reported.
pub proof fn lemma_invalid_size_reported(
    width: u8,
    length: u8,
    io_ids: Seq<u32>,
    logic_ids: Seq<u32>,
    order: Seq<u32>,
    node_max: u32,
    ids: Seq<u32>,
    max: u32,
)
    requires
        !(1 <= width <= 6) || !(1 <= length <= 6),
    ensures
        validation_error(width, length, io_ids, logic_ids, order, node_max, ids, max) == Some(
            MCValidationError::InvalidSize { w: width, h: length },
        ),
{
}

proof fn lemma_io_error_stable(
    io_ids: Seq<u32>,
    logic_ids: Seq<u32>,
    order: Seq<u32>,
    node_max: u32,
    k: int,
    k2: int,
)
    requires
        0 <= k <= k2,
        io_error(io_ids, logic_ids, order, node_max, k) is Some,
    ensures
        io_error(io_ids, logic_ids, order, node_max, k2) == io_error(
            io_ids,
            logic_ids,
            order,
            node_max,
            k,
        ),
    decreases k2 - k,
{
    if k2 > k {
        lemma_io_error_stable(io_ids, logic_ids, order, node_max, k, k2 - 1);
    }
}

proof fn lemma_component_error_stable(ids: Seq<u32>, max: u32, k: int, k2: int)
    requires
        0 <= k <= k2,
        component_error(ids, max, k) is Some,
    ensures
        component_error(ids, max, k2) == component_error(ids, max, k),
    decreases k2 - k,
{
    if k2 > k {
        lemma_component_error_stable(ids, max, k, k2 - 1);
    }
}

impl Microcontroller {
    /// The name.
    pub closed spec fn spec_name(&self) -> Seq<char> {
        self.name@
    }

    /// The description.
    pub closed spec fn spec_description(&self) -> Seq<char> {
        self.description@
    }

    /// The width.
    pub closed spec fn spec_width(&self) -> u8 {
        self.width
    }

    /// The length.
    pub closed spec fn spec_length(&self) -> u8 {
        self.length
    }

    /// The data type attribute of the group, as characters.
    pub closed spec fn spec_data_type(&self) -> Option<Seq<char>> {
        match self.data_type {
            Some(t) => Some(t@),
            None => None,
        }
    }

    /// What the accessors stand for.
    proof fn lemma_accessors(m: &Self)
        ensures
            m.spec_name() == m.name@,
            m.spec_description() == m.description@,
            m.spec_width() == m.width,
            m.spec_length() == m.length,
            m.spec_id_counter() == m.id_counter,
            m.spec_id_counter_node() == m.id_counter_node,
            m.spec_icon() == m.icon@,
            m.spec_data_type() == match m.data_type {
                Some(t) => Some(t@),
                None => None,
            },
            m.spec_io() == m.io@,
            m.spec_components() == m.components@,
            m.bridge_order() == m.components_bridge_order@,
    {
    }

    /// The first validation problem, spelled out: the size, then each IO
    /// node, then each node, as `validation_error` checks them.
    pub proof fn lemma_validation_error_def(m: &Self)
        ensures
            m.spec_validation_error() == validation_error(
                m.spec_width(),
                m.spec_length(),
                m.io_node_ids(),
                m.io_logic_ids(),
                m.bridge_order(),
                m.spec_node_counter(),
                m.component_ids(),
                m.spec_id_counter(),
            ),
    {
        reveal(Microcontroller::spec_validation_error);
    }

    /// The icon rows.
    pub closed spec fn spec_icon(&self) -> Seq<u16> {
        self.icon@
    }

    /// The id counter.
    pub closed spec fn spec_id_counter(&self) -> u32 {
        self.id_counter
    }

    /// The IO node id counter.
    pub closed spec fn spec_id_counter_node(&self) -> Option<u32> {
        self.id_counter_node
    }

    /// Ids of the nodes, in order.
    pub closed spec fn component_ids(&self) -> Seq<u32> {
        self.components@.map_values(|c: Component| c.id)
    }

    /// Node ids of the IO nodes, in order.
    pub closed spec fn io_node_ids(&self) -> Seq<u32> {
        self.io@.map_values(|n: IONode| n.design.node_id)
    }

    /// Bridge node ids of the IO nodes, in order.
    pub closed spec fn io_logic_ids(&self) -> Seq<u32> {
        self.io@.map_values(|n: IONode| n.logic.id)
    }

    /// The bridge order list.
    pub closed spec fn bridge_order(&self) -> Seq<u32> {
        self.components_bridge_order@
    }

    /// The first validation problem of this microcontroller, if any.
    #[verifier::opaque]
    pub open spec fn spec_validation_error(&self) -> Option<MCValidationError> {
        validation_error(
            self.spec_width(),
            self.spec_length(),
            self.io_node_ids(),
            self.io_logic_ids(),
            self.bridge_order(),
            match self.spec_id_counter_node() {
                Some(n) => n,
                None => 0,
            },
            self.component_ids(),
            self.spec_id_counter(),
        )
    }

    /// Everything but the node list and the id counter is the same.
    pub closed spec fn same_but_components(&self, other: &Self) -> bool {
        &&& self.name == other.name
        &&& self.description == other.description
        &&& self.width == other.width
        &&& self.length == other.length
        &&& self.id_counter_node == other.id_counter_node
        &&& self.icon == other.icon
        &&& self.data_type == other.data_type
        &&& self.io == other.io
        &&& self.components_bridge_order == other.components_bridge_order
    }

    /// Everything but the IO nodes, the bridge order and the two counters
    /// is the same.
    pub closed spec fn same_but_io(&self, other: &Self) -> bool {
        &&& self.name == other.name
        &&& self.description == other.description
        &&& self.width == other.width
        &&& self.length == other.length
        &&& self.icon == other.icon
        &&& self.data_type == other.data_type
        &&& self.components == other.components
    }

    /// Adds a node with the next free id and returns that id. Ids are never
    /// reused: the id is one more than the counter.
    pub fn add_component(&mut self, component: ComponentType) -> (r: u32)
        requires
            old(self).spec_id_counter() < u32::MAX,
        ensures
            r == old(self).spec_id_counter() + 1,
            final(self).spec_id_counter() == r,
            final(self).component_ids() == old(self).component_ids().push(r),
            final(self).spec_components() == old(self).spec_components().push(
                (Component { id: r, pos: PositionXY { x: None, y: None }, component }),
            ),
            final(self).same_but_components(old(self)),
    {
        self.id_counter = self.id_counter + 1;
        let id = self.id_counter;
        let ghost before = self.components@;
        self.components.push(Component { id, pos: PositionXY::origin(), component });
        proof {
            assert(self.components@.map_values(|c: Component| c.id) =~= before.map_values(
                |c: Component| c.id,
            ).push(id));
        }
        id
    }

    /// Removes the node with id `id`, if there is one, and returns it. The
    /// id counter goes down only when `id` is the last id handed out.
    pub fn remove_component_id(&mut self, id: u32) -> (r: Option<ComponentType>)
        ensures
            !old(self).component_ids().contains(id) ==> r is None && *final(self) == *old(self),
            old(self).component_ids().contains(id) ==> r is Some && final(self).component_ids()
                == old(self).component_ids().remove(first_pos(old(self).component_ids(), id))
                && final(self).spec_id_counter() == counter_after_removal(
                old(self).spec_id_counter(),
                id,
            ),
            old(self).component_ids().contains(id) ==> r == Some(
                old(self).spec_components()[first_pos(old(self).component_ids(), id)].component,
            ) && final(self).spec_components() == old(self).spec_components().remove(
                first_pos(old(self).component_ids(), id),
            ),
            final(self).same_but_components(old(self)),
    {
        let ghost ids = self.component_ids();
        let ghost s0 = *self;
        let n = self.components.len();
        let mut i: usize = 0;
        while i < n
            invariant
                *self == s0,
                s0 == *old(self),
                n == self.components@.len(),
                ids == self.component_ids(),
                ids.len() == n,
                i <= n,
                forall|j: int| 0 <= j < i ==> ids[j] != id,
            decreases n - i,
        {
            if self.components[i].id == id {
                proof {
                    let f = first_pos(ids, id);
                    assert(0 <= i < ids.len() && ids[i as int] == id && forall|j: int|
                        0 <= j < i ==> ids[j] != id);
                    assert(f == i) by {
                        if f < i {
                            assert(ids[f] == id);
                        } else if f > i {
                            assert(ids[i as int] == id);
                        }
                    }
                }
                let ghost before = self.components@;
                let c = self.components.remove(i);
                proof {
                    assert(self.components@.map_values(|c: Component| c.id) =~= ids.remove(
                        i as int,
                    ));
                }
                if self.id_counter == id && self.id_counter > 0 {
                    self.id_counter = self.id_counter - 1;
                }
                return Some(c.component);
            }
            i += 1;
        }
        None
    }

    /// Removes the node at position `index` of the node list, if there is
    /// one, and returns it.
    pub fn remove_component(&mut self, index: usize) -> (r: Option<ComponentType>)
        ensures
            index >= old(self).component_ids().len() ==> r is None && *final(self) == *old(self),
            index < old(self).component_ids().len() ==> r is Some && final(self).component_ids()
                == old(self).component_ids().remove(
                first_pos(old(self).component_ids(), old(self).component_ids()[index as int]),
            ) && final(self).spec_id_counter() == counter_after_removal(
                old(self).spec_id_counter(),
                old(self).component_ids()[index as int],
            ),
            index < old(self).component_ids().len() ==> ({
                let f = first_pos(old(self).component_ids(), old(self).component_ids()[index as int]);
                &&& r == Some(old(self).spec_components()[f].component)
                &&& final(self).spec_components() == old(self).spec_components().remove(f)
            }),
            final(self).same_but_components(old(self)),
    {
        if index < self.components.len() {
            let id = self.components[index].id;
            proof {
                assert(self.component_ids()[index as int] == id);
                assert(self.component_ids().contains(id));
            }
            self.remove_component_id(id)
        } else {
            None
        }
    }

    /// `n` is the IO node that `add_io` makes: node id `id`, bridge id
    /// `logic_id`, the given label and description or their defaults, the
    /// given type and direction, both positions at the origin, and a bridge
    /// node of the matching kind with one empty input and one empty output.
    pub open spec fn is_new_io_node(
        n: IONode,
        id: u32,
        logic_id: u32,
        label: Option<String>,
        description: Option<String>,
        typ: Type,
        mode: IONodeType,
    ) -> bool {
        let blank = SlotView { connection: None, force_visible: false, v_attr: None, v: None };
        &&& n.design.node_id == id
        &&& n.design.label@ == match label {
            Some(l) => l@,
            None => "Input"@,
        }
        &&& n.design.description@ == match description {
            Some(d) => d@,
            None => "The input signal to be processed."@,
        }
        &&& n.design.typ == typ
        &&& n.design.mode == mode
        &&& n.design.position.x is None && n.design.position.y is None
        &&& n.logic.id == logic_id
        &&& n.logic.pos.x is None && n.logic.pos.y is None
        &&& n.logic.component.kind == bridge_kind_of(typ, mode == IONodeType::Output)
        &&& n.logic.component.inputs@.len() == 1
        &&& n.logic.component.inputs@[0]@ == blank
        &&& n.logic.component.outputs@.len() == 1
        &&& n.logic.component.outputs@[0]@ == blank
        &&& n.logic.component.attrs@.len() == 0
        &&& n.logic.component.elems@.len() == 0
    }

    /// The IO node id counter, or zero when none was handed out.
    pub open spec fn spec_node_counter(&self) -> u32 {
        match self.spec_id_counter_node() {
            Some(n) => n,
            None => 0,
        }
    }

    /// Adds an IO node of signal type `typ` and direction `mode`, with a
    /// bridge node of the matching kind, and returns the new IO node id.
    /// The IO node takes the next IO node id and its bridge node the next
    /// node id; the bridge node goes last in the bridge order.
    pub fn add_io(
        &mut self,
        label: Option<String>,
        description: Option<String>,
        typ: Type,
        mode: IONodeType,
    ) -> (r: u32)
        requires
            old(self).spec_id_counter() < u32::MAX,
            old(self).spec_node_counter() < u32::MAX,
        ensures
            r == old(self).spec_node_counter() + 1,
            final(self).spec_id_counter_node() == Some(r),
            final(self).spec_id_counter() == old(self).spec_id_counter() + 1,
            final(self).io_node_ids() == old(self).io_node_ids().push(r),
            final(self).io_logic_ids() == old(self).io_logic_ids().push(
                final(self).spec_id_counter(),
            ),
            final(self).bridge_order() == old(self).bridge_order().push(
                final(self).spec_id_counter(),
            ),
            final(self).spec_io().len() == old(self).spec_io().len() + 1,
            final(self).spec_io() == old(self).spec_io().push(final(self).spec_io().last()),
            Self::is_new_io_node(
                final(self).spec_io().last(),
                r,
                final(self).spec_id_counter(),
                label,
                description,
                typ,
                mode,
            ),
            final(self).spec_components() == old(self).spec_components(),
            final(self).same_but_io(old(self)),
    {
        let node_id = match self.id_counter_node {
            Some(n) => n + 1,
            None => 1,
        };
        self.id_counter_node = Some(node_id);
        self.id_counter = self.id_counter + 1;
        let component_id = self.id_counter;
        let kind: u8 = match typ {
            Type::OnOff => 0,
            Type::Number => 2,
            Type::Composite => 4,
            Type::Video => 6,
            Type::Audio => 8,
        } + match mode {
            IONodeType::Input => 0,
            IONodeType::Output => 1,
        };
        let mut inputs: Vec<TypedInputConnection> = Vec::new();
        inputs.push(TypedInputConnection::empty());
        let mut outputs: Vec<TypedOutputConnection> = Vec::new();
        outputs.push(TypedOutputConnection::empty());
        let label = match label {
            Some(l) => l,
            None => String::from_str("Input"),
        };
        let description = match description {
            Some(d) => d,
            None => String::from_str("The input signal to be processed."),
        };
        let node = IONode {
            design: IONodeDesign {
                node_id,
                label,
                description,
                typ,
                mode,
                position: PositionXY::origin(),
            },
            logic: BridgeComponent {
                id: component_id,
                pos: PositionXY::origin(),
                component: ComponentType {
                    kind,
                    inputs,
                    outputs,
                    attrs: AttrMap::new(),
                    elems: AttrMap::new(),
                },
            },
        };
        let ghost before = self.io@;
        self.io.push(node);
        self.components_bridge_order.push(component_id);
        proof {
            assert(self.io@.map_values(|n: IONode| n.design.node_id) =~= before.map_values(
                |n: IONode| n.design.node_id,
            ).push(node_id));
            assert(self.io@.map_values(|n: IONode| n.logic.id) =~= before.map_values(
                |n: IONode| n.logic.id,
            ).push(component_id));
        }
        node_id
    }

    /// Removes the IO node with node id `id`, if there is one, together
    /// with its bridge node's entry in the bridge order. Each counter goes
    /// down only when the removed id is the last one it handed out.
    pub fn remove_io_id(&mut self, id: u32) -> (r: bool)
        ensures
            r == old(self).io_node_ids().contains(id),
            !r ==> *final(self) == *old(self),
            r ==> ({
                let i = first_pos(old(self).io_node_ids(), id);
                let logic = old(self).io_logic_ids()[i];
                &&& final(self).spec_io() == old(self).spec_io().remove(i)
                &&& final(self).io_node_ids() == old(self).io_node_ids().remove(i)
                &&& final(self).io_logic_ids() == old(self).io_logic_ids().remove(i)
                &&& final(self).bridge_order() == if old(self).bridge_order().contains(logic) {
                    old(self).bridge_order().remove(first_pos(old(self).bridge_order(), logic))
                } else {
                    old(self).bridge_order()
                }
                &&& final(self).spec_id_counter() == counter_after_removal(
                    old(self).spec_id_counter(),
                    logic,
                )
                &&& final(self).spec_id_counter_node() == match old(self).spec_id_counter_node() {
                    Some(c) => Some(counter_after_removal(c, id)),
                    None => None,
                }
            }),
            final(self).same_but_io(old(self)),
    {
        let ghost ids = self.io_node_ids();
        let ghost logic_ids = self.io_logic_ids();
        let ghost s0 = *self;
        let n = self.io.len();
        let mut i: usize = 0;
        while i < n
            invariant
                *self == s0,
                s0 == *old(self),
                n == self.io@.len(),
                ids == self.io_node_ids(),
                logic_ids == self.io_logic_ids(),
                ids.len() == n,
                i <= n,
                forall|j: int| 0 <= j < i ==> ids[j] != id,
            decreases n - i,
        {
            if self.io[i].design.node_id == id {
                proof {
                    let f = first_pos(ids, id);
                    assert(0 <= i < ids.len() && ids[i as int] == id && forall|j: int|
                        0 <= j < i ==> ids[j] != id);
                    assert(f == i) by {
                        if f < i {
                            assert(ids[f] == id);
                        } else if f > i {
                            assert(ids[i as int] == id);
                        }
                    }
                }
                let node = self.io.remove(i);
                let logic = node.logic.id;
                assert(logic == logic_ids[i as int]);
                proof {
                    assert(self.io@.map_values(|n: IONode| n.design.node_id) =~= ids.remove(
                        i as int,
                    ));
                    assert(self.io@.map_values(|n: IONode| n.logic.id) =~= logic_ids.remove(
                        i as int,
                    ));
                }
                match find_u32(&self.components_bridge_order, logic) {
                    Some(k) => {
                        self.components_bridge_order.remove(k);
                    },
                    None => {},
                }
                match self.id_counter_node {
                    Some(c) => {
                        if c == id && c > 0 {
                            self.id_counter_node = Some(c - 1);
                        }
                    },
                    None => {},
                }
                if self.id_counter == logic && self.id_counter > 0 {
                    self.id_counter = self.id_counter - 1;
                }
                return true;
            }
            i += 1;
        }
        false
    }

    /// Removes the IO node at position `index`, if there is one.
    pub fn remove_io(&mut self, index: usize) -> (r: bool)
        ensures
            r == (index < old(self).io_node_ids().len()),
            !r ==> *final(self) == *old(self),
            r ==> final(self).io_node_ids() == old(self).io_node_ids().remove(
                first_pos(old(self).io_node_ids(), old(self).io_node_ids()[index as int]),
            ),
            r ==> final(self).spec_io() == old(self).spec_io().remove(
                first_pos(old(self).io_node_ids(), old(self).io_node_ids()[index as int]),
            ),
            final(self).same_but_io(old(self)),
    {
        if index < self.io.len() {
            let id = self.io[index].design.node_id;
            proof {
                assert(self.io_node_ids()[index as int] == id);
                assert(self.io_node_ids().contains(id));
            }
            self.remove_io_id(id)
        } else {
            false
        }
    }

    /// The IO nodes, in order.
    pub closed spec fn spec_io(&self) -> Seq<IONode> {
        self.io@
    }

    /// The nodes, in order.
    pub closed spec fn spec_components(&self) -> Seq<Component> {
        self.components@
    }

    /// Read access to the IO nodes.
    pub fn io_nodes(&self) -> (r: &[IONode])
        ensures
            r@ == self.spec_io(),
    {
        self.io.as_slice()
    }

    /// Read access to the nodes.
    pub fn components(&self) -> (r: &[Component])
        ensures
            r@ == self.spec_components(),
    {
        self.components.as_slice()
    }

    /// Number of inputs of the node with id `id`: the first logic node with
    /// that id, else the first IO bridge node with it; `None` when there is
    /// no such node.
    pub closed spec fn input_count_of(&self, id: u32) -> Option<nat> {
        if self.component_ids().contains(id) {
            Some(self.components@[first_pos(self.component_ids(), id)].component.inputs@.len())
        } else if self.io_logic_ids().contains(id) {
            Some(self.io@[first_pos(self.io_logic_ids(), id)].logic.component.inputs@.len())
        } else {
            None
        }
    }

    /// The connection of input `index` of the node with id `id`, as
    /// `input_count_of` finds the node.
    pub closed spec fn connection_of(&self, id: u32, index: int) -> Option<ComponentConnection> {
        if self.component_ids().contains(id) {
            self.components@[first_pos(
                self.component_ids(),
                id,
            )].component.inputs@[index].connection
        } else {
            self.io@[first_pos(self.io_logic_ids(), id)].logic.component.inputs@[index].connection
        }
    }

    proof fn lemma_same_validation(a: &Self, b: &Self)
        requires
            a.width == b.width,
            a.length == b.length,
            a.component_ids() == b.component_ids(),
            a.io_node_ids() == b.io_node_ids(),
            a.io_logic_ids() == b.io_logic_ids(),
            a.bridge_order() == b.bridge_order(),
            a.id_counter == b.id_counter,
            a.id_counter_node == b.id_counter_node,
        ensures
            a.spec_validation_error() == b.spec_validation_error(),
    {
        reveal(Microcontroller::spec_validation_error);
    }

    fn find_component(&self, id: u32) -> (r: Option<usize>)
        ensures
            r is None <==> !self.component_ids().contains(id),
            r is Some ==> r->0 == first_pos(self.component_ids(), id) && r->0
                < self.components@.len(),
    {
        let ghost ids = self.component_ids();
        let n = self.components.len();
        let mut i: usize = 0;
        while i < n
            invariant
                n == self.components@.len(),
                ids == self.component_ids(),
                ids.len() == n,
                i <= n,
                forall|j: int| 0 <= j < i ==> ids[j] != id,
            decreases n - i,
        {
            if self.components[i].id == id {
                proof {
                    let f = first_pos(ids, id);
                    assert(0 <= i < ids.len() && ids[i as int] == id && forall|j: int|
                        0 <= j < i ==> ids[j] != id);
                    assert(f == i) by {
                        if f < i {
                            assert(ids[f] == id);
                        } else if f > i {
                            assert(ids[i as int] == id);
                        }
                    }
                }
                return Some(i);
            }
            i += 1;
        }
        None
    }

    fn find_bridge(&self, id: u32) -> (r: Option<usize>)
        ensures
            r is None <==> !self.io_logic_ids().contains(id),
            r is Some ==> r->0 == first_pos(self.io_logic_ids(), id) && r->0 < self.io@.len(),
    {
        let ghost ids = self.io_logic_ids();
        let n = self.io.len();
        let mut i: usize = 0;
        while i < n
            invariant
                n == self.io@.len(),
                ids == self.io_logic_ids(),
                ids.len() == n,
                i <= n,
                forall|j: int| 0 <= j < i ==> ids[j] != id,
            decreases n - i,
        {
            if self.io[i].logic.id == id {
                proof {
                    let f = first_pos(ids, id);
                    assert(0 <= i < ids.len() && ids[i as int] == id && forall|j: int|
                        0 <= j < i ==> ids[j] != id);
                    assert(f == i) by {
                        if f < i {
                            assert(ids[f] == id);
                        } else if f > i {
                            assert(ids[i as int] == id);
                        }
                    }
                }
                return Some(i);
            }
            i += 1;
        }
        None
    }

    /// `b` is `a` with input `index` connected to `src`, and nothing else
    /// changed.
    pub open spec fn input_updated(a: ComponentType, b: ComponentType, index: int, src: ComponentConnection) -> bool {
        &&& b.kind == a.kind
        &&& b.outputs == a.outputs
        &&& b.attrs == a.attrs
        &&& b.elems == a.elems
        &&& b.inputs@ == a.inputs@.update(
            index,
            (TypedInputConnection { connection: Some(src), ..a.inputs@[index] }),
        )
    }

    /// `new` is `old` with input `index` of node `i` connected to `src`, and
    /// nothing else changed.
    pub open spec fn component_connected(
        old: Seq<Component>,
        new: Seq<Component>,
        i: int,
        index: int,
        src: ComponentConnection,
    ) -> bool {
        &&& new.len() == old.len()
        &&& forall|j: int| 0 <= j < old.len() && j != i ==> #[trigger] new[j] == old[j]
        &&& new[i].id == old[i].id
        &&& new[i].pos == old[i].pos
        &&& Self::input_updated(old[i].component, new[i].component, index, src)
    }

    /// `new` is `old` with input `index` of the bridge node of IO node `i`
    /// connected to `src`, and nothing else changed.
    pub open spec fn bridge_connected(
        old: Seq<IONode>,
        new: Seq<IONode>,
        i: int,
        index: int,
        src: ComponentConnection,
    ) -> bool {
        &&& new.len() == old.len()
        &&& forall|j: int| 0 <= j < old.len() && j != i ==> #[trigger] new[j] == old[j]
        &&& new[i].design == old[i].design
        &&& new[i].logic.id == old[i].logic.id
        &&& new[i].logic.pos == old[i].logic.pos
        &&& Self::input_updated(old[i].logic.component, new[i].logic.component, index, src)
    }

    /// Everything but the node list and the IO nodes is the same.
    pub closed spec fn same_but_nodes(&self, other: &Self) -> bool {
        &&& self.name == other.name
        &&& self.description == other.description
        &&& self.width == other.width
        &&& self.length == other.length
        &&& self.id_counter == other.id_counter
        &&& self.id_counter_node == other.id_counter_node
        &&& self.icon == other.icon
        &&& self.data_type == other.data_type
        &&& self.components_bridge_order == other.components_bridge_order
    }

    fn set_component_input(&mut self, i: usize, index: usize, src: ComponentConnection)
        requires
            i < old(self).components@.len(),
            index < old(self).components@[i as int].component.inputs@.len(),
        ensures
            final(self).components@[i as int].component.inputs@[index as int].connection == Some(src),
            Self::component_connected(
                old(self).components@,
                final(self).components@,
                i as int,
                index as int,
                src,
            ),
            final(self).components@.len() == old(self).components@.len(),
            final(self).component_ids() == old(self).component_ids(),
            final(self).same_but_components(old(self)),
            final(self).id_counter == old(self).id_counter,
    {
        let ghost before = self.components@;
        let mut c = self.components.remove(i);
        let ghost c0 = c;
        let mut slot = c.component.inputs.remove(index);
        slot.connection = Some(src);
        c.component.inputs.insert(index, slot);
        self.components.insert(i, c);
        proof {
            assert(c.component.inputs@ =~= c0.component.inputs@.update(
                index as int,
                (TypedInputConnection { connection: Some(src), ..c0.component.inputs@[index as int] }),
            ));
            assert(self.components@ =~= before.update(i as int, c));
            assert(self.components@.map_values(|c: Component| c.id) =~= before.map_values(
                |c: Component| c.id,
            ));
        }
    }

    fn set_bridge_input(&mut self, i: usize, index: usize, src: ComponentConnection)
        requires
            i < old(self).io@.len(),
            index < old(self).io@[i as int].logic.component.inputs@.len(),
        ensures
            final(self).io@[i as int].logic.component.inputs@[index as int].connection == Some(src),
            Self::bridge_connected(old(self).io@, final(self).io@, i as int, index as int, src),
            final(self).io@.len() == old(self).io@.len(),
            final(self).io_node_ids() == old(self).io_node_ids(),
            final(self).io_logic_ids() == old(self).io_logic_ids(),
            final(self).same_but_io(old(self)),
            final(self).components_bridge_order == old(self).components_bridge_order,
            final(self).id_counter == old(self).id_counter,
            final(self).id_counter_node == old(self).id_counter_node,
    {
        let ghost before = self.io@;
        let mut node = self.io.remove(i);
        let ghost n0 = node;
        let mut slot = node.logic.component.inputs.remove(index);
        slot.connection = Some(src);
        node.logic.component.inputs.insert(index, slot);
        self.io.insert(i, node);
        proof {
            assert(node.logic.component.inputs@ =~= n0.logic.component.inputs@.update(
                index as int,
                (TypedInputConnection { connection: Some(src), ..n0.logic.component.inputs@[index as int] }),
            ));
            assert(self.io@ =~= before.update(i as int, node));
            assert(self.io@.map_values(|n: IONode| n.logic.id) =~= before.map_values(
                |n: IONode| n.logic.id,
            ));
            assert(self.io@.map_values(|n: IONode| n.design.node_id) =~= before.map_values(
                |n: IONode| n.design.node_id,
            ));
        }
    }

    /// Connects input `dst.node_index` of node `dst.component_id` to output
    /// `src.node_index` of node `src.component_id`. Fails, changing
    /// nothing, when there is no such node or input. Signal types are not
    /// checked.
    pub fn connect(&mut self, src: &ComponentConnection, dst: &ComponentConnection) -> (r: Result<(), ()>)
        ensures
            r is Ok <==> (old(self).input_count_of(dst.component_id) is Some && (dst.node_index as nat)
                < old(self).input_count_of(dst.component_id)->0),
            r is Ok ==> final(self).connection_of(dst.component_id, dst.node_index as int) == Some(*src),
            r is Err ==> *final(self) == *old(self),
            r is Ok && old(self).component_ids().contains(dst.component_id)
                ==> Self::component_connected(
                old(self).spec_components(),
                final(self).spec_components(),
                first_pos(old(self).component_ids(), dst.component_id),
                dst.node_index as int,
                *src,
            ) && final(self).spec_io() == old(self).spec_io(),
            r is Ok && !old(self).component_ids().contains(dst.component_id)
                ==> Self::bridge_connected(
                old(self).spec_io(),
                final(self).spec_io(),
                first_pos(old(self).io_logic_ids(), dst.component_id),
                dst.node_index as int,
                *src,
            ) && final(self).spec_components() == old(self).spec_components(),
            final(self).same_but_nodes(old(self)),
            final(self).component_ids() == old(self).component_ids(),
            final(self).io_node_ids() == old(self).io_node_ids(),
            final(self).io_logic_ids() == old(self).io_logic_ids(),
            final(self).bridge_order() == old(self).bridge_order(),
            final(self).spec_id_counter() == old(self).spec_id_counter(),
            final(self).spec_id_counter_node() == old(self).spec_id_counter_node(),
            final(self).spec_validation_error() == old(self).spec_validation_error(),
    {
        let id = dst.component_id;
        let index = dst.node_index as usize;
        match self.find_component(id) {
            Some(i) => {
                if index >= self.components[i].component.inputs.len() {
                    return Err(());
                }
                self.set_component_input(i, index, *src);
                proof {
                    Self::lemma_same_validation(self, old(self));
                }
                Ok(())
            },
            None => match self.find_bridge(id) {
                Some(i) => {
                    if index >= self.io[i].logic.component.inputs.len() {
                        return Err(());
                    }
                    self.set_bridge_input(i, index, *src);
                    proof {
                        Self::lemma_same_validation(self, old(self));
                    }
                    Ok(())
                },
                None => Err(()),
            },
        }
    }

    /// Write access to the node list. Ids are the caller's responsibility
    /// here: `validate` reports any clash.
    pub fn components_mut(&mut self) -> (r: &mut Vec<Component>)
        ensures
            r@ == old(self).spec_components(),
            final(self).spec_components() == final(r)@,
            final(self).spec_id_counter() == old(self).spec_id_counter(),
            final(self).same_but_components(old(self)),
    {
        &mut self.components
    }

    /// The id counter.
    pub fn id_counter(&self) -> (r: u32)
        ensures
            r == self.spec_id_counter(),
    {
        self.id_counter
    }

    /// The IO node id counter.
    pub fn id_counter_node(&self) -> (r: Option<u32>)
        ensures
            r == self.spec_id_counter_node(),
    {
        self.id_counter_node
    }

    /// Creates a blank microcontroller with the given name, description
    /// and size; fails when the size is outside `1..=6`.
    pub fn new(name: String, description: String, width: u8, length: u8) -> (r: Result<
        Self,
        MCValidationError,
    >)
        ensures
            r is Err <==> !(1 <= width <= 6) || !(1 <= length <= 6),
            r is Err ==> r == Err::<Self, _>(MCValidationError::InvalidSize { w: width, h: length }),
            r matches Ok(m) ==> m.spec_name() == name@ && m.spec_description() == description@
                && m.spec_width() == width && m.spec_length() == length && m.spec_id_counter() == 0
                && m.spec_id_counter_node() is None && m.component_ids().len() == 0
                && m.io_node_ids().len() == 0 && m.bridge_order().len() == 0
                && m.spec_icon() == Seq::new(16, |i: int| 0u16) && m.spec_components().len() == 0
                && m.spec_io().len() == 0,
    {
        let mc = Microcontroller {
            name,
            description,
            width,
            length,
            io: Vec::new(),
            id_counter: 0,
            id_counter_node: None,
            icon: [0u16; 16],
            data_type: None,
            components: Vec::new(),
            components_bridge_order: Vec::new(),
        };
        proof {
            reveal(Microcontroller::spec_validation_error);
            assert(mc.icon@ =~= Seq::new(16, |i: int| 0u16));
        }
        match mc.validate() {
            Ok(()) => Ok(mc),
            Err(e) => Err(e),
        }
    }

    /// Checks the microcontroller, returning the first problem found.
    pub fn validate(&self) -> (r: Result<(), MCValidationError>)
        ensures
            r == match self.spec_validation_error() {
                None => Ok(()),
                Some(e) => Err(e),
            },
    {
        proof {
            reveal(Microcontroller::spec_validation_error);
        }
        self.check()
    }

    fn check(&self) -> (r: Result<(), MCValidationError>)
        ensures
            r == match validation_error(
                self.width,
                self.length,
                self.io_node_ids(),
                self.io_logic_ids(),
                self.bridge_order(),
                match self.spec_id_counter_node() {
                    Some(n) => n,
                    None => 0,
                },
                self.component_ids(),
                self.spec_id_counter(),
            ) {
                None => Ok(()),
                Some(e) => Err(e),
            },
    {
        if !(1 <= self.width && self.width <= 6) || !(1 <= self.length && self.length <= 6) {
            return Err(MCValidationError::InvalidSize { w: self.width, h: self.length });
        }
        let node_max = match self.id_counter_node {
            Some(n) => n,
            None => 0,
        };
        let ghost io_ids = self.io_node_ids();
        let ghost logic_ids = self.io_logic_ids();
        let ghost order = self.bridge_order();
        let n = self.io.len();
        let mut i: usize = 0;
        while i < n
            invariant
                1 <= self.width <= 6 && 1 <= self.length <= 6,
                node_max == match self.id_counter_node {
                    Some(x) => x,
                    None => 0,
                },
                n == self.io@.len(),
                io_ids == self.io_node_ids(),
                logic_ids == self.io_logic_ids(),
                order == self.bridge_order(),
                io_ids.len() == n,
                logic_ids.len() == n,
                i <= n,
                io_error(io_ids, logic_ids, order, node_max, i as int) is None,
            decreases n - i,
        {
            let id = self.io[i].design.node_id;
            let logic = self.io[i].logic.id;
            assert(io_ids[i as int] == id);
            assert(logic_ids[i as int] == logic);
            let mut j: usize = 0;
            while j < i
                invariant
                    i < n,
                    n == self.io@.len(),
                    io_ids == self.io_node_ids(),
                    logic_ids == self.io_logic_ids(),
                    order == self.bridge_order(),
                    io_ids.len() == n,
                    logic_ids.len() == n,
                    io_error(io_ids, logic_ids, order, node_max, i as int) is None,
                    1 <= self.width <= 6 && 1 <= self.length <= 6,
                    node_max == match self.id_counter_node {
                        Some(x) => x,
                        None => 0,
                    },
                    id == io_ids[i as int],
                    j <= i,
                    forall|k: int| 0 <= k < j ==> io_ids[k] != id,
                decreases i - j,
            {
                if self.io[j].design.node_id == id {
                    proof {
                        assert(io_ids[j as int] == id);
                        lemma_io_error_stable(io_ids, logic_ids, order, node_max, i + 1, n as int);
                    }
                    return Err(MCValidationError::DuplicateIONodeId(id));
                }
                j += 1;
            }
            let m = self.components_bridge_order.len();
            let mut k: usize = 0;
            let mut found = false;
            while k < m
                invariant
                    m == order.len(),
                    order == self.components_bridge_order@,
                    i < n,
                    n == self.io@.len(),
                    io_ids == self.io_node_ids(),
                    logic_ids == self.io_logic_ids(),
                    io_ids.len() == n,
                    logic_ids.len() == n,
                    io_error(io_ids, logic_ids, order, node_max, i as int) is None,
                    1 <= self.width <= 6 && 1 <= self.length <= 6,
                    node_max == match self.id_counter_node {
                        Some(x) => x,
                        None => 0,
                    },
                    id == io_ids[i as int],
                    logic == logic_ids[i as int],
                    forall|x: int| 0 <= x < i ==> io_ids[x] != id,
                    k <= m,
                    found == (exists|x: int| 0 <= x < k && order[x] == logic),
                decreases m - k,
            {
                if self.components_bridge_order[k] == logic {
                    found = true;
                }
                k += 1;
            }
            assert(!(exists|x: int| 0 <= x < i && io_ids[x] == io_ids[i as int]));
            if !found {
                proof {
                    assert(!order.contains(logic));
                    lemma_io_error_stable(io_ids, logic_ids, order, node_max, i + 1, n as int);
                }
                return Err(MCValidationError::MissingIONodeComponentOrder(logic));
            }
            assert(order.contains(logic));
            if id > node_max {
                proof {
                    lemma_io_error_stable(io_ids, logic_ids, order, node_max, i + 1, n as int);
                }
                return Err(MCValidationError::NodeIdTooHigh { found_id: id, max: node_max });
            }
            i += 1;
        }
        let ghost ids = self.component_ids();
        let max = self.id_counter;
        let n = self.components.len();
        let mut i: usize = 0;
        while i < n
            invariant
                1 <= self.width <= 6 && 1 <= self.length <= 6,
                io_error(io_ids, logic_ids, order, node_max, io_ids.len() as int) is None,
                io_ids == self.io_node_ids(),
                logic_ids == self.io_logic_ids(),
                order == self.bridge_order(),
                node_max == match self.id_counter_node {
                    Some(x) => x,
                    None => 0,
                },
                n == self.components@.len(),
                ids == self.component_ids(),
                ids.len() == n,
                max == self.id_counter,
                i <= n,
                component_error(ids, max, i as int) is None,
            decreases n - i,
        {
            let id = self.components[i].id;
            assert(ids[i as int] == id);
            let mut j: usize = 0;
            while j < i
                invariant
                    1 <= self.width <= 6 && 1 <= self.length <= 6,
                    io_error(io_ids, logic_ids, order, node_max, io_ids.len() as int) is None,
                    io_ids == self.io_node_ids(),
                    logic_ids == self.io_logic_ids(),
                    order == self.bridge_order(),
                    node_max == match self.id_counter_node {
                        Some(x) => x,
                        None => 0,
                    },
                    ids.len() == n,
                    max == self.id_counter,
                    component_error(ids, max, i as int) is None,
                    i < n,
                    n == self.components@.len(),
                    ids == self.component_ids(),
                    id == ids[i as int],
                    j <= i,
                    forall|k: int| 0 <= k < j ==> ids[k] != id,
                decreases i - j,
            {
                if self.components[j].id == id {
                    proof {
                        assert(ids[j as int] == id);
                        lemma_component_error_stable(ids, max, i + 1, n as int);
                    }
                    return Err(MCValidationError::DuplicateComponentId(id));
                }
                j += 1;
            }
            assert(!(exists|x: int| 0 <= x < i && ids[x] == ids[i as int]));
            if id > max {
                proof {
                    lemma_component_error_stable(ids, max, i + 1, n as int);
                }
                return Err(MCValidationError::ComponentIdTooHigh { found_id: id, max });
            }
            i += 1;
        }
        Ok(())
    }
}

impl Default for Microcontroller {
    /// A blank 2x2 microcontroller named "New microcontroller".
    fn default() -> (r: Self)
        ensures
            r.spec_width() == 2,
            r.spec_length() == 2,
            r.spec_id_counter() == 0,
            r.spec_id_counter_node() is None,
            r.component_ids().len() == 0,
            r.io_node_ids().len() == 0,
    {
        Microcontroller {
            name: String::from_str("New microcontroller"),
            description: String::from_str("No description set."),
            width: 2,
            length: 2,
            io: Vec::new(),
            id_counter: 0,
            id_counter_node: None,
            icon: [0u16; 16],
            data_type: None,
            components: Vec::new(),
            components_bridge_order: Vec::new(),
        }
    }
}

} // verus!
