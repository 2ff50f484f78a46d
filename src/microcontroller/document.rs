//! The attribute-tree form of a whole microcontroller document: the
//! `microprocessor` element with its IO nodes and its node group.

use vstd::prelude::*;

use super::{IONode, IONodeDesign, MCSerDeError, MCValidationError, Microcontroller};
use crate::components::{
    BridgeComponent, Component, ComponentType, PositionXY, TypedInputConnection,
    TypedOutputConnection,
};
use crate::nodes::{
    lemma_node_entries_norm, node_entries, node_norm, node_round_trips, node_shape_ok, pos_view,
    shape_ok,
};
use crate::text::{dec_digits, with_decimal, with_index};
use crate::types::{type_code, type_from_code};
use crate::components::{key_at, leaf_number};
use crate::tree::{clone_map, lemma_entries_view, map_eq, AttrMap, TreeView, Value};
use crate::types::{mode_code_spec, type_code_spec, IONodeType, Type};

verus! {

broadcast use lemma_entries_view;

/// A text leaf holding the decimal text of `n`.
pub open spec fn number(n: nat) -> TreeView {
    TreeView::Text(dec_digits(n))
}

/// An element with the given entries.
pub open spec fn element(s: Seq<(Seq<char>, TreeView)>) -> TreeView {
    TreeView::Node(s)
}

/// `s` when `keep`, nothing otherwise.
pub open spec fn when(keep: bool, s: Seq<(Seq<char>, TreeView)>) -> Seq<(Seq<char>, TreeView)> {
    if keep {
        s
    } else {
        Seq::empty()
    }
}

/// The `position` element of an IO node's design, left out at the origin;
/// its second coordinate is written as `z`.
pub open spec fn design_position(p: PositionXY) -> Seq<(Seq<char>, TreeView)> {
    let v = pos_view(p);
    when(
        !(v.0 is None && v.1 is None),
        seq![
            (
                "position"@,
                element(
                    when(v.0 is Some, seq![("@x"@, TreeView::Text(v.0->0))]) + when(
                        v.1 is Some,
                        seq![("@z"@, TreeView::Text(v.1->0))],
                    ),
                ),
            ),
        ],
    )
}

/// The `node` element of an IO node's design.
pub open spec fn design_entries(d: IONodeDesign) -> Seq<(Seq<char>, TreeView)> {
    seq![("@label"@, TreeView::Text(d.label@))] + when(
        d.mode != IONodeType::Output,
        seq![("@mode"@, number(mode_code_spec(d.mode) as nat))],
    ) + when(d.typ != Type::OnOff, seq![("@type"@, number(type_code_spec(d.typ) as nat))])
        + seq![("@description"@, TreeView::Text(d.description@))] + design_position(d.position)
}

/// The `n` element of an IO node: its id, its bridge node's id, its design.
pub open spec fn io_node_entries(n: IONode) -> Seq<(Seq<char>, TreeView)> {
    seq![
        ("@id"@, number(n.design.node_id as nat)),
        ("@component_id"@, number(n.logic.id as nat)),
        ("node"@, element(design_entries(n.design))),
    ]
}

/// The entries of the `nodes` element.
pub open spec fn nodes_entries(io: Seq<IONode>) -> Seq<(Seq<char>, TreeView)> {
    Seq::new(io.len(), |i: int| ("n"@, element(io_node_entries(io[i]))))
}

/// The `c` element of a logic node.
pub open spec fn component_entries(c: Component) -> Seq<(Seq<char>, TreeView)> {
    node_entries(false, c.id, pos_view(c.pos), c.component@)
}

/// The `c` element of a bridge node.
pub open spec fn bridge_entries(c: BridgeComponent) -> Seq<(Seq<char>, TreeView)> {
    node_entries(true, c.id, pos_view(c.pos), c.component@)
}

/// The `object` entries of a rendered node's `c` element.
pub open spec fn object_of(c: Seq<(Seq<char>, TreeView)>) -> Seq<(Seq<char>, TreeView)> {
    if c.len() == 0 {
        Seq::empty()
    } else {
        match c.last().1 {
            TreeView::Node(o) => o,
            TreeView::Text(_) => Seq::empty(),
        }
    }
}

/// The state copy of a node: its object entries, without the id when the
/// id is zero.
pub open spec fn state_of(id: u32, c: Seq<(Seq<char>, TreeView)>) -> Seq<(Seq<char>, TreeView)> {
    if id == 0 && object_of(c).len() > 0 {
        object_of(c).drop_first()
    } else {
        object_of(c)
    }
}

/// The key `c<i>` of the `i`-th state copy.
pub open spec fn state_key(i: int) -> Seq<char> {
    seq!['c'] + dec_digits(i as nat)
}

/// The position of the first IO node whose bridge node has id `id`, or -1.
pub open spec fn first_logic(io: Seq<IONode>, id: u32) -> int
    decreases io.len(),
{
    if io.len() == 0 {
        -1
    } else {
        let p = first_logic(io.drop_last(), id);
        if p >= 0 {
            p
        } else if io.last().logic.id == id {
            io.len() - 1
        } else {
            -1
        }
    }
}

proof fn lemma_first_logic(io: Seq<IONode>, id: u32)
    ensures
        first_logic(io, id) == -1 <==> forall|j: int| 0 <= j < io.len() ==> (#[trigger] io[j]).logic.id != id,
        first_logic(io, id) != -1 ==> 0 <= first_logic(io, id) < io.len() && io[first_logic(io, id)].logic.id
            == id && forall|j: int| 0 <= j < first_logic(io, id) ==> (#[trigger] io[j]).logic.id != id,
    decreases io.len(),
{
    if io.len() > 0 {
        lemma_first_logic(io.drop_last(), id);
        assert(forall|j: int| 0 <= j < io.len() - 1 ==> io.drop_last()[j] == io[j]);
    }
}

/// The bridge nodes in document order: for each id of the bridge order, in
/// turn, the first IO node whose bridge node has that id (ids with no such
/// node are skipped).
pub open spec fn bridge_list(io: Seq<IONode>, order: Seq<u32>) -> Seq<BridgeComponent>
    decreases order.len(),
{
    if order.len() == 0 {
        Seq::empty()
    } else {
        let prev = bridge_list(io, order.drop_last());
        let i = first_logic(io, order.last());
        if i >= 0 {
            prev.push(io[i].logic)
        } else {
            prev
        }
    }
}

/// The entries of a `components` element.
pub open spec fn components_list(cs: Seq<Component>) -> Seq<(Seq<char>, TreeView)> {
    Seq::new(cs.len(), |i: int| ("c"@, element(component_entries(cs[i]))))
}

/// The entries of a `components_bridge` element.
pub open spec fn bridges_list(bs: Seq<BridgeComponent>) -> Seq<(Seq<char>, TreeView)> {
    Seq::new(bs.len(), |i: int| ("c"@, element(bridge_entries(bs[i]))))
}

/// The entries of a `component_states` element.
pub open spec fn component_states(cs: Seq<Component>) -> Seq<(Seq<char>, TreeView)> {
    Seq::new(
        cs.len(),
        |i: int| (state_key(i), element(state_of(cs[i].id, component_entries(cs[i])))),
    )
}

/// The entries of a `component_bridge_states` element.
pub open spec fn bridge_states(bs: Seq<BridgeComponent>) -> Seq<(Seq<char>, TreeView)> {
    Seq::new(
        bs.len(),
        |i: int| (state_key(i), element(state_of(bs[i].id, bridge_entries(bs[i])))),
    )
}

/// The entries of the `data` element.
pub open spec fn data_entries(data_type: Option<String>) -> Seq<(Seq<char>, TreeView)> {
    when(data_type is Some, seq![("@type"@, TreeView::Text(data_type->0@))]) + seq![
        ("inputs"@, element(Seq::empty())),
        ("outputs"@, element(Seq::empty())),
    ]
}

/// The entries of the `group` element.
pub open spec fn group_entries(
    data_type: Option<String>,
    cs: Seq<Component>,
    bs: Seq<BridgeComponent>,
) -> Seq<(Seq<char>, TreeView)> {
    seq![
        ("data"@, element(data_entries(data_type))),
        ("components"@, element(components_list(cs))),
        ("components_bridge"@, element(bridges_list(bs))),
        ("groups"@, element(Seq::empty())),
        ("component_states"@, element(component_states(cs))),
        ("component_bridge_states"@, element(bridge_states(bs))),
        ("group_states"@, element(Seq::empty())),
    ]
}

/// The key `@sym<j>` of icon row `j`.
pub open spec fn sym_key(j: nat) -> Seq<char> {
    seq!['@', 's', 'y', 'm'] + dec_digits(j)
}

/// The `sym<i>` attributes of the icon rows that are not zero.
pub open spec fn icon_entries(icon: Seq<u16>, n: int) -> Seq<(Seq<char>, TreeView)>
    decreases n,
{
    if n <= 0 {
        Seq::empty()
    } else {
        icon_entries(icon, n - 1) + when(
            icon[n - 1] != 0,
            seq![(sym_key((n - 1) as nat), number(icon[n - 1] as nat))],
        )
    }
}

fn key(k: &str) -> (r: String)
    ensures
        r@ == k@,
{
    String::from_str(k)
}

fn number_value(n: u32) -> (r: Value)
    ensures
        r@ == number(n as nat),
{
    proof {
        reveal_strlit("");
    }
    let t = with_decimal("", n);
    assert(t@ =~= dec_digits(n as nat));
    Value::Leaf(t)
}

fn text_value(t: &String) -> (r: Value)
    ensures
        r@ == TreeView::Text(t@),
{
    Value::Leaf(t.clone())
}

fn empty_element() -> (r: Value)
    ensures
        r@ == element(Seq::empty()),
{
    let m = AttrMap::new();
    Value::Element(m)
}

fn design_to_tree(d: &IONodeDesign) -> (r: AttrMap)
    ensures
        r@ == design_entries(*d),
{
    let mut m = AttrMap::new();
    m.push(key("@label"), text_value(&d.label));
    if d.mode != IONodeType::Output {
        m.push(key("@mode"), number_value(1));
    }
    if d.typ != Type::OnOff {
        m.push(key("@type"), number_value(type_code(d.typ) as u32));
    }
    m.push(key("@description"), text_value(&d.description));
    let ghost before = m@;
    if d.position.x.is_some() || d.position.y.is_some() {
        let mut p = AttrMap::new();
        match &d.position.x {
            Some(x) => {
                p.push(key("@x"), text_value(x));
            },
            None => {},
        }
        match &d.position.y {
            Some(y) => {
                p.push(key("@z"), text_value(y));
            },
            None => {},
        }
        let ghost v = pos_view(d.position);
        assert(p@ =~= when(v.0 is Some, seq![("@x"@, TreeView::Text(v.0->0))]) + when(
            v.1 is Some,
            seq![("@z"@, TreeView::Text(v.1->0))],
        ));
        m.push(key("position"), Value::Element(p));
    }
    assert(m@ =~= design_entries(*d));
    m
}

fn io_node_to_tree(n: &IONode) -> (r: AttrMap)
    ensures
        r@ == io_node_entries(*n),
{
    let mut m = AttrMap::new();
    m.push(key("@id"), number_value(n.design.node_id));
    m.push(key("@component_id"), number_value(n.logic.id));
    m.push(key("node"), Value::Element(design_to_tree(&n.design)));
    assert(m@ =~= io_node_entries(*n));
    m
}

/// The object entries of a rendered `c` element, as a state copy.
fn state_from(id: u32, c: &AttrMap) -> (r: AttrMap)
    ensures
        r@ == state_of(id, c@),
{
    let n = c.len();
    if n == 0 {
        return AttrMap::new();
    }
    proof {
        lemma_entries_view(c.entries@);
    }
    let mut o = match &c.entries[n - 1].1 {
        Value::Element(o) => crate::tree::clone_map(o),
        Value::Leaf(_) => AttrMap::new(),
    };
    if id == 0 && o.len() > 0 {
        let _ = o.remove_at(0);
    }
    o
}

impl Microcontroller {
    /// The entries of the `microprocessor` element of this microcontroller.
    pub closed spec fn document_entries(&self) -> Seq<(Seq<char>, TreeView)> {
        self.header_entries() + icon_entries(self.icon@, 16) + seq![
            ("nodes"@, element(nodes_entries(self.io@))),
            (
                "group"@,
                element(
                    group_entries(
                        self.data_type,
                        self.components@,
                        bridge_list(self.io@, self.components_bridge_order@),
                    ),
                ),
            ),
        ]
    }

    /// The attributes before the icon rows.
    pub closed spec fn header_entries(&self) -> Seq<(Seq<char>, TreeView)> {
        when(self.name@.len() > 0, seq![("@name"@, TreeView::Text(self.name@))]) + when(
            self.description@.len() > 0,
            seq![("@description"@, TreeView::Text(self.description@))],
        ) + seq![
            ("@width"@, number(self.width as nat)),
            ("@length"@, number(self.length as nat)),
        ] + when(self.id_counter != 0, seq![("@id_counter"@, number(self.id_counter as nat))])
            + when(
            self.id_counter_node is Some,
            seq![("@id_counter_node"@, number(self.id_counter_node->0 as nat))],
        )
    }

    /// All nodes have the slots their catalog entries list.
    pub closed spec fn nodes_shape_ok(&self) -> bool {
        &&& forall|i: int|
            0 <= i < self.components@.len() ==> node_shape_ok(
                false,
                (#[trigger] self.components@[i]).component@,
            )
        &&& forall|i: int|
            0 <= i < self.io@.len() ==> node_shape_ok(true, (#[trigger] self.io@[i]).logic.component@)
    }
}

impl Microcontroller {
    /// Positions in `io` of the bridge nodes, in document order.
    fn bridge_indices(&self) -> (r: Vec<usize>)
        ensures
            r@.len() == bridge_list(self.io@, self.components_bridge_order@).len(),
            forall|k: int|
                0 <= k < r@.len() ==> r@[k] < self.io@.len() && self.io@[#[trigger] r@[k] as int].logic
                    == bridge_list(self.io@, self.components_bridge_order@)[k],
    {
        let ghost io = self.io@;
        let ghost order = self.components_bridge_order@;
        let mut r: Vec<usize> = Vec::new();
        let m = self.components_bridge_order.len();
        let n = self.io.len();
        let mut k: usize = 0;
        while k < m
            invariant
                io == self.io@,
                order == self.components_bridge_order@,
                m == order.len(),
                n == io.len(),
                k <= m,
                r@.len() == bridge_list(io, order.subrange(0, k as int)).len(),
                forall|x: int|
                    0 <= x < r@.len() ==> r@[x] < io.len() && io[#[trigger] r@[x] as int].logic
                        == bridge_list(io, order.subrange(0, k as int))[x],
            decreases m - k,
        {
            let id = self.components_bridge_order[k];
            let ghost pre = order.subrange(0, k as int + 1);
            assert(pre.drop_last() =~= order.subrange(0, k as int));
            assert(pre.last() == id);
            let mut i: usize = 0;
            let mut found = false;
            while i < n && !found
                invariant
                    io == self.io@,
                    n == io.len(),
                    i <= n,
                    found ==> i < n && io[i as int].logic.id == id,
                    forall|j: int| 0 <= j < i ==> io[j].logic.id != id,
                decreases n - i + if found {
                    0int
                } else {
                    1int
                },
            {
                if self.io[i].logic.id == id {
                    found = true;
                } else {
                    i += 1;
                }
            }
            proof {
                lemma_first_logic(io, id);
                let f = first_logic(io, id);
                if found {
                    assert(f == i) by {
                        if f == -1 {
                            assert(io[i as int].logic.id == id);
                        } else if f < i {
                        } else if f > i {
                            assert(io[i as int].logic.id == id);
                        }
                    }
                } else {
                    assert(f == -1);
                }
            }
            if found {
                r.push(i);
            }
            k += 1;
        }
        assert(order.subrange(0, m as int) =~= order);
        r
    }

    fn render_header(&self) -> (r: AttrMap)
        ensures
            r@ == self.header_entries(),
    {
        let mut m = AttrMap::new();
        if self.name.unicode_len() > 0 {
            m.push(key("@name"), text_value(&self.name));
        }
        if self.description.unicode_len() > 0 {
            m.push(key("@description"), text_value(&self.description));
        }
        m.push(key("@width"), number_value(self.width as u32));
        m.push(key("@length"), number_value(self.length as u32));
        if self.id_counter != 0 {
            m.push(key("@id_counter"), number_value(self.id_counter));
        }
        match self.id_counter_node {
            Some(c) => {
                m.push(key("@id_counter_node"), number_value(c));
            },
            None => {},
        }
        assert(m@ =~= self.header_entries());
        m
    }

    fn push_icon(&self, m: &mut AttrMap)
        ensures
            final(m)@ == old(m)@ + icon_entries(self.icon@, 16),
    {
        let ghost head = m@;
        proof {
            reveal_strlit("@sym");
            assert("@sym"@ =~= seq!['@', 's', 'y', 'm']);
        }
        let mut i: usize = 0;
        while i < 16
            invariant
                i <= 16,
                "@sym"@ == seq!['@', 's', 'y', 'm'],
                m@ == head + icon_entries(self.icon@, i as int),
            decreases 16 - i,
        {
            if self.icon[i] != 0 {
                let k = with_decimal("@sym", i as u32);
                m.push(k, number_value(self.icon[i] as u32));
            }
            i += 1;
            assert(m@ =~= head + icon_entries(self.icon@, i as int));
        }
    }

    fn render_nodes(&self) -> (r: AttrMap)
        ensures
            r@ == nodes_entries(self.io@),
    {
        let mut nodes = AttrMap::new();
        let n = self.io.len();
        let mut i: usize = 0;
        while i < n
            invariant
                n == self.io@.len(),
                i <= n,
                nodes@ == nodes_entries(self.io@.subrange(0, i as int)),
            decreases n - i,
        {
            nodes.push(key("n"), Value::Element(io_node_to_tree(&self.io[i])));
            i += 1;
            assert(nodes@ =~= nodes_entries(self.io@.subrange(0, i as int)));
        }
        assert(self.io@.subrange(0, n as int) =~= self.io@);
        nodes
    }

    /// The entries of the `microprocessor` element, without checking the
    /// microcontroller first.
    fn render(&self) -> (r: AttrMap)
        requires
            self.nodes_shape_ok(),
        ensures
            r@ == self.document_entries(),
    {
        let mut m = self.render_header();
        self.push_icon(&mut m);
        let nodes = self.render_nodes();
        m.push(key("nodes"), Value::Element(nodes));
        let group = self.render_group();
        m.push(key("group"), Value::Element(group));
        assert(m@ =~= self.document_entries());
        m
    }

    fn render_components(&self) -> (r: (AttrMap, AttrMap))
        requires
            self.nodes_shape_ok(),
        ensures
            r.0@ == components_list(self.components@),
            r.1@ == component_states(self.components@),
    {
        proof {
            reveal_strlit("c");
            assert("c"@ =~= seq!['c']);
        }
        let mut list = AttrMap::new();
        let mut states = AttrMap::new();
        let n = self.components.len();
        let mut i: usize = 0;
        while i < n
            invariant
                self.nodes_shape_ok(),
                "c"@ == seq!['c'],
                n == self.components@.len(),
                i <= n,
                list@ == components_list(self.components@.subrange(0, i as int)),
                states@ == component_states(self.components@.subrange(0, i as int)),
            decreases n - i,
        {
            let c = &self.components[i];
            assert(node_shape_ok(false, self.components@[i as int].component@));
            let t = c.to_tree();
            let st = state_from(c.id, &t);
            states.push(with_index("c", i), Value::Element(st));
            list.push(key("c"), Value::Element(t));
            i += 1;
            assert(list@ =~= components_list(self.components@.subrange(0, i as int)));
            assert(states@ =~= component_states(self.components@.subrange(0, i as int)));
        }
        assert(self.components@.subrange(0, n as int) =~= self.components@);
        (list, states)
    }

    fn render_bridges(&self) -> (r: (AttrMap, AttrMap))
        requires
            self.nodes_shape_ok(),
        ensures
            r.0@ == bridges_list(bridge_list(self.io@, self.components_bridge_order@)),
            r.1@ == bridge_states(bridge_list(self.io@, self.components_bridge_order@)),
    {
        proof {
            reveal_strlit("c");
            assert("c"@ =~= seq!['c']);
        }
        let ghost bs = bridge_list(self.io@, self.components_bridge_order@);
        let idx = self.bridge_indices();
        let mut blist = AttrMap::new();
        let mut bstates = AttrMap::new();
        let nb = idx.len();
        let mut k: usize = 0;
        while k < nb
            invariant
                self.nodes_shape_ok(),
                "c"@ == seq!['c'],
                nb == idx@.len(),
                nb == bs.len(),
                bs == bridge_list(self.io@, self.components_bridge_order@),
                forall|x: int|
                    0 <= x < idx@.len() ==> idx@[x] < self.io@.len() && self.io@[#[trigger] idx@[x] as int].logic
                        == bs[x],
                k <= nb,
                blist@ == bridges_list(bs.subrange(0, k as int)),
                bstates@ == bridge_states(bs.subrange(0, k as int)),
            decreases nb - k,
        {
            let j = idx[k];
            assert(self.io@[j as int].logic == bs[k as int]);
            let b = &self.io[j].logic;
            assert(node_shape_ok(true, self.io@[j as int].logic.component@));
            let t = b.to_tree();
            let st = state_from(b.id, &t);
            bstates.push(with_index("c", k), Value::Element(st));
            blist.push(key("c"), Value::Element(t));
            k += 1;
            assert(blist@ =~= bridges_list(bs.subrange(0, k as int)));
            assert(bstates@ =~= bridge_states(bs.subrange(0, k as int)));
        }
        assert(bs.subrange(0, nb as int) =~= bs);
        (blist, bstates)
    }

    fn render_group(&self) -> (r: AttrMap)
        requires
            self.nodes_shape_ok(),
        ensures
            r@ == group_entries(
                self.data_type,
                self.components@,
                bridge_list(self.io@, self.components_bridge_order@),
            ),
    {
        let mut data = AttrMap::new();
        match &self.data_type {
            Some(t) => {
                data.push(key("@type"), text_value(t));
            },
            None => {},
        }
        data.push(key("inputs"), empty_element());
        data.push(key("outputs"), empty_element());
        assert(data@ =~= data_entries(self.data_type));
        let (list, states) = self.render_components();
        let (blist, bstates) = self.render_bridges();
        let mut g = AttrMap::new();
        g.push(key("data"), Value::Element(data));
        g.push(key("components"), Value::Element(list));
        g.push(key("components_bridge"), Value::Element(blist));
        g.push(key("groups"), empty_element());
        g.push(key("component_states"), Value::Element(states));
        g.push(key("component_bridge_states"), Value::Element(bstates));
        g.push(key("group_states"), empty_element());
        assert(g@ =~= group_entries(
            self.data_type,
            self.components@,
            bridge_list(self.io@, self.components_bridge_order@),
        ));
        g
    }

    /// The `microprocessor` element of this microcontroller, after checking
    /// it: fails exactly when `validate` does.
    pub fn to_tree(&self) -> (r: Result<AttrMap, MCValidationError>)
        requires
            self.nodes_shape_ok(),
        ensures
            r matches Err(e) ==> self.spec_validation_error() == Some(e),
            r matches Ok(t) ==> self.spec_validation_error() is None && t@ == self.document_entries(),
    {
        match self.validate() {
            Ok(()) => Ok(self.render()),
            Err(e) => Err(e),
        }
    }
}

fn text_at(m: &AttrMap, i: usize) -> (r: Option<String>)
    ensures
        forall|t: Seq<char>| i < m@.len() && m@[i as int].1 == TreeView::Text(t) ==> opt_text(r)
            == Some(t),
{
    proof {
        lemma_entries_view(m.entries@);
    }
    if i < m.entries.len() {
        match &m.entries[i].1 {
            Value::Leaf(t) => Some(t.clone()),
            Value::Element(_) => None,
        }
    } else {
        None
    }
}

fn number_at(m: &AttrMap, i: usize) -> (r: Option<u32>)
    ensures
        forall|n: u32| i < m@.len() && m@[i as int].1 == number(n as nat) ==> r == Some(n),
{
    proof {
        lemma_entries_view(m.entries@);
    }
    if i < m.entries.len() {
        leaf_number(&m.entries[i].1)
    } else {
        None
    }
}

fn element_at(m: &AttrMap, i: usize) -> (r: Option<&AttrMap>)
    ensures
        forall|e: Seq<(Seq<char>, TreeView)>| i < m@.len() && m@[i as int].1 == TreeView::Node(e) ==> r is Some && r->0@ == e,
{
    proof {
        lemma_entries_view(m.entries@);
    }
    if i < m.entries.len() {
        match &m.entries[i].1 {
            Value::Element(e) => Some(e),
            Value::Leaf(_) => None,
        }
    } else {
        None
    }
}

/// The text leaf under key `key` at position `i`, if that entry has it.
fn opt_text_at(m: &AttrMap, i: usize, key: &str) -> (r: (Option<String>, usize))
    ensures
        (i < m@.len() && m@[i as int].0 == key@) ==> r.1 == i + 1 && forall|t: Seq<char>|
            m@[i as int].1 == TreeView::Text(t) ==> opt_text(r.0) == Some(t),
        !(i < m@.len() && m@[i as int].0 == key@) ==> r.0 is None && r.1 == i,
{
    proof {
        lemma_entries_view(m.entries@);
    }
    let n = m.len();
    if key_at(m, i, key) {
        let t = text_at(m, i);
        proof {
            assert forall|t2: Seq<char>| m@[i as int].1 == TreeView::Text(t2) implies opt_text(t)
                == Some(t2) by {
                match &m.entries@[i as int].1 {
                    Value::Leaf(x) => {},
                    Value::Element(x) => {
                        assert(m@[i as int].1 == TreeView::Node(x@));
                    },
                }
            }
        }
        (t, i + 1)
    } else {
        (None, i)
    }
}

/// The number under key `key` at position `i`, if that entry has one.
fn opt_number_at(m: &AttrMap, i: usize, key: &str) -> (r: (Option<u32>, usize))
    ensures
        (i < m@.len() && m@[i as int].0 == key@) ==> r.1 == i + 1 && forall|n: u32|
            m@[i as int].1 == number(n as nat) ==> r.0 == Some(n),
        !(i < m@.len() && m@[i as int].0 == key@) ==> r.0 is None && r.1 == i,
{
    proof {
        lemma_entries_view(m.entries@);
    }
    let n = m.len();
    if key_at(m, i, key) {
        (number_at(m, i), i + 1)
    } else {
        (None, i)
    }
}

proof fn lemma_design_keys()
    ensures
        "@label"@ != "@mode"@,
        "@label"@ != "@type"@,
        "@label"@ != "@description"@,
        "@label"@ != "position"@,
        "@mode"@ != "@type"@,
        "@mode"@ != "@description"@,
        "@mode"@ != "position"@,
        "@type"@ != "@description"@,
        "@type"@ != "position"@,
        "@description"@ != "position"@,
        "@x"@ != "@z"@,
{
    reveal_strlit("@label");
    reveal_strlit("@mode");
    reveal_strlit("@type");
    reveal_strlit("@description");
    reveal_strlit("position");
    reveal_strlit("@x");
    reveal_strlit("@z");
    assert("@label"@.len() != "@mode"@.len());
    assert("@label"@.len() != "@type"@.len());
    assert("@label"@.len() != "@description"@.len());
    assert("@label"@[0] != "position"@[0]);
    assert("@mode"@[1] != "@type"@[1]);
    assert("@mode"@.len() != "@description"@.len());
    assert("@mode"@[0] != "position"@[0]);
    assert("@type"@.len() != "@description"@.len());
    assert("@type"@[0] != "position"@[0]);
    assert("@description"@[0] != "position"@[0]);
    assert("@x"@[1] != "@z"@[1]);
}

/// Reads an IO node's `node` element; unexpected pieces read as defaults.
/// The rendering of a design reads back as that design.
fn read_design(node_id: u32, d: &AttrMap) -> (r: IONodeDesign)
    ensures
        r.node_id == node_id,
        forall|x: IONodeDesign|
            #[trigger] design_entries(x) == d@ && x.node_id == node_id ==> design_same(r, x),
{
    proof {
        lemma_design_keys();
    }
    let (label, i) = opt_text_at(d, 0, "@label");
    let (mode_n, i2) = opt_number_at(d, i, "@mode");
    let (type_n, i3) = opt_number_at(d, i2, "@type");
    let (desc, i4) = opt_text_at(d, i3, "@description");
    let mut position = PositionXY::origin();
    let mut has_pos = false;
    let ghost mut inner_v: Seq<(Seq<char>, TreeView)> = Seq::empty();
    let mut j: usize = 0;
    if key_at(d, i4, "position") {
        match element_at(d, i4) {
            Some(p) => {
                proof {
                    inner_v = p@;
                }
                has_pos = true;
                let (x, j1) = opt_text_at(p, 0, "@x");
                let (y, j2) = opt_text_at(p, j1, "@z");
                position.x = x;
                position.y = y;
                j = j2;
            },
            None => {},
        }
    }
    let mode = match mode_n {
        Some(1) => IONodeType::Input,
        _ => IONodeType::Output,
    };
    let mut typ = Type::OnOff;
    match type_n {
        Some(c) => {
            if c <= 255 {
                match type_from_code(c as u8) {
                    Some(t) => {
                        typ = t;
                    },
                    None => {},
                }
            }
        },
        None => {},
    }
    let label = match label {
        Some(t) => t,
        None => String::new(),
    };
    let description = match desc {
        Some(t) => t,
        None => String::new(),
    };
    let r = IONodeDesign { node_id, label, description, typ, mode, position };
    proof {
        assert forall|x: IONodeDesign|
            #[trigger] design_entries(x) == d@ && x.node_id == node_id implies design_same(r, x) by {
            let l = seq![("@label"@, TreeView::Text(x.label@))];
            let mo = when(
                x.mode != IONodeType::Output,
                seq![("@mode"@, number(mode_code_spec(x.mode) as nat))],
            );
            let ty = when(x.typ != Type::OnOff, seq![("@type"@, number(type_code_spec(x.typ) as nat))]);
            let de = seq![("@description"@, TreeView::Text(x.description@))];
            let po = design_position(x.position);
            assert(d@ == l + mo + ty + de + po);
            assert(d@[0] == l[0]);
            assert(i == 1);
            if mo.len() > 0 {
                assert(d@[1] == mo[0]);
            } else if ty.len() > 0 {
                assert(d@[1] == ty[0]);
            } else {
                assert(d@[1] == de[0]);
            }
            assert(i2 == 1 + mo.len());
            if ty.len() > 0 {
                assert(d@[i2 as int] == ty[0]);
            } else {
                assert(d@[i2 as int] == de[0]);
            }
            assert(i3 == i2 + ty.len());
            assert(d@[i3 as int] == de[0]);
            assert(i4 == i3 + 1);
            if x.mode != IONodeType::Output {
                assert(mode_n == Some(1u32));
            }
            if x.typ != Type::OnOff {
                assert(type_n == Some(type_code_spec(x.typ) as u32));
            }
            assert(r.typ == x.typ);
            let v = pos_view(x.position);
            if po.len() > 0 {
                assert(d@[i4 as int] == po[0]);
                let xs = when(v.0 is Some, seq![("@x"@, TreeView::Text(v.0->0))]);
                let zs = when(v.1 is Some, seq![("@z"@, TreeView::Text(v.1->0))]);
                assert(inner_v == xs + zs);
                if v.0 is Some {
                    assert(inner_v[0] == xs[0]);
                    if v.1 is Some {
                        assert(inner_v[1] == zs[0]);
                    }
                } else if v.1 is Some {
                    assert(inner_v[0] == zs[0]);
                }
                assert(pos_view(r.position) == v);
            } else {
                assert(d@.len() == i4);
            }
        }
    }
    r
}

fn copy_text(t: &Option<String>) -> (r: Option<String>)
    ensures
        opt_text(r) == opt_text(*t),
        r is Some <==> t is Some,
{
    match t {
        Some(x) => Some(x.clone()),
        None => None,
    }
}

fn copy_map(t: &Option<AttrMap>) -> (r: Option<AttrMap>)
    ensures
        crate::components::opt_map_view(r) == crate::components::opt_map_view(*t),
{
    match t {
        Some(x) => Some(clone_map(x)),
        None => None,
    }
}

fn copy_node(c: &ComponentType) -> (r: ComponentType)
    ensures
        r@ == c@,
{
    let mut inputs: Vec<TypedInputConnection> = Vec::new();
    let n = c.inputs.len();
    let mut i: usize = 0;
    while i < n
        invariant
            n == c.inputs@.len(),
            i <= n,
            inputs@.len() == i,
            forall|x: int| 0 <= x < i ==> (#[trigger] inputs@[x])@ == c.inputs@[x]@,
        decreases n - i,
    {
        let s = &c.inputs[i];
        inputs.push(
            TypedInputConnection {
                connection: s.connection,
                force_visible: s.force_visible,
                v_attr: copy_text(&s.v_attr),
                v: copy_map(&s.v),
            },
        );
        i += 1;
    }
    let mut outputs: Vec<TypedOutputConnection> = Vec::new();
    let n = c.outputs.len();
    let mut i: usize = 0;
    while i < n
        invariant
            n == c.outputs@.len(),
            i <= n,
            outputs@.len() == i,
            forall|x: int| 0 <= x < i ==> (#[trigger] outputs@[x])@ == c.outputs@[x]@,
        decreases n - i,
    {
        let s = &c.outputs[i];
        outputs.push(
            TypedOutputConnection {
                force_visible: s.force_visible,
                v_attr: copy_text(&s.v_attr),
                v: copy_map(&s.v),
            },
        );
        i += 1;
    }
    let r = ComponentType {
        kind: c.kind,
        inputs,
        outputs,
        attrs: clone_map(&c.attrs),
        elems: clone_map(&c.elems),
    };
    assert(r@.inputs =~= c@.inputs);
    assert(r@.outputs =~= c@.outputs);
    r
}

fn copy_bridge(b: &BridgeComponent) -> (r: BridgeComponent)
    ensures
        bridge_same(r, *b),
{
    BridgeComponent {
        id: b.id,
        pos: PositionXY { x: copy_text(&b.pos.x), y: copy_text(&b.pos.y) },
        component: copy_node(&b.component),
    }
}

/// `k` is `@sym<j>` for an icon row `j` in `i..n` that is not zero.
pub open spec fn written_icon_key(k: Seq<char>, icon: Seq<u16>, i: int, n: int) -> bool {
    exists|j: int| i <= j < n && icon[j] != 0 && k == #[trigger] sym_key(j as nat)
}

proof fn lemma_icon_entries(icon: Seq<u16>, i: int, n: int)
    requires
        0 <= i <= n,
    ensures
        icon_entries(icon, i).len() <= icon_entries(icon, n).len(),
        icon_entries(icon, n).subrange(0, icon_entries(icon, i).len() as int) == icon_entries(
            icon,
            i,
        ),
        forall|k: int|
            icon_entries(icon, i).len() <= k < icon_entries(icon, n).len() ==> written_icon_key(
                (#[trigger] icon_entries(icon, n)[k]).0,
                icon,
                i,
                n,
            ),
        i < n && icon[i] != 0 ==> icon_entries(icon, n)[icon_entries(icon, i).len() as int] == (
            sym_key(i as nat),
            number(icon[i] as nat),
        ),
    decreases n - i,
{
    let ei = icon_entries(icon, i);
    if n > i {
        lemma_icon_entries(icon, i, n - 1);
        let prev = icon_entries(icon, n - 1);
        let en = icon_entries(icon, n);
        assert(en.subrange(0, ei.len() as int) =~= ei) by {
            assert(prev.subrange(0, ei.len() as int) == ei);
        }
        assert forall|k: int| ei.len() <= k < en.len() implies written_icon_key(
            (#[trigger] en[k]).0,
            icon,
            i,
            n,
        ) by {
            if k < prev.len() {
                assert(en[k] == prev[k]);
                assert(written_icon_key(prev[k].0, icon, i, n - 1));
                let j = choose|j: int|
                    i <= j < n - 1 && icon[j] != 0 && prev[k].0 == #[trigger] sym_key(j as nat);
                assert(i <= j < n && icon[j] != 0);
            } else {
                assert(i <= n - 1 < n && icon[n - 1] != 0);
                assert(en[k].0 == sym_key((n - 1) as nat));
            }
        }
        if i < n && icon[i] != 0 {
            if i < n - 1 {
                lemma_icon_entries(icon, i + 1, n - 1);
                assert(icon_entries(icon, i + 1).len() == ei.len() + 1);
            }
        }
    }
}

proof fn lemma_bridge_list_full(io: Seq<IONode>, order: Seq<u32>)
    requires
        forall|j: int| 0 <= j < order.len() ==> first_logic(io, #[trigger] order[j]) >= 0,
    ensures
        bridge_list(io, order).len() == order.len(),
        forall|j: int|
            0 <= j < order.len() ==> #[trigger] bridge_list(io, order)[j] == io[first_logic(
                io,
                order[j],
            )].logic,
    decreases order.len(),
{
    if order.len() > 0 {
        let o1 = order.drop_last();
        assert forall|j: int| 0 <= j < o1.len() implies first_logic(io, #[trigger] o1[j]) >= 0 by {
            assert(o1[j] == order[j]);
        }
        lemma_bridge_list_full(io, o1);
        assert(first_logic(io, order[order.len() - 1]) >= 0);
        assert forall|j: int| 0 <= j < order.len() implies #[trigger] bridge_list(io, order)[j]
            == io[first_logic(io, order[j])].logic by {
            if j < order.len() - 1 {
                assert(o1[j] == order[j]);
            }
        }
    }
}

proof fn lemma_root_keys(j: nat)
    ensures
        "@name"@ != "@description"@,
        "@name"@ != "@width"@,
        "@description"@ != "@width"@,
        "@length"@ != "@id_counter"@,
        "@length"@ != "@id_counter_node"@,
        "@id_counter"@ != "@id_counter_node"@,
        "@width"@ != "@length"@,
        "nodes"@ != "group"@,
        sym_key(j) != "@name"@,
        sym_key(j) != "@description"@,
        sym_key(j) != "@width"@,
        sym_key(j) != "@length"@,
        sym_key(j) != "@id_counter"@,
        sym_key(j) != "@id_counter_node"@,
        sym_key(j) != "nodes"@,
        "nodes"@ != "@name"@,
        "nodes"@ != "@description"@,
        "nodes"@ != "@id_counter"@,
        "nodes"@ != "@id_counter_node"@,
        "@sym"@ == seq!['@', 's', 'y', 'm'],
        "data"@ != "components"@,
{
    reveal_strlit("@name");
    reveal_strlit("@description");
    reveal_strlit("@width");
    reveal_strlit("@length");
    reveal_strlit("@id_counter");
    reveal_strlit("@id_counter_node");
    reveal_strlit("nodes");
    reveal_strlit("group");
    reveal_strlit("@sym");
    reveal_strlit("data");
    reveal_strlit("components");
    assert("@sym"@ =~= seq!['@', 's', 'y', 'm']);
    assert("@name"@[1] != "@description"@[1]);
    assert("@name"@[1] != "@width"@[1]);
    assert("@description"@[1] != "@width"@[1]);
    assert("@length"@[1] != "@id_counter"@[1]);
    assert("@length"@[1] != "@id_counter_node"@[1]);
    assert("@id_counter"@.len() != "@id_counter_node"@.len());
    assert("@width"@[1] != "@length"@[1]);
    assert("nodes"@[0] != "group"@[0]);
    assert(sym_key(j)[1] == 's');
    assert(sym_key(j)[0] == '@');
    assert(sym_key(j)[1] != "@name"@[1]);
    assert(sym_key(j)[1] != "@description"@[1]);
    assert(sym_key(j)[1] != "@width"@[1]);
    assert(sym_key(j)[1] != "@length"@[1]);
    assert(sym_key(j)[1] != "@id_counter"@[1]);
    assert(sym_key(j)[1] != "@id_counter_node"@[1]);
    assert(sym_key(j)[0] != "nodes"@[0]);
    assert("nodes"@[0] != "@name"@[0]);
    assert("nodes"@[0] != "@description"@[0]);
    assert("nodes"@[0] != "@id_counter"@[0]);
    assert("nodes"@[0] != "@id_counter_node"@[0]);
    assert("data"@[0] != "components"@[0]);
}

proof fn lemma_sym_key_injective(a: nat, b: nat)
    requires
        sym_key(a) == sym_key(b),
    ensures
        a == b,
{
    assert(sym_key(a).subrange(4, sym_key(a).len() as int) =~= dec_digits(a));
    assert(sym_key(b).subrange(4, sym_key(b).len() as int) =~= dec_digits(b));
    crate::text::lemma_dec_digits_injective(a, b);
}

impl Microcontroller {
    /// The microcontroller is one whose document reads back as itself: its
    /// nodes round-trip, bridge node ids are unique, and the bridge order
    /// lists each of them once.
    pub open spec fn round_trips(&self) -> bool {
        &&& forall|i: int|
            0 <= i < self.spec_components().len() ==> node_round_trips(
                false,
                (#[trigger] self.spec_components()[i]).id,
                pos_view(self.spec_components()[i].pos),
                self.spec_components()[i].component@,
            )
        &&& forall|i: int|
            0 <= i < self.spec_io().len() ==> node_round_trips(
                true,
                (#[trigger] self.spec_io()[i]).logic.id,
                pos_view(self.spec_io()[i].logic.pos),
                self.spec_io()[i].logic.component@,
            )
        &&& forall|i: int, j: int|
            0 <= i < self.spec_io().len() && 0 <= j < self.spec_io().len() && i != j ==> (#[trigger] self.spec_io()[i]).logic.id
                != (#[trigger] self.spec_io()[j]).logic.id
        &&& self.bridge_order().len() == self.spec_io().len()
        &&& forall|i: int, j: int|
            0 <= i < self.bridge_order().len() && 0 <= j
                < self.bridge_order().len() && i != j ==> (
            #[trigger] self.bridge_order()[i]) != (#[trigger] self.bridge_order()[j])
        &&& forall|j: int|
            0 <= j < self.bridge_order().len() ==> first_logic(
                self.spec_io(),
                #[trigger] self.bridge_order()[j],
            ) >= 0
        &&& forall|k: int|
            0 <= k < self.spec_io().len() ==> self.bridge_order().contains(
                (#[trigger] self.spec_io()[k]).logic.id,
            )
    }
}

/// `c` round-trips and `m` is its document.
pub open spec fn renders_doc(c: Microcontroller, m: Seq<(Seq<char>, TreeView)>) -> bool {
    c.round_trips() && c.document_entries() == m
}

/// The document entries of `c`, split at the end of the attributes.
proof fn lemma_document_layout(c: Microcontroller)
    ensures
        c.document_entries() == c.header_entries() + icon_entries(c.icon@, 16) + seq![
            ("nodes"@, element(nodes_entries(c.io@))),
            (
                "group"@,
                element(
                    group_entries(
                        c.data_type,
                        c.components@,
                        bridge_list(c.io@, c.components_bridge_order@),
                    ),
                ),
            ),
        ],
        c.header_entries() == when(c.name@.len() > 0, seq![("@name"@, TreeView::Text(c.name@))])
            + when(
            c.description@.len() > 0,
            seq![("@description"@, TreeView::Text(c.description@))],
        ) + seq![("@width"@, number(c.width as nat)), ("@length"@, number(c.length as nat))]
            + when(c.id_counter != 0, seq![("@id_counter"@, number(c.id_counter as nat))])
            + when(
            c.id_counter_node is Some,
            seq![("@id_counter_node"@, number(c.id_counter_node->0 as nat))],
        ),
{
}

/// The key that follows the attributes before the icon rows.
proof fn lemma_after_header(c: Microcontroller, m: Seq<(Seq<char>, TreeView)>)
    requires
        c.document_entries() == m,
    ensures
        c.header_entries().len() < m.len(),
        m[c.header_entries().len() as int].0 == "nodes"@ || exists|j: nat|
            j < 16 && m[c.header_entries().len() as int].0 == #[trigger] sym_key(j),
        m.subrange(0, c.header_entries().len() as int) == c.header_entries(),
{
    lemma_document_layout(c);
    let h = c.header_entries();
    let ie = icon_entries(c.icon@, 16);
    assert(m.subrange(0, h.len() as int) =~= h);
    if ie.len() > 0 {
        lemma_icon_entries(c.icon@, 0, 16);
        assert(m[h.len() as int] == ie[0]);
        assert(written_icon_key(ie[0].0, c.icon@, 0, 16));
        let j = choose|j: int| 0 <= j < 16 && c.icon@[j] != 0 && ie[0].0 == #[trigger] sym_key(j as nat);
        assert(m[h.len() as int].0 == sym_key(j as nat));
    } else {
        assert(m[h.len() as int].0 == "nodes"@);
    }
}

/// Reads the attributes before the icon rows.
fn read_header(m: &AttrMap) -> (r: (String, String, u8, u8, u32, Option<u32>, usize))
    ensures
        r.6 <= m@.len(),
        forall|c: Microcontroller|
            #[trigger] renders_doc(c, m@) ==> r.0@ == c.name@ && r.1@ == c.description@ && r.2
                == c.width && r.3 == c.length && r.4 == c.id_counter && r.5 == c.id_counter_node
                && r.6 == c.header_entries().len(),
{
    let (name_o, i1) = opt_text_at(m, 0, "@name");
    let (desc_o, i2) = opt_text_at(m, i1, "@description");
    let (w_o, i3) = opt_number_at(m, i2, "@width");
    let (l_o, i4) = opt_number_at(m, i3, "@length");
    let (ic_o, i5) = opt_number_at(m, i4, "@id_counter");
    let (icn_o, i6) = opt_number_at(m, i5, "@id_counter_node");
    let name = match name_o {
        Some(t) => t,
        None => String::new(),
    };
    let description = match desc_o {
        Some(t) => t,
        None => String::new(),
    };
    let width: u8 = match w_o {
        Some(w) => if w <= 255 {
            w as u8
        } else {
            0
        },
        None => 0,
    };
    let length: u8 = match l_o {
        Some(w) => if w <= 255 {
            w as u8
        } else {
            0
        },
        None => 0,
    };
    let id_counter: u32 = match ic_o {
        Some(x) => x,
        None => 0,
    };
    proof {
        assert forall|c: Microcontroller| #[trigger] renders_doc(c, m@) implies name@ == c.name@
            && description@ == c.description@ && width == c.width && length == c.length && id_counter
            == c.id_counter && icn_o == c.id_counter_node && i6 == c.header_entries().len() by {
            lemma_document_layout(c);
            lemma_after_header(c, m@);
            let h = c.header_entries();
            let nm = when(c.name@.len() > 0, seq![("@name"@, TreeView::Text(c.name@))]);
            let de = when(
                c.description@.len() > 0,
                seq![("@description"@, TreeView::Text(c.description@))],
            );
            let wl = seq![("@width"@, number(c.width as nat)), ("@length"@, number(c.length as nat))];
            let ic = when(c.id_counter != 0, seq![("@id_counter"@, number(c.id_counter as nat))]);
            let icn = when(
                c.id_counter_node is Some,
                seq![("@id_counter_node"@, number(c.id_counter_node->0 as nat))],
            );
            assert(h == nm + de + wl + ic + icn);
            let j: nat = if m@[h.len() as int].0 == "nodes"@ {
                0
            } else {
                choose|j: nat| j < 16 && m@[h.len() as int].0 == #[trigger] sym_key(j)
            };
            lemma_root_keys(j);
            assert(m@.subrange(0, h.len() as int)[0] == m@[0]);
            if nm.len() > 0 {
                assert(m@[0] == h[0]);
            } else {
                assert(m@[0] == h[0]);
                assert(name@ =~= c.name@);
            }
            assert(i1 == nm.len());
            assert(m@[i1 as int] == h[i1 as int]);
            if de.len() == 0 {
                assert(description@ =~= c.description@);
            }
            assert(i2 == nm.len() + de.len());
            assert(m@[i2 as int] == h[i2 as int]);
            assert(m@[i2 + 1] == h[i2 + 1]);
            assert(i4 == i2 + 2);
            if ic.len() > 0 {
                assert(m@[i4 as int] == h[i4 as int]);
            } else if icn.len() > 0 {
                assert(m@[i4 as int] == h[i4 as int]);
            }
            assert(i5 == i4 + ic.len());
            if icn.len() > 0 {
                assert(m@[i5 as int] == h[i5 as int]);
            }
        }
    }
    (name, description, width, length, id_counter, icn_o, i6)
}

/// Reads the icon rows starting at position `i`.
fn read_icon(m: &AttrMap, i: usize) -> (r: ([u16; 16], usize))
    requires
        i <= m@.len(),
    ensures
        i <= r.1 <= m@.len(),
        forall|c: Microcontroller|
            #[trigger] renders_doc(c, m@) && i == c.header_entries().len() ==> r.0@ == c.icon@
                && r.1 == i + icon_entries(c.icon@, 16).len(),
{
    let mut icon: [u16; 16] = [0u16; 16];
    let mut at = i;
    let mut row: usize = 0;
    let n = m.len();
    while row < 16
        invariant
            n == m@.len(),
            i <= at <= n,
            row <= 16,
            forall|x: int| row <= x < 16 ==> icon@[x] == 0,
            forall|c: Microcontroller|
                #[trigger] renders_doc(c, m@) && i == c.header_entries().len() ==> at == i
                    + icon_entries(c.icon@, row as int).len() && forall|x: int|
                    0 <= x < row ==> icon@[x] == c.icon@[x],
        decreases 16 - row,
    {
        proof {
            lemma_root_keys(0);
        }
        let key = with_index("@sym", row);
        let ghost at0 = at;
        let (v, next) = opt_number_at(m, at, key.as_str());
        let ghost icon0 = icon@;
        match v {
            Some(x) => {
                if x <= 65535 {
                    icon.set(row, x as u16);
                }
            },
            None => {},
        }
        at = next;
        proof {
            assert forall|c: Microcontroller|
                #[trigger] renders_doc(c, m@) && i == c.header_entries().len() implies at == i
                + icon_entries(c.icon@, row + 1).len() && forall|x: int|
                0 <= x < row + 1 ==> icon@[x] == c.icon@[x] by {
                lemma_document_layout(c);
                let h = c.header_entries();
                let ie = icon_entries(c.icon@, 16);
                lemma_icon_entries(c.icon@, row as int, 16);
                lemma_icon_entries(c.icon@, row as int, row + 1);
                let pi = icon_entries(c.icon@, row as int);
                let rest = seq![
                    ("nodes"@, element(nodes_entries(c.io@))),
                    (
                        "group"@,
                        element(
                            group_entries(
                                c.data_type,
                                c.components@,
                                bridge_list(c.io@, c.components_bridge_order@),
                            ),
                        ),
                    ),
                ];
                assert(m@ == h + ie + rest);
                if c.icon@[row as int] != 0 {
                    lemma_icon_entries(c.icon@, row + 1, 16);
                    assert(m@[at0 as int] == ie[pi.len() as int]);
                    assert(v == Some(c.icon@[row as int] as u32));
                } else {
                    if at0 < h.len() + ie.len() {
                        assert(m@[at0 as int] == ie[at0 - h.len()]);
                        assert(written_icon_key(ie[at0 - h.len()].0, c.icon@, row as int, 16));
                        let j = choose|j: int|
                            row <= j < 16 && c.icon@[j] != 0 && ie[at0 - h.len()].0 == #[trigger] sym_key(
                                j as nat,
                            );
                        if j != row {
                            if sym_key(j as nat) == sym_key(row as nat) {
                                lemma_sym_key_injective(j as nat, row as nat);
                            }
                        }
                    } else {
                        assert(m@[at0 as int] == rest[0]);
                        lemma_root_keys(row as nat);
                    }
                }
            }
        }
        row += 1;
    }
    proof {
        assert forall|c: Microcontroller|
            #[trigger] renders_doc(c, m@) && i == c.header_entries().len() implies icon@ == c.icon@ by {
            assert(icon@ =~= c.icon@);
        }
    }
    (icon, at)
}

/// Reads the IO nodes of a `nodes` element: node id, bridge node id, and
/// design of each.
fn read_nodes(nodes: &AttrMap) -> (r: Vec<(u32, u32, IONodeDesign)>)
    ensures
        forall|io: Seq<IONode>|
            #[trigger] nodes_entries(io) == nodes@ ==> r@.len() == io.len() && forall|k: int|
                0 <= k < io.len() ==> (#[trigger] r@[k]).0 == io[k].design.node_id && r@[k].1
                    == io[k].logic.id && design_same(r@[k].2, io[k].design),
{
    let mut out: Vec<(u32, u32, IONodeDesign)> = Vec::new();
    let n = nodes.len();
    let mut k: usize = 0;
    while k < n
        invariant
            n == nodes@.len(),
            k <= n,
            out@.len() == k,
            forall|io: Seq<IONode>|
                #[trigger] nodes_entries(io) == nodes@ ==> forall|x: int|
                    0 <= x < k ==> (#[trigger] out@[x]).0 == io[x].design.node_id && out@[x].1
                        == io[x].logic.id && design_same(out@[x].2, io[x].design),
        decreases n - k,
    {
        let empty = AttrMap::new();
        let e = match element_at(nodes, k) {
            Some(e) => e,
            None => &empty,
        };
        let node_id = match number_at(e, 0) {
            Some(x) => x,
            None => 0,
        };
        let component_id = match number_at(e, 1) {
            Some(x) => x,
            None => 0,
        };
        let d = match element_at(e, 2) {
            Some(d) => d,
            None => &empty,
        };
        let design = read_design(node_id, d);
        proof {
            assert forall|io: Seq<IONode>| #[trigger] nodes_entries(io) == nodes@ implies node_id
                == io[k as int].design.node_id && component_id == io[k as int].logic.id
                && design_same(design, io[k as int].design) by {
                assert(nodes@[k as int] == nodes_entries(io)[k as int]);
                let ne = io_node_entries(io[k as int]);
                assert(e@ == ne);
                assert(d@ == design_entries(io[k as int].design));
            }
        }
        out.push((node_id, component_id, design));
        k += 1;
    }
    out
}

/// Reads the logic nodes of a `components` element.
fn read_components(list: &AttrMap) -> (r: Vec<Component>)
    ensures
        forall|i: int| 0 <= i < r@.len() ==> node_shape_ok(false, (#[trigger] r@[i]).component@),
        forall|cs: Seq<Component>|
            (forall|i: int|
                0 <= i < cs.len() ==> node_round_trips(
                    false,
                    (#[trigger] cs[i]).id,
                    pos_view(cs[i].pos),
                    cs[i].component@,
                )) && #[trigger] components_list(cs) == list@ ==> r@.len() == cs.len() && forall|
                i: int,
            |
                0 <= i < cs.len() ==> component_same(#[trigger] r@[i], cs[i]),
{
    let mut out: Vec<Component> = Vec::new();
    let n = list.len();
    let mut k: usize = 0;
    while k < n
        invariant
            n == list@.len(),
            k <= n,
            forall|i: int| 0 <= i < out@.len() ==> node_shape_ok(false, (#[trigger] out@[i]).component@),
            forall|cs: Seq<Component>|
                (forall|i: int|
                    0 <= i < cs.len() ==> node_round_trips(
                        false,
                        (#[trigger] cs[i]).id,
                        pos_view(cs[i].pos),
                        cs[i].component@,
                    )) && #[trigger] components_list(cs) == list@ ==> out@.len() == k && forall|
                    i: int,
                |
                    0 <= i < k ==> component_same(#[trigger] out@[i], cs[i]),
        decreases n - k,
    {
        let empty = AttrMap::new();
        let e = match element_at(list, k) {
            Some(e) => e,
            None => &empty,
        };
        let got = Component::from_tree(e);
        proof {
            assert forall|cs: Seq<Component>|
                (forall|i: int|
                    0 <= i < cs.len() ==> node_round_trips(
                        false,
                        (#[trigger] cs[i]).id,
                        pos_view(cs[i].pos),
                        cs[i].component@,
                    )) && #[trigger] components_list(cs) == list@ implies got is Some
                && component_same(got->0, cs[k as int]) by {
                assert(list@[k as int] == components_list(cs)[k as int]);
                assert(e@ == component_entries(cs[k as int]));
                let x = cs[k as int];
                lemma_node_entries_norm(false, x.id, pos_view(x.pos), x.component@);
            }
        }
        match got {
            Some(c) => {
                out.push(c);
            },
            None => {},
        }
        k += 1;
    }
    out
}

/// Reads the bridge nodes of a `components_bridge` element.
fn read_bridges(list: &AttrMap) -> (r: Vec<BridgeComponent>)
    ensures
        forall|i: int| 0 <= i < r@.len() ==> node_shape_ok(true, (#[trigger] r@[i]).component@),
        forall|bs: Seq<BridgeComponent>|
            (forall|i: int|
                0 <= i < bs.len() ==> node_round_trips(
                    true,
                    (#[trigger] bs[i]).id,
                    pos_view(bs[i].pos),
                    bs[i].component@,
                )) && #[trigger] bridges_list(bs) == list@ ==> r@.len() == bs.len() && forall|
                i: int,
            |
                0 <= i < bs.len() ==> bridge_same(#[trigger] r@[i], bs[i]),
{
    let mut out: Vec<BridgeComponent> = Vec::new();
    let n = list.len();
    let mut k: usize = 0;
    while k < n
        invariant
            n == list@.len(),
            k <= n,
            forall|i: int| 0 <= i < out@.len() ==> node_shape_ok(true, (#[trigger] out@[i]).component@),
            forall|bs: Seq<BridgeComponent>|
                (forall|i: int|
                    0 <= i < bs.len() ==> node_round_trips(
                        true,
                        (#[trigger] bs[i]).id,
                        pos_view(bs[i].pos),
                        bs[i].component@,
                    )) && #[trigger] bridges_list(bs) == list@ ==> out@.len() == k && forall|
                    i: int,
                |
                    0 <= i < k ==> bridge_same(#[trigger] out@[i], bs[i]),
        decreases n - k,
    {
        let empty = AttrMap::new();
        let e = match element_at(list, k) {
            Some(e) => e,
            None => &empty,
        };
        let got = BridgeComponent::from_tree(e);
        proof {
            assert forall|bs: Seq<BridgeComponent>|
                (forall|i: int|
                    0 <= i < bs.len() ==> node_round_trips(
                        true,
                        (#[trigger] bs[i]).id,
                        pos_view(bs[i].pos),
                        bs[i].component@,
                    )) && #[trigger] bridges_list(bs) == list@ implies got is Some && bridge_same(
                got->0,
                bs[k as int],
            ) by {
                assert(list@[k as int] == bridges_list(bs)[k as int]);
                assert(e@ == bridge_entries(bs[k as int]));
                let x = bs[k as int];
                lemma_node_entries_norm(true, x.id, pos_view(x.pos), x.component@);
            }
        }
        match got {
            Some(c) => {
                out.push(c);
            },
            None => {},
        }
        k += 1;
    }
    out
}

fn copy_design(d: &IONodeDesign) -> (r: IONodeDesign)
    ensures
        design_same(r, *d),
{
    IONodeDesign {
        node_id: d.node_id,
        label: d.label.clone(),
        description: d.description.clone(),
        typ: d.typ,
        mode: d.mode,
        position: PositionXY { x: copy_text(&d.position.x), y: copy_text(&d.position.y) },
    }
}

/// The IO nodes and bridge order of a round-tripping microcontroller.
pub open spec fn io_order_ok(io: Seq<IONode>, order: Seq<u32>) -> bool {
    &&& forall|i: int, j: int|
        0 <= i < io.len() && 0 <= j < io.len() && i != j ==> (#[trigger] io[i]).logic.id != (
        #[trigger] io[j]).logic.id
    &&& order.len() == io.len()
    &&& forall|i: int, j: int|
        0 <= i < order.len() && 0 <= j < order.len() && i != j ==> (#[trigger] order[i]) != (
        #[trigger] order[j])
    &&& forall|j: int| 0 <= j < order.len() ==> first_logic(io, #[trigger] order[j]) >= 0
    &&& forall|k: int| 0 <= k < io.len() ==> order.contains((#[trigger] io[k]).logic.id)
}

/// Pairs each IO node read with the first bridge node that has its bridge
/// id.
fn pair_io(nodes: &Vec<(u32, u32, IONodeDesign)>, bridges: &Vec<BridgeComponent>) -> (r: Vec<IONode>)
    requires
        forall|i: int| 0 <= i < bridges@.len() ==> node_shape_ok(true, (#[trigger] bridges@[i]).component@),
    ensures
        forall|i: int| 0 <= i < r@.len() ==> node_shape_ok(true, (#[trigger] r@[i]).logic.component@),
        forall|io: Seq<IONode>, order: Seq<u32>|
            #[trigger] io_order_ok(io, order) && nodes@.len() == io.len() && (forall|k: int|
                0 <= k < io.len() ==> (#[trigger] nodes@[k]).0 == io[k].design.node_id
                    && nodes@[k].1 == io[k].logic.id && design_same(nodes@[k].2, io[k].design))
                && bridges@.len() == bridge_list(io, order).len() && (forall|j: int|
                0 <= j < bridges@.len() ==> bridge_same(
                    #[trigger] bridges@[j],
                    bridge_list(io, order)[j],
                )) ==> r@.len() == io.len() && forall|k: int|
                0 <= k < io.len() ==> io_same(#[trigger] r@[k], io[k]),
{
    let mut out: Vec<IONode> = Vec::new();
    let n = nodes.len();
    let nb = bridges.len();
    let mut k: usize = 0;
    while k < n
        invariant
            n == nodes@.len(),
            nb == bridges@.len(),
            k <= n,
            forall|i: int| 0 <= i < bridges@.len() ==> node_shape_ok(true, (#[trigger] bridges@[i]).component@),
            forall|i: int| 0 <= i < out@.len() ==> node_shape_ok(true, (#[trigger] out@[i]).logic.component@),
            forall|io: Seq<IONode>, order: Seq<u32>|
                #[trigger] io_order_ok(io, order) && nodes@.len() == io.len() && (forall|x: int|
                    0 <= x < io.len() ==> (#[trigger] nodes@[x]).0 == io[x].design.node_id
                        && nodes@[x].1 == io[x].logic.id && design_same(nodes@[x].2, io[x].design))
                    && bridges@.len() == bridge_list(io, order).len() && (forall|j: int|
                    0 <= j < bridges@.len() ==> bridge_same(
                        #[trigger] bridges@[j],
                        bridge_list(io, order)[j],
                    )) ==> out@.len() == k && forall|x: int|
                    0 <= x < k ==> io_same(#[trigger] out@[x], io[x]),
        decreases n - k,
    {
        let id = nodes[k].1;
        let mut j: usize = 0;
        let mut found = false;
        while j < nb && !found
            invariant
                nb == bridges@.len(),
                j <= nb,
                found ==> j < nb && bridges@[j as int].id == id,
                forall|x: int| 0 <= x < j ==> bridges@[x].id != id,
            decreases nb - j + if found {
                0int
            } else {
                1int
            },
        {
            if bridges[j].id == id {
                found = true;
            } else {
                j += 1;
            }
        }
        proof {
            assert forall|io: Seq<IONode>, order: Seq<u32>|
                #[trigger] io_order_ok(io, order) && nodes@.len() == io.len() && (forall|x: int|
                    0 <= x < io.len() ==> (#[trigger] nodes@[x]).0 == io[x].design.node_id
                        && nodes@[x].1 == io[x].logic.id && design_same(nodes@[x].2, io[x].design))
                    && bridges@.len() == bridge_list(io, order).len() && (forall|x: int|
                    0 <= x < bridges@.len() ==> bridge_same(
                        #[trigger] bridges@[x],
                        bridge_list(io, order)[x],
                    )) implies found && bridge_same(bridges@[j as int], io[k as int].logic) by {
                let bl = bridge_list(io, order);
                lemma_bridge_list_full(io, order);
                assert(nodes@[k as int].1 == io[k as int].logic.id);
                assert(order.contains(io[k as int].logic.id));
                let p = choose|p: int| 0 <= p < order.len() && order[p] == io[k as int].logic.id;
                lemma_first_logic(io, order[p]);
                let f = first_logic(io, order[p]);
                assert(io[f].logic.id == order[p]);
                if f != k {
                    assert(io[f].logic.id != io[k as int].logic.id);
                }
                assert(bl[p] == io[k as int].logic);
                assert(bridge_same(bridges@[p], bl[p]));
                assert(bridges@[p].id == id);
                if !found {
                    assert(bridges@[p].id != id);
                }
                if j < p {
                    lemma_first_logic(io, order[j as int]);
                    let fj = first_logic(io, order[j as int]);
                    assert(bridge_same(bridges@[j as int], bl[j as int]));
                    assert(bl[j as int] == io[fj].logic);
                    assert(io[fj].logic.id == order[j as int]);
                    assert(order[j as int] == order[p]);
                } else if j > p {
                    assert(bridges@[p].id != id);
                }
            }
        }
        if found {
            let node = IONode { design: copy_design(&nodes[k].2), logic: copy_bridge(&bridges[j]) };
            proof {
                let b0 = bridges@[j as int];
                lemma_node_entries_norm(true, b0.id, pos_view(b0.pos), b0.component@);
                lemma_node_entries_norm(true, node.logic.id, pos_view(node.logic.pos), node.logic.component@);
            }
            out.push(node);
        }
        k += 1;
    }
    out
}

impl Microcontroller {
    /// Reads a microcontroller from the entries of its `microprocessor`
    /// element, then checks it. The entries must be exactly the rendering
    /// of the microcontroller read (`to_tree` gives them back unchanged);
    /// otherwise the result is `Malformed`. The rendering of any
    /// microcontroller whose nodes round-trip, whose bridge node ids are
    /// unique and whose bridge order lists each of them once reads back as
    /// that microcontroller, or as its validation error.
    pub fn from_tree(m: &AttrMap) -> (r: Result<Microcontroller, MCSerDeError>)
        ensures
            r matches Ok(mc) ==> mc.nodes_shape_ok() && mc.spec_validation_error() is None
                && mc.document_entries() == m@,
            r matches Err(MCSerDeError::ValidationError(e)) ==> exists|mc: Microcontroller|
                mc.nodes_shape_ok() && mc.spec_validation_error() == Some(e)
                    && mc.document_entries() == m@,
            forall|c: Microcontroller|
                c.round_trips() && #[trigger] c.document_entries() == m@ ==> (
                c.spec_validation_error() is None ==> r is Ok
                    && r->Ok_0.same_as(&c)) && (c.spec_validation_error() is Some ==> r == Err::<
                    Microcontroller,
                    MCSerDeError,
                >(MCSerDeError::ValidationError(c.spec_validation_error()->0))),
    {
        let mc = Self::read_tree(m);
        proof {
            assert forall|c: Microcontroller|
                c.round_trips() && #[trigger] c.document_entries() == m@ implies renders_doc(c, m@) by {}
        }
        let rendered = mc.render();
        if !map_eq(&rendered, m) {
            proof {
                assert forall|c: Microcontroller| #[trigger] renders_doc(c, m@) implies false by {
                    Self::lemma_same_document(&mc, &c);
                }
            }
            return Err(MCSerDeError::Malformed);
        }
        proof {
            assert forall|c: Microcontroller| #[trigger] renders_doc(c, m@) implies mc.spec_validation_error()
                == c.spec_validation_error() by {
                Self::lemma_same_validation_of(&mc, &c);
            }
        }
        match mc.validate() {
            Ok(()) => Ok(mc),
            Err(e) => Err(MCSerDeError::ValidationError(e)),
        }
    }

    /// Reads the parts of a microcontroller document; unexpected pieces
    /// read as defaults, and the caller checks the result by rendering it.
    fn read_tree(m: &AttrMap) -> (r: Microcontroller)
        ensures
            r.nodes_shape_ok(),
            forall|c: Microcontroller| #[trigger] renders_doc(c, m@) ==> r.same_as(&c),
    {
        let (name, description, width, length, id_counter, id_counter_node, i) = read_header(m);
        let (icon, i) = read_icon(m, i);
        let n = m.len();
        let empty = AttrMap::new();
        let nodes = match element_at(m, i) {
            Some(e) => e,
            None => &empty,
        };
        let group = if i < n {
            match element_at(m, i + 1) {
                Some(e) => e,
                None => &empty,
            }
        } else {
            &empty
        };
        let node_list = read_nodes(nodes);
        proof {
            lemma_root_keys(0);
        }
        let data_type = match element_at(group, 0) {
            Some(d) => opt_text_at(d, 0, "@type").0,
            None => None,
        };
        let list = match element_at(group, 1) {
            Some(e) => e,
            None => &empty,
        };
        let blist = match element_at(group, 2) {
            Some(e) => e,
            None => &empty,
        };
        let components = read_components(list);
        let bridges = read_bridges(blist);
        let mut order: Vec<u32> = Vec::new();
        let nb = bridges.len();
        let mut k: usize = 0;
        while k < nb
            invariant
                nb == bridges@.len(),
                k <= nb,
                order@.len() == k,
                forall|x: int| 0 <= x < k ==> #[trigger] order@[x] == bridges@[x].id,
            decreases nb - k,
        {
            order.push(bridges[k].id);
            k += 1;
        }
        let io = pair_io(&node_list, &bridges);
        let r = Microcontroller {
            name,
            description,
            width,
            length,
            id_counter,
            id_counter_node,
            icon,
            data_type,
            io,
            components_bridge_order: order,
            components,
        };
        proof {
            assert forall|c: Microcontroller| #[trigger] renders_doc(c, m@) implies r.same_as(&c) by {
                Self::lemma_accessors(&c);
                Self::lemma_accessors(&r);
                lemma_document_layout(c);
                let h = c.header_entries();
                let ie = icon_entries(c.icon@, 16);
                let bl = bridge_list(c.io@, c.components_bridge_order@);
                let ge = group_entries(c.data_type, c.components@, bl);
                assert(m@ == h + ie + seq![
                    ("nodes"@, element(nodes_entries(c.io@))),
                    ("group"@, element(ge)),
                ]);
                assert(i == h.len() + ie.len());
                assert(m@[i as int] == ("nodes"@, element(nodes_entries(c.io@))));
                assert(m@[i + 1] == ("group"@, element(ge)));
                assert(nodes@ == nodes_entries(c.io@));
                assert(group@ == ge);
                let de = data_entries(c.data_type);
                assert(group@[0] == ("data"@, element(de)));
                if c.data_type is Some {
                    assert(de[0].0 == "@type"@);
                } else {
                    reveal_strlit("@type");
                    reveal_strlit("inputs");
                    assert(de[0].0 == "inputs"@);
                    assert("inputs"@[1] != "@type"@[1]);
                }
                assert(opt_text(data_type) == opt_text(c.data_type));
                assert(list@ == components_list(c.components@));
                assert(blist@ == bridges_list(bl));
                assert forall|x: int| 0 <= x < bl.len() implies node_round_trips(
                    true,
                    (#[trigger] bl[x]).id,
                    pos_view(bl[x].pos),
                    bl[x].component@,
                ) by {
                    lemma_bridge_list_full(c.io@, c.components_bridge_order@);
                    lemma_first_logic(c.io@, c.components_bridge_order@[x]);
                }
                lemma_bridge_list_full(c.io@, c.components_bridge_order@);
                assert(io_order_ok(c.io@, c.components_bridge_order@));
                assert(r.io@.len() == c.io@.len());
                assert forall|x: int| 0 <= x < order@.len() implies #[trigger] order@[x]
                    == c.components_bridge_order@[x] by {
                    lemma_first_logic(c.io@, c.components_bridge_order@[x]);
                    assert(bridge_same(bridges@[x], bl[x]));
                }
                assert(order@ =~= c.components_bridge_order@);
            }
            assert(r.nodes_shape_ok());
        }
        r
    }
}

// ---------------------------------------------------------------------------
// Reading a rendered document back.
// ---------------------------------------------------------------------------

/// Two designs hold the same values.
pub open spec fn design_same(a: IONodeDesign, b: IONodeDesign) -> bool {
    &&& a.node_id == b.node_id
    &&& a.label@ == b.label@
    &&& a.description@ == b.description@
    &&& a.typ == b.typ
    &&& a.mode == b.mode
    &&& pos_view(a.position) == pos_view(b.position)
}

/// Two bridge nodes hold the same values (a slot holding something counts
/// as written whatever its write marker says).
pub open spec fn bridge_same(a: BridgeComponent, b: BridgeComponent) -> bool {
    a.id == b.id && pos_view(a.pos) == pos_view(b.pos) && node_norm(a.component@) == node_norm(
        b.component@,
    )
}

/// Two logic nodes hold the same values (a slot holding something counts
/// as written whatever its write marker says).
pub open spec fn component_same(a: Component, b: Component) -> bool {
    a.id == b.id && pos_view(a.pos) == pos_view(b.pos) && node_norm(a.component@) == node_norm(
        b.component@,
    )
}

/// Two IO nodes hold the same values.
pub open spec fn io_same(a: IONode, b: IONode) -> bool {
    design_same(a.design, b.design) && bridge_same(a.logic, b.logic)
}

/// The characters of an optional string.
pub open spec fn opt_text(s: Option<String>) -> Option<Seq<char>> {
    match s {
        Some(t) => Some(t@),
        None => None,
    }
}

proof fn lemma_first_logic_same(a: Seq<IONode>, b: Seq<IONode>, id: u32)
    requires
        a.len() == b.len(),
        forall|i: int| 0 <= i < a.len() ==> #[trigger] a[i].logic.id == b[i].logic.id,
    ensures
        first_logic(a, id) == first_logic(b, id),
    decreases a.len(),
{
    if a.len() > 0 {
        lemma_first_logic_same(a.drop_last(), b.drop_last(), id);
        assert(a.last().logic.id == b.last().logic.id);
    }
}

proof fn lemma_bridge_list_same(a: Seq<IONode>, b: Seq<IONode>, order: Seq<u32>)
    requires
        a.len() == b.len(),
        forall|i: int| 0 <= i < a.len() ==> io_same(#[trigger] a[i], b[i]),
    ensures
        bridge_list(a, order).len() == bridge_list(b, order).len(),
        forall|k: int|
            0 <= k < bridge_list(a, order).len() ==> bridge_same(
                #[trigger] bridge_list(a, order)[k],
                bridge_list(b, order)[k],
            ),
    decreases order.len(),
{
    if order.len() > 0 {
        lemma_bridge_list_same(a, b, order.drop_last());
        assert forall|i: int| 0 <= i < a.len() implies #[trigger] a[i].logic.id == b[i].logic.id by {
            assert(io_same(a[i], b[i]));
        }
        lemma_first_logic_same(a, b, order.last());
        lemma_first_logic(a, order.last());
        let i = first_logic(a, order.last());
        if i >= 0 {
            assert(io_same(a[i], b[i]));
        }
    }
}

impl Microcontroller {
    /// The two microcontrollers hold the same values.
    pub open spec fn same_as(&self, other: &Self) -> bool {
        &&& self.spec_name() == other.spec_name()
        &&& self.spec_description() == other.spec_description()
        &&& self.spec_width() == other.spec_width()
        &&& self.spec_length() == other.spec_length()
        &&& self.spec_id_counter() == other.spec_id_counter()
        &&& self.spec_id_counter_node() == other.spec_id_counter_node()
        &&& self.spec_icon() == other.spec_icon()
        &&& self.spec_data_type() == other.spec_data_type()
        &&& self.spec_io().len() == other.spec_io().len()
        &&& forall|i: int|
            0 <= i < self.spec_io().len() ==> io_same(#[trigger] self.spec_io()[i], other.spec_io()[i])
        &&& self.bridge_order() == other.bridge_order()
        &&& self.spec_components().len() == other.spec_components().len()
        &&& forall|i: int|
            0 <= i < self.spec_components().len() ==> component_same(
                #[trigger] self.spec_components()[i],
                other.spec_components()[i],
            )
    }

    proof fn lemma_same_document(a: &Self, b: &Self)
        requires
            a.same_as(b),
        ensures
            a.document_entries() == b.document_entries(),
            a.nodes_shape_ok() == b.nodes_shape_ok(),
    {
        Self::lemma_accessors(a);
        Self::lemma_accessors(b);
        assert(a.header_entries() =~= b.header_entries());
        assert(nodes_entries(a.io@) =~= nodes_entries(b.io@)) by {
            assert forall|i: int| 0 <= i < a.io@.len() implies #[trigger] io_node_entries(a.io@[i])
                == io_node_entries(b.io@[i]) by {
                assert(io_same(a.io@[i], b.io@[i]));
                assert(design_entries(a.io@[i].design) =~= design_entries(b.io@[i].design));
            }
        }
        assert(data_entries(a.data_type) =~= data_entries(b.data_type));
        assert(components_list(a.components@) =~= components_list(b.components@)) by {
            assert forall|i: int| 0 <= i < a.components@.len() implies #[trigger] component_entries(
                a.components@[i],
            ) == component_entries(b.components@[i]) by {
                assert(component_same(a.components@[i], b.components@[i]));
                let x = a.components@[i];
                let y = b.components@[i];
                lemma_node_entries_norm(false, x.id, pos_view(x.pos), x.component@);
                lemma_node_entries_norm(false, y.id, pos_view(y.pos), y.component@);
            }
        }
        assert(component_states(a.components@) =~= component_states(b.components@)) by {
            assert forall|i: int| 0 <= i < a.components@.len() implies #[trigger] component_entries(
                a.components@[i],
            ) == component_entries(b.components@[i]) by {
                assert(component_same(a.components@[i], b.components@[i]));
                let x = a.components@[i];
                let y = b.components@[i];
                lemma_node_entries_norm(false, x.id, pos_view(x.pos), x.component@);
                lemma_node_entries_norm(false, y.id, pos_view(y.pos), y.component@);
            }
        }
        let ba = bridge_list(a.io@, a.components_bridge_order@);
        let bb = bridge_list(b.io@, b.components_bridge_order@);
        lemma_bridge_list_same(a.io@, b.io@, a.components_bridge_order@);
        assert forall|k: int| 0 <= k < ba.len() implies #[trigger] bridge_entries(ba[k])
            == bridge_entries(bb[k]) by {
            assert(bridge_same(ba[k], bb[k]));
            lemma_node_entries_norm(true, ba[k].id, pos_view(ba[k].pos), ba[k].component@);
            lemma_node_entries_norm(true, bb[k].id, pos_view(bb[k].pos), bb[k].component@);
        }
        assert(bridges_list(ba) =~= bridges_list(bb));
        assert(bridge_states(ba) =~= bridge_states(bb));
        assert(group_entries(a.data_type, a.components@, ba) =~= group_entries(
            b.data_type,
            b.components@,
            bb,
        ));
        assert(a.document_entries() =~= b.document_entries());
        assert(a.nodes_shape_ok() == b.nodes_shape_ok()) by {
            if a.nodes_shape_ok() {
                assert forall|i: int| 0 <= i < b.components@.len() implies node_shape_ok(
                    false,
                    (#[trigger] b.components@[i]).component@,
                ) by {
                    assert(component_same(a.components@[i], b.components@[i]));
                    lemma_node_entries_norm(false, 0, (None, None), a.components@[i].component@);
                    lemma_node_entries_norm(false, 0, (None, None), b.components@[i].component@);
                }
                assert forall|i: int| 0 <= i < b.io@.len() implies node_shape_ok(
                    true,
                    (#[trigger] b.io@[i]).logic.component@,
                ) by {
                    assert(io_same(a.io@[i], b.io@[i]));
                    lemma_node_entries_norm(true, 0, (None, None), a.io@[i].logic.component@);
                    lemma_node_entries_norm(true, 0, (None, None), b.io@[i].logic.component@);
                }
            }
            if b.nodes_shape_ok() {
                assert forall|i: int| 0 <= i < a.components@.len() implies node_shape_ok(
                    false,
                    (#[trigger] a.components@[i]).component@,
                ) by {
                    assert(component_same(a.components@[i], b.components@[i]));
                    lemma_node_entries_norm(false, 0, (None, None), a.components@[i].component@);
                    lemma_node_entries_norm(false, 0, (None, None), b.components@[i].component@);
                }
                assert forall|i: int| 0 <= i < a.io@.len() implies node_shape_ok(
                    true,
                    (#[trigger] a.io@[i]).logic.component@,
                ) by {
                    assert(io_same(a.io@[i], b.io@[i]));
                    lemma_node_entries_norm(true, 0, (None, None), a.io@[i].logic.component@);
                    lemma_node_entries_norm(true, 0, (None, None), b.io@[i].logic.component@);
                }
            }
        }
    }

    proof fn lemma_same_validation_of(a: &Self, b: &Self)
        requires
            a.same_as(b),
        ensures
            a.spec_validation_error() == b.spec_validation_error(),
    {
        Self::lemma_accessors(a);
        Self::lemma_accessors(b);
        assert(a.component_ids() =~= b.component_ids()) by {
            assert forall|i: int| 0 <= i < a.components@.len() implies #[trigger] a.component_ids()[i]
                == b.component_ids()[i] by {
                assert(component_same(a.components@[i], b.components@[i]));
            }
        }
        assert(a.io_node_ids() =~= b.io_node_ids()) by {
            assert forall|i: int| 0 <= i < a.io@.len() implies #[trigger] a.io_node_ids()[i]
                == b.io_node_ids()[i] by {
                assert(io_same(a.io@[i], b.io@[i]));
            }
        }
        assert(a.io_logic_ids() =~= b.io_logic_ids()) by {
            assert forall|i: int| 0 <= i < a.io@.len() implies #[trigger] a.io_logic_ids()[i]
                == b.io_logic_ids()[i] by {
                assert(io_same(a.io@[i], b.io@[i]));
            }
        }
        Self::lemma_same_validation(a, b);
    }
}

impl Microcontroller {
    /// Whether every node has the slots its catalog entry lists (what
    /// `to_tree` needs).
    pub fn has_catalog_shape(&self) -> (r: bool)
        ensures
            r == self.nodes_shape_ok(),
    {
        let n = self.components.len();
        let mut i: usize = 0;
        while i < n
            invariant
                n == self.components@.len(),
                i <= n,
                forall|j: int|
                    0 <= j < i ==> node_shape_ok(false, (#[trigger] self.components@[j]).component@),
            decreases n - i,
        {
            if !shape_ok(false, &self.components[i].component) {
                return false;
            }
            i += 1;
        }
        let n = self.io.len();
        let mut i: usize = 0;
        while i < n
            invariant
                n == self.io@.len(),
                i <= n,
                forall|j: int|
                    0 <= j < self.components@.len() ==> node_shape_ok(
                        false,
                        (#[trigger] self.components@[j]).component@,
                    ),
                forall|j: int|
                    0 <= j < i ==> node_shape_ok(true, (#[trigger] self.io@[j]).logic.component@),
            decreases n - i,
        {
            if !shape_ok(true, &self.io[i].logic.component) {
                return false;
            }
            i += 1;
        }
        true
    }
}

} // verus!
