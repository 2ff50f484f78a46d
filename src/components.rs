//! Typed connection slots and nodes, and their exact attribute-tree forms.

use vstd::prelude::*;

use crate::text::{dec_digits, lemma_dec_digits_injective, parse_decimal, str_eq, with_decimal};
use crate::tree::{clone_map, lemma_entries_view, map_eq, AttrMap, TreeView, Value};
use crate::types::Type;

verus! {

broadcast use lemma_entries_view;

/// A reference from an input slot to the node feeding it and to which of
/// that node's outputs it reads.
#[derive(Clone, Copy, Debug, PartialEq, Eq, Structural)]
pub struct ComponentConnection {
    /// The id of the node to connect to.
    pub component_id: u32,
    /// The output index on that node.
    pub node_index: u8,
}

/// An input slot: its connection, if any, and legacy attributes of unknown
/// meaning that are kept exactly as read.
#[derive(Debug, PartialEq)]
pub struct TypedInputConnection {
    /// The actual connection.
    pub connection: Option<ComponentConnection>,
    /// Whether the slot is written even when it holds nothing.
    pub force_visible: bool,
    /// Legacy `v` attribute.
    pub v_attr: Option<String>,
    /// Legacy `v` element: its attributes, in order.
    pub v: Option<AttrMap>,
}

/// An output slot: legacy attributes of unknown meaning, kept exactly as
/// read.
#[derive(Debug, PartialEq)]
pub struct TypedOutputConnection {
    /// Whether the slot is written even when it holds nothing.
    pub force_visible: bool,
    /// Legacy `v` attribute.
    pub v_attr: Option<String>,
    /// Legacy `v` element: its attributes, in order.
    pub v: Option<AttrMap>,
}

/// The model of a slot (an output slot has no connection).
pub struct SlotView {
    pub connection: Option<ComponentConnection>,
    pub force_visible: bool,
    pub v_attr: Option<Seq<char>>,
    pub v: Option<Seq<(Seq<char>, TreeView)>>,
}

/// The characters of an optional string.
pub open spec fn opt_string_view(s: Option<String>) -> Option<Seq<char>> {
    match s {
        Some(t) => Some(t@),
        None => None,
    }
}

/// The model of an optional map.
pub open spec fn opt_map_view(m: Option<AttrMap>) -> Option<Seq<(Seq<char>, TreeView)>> {
    match m {
        Some(t) => Some(t@),
        None => None,
    }
}

impl View for TypedInputConnection {
    type V = SlotView;

    open spec fn view(&self) -> SlotView {
        SlotView {
            connection: self.connection,
            force_visible: self.force_visible,
            v_attr: opt_string_view(self.v_attr),
            v: opt_map_view(self.v),
        }
    }
}

impl View for TypedOutputConnection {
    type V = SlotView;

    open spec fn view(&self) -> SlotView {
        SlotView {
            connection: None,
            force_visible: self.force_visible,
            v_attr: opt_string_view(self.v_attr),
            v: opt_map_view(self.v),
        }
    }
}

impl TypedInputConnection {
    /// A slot connected to `conn`.
    pub fn new(conn: ComponentConnection) -> (r: Self)
        ensures
            r@ == (SlotView { connection: Some(conn), force_visible: false, v_attr: None, v: None }),
    {
        TypedInputConnection { connection: Some(conn), force_visible: false, v_attr: None, v: None }
    }

    /// An unconnected slot, left out of the document.
    pub fn empty() -> (r: Self)
        ensures
            r@ == (SlotView { connection: None, force_visible: false, v_attr: None, v: None }),
    {
        TypedInputConnection { connection: None, force_visible: false, v_attr: None, v: None }
    }

    /// Connects the slot to `conn`, keeping everything else.
    pub fn set(&mut self, conn: ComponentConnection)
        ensures
            final(self)@ == (SlotView { connection: Some(conn), ..old(self)@ }),
    {
        self.connection = Some(conn);
    }

    /// Clears the connection, if present.
    pub fn clear(&mut self)
        ensures
            final(self)@ == (SlotView { connection: None, ..old(self)@ }),
    {
        self.connection = None;
    }
}

impl TypedOutputConnection {
    /// An output slot holding nothing, left out of the document.
    pub fn empty() -> (r: Self)
        ensures
            r@ == (SlotView { connection: None, force_visible: false, v_attr: None, v: None }),
    {
        TypedOutputConnection { force_visible: false, v_attr: None, v: None }
    }
}

// ---------------------------------------------------------------------------
// Attribute-tree form of a slot.
// ---------------------------------------------------------------------------

/// The attribute naming the node a slot reads from.
pub open spec fn key_component_id() -> Seq<char> {
    seq!['@', 'c', 'o', 'm', 'p', 'o', 'n', 'e', 'n', 't', '_', 'i', 'd']
}

/// The attribute naming the output a slot reads from.
pub open spec fn key_node_index() -> Seq<char> {
    seq!['@', 'n', 'o', 'd', 'e', '_', 'i', 'n', 'd', 'e', 'x']
}

/// The legacy `v` attribute of a slot.
pub open spec fn key_v_attr() -> Seq<char> {
    seq!['@', 'v']
}

/// The legacy `v` element of a slot.
pub open spec fn key_v() -> Seq<char> {
    seq!['v']
}

/// The slot holds nothing: no connection and no legacy data.
pub open spec fn slot_is_blank(s: SlotView) -> bool {
    s.connection is None && s.v_attr is None && s.v is None
}

/// Whether the legacy `v` element `v` is written for a slot of signal type
/// `t`: it is left out when it is empty and the slot is an on/off or number
/// slot that is not marked always visible.
pub open spec fn legacy_shown(v: Seq<(Seq<char>, TreeView)>, t: Type, always_visible: bool) -> bool {
    !(v.len() == 0 && (t == Type::OnOff || t == Type::Number) && !always_visible)
}

/// Whether the slot appears in the document at all.
pub open spec fn slot_written(s: SlotView) -> bool {
    s.force_visible || !slot_is_blank(s)
}

/// A slot whose document form reads back as the same slot: a legacy element
/// it holds is one the writer does not leave out.
pub open spec fn slot_wf(s: SlotView, t: Type, always_visible: bool) -> bool {
    s.v matches Some(v) ==> legacy_shown(v, t, always_visible)
}

/// A slot as it reads back from the document: the write marker only tells
/// anything for a slot that holds nothing (a slot holding something is
/// written whatever the marker says), so such a slot reads back marked.
pub open spec fn slot_norm(s: SlotView) -> SlotView {
    if slot_is_blank(s) {
        s
    } else {
        SlotView { force_visible: true, ..s }
    }
}

/// The connection attributes of a slot.
pub open spec fn connection_entries(c: Option<ComponentConnection>) -> Seq<(Seq<char>, TreeView)> {
    match c {
        Some(c) => if c.node_index == 0 {
            seq![(key_component_id(), TreeView::Text(dec_digits(c.component_id as nat)))]
        } else {
            seq![
                (key_component_id(), TreeView::Text(dec_digits(c.component_id as nat))),
                (key_node_index(), TreeView::Text(dec_digits(c.node_index as nat))),
            ]
        },
        None => Seq::empty(),
    }
}

/// The legacy `v` attribute of a slot.
pub open spec fn v_attr_entries(a: Option<Seq<char>>) -> Seq<(Seq<char>, TreeView)> {
    match a {
        Some(x) => seq![(key_v_attr(), TreeView::Text(x))],
        None => Seq::empty(),
    }
}

/// The legacy `v` element of a slot, when it is written.
pub open spec fn legacy_entries(
    v: Option<Seq<(Seq<char>, TreeView)>>,
    t: Type,
    always_visible: bool,
) -> Seq<(Seq<char>, TreeView)> {
    match v {
        Some(x) => if legacy_shown(x, t, always_visible) {
            seq![(key_v(), TreeView::Node(x))]
        } else {
            Seq::empty()
        },
        None => Seq::empty(),
    }
}

/// The attributes and children of a written slot, in document order.
pub open spec fn slot_entries(s: SlotView, t: Type, always_visible: bool) -> Seq<
    (Seq<char>, TreeView),
> {
    connection_entries(s.connection) + v_attr_entries(s.v_attr) + legacy_entries(
        s.v,
        t,
        always_visible,
    )
}

/// Whether the legacy `v` element of a slot of signal type `t` is left out:
/// when there is none, or when it is empty on an on/off or number slot that
/// is not marked always visible.
pub fn skip_connection(v: &Option<AttrMap>, t: Type, always_visible: bool) -> (r: bool)
    ensures
        r == match opt_map_view(*v) {
            None => true,
            Some(x) => !legacy_shown(x, t, always_visible),
        },
{
    match v {
        None => true,
        Some(x) => x.len() == 0 && (t == Type::OnOff || t == Type::Number) && !always_visible,
    }
}

/// Whether an input slot is left out of the document: it holds nothing and
/// is not marked as written.
pub fn skip_typedinputconnection(s: &TypedInputConnection) -> (r: bool)
    ensures
        r == !slot_written(s@),
{
    !s.force_visible && s.connection.is_none() && s.v_attr.is_none() && s.v.is_none()
}

/// Whether an output slot is left out of the document.
pub fn skip_typedoutputconnection(s: &TypedOutputConnection) -> (r: bool)
    ensures
        r == !slot_written(s@),
{
    !s.force_visible && s.v_attr.is_none() && s.v.is_none()
}

fn key_string(k: &str) -> (r: String)
    ensures
        r@ == k@,
{
    String::from_str(k)
}

/// The attribute-tree form of an input slot of signal type `t`, or `None`
/// when the slot is left out of the document.
pub fn input_to_tree(s: &TypedInputConnection, t: Type, always_visible: bool) -> (r: Option<AttrMap>)
    ensures
        r is None <==> !slot_written(s@),
        r is Some ==> r->0@ == slot_entries(s@, t, always_visible),
{
    if skip_typedinputconnection(s) {
        return None;
    }
    slot_to_tree(&s.connection, s.force_visible, &s.v_attr, &s.v, t, always_visible)
}

/// The attribute-tree form of an output slot of signal type `t`, or `None`
/// when the slot is left out of the document.
pub fn output_to_tree(s: &TypedOutputConnection, t: Type, always_visible: bool) -> (r: Option<AttrMap>)
    ensures
        r is None <==> !slot_written(s@),
        r is Some ==> r->0@ == slot_entries(s@, t, always_visible),
{
    if skip_typedoutputconnection(s) {
        return None;
    }
    slot_to_tree(&None, s.force_visible, &s.v_attr, &s.v, t, always_visible)
}

fn slot_to_tree(
    connection: &Option<ComponentConnection>,
    force_visible: bool,
    v_attr: &Option<String>,
    v: &Option<AttrMap>,
    t: Type,
    always_visible: bool,
) -> (r: Option<AttrMap>)
    ensures
        ({
            let s = SlotView {
                connection: *connection,
                force_visible,
                v_attr: opt_string_view(*v_attr),
                v: opt_map_view(*v),
            };
            &&& r is None <==> !slot_written(s)
            &&& r is Some ==> r->0@ == slot_entries(s, t, always_visible)
        }),
{
    let ghost s = SlotView {
        connection: *connection,
        force_visible,
        v_attr: opt_string_view(*v_attr),
        v: opt_map_view(*v),
    };
    if !force_visible && connection.is_none() && v_attr.is_none() && v.is_none() {
        return None;
    }
    proof {
        reveal_strlit("@component_id");
        reveal_strlit("@node_index");
        reveal_strlit("@v");
        reveal_strlit("v");
        reveal_strlit("");
    }
    let mut m = AttrMap::new();
    match connection {
        Some(c) => {
            let k = key_string("@component_id");
            assert(k@ == key_component_id());
            let d = with_decimal("", c.component_id);
            assert(d@ == dec_digits(c.component_id as nat));
            let val = Value::Leaf(d);
            assert(val@ == TreeView::Text(d@));
            m.push(k, val);
            assert(m@ =~= seq![(key_component_id(), TreeView::Text(dec_digits(c.component_id as nat)))]);
            if c.node_index != 0 {
                let k2 = key_string("@node_index");
                let d2 = with_decimal("", c.node_index as u32);
                let val2 = Value::Leaf(d2);
                assert(val2@ == TreeView::Text(dec_digits(c.node_index as nat)));
                assert(k2@ == key_node_index());
                m.push(k2, val2);
            }
            assert(m@ =~= connection_entries(Some(*c)));
        },
        None => {
            assert(m@ =~= connection_entries(None));
        },
    }
    assert(m@ =~= connection_entries(s.connection));
    match v_attr {
        Some(x) => {
            let k = key_string("@v");
            assert(k@ == key_v_attr());
            let val = Value::Leaf(x.clone());
            assert(val@ == TreeView::Text(x@));
            m.push(k, val);
        },
        None => {},
    }
    assert(m@ =~= connection_entries(s.connection) + v_attr_entries(s.v_attr));
    match v {
        Some(x) => {
            if !skip_connection(v, t, always_visible) {
                let k = key_string("v");
                assert(k@ == key_v());
                let val = Value::Element(clone_map(x));
                assert(val@ == TreeView::Node(x@));
                m.push(k, val);
            }
        },
        None => {},
    }
    assert(m@ =~= slot_entries(s, t, always_visible));
    Some(m)
}

/// Whether entry `i` of `m` exists and has key `k`.
pub fn key_at(m: &AttrMap, i: usize, k: &str) -> (r: bool)
    ensures
        r == (i < m@.len() && m@[i as int].0 == k@),
{
    proof {
        lemma_entries_view(m.entries@);
    }
    if i < m.entries.len() {
        str_eq(m.entries[i].0.as_str(), k)
    } else {
        false
    }
}

/// The number written in a text leaf in canonical decimal, if it is one.
pub fn leaf_number(v: &Value) -> (r: Option<u32>)
    ensures
        r is Some ==> v@ == TreeView::Text(dec_digits(r->0 as nat)),
        forall|n: u32| v@ == TreeView::Text(dec_digits(n as nat)) ==> r == Some(n),
{
    match v {
        Value::Leaf(s) => {
            let r = parse_decimal(s.as_str());
            proof {
                assert(v@ == TreeView::Text(s@));
                assert forall|n: u32| v@ == TreeView::Text(dec_digits(n as nat)) implies r == Some(
                    n,
                ) by {
                    if r is Some {
                        lemma_dec_digits_injective(n as nat, r->0 as nat);
                    }
                }
            }
            r
        },
        Value::Element(m) => {
            assert(v@ == TreeView::Node(m@));
            None
        },
    }
}

proof fn lemma_slot_keys()
    ensures
        "@component_id"@ == key_component_id(),
        "@node_index"@ == key_node_index(),
        "@v"@ == key_v_attr(),
        "v"@ == key_v(),
        key_component_id() != key_node_index(),
        key_component_id() != key_v_attr(),
        key_component_id() != key_v(),
        key_node_index() != key_v_attr(),
        key_node_index() != key_v(),
        key_v_attr() != key_v(),
{
    reveal_strlit("@component_id");
    reveal_strlit("@node_index");
    reveal_strlit("@v");
    reveal_strlit("v");
    assert("@component_id"@ =~= key_component_id());
    assert("@node_index"@ =~= key_node_index());
    assert("@v"@ =~= key_v_attr());
    assert("v"@ =~= key_v());
    assert(key_component_id()[1] != key_node_index()[1]);
    assert(key_component_id().len() != key_v_attr().len());
    assert(key_component_id().len() != key_v().len());
    assert(key_node_index().len() != key_v_attr().len());
    assert(key_node_index().len() != key_v().len());
    assert(key_v_attr().len() != key_v().len());
}

/// Reads the connection attributes at the start of a slot's entries; a
/// malformed number is read as zero (callers check the result against the
/// input).
fn read_connection(m: &AttrMap) -> (r: (Option<ComponentConnection>, usize))
    ensures
        r.1 <= m@.len(),
        forall|s: SlotView, t: Type, av: bool|
            slot_entries(s, t, av) == m@ ==> r.0 == s.connection && r.1 == connection_entries(
                s.connection,
            ).len(),
{
    proof {
        lemma_slot_keys();
        lemma_entries_view(m.entries@);
    }
    if !key_at(m, 0, "@component_id") {
        proof {
            assert forall|s: SlotView, t: Type, av: bool|
                slot_entries(s, t, av) == m@ implies None::<ComponentConnection> == s.connection
                && 0 == connection_entries(s.connection).len() by {
                let ce = connection_entries(s.connection);
                let ae = v_attr_entries(s.v_attr);
                let le = legacy_entries(s.v, t, av);
                assert(m@ == ce + ae + le);
                if s.connection is Some {
                    assert(m@[0] == ce[0]);
                }
            }
        }
        return (None, 0);
    }
    let id = match leaf_number(&m.entries[0].1) {
        Some(x) => x,
        None => 0,
    };
    let mut i: usize = 1;
    let mut index: u8 = 0;
    if key_at(m, 1, "@node_index") {
        index = match leaf_number(&m.entries[1].1) {
            Some(x) => if x <= 255 {
                x as u8
            } else {
                0
            },
            None => 0,
        };
        i = 2;
    }
    let connection = Some(ComponentConnection { component_id: id, node_index: index });
    proof {
        assert forall|s: SlotView, t: Type, av: bool|
            slot_entries(s, t, av) == m@ implies connection == s.connection && i
            == connection_entries(s.connection).len() by {
            let ce = connection_entries(s.connection);
            let ae = v_attr_entries(s.v_attr);
            let le = legacy_entries(s.v, t, av);
            assert(m@ == ce + ae + le);
            match s.connection {
                Some(c) => {
                    assert(m@[0] == ce[0]);
                    if c.node_index != 0 {
                        assert(m@[1] == ce[1]);
                    } else if ae.len() > 0 {
                        assert(m@[1] == ae[0]);
                    } else if le.len() > 0 {
                        assert(m@[1] == le[0]);
                    }
                },
                None => {
                    if ae.len() > 0 {
                        assert(m@[0] == ae[0]);
                    } else if le.len() > 0 {
                        assert(m@[0] == le[0]);
                    }
                },
            }
        }
    }
    (connection, i)
}

/// Reads the legacy `v` attribute at position `i`, if it stands there.
fn read_v_attr(m: &AttrMap, i: usize) -> (r: (Option<String>, usize))
    requires
        i <= m@.len(),
    ensures
        r.1 <= m@.len(),
        forall|s: SlotView, t: Type, av: bool|
            slot_entries(s, t, av) == m@ && i == connection_entries(s.connection).len()
                ==> opt_string_view(r.0) == s.v_attr && r.1 == i + v_attr_entries(s.v_attr).len(),
{
    proof {
        lemma_slot_keys();
        lemma_entries_view(m.entries@);
    }
    let n = m.len();
    let mut v_attr: Option<String> = None;
    let mut j = i;
    if key_at(m, i, "@v") {
        match &m.entries[i].1 {
            Value::Leaf(x) => {
                v_attr = Some(x.clone());
            },
            Value::Element(_) => {},
        }
        j = i + 1;
    }
    proof {
        assert forall|s: SlotView, t: Type, av: bool|
            slot_entries(s, t, av) == m@ && i == connection_entries(s.connection).len() implies opt_string_view(
            v_attr,
        ) == s.v_attr && j == i + v_attr_entries(s.v_attr).len() by {
            let ce = connection_entries(s.connection);
            let ae = v_attr_entries(s.v_attr);
            let le = legacy_entries(s.v, t, av);
            assert(m@ == ce + ae + le);
            if ae.len() > 0 {
                assert(m@[i as int] == ae[0]);
            } else if le.len() > 0 {
                assert(m@[i as int] == le[0]);
            }
        }
    }
    (v_attr, j)
}

/// Reads the legacy `v` element at position `i`, if it stands there.
fn read_legacy(m: &AttrMap, i: usize) -> (r: Option<AttrMap>)
    requires
        i <= m@.len(),
    ensures
        forall|s: SlotView, t: Type, av: bool|
            slot_entries(s, t, av) == m@ && slot_wf(s, t, av) && i == connection_entries(
                s.connection,
            ).len() + v_attr_entries(s.v_attr).len() ==> opt_map_view(r) == s.v,
{
    proof {
        lemma_slot_keys();
        lemma_entries_view(m.entries@);
    }
    let mut legacy: Option<AttrMap> = None;
    if key_at(m, i, "v") {
        match &m.entries[i].1 {
            Value::Leaf(_) => {},
            Value::Element(x) => {
                legacy = Some(clone_map(x));
            },
        }
    }
    proof {
        assert forall|s: SlotView, t: Type, av: bool|
            slot_entries(s, t, av) == m@ && slot_wf(s, t, av) && i == connection_entries(
                s.connection,
            ).len() + v_attr_entries(s.v_attr).len() implies opt_map_view(legacy) == s.v by {
            let ce = connection_entries(s.connection);
            let ae = v_attr_entries(s.v_attr);
            let le = legacy_entries(s.v, t, av);
            assert(m@ == ce + ae + le);
            if le.len() > 0 {
                assert(m@[i as int] == le[0]);
            } else {
                if s.v is Some {
                    assert(!legacy_shown(s.v->0, t, av));
                }
            }
        }
    }
    legacy
}

/// An input slot of signal type `t` read from its document entries; `None`
/// when no well-formed slot is written as exactly these entries.
pub fn input_from_tree(m: &AttrMap, t: Type, always_visible: bool) -> (r: Option<
    TypedInputConnection,
>)
    ensures
        r is Some ==> slot_wf(r->0@, t, always_visible) && r->0@.force_visible && slot_entries(
            r->0@,
            t,
            always_visible,
        ) == m@,
        r is None ==> forall|s: SlotView|
            slot_wf(s, t, always_visible) && slot_written(s) ==> slot_entries(s, t, always_visible)
                != m@,
        forall|s: SlotView|
            slot_wf(s, t, always_visible) && slot_written(s) && slot_entries(s, t, always_visible)
                == m@ ==> r is Some && r->0@ == slot_norm(s),
{
    let (connection, i) = read_connection(m);
    let (v_attr, j) = read_v_attr(m, i);
    let v = read_legacy(m, j);
    let slot = TypedInputConnection { connection, force_visible: true, v_attr, v };
    if slot.v.is_some() && skip_connection(&slot.v, t, always_visible) {
        return None;
    }
    match input_to_tree(&slot, t, always_visible) {
        Some(rendered) => {
            if map_eq(&rendered, m) {
                Some(slot)
            } else {
                None
            }
        },
        None => None,
    }
}

/// An output slot of signal type `t` read from its document entries; `None`
/// when no well-formed slot is written as exactly these entries.
pub fn output_from_tree(m: &AttrMap, t: Type, always_visible: bool) -> (r: Option<
    TypedOutputConnection,
>)
    ensures
        r is Some ==> slot_wf(r->0@, t, always_visible) && r->0@.force_visible && slot_entries(
            r->0@,
            t,
            always_visible,
        ) == m@,
        r is None ==> forall|s: SlotView|
            slot_wf(s, t, always_visible) && slot_written(s) && s.connection is None
                ==> slot_entries(s, t, always_visible) != m@,
        forall|s: SlotView|
            slot_wf(s, t, always_visible) && slot_written(s) && s.connection is None
                && slot_entries(s, t, always_visible) == m@ ==> r is Some && r->0@ == slot_norm(s),
{
    let (connection, i) = read_connection(m);
    if connection.is_some() {
        return None;
    }
    let (v_attr, j) = read_v_attr(m, i);
    let v = read_legacy(m, j);
    let slot = TypedOutputConnection { force_visible: true, v_attr, v };
    if slot.v.is_some() && skip_connection(&slot.v, t, always_visible) {
        return None;
    }
    match output_to_tree(&slot, t, always_visible) {
        Some(rendered) => {
            if map_eq(&rendered, m) {
                Some(slot)
            } else {
                None
            }
        },
        None => None,
    }
}

// ---------------------------------------------------------------------------
// Nodes.
// ---------------------------------------------------------------------------

/// A position on the logic grid, kept as the decimal text of each
/// coordinate; an absent coordinate is zero.
#[derive(Debug, PartialEq)]
pub struct PositionXY {
    /// X coordinate text.
    pub x: Option<String>,
    /// Y coordinate text.
    pub y: Option<String>,
}

impl PositionXY {
    /// The origin: both coordinates absent.
    pub fn origin() -> (r: PositionXY)
        ensures
            r.x is None && r.y is None,
    {
        PositionXY { x: None, y: None }
    }
}

/// A node of a given kind: its ordered input and output slots, and the
/// kind-specific attributes and child elements, kept in document order.
#[derive(Debug, PartialEq)]
pub struct ComponentType {
    /// The kind's type code in its catalog.
    pub kind: u8,
    /// Input slots, in catalog order.
    pub inputs: Vec<TypedInputConnection>,
    /// Output slots, in catalog order.
    pub outputs: Vec<TypedOutputConnection>,
    /// Kind-specific attributes (keys start with `@`), in document order.
    pub attrs: AttrMap,
    /// Kind-specific child elements, in document order.
    pub elems: AttrMap,
}

/// A logic node with its id.
#[derive(Debug, PartialEq)]
pub struct Component {
    /// The id, managed by the microcontroller.
    pub id: u32,
    /// The position of the node.
    pub pos: PositionXY,
    /// The node itself.
    pub component: ComponentType,
}

/// An IO bridge node (the logic side of an IO pin) with its id.
#[derive(Debug, PartialEq)]
pub struct BridgeComponent {
    /// The id, managed by the microcontroller.
    pub id: u32,
    /// The position of the node.
    pub pos: PositionXY,
    /// The node itself; its kind is a bridge kind.
    pub component: ComponentType,
}

impl Component {
    /// Gets the id of this node.
    pub fn id(&self) -> (r: u32)
        ensures
            r == self.id,
    {
        self.id
    }
}

impl BridgeComponent {
    /// Gets the id of this node.
    pub fn id(&self) -> (r: u32)
        ensures
            r == self.id,
    {
        self.id
    }
}

} // verus!
