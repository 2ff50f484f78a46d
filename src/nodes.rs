//! Nodes in their attribute-tree form: the catalog rendering of a node's
//! `object` element, the per-kind corrections, and the `c` element around it.

use vstd::prelude::*;

use crate::catalog::{
    bridge_is_input, bridge_signal_type, bridge_type, io_def, logic_inputs, logic_outputs,
    BRIDGE_KINDS, LOGIC_KINDS,
};
use crate::components::{
    input_from_tree, input_to_tree, key_at, leaf_number, output_from_tree, output_to_tree, slot_norm, slot_wf, slot_entries, slot_written, ComponentType, PositionXY,
    SlotView, TypedInputConnection, TypedOutputConnection,
};
use crate::components::{BridgeComponent, Component};
use crate::quirks::{
    channel_input_catalog, channel_input_document, channel_input_from_document,
    channel_input_to_document, dual_output_catalog, indexed_catalog,
    dual_output_document, dual_output_from_document, dual_output_to_document,
    indexed_from_document, in_tag, indexed_document, indexed_to_document, input_tag, out_tag,
    output_tag,
};
use crate::text::{dec_digits, parse_decimal, str_eq, with_decimal};
use crate::tree::{
    clone_map, clone_value, first_index, lemma_entries_view, lemma_first_index, map_eq, AttrMap, TreeView, Value,
};
use crate::types::Type;

verus! {

broadcast use lemma_entries_view;

/// The model of a node: kind, slots, and kind-specific entries.
pub struct NodeView {
    pub kind: u8,
    pub inputs: Seq<SlotView>,
    pub outputs: Seq<SlotView>,
    pub attrs: Seq<(Seq<char>, TreeView)>,
    pub elems: Seq<(Seq<char>, TreeView)>,
}

impl View for ComponentType {
    type V = NodeView;

    open spec fn view(&self) -> NodeView {
        NodeView {
            kind: self.kind,
            inputs: self.inputs@.map_values(|s: TypedInputConnection| s@),
            outputs: self.outputs@.map_values(|s: TypedOutputConnection| s@),
            attrs: self.attrs@,
            elems: self.elems@,
        }
    }
}

/// The signal type of input `i` of a node of `kind`, in the logic catalog
/// or, when `bridge`, in the bridge catalog.
pub open spec fn input_type(bridge: bool, kind: u8, i: int) -> Type {
    if bridge {
        bridge_type(kind)
    } else {
        logic_inputs(kind)[i]
    }
}

/// The signal type of output `i`.
pub open spec fn output_type(bridge: bool, kind: u8, i: int) -> Type {
    if bridge {
        bridge_type(kind)
    } else {
        logic_outputs(kind)[i]
    }
}

/// Whether input slots are always visible: the unused input of an
/// incoming bridge.
pub open spec fn input_always_visible(bridge: bool, kind: u8) -> bool {
    bridge && bridge_is_input(kind)
}

/// Whether output slots are always visible: the unused output of an
/// outgoing bridge.
pub open spec fn output_always_visible(bridge: bool, kind: u8) -> bool {
    bridge && !bridge_is_input(kind)
}

/// Number of inputs of a kind.
pub open spec fn input_count(bridge: bool, kind: u8) -> int {
    if bridge {
        1
    } else {
        logic_inputs(kind).len() as int
    }
}

/// Number of outputs of a kind.
pub open spec fn output_count(bridge: bool, kind: u8) -> int {
    if bridge {
        1
    } else {
        logic_outputs(kind).len() as int
    }
}

/// The entries of the first `n` input slots that are written.
pub open spec fn inputs_entries(bridge: bool, kind: u8, s: Seq<SlotView>, n: int) -> Seq<
    (Seq<char>, TreeView),
>
    decreases n,
{
    if n <= 0 {
        Seq::empty()
    } else {
        let prev = inputs_entries(bridge, kind, s, n - 1);
        if slot_written(s[n - 1]) {
            prev.push(
                (
                    in_tag(n as nat),
                    TreeView::Node(
                        slot_entries(
                            s[n - 1],
                            input_type(bridge, kind, n - 1),
                            input_always_visible(bridge, kind),
                        ),
                    ),
                ),
            )
        } else {
            prev
        }
    }
}

/// The entries of the first `n` output slots that are written.
pub open spec fn outputs_entries(bridge: bool, kind: u8, s: Seq<SlotView>, n: int) -> Seq<
    (Seq<char>, TreeView),
>
    decreases n,
{
    if n <= 0 {
        Seq::empty()
    } else {
        let prev = outputs_entries(bridge, kind, s, n - 1);
        if slot_written(s[n - 1]) {
            prev.push(
                (
                    out_tag(n as nat),
                    TreeView::Node(
                        slot_entries(
                            s[n - 1],
                            output_type(bridge, kind, n - 1),
                            output_always_visible(bridge, kind),
                        ),
                    ),
                ),
            )
        } else {
            prev
        }
    }
}

/// The node has the slots its catalog entry lists.
pub open spec fn node_shape_ok(bridge: bool, n: NodeView) -> bool {
    &&& if bridge {
        n.kind < BRIDGE_KINDS
    } else {
        n.kind < LOGIC_KINDS
    }
    &&& n.inputs.len() == input_count(bridge, n.kind)
    &&& n.outputs.len() == output_count(bridge, n.kind)
}

/// The slot entries of a node in catalog order: inputs, then outputs.
pub open spec fn slots_entries(bridge: bool, n: NodeView) -> Seq<(Seq<char>, TreeView)> {
    inputs_entries(bridge, n.kind, n.inputs, n.inputs.len() as int) + outputs_entries(
        bridge,
        n.kind,
        n.outputs,
        n.outputs.len() as int,
    )
}

fn slot_type(bridge: bool, kind: u8, types: &Vec<Type>, i: usize) -> (r: Type)
    requires
        bridge ==> kind < BRIDGE_KINDS,
        !bridge ==> i < types@.len(),
    ensures
        bridge ==> r == bridge_type(kind),
        !bridge ==> r == types@[i as int],
{
    if bridge {
        bridge_signal_type(kind)
    } else {
        types[i]
    }
}

/// Appends the written input slots of `c` to `m`.
fn push_inputs(m: &mut AttrMap, bridge: bool, c: &ComponentType)
    requires
        node_shape_ok(bridge, c@),
    ensures
        final(m)@ == old(m)@ + inputs_entries(bridge, c.kind, c@.inputs, c@.inputs.len() as int),
{
    let types = if bridge {
        Vec::new()
    } else {
        io_def(c.kind).inputs
    };
    let av = bridge && c.kind % 2 == 0;
    let n = c.inputs.len();
    let ghost start = m@;
    let mut i: usize = 0;
    while i < n
        invariant
            node_shape_ok(bridge, c@),
            n == c.inputs@.len(),
            !bridge ==> types@ == logic_inputs(c.kind),
            av == input_always_visible(bridge, c.kind),
            i <= n,
            m@ == start + inputs_entries(bridge, c.kind, c@.inputs, i as int),
        decreases n - i,
    {
        let t = slot_type(bridge, c.kind, &types, i);
        assert(c@.inputs[i as int] == c.inputs@[i as int]@);
        match input_to_tree(&c.inputs[i], t, av) {
            Some(e) => {
                let tag = input_tag((i + 1) as u32);
                m.push(tag, Value::Element(e));
            },
            None => {},
        }
        i += 1;
        assert(m@ =~= start + inputs_entries(bridge, c.kind, c@.inputs, i as int));
    }
}

/// Appends the written output slots of `c` to `m`.
fn push_outputs(m: &mut AttrMap, bridge: bool, c: &ComponentType)
    requires
        node_shape_ok(bridge, c@),
    ensures
        final(m)@ == old(m)@ + outputs_entries(bridge, c.kind, c@.outputs, c@.outputs.len() as int),
{
    let types = if bridge {
        Vec::new()
    } else {
        io_def(c.kind).outputs
    };
    let av = bridge && c.kind % 2 == 1;
    let n = c.outputs.len();
    let ghost start = m@;
    let mut i: usize = 0;
    while i < n
        invariant
            node_shape_ok(bridge, c@),
            n == c.outputs@.len(),
            !bridge ==> types@ == logic_outputs(c.kind),
            av == output_always_visible(bridge, c.kind),
            i <= n,
            m@ == start + outputs_entries(bridge, c.kind, c@.outputs, i as int),
        decreases n - i,
    {
        let t = slot_type(bridge, c.kind, &types, i);
        assert(c@.outputs[i as int] == c.outputs@[i as int]@);
        match output_to_tree(&c.outputs[i], t, av) {
            Some(e) => {
                let tag = output_tag((i + 1) as u32);
                m.push(tag, Value::Element(e));
            },
            None => {},
        }
        i += 1;
        assert(m@ =~= start + outputs_entries(bridge, c.kind, c@.outputs, i as int));
    }
}

// ---------------------------------------------------------------------------
// The object element.
// ---------------------------------------------------------------------------

/// The id attribute of a node.
pub open spec fn key_id() -> Seq<char> {
    seq!['@', 'i', 'd']
}

/// The position element of a node.
pub open spec fn key_pos() -> Seq<char> {
    seq!['p', 'o', 's']
}

/// The first coordinate of a position.
pub open spec fn key_x() -> Seq<char> {
    seq!['@', 'x']
}

/// The second coordinate of a position.
pub open spec fn key_y() -> Seq<char> {
    seq!['@', 'y']
}

/// The model of a position: the text of each coordinate that is present.
pub open spec fn pos_view(p: PositionXY) -> (Option<Seq<char>>, Option<Seq<char>>) {
    (
        match p.x {
            Some(t) => Some(t@),
            None => None,
        },
        match p.y {
            Some(t) => Some(t@),
            None => None,
        },
    )
}

/// The `pos` element of a node, left out at the origin.
pub open spec fn pos_entries(p: (Option<Seq<char>>, Option<Seq<char>>)) -> Seq<(Seq<char>, TreeView)> {
    if p.0 is None && p.1 is None {
        Seq::empty()
    } else {
        let xs: Seq<(Seq<char>, TreeView)> = match p.0 {
            Some(t) => seq![(key_x(), TreeView::Text(t))],
            None => Seq::empty(),
        };
        let ys: Seq<(Seq<char>, TreeView)> = match p.1 {
            Some(t) => seq![(key_y(), TreeView::Text(t))],
            None => Seq::empty(),
        };
        seq![(key_pos(), TreeView::Node(xs + ys))]
    }
}

/// The catalog rendering of a node's `object` element: its id and its
/// attributes, then its position, its written slots in catalog order, and
/// its child elements (attributes come first, as in the text).
pub open spec fn object_catalog(
    bridge: bool,
    id: u32,
    pos: (Option<Seq<char>>, Option<Seq<char>>),
    n: NodeView,
) -> Seq<(Seq<char>, TreeView)> {
    seq![(key_id(), TreeView::Text(dec_digits(id as nat)))] + n.attrs + pos_entries(pos)
        + slots_entries(bridge, n) + n.elems
}

/// The text of the first entry with key `k`, when it is a text leaf.
pub open spec fn attr_text(s: Seq<(Seq<char>, TreeView)>, k: Seq<char>) -> Option<Seq<char>> {
    let i = first_index(s, k);
    if i == -1 {
        None
    } else {
        match s[i].1 {
            TreeView::Text(t) => Some(t),
            TreeView::Node(_) => None,
        }
    }
}

/// The text of the "variable" setting.
pub open spec fn minus_one() -> Seq<char> {
    seq!['-', '1']
}

/// The active channel-input count of an indexed node: its `@count`
/// attribute, or zero when that is not a number up to 255.
pub open spec fn indexed_count(attrs: Seq<(Seq<char>, TreeView)>) -> nat {
    match attr_text(attrs, seq!['@', 'c', 'o', 'u', 'n', 't']) {
        Some(t) => if exists|n: nat| n <= 255 && t == #[trigger] dec_digits(n) {
            choose|n: nat| n <= 255 && t == #[trigger] dec_digits(n)
        } else {
            0
        },
        None => 0,
    }
}

/// Whether an indexed node's offset is "variable" (`@offset` is `-1`).
pub open spec fn offset_variable(attrs: Seq<(Seq<char>, TreeView)>) -> bool {
    attr_text(attrs, seq!['@', 'o', 'f', 'f', 's', 'e', 't']) == Some(minus_one())
}

/// Whether a composite-read node's channel is "variable" (`@i` is `-1`).
pub open spec fn channel_variable(attrs: Seq<(Seq<char>, TreeView)>) -> bool {
    attr_text(attrs, seq!['@', 'i']) == Some(minus_one())
}

/// The kind of the dual-output node (numerical junction).
pub const DUAL_OUTPUT_KIND: u8 = 21;

/// The kinds of the variable-width indexed nodes (composite write).
pub const INDEXED_NUMBER_KIND: u8 = 40;

pub const INDEXED_ON_OFF_KIND: u8 = 41;

/// The kinds of the conditional-position nodes (composite read).
pub const CHANNEL_ON_OFF_KIND: u8 = 29;

pub const CHANNEL_NUMBER_KIND: u8 = 31;

/// The document shape of an object element rendered as `o` for a node of
/// `kind` with kind-specific attributes `attrs`.
pub open spec fn object_document(
    bridge: bool,
    kind: u8,
    attrs: Seq<(Seq<char>, TreeView)>,
    o: Seq<(Seq<char>, TreeView)>,
) -> Seq<(Seq<char>, TreeView)> {
    if bridge {
        o
    } else if kind == DUAL_OUTPUT_KIND {
        dual_output_document(o)
    } else if kind == INDEXED_NUMBER_KIND || kind == INDEXED_ON_OFF_KIND {
        indexed_document(o, indexed_count(attrs), offset_variable(attrs))
    } else if kind == CHANNEL_ON_OFF_KIND || kind == CHANNEL_NUMBER_KIND {
        channel_input_document(o, channel_variable(attrs))
    } else {
        o
    }
}

fn leaf_text_is(v: Option<&Value>, text: &str) -> (r: bool)
    ensures
        r == (v matches Some(x) && x@ == TreeView::Text(text@)),
{
    match v {
        Some(Value::Leaf(t)) => str_eq(t.as_str(), text),
        Some(Value::Element(m)) => {
            assert(v->0@ == TreeView::Node(m@));
            false
        },
        None => false,
    }
}

fn attr_count(attrs: &AttrMap) -> (r: u8)
    ensures
        r == indexed_count(attrs@),
{
    proof {
        reveal_strlit("@count");
        assert("@count"@ =~= seq!['@', 'c', 'o', 'u', 'n', 't']);
        lemma_first_index(attrs@, seq!['@', 'c', 'o', 'u', 'n', 't']);
    }
    match attrs.get("@count") {
        Some(Value::Leaf(t)) => match parse_decimal(t.as_str()) {
            Some(n) => {
                if n <= 255 {
                    proof {
                        let m = choose|m: nat| m <= 255 && t@ == #[trigger] dec_digits(m);
                        crate::text::lemma_dec_digits_injective(m, n as nat);
                    }
                    n as u8
                } else {
                    proof {
                        if exists|m: nat| m <= 255 && t@ == #[trigger] dec_digits(m) {
                            let m = choose|m: nat| m <= 255 && t@ == #[trigger] dec_digits(m);
                            crate::text::lemma_dec_digits_injective(m, n as nat);
                        }
                    }
                    0
                }
            },
            None => {
                proof {
                    if exists|m: nat| m <= 255 && t@ == #[trigger] dec_digits(m) {
                        let m = choose|m: nat| m <= 255 && t@ == #[trigger] dec_digits(m);
                        assert(m <= u32::MAX);
                        assert(t@ == dec_digits((m as u32) as nat));
                    }
                }
                0
            },
        },
        _ => 0,
    }
}

fn attr_is_minus_one(attrs: &AttrMap, key: &str) -> (r: bool)
    ensures
        r == (attr_text(attrs@, key@) == Some(minus_one())),
{
    proof {
        reveal_strlit("-1");
        assert("-1"@ =~= minus_one());
        lemma_first_index(attrs@, key@);
    }
    let v = attrs.get(key);
    leaf_text_is(v, "-1")
}

/// Applies the correction of the node's kind to its catalog-shaped object
/// entries.
pub fn object_to_document(bridge: bool, kind: u8, attrs: &AttrMap, o: &mut AttrMap)
    ensures
        final(o)@ == object_document(bridge, kind, attrs@, old(o)@),
{
    if bridge {
        return ;
    }
    if kind == DUAL_OUTPUT_KIND {
        dual_output_to_document(o);
    } else if kind == INDEXED_NUMBER_KIND || kind == INDEXED_ON_OFF_KIND {
        let count = attr_count(attrs);
        proof {
            reveal_strlit("@offset");
            assert("@offset"@ =~= seq!['@', 'o', 'f', 'f', 's', 'e', 't']);
        }
        let variable = attr_is_minus_one(attrs, "@offset");
        indexed_to_document(o, count, variable);
    } else if kind == CHANNEL_ON_OFF_KIND || kind == CHANNEL_NUMBER_KIND {
        proof {
            reveal_strlit("@i");
            assert("@i"@ =~= seq!['@', 'i']);
        }
        let variable = attr_is_minus_one(attrs, "@i");
        channel_input_to_document(o, variable);
    }
}

fn key(k: &str) -> (r: String)
    ensures
        r@ == k@,
{
    String::from_str(k)
}

/// Appends the `pos` element of a node at `p`, unless `p` is the origin.
fn push_pos(m: &mut AttrMap, p: &PositionXY)
    ensures
        final(m)@ == old(m)@ + pos_entries(pos_view(*p)),
{
    if p.x.is_none() && p.y.is_none() {
        assert(old(m)@ + pos_entries(pos_view(*p)) =~= old(m)@);
        return ;
    }
    proof {
        reveal_strlit("pos");
        reveal_strlit("@x");
        reveal_strlit("@y");
        assert("pos"@ =~= key_pos());
        assert("@x"@ =~= key_x());
        assert("@y"@ =~= key_y());
    }
    let mut inner = AttrMap::new();
    match &p.x {
        Some(x) => {
            let v = Value::Leaf(x.clone());
            assert(v@ == TreeView::Text(x@));
            inner.push(key("@x"), v);
        },
        None => {},
    }
    match &p.y {
        Some(y) => {
            let v = Value::Leaf(y.clone());
            assert(v@ == TreeView::Text(y@));
            inner.push(key("@y"), v);
        },
        None => {},
    }
    let ghost xs: Seq<(Seq<char>, TreeView)> = match pos_view(*p).0 {
        Some(t) => seq![(key_x(), TreeView::Text(t))],
        None => Seq::empty(),
    };
    let ghost ys: Seq<(Seq<char>, TreeView)> = match pos_view(*p).1 {
        Some(t) => seq![(key_y(), TreeView::Text(t))],
        None => Seq::empty(),
    };
    assert(inner@ =~= xs + ys);
    let v = Value::Element(inner);
    assert(v@ == TreeView::Node(xs + ys));
    m.push(key("pos"), v);
    assert(m@ =~= old(m)@ + pos_entries(pos_view(*p)));
}

/// The catalog rendering of the `object` element of a node with id `id`
/// at `pos`.
pub fn object_catalog_map(bridge: bool, id: u32, pos: &PositionXY, c: &ComponentType) -> (r: AttrMap)
    requires
        node_shape_ok(bridge, c@),
    ensures
        r@ == object_catalog(bridge, id, pos_view(*pos), c@),
{
    proof {
        reveal_strlit("@id");
        reveal_strlit("");
        assert("@id"@ =~= key_id());
    }
    let mut m = AttrMap::new();
    let idv = Value::Leaf(with_decimal("", id));
    assert(idv@ == TreeView::Text(dec_digits(id as nat)));
    m.push(key("@id"), idv);
    m.append_copy(&c.attrs);
    push_pos(&mut m, pos);
    push_inputs(&mut m, bridge, c);
    push_outputs(&mut m, bridge, c);
    m.append_copy(&c.elems);
    assert(m@ =~= object_catalog(bridge, id, pos_view(*pos), c@));
    m
}

/// The type-code attribute of a `c` element.
pub open spec fn key_type() -> Seq<char> {
    seq!['@', 't', 'y', 'p', 'e']
}

/// The `object` element of a `c` element.
pub open spec fn key_object() -> Seq<char> {
    seq!['o', 'b', 'j', 'e', 'c', 't']
}

/// The entries of a node's `c` element: its type code (left out when it is
/// zero) and its `object` element in document shape.
#[verifier::opaque]
pub open spec fn node_entries(
    bridge: bool,
    id: u32,
    pos: (Option<Seq<char>>, Option<Seq<char>>),
    n: NodeView,
) -> Seq<(Seq<char>, TreeView)> {
    let t: Seq<(Seq<char>, TreeView)> = if n.kind == 0 {
        Seq::empty()
    } else {
        seq![(key_type(), TreeView::Text(dec_digits(n.kind as nat)))]
    };
    t + seq![
        (
            key_object(),
            TreeView::Node(object_document(bridge, n.kind, n.attrs, object_catalog(bridge, id, pos, n))),
        ),
    ]
}

/// The `c` element of a node with id `id` at `pos`.
pub fn node_to_tree(bridge: bool, id: u32, pos: &PositionXY, c: &ComponentType) -> (r: AttrMap)
    requires
        node_shape_ok(bridge, c@),
    ensures
        r@ == node_entries(bridge, id, pos_view(*pos), c@),
{
    proof {
        reveal_strlit("@type");
        reveal_strlit("object");
        reveal_strlit("");
        assert("@type"@ =~= key_type());
        assert("object"@ =~= key_object());
    }
    let mut o = object_catalog_map(bridge, id, pos, c);
    object_to_document(bridge, c.kind, &c.attrs, &mut o);
    let mut m = AttrMap::new();
    if c.kind != 0 {
        let tv = Value::Leaf(with_decimal("", c.kind as u32));
        assert(tv@ == TreeView::Text(dec_digits(c.kind as nat)));
        m.push(key("@type"), tv);
    }
    let ov = Value::Element(o);
    m.push(key("object"), ov);
    proof {
        reveal(node_entries);
    }
    assert(m@ =~= node_entries(bridge, id, pos_view(*pos), c@));
    m
}

impl Component {
    /// The `c` element of this node.
    pub fn to_tree(&self) -> (r: AttrMap)
        requires
            node_shape_ok(false, self.component@),
        ensures
            r@ == node_entries(false, self.id, pos_view(self.pos), self.component@),
    {
        node_to_tree(false, self.id, &self.pos, &self.component)
    }
}

impl BridgeComponent {
    /// The `c` element of this node.
    pub fn to_tree(&self) -> (r: AttrMap)
        requires
            node_shape_ok(true, self.component@),
        ensures
            r@ == node_entries(true, self.id, pos_view(self.pos), self.component@),
    {
        node_to_tree(true, self.id, &self.pos, &self.component)
    }
}

/// The catalog shape of document-shaped object entries `p` of a node of
/// `kind` (the channel mode is read from `p` itself).
pub open spec fn object_catalog_of(bridge: bool, kind: u8, p: Seq<(Seq<char>, TreeView)>) -> Seq<
    (Seq<char>, TreeView),
> {
    if bridge {
        p
    } else if kind == DUAL_OUTPUT_KIND {
        dual_output_catalog(p)
    } else if kind == INDEXED_NUMBER_KIND || kind == INDEXED_ON_OFF_KIND {
        indexed_catalog(p)
    } else if kind == CHANNEL_ON_OFF_KIND || kind == CHANNEL_NUMBER_KIND {
        channel_input_catalog(p, channel_variable(p))
    } else {
        p
    }
}

/// A well-formed node whose kind correction is undone exactly on its
/// rendering: such a node reads back from its `c` element.
pub open spec fn node_round_trips(
    bridge: bool,
    id: u32,
    pos: (Option<Seq<char>>, Option<Seq<char>>),
    n: NodeView,
) -> bool {
    let o = object_catalog(bridge, id, pos, n);
    &&& node_wf(bridge, n)
    &&& object_catalog_of(bridge, n.kind, object_document(bridge, n.kind, n.attrs, o)) == o
}

/// Undoes the correction of the node's kind on document-shaped object
/// entries (the channel mode is read from the entries themselves).
pub fn object_from_document(bridge: bool, kind: u8, o: &mut AttrMap)
    ensures
        final(o)@ == object_catalog_of(bridge, kind, old(o)@),
{
    if bridge {
        return ;
    }
    if kind == DUAL_OUTPUT_KIND {
        dual_output_from_document(o);
    } else if kind == INDEXED_NUMBER_KIND || kind == INDEXED_ON_OFF_KIND {
        indexed_from_document(o);
    } else if kind == CHANNEL_ON_OFF_KIND || kind == CHANNEL_NUMBER_KIND {
        proof {
            reveal_strlit("@i");
            assert("@i"@ =~= seq!['@', 'i']);
        }
        let variable = attr_is_minus_one(o, "@i");
        channel_input_from_document(o, variable);
    }
}

fn starts_with_at(k: &String) -> (r: bool)
    ensures
        r == is_attr_key(k@),
{
    let s = k.as_str();
    s.unicode_len() > 0 && s.get_char(0) == '@'
}

fn leaf_copy(v: &Value) -> (r: Option<String>)
    ensures
        r matches Some(t) ==> v@ == TreeView::Text(t@),
        forall|t: Seq<char>| v@ == TreeView::Text(t) ==> r is Some && r->0@ == t,
{
    match v {
        Value::Leaf(t) => Some(t.clone()),
        Value::Element(m) => {
            assert(v@ == TreeView::Node(m@));
            None
        },
    }
}

fn read_pos(o: &AttrMap, idx: usize) -> (r: (PositionXY, usize))
    requires
        idx <= o@.len(),
    ensures
        idx <= r.1 <= o@.len(),
        !(idx < o@.len() && o@[idx as int].0 == key_pos()) ==> r.1 == idx && pos_view(r.0) == (
            None::<Seq<char>>,
            None::<Seq<char>>,
        ),
        forall|p: (Option<Seq<char>>, Option<Seq<char>>)|
            !(p.0 is None && p.1 is None) && idx < o@.len() && o@[idx as int] == pos_entries(p)[0]
                ==> r.1 == idx + 1 && pos_view(r.0) == p,
{
    proof {
        reveal_strlit("pos");
        reveal_strlit("@x");
        reveal_strlit("@y");
        assert("pos"@ =~= key_pos());
        assert("@x"@ =~= key_x());
        assert("@y"@ =~= key_y());
        assert(key_x() != key_y()) by {
            assert(key_x()[1] != key_y()[1]);
        }
    }
    if !key_at(o, idx, "pos") {
        return (PositionXY::origin(), idx);
    }
    let n = o.len();
    proof {
        lemma_entries_view(o.entries@);
    }
    match &o.entries[idx].1 {
        Value::Element(inner) => {
            proof {
                lemma_entries_view(inner.entries@);
            }
            let mut j: usize = 0;
            let mut x: Option<String> = None;
            let mut y: Option<String> = None;
            if key_at(inner, 0, "@x") {
                x = leaf_copy(&inner.entries[0].1);
                j = 1;
            }
            if key_at(inner, j, "@y") {
                y = leaf_copy(&inner.entries[j].1);
            }
            let r = (PositionXY { x, y }, idx + 1);
            proof {
                assert forall|p: (Option<Seq<char>>, Option<Seq<char>>)|
                    !(p.0 is None && p.1 is None) && idx < o@.len() && o@[idx as int]
                        == pos_entries(p)[0] implies r.1 == idx + 1 && pos_view(r.0) == p by {
                    let xs: Seq<(Seq<char>, TreeView)> = match p.0 {
                        Some(t) => seq![(key_x(), TreeView::Text(t))],
                        None => Seq::empty(),
                    };
                    let ys: Seq<(Seq<char>, TreeView)> = match p.1 {
                        Some(t) => seq![(key_y(), TreeView::Text(t))],
                        None => Seq::empty(),
                    };
                    assert(inner@ == xs + ys);
                    if p.0 is Some {
                        assert(inner@[0] == xs[0]);
                        if p.1 is Some {
                            assert(inner@[1] == ys[0]);
                        }
                    } else if p.1 is Some {
                        assert(inner@[0] == ys[0]);
                    }
                }
            }
            r
        },
        Value::Leaf(t) => {
            proof {
                assert forall|p: (Option<Seq<char>>, Option<Seq<char>>)|
                    !(p.0 is None && p.1 is None) && idx < o@.len() && o@[idx as int]
                        == pos_entries(p)[0] implies false by {
                    assert(o@[idx as int].1 == TreeView::Text(t@));
                }
            }
            (PositionXY::origin(), idx + 1)
        },
    }
}

/// The candidate node `c` is well-formed and `o` is its catalog rendering.
pub open spec fn renders_catalog(
    bridge: bool,
    kind: u8,
    o: Seq<(Seq<char>, TreeView)>,
    c: (u32, (Option<Seq<char>>, Option<Seq<char>>), NodeView),
) -> bool {
    node_wf(bridge, c.2) && c.2.kind == kind && o == object_catalog(bridge, c.0, c.1, c.2)
}

/// `r` holds the node `c`.
pub open spec fn read_gives(
    r: Option<(u32, PositionXY, ComponentType)>,
    c: (u32, (Option<Seq<char>>, Option<Seq<char>>), NodeView),
) -> bool {
    match r {
        Some((id, pos, n)) => id == c.0 && pos_view(pos) == c.1 && n@ == node_norm(c.2),
        None => false,
    }
}

proof fn lemma_in_out_tags_differ(a: nat, b: nat)
    ensures
        in_tag(a) != out_tag(b),
        (a != b) ==> in_tag(a) != in_tag(b),
        (a != b) ==> out_tag(a) != out_tag(b),
        !is_attr_key(in_tag(a)),
        !is_attr_key(out_tag(a)),
        in_tag(a) != key_pos(),
        out_tag(a) != key_pos(),
{
    assert(in_tag(a)[0] != out_tag(b)[0]);
    assert(in_tag(a)[0] != key_pos()[0]);
    assert(out_tag(a)[0] != key_pos()[0]);
    if a != b {
        if in_tag(a) == in_tag(b) {
            assert(in_tag(a).subrange(2, in_tag(a).len() as int) =~= dec_digits(a));
            assert(in_tag(b).subrange(2, in_tag(b).len() as int) =~= dec_digits(b));
            crate::text::lemma_dec_digits_injective(a, b);
        }
        if out_tag(a) == out_tag(b) {
            assert(out_tag(a).subrange(3, out_tag(a).len() as int) =~= dec_digits(a));
            assert(out_tag(b).subrange(3, out_tag(b).len() as int) =~= dec_digits(b));
            crate::text::lemma_dec_digits_injective(a, b);
        }
    }
}

/// The key is `in<j>` for some `j`.
pub open spec fn is_in_tag(k: Seq<char>) -> bool {
    exists|j: nat| k == #[trigger] in_tag(j)
}

/// The key is `out<j>` for some `j`.
pub open spec fn is_out_tag(k: Seq<char>) -> bool {
    exists|j: nat| k == #[trigger] out_tag(j)
}

/// Reads the run of attribute entries that starts at position 1.
fn read_attrs(o: &AttrMap) -> (r: (AttrMap, usize))
    requires
        o@.len() >= 1,
    ensures
        1 <= r.1 <= o@.len(),
        r.0@ == o@.subrange(1, r.1 as int),
        forall|k: int| 1 <= k < r.1 ==> is_attr_key(#[trigger] o@[k].0),
        r.1 < o@.len() ==> !is_attr_key(o@[r.1 as int].0),
{
    proof {
        lemma_entries_view(o.entries@);
    }
    let n = o.entries.len();
    let mut idx: usize = 1;
    let mut attrs = AttrMap::new();
    while idx < n && starts_with_at(&o.entries[idx].0)
        invariant
            n == o.entries@.len(),
            n == o@.len(),
            1 <= idx <= n,
            attrs@ == o@.subrange(1, idx as int),
            forall|k: int| 1 <= k < idx ==> is_attr_key(#[trigger] o@[k].0),
        decreases n - idx,
    {
        proof {
            lemma_entries_view(o.entries@);
        }
        let e = &o.entries[idx];
        attrs.push(e.0.clone(), clone_value(&e.1));
        idx += 1;
        assert(attrs@ =~= o@.subrange(1, idx as int));
    }
    proof {
        lemma_entries_view(o.entries@);
    }
    (attrs, idx)
}

/// The slot block of a well-formed node stands at `idx` in `o`, and no
/// input tag follows it.
pub open spec fn inputs_at(
    bridge: bool,
    kind: u8,
    o: Seq<(Seq<char>, TreeView)>,
    idx: int,
    s: Seq<SlotView>,
) -> bool {
    let e = inputs_entries(bridge, kind, s, s.len() as int);
    &&& s.len() == input_count(bridge, kind)
    &&& forall|i: int|
        0 <= i < s.len() ==> slot_wf(
            #[trigger] s[i],
            input_type(bridge, kind, i),
            input_always_visible(bridge, kind),
        )
    &&& 0 <= idx && idx + e.len() <= o.len()
    &&& o.subrange(idx, idx + e.len()) == e
    &&& forall|k: int| idx + e.len() <= k < o.len() ==> !is_in_tag(#[trigger] o[k].0)
}

/// Reads the input slots of a node of `kind` from position `idx`.
fn read_inputs(bridge: bool, kind: u8, o: &AttrMap, idx: usize) -> (r: (Vec<TypedInputConnection>, usize))
    requires
        if bridge {
            kind < BRIDGE_KINDS
        } else {
            kind < LOGIC_KINDS
        },
        idx <= o@.len(),
    ensures
        r.0@.len() == input_count(bridge, kind),
        idx <= r.1 <= o@.len(),
        forall|s0: Seq<SlotView>|
            #[trigger] inputs_at(bridge, kind, o@, idx as int, s0) ==> r.1 == idx + inputs_entries(
                bridge,
                kind,
                s0,
                s0.len() as int,
            ).len() && r.0@.map_values(|x: TypedInputConnection| x@) == slots_norm(s0),
{
    let types = if bridge {
        vec![bridge_signal_type(kind)]
    } else {
        io_def(kind).inputs
    };
    let av = bridge && kind % 2 == 0;
    let n = o.len();
    let ni = types.len();
    let mut inputs: Vec<TypedInputConnection> = Vec::new();
    let mut at = idx;
    let mut i: usize = 0;
    while i < ni
        invariant
            n == o@.len(),
            ni == types@.len(),
            ni == input_count(bridge, kind),
            forall|x: int| 0 <= x < ni ==> #[trigger] types@[x] == input_type(bridge, kind, x),
            av == input_always_visible(bridge, kind),
            ni < 100,
            idx <= at <= n,
            i <= ni,
            inputs@.len() == i,
            forall|s0: Seq<SlotView>|
                #[trigger] inputs_at(bridge, kind, o@, idx as int, s0) ==> s0.len() == ni && at == idx
                    + inputs_entries(bridge, kind, s0, i as int).len() && forall|x: int|
                    0 <= x < i ==> (#[trigger] inputs@[x])@ == slot_norm(s0[x]),
        decreases ni - i,
    {
        let tag = input_tag((i + 1) as u32);
        let mut slot = TypedInputConnection::empty();
        let ghost at0 = at;
        let ghost mut ev: Option<Seq<(Seq<char>, TreeView)>> = None;
        let matched = key_at(o, at, tag.as_str());
        if matched {
            proof {
                lemma_entries_view(o.entries@);
            }
            match &o.entries[at].1 {
                Value::Element(e) => {
                    proof {
                        ev = Some(e@);
                    }
                    match input_from_tree(e, types[i], av) {
                        Some(x) => {
                            slot = x;
                        },
                        None => {},
                    }
                },
                Value::Leaf(_) => {},
            }
            at += 1;
        }
        proof {
            lemma_entries_view(o.entries@);
            assert forall|s0: Seq<SlotView>| #[trigger]
                inputs_at(bridge, kind, o@, idx as int, s0) implies slot@ == slot_norm(s0[i as int]) && at == idx
                + inputs_entries(bridge, kind, s0, i + 1).len() by {
                let ne = s0.len() as int;
                let ie = inputs_entries(bridge, kind, s0, ne);
                lemma_inputs_entries(bridge, kind, s0, i as int, ne);
                lemma_inputs_entries(bridge, kind, s0, i as int, i + 1);
                let pi = inputs_entries(bridge, kind, s0, i as int);
                let sub = o@.subrange(idx as int, idx + ie.len());
                if slot_written(s0[i as int]) {
                    lemma_inputs_entries(bridge, kind, s0, i + 1, ne);
                    assert(o@[at0 as int] == sub[pi.len() as int]);
                    assert(ev == Some(o@[at0 as int].1->Node_0));
                } else if at0 < n {
                    if at0 < idx + ie.len() {
                        assert(o@[at0 as int] == sub[at0 - idx]);
                        assert(written_input_key(ie[at0 - idx].0, s0, i as int, ne));
                        let j = choose|j: int|
                            i <= j < ne && slot_written(s0[j]) && ie[at0 - idx].0 == #[trigger] in_tag(
                                (j + 1) as nat,
                            );
                        lemma_in_out_tags_differ((j + 1) as nat, (i + 1) as nat);
                    } else {
                        if o@[at0 as int].0 == in_tag((i + 1) as nat) {
                            assert(is_in_tag(o@[at0 as int].0));
                        }
                    }
                }
            }
        }
        inputs.push(slot);
        i += 1;
    }
    proof {
        assert forall|s0: Seq<SlotView>| #[trigger]
            inputs_at(bridge, kind, o@, idx as int, s0) implies inputs@.map_values(|x: TypedInputConnection| x@) == slots_norm(s0) by {
            assert(inputs@.map_values(|x: TypedInputConnection| x@) =~= slots_norm(s0));
        }
    }
    (inputs, at)
}

/// The output block of a well-formed node stands at `idx` in `o`, and no
/// output tag follows it.
pub open spec fn outputs_at(
    bridge: bool,
    kind: u8,
    o: Seq<(Seq<char>, TreeView)>,
    idx: int,
    s: Seq<SlotView>,
) -> bool {
    let e = outputs_entries(bridge, kind, s, s.len() as int);
    &&& s.len() == output_count(bridge, kind)
    &&& forall|i: int|
        0 <= i < s.len() ==> slot_wf(
            #[trigger] s[i],
            output_type(bridge, kind, i),
            output_always_visible(bridge, kind),
        ) && s[i].connection is None
    &&& 0 <= idx && idx + e.len() <= o.len()
    &&& o.subrange(idx, idx + e.len()) == e
    &&& forall|k: int| idx + e.len() <= k < o.len() ==> !is_out_tag(#[trigger] o[k].0)
}

/// Reads the output slots of a node of `kind` from position `idx`.
fn read_outputs(bridge: bool, kind: u8, o: &AttrMap, idx: usize) -> (r: (Vec<TypedOutputConnection>, usize))
    requires
        if bridge {
            kind < BRIDGE_KINDS
        } else {
            kind < LOGIC_KINDS
        },
        idx <= o@.len(),
    ensures
        r.0@.len() == output_count(bridge, kind),
        idx <= r.1 <= o@.len(),
        forall|s0: Seq<SlotView>|
            #[trigger] outputs_at(bridge, kind, o@, idx as int, s0) ==> r.1 == idx + outputs_entries(
                bridge,
                kind,
                s0,
                s0.len() as int,
            ).len() && r.0@.map_values(|x: TypedOutputConnection| x@) == slots_norm(s0),
{
    let types = if bridge {
        vec![bridge_signal_type(kind)]
    } else {
        io_def(kind).outputs
    };
    let av = bridge && kind % 2 == 1;
    let n = o.len();
    let no = types.len();
    let mut outputs: Vec<TypedOutputConnection> = Vec::new();
    let mut at = idx;
    let mut i: usize = 0;
    while i < no
        invariant
            n == o@.len(),
            no == types@.len(),
            no == output_count(bridge, kind),
            forall|x: int| 0 <= x < no ==> #[trigger] types@[x] == output_type(bridge, kind, x),
            av == output_always_visible(bridge, kind),
            no < 100,
            idx <= at <= n,
            i <= no,
            outputs@.len() == i,
            forall|s0: Seq<SlotView>|
                #[trigger] outputs_at(bridge, kind, o@, idx as int, s0) ==> s0.len() == no && at == idx
                    + outputs_entries(bridge, kind, s0, i as int).len() && forall|x: int|
                    0 <= x < i ==> (#[trigger] outputs@[x])@ == slot_norm(s0[x]),
        decreases no - i,
    {
        let tag = output_tag((i + 1) as u32);
        let mut slot = TypedOutputConnection::empty();
        let ghost at0 = at;
        let ghost mut ev: Option<Seq<(Seq<char>, TreeView)>> = None;
        let matched = key_at(o, at, tag.as_str());
        if matched {
            proof {
                lemma_entries_view(o.entries@);
            }
            match &o.entries[at].1 {
                Value::Element(e) => {
                    proof {
                        ev = Some(e@);
                    }
                    match output_from_tree(e, types[i], av) {
                        Some(x) => {
                            slot = x;
                        },
                        None => {},
                    }
                },
                Value::Leaf(_) => {},
            }
            at += 1;
        }
        proof {
            lemma_entries_view(o.entries@);
            assert forall|s0: Seq<SlotView>| #[trigger]
                outputs_at(bridge, kind, o@, idx as int, s0) implies slot@ == slot_norm(s0[i as int]) && at == idx
                + outputs_entries(bridge, kind, s0, i + 1).len() by {
                let ne = s0.len() as int;
                let ie = outputs_entries(bridge, kind, s0, ne);
                lemma_outputs_entries(bridge, kind, s0, i as int, ne);
                lemma_outputs_entries(bridge, kind, s0, i as int, i + 1);
                let pi = outputs_entries(bridge, kind, s0, i as int);
                let sub = o@.subrange(idx as int, idx + ie.len());
                if slot_written(s0[i as int]) {
                    lemma_outputs_entries(bridge, kind, s0, i + 1, ne);
                    assert(o@[at0 as int] == sub[pi.len() as int]);
                    assert(ev == Some(o@[at0 as int].1->Node_0));
                } else if at0 < n {
                    if at0 < idx + ie.len() {
                        assert(o@[at0 as int] == sub[at0 - idx]);
                        assert(written_output_key(ie[at0 - idx].0, s0, i as int, ne));
                        let j = choose|j: int|
                            i <= j < ne && slot_written(s0[j]) && ie[at0 - idx].0 == #[trigger] out_tag(
                                (j + 1) as nat,
                            );
                        lemma_in_out_tags_differ((j + 1) as nat, (i + 1) as nat);
                    } else {
                        if o@[at0 as int].0 == out_tag((i + 1) as nat) {
                            assert(is_out_tag(o@[at0 as int].0));
                        }
                    }
                }
            }
        }
        outputs.push(slot);
        i += 1;
    }
    proof {
        assert forall|s0: Seq<SlotView>| #[trigger]
            outputs_at(bridge, kind, o@, idx as int, s0) implies outputs@.map_values(|x: TypedOutputConnection| x@) == slots_norm(s0) by {
            assert(outputs@.map_values(|x: TypedOutputConnection| x@) =~= slots_norm(s0));
        }
    }
    (outputs, at)
}

/// Reads a catalog-shaped object; pieces that do not fit are read as
/// defaults (callers check the result by rendering it again). The
/// rendering of a well-formed node reads back as that node.
fn read_object(bridge: bool, kind: u8, o: &AttrMap) -> (r: Option<(u32, PositionXY, ComponentType)>)
    requires
        if bridge {
            kind < BRIDGE_KINDS
        } else {
            kind < LOGIC_KINDS
        },
    ensures
        r matches Some((id, pos, c)) ==> node_shape_ok(bridge, c@) && c.kind == kind,
        forall|cand: (u32, (Option<Seq<char>>, Option<Seq<char>>), NodeView)|
            #[trigger] renders_catalog(bridge, kind, o@, cand) ==> read_gives(r, cand),
{
    proof {
        lemma_entries_view(o.entries@);
        reveal_strlit("@id");
        assert("@id"@ =~= key_id());
    }
    if !key_at(o, 0, "@id") {
        proof {
            assert forall|cand: (u32, (Option<Seq<char>>, Option<Seq<char>>), NodeView)|
                #[trigger] renders_catalog(bridge, kind, o@, cand) implies false by {
                lemma_object_layout(bridge, kind, o@, cand);
            }
        }
        return None;
    }
    let id = match leaf_number(&o.entries[0].1) {
        Some(x) => x,
        None => {
            proof {
                assert forall|cand: (u32, (Option<Seq<char>>, Option<Seq<char>>), NodeView)|
                    #[trigger] renders_catalog(bridge, kind, o@, cand) implies false by {
                    lemma_object_layout(bridge, kind, o@, cand);
                }
            }
            return None;
        },
    };
    let (attrs, after_attrs) = read_attrs(o);
    let (pos, after_pos) = read_pos(o, after_attrs);
    let (inputs, after_inputs) = read_inputs(bridge, kind, o, after_pos);
    let (outputs, after_outputs) = read_outputs(bridge, kind, o, after_inputs);
    let ghost start_el = after_outputs;
    let n = o.entries.len();
    let mut idx = after_outputs;
    let mut elems = AttrMap::new();
    while idx < n
        invariant
            n == o.entries@.len(),
            n == o@.len(),
            start_el <= idx <= n,
            elems@ == o@.subrange(start_el as int, idx as int),
        decreases n - idx,
    {
        proof {
            lemma_entries_view(o.entries@);
        }
        let e = &o.entries[idx];
        elems.push(e.0.clone(), clone_value(&e.1));
        idx += 1;
        assert(elems@ =~= o@.subrange(start_el as int, idx as int));
    }
    let c = ComponentType { kind, inputs, outputs, attrs, elems };
    let r = Some((id, pos, c));
    proof {
        assert forall|cand: (u32, (Option<Seq<char>>, Option<Seq<char>>), NodeView)|
            #[trigger] renders_catalog(bridge, kind, o@, cand) implies read_gives(r, cand) by {
            lemma_object_layout(bridge, kind, o@, cand);
            let n0 = cand.2;
            let na: int = n0.attrs.len() as int;
            let pe = pos_entries(cand.1);
            let ie = inputs_entries(bridge, kind, n0.inputs, n0.inputs.len() as int);
            let oe = outputs_entries(bridge, kind, n0.outputs, n0.outputs.len() as int);
            let base_in: int = 1 + na + pe.len();
            let base_out: int = base_in + ie.len();
            let base_el: int = base_out + oe.len();
            assert(id == cand.0) by {
                crate::text::lemma_dec_digits_injective(id as nat, cand.0 as nat);
            }
            if after_attrs < 1 + na {
                assert(is_attr_key(o@[after_attrs as int].0)) by {
                    assert(o@[after_attrs as int] == o@.subrange(1, 1 + na)[after_attrs - 1]);
                }
            } else if after_attrs > 1 + na {
                assert(is_attr_key(o@[1 + na].0));
            }
            assert(after_attrs == 1 + na);
            assert(c.attrs@ =~= n0.attrs);
            if pe.len() > 0 {
                assert(o@[1 + na] == o@.subrange(1 + na, base_in)[0]);
            }
            assert(after_pos == base_in);
            assert(pos_view(pos) == cand.1);
            assert(inputs_at(bridge, kind, o@, base_in, n0.inputs));
            assert(c@.inputs == slots_norm(n0.inputs));
            assert(outputs_at(bridge, kind, o@, base_out, n0.outputs));
            assert(c@.outputs == slots_norm(n0.outputs));
            assert(start_el == base_el);
            assert(c@.elems == n0.elems);
            assert(c@ == node_norm(n0));
        }
    }
    r
}

/// Where the parts of a well-formed node's catalog rendering stand.
proof fn lemma_object_layout(
    bridge: bool,
    kind: u8,
    o: Seq<(Seq<char>, TreeView)>,
    cand: (u32, (Option<Seq<char>>, Option<Seq<char>>), NodeView),
)
    requires
        renders_catalog(bridge, kind, o, cand),
    ensures
        ({
            let n0 = cand.2;
            let na = n0.attrs.len() as int;
            let pe = pos_entries(cand.1);
            let ie = inputs_entries(bridge, kind, n0.inputs, n0.inputs.len() as int);
            let oe = outputs_entries(bridge, kind, n0.outputs, n0.outputs.len() as int);
            let base_in = 1 + na + pe.len();
            let base_out = base_in + ie.len();
            let base_el = base_out + oe.len();
            &&& o.len() == base_el + n0.elems.len()
            &&& o[0] == (key_id(), TreeView::Text(dec_digits(cand.0 as nat)))
            &&& o.subrange(1, 1 + na) == n0.attrs
            &&& o.subrange(1 + na, base_in) == pe
            &&& (pe.len() == 0 ==> base_in == 1 + na)
            &&& (1 + na < o.len() ==> !is_attr_key(o[1 + na].0))
            &&& (pe.len() == 0 && 1 + na < o.len() ==> o[1 + na].0 != key_pos())
            &&& (pe.len() > 0 ==> o[1 + na] == pe[0] && !(cand.1.0 is None && cand.1.1 is None))
            &&& inputs_at(bridge, kind, o, base_in, n0.inputs)
            &&& outputs_at(bridge, kind, o, base_out, n0.outputs)
            &&& o.subrange(base_el, o.len() as int) == n0.elems
        }),
{
    let n0 = cand.2;
    let na = n0.attrs.len() as int;
    let pe = pos_entries(cand.1);
    let ie = inputs_entries(bridge, kind, n0.inputs, n0.inputs.len() as int);
    let oe = outputs_entries(bridge, kind, n0.outputs, n0.outputs.len() as int);
    let base_in = 1 + na + pe.len();
    let base_out = base_in + ie.len();
    let base_el = base_out + oe.len();
    let head = seq![(key_id(), TreeView::Text(dec_digits(cand.0 as nat)))];
    assert(o == head + n0.attrs + pe + ie + oe + n0.elems);
    assert(o.subrange(1, 1 + na) =~= n0.attrs);
    assert(o.subrange(1 + na, base_in) =~= pe);
    assert(o.subrange(base_in, base_out) =~= ie);
    assert(o.subrange(base_out, base_el) =~= oe);
    assert(o.subrange(base_el, o.len() as int) =~= n0.elems);
    lemma_inputs_entries(bridge, kind, n0.inputs, 0, n0.inputs.len() as int);
    lemma_outputs_entries(bridge, kind, n0.outputs, 0, n0.outputs.len() as int);
    // what follows the attributes
    if 1 + na < o.len() {
        let k = o[1 + na].0;
        if pe.len() > 0 {
            assert(o[1 + na] == pe[0]);
            assert(key_pos()[0] != '@');
        } else if ie.len() > 0 {
            assert(o[1 + na] == ie[0]);
            let j = choose|j: int|
                0 <= j < n0.inputs.len() && slot_written(n0.inputs[j]) && ie[0].0 == #[trigger] in_tag(
                    (j + 1) as nat,
                );
            lemma_in_out_tags_differ((j + 1) as nat, 0);
        } else if oe.len() > 0 {
            assert(o[1 + na] == oe[0]);
            let j = choose|j: int|
                0 <= j < n0.outputs.len() && slot_written(n0.outputs[j]) && oe[0].0
                    == #[trigger] out_tag((j + 1) as nat);
            lemma_in_out_tags_differ((j + 1) as nat, 0);
        } else {
            assert(o[1 + na] == n0.elems[0]);
        }
    }
    // no input tag after the inputs
    assert forall|k: int| base_out <= k < o.len() implies !is_in_tag(#[trigger] o[k].0) by {
        if is_in_tag(o[k].0) {
            let t = choose|t: nat| o[k].0 == #[trigger] in_tag(t);
            if k < base_el {
                assert(o[k] == oe[k - base_out]);
                let j = choose|j: int|
                    0 <= j < n0.outputs.len() && slot_written(n0.outputs[j]) && oe[k - base_out].0
                        == #[trigger] out_tag((j + 1) as nat);
                lemma_in_out_tags_differ(t, (j + 1) as nat);
            } else {
                assert(o[k] == n0.elems[k - base_el]);
                assert(is_slot_tag(o[k].0));
            }
        }
    }
    assert forall|k: int| base_el <= k < o.len() implies !is_out_tag(#[trigger] o[k].0) by {
        assert(o[k] == n0.elems[k - base_el]);
        if is_out_tag(o[k].0) {
            let t = choose|t: nat| o[k].0 == #[trigger] out_tag(t);
            assert(is_slot_tag(o[k].0));
        }
    }
}

fn type_limit(bridge: bool) -> (r: u32)
    ensures
        r == if bridge {
            BRIDGE_KINDS as u32
        } else {
            LOGIC_KINDS as u32
        },
{
    if bridge {
        BRIDGE_KINDS as u32
    } else {
        LOGIC_KINDS as u32
    }
}

/// A node read from the entries of its `c` element: its id, position and
/// kind with slots. `Some` only for entries that are exactly the rendering
/// of the node returned.
pub fn node_from_tree(bridge: bool, m: &AttrMap) -> (r: Option<(u32, PositionXY, ComponentType)>)
    ensures
        r matches Some((id, pos, c)) ==> node_shape_ok(bridge, c@) && node_entries(
            bridge,
            id,
            pos_view(pos),
            c@,
        ) == m@,
        forall|id: u32, pos: (Option<Seq<char>>, Option<Seq<char>>), n: NodeView|
            node_round_trips(bridge, id, pos, n) && #[trigger] node_entries(bridge, id, pos, n) == m@
                ==> read_gives(r, (id, pos, n)),
{
    proof {
        reveal(node_entries);
        reveal_strlit("@type");
        reveal_strlit("object");
        assert("@type"@ =~= key_type());
        assert("object"@ =~= key_object());
        assert(key_type() != key_object()) by {
            assert(key_type()[0] != key_object()[0]);
        }
    }
    let mut i: usize = 0;
    let mut kind: u8 = 0;
    if key_at(m, 0, "@type") {
        match leaf_number(&m.entries[0].1) {
            Some(k) => {
                if k >= type_limit(bridge) {
                    return None;
                }
                kind = k as u8;
            },
            None => {
                return None;
            },
        }
        i = 1;
    }
    if !key_at(m, i, "object") {
        return None;
    }
    let mut o = match &m.entries[i].1 {
        Value::Element(x) => clone_map(x),
        Value::Leaf(_) => {
            return None;
        },
    };
    let ghost doc = o@;
    object_from_document(bridge, kind, &mut o);
    proof {
        assert forall|id: u32, pos: (Option<Seq<char>>, Option<Seq<char>>), n: NodeView|
            node_round_trips(bridge, id, pos, n) && #[trigger] node_entries(bridge, id, pos, n)
                == m@ implies kind == n.kind && renders_catalog(
            bridge,
            kind,
            o@,
            (id, pos, n),
        ) by {
            lemma_node_entries_parts(bridge, id, pos, n, m@, i as int, kind, doc);
        }
    }
    match read_object(bridge, kind, &o) {
        Some((id, pos, c)) => {
            let rendered = node_to_tree(bridge, id, &pos, &c);
            if map_eq(&rendered, m) {
                Some((id, pos, c))
            } else {
                proof {
                    assert forall|id2: u32, pos2: (Option<Seq<char>>, Option<Seq<char>>), n2: NodeView|
                        node_round_trips(bridge, id2, pos2, n2) && #[trigger] node_entries(
                            bridge,
                            id2,
                            pos2,
                            n2,
                        ) == m@ implies false by {
                        assert(renders_catalog(bridge, kind, o@, (id2, pos2, n2)));
                        lemma_node_entries_norm(bridge, id2, pos2, n2);
                    }
                }
                None
            }
        },
        None => {
            proof {
                assert forall|id2: u32, pos2: (Option<Seq<char>>, Option<Seq<char>>), n2: NodeView|
                    node_round_trips(bridge, id2, pos2, n2) && #[trigger] node_entries(
                        bridge,
                        id2,
                        pos2,
                        n2,
                    ) == m@ implies false by {
                    assert(renders_catalog(bridge, kind, o@, (id2, pos2, n2)));
                }
            }
            None
        },
    }
}

/// How the parser sees the `c` element of a node that round-trips: the
/// kind it reads and the object entries it takes.
proof fn lemma_node_entries_parts(
    bridge: bool,
    id: u32,
    pos: (Option<Seq<char>>, Option<Seq<char>>),
    n: NodeView,
    m: Seq<(Seq<char>, TreeView)>,
    i: int,
    kind: u8,
    doc: Seq<(Seq<char>, TreeView)>,
)
    requires
        node_round_trips(bridge, id, pos, n),
        node_entries(bridge, id, pos, n) == m,
        i == (if n.kind == 0 { 0int } else { 1int }),
        kind == n.kind,
        doc == match m[i].1 {
            TreeView::Node(x) => x,
            TreeView::Text(_) => Seq::empty(),
        },
    ensures
        doc == object_document(bridge, n.kind, n.attrs, object_catalog(bridge, id, pos, n)),
        renders_catalog(
            bridge,
            kind,
            object_catalog_of(bridge, kind, doc),
            (id, pos, n),
        ),
{
    reveal(node_entries);
}

impl Component {
    /// A logic node read from the entries of its `c` element; `Some` only
    /// when the entries are exactly the rendering of the node returned.
    pub fn from_tree(m: &AttrMap) -> (r: Option<Component>)
        ensures
            r matches Some(c) ==> node_shape_ok(false, c.component@) && node_entries(
                false,
                c.id,
                pos_view(c.pos),
                c.component@,
            ) == m@,
            forall|c: Component|
                node_round_trips(false, c.id, pos_view(c.pos), c.component@) && #[trigger] node_entries(
                    false,
                    c.id,
                    pos_view(c.pos),
                    c.component@,
                ) == m@ ==> r is Some && r->0.id == c.id && pos_view(r->0.pos) == pos_view(c.pos)
                    && r->0.component@ == node_norm(c.component@),
    {
        match node_from_tree(false, m) {
            Some((id, pos, component)) => Some(Component { id, pos, component }),
            None => None,
        }
    }
}

impl BridgeComponent {
    /// An IO bridge node read from the entries of its `c` element; `Some`
    /// only when the entries are exactly the rendering of the node returned.
    pub fn from_tree(m: &AttrMap) -> (r: Option<BridgeComponent>)
        ensures
            r matches Some(c) ==> node_shape_ok(true, c.component@) && node_entries(
                true,
                c.id,
                pos_view(c.pos),
                c.component@,
            ) == m@,
            forall|c: BridgeComponent|
                node_round_trips(true, c.id, pos_view(c.pos), c.component@) && #[trigger] node_entries(
                    true,
                    c.id,
                    pos_view(c.pos),
                    c.component@,
                ) == m@ ==> r is Some && r->0.id == c.id && pos_view(r->0.pos) == pos_view(c.pos)
                    && r->0.component@ == node_norm(c.component@),
    {
        match node_from_tree(true, m) {
            Some((id, pos, component)) => Some(BridgeComponent { id, pos, component }),
            None => None,
        }
    }
}

/// Whether a node has the slots its catalog entry lists.
pub fn shape_ok(bridge: bool, c: &ComponentType) -> (r: bool)
    ensures
        r == node_shape_ok(bridge, c@),
{
    if bridge {
        c.kind < BRIDGE_KINDS && c.inputs.len() == 1 && c.outputs.len() == 1
    } else {
        if c.kind >= LOGIC_KINDS {
            return false;
        }
        let d = io_def(c.kind);
        c.inputs.len() == d.inputs.len() && c.outputs.len() == d.outputs.len()
    }
}

// ---------------------------------------------------------------------------
// Reading a rendered node back.
// ---------------------------------------------------------------------------

/// The key is an attribute name.
pub open spec fn is_attr_key(k: Seq<char>) -> bool {
    k.len() > 0 && k[0] == '@'
}

/// The key names a slot (`in<n>` or `out<n>`).
pub open spec fn is_slot_tag(k: Seq<char>) -> bool {
    (exists|j: nat| k == #[trigger] in_tag(j)) || (exists|j: nat| k == #[trigger] out_tag(j))
}

/// A node whose rendering reads back as the same node: its slots are
/// well-formed, its attributes are attributes, and its child elements are
/// neither attributes, nor a position, nor slots.
pub open spec fn node_wf(bridge: bool, n: NodeView) -> bool {
    &&& node_shape_ok(bridge, n)
    &&& forall|i: int|
        0 <= i < n.inputs.len() ==> slot_wf(
            #[trigger] n.inputs[i],
            input_type(bridge, n.kind, i),
            input_always_visible(bridge, n.kind),
        )
    &&& forall|i: int|
        0 <= i < n.outputs.len() ==> slot_wf(
            #[trigger] n.outputs[i],
            output_type(bridge, n.kind, i),
            output_always_visible(bridge, n.kind),
        ) && n.outputs[i].connection is None
    &&& forall|k: int| 0 <= k < n.attrs.len() ==> is_attr_key(#[trigger] n.attrs[k].0)
    &&& forall|k: int|
        0 <= k < n.elems.len() ==> !is_attr_key(#[trigger] n.elems[k].0) && n.elems[k].0
            != key_pos() && !is_slot_tag(n.elems[k].0)
}

/// `k` is `in<j+1>` for a written input `j` in `i..n`.
pub open spec fn written_input_key(k: Seq<char>, s: Seq<SlotView>, i: int, n: int) -> bool {
    exists|j: int| i <= j < n && slot_written(s[j]) && k == #[trigger] in_tag((j + 1) as nat)
}

/// `k` is `out<j+1>` for a written output `j` in `i..n`.
pub open spec fn written_output_key(k: Seq<char>, s: Seq<SlotView>, i: int, n: int) -> bool {
    exists|j: int| i <= j < n && slot_written(s[j]) && k == #[trigger] out_tag((j + 1) as nat)
}

proof fn lemma_inputs_entries(bridge: bool, kind: u8, s: Seq<SlotView>, i: int, n: int)
    requires
        0 <= i <= n,
    ensures
        inputs_entries(bridge, kind, s, i).len() <= inputs_entries(bridge, kind, s, n).len(),
        inputs_entries(bridge, kind, s, n).subrange(0, inputs_entries(bridge, kind, s, i).len() as int)
            == inputs_entries(bridge, kind, s, i),
        forall|k: int|
            inputs_entries(bridge, kind, s, i).len() <= k < inputs_entries(bridge, kind, s, n).len()
                ==> written_input_key((#[trigger] inputs_entries(bridge, kind, s, n)[k]).0, s, i, n),
        i < n && slot_written(s[i]) ==> inputs_entries(bridge, kind, s, n)[inputs_entries(
            bridge,
            kind,
            s,
            i,
        ).len() as int] == (
            in_tag((i + 1) as nat),
            TreeView::Node(
                slot_entries(s[i], input_type(bridge, kind, i), input_always_visible(bridge, kind)),
            ),
        ),
    decreases n - i,
{
    let ei = inputs_entries(bridge, kind, s, i);
    if n > i {
        lemma_inputs_entries(bridge, kind, s, i, n - 1);
        let prev = inputs_entries(bridge, kind, s, n - 1);
        let en = inputs_entries(bridge, kind, s, n);
        assert(en.subrange(0, ei.len() as int) =~= ei) by {
            assert(prev.subrange(0, ei.len() as int) == ei);
        }
        assert forall|k: int| ei.len() <= k < en.len() implies written_input_key(
            #[trigger] en[k].0,
            s,
            i,
            n,
        ) by {
            if k < prev.len() {
                assert(en[k] == prev[k]);
                assert(written_input_key(prev[k].0, s, i, n - 1));
                let j = choose|j: int|
                    i <= j < n - 1 && slot_written(s[j]) && prev[k].0 == #[trigger] in_tag(
                        (j + 1) as nat,
                    );
                assert(i <= j < n && slot_written(s[j]) && en[k].0 == in_tag((j + 1) as nat));
            } else {
                assert(i <= n - 1 < n && slot_written(s[n - 1]) && en[k].0 == in_tag(
                    ((n - 1) + 1) as nat,
                ));
            }
        }
        if i < n && slot_written(s[i]) {
            if i < n - 1 {
                lemma_inputs_entries(bridge, kind, s, i + 1, n - 1);
                assert(inputs_entries(bridge, kind, s, i + 1).len() == ei.len() + 1);
            }
        }
    }
}

proof fn lemma_outputs_entries(bridge: bool, kind: u8, s: Seq<SlotView>, i: int, n: int)
    requires
        0 <= i <= n,
    ensures
        outputs_entries(bridge, kind, s, i).len() <= outputs_entries(bridge, kind, s, n).len(),
        outputs_entries(bridge, kind, s, n).subrange(0, outputs_entries(bridge, kind, s, i).len() as int)
            == outputs_entries(bridge, kind, s, i),
        forall|k: int|
            outputs_entries(bridge, kind, s, i).len() <= k < outputs_entries(bridge, kind, s, n).len()
                ==> written_output_key((#[trigger] outputs_entries(bridge, kind, s, n)[k]).0, s, i, n),
        i < n && slot_written(s[i]) ==> outputs_entries(bridge, kind, s, n)[outputs_entries(
            bridge,
            kind,
            s,
            i,
        ).len() as int] == (
            out_tag((i + 1) as nat),
            TreeView::Node(
                slot_entries(s[i], output_type(bridge, kind, i), output_always_visible(bridge, kind)),
            ),
        ),
    decreases n - i,
{
    let ei = outputs_entries(bridge, kind, s, i);
    if n > i {
        lemma_outputs_entries(bridge, kind, s, i, n - 1);
        let prev = outputs_entries(bridge, kind, s, n - 1);
        let en = outputs_entries(bridge, kind, s, n);
        assert(en.subrange(0, ei.len() as int) =~= ei) by {
            assert(prev.subrange(0, ei.len() as int) == ei);
        }
        assert forall|k: int| ei.len() <= k < en.len() implies written_output_key(
            #[trigger] en[k].0,
            s,
            i,
            n,
        ) by {
            if k < prev.len() {
                assert(en[k] == prev[k]);
                assert(written_output_key(prev[k].0, s, i, n - 1));
                let j = choose|j: int|
                    i <= j < n - 1 && slot_written(s[j]) && prev[k].0 == #[trigger] out_tag(
                        (j + 1) as nat,
                    );
                assert(i <= j < n && slot_written(s[j]) && en[k].0 == out_tag((j + 1) as nat));
            } else {
                assert(i <= n - 1 < n && slot_written(s[n - 1]) && en[k].0 == out_tag(
                    ((n - 1) + 1) as nat,
                ));
            }
        }
        if i < n && slot_written(s[i]) {
            if i < n - 1 {
                lemma_outputs_entries(bridge, kind, s, i + 1, n - 1);
                assert(outputs_entries(bridge, kind, s, i + 1).len() == ei.len() + 1);
            }
        }
    }
}

/// The slots as they read back from the document.
pub open spec fn slots_norm(s: Seq<SlotView>) -> Seq<SlotView> {
    s.map_values(|x: SlotView| slot_norm(x))
}

/// A node as it reads back from the document: its slots normalised.
pub open spec fn node_norm(n: NodeView) -> NodeView {
    NodeView { inputs: slots_norm(n.inputs), outputs: slots_norm(n.outputs), ..n }
}

proof fn lemma_inputs_entries_norm(bridge: bool, kind: u8, s: Seq<SlotView>, n: int)
    requires
        0 <= n <= s.len(),
    ensures
        inputs_entries(bridge, kind, slots_norm(s), n) == inputs_entries(bridge, kind, s, n),
    decreases n,
{
    if n > 0 {
        lemma_inputs_entries_norm(bridge, kind, s, n - 1);
    }
}

proof fn lemma_outputs_entries_norm(bridge: bool, kind: u8, s: Seq<SlotView>, n: int)
    requires
        0 <= n <= s.len(),
    ensures
        outputs_entries(bridge, kind, slots_norm(s), n) == outputs_entries(bridge, kind, s, n),
    decreases n,
{
    if n > 0 {
        lemma_outputs_entries_norm(bridge, kind, s, n - 1);
    }
}

/// A node and its normal form are written the same way.
pub proof fn lemma_node_entries_norm(
    bridge: bool,
    id: u32,
    pos: (Option<Seq<char>>, Option<Seq<char>>),
    n: NodeView,
)
    ensures
        node_entries(bridge, id, pos, node_norm(n)) == node_entries(bridge, id, pos, n),
        object_catalog(bridge, id, pos, node_norm(n)) == object_catalog(bridge, id, pos, n),
        node_shape_ok(bridge, node_norm(n)) == node_shape_ok(bridge, n),
        node_norm(node_norm(n)) == node_norm(n),
{
    reveal(node_entries);
    lemma_inputs_entries_norm(bridge, n.kind, n.inputs, n.inputs.len() as int);
    lemma_outputs_entries_norm(bridge, n.kind, n.outputs, n.outputs.len() as int);
    assert(slots_norm(slots_norm(n.inputs)) =~= slots_norm(n.inputs));
    assert(slots_norm(slots_norm(n.outputs)) =~= slots_norm(n.outputs));
}

} // verus!
