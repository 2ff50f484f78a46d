//! Per-kind corrections between the generic (catalog) rendering of a node's
//! `object` element and the exact shape the document format uses.
//!
//! Each correction comes as a pair: `*_to_document` patches the catalog
//! rendering into the document shape, `*_from_document` undoes it.

use vstd::prelude::*;

use crate::text::{
    dec_digits, is_digit, lemma_dec_digits, lemma_dec_digits_injective, str_eq, with_decimal,
};
use crate::tree::{
    first_index, has_no_key, lemma_entries_view, lemma_first_index, AttrMap, TreeView, Value,
};

verus! {

broadcast use lemma_entries_view;

/// The tag of the `n`-th input slot: `in<n>`.
pub open spec fn in_tag(n: nat) -> Seq<char> {
    seq!['i', 'n'] + dec_digits(n)
}

/// The tag of the `n`-th output slot: `out<n>`.
pub open spec fn out_tag(n: nat) -> Seq<char> {
    seq!['o', 'u', 't'] + dec_digits(n)
}

/// `in<n>` as a string.
pub fn input_tag(n: u32) -> (r: String)
    ensures
        r@ == in_tag(n as nat),
{
    proof {
        reveal_strlit("in");
    }
    let r = with_decimal("in", n);
    assert(r@ =~= in_tag(n as nat));
    r
}

/// `out<n>` as a string.
pub fn output_tag(n: u32) -> (r: String)
    ensures
        r@ == out_tag(n as nat),
{
    proof {
        reveal_strlit("out");
    }
    let r = with_decimal("out", n);
    assert(r@ =~= out_tag(n as nat));
    r
}

/// The key `k` occurs in `s` at position `i` and nowhere else.
pub open spec fn only_at(s: Seq<(Seq<char>, TreeView)>, k: Seq<char>, i: int) -> bool {
    &&& 0 <= i < s.len()
    &&& s[i].0 == k
    &&& forall|j: int| 0 <= j < s.len() && j != i ==> (#[trigger] s[j]).0 != k
}

/// The key `k` occurs in `s` at positions `i` and `i + 1` and nowhere else.
pub open spec fn only_at_pair(s: Seq<(Seq<char>, TreeView)>, k: Seq<char>, i: int) -> bool {
    &&& 0 <= i && i + 1 < s.len()
    &&& s[i].0 == k
    &&& s[i + 1].0 == k
    &&& forall|j: int| 0 <= j < s.len() && j != i && j != i + 1 ==> (#[trigger] s[j]).0 != k
}

/// An element with no attributes and no children.
pub open spec fn empty_element() -> TreeView {
    TreeView::Node(Seq::empty())
}

proof fn lemma_only_at_first(s: Seq<(Seq<char>, TreeView)>, k: Seq<char>, i: int)
    requires
        0 <= i < s.len(),
        s[i].0 == k,
        forall|j: int| 0 <= j < i ==> (#[trigger] s[j]).0 != k,
    ensures
        first_index(s, k) == i,
{
    lemma_first_index(s, k);
    assert(!has_no_key(s, k));
    let f = first_index(s, k);
    if f < i {
        assert(s[f].0 == k);
    } else if f > i {
        assert(s[i].0 == k);
    }
}

// ---------------------------------------------------------------------------
// Dual-output kind: both outputs are written under the tag of the first.
// ---------------------------------------------------------------------------

/// The document shape of a dual-output node: the second output's entry is
/// dropped and the first output's entry is copied to the position right
/// after it, under the same tag.
pub open spec fn dual_output_document(o: Seq<(Seq<char>, TreeView)>) -> Seq<(Seq<char>, TreeView)> {
    let i2 = first_index(o, out_tag(2));
    let o1 = if i2 == -1 {
        o
    } else {
        o.remove(i2)
    };
    let i1 = first_index(o1, out_tag(1));
    if i1 == -1 {
        o1
    } else {
        o1.insert(i1 + 1, o1[i1])
    }
}

/// Position of the second entry with key `k`, or `-1`.
pub open spec fn second_index(s: Seq<(Seq<char>, TreeView)>, k: Seq<char>) -> int {
    let i = first_index(s, k);
    if i == -1 {
        -1
    } else {
        let j = first_index(s.subrange(i + 1, s.len() as int), k);
        if j == -1 {
            -1
        } else {
            i + 1 + j
        }
    }
}

/// The catalog shape of a dual-output document node: the second entry
/// tagged as the first output becomes the (empty) second output; the copy
/// it held is discarded.
pub open spec fn dual_output_catalog(p: Seq<(Seq<char>, TreeView)>) -> Seq<(Seq<char>, TreeView)> {
    let j = second_index(p, out_tag(1));
    if j == -1 {
        p
    } else {
        p.update(j, (out_tag(2), empty_element()))
    }
}

/// Patches the catalog rendering of a dual-output node into document shape.
pub fn dual_output_to_document(o: &mut AttrMap)
    ensures
        final(o)@ == dual_output_document(old(o)@),
{
    let out2 = output_tag(2);
    proof {
        lemma_first_index(o@, out_tag(2));
    }
    let _ = o.remove(out2.as_str());
    let out1 = output_tag(1);
    let out1_copy = output_tag(1);
    proof {
        lemma_first_index(o@, out_tag(1));
    }
    o.duplicate_key(out1.as_str(), out1_copy);
}

/// Undoes `dual_output_to_document`.
pub fn dual_output_from_document(p: &mut AttrMap)
    ensures
        final(p)@ == dual_output_catalog(old(p)@),
{
    let out1 = output_tag(1);
    match p.find(out1.as_str()) {
        None => {},
        Some(i) => {
            let n = p.len();
            match p.find_from(out1.as_str(), i + 1) {
                None => {},
                Some(j) => {
                    proof {
                        let tail = old(p)@.subrange(i + 1, n as int);
                        lemma_first_index(tail, out_tag(1));
                    }
                    let _ = p.remove_at(j);
                    p.insert_at(j, output_tag(2), Value::Element(AttrMap::new()));
                    proof {
                        assert(p@ =~= old(p)@.update(j as int, (out_tag(2), empty_element())));
                    }
                },
            }
        },
    }
}

/// Writing a dual-output node: the document shape has a single output tag,
/// held by the first output's entry and by a copy of it standing at the
/// second output's former position; reading that shape back gives the two
/// outputs again, exactly as they were (the second one empty, as the format
/// cannot carry anything else for it).
pub proof fn lemma_dual_output_round_trip(o: Seq<(Seq<char>, TreeView)>, i: int)
    requires
        only_at(o, out_tag(1), i),
        only_at(o, out_tag(2), i + 1),
        o[i + 1].1 == empty_element(),
    ensures
        has_no_key(dual_output_document(o), out_tag(2)),
        only_at_pair(dual_output_document(o), out_tag(1), i),
        dual_output_document(o)[i + 1].1 == o[i].1,
        dual_output_document(o).len() == o.len(),
        dual_output_catalog(dual_output_document(o)) == o,
{
    assert(out_tag(1) != out_tag(2)) by {
        assert(out_tag(1)[3] != out_tag(2)[3]);
    }
    lemma_only_at_first(o, out_tag(2), i + 1);
    let o1 = o.remove(i + 1);
    lemma_only_at_first(o1, out_tag(1), i);
    let p = o1.insert(i + 1, o1[i]);
    assert(dual_output_document(o) == p);
    lemma_only_at_first(p, out_tag(1), i);
    let tail = p.subrange(i + 1, p.len() as int);
    lemma_only_at_first(tail, out_tag(1), 0);
    assert(second_index(p, out_tag(1)) == i + 1);
    assert(p.update(i + 1, (out_tag(2), empty_element())) =~= o);
    assert forall|j: int| 0 <= j < p.len() implies (#[trigger] p[j]).0 != out_tag(2) by {
        if j < i + 1 {
            assert(p[j] == o[j]);
        } else if j > i + 1 {
            assert(p[j] == o[j]);
        }
    }
}

/// Reading a document dual-output node whose single output tag appears
/// twice in a row with the same content, then writing it again, gives the
/// document back unchanged.
pub proof fn lemma_dual_output_document_round_trip(p: Seq<(Seq<char>, TreeView)>, i: int)
    requires
        only_at_pair(p, out_tag(1), i),
        p[i].1 == p[i + 1].1,
        has_no_key(p, out_tag(2)),
    ensures
        only_at(dual_output_catalog(p), out_tag(1), i),
        only_at(dual_output_catalog(p), out_tag(2), i + 1),
        dual_output_document(dual_output_catalog(p)) == p,
{
    assert(out_tag(1) != out_tag(2)) by {
        assert(out_tag(1)[3] != out_tag(2)[3]);
    }
    lemma_only_at_first(p, out_tag(1), i);
    let tail = p.subrange(i + 1, p.len() as int);
    lemma_only_at_first(tail, out_tag(1), 0);
    let c = p.update(i + 1, (out_tag(2), empty_element()));
    assert(dual_output_catalog(p) == c);
    lemma_only_at_first(c, out_tag(2), i + 1);
    let c1 = c.remove(i + 1);
    lemma_only_at_first(c1, out_tag(1), i);
    assert(c1.insert(i + 1, c1[i]) =~= p);
}

// ---------------------------------------------------------------------------
// Conditional-position kind: the channel input is written only when the
// channel is "variable", and then right after the first output.
// ---------------------------------------------------------------------------

/// The document shape of a composite-read node. With a variable channel the
/// second input's entry is moved to right after the first output (to the
/// end when there is no output entry); with a fixed channel it is dropped.
pub open spec fn channel_input_document(o: Seq<(Seq<char>, TreeView)>, variable: bool) -> Seq<
    (Seq<char>, TreeView),
> {
    let i = first_index(o, in_tag(2));
    if i == -1 {
        o
    } else if !variable {
        o.remove(i)
    } else {
        let o1 = o.remove(i);
        let j = first_index(o1, out_tag(1));
        if j == -1 {
            o1.push(o[i])
        } else {
            o1.insert(j + 1, o[i])
        }
    }
}

/// The catalog shape of a document composite-read node: with a variable
/// channel the second input's entry goes back to just before the first
/// output; with a fixed channel nothing changes (the input is absent).
pub open spec fn channel_input_catalog(p: Seq<(Seq<char>, TreeView)>, variable: bool) -> Seq<
    (Seq<char>, TreeView),
> {
    let i = first_index(p, in_tag(2));
    if !variable || i == -1 || first_index(p, out_tag(1)) == -1 {
        p
    } else {
        let p1 = p.remove(i);
        p1.insert(first_index(p1, out_tag(1)), p[i])
    }
}

/// Patches the catalog rendering of a composite-read node into document
/// shape.
pub fn channel_input_to_document(o: &mut AttrMap, variable: bool)
    ensures
        final(o)@ == channel_input_document(old(o)@, variable),
{
    let in2 = input_tag(2);
    proof {
        lemma_first_index(o@, in_tag(2));
    }
    match o.remove(in2.as_str()) {
        None => {},
        Some(v) => {
            if variable {
                let out1 = output_tag(1);
                proof {
                    lemma_first_index(o@, out_tag(1));
                }
                match o.find(out1.as_str()) {
                    Some(j) => {
                        let n = o.len();
                        assert(j < n);
                        o.insert_at(j + 1, in2, v);
                    },
                    None => {
                        o.push(in2, v);
                    },
                }
            }
        },
    }
}

/// Undoes `channel_input_to_document`.
pub fn channel_input_from_document(p: &mut AttrMap, variable: bool)
    ensures
        final(p)@ == channel_input_catalog(old(p)@, variable),
{
    if !variable {
        return ;
    }
    let in2 = input_tag(2);
    let out1 = output_tag(1);
    proof {
        lemma_first_index(p@, in_tag(2));
        lemma_first_index(p@, out_tag(1));
    }
    if p.find(out1.as_str()).is_none() {
        return ;
    }
    match p.remove(in2.as_str()) {
        None => {},
        Some(v) => {
            proof {
                lemma_first_index(p@, out_tag(1));
                assert(p@[first_index(old(p)@, out_tag(1)) - if first_index(old(p)@, out_tag(1))
                    > first_index(old(p)@, in_tag(2)) {
                    1int
                } else {
                    0int
                }].0 == out_tag(1));
            }
            match p.find(out1.as_str()) {
                Some(j) => {
                    p.insert_at(j, in2, v);
                },
                None => {},
            }
        },
    }
}

/// With a variable channel, writing a composite-read node moves its second
/// input to immediately after its first output, and reading it back
/// restores the catalog order exactly.
pub proof fn lemma_variable_channel_round_trip(o: Seq<(Seq<char>, TreeView)>, k: int)
    requires
        only_at(o, in_tag(2), k),
        only_at(o, out_tag(1), k + 1),
    ensures
        only_at(channel_input_document(o, true), out_tag(1), k),
        only_at(channel_input_document(o, true), in_tag(2), k + 1),
        channel_input_catalog(channel_input_document(o, true), true) == o,
{
    assert(in_tag(2) != out_tag(1)) by {
        assert(in_tag(2)[0] != out_tag(1)[0]);
    }
    lemma_only_at_first(o, in_tag(2), k);
    let o1 = o.remove(k);
    lemma_only_at_first(o1, out_tag(1), k);
    let d = o1.insert(k + 1, o[k]);
    assert(channel_input_document(o, true) == d);
    assert(only_at(d, out_tag(1), k));
    assert(only_at(d, in_tag(2), k + 1));
    lemma_only_at_first(d, in_tag(2), k + 1);
    lemma_only_at_first(d, out_tag(1), k);
    let d1 = d.remove(k + 1);
    lemma_only_at_first(d1, out_tag(1), k);
    assert(d1.insert(k, d[k + 1]) =~= o);
}

/// Reading a document composite-read node with a variable channel whose
/// second input stands right after its first output, then writing it again,
/// gives the document back unchanged.
pub proof fn lemma_variable_channel_document_round_trip(p: Seq<(Seq<char>, TreeView)>, k: int)
    requires
        only_at(p, out_tag(1), k),
        only_at(p, in_tag(2), k + 1),
    ensures
        channel_input_document(channel_input_catalog(p, true), true) == p,
{
    assert(in_tag(2) != out_tag(1)) by {
        assert(in_tag(2)[0] != out_tag(1)[0]);
    }
    lemma_only_at_first(p, in_tag(2), k + 1);
    lemma_only_at_first(p, out_tag(1), k);
    let p1 = p.remove(k + 1);
    lemma_only_at_first(p1, out_tag(1), k);
    let c = p1.insert(k, p[k + 1]);
    assert(channel_input_catalog(p, true) == c);
    assert(only_at(c, in_tag(2), k));
    assert(only_at(c, out_tag(1), k + 1));
    lemma_only_at_first(c, in_tag(2), k);
    let c1 = c.remove(k);
    lemma_only_at_first(c1, out_tag(1), k);
    assert(c1.insert(k + 1, c[k]) =~= p);
}

/// With a fixed channel, the written node has no second-input entry (when
/// it had at most one), and a node that had none is left as it was in both
/// directions.
pub proof fn lemma_fixed_channel(o: Seq<(Seq<char>, TreeView)>)
    requires
        forall|a: int, b: int|
            0 <= a < o.len() && 0 <= b < o.len() && (#[trigger] o[a]).0 == in_tag(2) && (
            #[trigger] o[b]).0 == in_tag(2) ==> a == b,
    ensures
        has_no_key(channel_input_document(o, false), in_tag(2)),
        has_no_key(o, in_tag(2)) ==> channel_input_document(o, false) == o,
        channel_input_catalog(channel_input_document(o, false), false) == channel_input_document(
            o,
            false,
        ),
{
    lemma_first_index(o, in_tag(2));
    let i = first_index(o, in_tag(2));
    if i != -1 {
        let d = o.remove(i);
        assert forall|j: int| 0 <= j < d.len() implies (#[trigger] d[j]).0 != in_tag(2) by {
            if j < i {
                assert(d[j] == o[j]);
            } else {
                assert(d[j] == o[j + 1]);
            }
        }
    }
}

// ---------------------------------------------------------------------------
// Variable-width indexed kind: inputs renumbered, the first and last renamed,
// unused ones dropped.
// ---------------------------------------------------------------------------

/// The document name of the composite input: `inc`.
pub open spec fn carry_tag() -> Seq<char> {
    seq!['i', 'n', 'c']
}

/// The document name of the start-offset input: `inoff`.
pub open spec fn offset_tag() -> Seq<char> {
    seq!['i', 'n', 'o', 'f', 'f']
}

/// `k` is `in<n>` for some `n` in `lo..=hi`.
pub open spec fn is_input_tag_in(k: Seq<char>, lo: nat, hi: nat) -> bool {
    exists|n: nat| lo <= n <= hi && k == #[trigger] in_tag(n)
}

/// The number of an input tag.
pub open spec fn input_tag_number(k: Seq<char>) -> nat {
    choose|n: nat| k == #[trigger] in_tag(n)
}

/// The document key of a catalog key of the indexed kind.
pub open spec fn indexed_document_key(k: Seq<char>) -> Seq<char> {
    if k == in_tag(1) {
        carry_tag()
    } else if k == in_tag(34) {
        offset_tag()
    } else if is_input_tag_in(k, 2, 33) {
        in_tag((input_tag_number(k) - 1) as nat)
    } else {
        k
    }
}

/// The catalog key of a document key of the indexed kind.
pub open spec fn indexed_catalog_key(k: Seq<char>) -> Seq<char> {
    if k == carry_tag() {
        in_tag(1)
    } else if k == offset_tag() {
        in_tag(34)
    } else if is_input_tag_in(k, 1, 32) {
        in_tag(input_tag_number(k) + 1)
    } else {
        k
    }
}

/// Whether a document entry of the indexed kind is left out: the offset
/// input unless the offset is variable, and channel inputs past `count`.
pub open spec fn indexed_dropped(k: Seq<char>, count: nat, variable: bool) -> bool {
    (k == offset_tag() && !variable) || is_input_tag_in(k, count + 1, 32)
}

/// The document shape of an indexed node: every key renamed, dropped
/// entries left out, order kept.
pub open spec fn indexed_document(o: Seq<(Seq<char>, TreeView)>, count: nat, variable: bool) -> Seq<
    (Seq<char>, TreeView),
>
    decreases o.len(),
{
    if o.len() == 0 {
        Seq::empty()
    } else {
        let prev = indexed_document(o.drop_last(), count, variable);
        let k = indexed_document_key(o.last().0);
        if indexed_dropped(k, count, variable) {
            prev
        } else {
            prev.push((k, o.last().1))
        }
    }
}

/// The catalog shape of a document indexed node: every key renamed back.
pub open spec fn indexed_catalog(p: Seq<(Seq<char>, TreeView)>) -> Seq<(Seq<char>, TreeView)> {
    Seq::new(p.len(), |i: int| (indexed_catalog_key(p[i].0), p[i].1))
}

proof fn lemma_in_tag_injective(a: nat, b: nat)
    requires
        in_tag(a) == in_tag(b),
    ensures
        a == b,
{
    assert(in_tag(a).subrange(2, in_tag(a).len() as int) =~= dec_digits(a));
    assert(in_tag(b).subrange(2, in_tag(b).len() as int) =~= dec_digits(b));
    lemma_dec_digits_injective(a, b);
}

proof fn lemma_in_tag_number(n: nat)
    ensures
        input_tag_number(in_tag(n)) == n,
        in_tag(n) != carry_tag(),
        in_tag(n) != offset_tag(),
        in_tag(n) != out_tag(1),
        in_tag(n) != out_tag(2),
{
    let m = input_tag_number(in_tag(n));
    assert(in_tag(n) == in_tag(m));
    lemma_in_tag_injective(n, m);
    lemma_dec_digits(n);
    assert(is_digit(in_tag(n)[2]));
    assert(!is_digit(carry_tag()[2]));
    assert(!is_digit(offset_tag()[2]));
    assert(in_tag(n)[0] != out_tag(1)[0]);
    assert(in_tag(n)[0] != out_tag(2)[0]);
}

/// Writing then reading a key gives it back, unless it is one of the
/// document-only names.
proof fn lemma_indexed_key_round_trip(k: Seq<char>)
    requires
        k != carry_tag(),
        k != offset_tag(),
    ensures
        indexed_catalog_key(indexed_document_key(k)) == k,
{
    assert(carry_tag() != offset_tag()) by {
        assert(carry_tag()[2] != offset_tag()[2]);
    }
    if k == in_tag(1) {
    } else if k == in_tag(34) {
    } else if is_input_tag_in(k, 2, 33) {
        let n = input_tag_number(k);
        let w: nat = choose|w: nat| 2 <= w <= 33 && k == #[trigger] in_tag(w);
        lemma_in_tag_number(w);
        let d = in_tag((n - 1) as nat);
        lemma_in_tag_number((n - 1) as nat);
        assert(is_input_tag_in(d, 1, 32));
        assert(input_tag_number(d) + 1 == n);
    } else {
        if is_input_tag_in(k, 1, 32) {
            let w: nat = choose|w: nat| 1 <= w <= 32 && k == #[trigger] in_tag(w);
            assert(w == 1 || (2 <= w <= 33));
        }
    }
}

/// Reading then writing a key gives it back, unless it is one of the two
/// numbered tags the document never uses.
proof fn lemma_indexed_document_key_round_trip(k: Seq<char>)
    requires
        k != in_tag(33),
        k != in_tag(34),
    ensures
        indexed_document_key(indexed_catalog_key(k)) == k,
{
    assert(carry_tag() != offset_tag()) by {
        assert(carry_tag()[2] != offset_tag()[2]);
    }
    lemma_in_tag_number(1);
    lemma_in_tag_number(34);
    if k == carry_tag() {
    } else if k == offset_tag() {
    } else if is_input_tag_in(k, 1, 32) {
        let w: nat = choose|w: nat| 1 <= w <= 32 && k == #[trigger] in_tag(w);
        lemma_in_tag_number(w);
        let c = in_tag(w + 1);
        lemma_in_tag_number(w + 1);
        if w + 1 == 34 {
        } else {
            assert(c != in_tag(1)) by {
                if c == in_tag(1) {
                    lemma_in_tag_injective(w + 1, 1);
                }
            }
            assert(c != in_tag(34)) by {
                if c == in_tag(34) {
                    lemma_in_tag_injective(w + 1, 34);
                }
            }
            assert(is_input_tag_in(c, 2, 33));
        }
    } else {
        if k == in_tag(1) {
            assert(is_input_tag_in(k, 1, 32));
        }
        if is_input_tag_in(k, 2, 33) {
            let w: nat = choose|w: nat| 2 <= w <= 33 && k == #[trigger] in_tag(w);
            assert(w <= 32 || w == 33);
            if w <= 32 {
                assert(is_input_tag_in(k, 1, 32));
            }
        }
    }
}

proof fn lemma_indexed_document_all_kept(o: Seq<(Seq<char>, TreeView)>, count: nat, variable: bool)
    requires
        forall|i: int|
            0 <= i < o.len() ==> !indexed_dropped(
                indexed_document_key(#[trigger] o[i].0),
                count,
                variable,
            ),
    ensures
        indexed_document(o, count, variable) == Seq::new(
            o.len(),
            |i: int| (indexed_document_key(o[i].0), o[i].1),
        ),
    decreases o.len(),
{
    if o.len() > 0 {
        let o1 = o.drop_last();
        assert forall|i: int| 0 <= i < o1.len() implies !indexed_dropped(
            indexed_document_key(#[trigger] o1[i].0),
            count,
            variable,
        ) by {
            assert(o1[i] == o[i]);
        }
        lemma_indexed_document_all_kept(o1, count, variable);
        assert(!indexed_dropped(indexed_document_key(o[o.len() - 1].0), count, variable));
        assert(indexed_document(o, count, variable) =~= Seq::new(
            o.len(),
            |i: int| (indexed_document_key(o[i].0), o[i].1),
        ));
    }
}

/// Writing an indexed node whose entries all survive (no channel input past
/// `count`, no offset input unless the offset is variable) and that uses no
/// document-only names, then reading it back, gives the catalog shape back.
pub proof fn lemma_indexed_round_trip(o: Seq<(Seq<char>, TreeView)>, count: nat, variable: bool)
    requires
        forall|i: int|
            0 <= i < o.len() ==> (#[trigger] o[i]).0 != carry_tag() && o[i].0 != offset_tag()
                && !indexed_dropped(indexed_document_key(o[i].0), count, variable),
    ensures
        indexed_catalog(indexed_document(o, count, variable)) == o,
{
    lemma_indexed_document_all_kept(o, count, variable);
    let d = indexed_document(o, count, variable);
    assert forall|i: int| 0 <= i < o.len() implies #[trigger] indexed_catalog(d)[i] == o[i] by {
        lemma_indexed_key_round_trip(o[i].0);
    }
    assert(indexed_catalog(d) =~= o);
}

/// Reading a document indexed node that uses neither `in33` nor `in34` and
/// holds nothing the writer would leave out, then writing it again, gives
/// the document back unchanged.
pub proof fn lemma_indexed_document_round_trip(
    p: Seq<(Seq<char>, TreeView)>,
    count: nat,
    variable: bool,
)
    requires
        forall|i: int|
            0 <= i < p.len() ==> (#[trigger] p[i]).0 != in_tag(33) && p[i].0 != in_tag(34)
                && !indexed_dropped(p[i].0, count, variable),
    ensures
        indexed_document(indexed_catalog(p), count, variable) == p,
{
    let c = indexed_catalog(p);
    assert forall|i: int| 0 <= i < c.len() implies !indexed_dropped(
        indexed_document_key(#[trigger] c[i].0),
        count,
        variable,
    ) by {
        lemma_indexed_document_key_round_trip(p[i].0);
    }
    lemma_indexed_document_all_kept(c, count, variable);
    assert forall|i: int| 0 <= i < p.len() implies #[trigger] indexed_document(
        c,
        count,
        variable,
    )[i] == p[i] by {
        lemma_indexed_document_key_round_trip(p[i].0);
    }
    assert(indexed_document(c, count, variable) =~= p);
}

/// The written shape of an indexed node never holds a channel input past
/// `count`, and holds the offset input only when the offset is variable.
pub proof fn lemma_indexed_document_drops(
    o: Seq<(Seq<char>, TreeView)>,
    count: nat,
    variable: bool,
)
    ensures
        forall|i: int|
            0 <= i < indexed_document(o, count, variable).len() ==> !indexed_dropped(
                (#[trigger] indexed_document(o, count, variable)[i]).0,
                count,
                variable,
            ),
        !variable ==> has_no_key(indexed_document(o, count, variable), offset_tag()),
    decreases o.len(),
{
    if o.len() > 0 {
        lemma_indexed_document_drops(o.drop_last(), count, variable);
    }
}

/// The written shape of an indexed node renames the composite input to
/// `inc`, and, when the offset is variable, the offset input to `inoff`.
pub proof fn lemma_indexed_document_renames(
    o: Seq<(Seq<char>, TreeView)>,
    count: nat,
    variable: bool,
    i: int,
)
    requires
        0 <= i < o.len(),
        o[i].0 == in_tag(1) || (variable && o[i].0 == in_tag(34)),
    ensures
        exists|j: int|
            0 <= j < indexed_document(o, count, variable).len() && (#[trigger] indexed_document(
                o,
                count,
                variable,
            )[j]) == (indexed_document_key(o[i].0), o[i].1),
        o[i].0 == in_tag(1) ==> indexed_document_key(o[i].0) == carry_tag(),
        o[i].0 == in_tag(34) ==> indexed_document_key(o[i].0) == offset_tag(),
    decreases o.len(),
{
    lemma_in_tag_number(1);
    lemma_in_tag_number(34);
    assert(in_tag(1) != in_tag(34)) by {
        if in_tag(1) == in_tag(34) {
            lemma_in_tag_injective(1, 34);
        }
    }
    let k = indexed_document_key(o[i].0);
    assert(!is_input_tag_in(k, count + 1, 32)) by {
        if is_input_tag_in(k, count + 1, 32) {
            let w: nat = choose|w: nat| count + 1 <= w <= 32 && k == #[trigger] in_tag(w);
            lemma_in_tag_number(w);
        }
    }
    assert(carry_tag() != offset_tag()) by {
        assert(carry_tag()[2] != offset_tag()[2]);
    }
    if i == o.len() - 1 {
        let d = indexed_document(o, count, variable);
        assert(d[d.len() - 1] == (k, o[i].1));
    } else {
        lemma_indexed_document_renames(o.drop_last(), count, variable, i);
        let d1 = indexed_document(o.drop_last(), count, variable);
        let j: int = choose|j: int| 0 <= j < d1.len() && #[trigger] d1[j] == (k, o[i].1);
        assert(indexed_document(o, count, variable)[j] == d1[j]);
    }
}

fn carry_name() -> (r: String)
    ensures
        r@ == carry_tag(),
{
    proof {
        reveal_strlit("inc");
    }
    let r = String::from_str("inc");
    assert(r@ =~= carry_tag());
    r
}

fn offset_name() -> (r: String)
    ensures
        r@ == offset_tag(),
{
    proof {
        reveal_strlit("inoff");
    }
    let r = String::from_str("inoff");
    assert(r@ =~= offset_tag());
    r
}

/// The number `n` in `lo..=hi` with `k == in<n>`, if any.
fn input_number_in(k: &str, lo: u32, hi: u32) -> (r: Option<u32>)
    requires
        hi < 100,
        lo <= hi + 1,
    ensures
        r is Some ==> lo <= r->0 <= hi && k@ == in_tag(r->0 as nat),
        r is None ==> !is_input_tag_in(k@, lo as nat, hi as nat),
{
    let mut n: u32 = lo;
    while n <= hi
        invariant
            hi < 100,
            lo <= n <= hi + 1,
            forall|m: nat| lo <= m < n ==> k@ != #[trigger] in_tag(m),
        decreases hi + 1 - n,
    {
        let t = input_tag(n);
        if str_eq(k, t.as_str()) {
            return Some(n);
        }
        n += 1;
    }
    None
}

/// The document key of a catalog key of the indexed kind.
pub fn document_key(k: &str) -> (r: String)
    ensures
        r@ == indexed_document_key(k@),
{
    match input_number_in(k, 1, 1) {
        Some(_) => {
            return carry_name();
        },
        None => {},
    }
    match input_number_in(k, 34, 34) {
        Some(_) => {
            proof {
                lemma_in_tag_number(1);
                if k@ == in_tag(1) {
                    assert(is_input_tag_in(k@, 1, 1));
                }
            }
            return offset_name();
        },
        None => {},
    }
    proof {
        if k@ == in_tag(1) {
            assert(is_input_tag_in(k@, 1, 1));
        }
        if k@ == in_tag(34) {
            assert(is_input_tag_in(k@, 34, 34));
        }
    }
    match input_number_in(k, 2, 33) {
        Some(n) => {
            proof {
                lemma_in_tag_number(n as nat);
            }
            input_tag(n - 1)
        },
        None => String::from_str(k),
    }
}

/// The catalog key of a document key of the indexed kind.
pub fn catalog_key(k: &str) -> (r: String)
    ensures
        r@ == indexed_catalog_key(k@),
{
    let carry = carry_name();
    if str_eq(k, carry.as_str()) {
        return input_tag(1);
    }
    let offset = offset_name();
    if str_eq(k, offset.as_str()) {
        return input_tag(34);
    }
    match input_number_in(k, 1, 32) {
        Some(n) => {
            proof {
                lemma_in_tag_number(n as nat);
            }
            input_tag(n + 1)
        },
        None => String::from_str(k),
    }
}

/// Whether the writer leaves out a document entry of the indexed kind.
pub fn is_dropped(k: &str, count: u8, variable: bool) -> (r: bool)
    ensures
        r == indexed_dropped(k@, count as nat, variable),
{
    let offset = offset_name();
    if str_eq(k, offset.as_str()) && !variable {
        return true;
    }
    if count >= 32 {
        proof {
            if is_input_tag_in(k@, count as nat + 1, 32) {
                let w: nat = choose|w: nat| count + 1 <= w <= 32 && k@ == #[trigger] in_tag(w);
            }
        }
        return false;
    }
    input_number_in(k, count as u32 + 1, 32).is_some()
}

/// Patches the catalog rendering of an indexed node into document shape,
/// for a node with `count` active channel inputs whose offset is variable
/// or not.
pub fn indexed_to_document(o: &mut AttrMap, count: u8, variable: bool)
    ensures
        final(o)@ == indexed_document(old(o)@, count as nat, variable),
{
    let mut rest = AttrMap::new();
    core::mem::swap(o, &mut rest);
    let ghost orig = rest@;
    let total = rest.len();
    let mut out = AttrMap::new();
    let mut done: usize = 0;
    while rest.len() > 0
        invariant
            orig.len() == total,
            done + rest@.len() == total,
            rest@ == orig.subrange(done as int, total as int),
            out@ == indexed_document(orig.subrange(0, done as int), count as nat, variable),
        decreases rest@.len(),
    {
        let (k, v) = rest.remove_at(0);
        let dk = document_key(k.as_str());
        let drop = is_dropped(dk.as_str(), count, variable);
        proof {
            let pre = orig.subrange(0, done as int + 1);
            assert(pre.drop_last() =~= orig.subrange(0, done as int));
            assert(pre.last() == orig[done as int]);
        }
        if !drop {
            out.push(dk, v);
        }
        done += 1;
        proof {
            assert(rest@ =~= orig.subrange(done as int, total as int));
        }
    }
    assert(orig.subrange(0, done as int) =~= orig);
    *o = out;
}

/// Undoes `indexed_to_document` (entries it left out are simply absent).
pub fn indexed_from_document(p: &mut AttrMap)
    ensures
        final(p)@ == indexed_catalog(old(p)@),
{
    let n = p.len();
    let mut i: usize = 0;
    while i < n
        invariant
            n == old(p)@.len(),
            n == p@.len(),
            i <= n,
            forall|j: int| 0 <= j < i ==> #[trigger] p@[j] == (indexed_catalog_key(old(p)@[j].0), old(p)@[j].1),
            forall|j: int| i <= j < n ==> #[trigger] p@[j] == old(p)@[j],
        decreases n - i,
    {
        let ck = catalog_key(p.entries[i].0.as_str());
        proof {
            lemma_entries_view(p.entries@);
        }
        p.rename_at(i, ck);
        i += 1;
    }
    assert(p@ =~= indexed_catalog(old(p)@));
}

} // verus!
