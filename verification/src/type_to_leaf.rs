//! Canonical flattening of a typed value tree into a leaf tree, the shape
//! every codec consumes.
//!
//! A typed value node becomes a two-element list: the sixteen little-endian
//! byte leaves of its 128-bit type id, then its content. A leaf's content
//! lists its payload bytes, one leaf each; a struct's content holds a single
//! child, the map marker list of its entries, so an empty leaf (an empty
//! content list) stays distinct from an empty struct (a content list with
//! one empty list inside). Each map entry is again a two-element list: the
//! sixteen byte leaves of the field id, then the flattened children.
//!
//! The flattening is reversible: `unflatten` recovers the typed value tree
//! exactly, entries in the order they were stored.

use vstd::bytes::lemma_auto_spec_u128_to_from_le_bytes;
use vstd::bytes::spec_u128_from_le_bytes;
use vstd::bytes::spec_u128_to_le_bytes;
use vstd::bytes::u128_to_le_bytes;
use vstd::prelude::*;

use crate::leaf_tree;
use crate::leaf_tree::lemma_seq_view;
use crate::leaf_tree::seq_view;
use crate::leaf_tree::Tree;
use crate::typed_value_tree::fields_view;
use crate::typed_value_tree::lemma_fields_view;
use crate::typed_value_tree::lemma_typed_seq_view;
use crate::typed_value_tree::typed_seq_view;
use crate::typed_value_tree::Concrete;
use crate::typed_value_tree::StructOrValue;
use crate::typed_value_tree::TypedTree;

verus! {

broadcast use vstd::std_specs::vec::group_vec_axioms;

/// One byte leaf per byte, in order.
pub open spec fn byte_leaves(bs: Seq<u8>) -> Seq<Tree> {
    bs.map_values(|b: u8| Tree::Value(b))
}

/// The sixteen byte leaves of a 128-bit id, little-endian.
pub open spec fn id_leaves(id: u128) -> Seq<Tree> {
    byte_leaves(spec_u128_to_le_bytes(id))
}

/// The canonical leaf tree standing for a typed value tree.
pub open spec fn flatten(t: TypedTree) -> Tree
    decreases t,
{
    match t {
        TypedTree::Leaf(id, bytes) => Tree::List(
            seq![Tree::List(id_leaves(id)), Tree::List(byte_leaves(bytes))],
        ),
        TypedTree::Struct(id, fields) => Tree::List(
            seq![
                Tree::List(id_leaves(id)),
                Tree::List(seq![Tree::List(flatten_entries(fields))]),
            ],
        ),
    }
}

/// The flattened map entries, in stored order.
pub open spec fn flatten_entries(fs: Seq<(u128, Seq<TypedTree>)>) -> Seq<Tree>
    decreases fs,
{
    if fs.len() == 0 {
        Seq::empty()
    } else {
        seq![flatten_entry(fs.first())] + flatten_entries(fs.drop_first())
    }
}

/// One flattened map entry: the field id's byte leaves, then the children.
pub open spec fn flatten_entry(e: (u128, Seq<TypedTree>)) -> Tree
    decreases e,
{
    Tree::List(seq![Tree::List(id_leaves(e.0)), Tree::List(flatten_children(e.1))])
}

/// The flattened children of one entry, in order.
pub open spec fn flatten_children(cs: Seq<TypedTree>) -> Seq<Tree>
    decreases cs,
{
    if cs.len() == 0 {
        Seq::empty()
    } else {
        seq![flatten(cs.first())] + flatten_children(cs.drop_first())
    }
}

/// The bytes carried by a run of byte leaves; `None` if any element is not
/// a byte leaf.
pub open spec fn leaves_bytes(ts: Seq<Tree>) -> Option<Seq<u8>>
    decreases ts,
{
    if ts.len() == 0 {
        Some(Seq::empty())
    } else {
        match ts.first() {
            Tree::Value(b) => match leaves_bytes(ts.drop_first()) {
                Some(bs) => Some(seq![b] + bs),
                None => None,
            },
            Tree::List(_) => None,
        }
    }
}

/// Re-interpret a canonical leaf tree as the typed value tree it stands
/// for, or `None` where the shape is not the adapter's.
pub open spec fn unflatten(t: Tree) -> Option<TypedTree>
    decreases t,
{
    match t {
        Tree::Value(_) => None,
        Tree::List(parts) => if parts.len() == 2 {
            match parts[0] {
                Tree::List(idl) => match parts[1] {
                    Tree::List(content) => match leaves_bytes(idl) {
                        Some(idb) => if idb.len() == 16 {
                            let id = spec_u128_from_le_bytes(idb);
                            if content.len() == 1 && content[0] matches Tree::List(_) {
                                match content[0] {
                                    Tree::List(entries) => match unflatten_entries(entries) {
                                        Some(fs) => Some(TypedTree::Struct(id, fs)),
                                        None => None,
                                    },
                                    Tree::Value(_) => None,
                                }
                            } else {
                                match leaves_bytes(content) {
                                    Some(bs) => Some(TypedTree::Leaf(id, bs)),
                                    None => None,
                                }
                            }
                        } else {
                            None
                        },
                        None => None,
                    },
                    Tree::Value(_) => None,
                },
                Tree::Value(_) => None,
            }
        } else {
            None
        },
    }
}

/// Re-interpret a run of flattened map entries.
pub open spec fn unflatten_entries(es: Seq<Tree>) -> Option<Seq<(u128, Seq<TypedTree>)>>
    decreases es,
{
    if es.len() == 0 {
        Some(Seq::empty())
    } else {
        match unflatten_entry(es.first()) {
            Some(e) => match unflatten_entries(es.drop_first()) {
                Some(fs) => Some(seq![e] + fs),
                None => None,
            },
            None => None,
        }
    }
}

/// Re-interpret one flattened map entry.
pub open spec fn unflatten_entry(t: Tree) -> Option<(u128, Seq<TypedTree>)>
    decreases t,
{
    match t {
        Tree::Value(_) => None,
        Tree::List(parts) => if parts.len() == 2 {
            match parts[0] {
                Tree::List(idl) => match parts[1] {
                    Tree::List(children) => match leaves_bytes(idl) {
                        Some(idb) => if idb.len() == 16 {
                            match unflatten_children(children) {
                                Some(cs) => Some((spec_u128_from_le_bytes(idb), cs)),
                                None => None,
                            }
                        } else {
                            None
                        },
                        None => None,
                    },
                    Tree::Value(_) => None,
                },
                Tree::Value(_) => None,
            }
        } else {
            None
        },
    }
}

/// Re-interpret a run of flattened children.
pub open spec fn unflatten_children(ts: Seq<Tree>) -> Option<Seq<TypedTree>>
    decreases ts,
{
    if ts.len() == 0 {
        Some(Seq::empty())
    } else {
        match unflatten(ts.first()) {
            Some(c) => match unflatten_children(ts.drop_first()) {
                Some(cs) => Some(seq![c] + cs),
                None => None,
            },
            None => None,
        }
    }
}

/// Byte leaves carry their bytes back out.
proof fn lemma_leaves_bytes_round_trip(bs: Seq<u8>)
    ensures
        leaves_bytes(byte_leaves(bs)) == Some(bs),
    decreases bs,
{
    if bs.len() > 0 {
        assert(byte_leaves(bs).first() == Tree::Value(bs.first()));
        assert(byte_leaves(bs).drop_first() =~= byte_leaves(bs.drop_first()));
        lemma_leaves_bytes_round_trip(bs.drop_first());
        assert(seq![bs.first()] + bs.drop_first() =~= bs);
    }
}

/// Adapter fidelity for one node: re-interpreting the flattening recovers
/// the typed value tree exactly.
pub proof fn lemma_flatten_round_trip(u: TypedTree)
    ensures
        unflatten(flatten(u)) == Some(u),
    decreases u,
{
    lemma_auto_spec_u128_to_from_le_bytes();
    match u {
        TypedTree::Leaf(id, bytes) => {
            lemma_leaves_bytes_round_trip(spec_u128_to_le_bytes(id));
            lemma_leaves_bytes_round_trip(bytes);
            let content = byte_leaves(bytes);
            if content.len() == 1 {
                assert(content[0] == Tree::Value(bytes[0]));
            }
        },
        TypedTree::Struct(id, fields) => {
            lemma_leaves_bytes_round_trip(spec_u128_to_le_bytes(id));
            lemma_flatten_entries_round_trip(fields);
        },
    }
}

/// Adapter fidelity for a run of map entries.
proof fn lemma_flatten_entries_round_trip(fs: Seq<(u128, Seq<TypedTree>)>)
    ensures
        unflatten_entries(flatten_entries(fs)) == Some(fs),
    decreases fs,
{
    if fs.len() > 0 {
        let es = flatten_entries(fs);
        assert(es.first() == flatten_entry(fs.first()));
        assert(es.drop_first() =~= flatten_entries(fs.drop_first()));
        lemma_flatten_entry_round_trip(fs.first());
        lemma_flatten_entries_round_trip(fs.drop_first());
        assert(seq![fs.first()] + fs.drop_first() =~= fs);
    }
}

/// Adapter fidelity for one map entry.
proof fn lemma_flatten_entry_round_trip(e: (u128, Seq<TypedTree>))
    ensures
        unflatten_entry(flatten_entry(e)) == Some(e),
    decreases e,
{
    lemma_auto_spec_u128_to_from_le_bytes();
    lemma_leaves_bytes_round_trip(spec_u128_to_le_bytes(e.0));
    lemma_flatten_children_round_trip(e.1);
}

/// Adapter fidelity for a run of children.
proof fn lemma_flatten_children_round_trip(cs: Seq<TypedTree>)
    ensures
        unflatten_children(flatten_children(cs)) == Some(cs),
    decreases cs,
{
    if cs.len() > 0 {
        let ts = flatten_children(cs);
        assert(ts.first() == flatten(cs.first()));
        assert(ts.drop_first() =~= flatten_children(cs.drop_first()));
        lemma_flatten_round_trip(cs.first());
        lemma_flatten_children_round_trip(cs.drop_first());
        assert(seq![cs.first()] + cs.drop_first() =~= cs);
    }
}

/// Adapter fidelity through the codecs: the flattened tree survives every
/// codec's round trip unchanged, and re-interpreting it recovers the typed
/// value tree exactly.
pub proof fn lemma_adapter_fidelity(u: TypedTree)
    requires
        leaf_tree::length_fits(flatten(u)),
    ensures
        ({
            let f = flatten(u);
            &&& crate::basic_encoding::basic_decode(crate::basic_encoding::basic_encode(f))
                == Some(f)
            &&& crate::prefix_encoding::prefix_decode(crate::prefix_encoding::prefix_encode(f))
                == Some(f)
            &&& crate::prefix_encoding::compressed_decode(
                crate::prefix_encoding::compressed_encode(f),
            ) == Some(f)
            &&& unflatten(f) == Some(u)
        }),
{
    let f = flatten(u);
    crate::basic_encoding::lemma_basic_round_trip(f);
    crate::prefix_encoding::lemma_prefix_round_trip(f);
    crate::prefix_encoding::lemma_compressed_round_trip(f);
    lemma_flatten_round_trip(u);
}

/// Appending one more entry extends the flattened run by its flattening.
proof fn lemma_flatten_entries_snoc(fs: Seq<(u128, Seq<TypedTree>)>, e: (u128, Seq<TypedTree>))
    ensures
        flatten_entries(fs.push(e)) == flatten_entries(fs) + seq![flatten_entry(e)],
    decreases fs,
{
    reveal_with_fuel(flatten_entries, 3);
    if fs.len() == 0 {
        assert(fs.push(e).drop_first() =~= Seq::<(u128, Seq<TypedTree>)>::empty());
        assert(fs.push(e).first() == e);
        assert(flatten_entries(fs.push(e)) =~= flatten_entries(fs) + seq![flatten_entry(e)]);
    } else {
        assert(fs.push(e).first() == fs.first());
        assert(fs.push(e).drop_first() =~= fs.drop_first().push(e));
        lemma_flatten_entries_snoc(fs.drop_first(), e);
        assert(flatten_entries(fs.push(e)) =~= flatten_entries(fs) + seq![flatten_entry(e)]);
    }
}

/// Appending one more child extends the flattened run by its flattening.
proof fn lemma_flatten_children_snoc(cs: Seq<TypedTree>, c: TypedTree)
    ensures
        flatten_children(cs.push(c)) == flatten_children(cs) + seq![flatten(c)],
    decreases cs,
{
    reveal_with_fuel(flatten_children, 3);
    if cs.len() == 0 {
        assert(cs.push(c).drop_first() =~= Seq::<TypedTree>::empty());
        assert(cs.push(c).first() == c);
        assert(flatten_children(cs.push(c)) =~= flatten_children(cs) + seq![flatten(c)]);
    } else {
        assert(cs.push(c).first() == cs.first());
        assert(cs.push(c).drop_first() =~= cs.drop_first().push(c));
        lemma_flatten_children_snoc(cs.drop_first(), c);
        assert(flatten_children(cs.push(c)) =~= flatten_children(cs) + seq![flatten(c)]);
    }
}

/// The sixteen byte leaves of a 128-bit id, as a concrete list node.
#[verifier::loop_isolation(false)]
fn id_leaves_concrete(id: u128) -> (r: leaf_tree::Concrete)
    ensures
        r@ == Tree::List(id_leaves(id)),
{
    let bytes = u128_to_le_bytes(id);
    let mut out: Vec<leaf_tree::Concrete> = Vec::new();
    let mut i: usize = 0;
    while i < bytes.len()
        invariant
            i <= bytes@.len(),
            bytes@ == spec_u128_to_le_bytes(id),
            seq_view(out@) == byte_leaves(bytes@.take(i as int)),
        decreases bytes@.len() - i,
    {
        let ghost old_out = out@;
        out.push(leaf_tree::Concrete::Value(bytes[i]));
        proof {
            assert(out@ =~= old_out.push(leaf_tree::Concrete::Value(bytes@[i as int])));
            assert(out@.drop_last() =~= old_out);
            assert(out@.last() == leaf_tree::Concrete::Value(bytes@[i as int]));
            assert(out@.last()@ == Tree::Value(bytes@[i as int]));
            assert(seq_view(out@) == seq_view(out@.drop_last()).push(out@.last()@));
            assert(seq_view(out@) =~= seq_view(old_out).push(Tree::Value(bytes@[i as int])));
            assert(seq_view(out@) =~= byte_leaves(bytes@.take(i + 1)));
        }
        i += 1;
    }
    proof {
        assert(bytes@.take(bytes@.len() as int) =~= bytes@);
    }
    leaf_tree::Concrete::List(out)
}

/// Flatten one in-memory typed value tree node into an in-memory leaf tree.
#[verifier::loop_isolation(false)]
fn flatten_node(t: &Concrete) -> (r: leaf_tree::Concrete)
    ensures
        r@ == flatten(t@),
    decreases t,
{
    let id_part = id_leaves_concrete(t.type_id);
    match &t.content {
        StructOrValue::Value(bytes) => {
            let mut content: Vec<leaf_tree::Concrete> = Vec::new();
            let mut i: usize = 0;
            while i < bytes.len()
                invariant
                    i <= bytes@.len(),
                    seq_view(content@) == byte_leaves(bytes@.take(i as int)),
                decreases bytes@.len() - i,
            {
                let ghost old_c = content@;
                content.push(leaf_tree::Concrete::Value(bytes[i]));
                proof {
                    assert(content@ =~= old_c.push(leaf_tree::Concrete::Value(bytes@[i as int])));
                    assert(content@.drop_last() =~= old_c);
                    assert(content@.last() == leaf_tree::Concrete::Value(bytes@[i as int]));
                    assert(content@.last()@ == Tree::Value(bytes@[i as int]));
                    assert(seq_view(content@) == seq_view(content@.drop_last()).push(
                        content@.last()@,
                    ));
                    assert(seq_view(content@) =~= seq_view(old_c).push(
                        Tree::Value(bytes@[i as int]),
                    ));
                    assert(seq_view(content@) =~= byte_leaves(bytes@.take(i + 1)));
                }
                i += 1;
            }
            proof {
                assert(bytes@.take(bytes@.len() as int) =~= bytes@);
            }
            let mut parts: Vec<leaf_tree::Concrete> = Vec::new();
            parts.push(id_part);
            parts.push(leaf_tree::Concrete::List(content));
            proof {
                lemma_seq_view(parts@);
                assert(parts@.len() == 2);
                assert(parts@[0]@ == Tree::List(id_leaves(t.type_id)));
                assert(parts@[1]@ == Tree::List(byte_leaves(bytes@)));
                assert(seq_view(parts@) =~= seq![
                    Tree::List(id_leaves(t.type_id)),
                    Tree::List(byte_leaves(bytes@)),
                ]);
            }
            leaf_tree::Concrete::List(parts)
        },
        StructOrValue::Struct(fs) => {
            proof {
                lemma_fields_view(fs@);
            }
            let ghost fsv = fields_view(fs@);
            let mut entries: Vec<leaf_tree::Concrete> = Vec::new();
            let mut i: usize = 0;
            while i < fs.len()
                invariant
                    i <= fs@.len(),
                    fsv == fields_view(fs@),
                    fsv.len() == fs@.len(),
                    seq_view(entries@) == flatten_entries(fsv.take(i as int)),
                decreases fs@.len() - i,
            {
                let entry = &fs[i];
                proof {
                    lemma_typed_seq_view(entry.children@);
                }
                let name_part = id_leaves_concrete(entry.name);
                let mut children: Vec<leaf_tree::Concrete> = Vec::new();
                let ghost cv = typed_seq_view(entry.children@);
                let mut k: usize = 0;
                while k < entry.children.len()
                    invariant
                        k <= entry.children@.len(),
                        cv == typed_seq_view(entry.children@),
                        cv.len() == entry.children@.len(),
                        seq_view(children@) == flatten_children(cv.take(k as int)),
                    decreases entry.children@.len() - k,
                {
                    proof {
                        assert(decreases_to!(*t => t.content));
                        assert(t.content == StructOrValue::Struct(*fs));
                        assert(decreases_to!(t.content => t.content->Struct_0));
                        assert(decreases_to!(*fs => fs@));
                        assert(decreases_to!(fs@ => fs@[i as int]));
                        assert(fs@[i as int] == *entry);
                        assert(decreases_to!(*entry => entry.children));
                        assert(decreases_to!(entry.children => entry.children@));
                        assert(decreases_to!(entry.children@ => entry.children@[k as int]));
                    }
                    let c = flatten_node(&entry.children[k]);
                    let ghost old_ch = children@;
                    children.push(c);
                    proof {
                        assert(children@.drop_last() =~= old_ch);
                        assert(children@.last() == c);
                        assert(c@ == flatten(entry.children@[k as int]@));
                        assert(seq_view(children@) =~= seq_view(old_ch).push(
                            flatten(entry.children@[k as int]@),
                        ));
                        lemma_flatten_children_snoc(cv.take(k as int), cv[k as int]);
                        assert(cv.take(k + 1) =~= cv.take(k as int).push(cv[k as int]));
                        assert(seq_view(children@) =~= flatten_children(cv.take(k + 1)));
                    }
                    k += 1;
                }
                proof {
                    assert(cv.take(entry.children@.len() as int) =~= cv);
                }
                let mut entry_parts: Vec<leaf_tree::Concrete> = Vec::new();
                entry_parts.push(name_part);
                entry_parts.push(leaf_tree::Concrete::List(children));
                proof {
                    lemma_seq_view(entry_parts@);
                    assert(entry_parts@.len() == 2);
                    assert(entry_parts@[0]@ == Tree::List(id_leaves(entry.name)));
                    assert(entry_parts@[1]@ == Tree::List(flatten_children(cv)));
                    assert(seq_view(entry_parts@) =~= seq![
                        Tree::List(id_leaves(entry.name)),
                        Tree::List(flatten_children(cv)),
                    ]);
                    assert(fsv[i as int] == (entry.name, cv));
                    assert(leaf_tree::Concrete::List(entry_parts)@ == flatten_entry(
                        fsv[i as int],
                    ));
                }
                let ghost old_e = entries@;
                entries.push(leaf_tree::Concrete::List(entry_parts));
                proof {
                    assert(entries@.drop_last() =~= old_e);
                    assert(entries@.last()@ == flatten_entry(fsv[i as int]));
                    assert(seq_view(entries@) =~= seq_view(old_e).push(
                        flatten_entry(fsv[i as int]),
                    ));
                    lemma_flatten_entries_snoc(fsv.take(i as int), fsv[i as int]);
                    assert(fsv.take(i + 1) =~= fsv.take(i as int).push(fsv[i as int]));
                    assert(seq_view(entries@) =~= flatten_entries(fsv.take(i + 1)));
                }
                i += 1;
            }
            proof {
                assert(fsv.take(fs@.len() as int) =~= fsv);
            }
            let mut marker: Vec<leaf_tree::Concrete> = Vec::new();
            marker.push(leaf_tree::Concrete::List(entries));
            let mut parts: Vec<leaf_tree::Concrete> = Vec::new();
            parts.push(id_part);
            parts.push(leaf_tree::Concrete::List(marker));
            proof {
                lemma_seq_view(marker@);
                assert(marker@.len() == 1);
                assert(marker@[0]@ == Tree::List(flatten_entries(fsv)));
                assert(seq_view(marker@) =~= seq![Tree::List(flatten_entries(fsv))]);
                lemma_seq_view(parts@);
                assert(parts@.len() == 2);
                assert(parts@[0]@ == Tree::List(id_leaves(t.type_id)));
                assert(parts@[1]@ == Tree::List(seq![Tree::List(flatten_entries(fsv))]));
                assert(seq_view(parts@) =~= seq![
                    Tree::List(id_leaves(t.type_id)),
                    Tree::List(seq![Tree::List(flatten_entries(fsv))]),
                ]);
            }
            leaf_tree::Concrete::List(parts)
        },
    }
}

/// Collect the bytes of a run of byte leaves, mirroring `leaves_bytes`.
#[verifier::loop_isolation(false)]
fn leaves_to_bytes(list: &Vec<leaf_tree::Concrete>) -> (r: Option<Vec<u8>>)
    ensures
        match r {
            Some(bs) => leaves_bytes(seq_view(list@)) == Some(bs@),
            None => leaves_bytes(seq_view(list@)) is None,
        },
{
    proof {
        lemma_seq_view(list@);
    }
    let ghost sv = seq_view(list@);
    let mut out: Vec<u8> = Vec::new();
    let mut i: usize = 0;
    proof {
        assert(sv.skip(0) =~= sv);
        assert(out@ + Seq::<u8>::empty() =~= out@);
        match leaves_bytes(sv) {
            Some(bs0) => {
                assert(out@ + bs0 =~= bs0);
            },
            None => {},
        }
    }
    while i < list.len()
        invariant
            i <= list@.len(),
            sv == seq_view(list@),
            sv.len() == list@.len(),
            match leaves_bytes(sv.skip(i as int)) {
                Some(bs) => leaves_bytes(sv) == Some(out@ + bs),
                None => leaves_bytes(sv) is None,
            },
        decreases list@.len() - i,
    {
        proof {
            assert(sv.skip(i as int).first() == sv[i as int]);
            assert(sv[i as int] == list@[i as int]@);
            assert(sv.skip(i as int).drop_first() =~= sv.skip(i + 1));
        }
        match &list[i] {
            leaf_tree::Concrete::Value(b) => {
                let ghost old_out = out@;
                out.push(*b);
                proof {
                    assert forall|bs2: Seq<u8>|
                        true implies old_out + (seq![*b] + bs2) =~= out@ + bs2 by {}
                }
                i += 1;
            },
            leaf_tree::Concrete::List(_) => {
                proof {
                    assert(leaves_bytes(sv.skip(i as int)) is None);
                }
                return None;
            },
        }
    }
    proof {
        assert(sv.skip(sv.len() as int) =~= Seq::<Tree>::empty());
        assert(out@ + Seq::<u8>::empty() =~= out@);
    }
    Some(out)
}

/// Re-interpret one flattened map entry, mirroring `unflatten_entry`.
#[verifier::loop_isolation(false)]
fn unflatten_entry_concrete(t: &leaf_tree::Concrete) -> (r: Option<crate::typed_value_tree::Field>)
    ensures
        match r {
            Some(f) => unflatten_entry(t@) == Some((f.name, typed_seq_view(f.children@))),
            None => unflatten_entry(t@) is None,
        },
    decreases t,
{
    match t {
        leaf_tree::Concrete::Value(_) => None,
        leaf_tree::Concrete::List(parts) => {
            proof {
                lemma_seq_view(parts@);
            }
            if parts.len() != 2 {
                return None;
            }
            match &parts[0] {
                leaf_tree::Concrete::Value(_) => {
                    proof {
                        assert(seq_view(parts@)[0] == parts@[0]@);
                    }
                    None
                },
                leaf_tree::Concrete::List(idl) => {
                    proof {
                        assert(parts@[0] == leaf_tree::Concrete::List(*idl));
                        assert(seq_view(parts@)[0] == parts@[0]@);
                    }
                    match &parts[1] {
                        leaf_tree::Concrete::Value(_) => {
                            proof {
                                assert(seq_view(parts@)[1] == parts@[1]@);
                            }
                            None
                        },
                        leaf_tree::Concrete::List(children) => {
                            proof {
                                assert(parts@[1] == leaf_tree::Concrete::List(*children));
                                assert(seq_view(parts@)[1] == parts@[1]@);
                            }
                            let idb = match leaves_to_bytes(idl) {
                                Some(idb) => idb,
                                None => {
                                    return None;
                                },
                            };
                            if idb.len() != 16 {
                                return None;
                            }
                            let name = vstd::bytes::u128_from_le_bytes(idb.as_slice());
                            proof {
                                lemma_seq_view(children@);
                            }
                            let ghost cv = seq_view(children@);
                            let mut out: Vec<Concrete> = Vec::new();
                            let mut k: usize = 0;
                            proof {
                                assert(cv.skip(0) =~= cv);
                                assert(typed_seq_view(out@) =~= Seq::<TypedTree>::empty());
                                match unflatten_children(cv) {
                                    Some(cs2) => {
                                        assert(typed_seq_view(out@) + cs2 =~= cs2);
                                    },
                                    None => {},
                                }
                            }
                            while k < children.len()
                                invariant
                                    k <= children@.len(),
                                    cv == seq_view(children@),
                                    cv.len() == children@.len(),
                                    typed_seq_view(out@).len() == out@.len(),
                                    match unflatten_children(cv.skip(k as int)) {
                                        Some(cs2) => unflatten_children(cv) == Some(
                                            typed_seq_view(out@) + cs2,
                                        ),
                                        None => unflatten_children(cv) is None,
                                    },
                                decreases children@.len() - k,
                            {
                                proof {
                                    assert(cv.skip(k as int).first() == cv[k as int]);
                                    assert(cv[k as int] == children@[k as int]@);
                                    assert(cv.skip(k as int).drop_first() =~= cv.skip(k + 1));
                                    assert(*t == leaf_tree::Concrete::List(*parts));
                                    assert(decreases_to!(*t => t->List_0));
                                    assert(decreases_to!(*parts => parts@));
                                    assert(decreases_to!(parts@ => parts@[1]));
                                    assert(decreases_to!(parts@[1] => parts@[1]->List_0));
                                    assert(decreases_to!(*children => children@));
                                    assert(decreases_to!(children@ => children@[k as int]));
                                }
                                match unflatten_concrete(&children[k]) {
                                    Some(c) => {
                                        let ghost old_out = out@;
                                        let ghost cview = c@;
                                        out.push(c);
                                        proof {
                                            assert(out@.drop_last() =~= old_out);
                                            assert(out@.last()@ == cview);
                                            assert(typed_seq_view(out@) == typed_seq_view(
                                                out@.drop_last(),
                                            ).push(out@.last()@));
                                            assert forall|cs2: Seq<TypedTree>|
                                                true implies typed_seq_view(old_out) + (
                                            seq![cview] + cs2) =~= typed_seq_view(out@)
                                                + cs2 by {}
                                        }
                                        k += 1;
                                    },
                                    None => {
                                        proof {
                                            assert(unflatten_children(
                                                cv.skip(k as int),
                                            ) is None);
                                        }
                                        return None;
                                    },
                                }
                            }
                            proof {
                                assert(cv.skip(cv.len() as int) =~= Seq::<Tree>::empty());
                                assert(typed_seq_view(out@) + Seq::<TypedTree>::empty()
                                    =~= typed_seq_view(out@));
                            }
                            Some(crate::typed_value_tree::Field { name, children: out })
                        },
                    }
                },
            }
        },
    }
}

/// Re-interpret a canonical leaf tree as the in-memory typed value tree it
/// stands for, mirroring `unflatten`: the reverse of the adapter.
#[verifier::loop_isolation(false)]
pub fn unflatten_concrete(t: &leaf_tree::Concrete) -> (r: Option<Concrete>)
    ensures
        match r {
            Some(u) => unflatten(t@) == Some(u@),
            None => unflatten(t@) is None,
        },
    decreases t,
{
    match t {
        leaf_tree::Concrete::Value(_) => None,
        leaf_tree::Concrete::List(parts) => {
            proof {
                lemma_seq_view(parts@);
            }
            if parts.len() != 2 {
                return None;
            }
            match &parts[0] {
                leaf_tree::Concrete::Value(_) => {
                    proof {
                        assert(seq_view(parts@)[0] == parts@[0]@);
                    }
                    None
                },
                leaf_tree::Concrete::List(idl) => {
                    proof {
                        assert(parts@[0] == leaf_tree::Concrete::List(*idl));
                        assert(seq_view(parts@)[0] == parts@[0]@);
                    }
                    match &parts[1] {
                        leaf_tree::Concrete::Value(_) => {
                            proof {
                                assert(seq_view(parts@)[1] == parts@[1]@);
                            }
                            None
                        },
                        leaf_tree::Concrete::List(content) => {
                            proof {
                                assert(parts@[1] == leaf_tree::Concrete::List(*content));
                                assert(seq_view(parts@)[1] == parts@[1]@);
                            }
                            let idb = match leaves_to_bytes(idl) {
                                Some(idb) => idb,
                                None => {
                                    return None;
                                },
                            };
                            if idb.len() != 16 {
                                return None;
                            }
                            let id = vstd::bytes::u128_from_le_bytes(idb.as_slice());
                            proof {
                                lemma_seq_view(content@);
                            }
                            if content.len() == 1 {
                                match &content[0] {
                                    leaf_tree::Concrete::List(entries) => {
                                        proof {
                                            assert(content@[0] == leaf_tree::Concrete::List(
                                                *entries,
                                            ));
                                            assert(seq_view(content@)[0] == content@[0]@);
                                            lemma_seq_view(entries@);
                                        }
                                        let ghost ev = seq_view(entries@);
                                        let mut fields: Vec<crate::typed_value_tree::Field> =
                                            Vec::new();
                                        let mut i: usize = 0;
                                        proof {
                                            assert(ev.skip(0) =~= ev);
                                            assert(fields_view(fields@) =~= Seq::<
                                                (u128, Seq<TypedTree>),
                                            >::empty());
                                            match unflatten_entries(ev) {
                                                Some(fs2) => {
                                                    assert(fields_view(fields@) + fs2 =~= fs2);
                                                },
                                                None => {},
                                            }
                                        }
                                        while i < entries.len()
                                            invariant
                                                i <= entries@.len(),
                                                ev == seq_view(entries@),
                                                ev.len() == entries@.len(),
                                                fields_view(fields@).len() == fields@.len(),
                                                match unflatten_entries(ev.skip(i as int)) {
                                                    Some(fs2) => unflatten_entries(ev) == Some(
                                                        fields_view(fields@) + fs2,
                                                    ),
                                                    None => unflatten_entries(ev) is None,
                                                },
                                            decreases entries@.len() - i,
                                        {
                                            proof {
                                                assert(ev.skip(i as int).first() == ev[i as int]);
                                                assert(ev[i as int] == entries@[i as int]@);
                                                assert(ev.skip(i as int).drop_first() =~= ev.skip(
                                                    i + 1,
                                                ));
                                                assert(*t == leaf_tree::Concrete::List(*parts));
                                                assert(decreases_to!(*t => t->List_0));
                                                assert(decreases_to!(*parts => parts@));
                                                assert(decreases_to!(parts@ => parts@[1]));
                                                assert(decreases_to!(parts@[1] => parts@[1]->List_0));
                                                assert(decreases_to!(*content => content@));
                                                assert(decreases_to!(content@ => content@[0]));
                                                assert(decreases_to!(content@[0] => content@[0]->List_0));
                                                assert(decreases_to!(*entries => entries@));
                                                assert(decreases_to!(entries@ => entries@[i as int]));
                                            }
                                            match unflatten_entry_concrete(&entries[i]) {
                                                Some(f) => {
                                                    let ghost old_fields = fields@;
                                                    let ghost fv = (
                                                        f.name,
                                                        typed_seq_view(f.children@),
                                                    );
                                                    fields.push(f);
                                                    proof {
                                                        assert(fields@.drop_last() =~= old_fields);
                                                        assert(fields_view(fields@)
                                                            == fields_view(
                                                            fields@.drop_last(),
                                                        ).push(
                                                            (
                                                                fields@.last().name,
                                                                typed_seq_view(
                                                                    fields@.last().children@,
                                                                ),
                                                            ),
                                                        ));
                                                        assert forall|fs2: Seq<
                                                            (u128, Seq<TypedTree>),
                                                        >|
                                                            true implies fields_view(old_fields)
                                                            + (seq![fv] + fs2) =~= fields_view(
                                                            fields@,
                                                        ) + fs2 by {}
                                                    }
                                                    i += 1;
                                                },
                                                None => {
                                                    proof {
                                                        assert(unflatten_entries(
                                                            ev.skip(i as int),
                                                        ) is None);
                                                    }
                                                    return None;
                                                },
                                            }
                                        }
                                        proof {
                                            assert(ev.skip(ev.len() as int) =~= Seq::<
                                                Tree,
                                            >::empty());
                                            assert(fields_view(fields@) + Seq::<
                                                (u128, Seq<TypedTree>),
                                            >::empty() =~= fields_view(fields@));
                                        }
                                        return Some(
                                            Concrete {
                                                type_id: id,
                                                content: StructOrValue::Struct(fields),
                                            },
                                        );
                                    },
                                    leaf_tree::Concrete::Value(_) => {
                                        proof {
                                            assert(seq_view(content@)[0] == content@[0]@);
                                        }
                                    },
                                }
                            }
                            match leaves_to_bytes(content) {
                                Some(bs) => Some(
                                    Concrete { type_id: id, content: StructOrValue::Value(bs) },
                                ),
                                None => None,
                            }
                        },
                    }
                },
            }
        },
    }
}

/// Lifts a typed value tree to its canonical leaf tree form.
pub struct TypeViewer<'a>(pub &'a Concrete);

impl<'a> TypeViewer<'a> {
    /// Materialize the canonical leaf tree of the wrapped typed value tree.
    pub fn to_concrete(&self) -> (r: leaf_tree::Concrete)
        ensures
            r@ == flatten(self.0@),
    {
        flatten_node(self.0)
    }
}

} // verus!
