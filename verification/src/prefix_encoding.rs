//! Length-prefixed leaf tree codecs.
//!
//! Each node is written as a marker, then its data: a value as a value marker
//! and the byte; a list as a count followed by its child encodings. A list of
//! up to 127 children must use the compact one-byte inline marker; longer
//! lists use the long form with an eight-byte little-endian count.
//!
//! `PrefixCompressedEncoding` extends this with a dictionary of previously
//! seen list subtrees: a repeated list is replaced by a back-reference (a
//! template-use marker and a little-endian index), and encoder and decoder
//! grow their dictionaries in lock-step, inserting each list after its
//! children, once per distinct subtree, so indices on both sides agree.
//!
//! As in the basic codec, an empty root list encodes to the empty byte
//! sequence and the empty byte sequence decodes to an empty list.

use vstd::bytes::lemma_auto_spec_u32_to_from_le_bytes;
use vstd::bytes::lemma_auto_spec_u64_to_from_le_bytes;
use vstd::bytes::spec_u32_from_le_bytes;
use vstd::bytes::spec_u32_to_le_bytes;
use vstd::bytes::spec_u64_from_le_bytes;
use vstd::bytes::spec_u64_to_le_bytes;
use vstd::bytes::u32_from_le_bytes;
use vstd::bytes::u32_to_le_bytes;
use vstd::bytes::u64_from_le_bytes;
use vstd::bytes::u64_to_le_bytes;
use vstd::prelude::*;

use crate::encoding::Decoder;
use crate::encoding::Encoder;
use crate::encoding::FormatError;
use crate::leaf_tree::length_fits;
use crate::leaf_tree::length_fits_seq;
use crate::leaf_tree::lemma_seq_view;
use crate::leaf_tree::seq_view;
use crate::leaf_tree::view_to_concrete;
use crate::leaf_tree::Concrete;
use crate::leaf_tree::Tree;

verus! {

broadcast use vstd::std_specs::vec::group_vec_axioms;

pub struct PrefixEncoding;

pub struct PrefixCompressedEncoding;

/// List with its length in the following eight bytes, little-endian.
pub const LIST_MARKER: u8 = 0;

/// Value; the byte itself follows.
pub const VALUE_MARKER: u8 = 1;

/// Back-reference into the dictionary; a four-byte little-endian index
/// follows. Used only by the compressed codec.
pub const TEMPLATE_USE_MARKER: u8 = 4;

/// Markers from this one upward stand for a list whose length is the marker
/// minus this constant.
pub const INLINE_LIST_MIN: u8 = 128;

/// The marker bytes that open a list of `n` children: one byte carrying the
/// length inline where it fits (`n <= 127`), the long form otherwise.
pub open spec fn list_marker_bytes(n: nat) -> Seq<u8> {
    if n <= 127 {
        seq![(INLINE_LIST_MIN + n) as u8]
    } else {
        seq![LIST_MARKER] + spec_u64_to_le_bytes(n as u64)
    }
}

/// The prefix encoding of one node.
pub open spec fn prefix_node(t: Tree) -> Seq<u8>
    decreases t,
{
    match t {
        Tree::Value(b) => seq![VALUE_MARKER, b],
        Tree::List(cs) => list_marker_bytes(cs.len()) + prefix_children(cs),
    }
}

/// The concatenated prefix encodings of a sequence of nodes.
pub open spec fn prefix_children(s: Seq<Tree>) -> Seq<u8>
    decreases s,
{
    if s.len() == 0 {
        Seq::empty()
    } else {
        prefix_node(s.first()) + prefix_children(s.drop_first())
    }
}

/// The bytes the prefix codec produces for a tree: the node encoding, except
/// that an empty root list encodes to the empty byte sequence.
pub open spec fn prefix_encode(t: Tree) -> Seq<u8> {
    match t {
        Tree::List(cs) => if cs.len() == 0 {
            Seq::empty()
        } else {
            prefix_node(t)
        },
        Tree::Value(_) => prefix_node(t),
    }
}

/// Parse one node at the head of `s`: the tree and the bytes consumed.
pub open spec fn prefix_decode_node(s: Seq<u8>) -> Option<(Tree, nat)>
    decreases s.len(), 0nat, 0nat,
{
    if s.len() == 0 {
        None
    } else if s[0] == VALUE_MARKER {
        if s.len() >= 2 {
            Some((Tree::Value(s[1]), 2))
        } else {
            None
        }
    } else if s[0] == LIST_MARKER {
        if s.len() >= 9 {
            let n = spec_u64_from_le_bytes(s.subrange(1, 9));
            match prefix_decode_children(s.skip(9), n as nat) {
                Some((cs, m)) => Some((Tree::List(cs), 9 + m)),
                None => None,
            }
        } else {
            None
        }
    } else if s[0] >= INLINE_LIST_MIN {
        let n = (s[0] - INLINE_LIST_MIN) as nat;
        match prefix_decode_children(s.skip(1), n) {
            Some((cs, m)) => Some((Tree::List(cs), 1 + m)),
            None => None,
        }
    } else {
        None
    }
}

/// Parse exactly `count` consecutive nodes at the head of `s`.
pub open spec fn prefix_decode_children(s: Seq<u8>, count: nat) -> Option<(Seq<Tree>, nat)>
    decreases s.len(), 1nat, count,
{
    if count == 0 {
        Some((Seq::empty(), 0))
    } else if s.len() == 0 {
        None
    } else {
        match prefix_decode_node(s) {
            Some((t, n)) => {
                let nc = if n < 1 {
                    1
                } else if n > s.len() {
                    s.len()
                } else {
                    n
                };
                match prefix_decode_children(s.skip(nc as int), (count - 1) as nat) {
                    Some((cs, m)) => Some((seq![t] + cs, nc + m)),
                    None => None,
                }
            },
            None => None,
        }
    }
}

/// The tree the prefix codec reads from a byte sequence: one node consuming
/// the input exactly, or an empty list for empty input.
pub open spec fn prefix_decode(s: Seq<u8>) -> Option<Tree> {
    if s.len() == 0 {
        Some(Tree::List(Seq::empty()))
    } else {
        match prefix_decode_node(s) {
            Some((t, n)) => if n == s.len() {
                Some(t)
            } else {
                None
            },
            None => None,
        }
    }
}

/// Round trip for one node: decoding the encoding of `t` followed by
/// anything yields `t` back, consuming exactly the encoding.
proof fn lemma_prefix_node_round_trip(t: Tree, rest: Seq<u8>)
    requires
        length_fits(t),
    ensures
        prefix_decode_node(prefix_node(t) + rest) == Some((t, prefix_node(t).len())),
        prefix_node(t).len() >= 1,
    decreases t,
{
    let s = prefix_node(t) + rest;
    match t {
        Tree::Value(b) => {
            assert(s[0] == VALUE_MARKER && s[1] == b && s.len() >= 2);
        },
        Tree::List(cs) => {
            let mk = list_marker_bytes(cs.len());
            let body = prefix_children(cs);
            assert(prefix_node(t) == mk + body);
            if cs.len() <= 127 {
                assert(mk == seq![(INLINE_LIST_MIN + cs.len()) as u8]);
                assert(s[0] == (INLINE_LIST_MIN + cs.len()) as u8);
                assert(s[0] >= INLINE_LIST_MIN && s[0] != VALUE_MARKER && s[0] != LIST_MARKER);
                assert((s[0] - INLINE_LIST_MIN) as nat == cs.len());
                assert(s.skip(1) =~= body + rest);
                lemma_prefix_children_round_trip(cs, rest);
                assert(prefix_decode_children(s.skip(1), cs.len()) == Some((cs, body.len())));
            } else {
                lemma_auto_spec_u64_to_from_le_bytes();
                assert(mk == seq![LIST_MARKER] + spec_u64_to_le_bytes(cs.len() as u64));
                assert(mk.len() == 9);
                assert(s[0] == LIST_MARKER);
                assert(s.len() >= 9);
                assert(s.subrange(1, 9) =~= spec_u64_to_le_bytes(cs.len() as u64));
                assert(spec_u64_from_le_bytes(s.subrange(1, 9)) == cs.len() as u64);
                assert((cs.len() as u64) as nat == cs.len());
                assert(s.skip(9) =~= body + rest);
                lemma_prefix_children_round_trip(cs, rest);
                assert(prefix_decode_children(s.skip(9), cs.len()) == Some((cs, body.len())));
            }
        },
    }
}

/// Round trip for a run of nodes: decoding the concatenated encodings of `cs`
/// followed by anything yields `cs` back.
proof fn lemma_prefix_children_round_trip(cs: Seq<Tree>, rest: Seq<u8>)
    requires
        length_fits_seq(cs),
    ensures
        prefix_decode_children(prefix_children(cs) + rest, cs.len()) == Some(
            (cs, prefix_children(cs).len()),
        ),
    decreases cs,
{
    let s = prefix_children(cs) + rest;
    if cs.len() == 0 {
        assert(prefix_children(cs) =~= Seq::<u8>::empty());
    } else {
        let head = cs.first();
        let tail = cs.drop_first();
        let b0 = prefix_node(head);
        let b1 = prefix_children(tail);
        assert(prefix_children(cs) == b0 + b1);
        assert(s =~= b0 + (b1 + rest));
        lemma_prefix_node_round_trip(head, b1 + rest);
        assert(prefix_decode_node(s) == Some((head, b0.len())));
        let n = b0.len();
        assert(s.len() == n + b1.len() + rest.len());
        let nc = if n < 1 {
            1nat
        } else if n > s.len() {
            s.len()
        } else {
            n
        };
        assert(nc == n);
        assert(s.skip(n as int) =~= b1 + rest);
        lemma_prefix_children_round_trip(tail, rest);
        assert(prefix_decode_children(s.skip(n as int), tail.len()) == Some((tail, b1.len())));
        assert(seq![head] + tail =~= cs);
        assert(prefix_decode_children(s, cs.len()) == Some((cs, n + b1.len())));
    }
}

/// Round trip: the prefix codec decodes its own encoding of any tree back to
/// that tree.
pub proof fn lemma_prefix_round_trip(t: Tree)
    requires
        length_fits(t),
    ensures
        prefix_decode(prefix_encode(t)) == Some(t),
{
    match t {
        Tree::List(cs) => {
            if cs.len() == 0 {
                assert(cs =~= Seq::<Tree>::empty());
            } else {
                lemma_prefix_node_round_trip(t, Seq::empty());
                assert(prefix_node(t) + Seq::<u8>::empty() =~= prefix_node(t));
            }
        },
        Tree::Value(_) => {
            lemma_prefix_node_round_trip(t, Seq::empty());
            assert(prefix_node(t) + Seq::<u8>::empty() =~= prefix_node(t));
        },
    }
}

/// The encoding is a function of the tree alone: equal trees yield identical
/// bytes, for the plain and the compressed prefix codec alike.
pub proof fn lemma_prefix_encode_deterministic(t1: Tree, t2: Tree)
    requires
        t1 == t2,
    ensures
        prefix_encode(t1) == prefix_encode(t2),
        compressed_encode(t1) == compressed_encode(t2),
{
}

/// Canonical small lists: a list of up to 127 children is opened by the
/// single inline marker byte, never by the long form, in the plain and the
/// compressed prefix encodings alike, which both write list markers only
/// through `list_marker_bytes`.
pub proof fn lemma_small_list_inline(n: nat)
    requires
        n <= 127,
    ensures
        list_marker_bytes(n).len() == 1,
        list_marker_bytes(n)[0] == INLINE_LIST_MIN + n,
        list_marker_bytes(n)[0] != LIST_MARKER,
{
}

/// The dictionary stops growing once a back-reference index would no longer
/// fit in the four wire-format bytes.
pub const DICT_CAP: u64 = 0x1_0000_0000;

/// The index of the first dictionary entry equal to `t`, if any.
pub open spec fn dict_find(dict: Seq<Tree>, t: Tree) -> Option<nat>
    decreases dict.len(),
{
    if dict.len() == 0 {
        None
    } else if dict.first() == t {
        Some(0)
    } else {
        match dict_find(dict.drop_first(), t) {
            Some(i) => Some(i + 1),
            None => None,
        }
    }
}

/// Record a list subtree: appended once, on first sight, as long as indices
/// still fit the wire format. Recording an already-present subtree is a
/// no-op, so duplicates never grow the dictionary.
pub open spec fn dict_record(dict: Seq<Tree>, t: Tree) -> Seq<Tree> {
    if dict_find(dict, t) is Some || dict.len() >= DICT_CAP {
        dict
    } else {
        dict.push(t)
    }
}

/// A found index is in range and points at an equal entry, and an index is
/// found whenever an equal entry exists.
proof fn lemma_dict_find(dict: Seq<Tree>, t: Tree)
    ensures
        dict_find(dict, t) matches Some(i) ==> i < dict.len() && dict[i as int] == t && (forall|
            j: int,
        |
            0 <= j < i ==> dict[j] != t),
        dict_find(dict, t) is None ==> (forall|j: int| 0 <= j < dict.len() ==> dict[j] != t),
    decreases dict.len(),
{
    if dict.len() > 0 && dict.first() != t {
        lemma_dict_find(dict.drop_first(), t);
        assert(forall|j: int| 1 <= j < dict.len() ==> dict[j] == dict.drop_first()[j - 1]);
    }
}

/// The compressed encoding of one node, threading the dictionary: the bytes
/// and the dictionary after this node.
pub open spec fn compressed_node(dict: Seq<Tree>, t: Tree) -> (Seq<u8>, Seq<Tree>)
    decreases t,
{
    match t {
        Tree::Value(b) => (seq![VALUE_MARKER, b], dict),
        Tree::List(cs) => match dict_find(dict, t) {
            Some(i) => (
                seq![TEMPLATE_USE_MARKER] + spec_u32_to_le_bytes(i as u32),
                dict_record(dict, t),
            ),
            None => {
                let (body, d1) = compressed_children(dict, cs);
                (list_marker_bytes(cs.len()) + body, dict_record(d1, t))
            },
        },
    }
}

/// The compressed encodings of a run of nodes, threading the dictionary left
/// to right.
pub open spec fn compressed_children(dict: Seq<Tree>, s: Seq<Tree>) -> (Seq<u8>, Seq<Tree>)
    decreases s,
{
    if s.len() == 0 {
        (Seq::empty(), dict)
    } else {
        let (b0, d0) = compressed_node(dict, s.first());
        let (b1, d1) = compressed_children(d0, s.drop_first());
        (b0 + b1, d1)
    }
}

/// The bytes the compressed codec produces for a tree, starting from an
/// empty dictionary; an empty root list encodes to the empty byte sequence.
pub open spec fn compressed_encode(t: Tree) -> Seq<u8> {
    match t {
        Tree::List(cs) => if cs.len() == 0 {
            Seq::empty()
        } else {
            compressed_node(Seq::empty(), t).0
        },
        Tree::Value(_) => compressed_node(Seq::empty(), t).0,
    }
}

/// The encoder's dictionary after encoding a whole tree.
pub open spec fn compressed_encode_dict(t: Tree) -> Seq<Tree> {
    match t {
        Tree::List(cs) => if cs.len() == 0 {
            Seq::empty()
        } else {
            compressed_node(Seq::empty(), t).1
        },
        Tree::Value(_) => compressed_node(Seq::empty(), t).1,
    }
}

/// Parse one compressed node: the tree, the bytes consumed, and the
/// dictionary after this node. A back-reference returns the entry it names
/// and records nothing; a parsed list is recorded after its children.
pub open spec fn compressed_decode_node(dict: Seq<Tree>, s: Seq<u8>) -> Option<
    (Tree, nat, Seq<Tree>),
>
    decreases s.len(), 0nat, 0nat,
{
    if s.len() == 0 {
        None
    } else if s[0] == VALUE_MARKER {
        if s.len() >= 2 {
            Some((Tree::Value(s[1]), 2, dict))
        } else {
            None
        }
    } else if s[0] == TEMPLATE_USE_MARKER {
        if s.len() >= 5 {
            let i = spec_u32_from_le_bytes(s.subrange(1, 5)) as nat;
            if i < dict.len() {
                Some((dict[i as int], 5, dict))
            } else {
                None
            }
        } else {
            None
        }
    } else if s[0] == LIST_MARKER {
        if s.len() >= 9 {
            let n = spec_u64_from_le_bytes(s.subrange(1, 9));
            match compressed_decode_children(dict, s.skip(9), n as nat) {
                Some((cs, m, d1)) => {
                    let t = Tree::List(cs);
                    Some((t, 9 + m, dict_record(d1, t)))
                },
                None => None,
            }
        } else {
            None
        }
    } else if s[0] >= INLINE_LIST_MIN {
        let n = (s[0] - INLINE_LIST_MIN) as nat;
        match compressed_decode_children(dict, s.skip(1), n) {
            Some((cs, m, d1)) => {
                let t = Tree::List(cs);
                Some((t, 1 + m, dict_record(d1, t)))
            },
            None => None,
        }
    } else {
        None
    }
}

/// Parse exactly `count` consecutive compressed nodes, threading the
/// dictionary left to right.
pub open spec fn compressed_decode_children(dict: Seq<Tree>, s: Seq<u8>, count: nat) -> Option<
    (Seq<Tree>, nat, Seq<Tree>),
>
    decreases s.len(), 1nat, count,
{
    if count == 0 {
        Some((Seq::empty(), 0, dict))
    } else if s.len() == 0 {
        None
    } else {
        match compressed_decode_node(dict, s) {
            Some((t, n, d0)) => {
                let nc = if n < 1 {
                    1
                } else if n > s.len() {
                    s.len()
                } else {
                    n
                };
                match compressed_decode_children(d0, s.skip(nc as int), (count - 1) as nat) {
                    Some((cs, m, d1)) => Some((seq![t] + cs, nc + m, d1)),
                    None => None,
                }
            },
            None => None,
        }
    }
}

/// The tree the compressed codec reads from a byte sequence, starting from
/// an empty dictionary.
pub open spec fn compressed_decode(s: Seq<u8>) -> Option<Tree> {
    if s.len() == 0 {
        Some(Tree::List(Seq::empty()))
    } else {
        match compressed_decode_node(Seq::empty(), s) {
            Some((t, n, d)) => if n == s.len() {
                Some(t)
            } else {
                None
            },
            None => None,
        }
    }
}

/// The decoder's dictionary after decoding a whole byte sequence it accepts.
pub open spec fn compressed_decode_dict(s: Seq<u8>) -> Seq<Tree> {
    if s.len() == 0 {
        Seq::empty()
    } else {
        match compressed_decode_node(Seq::empty(), s) {
            Some((t, n, d)) => d,
            None => Seq::empty(),
        }
    }
}

/// Round trip for one compressed node, for any starting dictionary that the
/// wire format can index: the decoder reads back the same tree, consumes
/// exactly the node's bytes, and ends with the encoder's dictionary.
proof fn lemma_compressed_node_round_trip(dict: Seq<Tree>, t: Tree, rest: Seq<u8>)
    requires
        length_fits(t),
        dict.len() <= DICT_CAP,
    ensures
        ({
            let (bytes, d2) = compressed_node(dict, t);
            &&& compressed_decode_node(dict, bytes + rest) == Some((t, bytes.len(), d2))
            &&& bytes.len() >= 1
            &&& d2.len() <= DICT_CAP
        }),
    decreases t,
{
    let (bytes, d2) = compressed_node(dict, t);
    let s = bytes + rest;
    match t {
        Tree::Value(b) => {
            assert(s[0] == VALUE_MARKER && s[1] == b && s.len() >= 2);
        },
        Tree::List(cs) => {
            lemma_dict_find(dict, t);
            match dict_find(dict, t) {
                Some(i) => {
                    lemma_auto_spec_u32_to_from_le_bytes();
                    assert(bytes == seq![TEMPLATE_USE_MARKER] + spec_u32_to_le_bytes(i as u32));
                    assert(bytes.len() == 5);
                    assert(s[0] == TEMPLATE_USE_MARKER);
                    assert(s.len() >= 5);
                    assert(s.subrange(1, 5) =~= spec_u32_to_le_bytes(i as u32));
                    assert(i < dict.len() <= DICT_CAP);
                    assert(i as u32 as nat == i);
                    assert(spec_u32_from_le_bytes(s.subrange(1, 5)) as nat == i);
                    assert(dict[i as int] == t);
                    assert(dict_record(dict, t) == dict);
                },
                None => {
                    let (body, d1) = compressed_children(dict, cs);
                    let mk = list_marker_bytes(cs.len());
                    assert(bytes == mk + body);
                    lemma_compressed_children_round_trip(dict, cs, rest);
                    if cs.len() <= 127 {
                        assert(mk == seq![(INLINE_LIST_MIN + cs.len()) as u8]);
                        assert(s[0] == (INLINE_LIST_MIN + cs.len()) as u8);
                        assert(s[0] >= INLINE_LIST_MIN);
                        assert(s[0] != VALUE_MARKER && s[0] != LIST_MARKER && s[0]
                            != TEMPLATE_USE_MARKER);
                        assert((s[0] - INLINE_LIST_MIN) as nat == cs.len());
                        assert(s.skip(1) =~= body + rest);
                        assert(compressed_decode_children(dict, s.skip(1), cs.len()) == Some(
                            (cs, body.len(), d1),
                        ));
                    } else {
                        lemma_auto_spec_u64_to_from_le_bytes();
                        assert(mk == seq![LIST_MARKER] + spec_u64_to_le_bytes(cs.len() as u64));
                        assert(mk.len() == 9);
                        assert(s[0] == LIST_MARKER);
                        assert(s.len() >= 9);
                        assert(s.subrange(1, 9) =~= spec_u64_to_le_bytes(cs.len() as u64));
                        assert(spec_u64_from_le_bytes(s.subrange(1, 9)) == cs.len() as u64);
                        assert((cs.len() as u64) as nat == cs.len());
                        assert(s.skip(9) =~= body + rest);
                        assert(compressed_decode_children(dict, s.skip(9), cs.len()) == Some(
                            (cs, body.len(), d1),
                        ));
                    }
                },
            }
        },
    }
}

/// Round trip for a run of compressed nodes, threading the dictionary.
proof fn lemma_compressed_children_round_trip(dict: Seq<Tree>, cs: Seq<Tree>, rest: Seq<u8>)
    requires
        length_fits_seq(cs),
        dict.len() <= DICT_CAP,
    ensures
        ({
            let (bytes, d1) = compressed_children(dict, cs);
            &&& compressed_decode_children(dict, bytes + rest, cs.len()) == Some(
                (cs, bytes.len(), d1),
            )
            &&& d1.len() <= DICT_CAP
        }),
    decreases cs,
{
    let (bytes, d1) = compressed_children(dict, cs);
    let s = bytes + rest;
    if cs.len() == 0 {
        assert(bytes =~= Seq::<u8>::empty());
    } else {
        let head = cs.first();
        let tail = cs.drop_first();
        let (b0, d0) = compressed_node(dict, head);
        let (b1, dend) = compressed_children(d0, tail);
        assert(bytes == b0 + b1);
        assert(s =~= b0 + (b1 + rest));
        lemma_compressed_node_round_trip(dict, head, b1 + rest);
        assert(compressed_decode_node(dict, s) == Some((head, b0.len(), d0)));
        let n = b0.len();
        assert(s.len() == n + b1.len() + rest.len());
        let nc = if n < 1 {
            1nat
        } else if n > s.len() {
            s.len()
        } else {
            n
        };
        assert(nc == n);
        assert(s.skip(n as int) =~= b1 + rest);
        lemma_compressed_children_round_trip(d0, tail, rest);
        assert(compressed_decode_children(d0, s.skip(n as int), tail.len()) == Some(
            (tail, b1.len(), dend),
        ));
        assert(seq![head] + tail =~= cs);
        assert(compressed_decode_children(dict, s, cs.len()) == Some((cs, n + b1.len(), dend)));
    }
}

/// Round trip: the compressed codec decodes its own encoding of any tree
/// back to that tree.
pub proof fn lemma_compressed_round_trip(t: Tree)
    requires
        length_fits(t),
    ensures
        compressed_decode(compressed_encode(t)) == Some(t),
{
    match t {
        Tree::List(cs) => {
            if cs.len() == 0 {
                assert(cs =~= Seq::<Tree>::empty());
            } else {
                lemma_compressed_node_round_trip(Seq::empty(), t, Seq::empty());
                assert(compressed_node(Seq::empty(), t).0 + Seq::<u8>::empty() =~= compressed_node(
                    Seq::empty(),
                    t,
                ).0);
            }
        },
        Tree::Value(_) => {
            lemma_compressed_node_round_trip(Seq::empty(), t, Seq::empty());
            assert(compressed_node(Seq::empty(), t).0 + Seq::<u8>::empty() =~= compressed_node(
                Seq::empty(),
                t,
            ).0);
        },
    }
}

/// Dictionary lock-step: after encoding any tree, the decoder of those bytes
/// ends with exactly the encoder's final dictionary, entry for entry and
/// index for index. Both sides insert each list subtree once, after its
/// children.
pub proof fn lemma_dictionary_lock_step(t: Tree)
    requires
        length_fits(t),
    ensures
        compressed_decode_dict(compressed_encode(t)) == compressed_encode_dict(t),
{
    match t {
        Tree::List(cs) => {
            if cs.len() == 0 {
            } else {
                lemma_compressed_node_round_trip(Seq::empty(), t, Seq::empty());
                assert(compressed_node(Seq::empty(), t).0 + Seq::<u8>::empty() =~= compressed_node(
                    Seq::empty(),
                    t,
                ).0);
            }
        },
        Tree::Value(_) => {
            lemma_compressed_node_round_trip(Seq::empty(), t, Seq::empty());
            assert(compressed_node(Seq::empty(), t).0 + Seq::<u8>::empty() =~= compressed_node(
                Seq::empty(),
                t,
            ).0);
        },
    }
}

/// Appending one more child extends the run by that child's encoding.
proof fn lemma_prefix_children_snoc(s: Seq<Tree>, x: Tree)
    ensures
        prefix_children(s.push(x)) == prefix_children(s) + prefix_node(x),
    decreases s,
{
    reveal_with_fuel(prefix_children, 3);
    if s.len() == 0 {
        assert(s.push(x).drop_first() =~= Seq::<Tree>::empty());
        assert(s.push(x).first() == x);
        assert(prefix_children(s.push(x)) =~= prefix_children(s) + prefix_node(x));
    } else {
        assert(s.push(x).first() == s.first());
        assert(s.push(x).drop_first() =~= s.drop_first().push(x));
        lemma_prefix_children_snoc(s.drop_first(), x);
        assert(prefix_children(s.push(x)) =~= prefix_children(s) + prefix_node(x));
    }
}

/// Appending one more child encodes it against the dictionary left by the
/// run so far.
proof fn lemma_compressed_children_snoc(dict: Seq<Tree>, s: Seq<Tree>, x: Tree)
    ensures
        ({
            let (b1, d1) = compressed_children(dict, s);
            let (b2, d2) = compressed_node(d1, x);
            compressed_children(dict, s.push(x)) == (b1 + b2, d2)
        }),
    decreases s,
{
    reveal_with_fuel(compressed_children, 3);
    if s.len() == 0 {
        assert(s.push(x).drop_first() =~= Seq::<Tree>::empty());
        assert(s.push(x).first() == x);
        let (b2, d2) = compressed_node(dict, x);
        assert(compressed_children(dict, s.push(x)).0 =~= Seq::<u8>::empty() + b2);
        assert(compressed_children(dict, s.push(x)).0 =~= compressed_children(dict, s).0 + b2);
    } else {
        assert(s.push(x).first() == s.first());
        assert(s.push(x).drop_first() =~= s.drop_first().push(x));
        let (b0, d0) = compressed_node(dict, s.first());
        lemma_compressed_children_snoc(d0, s.drop_first(), x);
        let (b1, d1) = compressed_children(d0, s.drop_first());
        let (b2, d2) = compressed_node(d1, x);
        assert(compressed_children(dict, s.push(x)).0 =~= (b0 + b1) + b2);
    }
}

/// Write the marker bytes that open a list of `length` children.
fn write_list_marker(out: &mut Vec<u8>, length: usize)
    ensures
        final(out)@ == old(out)@ + list_marker_bytes(length as nat),
{
    if length <= 127 {
        out.push((length as u8) + INLINE_LIST_MIN);
        proof {
            assert(out@ =~= old(out)@ + list_marker_bytes(length as nat));
        }
    } else {
        out.push(LIST_MARKER);
        let mut bytes = u64_to_le_bytes(length as u64);
        out.append(&mut bytes);
        proof {
            assert(out@ =~= old(out)@ + list_marker_bytes(length as nat));
        }
    }
}

/// Append the prefix encoding of one node to `out`.
#[verifier::loop_isolation(false)]
fn prefix_encode_node(t: &Concrete, out: &mut Vec<u8>)
    ensures
        final(out)@ == old(out)@ + prefix_node(t@),
    decreases t,
{
    match t {
        Concrete::Value(b) => {
            out.push(VALUE_MARKER);
            out.push(*b);
            proof {
                assert(out@ =~= old(out)@ + prefix_node(t@));
            }
        },
        Concrete::List(cs) => {
            proof {
                lemma_seq_view(cs@);
            }
            let ghost sv = seq_view(cs@);
            write_list_marker(out, cs.len());
            let mut i: usize = 0;
            while i < cs.len()
                invariant
                    i <= cs@.len(),
                    out@ == old(out)@ + list_marker_bytes(cs@.len() as nat) + prefix_children(
                        sv.take(i as int),
                    ),
                decreases cs@.len() - i,
            {
                proof {
                    assert(*t == Concrete::List(*cs));
                    assert(decreases_to!(*t => t->List_0));
                    assert(decreases_to!(*cs => cs@));
                    assert(decreases_to!(cs@ => cs@[i as int]));
                }
                prefix_encode_node(&cs[i], out);
                proof {
                    lemma_prefix_children_snoc(sv.take(i as int), sv[i as int]);
                    assert(sv.take(i + 1) =~= sv.take(i as int).push(sv[i as int]));
                    assert(out@ =~= old(out)@ + list_marker_bytes(cs@.len() as nat)
                        + prefix_children(sv.take(i + 1)));
                }
                i += 1;
            }
            proof {
                assert(sv.take(cs@.len() as int) =~= sv);
                assert(t@ == Tree::List(sv));
                assert(out@ =~= old(out)@ + prefix_node(t@));
            }
        },
    }
}

/// Parse one prefix-encoded node at `pos`, mirroring `prefix_decode_node`.
#[verifier::loop_isolation(false)]
fn prefix_parse_node(data: &Vec<u8>, pos: usize) -> (r: Result<(Concrete, usize), FormatError>)
    requires
        pos <= data@.len(),
    ensures
        match r {
            Ok(p) => 1 <= p.1 && pos + p.1 <= data@.len() && prefix_decode_node(
                data@.skip(pos as int),
            ) == Some((p.0@, p.1 as nat)),
            Err(_) => prefix_decode_node(data@.skip(pos as int)) is None,
        },
    decreases data@.len() - pos, 0nat,
{
    let ghost s = data@.skip(pos as int);
    if pos == data.len() {
        return Err(FormatError);
    }
    let m = data[pos];
    assert(m == s[0]);
    if m == VALUE_MARKER {
        if pos + 1 < data.len() {
            let b = data[pos + 1];
            assert(b == s[1]);
            Ok((Concrete::Value(b), 2))
        } else {
            assert(s.len() < 2);
            Err(FormatError)
        }
    } else if m == LIST_MARKER {
        if data.len() - pos >= 9 {
            let sl = vstd::slice::slice_subrange(data.as_slice(), pos + 1, pos + 9);
            let count = u64_from_le_bytes(sl);
            proof {
                assert(sl@ =~= s.subrange(1, 9));
            }
            match prefix_parse_children(data, pos + 9, count) {
                Ok((cs, n)) => {
                    proof {
                        assert(s.skip(9) =~= data@.skip(pos + 9));
                    }
                    Ok((Concrete::List(cs), 9 + n))
                },
                Err(e) => {
                    proof {
                        assert(s.skip(9) =~= data@.skip(pos + 9));
                    }
                    Err(e)
                },
            }
        } else {
            Err(FormatError)
        }
    } else if m >= INLINE_LIST_MIN {
        let count = (m - INLINE_LIST_MIN) as u64;
        match prefix_parse_children(data, pos + 1, count) {
            Ok((cs, n)) => {
                proof {
                    assert(s.skip(1) =~= data@.skip(pos + 1));
                }
                Ok((Concrete::List(cs), 1 + n))
            },
            Err(e) => {
                proof {
                    assert(s.skip(1) =~= data@.skip(pos + 1));
                }
                Err(e)
            },
        }
    } else {
        Err(FormatError)
    }
}

/// Parse exactly `count` prefix-encoded nodes from `pos` on, mirroring
/// `prefix_decode_children`.
#[verifier::loop_isolation(false)]
fn prefix_parse_children(data: &Vec<u8>, pos: usize, count: u64) -> (r: Result<
    (Vec<Concrete>, usize),
    FormatError,
>)
    requires
        pos <= data@.len(),
    ensures
        match r {
            Ok(p) => pos + p.1 <= data@.len() && prefix_decode_children(
                data@.skip(pos as int),
                count as nat,
            ) == Some((seq_view(p.0@), p.1 as nat)),
            Err(_) => prefix_decode_children(data@.skip(pos as int), count as nat) is None,
        },
    decreases data@.len() - pos, 1nat,
{
    let mut cs: Vec<Concrete> = Vec::new();
    let mut cur: usize = pos;
    let mut j: u64 = 0;
    proof {
        assert(seq_view(cs@) =~= Seq::<Tree>::empty());
    }
    while j < count
        invariant
            pos <= cur <= data@.len(),
            j <= count,
            seq_view(cs@).len() == cs@.len(),
            match prefix_decode_children(data@.skip(cur as int), (count - j) as nat) {
                Some(p) => prefix_decode_children(data@.skip(pos as int), count as nat) == Some(
                    (seq_view(cs@) + p.0, ((cur - pos) + p.1) as nat),
                ),
                None => prefix_decode_children(data@.skip(pos as int), count as nat) is None,
            },
        decreases count - j,
    {
        let ghost sc = data@.skip(cur as int);
        if cur == data.len() {
            assert(sc.len() == 0 && count - j >= 1);
            return Err(FormatError);
        }
        match prefix_parse_node(data, cur) {
            Err(e) => {
                assert(prefix_decode_children(sc, (count - j) as nat) is None);
                return Err(e);
            },
            Ok((c, n)) => {
                proof {
                    let nspec = n as nat;
                    let nc = if nspec < 1 {
                        1nat
                    } else if nspec > sc.len() {
                        sc.len()
                    } else {
                        nspec
                    };
                    assert(nc == nspec);
                    assert(sc.skip(n as int) =~= data@.skip(cur + n));
                }
                let ghost old_cs = cs@;
                cs.push(c);
                proof {
                    assert(cs@ =~= old_cs.push(c));
                    assert(cs@.drop_last() =~= old_cs);
                    assert(cs@.last() == c);
                    assert(seq_view(cs@) =~= seq_view(old_cs).push(c@));
                    lemma_seq_view(cs@);
                    assert forall|cs2: Seq<Tree>|
                        true implies seq_view(old_cs) + (seq![c@] + cs2) =~= seq_view(cs@)
                        + cs2 by {}
                }
                cur = cur + n;
                j = j + 1;
            },
        }
    }
    proof {
        assert(prefix_decode_children(data@.skip(cur as int), 0nat) == Some(
            (Seq::<Tree>::empty(), 0nat),
        ));
        assert(seq_view(cs@) + Seq::<Tree>::empty() =~= seq_view(cs@));
    }
    Ok((cs, cur - pos))
}

impl Encoder for PrefixEncoding {
    open spec fn spec_serialize(&self, t: Tree) -> Seq<u8> {
        prefix_encode(t)
    }

    fn serialize(&self, v: &Concrete) -> (out: Vec<u8>) {
        if let Concrete::List(cs) = v {
            if cs.len() == 0 {
                proof {
                    assert(seq_view(cs@) =~= Seq::<Tree>::empty());
                }
                return Vec::new();
            }
        }
        let mut out = Vec::new();
        prefix_encode_node(v, &mut out);
        proof {
            assert(out@ =~= prefix_node(v@));
            match v {
                Concrete::List(cs) => {
                    lemma_seq_view(cs@);
                },
                Concrete::Value(_) => {},
            }
        }
        out
    }
}

/// The first index with an equal entry, with nothing equal before it, is the
/// one `dict_find` returns.
proof fn lemma_dict_find_first(d: Seq<Tree>, t: Tree, i: nat)
    requires
        i < d.len(),
        d[i as int] == t,
        forall|j: int| 0 <= j < i ==> d[j] != t,
    ensures
        dict_find(d, t) == Some(i),
    decreases d.len(),
{
    if i > 0 {
        assert(d.first() != t);
        assert(d.drop_first()[i - 1] == d[i as int]);
        assert forall|j: int| 0 <= j < i - 1 implies d.drop_first()[j] != t by {
            assert(d.drop_first()[j] == d[j + 1]);
        }
        lemma_dict_find_first(d.drop_first(), t, (i - 1) as nat);
    }
}

/// The subtree dictionary a compressed encode or decode call builds up. Its
/// view is the sequence of recorded subtrees, index for index.
struct State {
    templates: Vec<Concrete>,
}

impl View for State {
    type V = Seq<Tree>;

    closed spec fn view(&self) -> Seq<Tree> {
        seq_view(self.templates@)
    }
}

impl State {
    fn new() -> (st: State)
        ensures
            st@ == Seq::<Tree>::empty(),
    {
        let st = State { templates: Vec::new() };
        proof {
            assert(seq_view(st.templates@) =~= Seq::<Tree>::empty());
        }
        st
    }

    /// The dictionary index of the first structurally equal entry, if any.
    #[verifier::loop_isolation(false)]
    fn lookup(&self, c: &Concrete) -> (r: Option<usize>)
        ensures
            match r {
                Some(i) => dict_find(self@, c@) == Some(i as nat),
                None => dict_find(self@, c@) is None,
            },
    {
        proof {
            lemma_seq_view(self.templates@);
        }
        let mut i: usize = 0;
        while i < self.templates.len()
            invariant
                i <= self.templates@.len(),
                forall|j: int| 0 <= j < i ==> seq_view(self.templates@)[j] != c@,
            decreases self.templates@.len() - i,
        {
            if crate::leaf_tree::tree_eq(&self.templates[i], c) {
                proof {
                    lemma_dict_find_first(self@, c@, i as nat);
                }
                return Some(i);
            }
            i += 1;
        }
        proof {
            lemma_dict_find(self@, c@);
        }
        None
    }

    /// Record a subtree once it is fully processed: appended on first sight,
    /// as long as back-reference indices still fit the wire format; a no-op
    /// for an already recorded subtree.
    fn record(&mut self, c: &Concrete)
        requires
            old(self)@.len() <= DICT_CAP,
        ensures
            final(self)@ == dict_record(old(self)@, c@),
            final(self)@.len() <= DICT_CAP,
    {
        proof {
            lemma_seq_view(self.templates@);
        }
        match self.lookup(c) {
            Some(_) => {},
            None => {
                if (self.templates.len() as u64) < DICT_CAP {
                    let copy = view_to_concrete(c);
                    let ghost old_t = self.templates@;
                    self.templates.push(copy);
                    proof {
                        assert(self.templates@.drop_last() =~= old_t);
                        assert(self.templates@.last() == copy);
                        assert(seq_view(self.templates@) =~= seq_view(old_t).push(c@));
                    }
                }
            },
        }
    }
}

/// Append the compressed encoding of one node to `out`, threading the
/// dictionary exactly as `compressed_node` does.
#[verifier::loop_isolation(false)]
fn compressed_encode_node(st: &mut State, t: &Concrete, out: &mut Vec<u8>)
    requires
        old(st)@.len() <= DICT_CAP,
    ensures
        ({
            let (bytes, d2) = compressed_node(old(st)@, t@);
            &&& final(out)@ == old(out)@ + bytes
            &&& final(st)@ == d2
            &&& final(st)@.len() <= DICT_CAP
        }),
    decreases t,
{
    match t {
        Concrete::Value(b) => {
            out.push(VALUE_MARKER);
            out.push(*b);
            proof {
                assert(out@ =~= old(out)@ + compressed_node(old(st)@, t@).0);
            }
        },
        Concrete::List(cs) => {
            proof {
                lemma_seq_view(cs@);
            }
            match st.lookup(t) {
                Some(i) => {
                    proof {
                        lemma_dict_find(st@, t@);
                        assert((i as nat) < st@.len());
                    }
                    out.push(TEMPLATE_USE_MARKER);
                    let mut bytes = u32_to_le_bytes(i as u32);
                    out.append(&mut bytes);
                    st.record(t);
                    proof {
                        assert(out@ =~= old(out)@ + compressed_node(old(st)@, t@).0);
                    }
                },
                None => {
                    write_list_marker(out, cs.len());
                    let ghost dict0 = st@;
                    let ghost sv = seq_view(cs@);
                    let ghost base = out@;
                    let mut i: usize = 0;
                    while i < cs.len()
                        invariant
                            i <= cs@.len(),
                            st@ == compressed_children(dict0, sv.take(i as int)).1,
                            out@ == base + compressed_children(dict0, sv.take(i as int)).0,
                            st@.len() <= DICT_CAP,
                        decreases cs@.len() - i,
                    {
                        proof {
                            assert(*t == Concrete::List(*cs));
                            assert(decreases_to!(*t => t->List_0));
                            assert(decreases_to!(*cs => cs@));
                            assert(decreases_to!(cs@ => cs@[i as int]));
                        }
                        compressed_encode_node(st, &cs[i], out);
                        proof {
                            lemma_compressed_children_snoc(dict0, sv.take(i as int), sv[i as int]);
                            assert(sv.take(i + 1) =~= sv.take(i as int).push(sv[i as int]));
                            assert(out@ =~= base + compressed_children(dict0, sv.take(i + 1)).0);
                        }
                        i += 1;
                    }
                    st.record(t);
                    proof {
                        assert(sv.take(cs@.len() as int) =~= sv);
                        assert(t@ == Tree::List(sv));
                        assert(out@ =~= old(out)@ + compressed_node(old(st)@, t@).0);
                    }
                },
            }
        },
    }
}

/// Parse one compressed node at `pos`, mirroring `compressed_decode_node`.
#[verifier::loop_isolation(false)]
fn compressed_parse_node(st: &mut State, data: &Vec<u8>, pos: usize) -> (r: Result<
    (Concrete, usize),
    FormatError,
>)
    requires
        pos <= data@.len(),
        old(st)@.len() <= DICT_CAP,
    ensures
        match r {
            Ok(p) => 1 <= p.1 && pos + p.1 <= data@.len() && compressed_decode_node(
                old(st)@,
                data@.skip(pos as int),
            ) == Some((p.0@, p.1 as nat, final(st)@)) && final(st)@.len() <= DICT_CAP,
            Err(_) => compressed_decode_node(old(st)@, data@.skip(pos as int)) is None,
        },
    decreases data@.len() - pos, 0nat,
{
    let ghost s = data@.skip(pos as int);
    if pos == data.len() {
        return Err(FormatError);
    }
    let m = data[pos];
    assert(m == s[0]);
    if m == VALUE_MARKER {
        if pos + 1 < data.len() {
            let b = data[pos + 1];
            assert(b == s[1]);
            Ok((Concrete::Value(b), 2))
        } else {
            assert(s.len() < 2);
            Err(FormatError)
        }
    } else if m == TEMPLATE_USE_MARKER {
        if data.len() - pos >= 5 {
            let sl = vstd::slice::slice_subrange(data.as_slice(), pos + 1, pos + 5);
            let idx32 = u32_from_le_bytes(sl);
            proof {
                assert(sl@ =~= s.subrange(1, 5));
                lemma_seq_view(st.templates@);
            }
            let idx = idx32 as usize;
            if idx < st.templates.len() {
                let c = view_to_concrete(&st.templates[idx]);
                proof {
                    assert(c@ == st@[idx as int]);
                }
                Ok((c, 5))
            } else {
                Err(FormatError)
            }
        } else {
            Err(FormatError)
        }
    } else if m == LIST_MARKER {
        if data.len() - pos >= 9 {
            let sl = vstd::slice::slice_subrange(data.as_slice(), pos + 1, pos + 9);
            let count = u64_from_le_bytes(sl);
            proof {
                assert(sl@ =~= s.subrange(1, 9));
                assert(s.skip(9) =~= data@.skip(pos + 9));
            }
            match compressed_parse_children(st, data, pos + 9, count) {
                Ok((cs, n)) => {
                    let node = Concrete::List(cs);
                    st.record(&node);
                    Ok((node, 9 + n))
                },
                Err(e) => Err(e),
            }
        } else {
            Err(FormatError)
        }
    } else if m >= INLINE_LIST_MIN {
        let count = (m - INLINE_LIST_MIN) as u64;
        proof {
            assert(s.skip(1) =~= data@.skip(pos + 1));
        }
        match compressed_parse_children(st, data, pos + 1, count) {
            Ok((cs, n)) => {
                let node = Concrete::List(cs);
                st.record(&node);
                Ok((node, 1 + n))
            },
            Err(e) => Err(e),
        }
    } else {
        Err(FormatError)
    }
}

/// Parse exactly `count` compressed nodes from `pos` on, mirroring
/// `compressed_decode_children`.
#[verifier::loop_isolation(false)]
fn compressed_parse_children(st: &mut State, data: &Vec<u8>, pos: usize, count: u64) -> (r: Result<
    (Vec<Concrete>, usize),
    FormatError,
>)
    requires
        pos <= data@.len(),
        old(st)@.len() <= DICT_CAP,
    ensures
        match r {
            Ok(p) => pos + p.1 <= data@.len() && compressed_decode_children(
                old(st)@,
                data@.skip(pos as int),
                count as nat,
            ) == Some((seq_view(p.0@), p.1 as nat, final(st)@)) && final(st)@.len() <= DICT_CAP,
            Err(_) => compressed_decode_children(
                old(st)@,
                data@.skip(pos as int),
                count as nat,
            ) is None,
        },
    decreases data@.len() - pos, 1nat,
{
    let mut cs: Vec<Concrete> = Vec::new();
    let mut cur: usize = pos;
    let mut j: u64 = 0;
    proof {
        assert(seq_view(cs@) =~= Seq::<Tree>::empty());
    }
    while j < count
        invariant
            pos <= cur <= data@.len(),
            j <= count,
            seq_view(cs@).len() == cs@.len(),
            st@.len() <= DICT_CAP,
            match compressed_decode_children(st@, data@.skip(cur as int), (count - j) as nat) {
                Some(p) => compressed_decode_children(
                    old(st)@,
                    data@.skip(pos as int),
                    count as nat,
                ) == Some((seq_view(cs@) + p.0, ((cur - pos) + p.1) as nat, p.2)),
                None => compressed_decode_children(
                    old(st)@,
                    data@.skip(pos as int),
                    count as nat,
                ) is None,
            },
        decreases count - j,
    {
        let ghost sc = data@.skip(cur as int);
        let ghost dcur = st@;
        if cur == data.len() {
            assert(sc.len() == 0 && count - j >= 1);
            return Err(FormatError);
        }
        match compressed_parse_node(st, data, cur) {
            Err(e) => {
                assert(compressed_decode_children(dcur, sc, (count - j) as nat) is None);
                return Err(e);
            },
            Ok((c, n)) => {
                proof {
                    let nspec = n as nat;
                    let nc = if nspec < 1 {
                        1nat
                    } else if nspec > sc.len() {
                        sc.len()
                    } else {
                        nspec
                    };
                    assert(nc == nspec);
                    assert(sc.skip(n as int) =~= data@.skip(cur + n));
                }
                let ghost old_cs = cs@;
                cs.push(c);
                proof {
                    assert(cs@ =~= old_cs.push(c));
                    assert(cs@.drop_last() =~= old_cs);
                    assert(cs@.last() == c);
                    assert(seq_view(cs@) =~= seq_view(old_cs).push(c@));
                    lemma_seq_view(cs@);
                    assert forall|cs2: Seq<Tree>|
                        true implies seq_view(old_cs) + (seq![c@] + cs2) =~= seq_view(cs@)
                        + cs2 by {}
                }
                cur = cur + n;
                j = j + 1;
            },
        }
    }
    proof {
        assert(compressed_decode_children(st@, data@.skip(cur as int), 0nat) == Some(
            (Seq::<Tree>::empty(), 0nat, st@),
        ));
        assert(seq_view(cs@) + Seq::<Tree>::empty() =~= seq_view(cs@));
    }
    Ok((cs, cur - pos))
}

impl Encoder for PrefixCompressedEncoding {
    open spec fn spec_serialize(&self, t: Tree) -> Seq<u8> {
        compressed_encode(t)
    }

    fn serialize(&self, v: &Concrete) -> (out: Vec<u8>) {
        if let Concrete::List(cs) = v {
            if cs.len() == 0 {
                proof {
                    assert(seq_view(cs@) =~= Seq::<Tree>::empty());
                }
                return Vec::new();
            }
        }
        let mut st = State::new();
        let mut out = Vec::new();
        compressed_encode_node(&mut st, v, &mut out);
        proof {
            assert(out@ =~= compressed_node(Seq::empty(), v@).0);
            match v {
                Concrete::List(cs) => {
                    lemma_seq_view(cs@);
                },
                Concrete::Value(_) => {},
            }
        }
        out
    }
}

impl Decoder for PrefixCompressedEncoding {
    open spec fn spec_deserialize(&self, s: Seq<u8>) -> Option<Tree> {
        compressed_decode(s)
    }

    fn deserialize(&self, data: &Vec<u8>) -> (r: Result<Concrete, FormatError>) {
        if data.len() == 0 {
            let r = Concrete::List(Vec::new());
            proof {
                assert(seq_view(Seq::empty()) =~= Seq::<Tree>::empty());
            }
            return Ok(r);
        }
        proof {
            assert(data@.skip(0) =~= data@);
        }
        let mut st = State::new();
        match compressed_parse_node(&mut st, data, 0) {
            Ok((c, n)) => {
                if n == data.len() {
                    Ok(c)
                } else {
                    Err(FormatError)
                }
            },
            Err(e) => Err(e),
        }
    }
}

impl Decoder for PrefixEncoding {
    open spec fn spec_deserialize(&self, s: Seq<u8>) -> Option<Tree> {
        prefix_decode(s)
    }

    fn deserialize(&self, data: &Vec<u8>) -> (r: Result<Concrete, FormatError>) {
        if data.len() == 0 {
            let r = Concrete::List(Vec::new());
            proof {
                assert(seq_view(Seq::empty()) =~= Seq::<Tree>::empty());
            }
            return Ok(r);
        }
        proof {
            assert(data@.skip(0) =~= data@);
        }
        match prefix_parse_node(data, 0) {
            Ok((c, n)) => {
                if n == data.len() {
                    Ok(c)
                } else {
                    Err(FormatError)
                }
            },
            Err(e) => Err(e),
        }
    }
}

} // verus!
