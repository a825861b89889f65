//! A simple, deliberately space-inefficient reference encoding, used to
//! cross-check the prefix codecs.
//!
//! Every node below the root is written as a delimited slot: a list marker,
//! the node's body, then a list-end marker. A body is either a value marker
//! followed by the byte, or the slots of the node's children. The root is
//! written as a bare body, so an empty root list encodes to the empty byte
//! sequence, and the empty byte sequence decodes to an empty list.

use vstd::prelude::*;

use crate::encoding::Decoder;
use crate::encoding::Encoder;
use crate::encoding::FormatError;
use crate::leaf_tree::lemma_seq_view;
use crate::leaf_tree::seq_view;
use crate::leaf_tree::Concrete;
use crate::leaf_tree::Tree;

verus! {

broadcast use vstd::std_specs::vec::group_vec_axioms;

pub struct BasicEncoding;

pub const LIST_MARKER: u8 = 0;

pub const VALUE_MARKER: u8 = 1;

pub const LIST_END: u8 = 2;

/// The body of one node: a marked byte for a value, the concatenated child
/// slots for a list. This is also the whole encoding of the root node.
pub open spec fn basic_body(t: Tree) -> Seq<u8>
    decreases t,
{
    match t {
        Tree::Value(b) => seq![VALUE_MARKER, b],
        Tree::List(cs) => basic_children(cs),
    }
}

/// The child slots of a list node, in order: each child is wrapped between a
/// list marker and a list-end marker.
pub open spec fn basic_children(s: Seq<Tree>) -> Seq<u8>
    decreases s,
{
    if s.len() == 0 {
        Seq::empty()
    } else {
        seq![LIST_MARKER] + basic_body(s.first()) + seq![LIST_END] + basic_children(s.drop_first())
    }
}

/// The bytes the basic codec produces for a tree.
pub open spec fn basic_encode(t: Tree) -> Seq<u8> {
    basic_body(t)
}

/// Parse one body starting at the head of `s`. Returns the tree and the
/// number of bytes consumed; parsing stops (without consuming) at a list-end
/// marker or at the end of input, both of which stand for an empty list.
pub open spec fn basic_decode_body(s: Seq<u8>) -> Option<(Tree, nat)>
    decreases s.len(), 1nat,
{
    if s.len() == 0 {
        Some((Tree::List(Seq::empty()), 0))
    } else if s[0] == VALUE_MARKER {
        if s.len() >= 2 {
            Some((Tree::Value(s[1]), 2))
        } else {
            None
        }
    } else if s[0] == LIST_END {
        Some((Tree::List(Seq::empty()), 0))
    } else if s[0] == LIST_MARKER {
        match basic_decode_children(s) {
            Some((cs, n)) => Some((Tree::List(cs), n)),
            None => None,
        }
    } else {
        None
    }
}

/// Parse child slots while the input continues with a list marker. Each slot
/// is a marker, a body, and a matching list-end marker.
pub open spec fn basic_decode_children(s: Seq<u8>) -> Option<(Seq<Tree>, nat)>
    decreases s.len(), 0nat,
{
    if s.len() == 0 || s[0] != LIST_MARKER {
        Some((Seq::empty(), 0))
    } else {
        match basic_decode_body(s.skip(1)) {
            Some((t, n)) => {
                let nc = if n <= s.len() {
                    n
                } else {
                    s.len()
                };
                if 1 + nc < s.len() && s[1 + nc as int] == LIST_END {
                    match basic_decode_children(s.skip(2 + nc as int)) {
                        Some((cs, m)) => Some((seq![t] + cs, 2 + nc + m)),
                        None => None,
                    }
                } else {
                    None
                }
            },
            None => None,
        }
    }
}

/// The tree the basic codec reads from a byte sequence: the root body, which
/// must consume the input exactly.
pub open spec fn basic_decode(s: Seq<u8>) -> Option<Tree> {
    match basic_decode_body(s) {
        Some((t, n)) => if n == s.len() {
            Some(t)
        } else {
            None
        },
        None => None,
    }
}

/// Round trip for one body: decoding the body of `t` followed by anything
/// that starts with a list-end marker (or nothing) yields `t` back and
/// consumes exactly the body.
proof fn lemma_basic_body_round_trip(t: Tree, rest: Seq<u8>)
    requires
        rest.len() == 0 || rest[0] == LIST_END,
    ensures
        basic_decode_body(basic_body(t) + rest) == Some((t, basic_body(t).len())),
    decreases t,
{
    let s = basic_body(t) + rest;
    match t {
        Tree::Value(b) => {
            assert(s[0] == VALUE_MARKER && s[1] == b && s.len() >= 2);
        },
        Tree::List(cs) => {
            if cs.len() == 0 {
                assert(basic_body(t) =~= Seq::<u8>::empty());
                assert(s =~= rest);
                assert(basic_decode_body(rest) == Some((Tree::List(Seq::<Tree>::empty()), 0nat)));
                assert(t == Tree::List(cs));
                assert(cs =~= Seq::<Tree>::empty());
            } else {
                assert(basic_children(cs)[0] == LIST_MARKER);
                assert(s[0] == LIST_MARKER);
                lemma_basic_children_round_trip(cs, rest);
                assert(basic_decode_children(s) == Some((cs, basic_children(cs).len())));
            }
        },
    }
}

/// Round trip for child slots: decoding the slots of `s` followed by anything
/// that starts with a list-end marker (or nothing) yields `s` back.
proof fn lemma_basic_children_round_trip(cs: Seq<Tree>, rest: Seq<u8>)
    requires
        rest.len() == 0 || rest[0] == LIST_END,
    ensures
        basic_decode_children(basic_children(cs) + rest) == Some(
            (cs, basic_children(cs).len()),
        ),
    decreases cs,
{
    let s = basic_children(cs) + rest;
    if cs.len() == 0 {
        assert(basic_children(cs) =~= Seq::<u8>::empty());
        assert(s =~= rest);
    } else {
        let head = cs.first();
        let tail = cs.drop_first();
        let b0 = basic_body(head);
        let cat = basic_children(tail);
        assert(basic_children(cs) == seq![LIST_MARKER] + b0 + seq![LIST_END] + cat);
        assert(s[0] == LIST_MARKER);
        let rest1 = seq![LIST_END] + cat + rest;
        assert(s.skip(1) =~= b0 + rest1);
        assert(rest1[0] == LIST_END);
        lemma_basic_body_round_trip(head, rest1);
        assert(basic_decode_body(s.skip(1)) == Some((head, b0.len())));
        let n = b0.len();
        assert(s.len() == 1 + n + 1 + cat.len() + rest.len());
        let nc = if n <= s.len() {
            n
        } else {
            s.len()
        };
        assert(nc == n);
        assert(1 + nc < s.len());
        assert(s[1 + n as int] == (b0 + rest1)[n as int]);
        assert((b0 + rest1)[n as int] == rest1[0]);
        assert(s.skip(2 + nc as int) =~= cat + rest);
        lemma_basic_children_round_trip(tail, rest);
        assert(basic_decode_children(s.skip(2 + nc as int)) == Some((tail, cat.len())));
        assert(seq![head] + tail =~= cs);
        assert(basic_decode_children(s) == Some((cs, 2 + n + cat.len())));
        assert(basic_children(cs).len() == 2 + n + cat.len());
    }
}

/// Round trip: the basic codec decodes its own encoding of any tree back to
/// that tree.
pub proof fn lemma_basic_round_trip(t: Tree)
    ensures
        basic_decode(basic_encode(t)) == Some(t),
{
    lemma_basic_body_round_trip(t, Seq::empty());
    assert(basic_body(t) + Seq::<u8>::empty() =~= basic_body(t));
}

/// The encoding is a function of the tree alone: equal trees yield identical
/// bytes. Together with `Encoder::serialize`'s contract this makes encoding
/// deterministic across calls.
pub proof fn lemma_basic_encode_deterministic(t1: Tree, t2: Tree)
    requires
        t1 == t2,
    ensures
        basic_encode(t1) == basic_encode(t2),
{
}

/// Appending one more child extends the slots by one more wrapped body.
proof fn lemma_basic_children_snoc(s: Seq<Tree>, x: Tree)
    ensures
        basic_children(s.push(x)) == basic_children(s) + seq![LIST_MARKER] + basic_body(x)
            + seq![LIST_END],
    decreases s,
{
    reveal_with_fuel(basic_children, 3);
    if s.len() == 0 {
        assert(s.push(x).drop_first() =~= Seq::<Tree>::empty());
        assert(s.push(x).first() == x);
        assert(basic_children(s.push(x)) =~= basic_children(s) + seq![LIST_MARKER] + basic_body(x)
            + seq![LIST_END]);
    } else {
        assert(s.push(x).first() == s.first());
        assert(s.push(x).drop_first() =~= s.drop_first().push(x));
        lemma_basic_children_snoc(s.drop_first(), x);
        assert(basic_children(s.push(x)) =~= basic_children(s) + seq![LIST_MARKER] + basic_body(x)
            + seq![LIST_END]);
    }
}

/// Append the body of `t` to `out`.
#[verifier::loop_isolation(false)]
fn encode_body(t: &Concrete, out: &mut Vec<u8>)
    ensures
        final(out)@ == old(out)@ + basic_body(t@),
    decreases t,
{
    match t {
        Concrete::Value(b) => {
            out.push(VALUE_MARKER);
            out.push(*b);
            proof {
                assert(out@ =~= old(out)@ + basic_body(t@));
            }
        },
        Concrete::List(cs) => {
            proof {
                lemma_seq_view(cs@);
            }
            let ghost sv = seq_view(cs@);
            let mut i: usize = 0;
            while i < cs.len()
                invariant
                    i <= cs@.len(),
                    out@ == old(out)@ + basic_children(sv.take(i as int)),
                decreases cs@.len() - i,
            {
                proof {
                    assert(*t == Concrete::List(*cs));
                    assert(decreases_to!(*t => t->List_0));
                    assert(decreases_to!(*cs => cs@));
                    assert(decreases_to!(cs@ => cs@[i as int]));
                }
                out.push(LIST_MARKER);
                encode_body(&cs[i], out);
                out.push(LIST_END);
                proof {
                    lemma_basic_children_snoc(sv.take(i as int), sv[i as int]);
                    assert(sv.take(i + 1) =~= sv.take(i as int).push(sv[i as int]));
                    assert(out@ =~= old(out)@ + basic_children(sv.take(i + 1)));
                }
                i += 1;
            }
            proof {
                assert(sv.take(cs@.len() as int) =~= sv);
                assert(t@ == Tree::List(sv));
            }
        },
    }
}

/// Parse one body at `pos`, mirroring `basic_decode_body`.
#[verifier::loop_isolation(false)]
fn parse_body(data: &Vec<u8>, pos: usize) -> (r: Result<(Concrete, usize), FormatError>)
    requires
        pos <= data@.len(),
    ensures
        match r {
            Ok(p) => pos + p.1 <= data@.len() && basic_decode_body(data@.skip(pos as int))
                == Some((p.0@, p.1 as nat)),
            Err(_) => basic_decode_body(data@.skip(pos as int)) is None,
        },
    decreases data@.len() - pos, 1nat,
{
    let ghost s = data@.skip(pos as int);
    if pos == data.len() {
        let r = Concrete::List(Vec::new());
        proof {
            assert(r@ == Tree::List(seq_view(Seq::empty())));
            assert(seq_view(Seq::empty()) =~= Seq::<Tree>::empty());
        }
        return Ok((r, 0));
    }
    let m = data[pos];
    assert(m == s[0]);
    if m == VALUE_MARKER {
        if pos + 1 < data.len() {
            let b = data[pos + 1];
            assert(b == s[1]);
            Ok((Concrete::Value(b), 2))
        } else {
            assert(s.len() < 2);
            Err(FormatError)
        }
    } else if m == LIST_END {
        let r = Concrete::List(Vec::new());
        proof {
            assert(seq_view(Seq::empty()) =~= Seq::<Tree>::empty());
        }
        Ok((r, 0))
    } else if m == LIST_MARKER {
        match parse_children(data, pos) {
            Ok((cs, n)) => Ok((Concrete::List(cs), n)),
            Err(e) => Err(e),
        }
    } else {
        Err(FormatError)
    }
}

/// Parse child slots from `pos` on while the input continues with a list
/// marker, mirroring `basic_decode_children`.
#[verifier::loop_isolation(false)]
fn parse_children(data: &Vec<u8>, pos: usize) -> (r: Result<(Vec<Concrete>, usize), FormatError>)
    requires
        pos <= data@.len(),
    ensures
        match r {
            Ok(p) => pos + p.1 <= data@.len() && basic_decode_children(data@.skip(pos as int))
                == Some((seq_view(p.0@), p.1 as nat)),
            Err(_) => basic_decode_children(data@.skip(pos as int)) is None,
        },
    decreases data@.len() - pos, 0nat,
{
    let ghost s0 = data@.skip(pos as int);
    let mut cs: Vec<Concrete> = Vec::new();
    let mut cur: usize = pos;
    proof {
        assert(seq_view(cs@) =~= Seq::<Tree>::empty());
    }
    while cur < data.len() && data[cur] == LIST_MARKER
        invariant
            pos <= cur <= data@.len(),
            seq_view(cs@).len() == cs@.len(),
            match basic_decode_children(data@.skip(cur as int)) {
                Some(p) => basic_decode_children(s0) == Some(
                    (seq_view(cs@) + p.0, ((cur - pos) + p.1) as nat),
                ),
                None => basic_decode_children(s0) is None,
            },
        decreases data@.len() - cur,
    {
        let ghost sc = data@.skip(cur as int);
        assert(sc[0] == LIST_MARKER);
        match parse_body(data, cur + 1) {
            Err(e) => {
                proof {
                    assert(sc.skip(1) =~= data@.skip(cur + 1));
                    assert(basic_decode_children(sc) is None);
                }
                return Err(e);
            },
            Ok((c, n)) => {
                proof {
                    assert(sc.skip(1) =~= data@.skip(cur + 1));
                    assert(basic_decode_body(sc.skip(1)) == Some((c@, n as nat)));
                }
                let end = cur + 1 + n;
                let ghost nc: nat = if n as nat <= sc.len() {
                    n as nat
                } else {
                    sc.len()
                };
                proof {
                    assert(nc == n as nat);
                }
                if end < data.len() && data[end] == LIST_END {
                    proof {
                        assert(sc[1 + nc as int] == data@[end as int]);
                        assert(sc.skip(2 + nc as int) =~= data@.skip(end + 1));
                        assert(basic_decode_children(sc) == match basic_decode_children(
                            data@.skip(end + 1),
                        ) {
                            Some((cs2, m)) => Some((seq![c@] + cs2, 2 + nc + m)),
                            None => None,
                        });
                    }
                    let ghost old_cs = cs@;
                    cs.push(c);
                    proof {
                        assert(cs@ =~= old_cs.push(c));
                        assert(cs@.drop_last() =~= old_cs);
                        assert(cs@.last() == c);
                        assert(seq_view(cs@) =~= seq_view(old_cs).push(c@));
                        lemma_seq_view(cs@);
                        assert forall|cs2: Seq<Tree>|
                            true implies seq_view(old_cs) + (seq![c@] + cs2) =~= seq_view(cs@)
                            + cs2 by {}
                    }
                    cur = end + 1;
                } else {
                    proof {
                        assert(!(1 + nc < sc.len() && sc[1 + nc as int] == LIST_END));
                        assert(basic_decode_children(sc) is None);
                    }
                    return Err(FormatError);
                }
            },
        }
    }
    proof {
        let sc = data@.skip(cur as int);
        if cur < data@.len() {
            assert(sc[0] == data@[cur as int]);
            assert(sc[0] != LIST_MARKER);
        }
        assert(basic_decode_children(sc) == Some((Seq::<Tree>::empty(), 0nat)));
        assert(seq_view(cs@) + Seq::<Tree>::empty() =~= seq_view(cs@));
    }
    Ok((cs, cur - pos))
}

impl Encoder for BasicEncoding {
    open spec fn spec_serialize(&self, t: Tree) -> Seq<u8> {
        basic_encode(t)
    }

    fn serialize(&self, v: &Concrete) -> (out: Vec<u8>) {
        let mut out = Vec::new();
        encode_body(v, &mut out);
        proof {
            assert(out@ =~= basic_encode(v@));
        }
        out
    }
}

impl Decoder for BasicEncoding {
    open spec fn spec_deserialize(&self, s: Seq<u8>) -> Option<Tree> {
        basic_decode(s)
    }

    fn deserialize(&self, data: &Vec<u8>) -> (r: Result<Concrete, FormatError>) {
        proof {
            assert(data@.skip(0) =~= data@);
        }
        match parse_body(data, 0) {
            Ok((c, n)) => {
                if n == data.len() {
                    Ok(c)
                } else {
                    Err(FormatError)
                }
            },
            Err(e) => Err(e),
        }
    }
}

} // verus!
