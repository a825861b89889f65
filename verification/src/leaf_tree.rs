//! The leaf tree data model: an n-ary tree with data (other than structure)
//! only in the leaves, each leaf holding a single byte.
//!
//! `Tree` is the mathematical model used by all contracts; `Concrete` is the
//! in-memory form. The view of a `Concrete` is the `Tree` it represents.

use vstd::prelude::*;

verus! {

broadcast use vstd::std_specs::vec::group_vec_axioms;

/// Mathematical model of a leaf tree: either a list of child trees (order is
/// significant, the empty list is valid) or a single byte.
#[verifier::ext_equal]
pub enum Tree {
    List(Seq<Tree>),
    Value(u8),
}

/// In-memory leaf tree. Its view is the `Tree` with the same structure.
#[derive(Debug, PartialEq, Eq)]
pub enum Concrete {
    List(Vec<Concrete>),
    Value(u8),
}

/// The views of the elements of a sequence of concrete trees, in order.
pub open spec fn seq_view(s: Seq<Concrete>) -> Seq<Tree>
    decreases s,
{
    if s.len() == 0 {
        Seq::empty()
    } else {
        seq_view(s.drop_last()).push(s.last()@)
    }
}

impl View for Concrete {
    type V = Tree;

    open spec fn view(&self) -> Tree
        decreases self,
    {
        match self {
            Concrete::List(children) => Tree::List(seq_view(children@)),
            Concrete::Value(b) => Tree::Value(*b),
        }
    }
}

/// Every list in the tree is short enough for its length to be written as a
/// `u64`. Every in-memory tree satisfies this (see `lemma_concrete_fits`); the
/// codecs' round-trip laws are stated under it.
pub open spec fn length_fits(t: Tree) -> bool
    decreases t,
{
    match t {
        Tree::List(cs) => cs.len() <= u64::MAX && length_fits_seq(cs),
        Tree::Value(_) => true,
    }
}

/// `length_fits` for each element of a sequence of trees.
pub open spec fn length_fits_seq(s: Seq<Tree>) -> bool
    decreases s,
{
    if s.len() == 0 {
        true
    } else {
        length_fits(s.first()) && length_fits_seq(s.drop_first())
    }
}

/// Each element of a sequence satisfying `length_fits_seq` satisfies
/// `length_fits`, and conversely.
pub proof fn lemma_length_fits_seq(s: Seq<Tree>)
    ensures
        length_fits_seq(s) <==> (forall|i: int| 0 <= i < s.len() ==> length_fits(#[trigger] s[i])),
    decreases s,
{
    if s.len() > 0 {
        lemma_length_fits_seq(s.drop_first());
        if length_fits_seq(s) {
            assert forall|i: int| 0 <= i < s.len() implies length_fits(#[trigger] s[i]) by {
                if i > 0 {
                    assert(s[i] == s.drop_first()[i - 1]);
                }
            }
        }
        if forall|i: int| 0 <= i < s.len() ==> length_fits(#[trigger] s[i]) {
            assert forall|i: int| 0 <= i < s.drop_first().len()
                implies length_fits(#[trigger] s.drop_first()[i]) by {
                assert(s.drop_first()[i] == s[i + 1]);
            }
        }
    }
}

/// `seq_view` maps each element to its view and keeps the length.
pub proof fn lemma_seq_view(s: Seq<Concrete>)
    ensures
        seq_view(s).len() == s.len(),
        forall|i: int| 0 <= i < s.len() ==> seq_view(s)[i] == #[trigger] s[i]@,
    decreases s,
{
    if s.len() > 0 {
        lemma_seq_view(s.drop_last());
        assert(seq_view(s) == seq_view(s.drop_last()).push(s.last()@));
        assert forall|i: int| 0 <= i < s.len() implies seq_view(s)[i] == #[trigger] s[i]@ by {
            if i < s.len() - 1 {
                assert(seq_view(s)[i] == seq_view(s.drop_last())[i]);
                assert(s.drop_last()[i] == s[i]);
            } else {
                assert(s.last() == s[i]);
            }
        }
    }
}

/// The view of every in-memory tree satisfies `length_fits`: a `Vec` can never
/// hold more elements than a `u64` can count.
pub proof fn lemma_concrete_fits(c: Concrete)
    ensures
        length_fits(c@),
    decreases c,
{
    match c {
        Concrete::List(cs) => {
            assert(vstd::std_specs::vec::spec_vec_len(&cs) == cs@.len());
            lemma_seq_view(cs@);
            assert forall|i: int| 0 <= i < seq_view(cs@).len()
                implies length_fits(#[trigger] seq_view(cs@)[i]) by {
                lemma_concrete_fits(cs@[i]);
            }
            lemma_length_fits_seq(seq_view(cs@));
        },
        Concrete::Value(_) => {},
    }
}

/// Callback protocol for walking a leaf tree one level at a time: a list
/// node reports each child in order, a value node reports its byte once.
/// The visitor decides whether to descend into a reported child.
pub trait Visitor {
    /// Called with each child in order when visiting a list node.
    fn visit_list(&mut self, t: &Concrete);

    /// Called once with the byte when visiting a value node.
    fn visit_value(&mut self, t: u8);
}

impl Concrete {
    /// Report this node's immediate content to the visitor: its children in
    /// order, or its byte.
    pub fn visit<V: Visitor>(&self, v: &mut V) {
        match self {
            Concrete::List(list) => {
                let mut i: usize = 0;
                while i < list.len()
                    decreases list@.len() - i,
                {
                    v.visit_list(&list[i]);
                    i += 1;
                }
            },
            Concrete::Value(value) => {
                v.visit_value(*value);
            },
        }
    }
}

/// A derived view of a leaf tree: the pre-order traversal of child counts,
/// where a value node is marked by the sentinel count `u32::MAX`.
pub struct Shape {
    pub counts: Vec<u32>,
}

/// The pre-order child counts of a tree.
pub open spec fn shape_of(t: Tree) -> Seq<u32>
    decreases t,
{
    match t {
        Tree::Value(_) => seq![u32::MAX],
        Tree::List(cs) => seq![cs.len() as u32] + shape_of_seq(cs),
    }
}

/// The concatenated pre-order child counts of a run of trees.
pub open spec fn shape_of_seq(s: Seq<Tree>) -> Seq<u32>
    decreases s,
{
    if s.len() == 0 {
        Seq::empty()
    } else {
        shape_of(s.first()) + shape_of_seq(s.drop_first())
    }
}

/// Every list is short enough for its child count to stay below the value
/// sentinel.
pub open spec fn shape_fits(t: Tree) -> bool
    decreases t,
{
    match t {
        Tree::Value(_) => true,
        Tree::List(cs) => cs.len() < u32::MAX && shape_fits_seq(cs),
    }
}

/// `shape_fits` for each element of a run of trees.
pub open spec fn shape_fits_seq(s: Seq<Tree>) -> bool
    decreases s,
{
    if s.len() == 0 {
        true
    } else {
        shape_fits(s.first()) && shape_fits_seq(s.drop_first())
    }
}

/// Each element of a run satisfying `shape_fits_seq` satisfies `shape_fits`.
proof fn lemma_shape_fits_seq(s: Seq<Tree>)
    requires
        shape_fits_seq(s),
    ensures
        forall|i: int| 0 <= i < s.len() ==> shape_fits(#[trigger] s[i]),
    decreases s,
{
    if s.len() > 0 {
        lemma_shape_fits_seq(s.drop_first());
        assert forall|i: int| 0 <= i < s.len() implies shape_fits(#[trigger] s[i]) by {
            if i > 0 {
                assert(s[i] == s.drop_first()[i - 1]);
            }
        }
    }
}

/// Appending one more tree extends the run's counts by that tree's counts.
proof fn lemma_shape_of_seq_snoc(s: Seq<Tree>, x: Tree)
    ensures
        shape_of_seq(s.push(x)) == shape_of_seq(s) + shape_of(x),
    decreases s,
{
    reveal_with_fuel(shape_of_seq, 3);
    if s.len() == 0 {
        assert(s.push(x).drop_first() =~= Seq::<Tree>::empty());
        assert(s.push(x).first() == x);
        assert(shape_of_seq(s.push(x)) =~= shape_of_seq(s) + shape_of(x));
    } else {
        assert(s.push(x).first() == s.first());
        assert(s.push(x).drop_first() =~= s.drop_first().push(x));
        lemma_shape_of_seq_snoc(s.drop_first(), x);
        assert(shape_of_seq(s.push(x)) =~= shape_of_seq(s) + shape_of(x));
    }
}

/// Append the pre-order counts of one node.
#[verifier::loop_isolation(false)]
fn shape_node(t: &Concrete, counts: &mut Vec<u32>)
    requires
        shape_fits(t@),
    ensures
        final(counts)@ == old(counts)@ + shape_of(t@),
    decreases t,
{
    match t {
        Concrete::Value(_) => {
            counts.push(u32::MAX);
            proof {
                assert(counts@ =~= old(counts)@ + shape_of(t@));
            }
        },
        Concrete::List(cs) => {
            proof {
                lemma_seq_view(cs@);
                lemma_shape_fits_seq(seq_view(cs@));
            }
            let ghost sv = seq_view(cs@);
            counts.push(cs.len() as u32);
            let mut i: usize = 0;
            proof {
                assert(shape_of_seq(sv.take(0)) =~= Seq::<u32>::empty());
                assert(counts@ =~= old(counts)@ + seq![cs@.len() as u32] + shape_of_seq(
                    sv.take(0),
                ));
            }
            while i < cs.len()
                invariant
                    i <= cs@.len(),
                    counts@ == old(counts)@ + seq![cs@.len() as u32] + shape_of_seq(
                        sv.take(i as int),
                    ),
                decreases cs@.len() - i,
            {
                proof {
                    assert(*t == Concrete::List(*cs));
                    assert(decreases_to!(*t => t->List_0));
                    assert(decreases_to!(*cs => cs@));
                    assert(decreases_to!(cs@ => cs@[i as int]));
                }
                shape_node(&cs[i], counts);
                proof {
                    lemma_shape_of_seq_snoc(sv.take(i as int), sv[i as int]);
                    assert(sv.take(i + 1) =~= sv.take(i as int).push(sv[i as int]));
                    assert(counts@ =~= old(counts)@ + seq![cs@.len() as u32] + shape_of_seq(
                        sv.take(i + 1),
                    ));
                }
                i += 1;
            }
            proof {
                assert(sv.take(cs@.len() as int) =~= sv);
                assert(t@ == Tree::List(sv));
                assert(counts@ =~= old(counts)@ + shape_of(t@));
            }
        },
    }
}

/// The shape of a tree: its pre-order child counts, value nodes marked by
/// the sentinel.
pub fn get_shape(t: &Concrete) -> (r: Shape)
    requires
        shape_fits(t@),
    ensures
        r.counts@ == shape_of(t@),
{
    let mut counts: Vec<u32> = Vec::new();
    shape_node(t, &mut counts);
    proof {
        assert(counts@ =~= shape_of(t@));
    }
    Shape { counts }
}

/// View-copy idempotence: `view_to_concrete` promises only that its result's
/// view equals its argument's, so a copy of a copy stands for the same tree
/// as the first copy, and as the original.
pub proof fn lemma_view_copy_idempotent(t: Concrete, once: Concrete, twice: Concrete)
    requires
        once@ == t@,
        twice@ == once@,
    ensures
        twice@ == t@,
{
}

/// Structural equality of two in-memory trees, decided recursively.
#[verifier::loop_isolation(false)]
pub fn tree_eq(a: &Concrete, b: &Concrete) -> (r: bool)
    ensures
        r == (a@ == b@),
    decreases a,
{
    match (a, b) {
        (Concrete::Value(x), Concrete::Value(y)) => *x == *y,
        (Concrete::List(xs), Concrete::List(ys)) => {
            proof {
                lemma_seq_view(xs@);
                lemma_seq_view(ys@);
            }
            if xs.len() != ys.len() {
                return false;
            }
            let mut i: usize = 0;
            while i < xs.len()
                invariant
                    i <= xs.len(),
                    xs@.len() == ys@.len(),
                    seq_view(xs@).len() == xs@.len(),
                    seq_view(ys@).len() == ys@.len(),
                    forall|j: int| 0 <= j < xs@.len() ==> seq_view(xs@)[j] == #[trigger] xs@[j]@,
                    forall|j: int| 0 <= j < ys@.len() ==> seq_view(ys@)[j] == #[trigger] ys@[j]@,
                    forall|j: int| 0 <= j < i ==> seq_view(xs@)[j] == seq_view(ys@)[j],
                decreases xs@.len() - i,
            {
                proof {
                    assert(*a == Concrete::List(*xs));
                    assert(decreases_to!(*a => a->List_0));
                    assert(decreases_to!(*xs => xs@));
                    assert(decreases_to!(xs@ => xs@[i as int]));
                }
                if !tree_eq(&xs[i], &ys[i]) {
                    proof {
                        assert(seq_view(xs@)[i as int] != seq_view(ys@)[i as int]);
                    }
                    return false;
                }
                i += 1;
            }
            proof {
                assert(seq_view(xs@) =~= seq_view(ys@));
            }
            true
        },
        (Concrete::List(_), Concrete::Value(_)) => false,
        (Concrete::Value(_), Concrete::List(_)) => false,
    }
}

/// Materialize any leaf tree view into the concrete form: a deep copy whose
/// structure and byte payloads equal the input's. Copying a copy returns the
/// same tree again, since the result's view equals the argument's view.
#[verifier::loop_isolation(false)]
pub fn view_to_concrete(t: &Concrete) -> (r: Concrete)
    ensures
        r@ == t@,
    decreases t,
{
    match t {
        Concrete::Value(b) => Concrete::Value(*b),
        Concrete::List(cs) => {
            proof {
                lemma_seq_view(cs@);
            }
            let mut out: Vec<Concrete> = Vec::new();
            let mut i: usize = 0;
            while i < cs.len()
                invariant
                    i <= cs.len(),
                    out@.len() == i,
                    seq_view(cs@).len() == cs@.len(),
                    forall|j: int| 0 <= j < cs@.len() ==> seq_view(cs@)[j] == #[trigger] cs@[j]@,
                    forall|j: int| 0 <= j < i ==> #[trigger] out@[j]@ == seq_view(cs@)[j],
                decreases cs@.len() - i,
            {
                proof {
                    assert(*t == Concrete::List(*cs));
                    assert(decreases_to!(*t => t->List_0));
                    assert(decreases_to!(*cs => cs@));
                    assert(decreases_to!(cs@ => cs@[i as int]));
                }
                let c = view_to_concrete(&cs[i]);
                out.push(c);
                i += 1;
            }
            proof {
                lemma_seq_view(out@);
                assert forall|j: int| 0 <= j < out@.len()
                    implies seq_view(out@)[j] == seq_view(cs@)[j] by {
                    assert(seq_view(out@)[j] == out@[j]@);
                }
                assert(seq_view(out@) =~= seq_view(cs@));
            }
            Concrete::List(out)
        },
    }
}

} // verus!
