//! Declarative tree-shape and byte-pattern templates, used as a test oracle:
//! given a leaf tree and a template, decide structural conformance. List
//! arity must match, constant values must match, value-from-stream positions
//! accept any byte, tree-from-stream positions accept any subtree, and
//! template-use nodes recurse into the referenced template. Byte-pattern
//! templates with overlap semantics are unsupported and never conform.

use vstd::prelude::*;

use crate::leaf_tree::lemma_seq_view;
use crate::leaf_tree::seq_view;
use crate::leaf_tree::view_to_concrete;
use crate::leaf_tree::Concrete;
use crate::leaf_tree::Tree;

verus! {

broadcast use vstd::std_specs::vec::group_vec_axioms;

/// A byte-pattern template: a shape whose value positions are filled from a
/// data stream of the given size.
pub struct BytePatternTemplate {
    pub size: u32,
    pub content: BytePatternChild,
}

/// One node of a byte-pattern template.
pub enum BytePatternChild {
    List(Vec<BytePatternChild>),
    ConstantValue(u8),
    ValueFromStreamAtOffset(u32),
    TemplateUse(OffsetTemplateUse<Box<BytePatternTemplate>>),
}

/// A reference to another template, applied at a stream offset.
pub struct OffsetTemplateUse<T> {
    pub template: T,
    pub offset: u32,
}

/// One node of a tree-shape template.
pub enum TreeTemplate {
    List(Vec<TreeTemplate>),
    ConstantValue(u8),
    ValueFromStream,
    TreeFromStream,
    TreeTemplateUse(Box<TreeTemplate>),
    BytePatternTemplateUse(Box<BytePatternTemplate>),
}

/// Whether a leaf tree conforms to a tree-shape template.
pub open spec fn complies(t: Tree, tp: TreeTemplate) -> bool
    decreases tp,
{
    match tp {
        TreeTemplate::List(children) => match t {
            Tree::List(list) => list.len() == children@.len() && complies_seq(list, children@),
            Tree::Value(_) => false,
        },
        TreeTemplate::ConstantValue(v) => t == Tree::Value(v),
        TreeTemplate::ValueFromStream => t matches Tree::Value(_),
        TreeTemplate::TreeFromStream => true,
        TreeTemplate::TreeTemplateUse(inner) => complies(t, *inner),
        TreeTemplate::BytePatternTemplateUse(_) => false,
    }
}

/// Pairwise conformance of children to child templates.
pub open spec fn complies_seq(ts: Seq<Tree>, tps: Seq<TreeTemplate>) -> bool
    decreases tps,
{
    if tps.len() == 0 || ts.len() == 0 {
        true
    } else {
        complies(ts.first(), tps.first()) && complies_seq(ts.drop_first(), tps.drop_first())
    }
}

/// Whether a leaf tree conforms to a byte-pattern template's shape.
pub open spec fn pattern_complies(t: Tree, tp: BytePatternChild) -> bool
    decreases tp,
{
    match tp {
        BytePatternChild::List(children) => match t {
            Tree::List(list) => list.len() == children@.len() && pattern_complies_seq(
                list,
                children@,
            ),
            Tree::Value(_) => false,
        },
        BytePatternChild::ConstantValue(v) => t == Tree::Value(v),
        BytePatternChild::ValueFromStreamAtOffset(_) => t matches Tree::Value(_),
        BytePatternChild::TemplateUse(u) => pattern_complies(t, u.template.content),
    }
}

/// Pairwise conformance of children to byte-pattern child templates.
pub open spec fn pattern_complies_seq(ts: Seq<Tree>, tps: Seq<BytePatternChild>) -> bool
    decreases tps,
{
    if tps.len() == 0 || ts.len() == 0 {
        true
    } else {
        pattern_complies(ts.first(), tps.first()) && pattern_complies_seq(
            ts.drop_first(),
            tps.drop_first(),
        )
    }
}

/// Elementwise form of `complies_seq` for equal lengths.
proof fn lemma_complies_seq(ts: Seq<Tree>, tps: Seq<TreeTemplate>)
    requires
        ts.len() == tps.len(),
    ensures
        complies_seq(ts, tps) <==> (forall|i: int|
            0 <= i < ts.len() ==> complies(#[trigger] ts[i], tps[i])),
    decreases tps,
{
    if tps.len() > 0 && ts.len() > 0 {
        lemma_complies_seq(ts.drop_first(), tps.drop_first());
        if complies_seq(ts, tps) {
            assert forall|i: int| 0 <= i < ts.len() implies complies(#[trigger] ts[i], tps[i]) by {
                if i > 0 {
                    assert(ts[i] == ts.drop_first()[i - 1]);
                    assert(tps[i] == tps.drop_first()[i - 1]);
                }
            }
        }
        if forall|i: int| 0 <= i < ts.len() ==> complies(#[trigger] ts[i], tps[i]) {
            assert forall|i: int|
                0 <= i < ts.drop_first().len() implies complies(
                #[trigger] ts.drop_first()[i],
                tps.drop_first()[i],
            ) by {
                assert(ts.drop_first()[i] == ts[i + 1]);
                assert(tps.drop_first()[i] == tps[i + 1]);
            }
        }
    }
}

/// Elementwise form of `pattern_complies_seq` for equal lengths.
proof fn lemma_pattern_complies_seq(ts: Seq<Tree>, tps: Seq<BytePatternChild>)
    requires
        ts.len() == tps.len(),
    ensures
        pattern_complies_seq(ts, tps) <==> (forall|i: int|
            0 <= i < ts.len() ==> pattern_complies(#[trigger] ts[i], tps[i])),
    decreases tps,
{
    if tps.len() > 0 && ts.len() > 0 {
        lemma_pattern_complies_seq(ts.drop_first(), tps.drop_first());
        if pattern_complies_seq(ts, tps) {
            assert forall|i: int|
                0 <= i < ts.len() implies pattern_complies(#[trigger] ts[i], tps[i]) by {
                if i > 0 {
                    assert(ts[i] == ts.drop_first()[i - 1]);
                    assert(tps[i] == tps.drop_first()[i - 1]);
                }
            }
        }
        if forall|i: int| 0 <= i < ts.len() ==> pattern_complies(#[trigger] ts[i], tps[i]) {
            assert forall|i: int|
                0 <= i < ts.drop_first().len() implies pattern_complies(
                #[trigger] ts.drop_first()[i],
                tps.drop_first()[i],
            ) by {
                assert(ts.drop_first()[i] == ts[i + 1]);
                assert(tps.drop_first()[i] == tps[i + 1]);
            }
        }
    }
}

/// Decide conformance of one concrete node against a tree-shape template.
#[verifier::loop_isolation(false)]
fn complies_node(c: &Concrete, tp: &TreeTemplate) -> (r: bool)
    ensures
        r == complies(c@, *tp),
    decreases tp,
{
    match tp {
        TreeTemplate::List(children) => {
            match c {
                Concrete::List(list) => {
                    proof {
                        lemma_seq_view(list@);
                    }
                    if list.len() != children.len() {
                        return false;
                    }
                    proof {
                        lemma_complies_seq(seq_view(list@), children@);
                    }
                    let mut i: usize = 0;
                    while i < list.len()
                        invariant
                            i <= list@.len(),
                            forall|j: int|
                                0 <= j < i ==> complies(#[trigger] seq_view(list@)[j], children@[j]),
                        decreases list@.len() - i,
                    {
                        proof {
                            assert(*tp == TreeTemplate::List(*children));
                            assert(decreases_to!(*tp => tp->List_0));
                            assert(decreases_to!(*children => children@));
                            assert(decreases_to!(children@ => children@[i as int]));
                        }
                        if !complies_node(&list[i], &children[i]) {
                            proof {
                                assert(!complies(seq_view(list@)[i as int], children@[i as int]));
                            }
                            return false;
                        }
                        i += 1;
                    }
                    true
                },
                Concrete::Value(_) => false,
            }
        },
        TreeTemplate::ConstantValue(v) => {
            match c {
                Concrete::List(_) => false,
                Concrete::Value(b) => *b == *v,
            }
        },
        TreeTemplate::ValueFromStream => {
            match c {
                Concrete::List(_) => false,
                Concrete::Value(_) => true,
            }
        },
        TreeTemplate::TreeFromStream => true,
        TreeTemplate::TreeTemplateUse(inner) => complies_node(c, inner),
        TreeTemplate::BytePatternTemplateUse(_) => false,
    }
}

/// Decide conformance of one concrete node against a byte-pattern child.
#[verifier::loop_isolation(false)]
fn pattern_complies_node(c: &Concrete, tp: &BytePatternChild) -> (r: bool)
    ensures
        r == pattern_complies(c@, *tp),
    decreases tp,
{
    match tp {
        BytePatternChild::List(children) => {
            match c {
                Concrete::List(list) => {
                    proof {
                        lemma_seq_view(list@);
                    }
                    if list.len() != children.len() {
                        return false;
                    }
                    proof {
                        lemma_pattern_complies_seq(seq_view(list@), children@);
                    }
                    let mut i: usize = 0;
                    while i < list.len()
                        invariant
                            i <= list@.len(),
                            forall|j: int|
                                0 <= j < i ==> pattern_complies(
                                    #[trigger] seq_view(list@)[j],
                                    children@[j],
                                ),
                        decreases list@.len() - i,
                    {
                        proof {
                            assert(*tp == BytePatternChild::List(*children));
                            assert(decreases_to!(*tp => tp->List_0));
                            assert(decreases_to!(*children => children@));
                            assert(decreases_to!(children@ => children@[i as int]));
                        }
                        if !pattern_complies_node(&list[i], &children[i]) {
                            proof {
                                assert(!pattern_complies(
                                    seq_view(list@)[i as int],
                                    children@[i as int],
                                ));
                            }
                            return false;
                        }
                        i += 1;
                    }
                    true
                },
                Concrete::Value(_) => false,
            }
        },
        BytePatternChild::ConstantValue(v) => {
            match c {
                Concrete::List(_) => false,
                Concrete::Value(b) => *b == *v,
            }
        },
        BytePatternChild::ValueFromStreamAtOffset(_) => {
            match c {
                Concrete::List(_) => false,
                Concrete::Value(_) => true,
            }
        },
        BytePatternChild::TemplateUse(u) => pattern_complies_node(c, &u.template.content),
    }
}

/// Whether the tree conforms to the template. The view is materialized first,
/// so the decision matches the view's advertised structure.
pub fn assert_compliance(view: &Concrete, template: &TreeTemplate) -> (r: bool)
    ensures
        r == complies(view@, *template),
{
    let c = view_to_concrete(view);
    complies_node(&c, template)
}

/// Whether the tree conforms to the byte-pattern template's shape. Templates
/// whose positions overlap are unsupported; a template-use node is checked
/// against the referenced template's content.
pub fn assert_pattern_compliance(view: &Concrete, template: &BytePatternTemplate) -> (r: bool)
    ensures
        r == pattern_complies(view@, template.content),
{
    let c = view_to_concrete(view);
    pattern_complies_node(&c, &template.content)
}

} // verus!
