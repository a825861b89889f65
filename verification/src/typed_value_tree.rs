//! The typed value tree data model: an n-ary tree whose interior nodes carry
//! a type id and group ordered child sequences under field ids, and whose
//! leaves carry a type id and a byte payload.
//!
//! `TypedTree` is the mathematical model; `Concrete` is the in-memory form.
//! A struct node keeps its entries in insertion order; field ids within one
//! struct are unique, and emission follows the stored order.

use vstd::prelude::*;

verus! {

broadcast use vstd::std_specs::vec::group_vec_axioms;

/// Mathematical model of a typed value tree. A struct node maps field ids to
/// ordered sequences of children, kept as an ordered sequence of entries; a
/// leaf node holds a byte payload.
#[verifier::ext_equal]
pub enum TypedTree {
    Struct(u128, Seq<(u128, Seq<TypedTree>)>),
    Leaf(u128, Seq<u8>),
}

/// One struct entry of the in-memory form: a field id and the ordered
/// children filed under it.
#[derive(Debug, PartialEq, Eq)]
pub struct Field {
    pub name: u128,
    pub children: Vec<Concrete>,
}

/// Content of an in-memory typed value tree node.
#[derive(Debug, PartialEq, Eq)]
pub enum StructOrValue {
    Struct(Vec<Field>),
    Value(Vec<u8>),
}

/// In-memory typed value tree. Its view is the `TypedTree` with the same
/// structure.
#[derive(Debug, PartialEq, Eq)]
pub struct Concrete {
    pub type_id: u128,
    pub content: StructOrValue,
}

/// Callback protocol for the top level of a typed value tree: exactly one of
/// the two methods is called, depending on the node's content.
pub trait TypeVisitor {
    /// Called if the node is a struct, with its entries.
    fn visit_map(&mut self, type_id: &u128, t: &Vec<Field>);

    /// Called if the node is a leaf, with its byte payload.
    fn visit_value(&mut self, type_id: &u128, t: &[u8]);
}

/// Callback protocol for the entries of a struct node, one call per entry in
/// stored order.
pub trait MapVisitor {
    fn visit(&mut self, name: &u128, children: &Vec<Concrete>);
}

/// Callback protocol for the children filed under one entry, one call per
/// child in order.
pub trait ListVisitor {
    fn visit(&mut self, child: &Concrete);
}

impl Concrete {
    /// Report this node to the visitor: its entries as a map, or its bytes
    /// as a leaf.
    pub fn visit<V: TypeVisitor>(&self, v: &mut V) {
        match &self.content {
            StructOrValue::Struct(fs) => {
                v.visit_map(&self.type_id, fs);
            },
            StructOrValue::Value(bytes) => {
                v.visit_value(&self.type_id, bytes.as_slice());
            },
        }
    }
}

/// Report each entry of a struct node's map to the visitor, in stored order.
pub fn visit_fields<V: MapVisitor>(fs: &Vec<Field>, v: &mut V) {
    let mut i: usize = 0;
    while i < fs.len()
        decreases fs@.len() - i,
    {
        v.visit(&fs[i].name, &fs[i].children);
        i += 1;
    }
}

/// Report each child of one entry to the visitor, in order.
pub fn visit_children<V: ListVisitor>(cs: &Vec<Concrete>, v: &mut V) {
    let mut i: usize = 0;
    while i < cs.len()
        decreases cs@.len() - i,
    {
        v.visit(&cs[i]);
        i += 1;
    }
}

/// The views of the elements of a sequence of concrete typed trees.
pub open spec fn typed_seq_view(s: Seq<Concrete>) -> Seq<TypedTree>
    decreases s,
{
    if s.len() == 0 {
        Seq::empty()
    } else {
        typed_seq_view(s.drop_last()).push(s.last()@)
    }
}

/// The views of the entries of a sequence of fields, in stored order.
pub open spec fn fields_view(s: Seq<Field>) -> Seq<(u128, Seq<TypedTree>)>
    decreases s,
{
    if s.len() == 0 {
        Seq::empty()
    } else {
        fields_view(s.drop_last()).push((s.last().name, typed_seq_view(s.last().children@)))
    }
}

impl View for Concrete {
    type V = TypedTree;

    open spec fn view(&self) -> TypedTree
        decreases self,
    {
        match &self.content {
            StructOrValue::Struct(fs) => TypedTree::Struct(self.type_id, fields_view(fs@)),
            StructOrValue::Value(bytes) => TypedTree::Leaf(self.type_id, bytes@),
        }
    }
}

/// `typed_seq_view` maps each element to its view and keeps the length.
pub proof fn lemma_typed_seq_view(s: Seq<Concrete>)
    ensures
        typed_seq_view(s).len() == s.len(),
        forall|i: int| 0 <= i < s.len() ==> typed_seq_view(s)[i] == #[trigger] s[i]@,
    decreases s,
{
    if s.len() > 0 {
        lemma_typed_seq_view(s.drop_last());
        assert(typed_seq_view(s) == typed_seq_view(s.drop_last()).push(s.last()@));
        assert forall|i: int| 0 <= i < s.len() implies typed_seq_view(s)[i] == #[trigger] s[i]@ by {
            if i < s.len() - 1 {
                assert(typed_seq_view(s)[i] == typed_seq_view(s.drop_last())[i]);
                assert(s.drop_last()[i] == s[i]);
            } else {
                assert(s.last() == s[i]);
            }
        }
    }
}

/// `fields_view` maps each entry to its id and children views and keeps the
/// length.
pub proof fn lemma_fields_view(s: Seq<Field>)
    ensures
        fields_view(s).len() == s.len(),
        forall|i: int|
            0 <= i < s.len() ==> fields_view(s)[i] == (
            #[trigger] s[i].name,
            typed_seq_view(s[i].children@),
            ),
    decreases s,
{
    if s.len() > 0 {
        lemma_fields_view(s.drop_last());
        assert(fields_view(s) == fields_view(s.drop_last()).push(
            (s.last().name, typed_seq_view(s.last().children@)),
        ));
        assert forall|i: int|
            0 <= i < s.len() implies fields_view(s)[i] == (
            #[trigger] s[i].name,
            typed_seq_view(s[i].children@),
        ) by {
            if i < s.len() - 1 {
                assert(fields_view(s)[i] == fields_view(s.drop_last())[i]);
                assert(s.drop_last()[i] == s[i]);
            } else {
                assert(s.last() == s[i]);
            }
        }
    }
}

/// Field ids are unique within one entry sequence.
pub open spec fn distinct_names(fs: Seq<(u128, Seq<TypedTree>)>) -> bool {
    forall|i: int, j: int| 0 <= i < j < fs.len() ==> (#[trigger] fs[i]).0 != (#[trigger] fs[j]).0
}

/// Materialize any typed value tree view into the concrete form: a deep copy
/// whose type ids, field ids, payloads and child order equal the input's.
/// Stored entry order is preserved, so copying is deterministic and copying
/// a copy returns the same tree again.
#[verifier::loop_isolation(false)]
pub fn view_to_concrete(t: &Concrete) -> (r: Concrete)
    ensures
        r@ == t@,
    decreases t,
{
    match &t.content {
        StructOrValue::Value(bytes) => {
            let mut out_bytes: Vec<u8> = Vec::new();
            let mut i: usize = 0;
            while i < bytes.len()
                invariant
                    i <= bytes@.len(),
                    out_bytes@ == bytes@.take(i as int),
                decreases bytes@.len() - i,
            {
                out_bytes.push(bytes[i]);
                proof {
                    assert(out_bytes@ =~= bytes@.take(i + 1));
                }
                i += 1;
            }
            proof {
                assert(bytes@.take(bytes@.len() as int) =~= bytes@);
            }
            Concrete { type_id: t.type_id, content: StructOrValue::Value(out_bytes) }
        },
        StructOrValue::Struct(fs) => {
            proof {
                lemma_fields_view(fs@);
            }
            let mut out_fields: Vec<Field> = Vec::new();
            let mut i: usize = 0;
            while i < fs.len()
                invariant
                    i <= fs@.len(),
                    out_fields@.len() == i,
                    fields_view(out_fields@).len() == i,
                    forall|j: int|
                        0 <= j < i ==> fields_view(out_fields@)[j] == fields_view(fs@)[j],
                decreases fs@.len() - i,
            {
                let entry = &fs[i];
                proof {
                    lemma_typed_seq_view(entry.children@);
                }
                let mut out_children: Vec<Concrete> = Vec::new();
                let mut k: usize = 0;
                while k < entry.children.len()
                    invariant
                        k <= entry.children@.len(),
                        out_children@.len() == k,
                        typed_seq_view(out_children@).len() == k,
                        forall|j: int|
                            0 <= j < k ==> typed_seq_view(out_children@)[j] == typed_seq_view(
                                entry.children@,
                            )[j],
                    decreases entry.children@.len() - k,
                {
                    proof {
                        assert(decreases_to!(*t => t.content));
                        assert(t.content == StructOrValue::Struct(*fs));
                        assert(decreases_to!(t.content => t.content->Struct_0));
                        assert(decreases_to!(*fs => fs@));
                        assert(decreases_to!(fs@ => fs@[i as int]));
                        assert(fs@[i as int] == *entry);
                        assert(decreases_to!(*entry => entry.children));
                        assert(decreases_to!(entry.children => entry.children@));
                        assert(decreases_to!(entry.children@ => entry.children@[k as int]));
                    }
                    let c = view_to_concrete(&entry.children[k]);
                    let ghost old_oc = out_children@;
                    out_children.push(c);
                    proof {
                        assert(out_children@.drop_last() =~= old_oc);
                        lemma_typed_seq_view(out_children@);
                        assert forall|j: int|
                            0 <= j < k + 1 implies typed_seq_view(out_children@)[j]
                            == typed_seq_view(entry.children@)[j] by {
                            if j < k {
                                assert(typed_seq_view(out_children@)[j] == typed_seq_view(old_oc)[j]);
                            }
                        }
                    }
                    k += 1;
                }
                proof {
                    assert(typed_seq_view(out_children@) =~= typed_seq_view(entry.children@));
                }
                let ghost old_of = out_fields@;
                out_fields.push(Field { name: entry.name, children: out_children });
                proof {
                    assert(out_fields@.drop_last() =~= old_of);
                    lemma_fields_view(out_fields@);
                    assert forall|j: int|
                        0 <= j < i + 1 implies fields_view(out_fields@)[j] == fields_view(
                        fs@,
                    )[j] by {
                        if j < i {
                            assert(fields_view(out_fields@)[j] == fields_view(old_of)[j]);
                        } else {
                            assert(out_fields@[j] == out_fields@.last());
                        }
                    }
                }
                i += 1;
            }
            proof {
                assert(fields_view(out_fields@) =~= fields_view(fs@));
            }
            Concrete { type_id: t.type_id, content: StructOrValue::Struct(out_fields) }
        },
    }
}

} // verus!
