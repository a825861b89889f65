//! Adapts user types to the typed value tree data model: traits that a type
//! implements to present itself as a typed value tree, and helpers that
//! build a struct node's entries.
//!
//! An entry sequence behaves as a map in insertion order: adding a field
//! under an id already present replaces that entry's children in place, so
//! field ids stay unique; a new id is appended at the end.

use vstd::prelude::*;

use crate::typed_value_tree::distinct_names;
use crate::typed_value_tree::fields_view;
use crate::typed_value_tree::lemma_fields_view;
use crate::typed_value_tree::typed_seq_view;
use crate::typed_value_tree::Concrete;
use crate::typed_value_tree::Field;
use crate::typed_value_tree::StructOrValue;
use crate::typed_value_tree::TypedTree;

verus! {

/// Implement this for terminal / primitive types to be treated as byte
/// sequences.
pub trait Terminal {
    /// The type id under which values of this type appear.
    spec fn spec_id() -> u128;

    /// The byte payload standing for this value.
    spec fn spec_bytes(&self) -> Seq<u8>;

    fn get_id() -> (r: u128)
        ensures
            r == Self::spec_id(),
    ;

    /// The byte payload standing for this value. Must be platform
    /// independent.
    fn bytes(&self) -> (r: Vec<u8>)
        ensures
            r@ == self.spec_bytes(),
    ;
}

/// Implement this for struct / aggregate types.
pub trait Struct {
    /// The type id under which values of this type appear.
    spec fn spec_id() -> u128;

    /// This value's map entries: field ids with their children, in order.
    spec fn spec_fields(&self) -> Seq<(u128, Seq<TypedTree>)>;

    fn get_id() -> (r: u128)
        ensures
            r == Self::spec_id(),
    ;

    /// This value's entries, built with `visit_single_field` and
    /// `visit_list_field`.
    fn fields(&self) -> (r: Vec<Field>)
        ensures
            fields_view(r@) == self.spec_fields(),
    ;
}

/// Anything that carries a type id, terminal and aggregate types alike.
pub trait Named {
    fn get_id() -> u128;
}

/// Present a terminal value as a typed value tree node: a leaf carrying the
/// type's id and the value's bytes.
pub fn terminal_to_typed<T: Terminal>(t: &T) -> (r: Concrete)
    ensures
        r@ == TypedTree::Leaf(T::spec_id(), t.spec_bytes()),
{
    Concrete { type_id: T::get_id(), content: StructOrValue::Value(t.bytes()) }
}

/// Present an aggregate value as a typed value tree node: a struct carrying
/// the type's id and the value's entries.
pub fn struct_to_typed<T: Struct>(t: &T) -> (r: Concrete)
    ensures
        r@ == TypedTree::Struct(T::spec_id(), t.spec_fields()),
{
    Concrete { type_id: T::get_id(), content: StructOrValue::Struct(t.fields()) }
}

/// The first entry with this field id, if any.
pub open spec fn field_index(fs: Seq<(u128, Seq<TypedTree>)>, name: u128) -> Option<nat>
    decreases fs.len(),
{
    if fs.len() == 0 {
        None
    } else if fs.first().0 == name {
        Some(0)
    } else {
        match field_index(fs.drop_first(), name) {
            Some(i) => Some(i + 1),
            None => None,
        }
    }
}

/// A found index is in range, carries the id, and nothing before it does;
/// and an id is found whenever an entry carries it.
pub proof fn lemma_field_index(fs: Seq<(u128, Seq<TypedTree>)>, name: u128)
    ensures
        field_index(fs, name) matches Some(i) ==> i < fs.len() && fs[i as int].0 == name && (
        forall|j: int| 0 <= j < i ==> fs[j].0 != name),
        field_index(fs, name) is None ==> (forall|j: int| 0 <= j < fs.len() ==> fs[j].0 != name),
    decreases fs.len(),
{
    if fs.len() > 0 && fs.first().0 != name {
        lemma_field_index(fs.drop_first(), name);
        assert(forall|j: int| 1 <= j < fs.len() ==> fs[j] == fs.drop_first()[j - 1]);
    }
}

/// The first index carrying the id, with no earlier entry carrying it, is
/// the one `field_index` returns.
proof fn lemma_field_index_first(fs: Seq<(u128, Seq<TypedTree>)>, name: u128, i: nat)
    requires
        i < fs.len(),
        fs[i as int].0 == name,
        forall|j: int| 0 <= j < i ==> fs[j].0 != name,
    ensures
        field_index(fs, name) == Some(i),
    decreases fs.len(),
{
    if i > 0 {
        assert(fs.first().0 != name);
        assert(fs.drop_first()[i - 1] == fs[i as int]);
        assert forall|j: int| 0 <= j < i - 1 implies fs.drop_first()[j].0 != name by {
            assert(fs.drop_first()[j] == fs[j + 1]);
        }
        lemma_field_index_first(fs.drop_first(), name, (i - 1) as nat);
    }
}

/// Set the entry for `name` to `children`: replaced in place where the id is
/// already present, appended otherwise. Unique ids stay unique.
#[verifier::loop_isolation(false)]
fn set_field(v: &mut Vec<Field>, name: u128, children: Vec<Concrete>)
    ensures
        ({
            let entry = (name, typed_seq_view(children@));
            match field_index(fields_view(old(v)@), name) {
                Some(i) => fields_view(final(v)@) == fields_view(old(v)@).update(i as int, entry),
                None => fields_view(final(v)@) == fields_view(old(v)@).push(entry),
            }
        }),
        distinct_names(fields_view(old(v)@)) ==> distinct_names(fields_view(final(v)@)),
{
    proof {
        lemma_fields_view(v@);
        lemma_field_index(fields_view(v@), name);
    }
    let ghost fv0 = fields_view(v@);
    let mut i: usize = 0;
    while i < v.len()
        invariant
            i <= v@.len(),
            v@ == old(v)@,
            forall|j: int| 0 <= j < i ==> fields_view(v@)[j].0 != name,
        decreases v@.len() - i,
    {
        if v[i].name == name {
            proof {
                lemma_field_index_first(fv0, name, i as nat);
            }
            let ghost before = v@;
            let f = Field { name, children };
            v.remove(i);
            v.insert(i, f);
            proof {
                assert(v@ =~= before.update(i as int, f));
                lemma_fields_view(v@);
                assert forall|j: int|
                    0 <= j < v@.len() implies fields_view(v@)[j] == fv0.update(
                    i as int,
                    (name, typed_seq_view(f.children@)),
                )[j] by {
                    assert(fields_view(v@)[j] == (v@[j].name, typed_seq_view(v@[j].children@)));
                    if j != i {
                        assert(v@[j] == before[j]);
                        assert(fv0[j] == (before[j].name, typed_seq_view(before[j].children@)));
                    } else {
                        assert(v@[j] == f);
                    }
                }
                assert(fields_view(v@) =~= fv0.update(i as int, (name, typed_seq_view(f.children@))));
            }
            return ;
        }
        i += 1;
    }
    proof {
        if field_index(fv0, name) is Some {
            lemma_field_index(fv0, name);
        }
    }
    let ghost before = v@;
    let f = Field { name, children };
    v.push(f);
    proof {
        assert(v@.drop_last() =~= before);
        lemma_fields_view(v@);
        assert forall|j: int|
            0 <= j < v@.len() implies fields_view(v@)[j] == fv0.push(
            (name, typed_seq_view(f.children@)),
        )[j] by {
            if j < v@.len() - 1 {
                assert(v@[j] == before[j]);
            } else {
                assert(v@[j] == f);
            }
        }
        assert(fields_view(v@) =~= fv0.push((name, typed_seq_view(f.children@))));
        if distinct_names(fv0) {
            lemma_field_index(fv0, name);
        }
    }
}

/// Emit a single-element entry: the field holds exactly this one child.
pub fn visit_single_field(v: &mut Vec<Field>, name: u128, t: Concrete)
    ensures
        ({
            let entry = (name, seq![t@]);
            match field_index(fields_view(old(v)@), name) {
                Some(i) => fields_view(final(v)@) == fields_view(old(v)@).update(i as int, entry),
                None => fields_view(final(v)@) == fields_view(old(v)@).push(entry),
            }
        }),
        distinct_names(fields_view(old(v)@)) ==> distinct_names(fields_view(final(v)@)),
{
    let ghost tv = t@;
    let mut children: Vec<Concrete> = Vec::new();
    children.push(t);
    proof {
        assert(typed_seq_view(children@.drop_last()) =~= Seq::<TypedTree>::empty());
        assert(typed_seq_view(children@) =~= seq![tv]);
    }
    set_field(v, name, children);
}

/// Emit an entry holding an existing sequence of children, in order.
pub fn visit_list_field(v: &mut Vec<Field>, name: u128, children: Vec<Concrete>)
    ensures
        ({
            let entry = (name, typed_seq_view(children@));
            match field_index(fields_view(old(v)@), name) {
                Some(i) => fields_view(final(v)@) == fields_view(old(v)@).update(i as int, entry),
                None => fields_view(final(v)@) == fields_view(old(v)@).push(entry),
            }
        }),
        distinct_names(fields_view(old(v)@)) ==> distinct_names(fields_view(final(v)@)),
{
    set_field(v, name, children);
}

} // verus!
