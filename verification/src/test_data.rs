//! The fixed sample payload: a sequence of RGBA color records, presented as
//! a typed value tree through the adapter traits.

use vstd::prelude::*;

use crate::into_typed_value_tree::field_index;
use crate::into_typed_value_tree::lemma_field_index;
use crate::into_typed_value_tree::struct_to_typed;
use crate::into_typed_value_tree::terminal_to_typed;
use crate::into_typed_value_tree::visit_list_field;
use crate::into_typed_value_tree::visit_single_field;
use crate::into_typed_value_tree::Named;
use crate::into_typed_value_tree::Struct;
use crate::into_typed_value_tree::Terminal;
use crate::typed_value_tree::fields_view;
use crate::typed_value_tree::typed_seq_view;
use crate::typed_value_tree::Concrete;
use crate::typed_value_tree::Field;
use crate::typed_value_tree::TypedTree;

verus! {

#[derive(Debug, PartialEq, Eq)]
pub struct TestData {
    pub colors: Vec<Color>,
}

#[derive(Debug, PartialEq, Eq, Structural, Clone, Copy)]
pub struct Color {
    pub r: u8,
    pub g: u8,
    pub b: u8,
    pub a: u8,
}

impl Terminal for u8 {
    open spec fn spec_id() -> u128 {
        3
    }

    open spec fn spec_bytes(&self) -> Seq<u8> {
        seq![*self]
    }

    fn get_id() -> (r: u128) {
        3
    }

    fn bytes(&self) -> (r: Vec<u8>) {
        let mut v = Vec::new();
        v.push(*self);
        proof {
            assert(v@ =~= seq![*self]);
        }
        v
    }
}

impl Named for u8 {
    fn get_id() -> u128 {
        <u8 as Terminal>::get_id()
    }
}

impl Struct for TestData {
    open spec fn spec_id() -> u128 {
        1
    }

    open spec fn spec_fields(&self) -> Seq<(u128, Seq<TypedTree>)> {
        seq![
            (
                1234u128,
                self.colors@.map_values(|c: Color| TypedTree::Struct(2, c.spec_fields())),
            ),
        ]
    }

    fn get_id() -> (r: u128) {
        1
    }

    #[verifier::loop_isolation(false)]
    fn fields(&self) -> (r: Vec<Field>) {
        let ghost target = self.colors@.map_values(
            |c: Color| TypedTree::Struct(2, c.spec_fields()),
        );
        let mut children: Vec<Concrete> = Vec::new();
        let mut i: usize = 0;
        proof {
            assert(typed_seq_view(children@) =~= target.take(0));
        }
        while i < self.colors.len()
            invariant
                i <= self.colors@.len(),
                target.len() == self.colors@.len(),
                typed_seq_view(children@) == target.take(i as int),
                children@.len() == i,
            decreases self.colors@.len() - i,
        {
            let c = struct_to_typed(&self.colors[i]);
            let ghost old_ch = children@;
            children.push(c);
            proof {
                assert(children@.drop_last() =~= old_ch);
                assert(children@.last()@ == target[i as int]);
                assert(typed_seq_view(children@) == typed_seq_view(children@.drop_last()).push(
                    children@.last()@,
                ));
                assert(typed_seq_view(children@) =~= target.take(i + 1));
            }
            i += 1;
        }
        proof {
            assert(target.take(target.len() as int) =~= target);
        }
        let mut v = Vec::new();
        proof {
            assert(fields_view(v@) =~= Seq::<(u128, Seq<TypedTree>)>::empty());
            lemma_field_index(fields_view(v@), 1234u128);
        }
        visit_list_field(&mut v, 1234u128, children);
        proof {
            assert(fields_view(v@) =~= self.spec_fields());
        }
        v
    }
}

impl Named for TestData {
    fn get_id() -> u128 {
        <TestData as Struct>::get_id()
    }
}

impl Struct for Color {
    open spec fn spec_id() -> u128 {
        2
    }

    open spec fn spec_fields(&self) -> Seq<(u128, Seq<TypedTree>)> {
        seq![
            (1255454u128, seq![TypedTree::Leaf(3, seq![self.r])]),
            (1215334u128, seq![TypedTree::Leaf(3, seq![self.g])]),
            (1213534u128, seq![TypedTree::Leaf(3, seq![self.b])]),
            (1231354u128, seq![TypedTree::Leaf(3, seq![self.a])]),
        ]
    }

    fn get_id() -> (r: u128) {
        2
    }

    fn fields(&self) -> (r: Vec<Field>) {
        let mut v = Vec::new();
        proof {
            assert(fields_view(v@) =~= Seq::<(u128, Seq<TypedTree>)>::empty());
        }
        let ghost f0 = fields_view(v@);
        visit_single_field(&mut v, 1255454u128, terminal_to_typed(&self.r));
        proof {
            lemma_field_index(f0, 1255454u128);
            assert(field_index(f0, 1255454u128) is None);
        }
        let ghost f1 = fields_view(v@);
        visit_single_field(&mut v, 1215334u128, terminal_to_typed(&self.g));
        proof {
            lemma_field_index(f1, 1215334u128);
            assert(field_index(f1, 1215334u128) is None);
        }
        let ghost f2 = fields_view(v@);
        visit_single_field(&mut v, 1213534u128, terminal_to_typed(&self.b));
        proof {
            lemma_field_index(f2, 1213534u128);
            assert(field_index(f2, 1213534u128) is None);
        }
        let ghost f3 = fields_view(v@);
        visit_single_field(&mut v, 1231354u128, terminal_to_typed(&self.a));
        proof {
            lemma_field_index(f3, 1231354u128);
            assert(field_index(f3, 1231354u128) is None);
            assert(fields_view(v@) =~= self.spec_fields());
        }
        v
    }
}

impl Named for Color {
    fn get_id() -> u128 {
        <Color as Struct>::get_id()
    }
}

} // verus!
