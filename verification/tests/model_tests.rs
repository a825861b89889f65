use leaf_codec::basic_encoding::BasicEncoding;
use leaf_codec::encoding::Decoder;
use leaf_codec::encoding::Encoder;
use leaf_codec::into_typed_value_tree::struct_to_typed;
use leaf_codec::into_typed_value_tree::terminal_to_typed;
use leaf_codec::into_typed_value_tree::visit_list_field;
use leaf_codec::into_typed_value_tree::visit_single_field;
use leaf_codec::into_typed_value_tree::Struct;
use leaf_codec::into_typed_value_tree::Terminal;
use leaf_codec::leaf_tree;
use leaf_codec::leaf_tree::get_shape;
use leaf_codec::leaf_tree::tree_eq;
use leaf_codec::leaf_tree_template::assert_compliance;
use leaf_codec::leaf_tree_template::assert_pattern_compliance;
use leaf_codec::leaf_tree_template::BytePatternChild;
use leaf_codec::leaf_tree_template::BytePatternTemplate;
use leaf_codec::leaf_tree_template::OffsetTemplateUse;
use leaf_codec::leaf_tree_template::TreeTemplate;
use leaf_codec::prefix_encoding::PrefixCompressedEncoding;
use leaf_codec::prefix_encoding::PrefixEncoding;
use leaf_codec::test_data::Color;
use leaf_codec::test_data::TestData;
use leaf_codec::type_to_leaf::unflatten_concrete;
use leaf_codec::type_to_leaf::TypeViewer;
use leaf_codec::typed_value_tree::view_to_concrete;
use leaf_codec::typed_value_tree::Concrete;
use leaf_codec::typed_value_tree::Field;
use leaf_codec::typed_value_tree::StructOrValue;

fn typed_leaf(type_id: u128, bytes: Vec<u8>) -> Concrete {
    Concrete { type_id, content: StructOrValue::Value(bytes) }
}

#[test]
fn test_view_to_concrete() {
    let c = Concrete {
        type_id: 1,
        content: StructOrValue::Struct(vec![Field {
            name: 1,
            children: vec![typed_leaf(1, vec![1u8, 2u8, 3u8])],
        }]),
    };

    let c2 = view_to_concrete(&c);
    assert_eq!(c, c2);
}

#[test]
fn field_helpers_keep_ids_unique() {
    let mut v: Vec<Field> = Vec::new();
    visit_single_field(&mut v, 10, typed_leaf(3, vec![1]));
    visit_list_field(&mut v, 20, vec![typed_leaf(3, vec![2]), typed_leaf(3, vec![3])]);
    assert_eq!(v.len(), 2);
    assert_eq!(v[0].name, 10);
    assert_eq!(v[0].children, vec![typed_leaf(3, vec![1])]);
    assert_eq!(v[1].name, 20);
    assert_eq!(v[1].children.len(), 2);

    visit_single_field(&mut v, 10, typed_leaf(3, vec![9]));
    assert_eq!(v.len(), 2, "existing id replaced, not appended");
    assert_eq!(v[0].name, 10);
    assert_eq!(v[0].children, vec![typed_leaf(3, vec![9])]);
    assert_eq!(v[1].name, 20);
}

#[test]
fn terminal_ids_and_bytes() {
    assert_eq!(<u8 as Terminal>::get_id(), 3);
    assert_eq!(5u8.bytes(), vec![5u8]);
    assert_eq!(<TestData as Struct>::get_id(), 1);
    assert_eq!(<Color as Struct>::get_id(), 2);
}

#[test]
fn color_fields_in_declaration_order() {
    let c = Color { r: 10, g: 20, b: 30, a: 40 };
    let fields = c.fields();
    assert_eq!(fields.len(), 4);
    assert_eq!(fields[0].name, 1255454);
    assert_eq!(fields[1].name, 1215334);
    assert_eq!(fields[2].name, 1213534);
    assert_eq!(fields[3].name, 1231354);
    assert_eq!(fields[0].children, vec![typed_leaf(3, vec![10])]);
    assert_eq!(fields[3].children, vec![typed_leaf(3, vec![40])]);
}

#[test]
fn adapter_flattens_a_terminal() {
    let t = terminal_to_typed(&5u8);
    let flat = TypeViewer(&t).to_concrete();

    let mut id_leaves = vec![leaf_tree::Concrete::Value(3)];
    for _ in 0..15 {
        id_leaves.push(leaf_tree::Concrete::Value(0));
    }
    let expected = leaf_tree::Concrete::List(vec![
        leaf_tree::Concrete::List(id_leaves),
        leaf_tree::Concrete::List(vec![leaf_tree::Concrete::Value(5)]),
    ]);
    assert_eq!(flat, expected);
    assert!(tree_eq(&flat, &expected));
}

#[test]
fn adapter_distinguishes_empty_leaf_from_empty_struct() {
    let empty_leaf = typed_leaf(7, vec![]);
    let empty_struct = Concrete { type_id: 7, content: StructOrValue::Struct(vec![]) };
    let flat_leaf = TypeViewer(&empty_leaf).to_concrete();
    let flat_struct = TypeViewer(&empty_struct).to_concrete();
    assert!(!tree_eq(&flat_leaf, &flat_struct));
    match &flat_leaf {
        leaf_tree::Concrete::List(parts) => match &parts[1] {
            leaf_tree::Concrete::List(content) => assert_eq!(content.len(), 0),
            _ => panic!("content must be a list"),
        },
        _ => panic!("node must be a list"),
    }
    match &flat_struct {
        leaf_tree::Concrete::List(parts) => match &parts[1] {
            leaf_tree::Concrete::List(content) => {
                assert_eq!(content.len(), 1);
                assert_eq!(content[0], leaf_tree::Concrete::List(vec![]));
            },
            _ => panic!("content must be a list"),
        },
        _ => panic!("node must be a list"),
    }
}

#[test]
fn adapter_round_trips_through_every_codec() {
    let data = TestData {
        colors: vec![
            Color { r: 1, g: 2, b: 3, a: 255 },
            Color { r: 4, g: 5, b: 6, a: 255 },
            Color { r: 1, g: 2, b: 3, a: 255 },
        ],
    };
    let typed = struct_to_typed(&data);
    let flat = TypeViewer(&typed).to_concrete();

    let basic_bytes = BasicEncoding.serialize(&flat);
    assert_eq!(BasicEncoding.deserialize(&basic_bytes).unwrap(), flat);

    let prefix_bytes = PrefixEncoding.serialize(&flat);
    assert_eq!(PrefixEncoding.deserialize(&prefix_bytes).unwrap(), flat);

    let compressed_bytes = PrefixCompressedEncoding.serialize(&flat);
    assert_eq!(PrefixCompressedEncoding.deserialize(&compressed_bytes).unwrap(), flat);

    assert!(
        compressed_bytes.len() < prefix_bytes.len(),
        "repeated color records must compress"
    );
}

#[test]
fn reinterpreting_the_flattening_recovers_the_typed_tree() {
    let data = TestData {
        colors: vec![Color { r: 9, g: 8, b: 7, a: 6 }, Color { r: 1, g: 1, b: 1, a: 1 }],
    };
    let typed = struct_to_typed(&data);
    let flat = TypeViewer(&typed).to_concrete();
    let back = unflatten_concrete(&flat).expect("canonical shape re-interprets");
    assert_eq!(back, typed);

    let bytes = PrefixCompressedEncoding.serialize(&flat);
    let decoded = PrefixCompressedEncoding.deserialize(&bytes).unwrap();
    let back2 = unflatten_concrete(&decoded).expect("decoded canonical shape re-interprets");
    assert_eq!(back2, typed);

    let empty_leaf = typed_leaf(7, vec![]);
    let empty_struct = Concrete { type_id: 7, content: StructOrValue::Struct(vec![]) };
    assert_eq!(
        unflatten_concrete(&TypeViewer(&empty_leaf).to_concrete()).unwrap(),
        empty_leaf
    );
    assert_eq!(
        unflatten_concrete(&TypeViewer(&empty_struct).to_concrete()).unwrap(),
        empty_struct
    );
}

#[test]
fn unflatten_rejects_non_canonical_trees() {
    assert!(unflatten_concrete(&leaf_tree::Concrete::Value(5)).is_none());
    assert!(unflatten_concrete(&leaf_tree::Concrete::List(vec![])).is_none());
    assert!(
        unflatten_concrete(&leaf_tree::Concrete::List(vec![
            leaf_tree::Concrete::List(vec![leaf_tree::Concrete::Value(1)]),
            leaf_tree::Concrete::List(vec![]),
        ]))
        .is_none(),
        "a type id needs sixteen byte leaves"
    );
}

#[test]
fn shape_is_preorder_child_counts() {
    let tree = leaf_tree::Concrete::List(vec![
        leaf_tree::Concrete::Value(12),
        leaf_tree::Concrete::List(vec![leaf_tree::Concrete::Value(13)]),
    ]);
    let shape = get_shape(&tree);
    assert_eq!(shape.counts, vec![2, u32::MAX, 1, u32::MAX]);
    let value = leaf_tree::Concrete::Value(12);
    assert_eq!(get_shape(&value).counts, vec![u32::MAX]);
    let empty = leaf_tree::Concrete::List(vec![]);
    assert_eq!(get_shape(&empty).counts, vec![0]);
}

struct LeafCollector {
    bytes: Vec<u8>,
}

impl leaf_tree::Visitor for LeafCollector {
    fn visit_list(&mut self, t: &leaf_tree::Concrete) {
        t.visit(self);
    }

    fn visit_value(&mut self, t: u8) {
        self.bytes.push(t);
    }
}

#[test]
fn leaf_visitor_walks_in_order() {
    let tree = leaf_tree::Concrete::List(vec![
        leaf_tree::Concrete::Value(1),
        leaf_tree::Concrete::List(vec![
            leaf_tree::Concrete::Value(2),
            leaf_tree::Concrete::Value(3),
        ]),
        leaf_tree::Concrete::Value(4),
    ]);
    let mut collector = LeafCollector { bytes: vec![] };
    tree.visit(&mut collector);
    assert_eq!(collector.bytes, vec![1, 2, 3, 4]);
}

struct EntryCollector {
    type_ids: Vec<u128>,
    names: Vec<u128>,
    payloads: Vec<Vec<u8>>,
}

impl leaf_codec::typed_value_tree::TypeVisitor for EntryCollector {
    fn visit_map(&mut self, type_id: &u128, t: &Vec<Field>) {
        self.type_ids.push(*type_id);
        leaf_codec::typed_value_tree::visit_fields(t, self);
    }

    fn visit_value(&mut self, type_id: &u128, t: &[u8]) {
        self.type_ids.push(*type_id);
        self.payloads.push(t.to_vec());
    }
}

impl leaf_codec::typed_value_tree::MapVisitor for EntryCollector {
    fn visit(&mut self, name: &u128, children: &Vec<Concrete>) {
        self.names.push(*name);
        leaf_codec::typed_value_tree::visit_children(children, self);
    }
}

impl leaf_codec::typed_value_tree::ListVisitor for EntryCollector {
    fn visit(&mut self, child: &Concrete) {
        child.visit(self);
    }
}

#[test]
fn typed_visitors_walk_in_stored_order() {
    let color = Color { r: 10, g: 20, b: 30, a: 40 };
    let typed = struct_to_typed(&color);
    let mut collector = EntryCollector { type_ids: vec![], names: vec![], payloads: vec![] };
    typed.visit(&mut collector);
    assert_eq!(collector.type_ids, vec![2, 3, 3, 3, 3]);
    assert_eq!(collector.names, vec![1255454, 1215334, 1213534, 1231354]);
    assert_eq!(collector.payloads, vec![vec![10], vec![20], vec![30], vec![40]]);
}

#[test]
fn tree_eq_decides_structural_equality() {
    let a = leaf_tree::Concrete::List(vec![
        leaf_tree::Concrete::Value(1),
        leaf_tree::Concrete::List(vec![leaf_tree::Concrete::Value(2)]),
    ]);
    let b = leaf_tree::Concrete::List(vec![
        leaf_tree::Concrete::Value(1),
        leaf_tree::Concrete::List(vec![leaf_tree::Concrete::Value(2)]),
    ]);
    let c = leaf_tree::Concrete::List(vec![
        leaf_tree::Concrete::Value(1),
        leaf_tree::Concrete::List(vec![leaf_tree::Concrete::Value(3)]),
    ]);
    assert!(tree_eq(&a, &b));
    assert!(!tree_eq(&a, &c));
    assert!(!tree_eq(&a, &leaf_tree::Concrete::Value(1)));
}

#[test]
fn tree_template_compliance() {
    let tree = leaf_tree::Concrete::List(vec![
        leaf_tree::Concrete::Value(12),
        leaf_tree::Concrete::List(vec![leaf_tree::Concrete::Value(9)]),
    ]);
    let good = TreeTemplate::List(vec![
        TreeTemplate::ConstantValue(12),
        TreeTemplate::TreeFromStream,
    ]);
    assert!(assert_compliance(&tree, &good));

    let via_use = TreeTemplate::TreeTemplateUse(Box::new(TreeTemplate::List(vec![
        TreeTemplate::ValueFromStream,
        TreeTemplate::List(vec![TreeTemplate::ValueFromStream]),
    ])));
    assert!(assert_compliance(&tree, &via_use));

    let wrong_value = TreeTemplate::List(vec![
        TreeTemplate::ConstantValue(13),
        TreeTemplate::TreeFromStream,
    ]);
    assert!(!assert_compliance(&tree, &wrong_value));

    let wrong_arity = TreeTemplate::List(vec![TreeTemplate::ConstantValue(12)]);
    assert!(!assert_compliance(&tree, &wrong_arity));

    let unsupported = TreeTemplate::BytePatternTemplateUse(Box::new(BytePatternTemplate {
        size: 1,
        content: BytePatternChild::ConstantValue(12),
    }));
    assert!(!assert_compliance(&tree, &unsupported));
}

#[test]
fn byte_pattern_template_compliance() {
    let tree = leaf_tree::Concrete::List(vec![
        leaf_tree::Concrete::Value(12),
        leaf_tree::Concrete::Value(34),
    ]);
    let good = BytePatternTemplate {
        size: 1,
        content: BytePatternChild::List(vec![
            BytePatternChild::ConstantValue(12),
            BytePatternChild::ValueFromStreamAtOffset(0),
        ]),
    };
    assert!(assert_pattern_compliance(&tree, &good));

    let via_use = BytePatternTemplate {
        size: 1,
        content: BytePatternChild::List(vec![
            BytePatternChild::ConstantValue(12),
            BytePatternChild::TemplateUse(OffsetTemplateUse {
                template: Box::new(BytePatternTemplate {
                    size: 1,
                    content: BytePatternChild::ValueFromStreamAtOffset(0),
                }),
                offset: 0,
            }),
        ]),
    };
    assert!(assert_pattern_compliance(&tree, &via_use));

    let wrong = BytePatternTemplate {
        size: 1,
        content: BytePatternChild::List(vec![
            BytePatternChild::ConstantValue(13),
            BytePatternChild::ValueFromStreamAtOffset(0),
        ]),
    };
    assert!(!assert_pattern_compliance(&tree, &wrong));
}
