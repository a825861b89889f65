use leaf_codec::basic_encoding::BasicEncoding;
use leaf_codec::encoding::Decoder;
use leaf_codec::encoding::Encoder;
use leaf_codec::encoding::EncodedLeafTree;
use leaf_codec::leaf_tree::view_to_concrete;
use leaf_codec::leaf_tree::Concrete;
use leaf_codec::prefix_encoding::PrefixCompressedEncoding;
use leaf_codec::prefix_encoding::PrefixEncoding;

fn encode_round_trip<T: Encoder + Decoder>(c: &Concrete, e: T) {
    let input_copy = view_to_concrete(c);
    assert_eq!(&input_copy, c, "copy");

    let encoded = e.serialize(c);
    let decoded_view = EncodedLeafTree { decoder: e, data: encoded };
    let decoded_copy = decoded_view.to_concrete().unwrap();
    assert_eq!(&decoded_copy, c, "decode");
}

fn check(c: Concrete, v: Vec<u8>) {
    encode_round_trip(&c, BasicEncoding);
    let encoded = BasicEncoding.serialize(&c);
    assert_eq!(encoded, v, "encode");
    check2(c);
}

fn check2(c: Concrete) {
    encode_round_trip(&c, BasicEncoding);
    encode_round_trip(&c, PrefixEncoding);
    encode_round_trip(&c, PrefixCompressedEncoding);
}

#[test]
fn encode_empty() {
    check(Concrete::List(vec![]), Vec::<u8>::new());
}

#[test]
fn encode_value() {
    check(Concrete::Value(12), vec![1, 12]);
}

#[test]
fn encode_list() {
    check(Concrete::List(vec![Concrete::Value(12)]), vec![0, 1, 12, 2]);
}

#[test]
fn encode_list2() {
    check(
        Concrete::List(vec![Concrete::Value(12), Concrete::Value(13)]),
        vec![0, 1, 12, 2, 0, 1, 13, 2],
    );
}

#[test]
fn encode_list_dup() {
    check2(Concrete::List(vec![
        Concrete::List(vec![Concrete::Value(12)]),
        Concrete::List(vec![Concrete::Value(12)]),
        Concrete::List(vec![Concrete::Value(12)]),
        Concrete::List(vec![Concrete::Value(12)]),
    ]));
}

#[test]
fn encode_list_dup2() {
    check2(Concrete::List(vec![
        Concrete::List(vec![Concrete::Value(12)]),
        Concrete::List(vec![Concrete::Value(12), Concrete::Value(12)]),
        Concrete::List(vec![Concrete::Value(12)]),
        Concrete::List(vec![Concrete::Value(13)]),
    ]));
}

fn four_identical_singletons() -> Concrete {
    Concrete::List(vec![
        Concrete::List(vec![Concrete::Value(12)]),
        Concrete::List(vec![Concrete::Value(12)]),
        Concrete::List(vec![Concrete::Value(12)]),
        Concrete::List(vec![Concrete::Value(12)]),
    ])
}

fn repeated_unique_mix() -> Concrete {
    Concrete::List(vec![
        Concrete::List(vec![Concrete::Value(12)]),
        Concrete::List(vec![Concrete::Value(12), Concrete::Value(12)]),
        Concrete::List(vec![Concrete::Value(12)]),
        Concrete::List(vec![Concrete::Value(13)]),
    ])
}

#[test]
fn compressed_is_smaller_on_repetition() {
    // A repeated subtree must be big enough to beat the five bytes a
    // back-reference costs on the wire.
    let record = || {
        Concrete::List(vec![
            Concrete::Value(1),
            Concrete::Value(2),
            Concrete::Value(3),
            Concrete::Value(4),
        ])
    };
    let c = Concrete::List(vec![record(), record(), record(), record()]);
    let plain = PrefixEncoding.serialize(&c);
    let compressed = PrefixCompressedEncoding.serialize(&c);
    assert!(compressed.len() < plain.len());
}

#[test]
fn encode_deterministic() {
    let c = repeated_unique_mix();
    assert_eq!(BasicEncoding.serialize(&c), BasicEncoding.serialize(&c));
    assert_eq!(PrefixEncoding.serialize(&c), PrefixEncoding.serialize(&c));
    assert_eq!(
        PrefixCompressedEncoding.serialize(&c),
        PrefixCompressedEncoding.serialize(&c)
    );
}

#[test]
fn copy_view_is_idempotent() {
    let c = repeated_unique_mix();
    let once = view_to_concrete(&c);
    let twice = view_to_concrete(&once);
    assert_eq!(twice, once);
    assert_eq!(once, c);
}

#[test]
fn prefix_small_list_uses_inline_marker() {
    let c = Concrete::List(vec![Concrete::Value(12), Concrete::Value(13)]);
    let bytes = PrefixEncoding.serialize(&c);
    assert_eq!(bytes, vec![130, 1, 12, 1, 13]);
}

#[test]
fn prefix_long_list_uses_long_marker() {
    let mut children = Vec::new();
    for _ in 0..128 {
        children.push(Concrete::Value(7));
    }
    let c = Concrete::List(children);
    let bytes = PrefixEncoding.serialize(&c);
    assert_eq!(bytes[0], 0);
    assert_eq!(&bytes[1..9], &[128, 0, 0, 0, 0, 0, 0, 0]);
    assert_eq!(bytes.len(), 9 + 128 * 2);
    encode_round_trip(&c, PrefixEncoding);
    encode_round_trip(&c, PrefixCompressedEncoding);
}

#[test]
fn nested_empty_list_round_trips() {
    check2(Concrete::List(vec![Concrete::List(vec![])]));
    check2(Concrete::List(vec![
        Concrete::List(vec![]),
        Concrete::List(vec![Concrete::List(vec![])]),
    ]));
}

#[test]
fn empty_input_decodes_to_empty_list() {
    let empty: Vec<u8> = vec![];
    assert_eq!(
        BasicEncoding.deserialize(&empty).unwrap(),
        Concrete::List(vec![])
    );
    assert_eq!(
        PrefixEncoding.deserialize(&empty).unwrap(),
        Concrete::List(vec![])
    );
    assert_eq!(
        PrefixCompressedEncoding.deserialize(&empty).unwrap(),
        Concrete::List(vec![])
    );
}

#[test]
fn basic_rejects_malformed_input() {
    assert!(BasicEncoding.deserialize(&vec![3]).is_err());
    assert!(BasicEncoding.deserialize(&vec![1]).is_err());
    assert!(BasicEncoding.deserialize(&vec![1, 12, 0]).is_err());
    assert!(BasicEncoding.deserialize(&vec![0, 1, 12]).is_err());
    assert!(BasicEncoding.deserialize(&vec![2]).is_err());
}

#[test]
fn prefix_rejects_malformed_input() {
    assert!(PrefixEncoding.deserialize(&vec![3]).is_err());
    assert!(PrefixEncoding.deserialize(&vec![1]).is_err());
    assert!(PrefixEncoding.deserialize(&vec![129]).is_err());
    assert!(PrefixEncoding.deserialize(&vec![0, 1, 0, 0]).is_err());
    assert!(PrefixEncoding.deserialize(&vec![1, 12, 1, 13]).is_err());
    assert!(PrefixEncoding.deserialize(&vec![4, 0, 0, 0, 0]).is_err());
}

#[test]
fn compressed_rejects_malformed_input() {
    assert!(PrefixCompressedEncoding.deserialize(&vec![3]).is_err());
    assert!(PrefixCompressedEncoding.deserialize(&vec![4, 0, 0, 0]).is_err());
    assert!(
        PrefixCompressedEncoding
            .deserialize(&vec![4, 0, 0, 0, 0])
            .is_err(),
        "back-reference into an empty dictionary"
    );
    assert!(
        PrefixCompressedEncoding
            .deserialize(&vec![129, 4, 1, 0, 0, 0])
            .is_err(),
        "back-reference beyond the dictionary"
    );
}

#[test]
fn compressed_back_reference_decodes() {
    let c = four_identical_singletons();
    let bytes = PrefixCompressedEncoding.serialize(&c);
    assert_eq!(bytes[0], 132, "inline list of four");
    assert_eq!(bytes[1], 129, "first singleton written out");
    assert_eq!(bytes[2], 1);
    assert_eq!(bytes[3], 12);
    assert_eq!(&bytes[4..9], &[4, 0, 0, 0, 0], "second is a back-reference");
    let decoded = PrefixCompressedEncoding.deserialize(&bytes).unwrap();
    assert_eq!(decoded, c);
}

#[test]
fn reencoding_a_decoded_view_reproduces_the_bytes() {
    let c = repeated_unique_mix();
    let encoded = PrefixCompressedEncoding.serialize(&c);
    let decoded_view = EncodedLeafTree { decoder: PrefixCompressedEncoding, data: encoded };
    let decoded_copy = decoded_view.to_concrete().unwrap();
    let encoded2 = PrefixCompressedEncoding.serialize(&decoded_copy);
    assert_eq!(decoded_view.data, encoded2);
}
