//! How a leaf tree is laid out within a byte sequence: the contracts that
//! every encoder and decoder implements, and the wrapper that lets an encoded
//! blob act as a tree again.

use vstd::prelude::*;

use crate::leaf_tree::Concrete;
use crate::leaf_tree::Tree;

verus! {

/// Returned by decoders on malformed input: an unknown marker byte, a
/// truncated node, a back-reference outside the dictionary, or bytes left
/// over after the root node. No partial result is produced.
#[derive(Debug, PartialEq, Eq, Structural, Clone, Copy)]
pub struct FormatError;

/// Implement this to define a way to serialize leaf trees.
pub trait Encoder {
    /// The bytes this encoder produces for a given tree.
    spec fn spec_serialize(&self, t: Tree) -> Seq<u8>;

    /// Serialize a tree into a flat byte sequence. The output depends only on
    /// the tree, so encoding equal trees yields identical bytes.
    fn serialize(&self, v: &Concrete) -> (out: Vec<u8>)
        ensures
            out@ == self.spec_serialize(v@),
    ;
}

/// Implement this to define a way to deserialize leaf trees.
pub trait Decoder {
    /// The tree this decoder reads from a byte sequence, or `None` where the
    /// bytes are malformed.
    spec fn spec_deserialize(&self, s: Seq<u8>) -> Option<Tree>;

    /// Decode a byte sequence; succeeds exactly on the inputs on which
    /// `spec_deserialize` does, and then returns that tree.
    fn deserialize(&self, data: &Vec<u8>) -> (r: Result<Concrete, FormatError>)
        ensures
            match r {
                Ok(c) => self.spec_deserialize(data@) == Some(c@),
                Err(_) => self.spec_deserialize(data@) is None,
            },
    ;
}

/// A byte blob together with the decoder that understands it. It stands for
/// the leaf tree the blob encodes and can be materialized on demand, so
/// composing codecs over codecs is transparent.
pub struct EncodedLeafTree<TDecoder> {
    pub decoder: TDecoder,
    pub data: Vec<u8>,
}

impl<TDecoder: Decoder> EncodedLeafTree<TDecoder> {
    /// Materialize the tree that `data` encodes.
    pub fn to_concrete(&self) -> (r: Result<Concrete, FormatError>)
        ensures
            match r {
                Ok(c) => self.decoder.spec_deserialize(self.data@) == Some(c@),
                Err(_) => self.decoder.spec_deserialize(self.data@) is None,
            },
    {
        self.decoder.deserialize(&self.data)
    }
}

} // verus!
