//! Huffman coding of byte strings: byte counts, a code tree built by merging
//! the two lightest nodes with ties broken by insertion order, the prefix code
//! it gives, and a self-describing artifact that decodes back to the input.

use std::collections::HashMap;
use vstd::prelude::*;
use vstd::string::StringSliceAdditionalSpecFns;

pub mod bits;
pub mod builder;
pub mod codec;
pub mod format;
pub mod laws;
pub mod tree;

use crate::builder::{byte_counts, count_of};

verus! {

/// Each byte value that occurs in `s`, with the number of its occurrences.
pub open spec fn frequency_map(s: Seq<u8>) -> Map<u8, u64> {
    Map::new(|b: u8| count_of(s, b) > 0, |b: u8| count_of(s, b) as u64)
}

/// An input waiting to be coded.
pub struct HuffmanTree {
    input: Vec<u8>,
}

impl HuffmanTree {
    /// The bytes of the input.
    pub closed spec fn view(&self) -> Seq<u8> {
        self.input@
    }

    /// Holds the bytes of `input_file`.
    pub fn new(input_file: &str) -> (r: Self)
        ensures
            r@ == input_file.spec_bytes(),
    {
        HuffmanTree { input: vstd::slice::slice_to_vec(input_file.as_bytes()) }
    }

    /// The count of each byte value that occurs in the input; an empty input
    /// gives an empty map.
    pub fn get_frequencies(&self) -> (r: HashMap<u8, u64>)
        ensures
            r@ == frequency_map(self@),
    {
        broadcast use vstd::std_specs::hash::group_hash_axioms;

        let counts = byte_counts(self.input.as_slice());
        let mut m: HashMap<u8, u64> = HashMap::new();
        let mut b: usize = 0;
        while b < 256
            invariant
                b <= 256,
                counts.len() == 256,
                forall|x: u8| #[trigger] counts@[x as int] == count_of(self@, x),
                forall|x: u8|
                    #[trigger] m@.contains_key(x) <==> (x < b && count_of(self@, x) > 0),
                forall|x: u8| m@.contains_key(x) ==> #[trigger] m@[x] == count_of(self@, x) as u64,
            decreases 256 - b,
        {
            let c = counts[b];
            assert(c == count_of(self@, b as u8));
            if c > 0 {
                m.insert(b as u8, c);
            }
            b = b + 1;
        }
        assert(m@ =~= frequency_map(self@));
        m
    }
}

} // verus!
