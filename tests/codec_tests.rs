use huffman::bits::BitWriter;
use huffman::builder::{build_tree, byte_counts, min_index, Entry};
use huffman::codec::{build_code_tree, decode, encode, CodecError};
use huffman::format::{read_tree, read_u64, write_tree, write_u64, MAX_DEPTH};
use huffman::tree::{code_for, code_table, HTree};
use huffman::HuffmanTree;

fn round_trip(input: &[u8]) {
    let a = encode(input).unwrap();
    let back = decode(&a).unwrap();
    assert_eq!(back, input.to_vec());
}

fn is_prefix(p: &[bool], q: &[bool]) -> bool {
    p.len() <= q.len() && &q[..p.len()] == p
}

fn leaf(b: u8) -> Box<HTree> {
    Box::new(HTree::Leaf(b))
}

#[test]
fn round_trip_empty() {
    let a = encode(&[]).unwrap();
    assert_eq!(a, vec![0u8; 16]);
    assert_eq!(decode(&a).unwrap(), Vec::<u8>::new());
}

#[test]
fn round_trip_single_repeated() {
    round_trip(&[7u8; 100]);
    round_trip(&[0u8]);
}

#[test]
fn round_trip_all_byte_values() {
    let input: Vec<u8> = (0..=255u8).collect();
    round_trip(&input);
    let mut twice = input.clone();
    twice.extend(input.iter().rev());
    round_trip(&twice);
}

#[test]
fn round_trip_text() {
    round_trip(b"This is the input string and test for the huffman tree");
    round_trip(b"abracadabra");
}

#[test]
fn round_trip_skewed_lengths() {
    // weights 1, 2, 4, 8, ... give a tree as deep as the number of symbols
    let mut input = Vec::new();
    for k in 0..20u8 {
        for _ in 0..(1u32 << k.min(12)) {
            input.push(k);
        }
    }
    round_trip(&input);
}

#[test]
fn prefix_property_of_tables() {
    for input in [&b"abracadabra"[..], &b"aab"[..], &b"aaaa"[..], &b"the quick brown fox"[..]] {
        let t = build_code_tree(input).unwrap();
        let table = code_table(&t);
        let codes: Vec<(usize, Vec<bool>)> = table
            .into_iter()
            .enumerate()
            .filter_map(|(b, c)| c.map(|c| (b, c)))
            .collect();
        for (b1, c1) in &codes {
            assert!(!c1.is_empty());
            for (b2, c2) in &codes {
                if b1 != b2 {
                    assert!(!is_prefix(c1, c2));
                }
            }
        }
    }
}

#[test]
fn encoding_is_deterministic() {
    let input = b"mississippi river banks";
    assert_eq!(encode(input).unwrap(), encode(input).unwrap());
}

#[test]
fn skewed_input_compresses() {
    let mut input = vec![b'x'; 1000];
    for k in 0..10u8 {
        input.push(b'a' + k);
    }
    let t = build_code_tree(&input).unwrap();
    let code = code_for(&t, b'x').unwrap();
    assert!(code.len() < 8);
    let a = encode(&input).unwrap();
    let nbits = read_u64(&a, 8);
    assert!(nbits < 8 * 1010);
    assert_eq!(decode(&a).unwrap(), input);
}

#[test]
fn single_symbol_gets_two_level_tree() {
    let t = build_code_tree(b"aaaa").unwrap();
    assert_eq!(t, HTree::Node(leaf(b'a'), leaf(b'a')));
    assert_eq!(code_for(&t, b'a'), Some(vec![false]));
    let a = encode(b"aaaa").unwrap();
    assert_eq!(read_u64(&a, 0), 4);
    assert_eq!(read_u64(&a, 8), 4);
    assert_eq!(decode(&a).unwrap(), b"aaaa".to_vec());
}

#[test]
fn aab_pins_codes_and_bits() {
    let t = build_code_tree(b"aab").unwrap();
    assert_eq!(t, HTree::Node(leaf(b'a'), leaf(b'b')));
    assert_eq!(code_for(&t, b'a'), Some(vec![false]));
    assert_eq!(code_for(&t, b'b'), Some(vec![true]));
    let a = encode(b"aab").unwrap();
    let mut expected = vec![3, 0, 0, 0, 0, 0, 0, 0, 3, 0, 0, 0, 0, 0, 0, 0];
    expected.extend([0, 1, b'a', 1, b'b']);
    expected.push(0b0010_0000);
    assert_eq!(a, expected);
    assert_eq!(decode(&a).unwrap(), b"aab".to_vec());
}

#[test]
fn declared_length_beyond_bits_is_truncated() {
    let mut a = encode(b"aab").unwrap();
    a[0] = 10;
    assert_eq!(decode(&a), Err(CodecError::TruncatedBitstream));
}

#[test]
fn bit_count_beyond_body_is_truncated() {
    let mut a = encode(b"aab").unwrap();
    a[8] = 9;
    assert_eq!(decode(&a), Err(CodecError::TruncatedBitstream));
}

#[test]
fn malformed_artifacts_are_rejected() {
    assert_eq!(decode(&vec![0u8; 15]), Err(CodecError::MalformedArtifact));
    let mut no_tree = vec![0u8; 16];
    no_tree[0] = 5;
    assert_eq!(decode(&no_tree), Err(CodecError::MalformedArtifact));
    let mut bad_marker = encode(b"aab").unwrap();
    bad_marker[16] = 7;
    assert_eq!(decode(&bad_marker), Err(CodecError::MalformedArtifact));
    let mut leaf_root = vec![1u8, 0, 0, 0, 0, 0, 0, 0, 0, 0, 0, 0, 0, 0, 0, 0];
    leaf_root.extend([1, b'a']);
    assert_eq!(decode(&leaf_root), Err(CodecError::MalformedArtifact));
    let mut cut_tree = vec![0u8; 16];
    cut_tree.extend([0, 1, b'a']);
    assert_eq!(decode(&cut_tree), Err(CodecError::MalformedArtifact));
}

#[test]
fn too_deep_tree_is_rejected() {
    let mut a = vec![0u8; 16];
    a.extend(vec![0u8; MAX_DEPTH + 1]);
    assert_eq!(decode(&a), Err(CodecError::MalformedArtifact));
}

#[test]
fn empty_input_has_no_tree() {
    assert_eq!(build_code_tree(&[]), Err(CodecError::EmptyInput));
}

#[test]
fn frequencies_of_text() {
    let h = HuffmanTree::new("hello");
    let f = h.get_frequencies();
    assert_eq!(f.len(), 4);
    assert_eq!(f[&b'l'], 2);
    assert_eq!(f[&b'h'], 1);
    assert_eq!(f[&b'e'], 1);
    assert_eq!(f[&b'o'], 1);
    assert!(HuffmanTree::new("").get_frequencies().is_empty());
}

#[test]
fn byte_counts_cover_all_values() {
    let c = byte_counts(b"abca");
    assert_eq!(c.len(), 256);
    assert_eq!(c[b'a' as usize], 2);
    assert_eq!(c[b'c' as usize], 1);
    assert_eq!(c[b'z' as usize], 0);
}

#[test]
fn ties_go_to_earliest_entry() {
    let q = vec![
        Entry { weight: 3, tree: HTree::Leaf(0) },
        Entry { weight: 1, tree: HTree::Leaf(1) },
        Entry { weight: 1, tree: HTree::Leaf(2) },
    ];
    assert_eq!(min_index(&q), 1);
}

#[test]
fn builder_merges_lightest_first() {
    let mut counts = vec![0u64; 256];
    counts[b'a' as usize] = 5;
    counts[b'b' as usize] = 2;
    counts[b'c' as usize] = 1;
    let t = build_tree(&counts);
    // c and b merge first (c lighter, on the right), then that node (3) goes
    // right of a (5)
    assert_eq!(
        t,
        HTree::Node(leaf(b'a'), Box::new(HTree::Node(leaf(b'b'), leaf(b'c'))))
    );
}

#[test]
fn bit_writer_packs_msb_first() {
    let mut w = BitWriter::new();
    for bit in [true, false, true, true, false, false, false, true, true] {
        w.push_bit(bit);
    }
    assert_eq!(w.bit_len(), 9);
    assert_eq!(w.finish(), vec![0b1011_0001, 0b1000_0000]);
}

#[test]
fn integers_and_trees_read_back() {
    let mut out = Vec::new();
    write_u64(&mut out, 0x0102_0304_0506_0708);
    assert_eq!(out, vec![8, 7, 6, 5, 4, 3, 2, 1]);
    assert_eq!(read_u64(&out, 0), 0x0102_0304_0506_0708);
    let t = HTree::Node(leaf(9), Box::new(HTree::Node(leaf(1), leaf(2))));
    let mut bytes = Vec::new();
    write_tree(&t, &mut bytes);
    assert_eq!(bytes, vec![0, 1, 9, 0, 1, 1, 1, 2]);
    let (back, end) = read_tree(&bytes, 0, MAX_DEPTH).unwrap();
    assert_eq!(back, t);
    assert_eq!(end, 8);
}
