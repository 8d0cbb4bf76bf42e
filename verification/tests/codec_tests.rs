use huffman::algorithm::{HuffmanError, compress_data, decompress_data, walk_to_byte};
use huffman::tree::{HuffmanTree, build_tree};

// A multi-byte input over a single symbol still gets a codeword of at least
// one bit, and survives a compress/decompress round trip.
#[test]
fn degenerate_single_symbol() {
    let data = vec![5, 5, 5, 5, 5];
    let tree = build_tree(&data);
    assert!(walk_to_byte(&5, &tree).unwrap().len() >= 1);

    let (payload, tree) = compress_data(&data);
    let out = decompress_data(&payload, &tree, data.len()).unwrap();
    assert_eq!(data, out);
}

// Nine zeros and a one build a two-leaf tree: byte 0 sits behind bit 1 and
// byte 1 behind bit 0, so the ten 1-bit codewords pack into two bytes, and
// decompressing with the original length restores the input exactly.
#[test]
fn two_symbol_scenario() {
    let data = vec![0, 0, 0, 0, 0, 0, 0, 0, 0, 1];
    let (payload, tree) = compress_data(&data);

    assert_eq!(
        Some(Box::new(HuffmanTree { zero: None, one: None, count: 9, elem: vec![0] })),
        tree.one
    );
    assert_eq!(
        Some(Box::new(HuffmanTree { zero: None, one: None, count: 1, elem: vec![1] })),
        tree.zero
    );
    assert_eq!(2, payload.len());
    // bits: 1-codeword of 0 nine times, then the 0-codeword of 1, padded
    assert_eq!(vec![0xFF, 0x80], payload);

    let out = decompress_data(&payload, &tree, data.len()).unwrap();
    assert_eq!(data, out);
}

// The round trip through the serialized header: compress, write the
// frequency table, rebuild a tree from it alone, and decode with that tree.
#[test]
fn header_round_trip_scenario() {
    let data = vec![0, 2, 1, 5, 10, 20, 20, 20, 20, 1, 1, 1, 34, 34, 34, 7, 1];
    let (payload, tree) = compress_data(&data);
    let table = tree.serialize();
    assert_eq!(1024, table.len());
    let rebuilt = HuffmanTree::deserialize(table);
    let out = decompress_data(&payload, &rebuilt, data.len()).unwrap();
    assert_eq!(data, out);
}

// The serialized table holds each frequency as 4 little-endian bytes at the
// offset of its byte value.
#[test]
fn serialize_layout() {
    let data = vec![1, 1, 2];
    let tree = build_tree(&data);
    let table = tree.serialize();
    assert_eq!(1024, table.len());
    assert_eq!(&[0, 0, 0, 0], &table[0..4]);
    assert_eq!(&[2, 0, 0, 0], &table[4..8]);
    assert_eq!(&[1, 0, 0, 0], &table[8..12]);
    for i in 12..1024 {
        assert_eq!(0, table[i]);
    }
}

// An all-zero table describes the empty tree, and the empty tree writes an
// all-zero table.
#[test]
fn serialize_empty() {
    let table = HuffmanTree::empty().serialize();
    assert_eq!(1024, table.len());
    for i in 0..1024 {
        assert_eq!(0, table[i]);
    }
    assert_eq!(HuffmanTree::empty(), HuffmanTree::deserialize(table));
}

// A frequency table with a count above one byte round-trips through its
// little-endian encoding.
#[test]
fn serialize_large_count() {
    let mut data = Vec::new();
    for _ in 0..300 {
        data.push(7);
    }
    data.push(9);
    let tree = build_tree(&data);
    let table = tree.serialize();
    // 300 = 0x012C, little-endian at offset 7 * 4
    assert_eq!(&[0x2C, 0x01, 0x00, 0x00], &table[28..32]);
    let rebuilt = HuffmanTree::deserialize(table);
    assert_eq!(tree, rebuilt);
}

// Decoding stops with a truncated-stream error when the bits run out
// before the promised number of symbols.
#[test]
fn truncated_stream() {
    let (_, tree) = compress_data(&vec![0, 1, 2, 3]);
    let empty: Vec<u8> = Vec::new();
    assert_eq!(Err(HuffmanError::TruncatedStreamError), decompress_data(&empty, &tree, 1));
}

// A bit that selects an absent child is a structural error: the
// single-symbol tree has no `one` child, and the stream starts with bit 1.
#[test]
fn structural_mismatch() {
    let (_, tree) = compress_data(&vec![5, 5]);
    assert_eq!(Err(HuffmanError::StructuralError), decompress_data(&vec![0x80], &tree, 1));
}

// Encoding a byte that the tree does not hold fails.
#[test]
fn unknown_symbol() {
    let tree = build_tree(&vec![5, 5]);
    assert_eq!(Err(HuffmanError::UnknownSymbolError), walk_to_byte(&9, &tree));
}

// No codeword is a prefix of the codeword of a different symbol.
#[test]
fn prefix_free_scenario() {
    let data = vec![0, 2, 1, 5, 10, 20, 20, 20, 20, 1, 1, 1, 34, 34, 34, 7, 1];
    let tree = build_tree(&data);
    let symbols = [0u8, 1, 2, 5, 7, 10, 20, 34];
    for a in symbols.iter() {
        for b in symbols.iter() {
            if a != b {
                let ca = walk_to_byte(a, &tree).unwrap();
                let cb = walk_to_byte(b, &tree).unwrap();
                let is_prefix = ca.len() <= cb.len() && ca[..] == cb[..ca.len()];
                assert!(!is_prefix);
            }
        }
    }
}

// Symbols seen more often never get longer codewords.
#[test]
fn monotonic_code_length() {
    let data = vec![8, 8, 8, 8, 8, 3, 3, 3, 9, 9, 4];
    let tree = build_tree(&data);
    let code_8 = walk_to_byte(&8, &tree).unwrap();
    let code_3 = walk_to_byte(&3, &tree).unwrap();
    let code_9 = walk_to_byte(&9, &tree).unwrap();
    let code_4 = walk_to_byte(&4, &tree).unwrap();
    assert!(code_8.len() <= code_3.len());
    assert!(code_3.len() <= code_9.len());
    assert!(code_9.len() <= code_4.len());
}

// The tree depends only on the frequency table: inputs that are
// permutations of one another build identical trees.
#[test]
fn deterministic_build() {
    let t1 = build_tree(&vec![0, 2, 1, 2, 2]);
    let t2 = build_tree(&vec![2, 2, 2, 1, 0]);
    assert_eq!(t1, t2);

    let table = t1.serialize();
    assert_eq!(t2, HuffmanTree::deserialize(table));
}

// A clone agrees with the original and serializes identically.
#[test]
fn clone_tree() {
    let tree = build_tree(&vec![1, 2, 2, 3, 3, 3]);
    let copy = tree.clone();
    assert_eq!(tree, copy);
    assert_eq!(tree.serialize(), copy.serialize());
}

// The empty input compresses to an empty payload and an empty tree, and
// decompressing zero symbols yields the empty output.
#[test]
fn empty_input() {
    let data: Vec<u8> = Vec::new();
    let (payload, tree) = compress_data(&data);
    assert_eq!(0, payload.len());
    assert_eq!(HuffmanTree::empty(), tree);
    let out = decompress_data(&payload, &tree, 0).unwrap();
    assert_eq!(data, out);
}
