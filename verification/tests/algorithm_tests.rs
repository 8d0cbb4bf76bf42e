use huffman::algorithm::{compress_data, decompress_data, walk_to_byte};
use huffman::bits::make_bits;
use huffman::tree::{HuffmanTree, build_tree};

#[test]
fn test_make_bits_0() {
    assert_eq!(vec![false, false, false, false, false, false, false, false], make_bits(0));
}

#[test]
fn test_make_bits_1() {
    assert_eq!(vec![false, false, false, false, false, false, false, true], make_bits(1));
}

#[test]
fn test_make_bits_32() {
    assert_eq!(vec![false, false, true, false, false, false, false, false], make_bits(32));
}

#[test]
fn test_make_bits_70() {
    assert_eq!(vec![false, true, false, false, false, true, false, false], make_bits(68));
}

#[test]
fn simple_tree_test_1() {
    let tree = build_tree(&vec![0, 0, 0, 0, 0, 1, 0, 0, 0, 2, 0, 0]);
    let x: u8 = 0;
    let y: u8 = 1;

    assert_eq!(1, walk_to_byte(&x, &tree).unwrap().len());
    assert!(walk_to_byte(&x, &tree).unwrap().len() < walk_to_byte(&y, &tree).unwrap().len());
}

#[test]
fn simple_tree_test_2() {
    let tree = build_tree(&vec![0, 0, 3, 3, 3, 0, 0, 1, 0, 0, 3, 0, 1, 0, 4, 0, 0, 0, 0]);
    let most_frequent: u8 = 0;
    let more_frequent: u8 = 3;
    let frequent: u8 = 1;
    let least_frequent = 4;

    assert_eq!(1, walk_to_byte(&most_frequent, &tree).unwrap().len());

    assert!(
        walk_to_byte(&most_frequent, &tree).unwrap().len()
            < walk_to_byte(&more_frequent, &tree).unwrap().len()
    );
    assert!(
        walk_to_byte(&more_frequent, &tree).unwrap().len()
            <= walk_to_byte(&frequent, &tree).unwrap().len()
    );
    assert!(
        walk_to_byte(&frequent, &tree).unwrap().len()
            <= walk_to_byte(&least_frequent, &tree).unwrap().len()
    );
}

#[test]
fn simple_tree_walk_1() {
    let first_left_child = HuffmanTree { zero: None, one: None, count: 1, elem: vec![0] };

    let bottom_left_child = HuffmanTree { zero: None, one: None, count: 1, elem: vec![1] };

    let bottom_right_child = HuffmanTree { zero: None, one: None, count: 1, elem: vec![2] };

    let internal_node = HuffmanTree {
        zero: Some(Box::new(bottom_left_child)),
        one: Some(Box::new(bottom_right_child)),
        count: 2,
        elem: vec![1, 2],
    };

    let tree = HuffmanTree {
        zero: Some(Box::new(first_left_child)),
        one: Some(Box::new(internal_node)),
        count: 3,
        elem: vec![0, 1, 2],
    };

    assert_eq!(vec![false], walk_to_byte(&0, &tree).unwrap());
    assert_eq!(vec![true, false], walk_to_byte(&1, &tree).unwrap());
    assert_eq!(vec![true, true], walk_to_byte(&2, &tree).unwrap());
}

#[test]
fn simple_tree_1() {
    let original_data = vec![0, 0, 0, 0, 0, 0, 0, 0, 0, 1];
    let compressed = compress_data(&original_data);

    assert_eq!(vec![1, 0], compressed.1.elem);

    assert_eq!(
        Some(Box::new(HuffmanTree { zero: None, one: None, count: 9, elem: vec![0] })),
        compressed.1.one
    );

    assert_eq!(
        Some(Box::new(HuffmanTree { zero: None, one: None, count: 1, elem: vec![1] })),
        compressed.1.zero
    );
}

#[test]
fn simple_compress_test_1() {
    let original_data = vec![0];
    let compressed = compress_data(&original_data);

    assert_eq!(1, compressed.0.len());
    assert_eq!(vec![0], compressed.0);
}

#[test]
fn simple_compress_decompress_test_1() {
    let original_data = vec![1];
    let compressed = compress_data(&original_data);

    let decompressed = decompress_data(&compressed.0, &compressed.1, original_data.len()).unwrap();

    assert_eq!(1, compressed.0.len());
    assert_eq!(original_data, decompressed);
    assert_eq!(1, decompressed.len());
}

#[test]
fn simple_compress_decompress_test_2() {
    let original_data = vec![0, 1];
    let compressed = compress_data(&original_data);

    let decompressed = decompress_data(&compressed.0, &compressed.1, original_data.len()).unwrap();

    assert_eq!(original_data, decompressed);
    assert_eq!(original_data.len(), decompressed.len());
}

#[test]
fn simple_compress_decompress_test_3() {
    let original_data = vec![1, 1, 0];
    let compressed = compress_data(&original_data);

    let decompressed = decompress_data(&compressed.0, &compressed.1, original_data.len()).unwrap();

    assert_eq!(original_data, decompressed);
    assert_eq!(original_data.len(), decompressed.len());
}

#[test]
fn simple_compress_decompress_test_4() {
    let original_data = vec![1, 1, 0, 1, 0];
    let compressed = compress_data(&original_data);

    let decompressed = decompress_data(&compressed.0, &compressed.1, original_data.len()).unwrap();

    assert_eq!(original_data, decompressed);
    assert_eq!(original_data.len(), decompressed.len());
}

#[test]
fn simple_compress_decompress_test_5() {
    let original_data = vec![0, 2, 1];
    let compressed = compress_data(&original_data);

    let decompressed = decompress_data(&compressed.0, &compressed.1, original_data.len()).unwrap();

    assert_eq!(original_data, decompressed);
    assert_eq!(original_data.len(), decompressed.len());
}

#[test]
fn simple_compress_decompress_test_6() {
    let original_data = vec![0, 2, 1, 5, 10, 20, 20, 20, 20, 1, 1, 1, 34, 34, 34, 7, 1];
    let compressed = compress_data(&original_data);

    let decompressed = decompress_data(&compressed.0, &compressed.1, original_data.len()).unwrap();

    assert_eq!(original_data, decompressed);
    assert_eq!(original_data.len(), decompressed.len());
}
