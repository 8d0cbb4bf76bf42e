use huffman::tree::HuffmanTree;
use huffman::tree::build_tree;

#[test]
fn smoke_test1() {
    let mut vec: Vec<u8> = Vec::new();

    vec.push(0);
    let vec2 = vec.clone();

    let mut bitty = Vec::new();
    bitty.push(0);

    let tree = HuffmanTree {
        zero: Some(Box::new(HuffmanTree {
            zero: None,
            one: None,
            count: 1,
            elem: bitty.clone(),
        })),
        one: None,
        count: 1,
        elem: bitty,
    };
    assert_eq!(tree, build_tree(&vec2));
}

#[test]
fn smoke_test2() {
    let mut vec: Vec<u8> = Vec::new();

    vec.push(1);
    let vec2 = vec.clone();

    let mut bitty = Vec::new();
    bitty.push(1);

    let tree = HuffmanTree {
        zero: Some(Box::new(HuffmanTree {
            zero: None,
            one: None,
            count: 1,
            elem: bitty.clone(),
        })),
        one: None,
        count: 1,
        elem: bitty,
    };

    assert_eq!(tree, build_tree(&vec2));
}

#[test]
fn smoke_test3() {
    let vec: Vec<u8> = Vec::new();
    let vec2 = vec.clone();

    let tree = HuffmanTree::empty();

    assert_eq!(tree, build_tree(&vec2));
}

#[test]
fn smoke_code_2_elems() {
    let stream: Vec<u8> = vec![2, 2, 0];

    let node_for_2 = HuffmanTree { zero: None, one: None, count: 2, elem: vec![2] };

    let node_for_0 = HuffmanTree { zero: None, one: None, count: 1, elem: vec![0] };

    let tree = HuffmanTree {
        zero: Some(Box::new(node_for_0)),
        one: Some(Box::new(node_for_2)),
        count: 3,
        elem: vec![0, 2],
    };

    assert_eq!(tree, build_tree(&stream));
}

#[test]
fn test_tree_has_elems_1() {
    let stream: Vec<u8> = vec![1, 2, 3, 4, 5, 6, 7, 8, 9, 10];

    assert_eq!(10, build_tree(&stream).elem.len());
}

#[test]
fn test_tree_has_elems_2() {
    let stream: Vec<u8> = vec![1, 1, 2, 2, 2, 2, 0, 1, 0];
    let tree = build_tree(&stream);

    assert_eq!(3, tree.elem.len());
}
