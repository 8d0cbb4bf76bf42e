//! Compression and decompression: encoding each byte as its codeword,
//! packing the codewords into bytes, and walking the tree to decode them.

use vstd::prelude::*;

use crate::bits::bytes_bits;
use crate::bits::make_bits;
use crate::bits::pack_bits;
use crate::bits::pad_false;
use crate::codec::DecodeOutcome;
use crate::codec::StepOutcome;
use crate::codec::decode_all;
use crate::codec::decode_step;
use crate::codec::encoded_bits;
use crate::codec::lemma_code_len;
use crate::codec::lemma_encoded_push;
use crate::codec::lemma_step_used_bound;
use crate::codec::lemma_tree_round_trip;
use crate::codec::prepend_decoded;
use crate::codec::spec_code;
use crate::tree::HuffmanTree;
use crate::tree::build_tree;
use crate::tree::freq;
use crate::tree::is_empty_node;
use crate::tree::is_leaf_node;
use crate::tree::leaf_count;
use crate::tree::freq_table;
use crate::tree::lemma_concat_contains;
use crate::tree::lemma_freq_positive;
use crate::tree::lemma_wf_leaf_len;
use crate::tree::model;
use crate::tree::spec_build;
use crate::tree::wf;

verus! {

/// The failures the codec can surface.
///
/// `StructuralError`: a bit selected a tree child that does not exist.
/// `TruncatedStreamError`: the bits ran out before enough symbols were
/// decoded.  `UnknownSymbolError`: a byte to encode is absent from the
/// tree's leaves.
#[derive(Debug, PartialEq, Eq, Clone, Copy)]
pub enum HuffmanError {
    StructuralError,
    TruncatedStreamError,
    UnknownSymbolError,
}

/// Tests whether a byte vector holds a given byte.
fn vec_contains(v: &Vec<u8>, x: u8) -> (r: bool)
    ensures
        r == v@.contains(x),
{
    let mut i: usize = 0;
    while i < v.len()
        invariant
            i <= v@.len(),
            forall|j: int| 0 <= j < i ==> v@[j] != x,
        decreases v@.len() - i,
    {
        if v[i] == x {
            proof {
                assert(v@[i as int] == x);
            }
            return true;
        }
        i += 1;
    }
    proof {
        if v@.contains(x) {
            let j = choose|j: int| 0 <= j < v@.len() && v@[j] == x;
        }
    }
    false
}

/// Reverses a bit vector.
fn reverse_bits(v: &Vec<bool>) -> (r: Vec<bool>)
    ensures
        r@ == v@.reverse(),
{
    let mut r: Vec<bool> = Vec::new();
    let mut i: usize = v.len();
    while i > 0
        invariant
            i <= v@.len(),
            r@.len() == v@.len() - i,
            forall|j: int| 0 <= j < r@.len() ==> #[trigger] r@[j] == v@[v@.len() - 1 - j],
        decreases i,
    {
        i -= 1;
        r.push(v[i]);
    }
    proof {
        assert(r@ =~= v@.reverse());
    }
    r
}

/// Walks down from `tree` towards the leaf holding `byte`, collecting the
/// traversed bits in leaf-to-root order (the reverse of the codeword).
/// Returns an empty vector if no child holds `byte`.
pub fn walk_to_byte_internal(byte: &u8, tree: &HuffmanTree) -> (r: Vec<bool>)
    requires
        wf(*tree),
    ensures
        tree.elem@.contains(*byte) ==> r@ == spec_code(*tree, *byte).reverse(),
        !tree.elem@.contains(*byte) ==> r@.len() == 0,
    decreases *tree,
{
    match &tree.zero {
        Option::Some(z) => {
            if vec_contains(&z.elem, *byte) {
                let mut bits = walk_to_byte_internal(byte, &**z);
                bits.push(false);
                proof {
                    match &tree.one {
                        Option::None => {},
                        Option::Some(o) => {
                            lemma_concat_contains(z.elem@, o.elem@, *byte);
                        },
                    }
                    assert(tree.elem@.contains(*byte));
                    let c = spec_code(**z, *byte);
                    assert(spec_code(*tree, *byte) == seq![false] + c);
                    assert((seq![false] + c).reverse() =~= c.reverse().push(false));
                }
                return bits;
            }
        },
        Option::None => {},
    }
    match &tree.one {
        Option::Some(o) => {
            if vec_contains(&o.elem, *byte) {
                let mut bits = walk_to_byte_internal(byte, &**o);
                bits.push(true);
                proof {
                    match &tree.zero {
                        Option::None => {},
                        Option::Some(z) => {
                            lemma_concat_contains(z.elem@, o.elem@, *byte);
                        },
                    }
                    assert(tree.elem@.contains(*byte));
                    let c = spec_code(**o, *byte);
                    assert(spec_code(*tree, *byte) == seq![true] + c);
                    assert((seq![true] + c).reverse() =~= c.reverse().push(true));
                }
                return bits;
            }
        },
        Option::None => {},
    }
    proof {
        match &tree.zero {
            Option::None => {},
            Option::Some(z) => match &tree.one {
                Option::None => {},
                Option::Some(o) => {
                    lemma_concat_contains(z.elem@, o.elem@, *byte);
                },
            },
        }
    }
    Vec::new()
}

/// The codeword of `byte` in `tree`, in root-to-leaf order, or
/// `UnknownSymbolError` if `byte` hangs from no leaf reachable by a bit.
pub fn walk_to_byte(byte: &u8, tree: &HuffmanTree) -> (r: Result<Vec<bool>, HuffmanError>)
    requires
        wf(*tree) || is_empty_node(*tree),
    ensures
        match r {
            Result::Ok(bits) => wf(*tree) && !is_leaf_node(*tree) && tree.elem@.contains(*byte)
                && bits@ == spec_code(*tree, *byte) && bits@.len() >= 1,
            Result::Err(e) => e == HuffmanError::UnknownSymbolError && (is_leaf_node(*tree)
                || !tree.elem@.contains(*byte)),
        },
{
    if tree.zero.is_none() && tree.one.is_none() {
        return Result::Err(HuffmanError::UnknownSymbolError);
    }
    let bits = walk_to_byte_internal(byte, tree);
    if bits.len() == 0 {
        proof {
            if tree.elem@.contains(*byte) {
                lemma_code_len(*tree, *byte);
            }
        }
        return Result::Err(HuffmanError::UnknownSymbolError);
    }
    let r = reverse_bits(&bits);
    proof {
        assert(tree.elem@.contains(*byte));
        assert(r@ =~= spec_code(*tree, *byte));
    }
    Result::Ok(r)
}

/// Decodes one codeword from `bits` starting at `pos`, walking down from
/// `tree`.  On success returns the symbol and the position just past its
/// codeword.
fn decode_sym(tree: &HuffmanTree, bits: &Vec<bool>, pos: usize) -> (r: Result<
    (u8, usize),
    HuffmanError,
>)
    requires
        wf(*tree),
        pos <= bits@.len(),
    ensures
        match decode_step(*tree, bits@.skip(pos as int)) {
            StepOutcome::Emit { sym, used } => r matches Result::Ok(p) && p.0 == sym && p.1 == pos
                + used,
            StepOutcome::Truncated => r == Result::<(u8, usize), HuffmanError>::Err(
                HuffmanError::TruncatedStreamError,
            ),
            StepOutcome::ChildMissing => r == Result::<(u8, usize), HuffmanError>::Err(
                HuffmanError::StructuralError,
            ),
        },
    decreases *tree,
{
    if pos == bits.len() {
        return Result::Err(HuffmanError::TruncatedStreamError);
    }
    let bit = bits[pos];
    proof {
        assert(bits@.skip(pos as int).len() > 0);
        assert(bits@.skip(pos as int)[0] == bits@[pos as int]);
    }
    if bit {
        match &tree.one {
            Option::None => Result::Err(HuffmanError::StructuralError),
            Option::Some(c) => {
                if c.zero.is_none() && c.one.is_none() {
                    proof {
                        lemma_wf_leaf_len(**c);
                    }
                    Result::Ok((c.elem[0], pos + 1))
                } else {
                    let res = decode_sym(&**c, bits, pos + 1);
                    proof {
                        assert(bits@.skip((pos + 1) as int) =~= bits@.skip(pos as int).skip(1));
                    }
                    res
                }
            },
        }
    } else {
        match &tree.zero {
            Option::None => Result::Err(HuffmanError::StructuralError),
            Option::Some(c) => {
                if c.zero.is_none() && c.one.is_none() {
                    proof {
                        lemma_wf_leaf_len(**c);
                    }
                    Result::Ok((c.elem[0], pos + 1))
                } else {
                    let res = decode_sym(&**c, bits, pos + 1);
                    proof {
                        assert(bits@.skip((pos + 1) as int) =~= bits@.skip(pos as int).skip(1));
                    }
                    res
                }
            },
        }
    }
}

/// Compresses `data`: builds its Huffman tree, encodes each byte as its
/// codeword, and packs the codeword bits into bytes, most significant bit
/// first, zero-padding the final byte.  Returns the payload and the tree.
///
/// The last clause of the contract is the round-trip law: decoding the
/// packed payload with the returned tree, bounded by the input length,
/// yields the input again.
pub fn compress_data(data: &Vec<u8>) -> (r: (Vec<u8>, HuffmanTree))
    requires
        data@.len() < 0x1_0000_0000,
    ensures
        forall|v: u8| leaf_count(r.1, v) == freq(data@, v),
        forall|v: u8| r.1.elem@.contains(v) <==> freq(data@, v) > 0,
        data@.len() > 0 ==> wf(r.1) && !is_leaf_node(r.1),
        data@.len() == 0 ==> is_empty_node(r.1) && r.0@.len() == 0,
        model(r.1) == spec_build(freq_table(data@)),
        bytes_bits(r.0@) == encoded_bits(r.1, data@) + pad_false(
            encoded_bits(r.1, data@).len() as int,
        ),
        decode_all(r.1, bytes_bits(r.0@), data@.len() as nat) == DecodeOutcome::Decoded(data@),
{
    let tree = build_tree(data);
    let mut all_bits: Vec<bool> = Vec::new();
    let mut i: usize = 0;
    proof {
        assert(data@.take(0) =~= Seq::<u8>::empty());
    }
    while i < data.len()
        invariant
            i <= data@.len(),
            data@.len() < 0x1_0000_0000,
            all_bits@ == encoded_bits(tree, data@.take(i as int)),
            forall|v: u8| leaf_count(tree, v) == freq(data@, v),
            forall|v: u8| tree.elem@.contains(v) <==> freq(data@, v) > 0,
            data@.len() > 0 ==> wf(tree) && !is_leaf_node(tree),
            data@.len() == 0 ==> is_empty_node(tree),
            model(tree) == spec_build(freq_table(data@)),
        decreases data@.len() - i,
    {
        let b = data[i];
        proof {
            lemma_freq_positive(data@, i as int);
            assert(tree.elem@.contains(b));
        }
        match walk_to_byte(&b, &tree) {
            Result::Ok(mut cw) => {
                proof {
                    lemma_encoded_push(tree, data@.take(i as int), b);
                    assert(data@.take((i + 1) as int) =~= data@.take(i as int).push(b));
                }
                all_bits.append(&mut cw);
            },
            Result::Err(_) => {
                proof {
                    assert(false);
                }
            },
        }
        i += 1;
    }
    proof {
        assert(data@.take(data@.len() as int) =~= data@);
    }
    let ghost e = encoded_bits(tree, data@);
    let packed = pack_bits(all_bits);
    proof {
        if data@.len() > 0 {
            assert forall|ix: int| 0 <= ix < data@.len() implies tree.elem@.contains(
                #[trigger] data@[ix],
            ) by {
                lemma_freq_positive(data@, ix);
            }
            lemma_tree_round_trip(tree, data@, pad_false(e.len() as int));
        } else {
            assert(data@ =~= Seq::<u8>::empty());
            assert(packed@.len() == 0);
        }
    }
    (packed, tree)
}

/// Decompresses `data`: unpacks its bits, then walks `tree` from the root,
/// one bit per step, emitting a symbol at each leaf, until
/// `original_length` symbols have been produced.  Padding bits beyond the
/// last codeword are never interpreted.  Fails with
/// `TruncatedStreamError` if the bits run out first and with
/// `StructuralError` if a bit selects an absent child.
pub fn decompress_data(data: &Vec<u8>, tree: &HuffmanTree, original_length: usize) -> (r: Result<
    Vec<u8>,
    HuffmanError,
>)
    requires
        original_length > 0 ==> wf(*tree),
    ensures
        match decode_all(*tree, bytes_bits(data@), original_length as nat) {
            DecodeOutcome::Decoded(s) => r matches Result::Ok(v) && v@ == s,
            DecodeOutcome::Truncated => r == Result::<Vec<u8>, HuffmanError>::Err(
                HuffmanError::TruncatedStreamError,
            ),
            DecodeOutcome::ChildMissing => r == Result::<Vec<u8>, HuffmanError>::Err(
                HuffmanError::StructuralError,
            ),
        },
{
    let mut all_bits: Vec<bool> = Vec::new();
    let mut i: usize = 0;
    proof {
        assert(data@.take(0) =~= Seq::<u8>::empty());
    }
    while i < data.len()
        invariant
            i <= data@.len(),
            all_bits@ == bytes_bits(data@.take(i as int)),
        decreases data@.len() - i,
    {
        let mut mb = make_bits(data[i]);
        all_bits.append(&mut mb);
        proof {
            let d1 = data@.take((i + 1) as int);
            assert(d1.drop_last() =~= data@.take(i as int));
            assert(d1.last() == data@[i as int]);
        }
        i += 1;
    }
    proof {
        assert(data@.take(data@.len() as int) =~= data@);
    }
    let ghost all = bytes_bits(data@);
    let n = original_length;
    let mut out: Vec<u8> = Vec::new();
    let mut pos: usize = 0;
    proof {
        assert(all.skip(0) =~= all);
        let x = decode_all(*tree, all, n as nat);
        match x {
            DecodeOutcome::Decoded(s) => {
                assert(Seq::<u8>::empty() + s =~= s);
            },
            _ => {},
        }
        assert(prepend_decoded(Seq::<u8>::empty(), x) == x);
    }
    while out.len() < n
        invariant
            n > 0 ==> wf(*tree),
            n == original_length,
            out@.len() <= n,
            pos <= all_bits@.len(),
            all_bits@ == all,
            all == bytes_bits(data@),
            decode_all(*tree, all, n as nat) == prepend_decoded(
                out@,
                decode_all(*tree, all.skip(pos as int), (n - out@.len()) as nat),
            ),
        decreases n - out@.len(),
    {
        let ghost m = (n - out@.len()) as nat;
        let ghost rem = all.skip(pos as int);
        let ghost pos0 = pos as int;
        let ghost out0 = out@;
        match decode_sym(tree, &all_bits, pos) {
            Result::Ok(su) => {
                let (s, np) = su;
                proof {
                    lemma_step_used_bound(*tree, rem);
                    assert(all.skip(np as int) =~= rem.skip(np - pos0));
                }
                out.push(s);
                pos = np;
                proof {
                    let rec = decode_all(*tree, all.skip(np as int), (m - 1) as nat);
                    match rec {
                        DecodeOutcome::Decoded(restx) => {
                            assert(out0 + (seq![s] + restx) =~= out0.push(s) + restx);
                        },
                        _ => {},
                    }
                    assert(prepend_decoded(out0, decode_all(*tree, rem, m)) == prepend_decoded(
                        out@,
                        rec,
                    ));
                }
            },
            Result::Err(e2) => {
                proof {
                    assert(m > 0);
                    assert(decode_all(*tree, all, n as nat) == prepend_decoded(
                        out@,
                        decode_all(*tree, rem, m),
                    ));
                    match decode_step(*tree, rem) {
                        StepOutcome::Emit { sym, used } => {
                            assert(false);
                        },
                        StepOutcome::Truncated => {
                            assert(decode_all(*tree, rem, m) == DecodeOutcome::Truncated);
                            assert(e2 == HuffmanError::TruncatedStreamError);
                        },
                        StepOutcome::ChildMissing => {
                            assert(decode_all(*tree, rem, m) == DecodeOutcome::ChildMissing);
                            assert(e2 == HuffmanError::StructuralError);
                        },
                    }
                }
                return Result::Err(e2);
            },
        }
    }
    proof {
        assert(decode_all(*tree, all.skip(pos as int), (n - out@.len()) as nat)
            == DecodeOutcome::Decoded(Seq::<u8>::empty()));
        assert(out@ + Seq::<u8>::empty() =~= out@);
    }
    Result::Ok(out)
}

} // verus!
