//! The meaning of codewords: what bit sequence a symbol encodes to, what a
//! bit sequence decodes to, and the laws connecting the two.

use vstd::prelude::*;

use crate::bits::bytes_bits;
use crate::bits::lemma_bytes_bits_inj;
use crate::bits::pad_false;
use crate::tree::HuffmanTree;
use crate::tree::Node;
use crate::tree::freq;
use crate::tree::freq_table;
use crate::tree::is_leaf_node;
use crate::tree::leaf_count;
use crate::tree::lemma_concat_contains;
use crate::tree::lemma_freq_positive;
use crate::tree::lemma_model_leaf;
use crate::tree::lemma_model_syms;
use crate::tree::lemma_wf_leaf_sym;
use crate::tree::model;
use crate::tree::spec_build;
use crate::tree::table_count;
use crate::tree::table_counts;
use crate::tree::wf;

verus! {

/// The codeword of symbol `v` in tree `t`: the bits of the root-to-leaf
/// descent, choosing at each node the child whose symbol set holds `v`
/// (the `zero` child is examined first).  Empty if no child holds `v`.
pub open spec fn spec_code(t: HuffmanTree, v: u8) -> Seq<bool>
    decreases t,
{
    match t.zero {
        Option::None => match t.one {
            Option::None => Seq::empty(),
            Option::Some(o) => if o.elem@.contains(v) {
                seq![true] + spec_code(*o, v)
            } else {
                Seq::empty()
            },
        },
        Option::Some(z) => if z.elem@.contains(v) {
            seq![false] + spec_code(*z, v)
        } else {
            match t.one {
                Option::None => Seq::empty(),
                Option::Some(o) => if o.elem@.contains(v) {
                    seq![true] + spec_code(*o, v)
                } else {
                    Seq::empty()
                },
            }
        },
    }
}

/// The concatenation of the codewords of the bytes of `d`, in order.
pub open spec fn encoded_bits(t: HuffmanTree, d: Seq<u8>) -> Seq<bool>
    decreases d.len(),
{
    if d.len() == 0 {
        Seq::empty()
    } else {
        spec_code(t, d[0]) + encoded_bits(t, d.skip(1))
    }
}

/// The outcome of decoding a single codeword from the front of a bit
/// sequence: a symbol together with the number of bits consumed, or the
/// failure encountered.
pub enum StepOutcome {
    Emit { sym: u8, used: nat },
    Truncated,
    ChildMissing,
}

/// Decodes one codeword from the front of `bits` by walking down from `t`:
/// each bit selects a child, and reaching a leaf emits its symbol.
/// `Truncated` if the bits run out first, `ChildMissing` if a bit selects
/// an absent child.
pub open spec fn decode_step(t: HuffmanTree, bits: Seq<bool>) -> StepOutcome
    decreases t,
{
    if bits.len() == 0 {
        StepOutcome::Truncated
    } else if bits[0] {
        match t.one {
            Option::None => StepOutcome::ChildMissing,
            Option::Some(c) => if is_leaf_node(*c) {
                StepOutcome::Emit { sym: c.elem@[0], used: 1 }
            } else {
                match decode_step(*c, bits.skip(1)) {
                    StepOutcome::Emit { sym, used } => StepOutcome::Emit { sym, used: used + 1 },
                    r => r,
                }
            },
        }
    } else {
        match t.zero {
            Option::None => StepOutcome::ChildMissing,
            Option::Some(c) => if is_leaf_node(*c) {
                StepOutcome::Emit { sym: c.elem@[0], used: 1 }
            } else {
                match decode_step(*c, bits.skip(1)) {
                    StepOutcome::Emit { sym, used } => StepOutcome::Emit { sym, used: used + 1 },
                    r => r,
                }
            },
        }
    }
}

/// The outcome of decoding a whole stream: the decoded symbols, or the
/// failure encountered.
pub enum DecodeOutcome {
    Decoded(Seq<u8>),
    Truncated,
    ChildMissing,
}

/// Decodes exactly `n` symbols from the front of `bits`, walking down from
/// the root of `t` for each.  Bits beyond the last codeword are ignored.
pub open spec fn decode_all(t: HuffmanTree, bits: Seq<bool>, n: nat) -> DecodeOutcome
    decreases n,
{
    if n == 0 {
        DecodeOutcome::Decoded(Seq::empty())
    } else {
        match decode_step(t, bits) {
            StepOutcome::Emit { sym, used } => match decode_all(
                t,
                bits.skip(used as int),
                (n - 1) as nat,
            ) {
                DecodeOutcome::Decoded(rest) => DecodeOutcome::Decoded(seq![sym] + rest),
                e => e,
            },
            StepOutcome::Truncated => DecodeOutcome::Truncated,
            StepOutcome::ChildMissing => DecodeOutcome::ChildMissing,
        }
    }
}

/// Prefixes already-decoded symbols onto the outcome of decoding the rest.
pub open spec fn prepend_decoded(p: Seq<u8>, o: DecodeOutcome) -> DecodeOutcome {
    match o {
        DecodeOutcome::Decoded(s) => DecodeOutcome::Decoded(p + s),
        e => e,
    }
}

/// A symbol held below an internal node has a codeword of at least one bit.
pub proof fn lemma_code_len(t: HuffmanTree, v: u8)
    requires
        wf(t),
        !is_leaf_node(t),
        t.elem@.contains(v),
    ensures
        spec_code(t, v).len() >= 1,
{
    match t.zero {
        Option::None => {},
        Option::Some(z) => match t.one {
            Option::None => {},
            Option::Some(o) => {
                lemma_concat_contains(z.elem@, o.elem@, v);
            },
        },
    }
}

/// A bit that a decoder consumes was counted: a successful step consumes
/// between 1 and `bits.len()` bits.
pub proof fn lemma_step_used_bound(t: HuffmanTree, bits: Seq<bool>)
    ensures
        match decode_step(t, bits) {
            StepOutcome::Emit { sym, used } => 1 <= used <= bits.len(),
            _ => true,
        },
    decreases t,
{
    if bits.len() == 0 {
    } else if bits[0] {
        match t.one {
            Option::None => {},
            Option::Some(c) => {
                lemma_step_used_bound(*c, bits.skip(1));
            },
        }
    } else {
        match t.zero {
            Option::None => {},
            Option::Some(c) => {
                lemma_step_used_bound(*c, bits.skip(1));
            },
        }
    }
}

/// Decoding one codeword undoes encoding one symbol: a codeword followed by
/// anything decodes to its symbol, consuming exactly the codeword.
pub proof fn lemma_decode_one(t: HuffmanTree, v: u8, rest: Seq<bool>)
    requires
        wf(t),
        !is_leaf_node(t),
        t.elem@.contains(v),
    ensures
        decode_step(t, spec_code(t, v) + rest) == (StepOutcome::Emit {
            sym: v,
            used: spec_code(t, v).len() as nat,
        }),
    decreases t,
{
    let bits = spec_code(t, v) + rest;
    match t.zero {
        Option::None => {
            assert(false);
        },
        Option::Some(z) => {
            if z.elem@.contains(v) {
                let c = spec_code(*z, v);
                assert(bits[0] == false);
                assert(bits.skip(1) =~= c + rest);
                if is_leaf_node(*z) {
                    assert(c =~= Seq::<bool>::empty());
                    lemma_wf_leaf_sym(*z, v);
                    assert(z.elem@[0] == v);
                } else {
                    lemma_decode_one(*z, v, rest);
                }
            } else {
                match t.one {
                    Option::None => {
                        assert(false);
                    },
                    Option::Some(o) => {
                        lemma_concat_contains(z.elem@, o.elem@, v);
                        assert(o.elem@.contains(v));
                        let c = spec_code(*o, v);
                        assert(bits[0] == true);
                        assert(bits.skip(1) =~= c + rest);
                        if is_leaf_node(*o) {
                            assert(c =~= Seq::<bool>::empty());
                            lemma_wf_leaf_sym(*o, v);
                            assert(o.elem@[0] == v);
                        } else {
                            lemma_decode_one(*o, v, rest);
                        }
                    },
                }
            }
        },
    }
}

/// Appending a symbol appends its codeword.
pub proof fn lemma_encoded_push(t: HuffmanTree, d: Seq<u8>, v: u8)
    ensures
        encoded_bits(t, d.push(v)) == encoded_bits(t, d) + spec_code(t, v),
    decreases d.len(),
{
    if d.len() == 0 {
        assert(d.push(v).skip(1) =~= Seq::<u8>::empty());
        assert(d.push(v)[0] == v);
        assert(encoded_bits(t, d.push(v).skip(1)) =~= Seq::<bool>::empty());
        assert(encoded_bits(t, d.push(v)) =~= encoded_bits(t, d) + spec_code(t, v));
    } else {
        assert(d.push(v).skip(1) =~= d.skip(1).push(v));
        lemma_encoded_push(t, d.skip(1), v);
        assert(d.push(v)[0] == d[0]);
        assert(encoded_bits(t, d.push(v)) == spec_code(t, d[0]) + (encoded_bits(t, d.skip(1))
            + spec_code(t, v)));
        assert(spec_code(t, d[0]) + (encoded_bits(t, d.skip(1)) + spec_code(t, v)) =~= (spec_code(
            t,
            d[0],
        ) + encoded_bits(t, d.skip(1))) + spec_code(t, v));
    }
}

/// The round-trip law: for a well-formed tree holding every byte of `d`,
/// the concatenated codewords of `d`, followed by any extra bits, decode
/// back to exactly `d`.
pub proof fn lemma_tree_round_trip(t: HuffmanTree, d: Seq<u8>, rest: Seq<bool>)
    requires
        wf(t),
        !is_leaf_node(t),
        forall|i: int| 0 <= i < d.len() ==> t.elem@.contains(#[trigger] d[i]),
    ensures
        decode_all(t, encoded_bits(t, d) + rest, d.len() as nat) == DecodeOutcome::Decoded(d),
    decreases d.len(),
{
    if d.len() == 0 {
        assert(d =~= Seq::<u8>::empty());
    } else {
        let c = spec_code(t, d[0]);
        let tail = encoded_bits(t, d.skip(1)) + rest;
        assert(encoded_bits(t, d) + rest =~= c + tail);
        lemma_decode_one(t, d[0], tail);
        assert((c + tail).skip(c.len() as int) =~= tail);
        lemma_tree_round_trip(t, d.skip(1), rest);
        assert(seq![d[0]] + d.skip(1) =~= d);
    }
}

/// The prefix-free law: in one well-formed tree, the codeword of one symbol
/// is never a prefix of the codeword of a different symbol.
pub proof fn lemma_prefix_free(t: HuffmanTree, a: u8, b: u8)
    requires
        wf(t),
        !is_leaf_node(t),
        t.elem@.contains(a),
        t.elem@.contains(b),
        a != b,
    ensures
        !spec_code(t, a).is_prefix_of(spec_code(t, b)),
    decreases t,
{
    let ca = spec_code(t, a);
    let cb = spec_code(t, b);
    match t.zero {
        Option::None => {
            assert(false);
        },
        Option::Some(z) => {
            match t.one {
                Option::None => {
                    // Single-child wrapper: both symbols live under `z`.
                    assert(z.elem@.contains(a) && z.elem@.contains(b));
                    if is_leaf_node(*z) {
                        lemma_wf_leaf_sym(*z, a);
                        lemma_wf_leaf_sym(*z, b);
                        assert(a == b);
                    } else {
                        if ca.is_prefix_of(cb) {
                            assert(spec_code(*z, a).is_prefix_of(spec_code(*z, b))) by {
                                prefix_shift(spec_code(*z, a), spec_code(*z, b), false);
                            }
                            lemma_prefix_free(*z, a, b);
                        }
                    }
                },
                Option::Some(o) => {
                    lemma_concat_contains(z.elem@, o.elem@, a);
                    lemma_concat_contains(z.elem@, o.elem@, b);
                    if z.elem@.contains(a) && z.elem@.contains(b) {
                        if is_leaf_node(*z) {
                            lemma_wf_leaf_sym(*z, a);
                            lemma_wf_leaf_sym(*z, b);
                            assert(z.elem@[0] == a && z.elem@[0] == b);
                        } else if ca.is_prefix_of(cb) {
                            prefix_shift(spec_code(*z, a), spec_code(*z, b), false);
                            lemma_prefix_free(*z, a, b);
                        }
                    } else if !z.elem@.contains(a) && !z.elem@.contains(b) {
                        assert(o.elem@.contains(a) && o.elem@.contains(b));
                        if is_leaf_node(*o) {
                            lemma_wf_leaf_sym(*o, a);
                            lemma_wf_leaf_sym(*o, b);
                            assert(o.elem@[0] == a && o.elem@[0] == b);
                        } else if ca.is_prefix_of(cb) {
                            prefix_shift(spec_code(*o, a), spec_code(*o, b), true);
                            lemma_prefix_free(*o, a, b);
                        }
                    } else {
                        // The first bits differ, so neither is a prefix.
                        assert(ca[0] != cb[0]);
                        if ca.is_prefix_of(cb) {
                            assert(cb.subrange(0, ca.len() as int)[0] == cb[0]);
                        }
                    }
                },
            }
        },
    }
}

/// If `[x] + p` is a prefix of `[x] + q` then `p` is a prefix of `q`.
proof fn prefix_shift(p: Seq<bool>, q: Seq<bool>, x: bool)
    requires
        (seq![x] + p).is_prefix_of(seq![x] + q),
    ensures
        p.is_prefix_of(q),
{
    let sp = seq![x] + p;
    let sq = seq![x] + q;
    assert forall|i: int| 0 <= i < p.len() implies p[i] == q[i] by {
        assert(sp[i + 1] == sq.subrange(0, sp.len() as int)[i + 1]);
    }
    assert(p =~= q.subrange(0, p.len() as int));
}

/// A tree whose shape is a fork has both children, with those shapes.
proof fn lemma_fork_shape(t: HuffmanTree, a: Node, b: Node)
    requires
        model(t) == Node::Fork(Box::new(a), Box::new(b)),
    ensures
        t.zero matches Option::Some(z) && model(*z) == a,
        t.one matches Option::Some(o) && model(*o) == b,
{
    match t.zero {
        Option::None => {
            assert(false);
        },
        Option::Some(_) => match t.one {
            Option::None => {
                assert(false);
            },
            Option::Some(_) => {},
        },
    }
}

/// A tree whose shape is a single-child wrapper has only a `zero` child,
/// with that shape.
proof fn lemma_wrap_shape(t: HuffmanTree, a: Node)
    requires
        model(t) == Node::Wrap(Box::new(a)),
    ensures
        t.zero matches Option::Some(z) && model(*z) == a,
        t.one is None,
{
    match t.zero {
        Option::None => {
            assert(false);
        },
        Option::Some(_) => match t.one {
            Option::None => {},
            Option::Some(_) => {
                assert(false);
            },
        },
    }
}

/// A tree whose shape is a leaf is childless and holds that one symbol.
proof fn lemma_leaf_shape(t: HuffmanTree, v: u8, c: int)
    requires
        model(t) == Node::Leaf(v, c),
    ensures
        t.zero is None,
        t.one is None,
        t.elem@.len() == 1,
        t.elem@[0] == v,
        t.count == c,
{
    match t.zero {
        Option::None => match t.one {
            Option::None => {},
            Option::Some(_) => {
                assert(false);
            },
        },
        Option::Some(_) => {
            assert(false);
        },
    }
}

/// Decoding one codeword depends only on the tree's shape: two well-formed
/// trees of equal shape take one decode step alike.
pub proof fn lemma_model_step(t1: HuffmanTree, t2: HuffmanTree, bits: Seq<bool>)
    requires
        wf(t1),
        wf(t2),
        model(t1) == model(t2),
    ensures
        decode_step(t1, bits) == decode_step(t2, bits),
    decreases t1,
{
    if bits.len() == 0 {
        return ;
    }
    if bits[0] {
        match t1.one {
            Option::None => {
                match t1.zero {
                    Option::None => {
                        if t2.one is Some {
                            assert(false);
                        }
                    },
                    Option::Some(z1) => {
                        lemma_wrap_shape(t2, model(*z1));
                    },
                }
            },
            Option::Some(o1) => {
                match t1.zero {
                    Option::None => {
                        assert(false);
                    },
                    Option::Some(z1) => {
                        lemma_fork_shape(t2, model(*z1), model(*o1));
                        let o2 = t2.one.unwrap();
                        lemma_model_leaf(*o1);
                        lemma_model_leaf(*o2);
                        if is_leaf_node(*o1) {
                            lemma_leaf_shape(*o2, o1.elem@[0], o1.count as int);
                        } else {
                            lemma_model_step(*o1, *o2, bits.skip(1));
                        }
                    },
                }
            },
        }
    } else {
        match t1.zero {
            Option::None => {
                match t1.one {
                    Option::None => {
                        if t2.zero is Some {
                            assert(false);
                        }
                    },
                    Option::Some(_) => {
                        assert(false);
                    },
                }
            },
            Option::Some(z1) => {
                match t1.one {
                    Option::None => {
                        lemma_wrap_shape(t2, model(*z1));
                    },
                    Option::Some(o1) => {
                        lemma_fork_shape(t2, model(*z1), model(*o1));
                    },
                }
                let z2 = t2.zero.unwrap();
                lemma_model_leaf(*z1);
                lemma_model_leaf(*z2);
                if is_leaf_node(*z1) {
                    lemma_leaf_shape(*z2, z1.elem@[0], z1.count as int);
                } else {
                    lemma_model_step(*z1, *z2, bits.skip(1));
                }
            },
        }
    }
}

/// Decoding a whole stream depends only on the tree's shape.
pub proof fn lemma_model_decode(t1: HuffmanTree, t2: HuffmanTree, bits: Seq<bool>, n: nat)
    requires
        wf(t1),
        wf(t2),
        model(t1) == model(t2),
    ensures
        decode_all(t1, bits, n) == decode_all(t2, bits, n),
    decreases n,
{
    if n > 0 {
        lemma_model_step(t1, t2, bits);
        match decode_step(t1, bits) {
            StepOutcome::Emit { sym, used } => {
                lemma_model_decode(t1, t2, bits.skip(used as int), (n - 1) as nat);
            },
            _ => {},
        }
    }
}

/// A symbol's codeword depends only on the tree's shape.
pub proof fn lemma_model_code(t1: HuffmanTree, t2: HuffmanTree, v: u8)
    requires
        wf(t1),
        wf(t2),
        model(t1) == model(t2),
    ensures
        spec_code(t1, v) == spec_code(t2, v),
    decreases t1,
{
    match t1.zero {
        Option::None => {
            match t1.one {
                Option::None => {
                    lemma_model_leaf(t1);
                    lemma_model_leaf(t2);
                    assert(is_leaf_node(t2));
                },
                Option::Some(_) => {
                    assert(false);
                },
            }
        },
        Option::Some(z1) => {
            match t1.one {
                Option::None => {
                    lemma_wrap_shape(t2, model(*z1));
                    let z2 = t2.zero.unwrap();
                    lemma_model_syms(*z1);
                    lemma_model_syms(*z2);
                    assert(z1.elem@ == z2.elem@);
                    if z1.elem@.contains(v) {
                        lemma_model_code(*z1, *z2, v);
                    }
                },
                Option::Some(o1) => {
                    lemma_fork_shape(t2, model(*z1), model(*o1));
                    let z2 = t2.zero.unwrap();
                    let o2 = t2.one.unwrap();
                    lemma_model_syms(*z1);
                    lemma_model_syms(*z2);
                    lemma_model_syms(*o1);
                    lemma_model_syms(*o2);
                    assert(z1.elem@ == z2.elem@ && o1.elem@ == o2.elem@);
                    if z1.elem@.contains(v) {
                        lemma_model_code(*z1, *z2, v);
                    } else if o1.elem@.contains(v) {
                        lemma_model_code(*o1, *o2, v);
                    }
                },
            }
        },
    }
}

/// An encoded stream depends only on the tree's shape.
pub proof fn lemma_model_encoded(t1: HuffmanTree, t2: HuffmanTree, d: Seq<u8>)
    requires
        wf(t1),
        wf(t2),
        model(t1) == model(t2),
    ensures
        encoded_bits(t1, d) == encoded_bits(t2, d),
    decreases d.len(),
{
    if d.len() > 0 {
        lemma_model_code(t1, t2, d[0]);
        lemma_model_encoded(t1, t2, d.skip(1));
    }
}

/// The compression-determinism law: two compressions of the same data
/// yield trees of one shape and byte-identical payloads.  The premises are
/// exactly what `compress_data` ensures of each call.
pub proof fn lemma_compress_deterministic(
    d: Seq<u8>,
    t1: HuffmanTree,
    t2: HuffmanTree,
    p1: Seq<u8>,
    p2: Seq<u8>,
)
    requires
        model(t1) == spec_build(freq_table(d)),
        model(t2) == spec_build(freq_table(d)),
        d.len() > 0 ==> wf(t1) && wf(t2),
        d.len() == 0 ==> p1.len() == 0 && p2.len() == 0,
        bytes_bits(p1) == encoded_bits(t1, d) + pad_false(encoded_bits(t1, d).len() as int),
        bytes_bits(p2) == encoded_bits(t2, d) + pad_false(encoded_bits(t2, d).len() as int),
    ensures
        model(t1) == model(t2),
        p1 == p2,
{
    if d.len() == 0 {
        assert(p1 =~= p2);
    } else {
        lemma_model_encoded(t1, t2, d);
        lemma_bytes_bits_inj(p1, p2);
    }
}

/// The container round-trip law: the tree rebuilt from the serialized
/// frequency table decodes the payload that the built tree produced.  The
/// premises are exactly what `build_tree`, `serialize`, `deserialize` and
/// `compress_data` ensure.
pub proof fn lemma_container_round_trip(
    t: HuffmanTree,
    table: Seq<u8>,
    t2: HuffmanTree,
    d: Seq<u8>,
    payload: Seq<bool>,
)
    requires
        wf(t),
        wf(t2),
        model(t) == spec_build(freq_table(d)),
        forall|v: u8| #[trigger] leaf_count(t, v) == freq(d, v),
        forall|v: u8| #[trigger] table_count(table, v) == leaf_count(t, v),
        model(t2) == spec_build(table_counts(table)),
        decode_all(t, payload, d.len() as nat) == DecodeOutcome::Decoded(d),
    ensures
        decode_all(t2, payload, d.len() as nat) == DecodeOutcome::Decoded(d),
{
    assert(table_counts(table) =~= freq_table(d));
    lemma_model_decode(t, t2, payload, d.len() as nat);
}

/// The determinism law: two inputs with equal frequency tables build trees
/// of one shape — and with `lemma_model_decode`, trees that decode alike.
pub proof fn lemma_build_deterministic(t1: HuffmanTree, t2: HuffmanTree, d1: Seq<u8>, d2: Seq<u8>)
    requires
        forall|v: u8| #[trigger] freq(d1, v) == freq(d2, v),
        model(t1) == spec_build(freq_table(d1)),
        model(t2) == spec_build(freq_table(d2)),
    ensures
        model(t1) == model(t2),
{
    assert(freq_table(d1) =~= freq_table(d2));
}

/// The header round-trip law: serialize a built tree, rebuild a tree from
/// the table, and the rebuilt tree decodes what it encodes, for the very
/// data the table came from, whatever extra bits follow.
pub proof fn lemma_header_round_trip(
    t: HuffmanTree,
    table: Seq<u8>,
    t2: HuffmanTree,
    d: Seq<u8>,
    rest: Seq<bool>,
)
    requires
        d.len() > 0,
        // what `serialize` guarantees of the table written for `t`
        forall|v: u8| #[trigger] table_count(table, v) == leaf_count(t, v),
        // what `build_tree` guarantees of `t` built from `d`
        forall|v: u8| #[trigger] leaf_count(t, v) == freq(d, v),
        // what `deserialize` guarantees of `t2` rebuilt from the table
        forall|v: u8| #[trigger] leaf_count(t2, v) == table_count(table, v),
        forall|v: u8| #[trigger] t2.elem@.contains(v) <==> table_count(table, v) > 0,
        (exists|v: u8| table_count(table, v) > 0) ==> wf(t2) && !is_leaf_node(t2),
    ensures
        decode_all(t2, encoded_bits(t2, d) + rest, d.len() as nat) == DecodeOutcome::Decoded(d),
{
    lemma_freq_positive(d, 0);
    assert(table_count(table, d[0]) > 0);
    assert forall|i: int| 0 <= i < d.len() implies t2.elem@.contains(#[trigger] d[i]) by {
        lemma_freq_positive(d, i);
        assert(table_count(table, d[i]) > 0);
    }
    lemma_tree_round_trip(t2, d, rest);
}

} // verus!
