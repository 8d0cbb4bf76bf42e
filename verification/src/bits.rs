//! Packing bits into bytes and back, most-significant bit first, with the
//! final byte zero-padded on its low-order bits.

use vstd::prelude::*;

verus! {

/// The 8 bits of a byte, most significant first.
pub open spec fn byte_bits(b: u8) -> Seq<bool> {
    seq![
        (b >> 7) & 1 == 1,
        (b >> 6) & 1 == 1,
        (b >> 5) & 1 == 1,
        (b >> 4) & 1 == 1,
        (b >> 3) & 1 == 1,
        (b >> 2) & 1 == 1,
        (b >> 1) & 1 == 1,
        b & 1 == 1,
    ]
}

/// The bits of a byte sequence, in order, each byte most significant first.
pub open spec fn bytes_bits(s: Seq<u8>) -> Seq<bool>
    decreases s.len(),
{
    if s.len() == 0 {
        Seq::empty()
    } else {
        bytes_bits(s.drop_last()) + byte_bits(s.last())
    }
}

/// The zero bits that pad a bitstream of length `n` to a whole byte.
pub open spec fn pad_false(n: int) -> Seq<bool> {
    Seq::new((((8 - n % 8) % 8)) as nat, |i: int| false)
}

/// A byte stream is eight times as many bits.
pub proof fn lemma_bytes_bits_len(s: Seq<u8>)
    ensures
        bytes_bits(s).len() == 8 * s.len(),
    decreases s.len(),
{
    if s.len() > 0 {
        lemma_bytes_bits_len(s.drop_last());
    }
}

/// A byte is determined by its bits.
proof fn lemma_byte_bits_inj(b1: u8, b2: u8)
    requires
        byte_bits(b1) == byte_bits(b2),
    ensures
        b1 == b2,
{
    assert(b1 == b2) by (bit_vector)
        requires
            ((b1 >> 7) & 1 == 1) == ((b2 >> 7) & 1 == 1),
            ((b1 >> 6) & 1 == 1) == ((b2 >> 6) & 1 == 1),
            ((b1 >> 5) & 1 == 1) == ((b2 >> 5) & 1 == 1),
            ((b1 >> 4) & 1 == 1) == ((b2 >> 4) & 1 == 1),
            ((b1 >> 3) & 1 == 1) == ((b2 >> 3) & 1 == 1),
            ((b1 >> 2) & 1 == 1) == ((b2 >> 2) & 1 == 1),
            ((b1 >> 1) & 1 == 1) == ((b2 >> 1) & 1 == 1),
            (b1 & 1 == 1) == (b2 & 1 == 1),
    ;
}

/// A byte stream is determined by its bits.
pub proof fn lemma_bytes_bits_inj(s1: Seq<u8>, s2: Seq<u8>)
    requires
        bytes_bits(s1) == bytes_bits(s2),
    ensures
        s1 == s2,
    decreases s1.len(),
{
    lemma_bytes_bits_len(s1);
    lemma_bytes_bits_len(s2);
    if s1.len() == 0 {
        assert(s1 =~= s2);
    } else {
        let n = s1.len();
        lemma_bytes_bits_len(s1.drop_last());
        lemma_bytes_bits_len(s2.drop_last());
        assert(byte_bits(s1.last()) =~= byte_bits(s2.last())) by {
            assert forall|k: int|
                0 <= k < 8 implies byte_bits(s1.last())[k] == byte_bits(s2.last())[k] by {
                assert(byte_bits(s1.last())[k] == bytes_bits(s1)[8 * (n - 1) + k]);
                assert(byte_bits(s2.last())[k] == bytes_bits(s2)[8 * (n - 1) + k]);
            }
        }
        lemma_byte_bits_inj(s1.last(), s2.last());
        assert(bytes_bits(s1.drop_last()) =~= bytes_bits(s2.drop_last())) by {
            assert forall|i: int|
                0 <= i < 8 * (n - 1) implies bytes_bits(s1.drop_last())[i] == bytes_bits(
                s2.drop_last(),
            )[i] by {
                assert(bytes_bits(s1.drop_last())[i] == bytes_bits(s1)[i]);
                assert(bytes_bits(s2.drop_last())[i] == bytes_bits(s2)[i]);
            }
        }
        lemma_bytes_bits_inj(s1.drop_last(), s2.drop_last());
        assert forall|i: int| 0 <= i < n implies s1[i] == s2[i] by {
            if i < n - 1 {
                assert(s1.drop_last()[i] == s1[i]);
                assert(s2.drop_last()[i] == s2[i]);
            } else {
                assert(s1.last() == s2.last());
            }
        }
        assert(s1 =~= s2);
    }
}

/// The 8 bits of a byte, most significant first, as a vector.
pub fn make_bits(byte: u8) -> (r: Vec<bool>)
    ensures
        r@ == byte_bits(byte),
{
    let mut r: Vec<bool> = Vec::new();
    r.push((byte >> 7) & 1 == 1);
    r.push((byte >> 6) & 1 == 1);
    r.push((byte >> 5) & 1 == 1);
    r.push((byte >> 4) & 1 == 1);
    r.push((byte >> 3) & 1 == 1);
    r.push((byte >> 2) & 1 == 1);
    r.push((byte >> 1) & 1 == 1);
    r.push(byte & 1 == 1);
    proof {
        assert(r@ =~= byte_bits(byte));
    }
    r
}

/// Positions of the eight bit masks in a byte, most significant first.
proof fn lemma_or_bits(v0: u8, v1: u8, v2: u8, v3: u8, v4: u8, v5: u8, v6: u8, v7: u8)
    by (bit_vector)
    requires
        v0 == 0x80 || v0 == 0,
        v1 == 0x40 || v1 == 0,
        v2 == 0x20 || v2 == 0,
        v3 == 0x10 || v3 == 0,
        v4 == 0x08 || v4 == 0,
        v5 == 0x04 || v5 == 0,
        v6 == 0x02 || v6 == 0,
        v7 == 0x01 || v7 == 0,
    ensures
        (((v0 | v1 | v2 | v3 | v4 | v5 | v6 | v7) >> 7) & 1 == 1) <==> v0 == 0x80,
        (((v0 | v1 | v2 | v3 | v4 | v5 | v6 | v7) >> 6) & 1 == 1) <==> v1 == 0x40,
        (((v0 | v1 | v2 | v3 | v4 | v5 | v6 | v7) >> 5) & 1 == 1) <==> v2 == 0x20,
        (((v0 | v1 | v2 | v3 | v4 | v5 | v6 | v7) >> 4) & 1 == 1) <==> v3 == 0x10,
        (((v0 | v1 | v2 | v3 | v4 | v5 | v6 | v7) >> 3) & 1 == 1) <==> v4 == 0x08,
        (((v0 | v1 | v2 | v3 | v4 | v5 | v6 | v7) >> 2) & 1 == 1) <==> v5 == 0x04,
        (((v0 | v1 | v2 | v3 | v4 | v5 | v6 | v7) >> 1) & 1 == 1) <==> v6 == 0x02,
        ((v0 | v1 | v2 | v3 | v4 | v5 | v6 | v7) & 1 == 1) <==> v7 == 0x01,
{
}

/// Packs eight bits into one byte, most significant first.
fn byte_from_bits(
    b0: bool,
    b1: bool,
    b2: bool,
    b3: bool,
    b4: bool,
    b5: bool,
    b6: bool,
    b7: bool,
) -> (r: u8)
    ensures
        byte_bits(r) == seq![b0, b1, b2, b3, b4, b5, b6, b7],
{
    let x0: u8 = if b0 { 0x80 } else { 0 };
    let x1: u8 = if b1 { 0x40 } else { 0 };
    let x2: u8 = if b2 { 0x20 } else { 0 };
    let x3: u8 = if b3 { 0x10 } else { 0 };
    let x4: u8 = if b4 { 0x08 } else { 0 };
    let x5: u8 = if b5 { 0x04 } else { 0 };
    let x6: u8 = if b6 { 0x02 } else { 0 };
    let x7: u8 = if b7 { 0x01 } else { 0 };
    let r = x0 | x1 | x2 | x3 | x4 | x5 | x6 | x7;
    proof {
        lemma_or_bits(x0, x1, x2, x3, x4, x5, x6, x7);
        assert(byte_bits(r) =~= seq![b0, b1, b2, b3, b4, b5, b6, b7]);
    }
    r
}

/// Packs a bitstream into bytes, most significant bit first, padding the
/// final byte with zero bits on its low-order end.
pub fn pack_bits(bits: Vec<bool>) -> (r: Vec<u8>)
    ensures
        bytes_bits(r@) == bits@ + pad_false(bits@.len() as int),
        r@.len() * 8 == bits@.len() + pad_false(bits@.len() as int).len(),
{
    let ghost orig = bits@;
    let ghost target = orig.len() + pad_false(orig.len() as int).len();
    proof {
        assert(target % 8 == 0 && orig.len() <= target < orig.len() + 8) by {
            let n = orig.len() as int;
            assert(n % 8 == 0 ==> (8 - n % 8) % 8 == 0);
            assert(n % 8 != 0 ==> (8 - n % 8) % 8 == 8 - n % 8);
            assert((n + (8 - n % 8) % 8) % 8 == 0);
        }
    }
    let mut bits = bits;
    while bits.len() % 8 != 0
        invariant
            orig.len() <= bits@.len() <= target,
            target < orig.len() + 8,
            target % 8 == 0,
            bits@.take(orig.len() as int) == orig,
            forall|j: int| orig.len() <= j < bits@.len() ==> #[trigger] bits@[j] == false,
        decreases target - bits@.len(),
    {
        proof {
            assert(bits@.len() < target);
        }
        bits.push(false);
        proof {
            assert(bits@.take(orig.len() as int) =~= orig);
        }
    }
    proof {
        assert(bits@.len() == target);
        assert(bits@ =~= orig + pad_false(orig.len() as int));
    }
    let mut out: Vec<u8> = Vec::new();
    let mut k: usize = 0;
    while k < bits.len()
        invariant
            bits@.len() % 8 == 0,
            k % 8 == 0,
            k <= bits@.len(),
            bytes_bits(out@) == bits@.take(k as int),
            out@.len() * 8 == k,
        decreases bits@.len() - k,
    {
        proof {
            assert((bits@.len() - k) % 8 == 0);
            assert(bits@.len() - k >= 8);
        }
        let b = byte_from_bits(
            bits[k],
            bits[k + 1],
            bits[k + 2],
            bits[k + 3],
            bits[k + 4],
            bits[k + 5],
            bits[k + 6],
            bits[k + 7],
        );
        let ghost out0 = out@;
        out.push(b);
        proof {
            assert(out@.drop_last() =~= out0);
            assert(out@.last() == b);
            assert(bytes_bits(out@) == bytes_bits(out0) + byte_bits(b));
            assert forall|i: int| 0 <= i < k + 8 implies (bytes_bits(out0) + byte_bits(b))[i]
                == bits@.take((k + 8) as int)[i] by {
                if i < k {
                } else {
                    assert(byte_bits(b)[i - k] == bits@[i]);
                }
            }
            assert(bytes_bits(out@) =~= bits@.take((k + 8) as int));
        }
        k += 8;
    }
    proof {
        assert(bits@.take(bits@.len() as int) =~= bits@);
    }
    out
}

} // verus!
