//! Packing a bit stream into bytes and unpacking bytes back into bits, in
//! most-significant-bit-first order.

use vstd::prelude::*;

verus! {

/// All elements of the sequence are 0 or 1.
pub open spec fn bits_valid(bits: Seq<u8>) -> bool {
    forall|k: int| 0 <= k < bits.len() ==> bits[k] <= 1
}

/// Powers of two.
pub open spec fn pow2(n: nat) -> int
    decreases n,
{
    if n == 0 {
        1int
    } else {
        2 * pow2((n - 1) as nat)
    }
}

/// The value of a bit sequence read most-significant-bit first.
pub open spec fn val_msb(bits: Seq<u8>) -> int
    decreases bits.len(),
{
    if bits.len() == 0 {
        0int
    } else {
        bits[0] * pow2((bits.len() - 1) as nat) + val_msb(bits.skip(1))
    }
}

/// The `n` low bits of `v`, most significant first.
pub open spec fn bits_of(v: int, n: nat) -> Seq<u8>
    decreases n,
{
    if n == 0 {
        Seq::<u8>::empty()
    } else {
        seq![((v / pow2((n - 1) as nat)) % 2) as u8] + bits_of(v % pow2((n - 1) as nat), (n - 1) as nat)
    }
}

/// Packs a bit stream into bytes, eight bits a byte, first bit in the
/// highest position; a trailing group of fewer than eight bits is dropped.
pub open spec fn pack_bits(bits: Seq<u8>) -> Seq<u8>
    decreases bits.len(),
{
    if bits.len() < 8 {
        Seq::<u8>::empty()
    } else {
        seq![val_msb(bits.take(8)) as u8] + pack_bits(bits.skip(8))
    }
}

/// Extends a bit stream with zero bits up to the next byte boundary.
pub open spec fn pad_bits(bits: Seq<u8>) -> Seq<u8> {
    bits + zeros(((8 - bits.len() % 8) % 8) as nat)
}

/// A sequence of `n` zero bits.
pub open spec fn zeros(n: nat) -> Seq<u8> {
    Seq::new(n, |k: int| 0u8)
}

/// The bits of a byte stream, eight per byte, most significant first.
pub open spec fn unpack_bytes(bytes: Seq<u8>) -> Seq<u8>
    decreases bytes.len(),
{
    if bytes.len() == 0 {
        Seq::<u8>::empty()
    } else {
        bits_of(bytes[0] as int, 8) + unpack_bytes(bytes.skip(1))
    }
}

/// The value of a bit sequence is bounded by the power of two of its length.
pub proof fn lemma_val_msb_bound(bits: Seq<u8>)
    requires
        bits_valid(bits),
    ensures
        0 <= val_msb(bits) < pow2(bits.len() as nat),
    decreases bits.len(),
{
    if bits.len() > 0 {
        assert(bits_valid(bits.skip(1)));
        lemma_val_msb_bound(bits.skip(1));
        lemma_pow2_pos((bits.len() - 1) as nat);
        let p = pow2((bits.len() - 1) as nat);
        assert(bits[0] <= 1);
        assert(bits[0] * p <= p) by {
            if bits[0] == 0 {
                assert(bits[0] * p == 0);
            } else {
                assert(bits[0] * p == p);
            }
        }
        assert(bits[0] * p >= 0) by {
            if bits[0] == 0 {
                assert(bits[0] * p == 0);
            } else {
                assert(bits[0] * p == p);
            }
        }
        assert(pow2(bits.len() as nat) == 2 * p);
    }
}

/// Reading back the bits of a packed value gives the original bits.
pub proof fn lemma_bits_of_val(bits: Seq<u8>)
    requires
        bits_valid(bits),
    ensures
        bits_of(val_msb(bits), bits.len() as nat) == bits,
    decreases bits.len(),
{
    if bits.len() == 0 {
        assert(bits_of(val_msb(bits), 0) =~= bits);
    } else {
        let n = bits.len();
        let p = pow2((n - 1) as nat);
        let rest = bits.skip(1);
        assert(bits_valid(rest));
        lemma_val_msb_bound(rest);
        assert(pow2((n - 1) as nat) > 0) by {
            lemma_pow2_pos((n - 1) as nat);
        }
        let v = val_msb(bits);
        assert(v == bits[0] * p + val_msb(rest));
        assert(v / p == bits[0] && v % p == val_msb(rest)) by {
            if bits[0] == 0 {
                assert(v == val_msb(rest));
                assert(0 <= v < p);
                assert(v / p == 0 && v % p == v) by {
                    vstd::arithmetic::div_mod::lemma_fundamental_div_mod_converse(v, p, 0, v);
                }
            } else {
                assert(bits[0] == 1);
                assert(v == p + val_msb(rest));
                assert(p <= v < 2 * p);
                assert(v / p == 1 && v % p == v - p) by {
                    vstd::arithmetic::div_mod::lemma_fundamental_div_mod_converse(
                        v,
                        p,
                        1,
                        v - p,
                    );
                }
            }
        }
        assert((v / p) % 2 == bits[0]);
        lemma_bits_of_val(rest);
        assert(bits_of(v, n as nat) == seq![bits[0]] + rest);
        assert(seq![bits[0]] + rest =~= bits);
    }
}

/// Powers of two are positive.
pub proof fn lemma_pow2_pos(n: nat)
    ensures
        pow2(n) >= 1,
    decreases n,
{
    if n > 0 {
        lemma_pow2_pos((n - 1) as nat);
    }
}

/// The small powers of two, written out.
pub proof fn lemma_pow2_vals()
    ensures
        pow2(0) == 1,
        pow2(1) == 2,
        pow2(2) == 4,
        pow2(3) == 8,
        pow2(4) == 16,
        pow2(5) == 32,
        pow2(6) == 64,
        pow2(7) == 128,
        pow2(8) == 256,
{
    assert(pow2(0) == 1);
    assert(pow2(1) == 2);
    assert(pow2(2) == 4);
    assert(pow2(3) == 8);
    assert(pow2(4) == 16);
    assert(pow2(5) == 32);
    assert(pow2(6) == 64);
    assert(pow2(7) == 128);
    assert(pow2(8) == 256);
}

/// Unpacking a packed stream of whole bytes gives back the bits.
pub proof fn lemma_unpack_pack(bits: Seq<u8>)
    requires
        bits_valid(bits),
        bits.len() % 8 == 0,
    ensures
        unpack_bytes(pack_bits(bits)) == bits,
    decreases bits.len(),
{
    if bits.len() == 0 {
        assert(unpack_bytes(pack_bits(bits)) =~= bits);
    } else {
        let head = bits.take(8);
        let tail = bits.skip(8);
        assert(bits_valid(head) && bits_valid(tail));
        assert(tail.len() % 8 == 0);
        lemma_val_msb_bound(head);
        lemma_pow2_vals();
        lemma_bits_of_val(head);
        lemma_unpack_pack(tail);
        let packed = pack_bits(bits);
        assert(packed == seq![val_msb(head) as u8] + pack_bits(tail));
        assert(packed[0] == val_msb(head) as u8);
        assert(packed.skip(1) =~= pack_bits(tail));
        assert(unpack_bytes(packed) == bits_of(val_msb(head) as u8 as int, 8) + unpack_bytes(
            pack_bits(tail),
        ));
        assert(val_msb(head) as u8 as int == val_msb(head));
        assert(head.len() == 8);
        assert(unpack_bytes(packed) == head + tail);
        assert(head + tail =~= bits);
    }
}

/// Appends the eight bits of `b`, most significant first, to a bit vector.
#[verifier::rlimit(50)]
pub fn push_byte_bits(bits: &mut Vec<u8>, b: u8)
    ensures
        final(bits)@ == old(bits)@ + bits_of(b as int, 8),
{
    let ghost start = bits@;
    let x0: u8 = b;
    bits.push(x0 / 128);
    let x1: u8 = x0 % 128;
    bits.push(x1 / 64);
    let x2: u8 = x1 % 64;
    bits.push(x2 / 32);
    let x3: u8 = x2 % 32;
    bits.push(x3 / 16);
    let x4: u8 = x3 % 16;
    bits.push(x4 / 8);
    let x5: u8 = x4 % 8;
    bits.push(x5 / 4);
    let x6: u8 = x5 % 4;
    bits.push(x6 / 2);
    let x7: u8 = x6 % 2;
    bits.push(x7);
    proof {
        lemma_pow2_vals();
        let s8 = bits_of(x0 as int, 8);
        let s7 = bits_of(x1 as int, 7);
        let s6 = bits_of(x2 as int, 6);
        let s5 = bits_of(x3 as int, 5);
        let s4 = bits_of(x4 as int, 4);
        let s3 = bits_of(x5 as int, 3);
        let s2 = bits_of(x6 as int, 2);
        let s1 = bits_of(x7 as int, 1);
        assert(s8 =~= seq![x0 / 128] + s7);
        assert(s7 =~= seq![x1 / 64] + s6);
        assert(s6 =~= seq![x2 / 32] + s5);
        assert(s5 =~= seq![x3 / 16] + s4);
        assert(s4 =~= seq![x4 / 8] + s3);
        assert(s3 =~= seq![x5 / 4] + s2);
        assert(s2 =~= seq![x6 / 2] + s1);
        assert(s1 =~= seq![x7 % 2] + bits_of(x7 as int % 1, 0));
        assert(bits_of(x7 as int % 1, 0) =~= Seq::<u8>::empty());
        assert(s1 =~= seq![x7]);
        assert(bits@ =~= start + s8);
    }
}

/// Packs a bit vector into bytes, dropping a trailing group of fewer than
/// eight bits.
pub fn pack_full(bits: &Vec<u8>) -> (r: Vec<u8>)
    requires
        bits_valid(bits@),
    ensures
        r@ == pack_bits(bits@),
{
    let mut out: Vec<u8> = Vec::new();
    let mut i: usize = 0;
    proof {
        assert(bits@.skip(0) =~= bits@);
        assert(Seq::<u8>::empty() + pack_bits(bits@) =~= pack_bits(bits@));
    }
    while bits.len() - i >= 8
        invariant
            bits_valid(bits@),
            i % 8 == 0,
            i <= bits.len(),
            pack_bits(bits@) == out@ + pack_bits(bits@.skip(i as int)),
        decreases bits.len() - i,
    {
        let byte: u8 = bits[i] * 128 + bits[i + 1] * 64 + bits[i + 2] * 32 + bits[i + 3] * 16
            + bits[i + 4] * 8 + bits[i + 5] * 4 + bits[i + 6] * 2 + bits[i + 7];
        proof {
            let rest = bits@.skip(i as int);
            lemma_pow2_vals();
            reveal_with_fuel(val_msb, 9);
            let c = rest.take(8);
            assert(c[0] == bits@[i as int] && c[1] == bits@[i + 1] && c[2] == bits@[i + 2] && c[3]
                == bits@[i + 3] && c[4] == bits@[i + 4] && c[5] == bits@[i + 5] && c[6] == bits@[i
                + 6] && c[7] == bits@[i + 7]);
            assert(val_msb(c) == c[0] * 128 + (c[1] * 64 + (c[2] * 32 + (c[3] * 16 + (c[4] * 8 + (
            c[5] * 4 + (c[6] * 2 + (c[7] * 1 + 0))))))));
            assert(byte as int == val_msb(c));
            assert(pack_bits(rest) == seq![val_msb(c) as u8] + pack_bits(rest.skip(8)));
            assert(rest.skip(8) =~= bits@.skip(i + 8));
            assert(out@.push(byte) + pack_bits(bits@.skip(i + 8)) =~= out@ + pack_bits(rest));
        }
        out.push(byte);
        i += 8;
    }
    proof {
        assert(bits@.skip(i as int).len() < 8);
        assert(pack_bits(bits@.skip(i as int)) =~= Seq::<u8>::empty());
        assert(out@ =~= out@ + pack_bits(bits@.skip(i as int)));
    }
    out
}

/// Appends zero bits up to the next byte boundary.
pub fn pad_to_boundary(bits: &mut Vec<u8>)
    ensures
        final(bits)@ == pad_bits(old(bits)@),
        final(bits)@.len() % 8 == 0,
        bits_valid(old(bits)@) ==> bits_valid(final(bits)@),
{
    let ghost start = bits@;
    while bits.len() % 8 != 0
        invariant
            bits@.take(start.len() as int) == start,
            start.len() <= bits@.len() <= start.len() + (8 - start.len() % 8) % 8,
            forall|k: int| start.len() <= k < bits@.len() ==> bits@[k] == 0,
        decreases (8 - bits.len() % 8) % 8,
    {
        bits.push(0);
    }
    proof {
        assert(bits@.len() % 8 == 0);
        assert(bits@.len() == start.len() + (8 - start.len() % 8) % 8);
        assert(bits@ =~= pad_bits(start));
    }
}

} // verus!
