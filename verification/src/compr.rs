//! The codec engine: the bit-packing encoder, the decoding trie, and the
//! trie-walking decoder.

use vstd::prelude::*;

use crate::bits::{bits_valid, pack_bits, pack_full, pad_bits, pad_to_boundary};
use crate::codebook::{
    agree, code_of, eoc_spec, supported, views_of, wf_syms, SymSpec, Symbol,
};
use crate::errors::BncsvError;

verus! {

/// Every byte of the sequence is in the supported alphabet.
pub open spec fn all_supported(data: Seq<u8>) -> bool {
    forall|k: int| 0 <= k < data.len() ==> supported(#[trigger] data[k])
}

/// `k` is the position of the first unsupported byte.
pub open spec fn is_first_bad(data: Seq<u8>, k: int) -> bool {
    &&& 0 <= k < data.len()
    &&& !supported(data[k])
    &&& forall|j: int| 0 <= j < k ==> supported(#[trigger] data[j])
}

/// The concatenated codes of a byte sequence, in order.
pub open spec fn enc_bits(data: Seq<u8>) -> Seq<u8>
    decreases data.len(),
{
    if data.len() == 0 {
        Seq::<u8>::empty()
    } else {
        code_of(data[0]).unwrap() + enc_bits(data.skip(1))
    }
}

/// The full packed stream of a wholly supported byte sequence: its codes,
/// the end-of-content code, and zero padding to the byte boundary.
pub open spec fn packed_stream(data: Seq<u8>) -> Seq<u8> {
    pack_bits(pad_bits(enc_bits(data) + crate::codebook::eoc_code()))
}

/// What the encoder returns: on a wholly supported input, the packed
/// stream and no error; otherwise the whole bytes packed from the codes of
/// the longest supported prefix, and an `InvalidData` error.
pub open spec fn encode_post(data: Seq<u8>, out: Seq<u8>, err: Option<BncsvError>) -> bool {
    &&& all_supported(data) ==> err is None && out == packed_stream(data)
    &&& !all_supported(data) ==> err == Some(BncsvError::InvalidData) && exists|k: int|
        #[trigger] is_first_bad(data, k) && out == pack_bits(enc_bits(data.take(k)))
}

/// A lookup table whose entries are exactly the codebook.
pub open spec fn table_matches(table: Seq<Option<Vec<u8>>>) -> bool {
    &&& table.len() == 255
    &&& forall|b: int|
        0 <= b < 255 ==> (match #[trigger] table[b] {
            Some(v) => code_of(b as u8) == Some(v@),
            None => code_of(b as u8) is None,
        })
}

/// Extending an encoded prefix by one byte appends that byte's code.
pub proof fn lemma_enc_snoc(data: Seq<u8>, i: int)
    requires
        0 <= i < data.len(),
    ensures
        enc_bits(data.take(i + 1)) == enc_bits(data.take(i)) + code_of(data[i]).unwrap(),
    decreases i,
{
    if i == 0 {
        assert(data.take(1).skip(1) =~= Seq::<u8>::empty());
        assert(data.take(0) =~= Seq::<u8>::empty());
        assert(enc_bits(data.take(1)) == code_of(data[0]).unwrap() + enc_bits(
            Seq::<u8>::empty(),
        ));
        assert(enc_bits(data.take(1)) =~= enc_bits(data.take(0)) + code_of(data[0]).unwrap());
    } else {
        let d2 = data.skip(1);
        lemma_enc_snoc(d2, i - 1);
        assert(data.take(i + 1).skip(1) =~= d2.take(i));
        assert(data.take(i).skip(1) =~= d2.take(i - 1));
        assert(data.take(i + 1)[0] == data[0] && data.take(i)[0] == data[0]);
        assert(d2[i - 1] == data[i]);
        assert(enc_bits(data.take(i + 1)) == code_of(data[0]).unwrap() + (enc_bits(d2.take(i - 1))
            + code_of(data[i]).unwrap()));
        assert(enc_bits(data.take(i)) == code_of(data[0]).unwrap() + enc_bits(d2.take(i - 1)));
        assert(code_of(data[0]).unwrap() + (enc_bits(d2.take(i - 1)) + code_of(data[i]).unwrap())
            =~= (code_of(data[0]).unwrap() + enc_bits(d2.take(i - 1))) + code_of(
            data[i],
        ).unwrap());
    }
}

/// The concatenated codes of a supported sequence are valid bits.
pub proof fn lemma_enc_bits_valid(data: Seq<u8>)
    requires
        all_supported(data),
    ensures
        bits_valid(enc_bits(data)),
    decreases data.len(),
{
    if data.len() > 0 {
        crate::codebook::lemma_code_of_valid(data[0]);
        assert(all_supported(data.skip(1)));
        lemma_enc_bits_valid(data.skip(1));
        let c = code_of(data[0]).unwrap();
        let rest = enc_bits(data.skip(1));
        assert forall|k: int| 0 <= k < enc_bits(data).len() implies enc_bits(data)[k] <= 1 by {
            if k < c.len() {
                assert(enc_bits(data)[k] == c[k]);
            } else {
                assert(enc_bits(data)[k] == rest[k - c.len()]);
            }
        }
    }
}

/// Appends the bits of `src` to `dst`.
pub fn append_bits(dst: &mut Vec<u8>, src: &Vec<u8>)
    ensures
        final(dst)@ == old(dst)@ + src@,
{
    let mut k: usize = 0;
    while k < src.len()
        invariant
            k <= src.len(),
            dst@ == old(dst)@ + src@.take(k as int),
        decreases src.len() - k,
    {
        proof {
            assert((old(dst)@ + src@.take(k as int)).push(src@[k as int]) =~= old(dst)@
                + src@.take(k + 1));
        }
        dst.push(src[k]);
        k += 1;
    }
    proof {
        assert(src@.take(src@.len() as int) =~= src@);
    }
}

/// Encodes a byte sequence through a codebook lookup table: the code bits
/// of each byte in order, the end-of-content code, zero padding to a byte
/// boundary, all packed most-significant-bit first. On the first
/// unsupported byte the whole bytes packed so far are returned together
/// with an `InvalidData` error.
pub fn encode(lookup_table: &Vec<Option<Vec<u8>>>, eoc_symb: &Symbol, data: &Vec<u8>) -> (r: (
    Vec<u8>,
    Option<BncsvError>,
))
    requires
        table_matches(lookup_table@),
        eoc_symb@ == eoc_spec(),
    ensures
        encode_post(data@, r.0@, r.1),
{
    let mut bits: Vec<u8> = Vec::new();
    let mut i: usize = 0;
    proof {
        assert(data@.take(0) =~= Seq::<u8>::empty());
    }
    while i < data.len()
        invariant
            table_matches(lookup_table@),
            i <= data.len(),
            forall|j: int| 0 <= j < i ==> supported(#[trigger] data@[j]),
            bits@ == enc_bits(data@.take(i as int)),
            bits_valid(bits@),
        decreases data.len() - i,
    {
        let b = data[i];
        let idx = b as usize;
        let mut bad = false;
        if idx >= lookup_table.len() {
            bad = true;
        } else {
            match &lookup_table[idx] {
                Some(code) => {
                    proof {
                        lemma_enc_snoc(data@, i as int);
                        crate::codebook::lemma_code_of_valid(b);
                    }
                    append_bits(&mut bits, code);
                    proof {
                        assert(forall|k: int|
                            0 <= k < bits@.len() ==> #[trigger] bits@[k] <= 1);
                    }
                },
                None => {
                    bad = true;
                },
            }
        }
        if bad {
            proof {
                assert(!supported(data@[i as int]));
                assert(is_first_bad(data@, i as int));
            }
            return (pack_full(&bits), Some(BncsvError::InvalidData));
        }
        i += 1;
    }
    proof {
        assert(data@.take(data@.len() as int) =~= data@);
        lemma_enc_bits_valid(data@);
    }
    append_bits(&mut bits, &eoc_symb.bits);
    proof {
        assert(forall|k: int| 0 <= k < bits@.len() ==> #[trigger] bits@[k] <= 1);
    }
    pad_to_boundary(&mut bits);
    (pack_full(&bits), None)
}

/// A node of the decoding trie: either a leaf holding one symbol, or an
/// internal node whose `down` child continues the codes with a 0 bit and
/// whose `up` child continues them with a 1 bit.
#[derive(Debug)]
pub struct DecodingTree {
    pub root: Option<Symbol>,
    pub up: Option<Box<DecodingTree>>,
    pub down: Option<Box<DecodingTree>>,
}

/// The symbols of the set whose code continues with bit `b` at `depth`.
pub open spec fn filt(syms: Seq<SymSpec>, depth: nat, b: u8) -> Seq<SymSpec>
    decreases syms.len(),
{
    if syms.len() == 0 {
        syms
    } else {
        let rest = filt(syms.drop_last(), depth, b);
        if syms.last().code.len() > depth && syms.last().code[depth as int] == b {
            rest.push(syms.last())
        } else {
            rest
        }
    }
}

/// The trie below `t` inverts the symbol set at bit position `depth`: a
/// single symbol is a leaf, and a larger set splits by its bit at `depth`
/// into the two children, exactly as the recursive partition of the
/// construction describes.
pub open spec fn tree_inverts(t: DecodingTree, syms: Seq<SymSpec>, depth: nat) -> bool
    decreases t,
{
    if syms.len() == 1 {
        &&& t.root matches Some(s) && s@ == syms[0]
        &&& t.down is None
        &&& t.up is None
    } else {
        &&& t.root is None
        &&& (match t.down {
            Some(sub) => filt(syms, depth, 0).len() >= 1 && tree_inverts(
                *sub,
                filt(syms, depth, 0),
                depth + 1,
            ),
            None => filt(syms, depth, 0).len() == 0,
        })
        &&& (match t.up {
            Some(sub) => filt(syms, depth, 1).len() >= 1 && tree_inverts(
                *sub,
                filt(syms, depth, 1),
                depth + 1,
            ),
            None => filt(syms, depth, 1).len() == 0,
        })
    }
}

/// Membership in a filtered set is membership in the set together with the
/// filter condition.
pub proof fn lemma_filt_contains(syms: Seq<SymSpec>, depth: nat, b: u8, x: SymSpec)
    ensures
        filt(syms, depth, b).contains(x) <==> (syms.contains(x) && x.code.len() > depth
            && x.code[depth as int] == b),
    decreases syms.len(),
{
    if syms.len() > 0 {
        let d = syms.drop_last();
        lemma_filt_contains(d, depth, b, x);
        let rest = filt(d, depth, b);
        let f = filt(syms, depth, b);
        if d.contains(x) {
            let i = choose|i: int| 0 <= i < d.len() && d[i] == x;
            assert(syms[i] == x);
            assert(syms.contains(x));
        }
        if syms.contains(x) && x.code.len() > depth && x.code[depth as int] == b {
            if x == syms.last() {
                assert(f.contains(x)) by {
                    assert(f.last() == x);
                }
            } else {
                let i = choose|i: int| 0 <= i < syms.len() && syms[i] == x;
                assert(d[i] == x);
                assert(d.contains(x));
                assert(rest.contains(x));
                let j = choose|j: int| 0 <= j < rest.len() && rest[j] == x;
                assert(f[j] == x);
                assert(f.contains(x));
            }
        }
        if f.contains(x) {
            let i = choose|i: int| 0 <= i < f.len() && f[i] == x;
            if syms.last().code.len() > depth && syms.last().code[depth as int] == b {
                assert(f == rest.push(syms.last()));
                if i < rest.len() {
                    assert(rest[i] == x);
                    assert(rest.contains(x));
                } else {
                    assert(x == syms.last());
                    assert(syms.contains(x)) by {
                        assert(syms[syms.len() - 1] == x);
                    }
                }
            } else {
                assert(f == rest);
                assert(rest[i] == x);
                assert(rest.contains(x));
            }
        }
    }
}

/// Filtering keeps a duplicate-free set duplicate free.
pub proof fn lemma_filt_nodup(syms: Seq<SymSpec>, depth: nat, b: u8)
    requires
        forall|i: int, j: int| 0 <= i < j < syms.len() ==> syms[i] != syms[j],
    ensures
        forall|i: int, j: int|
            0 <= i < j < filt(syms, depth, b).len() ==> filt(syms, depth, b)[i] != filt(
                syms,
                depth,
                b,
            )[j],
    decreases syms.len(),
{
    if syms.len() > 0 {
        let d = syms.drop_last();
        assert(forall|i: int, j: int| 0 <= i < j < d.len() ==> d[i] != d[j]);
        lemma_filt_nodup(d, depth, b);
        let rest = filt(d, depth, b);
        if syms.last().code.len() > depth && syms.last().code[depth as int] == b {
            assert(!rest.contains(syms.last())) by {
                if rest.contains(syms.last()) {
                    lemma_filt_contains(d, depth, b, syms.last());
                    let i = choose|i: int| 0 <= i < d.len() && d[i] == syms.last();
                    assert(syms[i] == syms.last());
                    assert(syms[i] != syms[syms.len() - 1]);
                }
            }
            assert forall|i: int, j: int|
                0 <= i < j < filt(syms, depth, b).len() implies filt(syms, depth, b)[i] != filt(
                syms,
                depth,
                b,
            )[j] by {
                if j < rest.len() {
                } else {
                    assert(filt(syms, depth, b)[j] == syms.last());
                    assert(filt(syms, depth, b)[i] == rest[i]);
                    assert(rest.contains(rest[i]));
                }
            }
        }
    }
}

/// Filtering preserves well-formedness of the symbol set.
pub proof fn lemma_filt_wf(syms: Seq<SymSpec>, depth: nat, b: u8)
    requires
        wf_syms(syms),
    ensures
        wf_syms(filt(syms, depth, b)),
{
    lemma_filt_nodup(syms, depth, b);
    let f = filt(syms, depth, b);
    assert forall|x: SymSpec| #[trigger] f.contains(x) implies syms.contains(x) by {
        lemma_filt_contains(syms, depth, b, x);
    }
}

/// Filtering at the agreed depth extends the agreement one bit further.
pub proof fn lemma_filt_agree(syms: Seq<SymSpec>, depth: nat, b: u8)
    requires
        agree(syms, depth),
    ensures
        agree(filt(syms, depth, b), depth + 1),
{
    let f = filt(syms, depth, b);
    assert forall|x: SymSpec, y: SymSpec| f.contains(x) && f.contains(y) implies x.code.len()
        >= depth + 1 && x.code.take(depth as int + 1) == y.code.take(depth as int + 1) by {
        lemma_filt_contains(syms, depth, b, x);
        lemma_filt_contains(syms, depth, b, y);
        assert(x.code.take(depth as int) == y.code.take(depth as int));
        assert forall|k: int| 0 <= k < depth + 1 implies x.code[k] == y.code[k] by {
            if k < depth {
                assert(x.code.take(depth as int)[k] == y.code.take(depth as int)[k]);
            }
        }
        assert(x.code.take(depth as int + 1) =~= y.code.take(depth as int + 1));
    }
}

/// Filtering preserves completeness below the new depth.
pub proof fn lemma_filt_complete(syms: Seq<SymSpec>, depth: nat, b: u8)
    requires
        crate::codebook::complete_rel(syms, depth),
    ensures
        crate::codebook::complete_rel(filt(syms, depth, b), depth + 1),
{
    let f = filt(syms, depth, b);
    assert forall|a: SymSpec, d: int|
        f.contains(a) && depth + 1 <= d < a.code.len() implies #[trigger] crate::codebook::has_extension(
        f,
        a,
        d,
    ) by {
        lemma_filt_contains(syms, depth, b, a);
        assert(crate::codebook::has_extension(syms, a, d));
        let w = choose|w: SymSpec|
            #[trigger] syms.contains(w) && w != a && w.code.len() > d && w.code.take(d)
                =~= a.code.take(d);
        assert(w.code[depth as int] == a.code[depth as int]) by {
            assert(w.code.take(d)[depth as int] == a.code.take(d)[depth as int]);
        }
        lemma_filt_contains(syms, depth, b, w);
        assert(f.contains(w));
    }
}

/// Builds the subtree of a symbol set from bit position `depth` by the
/// recursive partition of the set on its bit at `depth`.
fn init(depth: usize, symbols: Vec<Symbol>) -> (t: DecodingTree)
    requires
        1 <= symbols.len(),
        wf_syms(views_of(symbols@)),
        agree(views_of(symbols@), depth as nat),
        depth <= 6,
    ensures
        tree_inverts(t, views_of(symbols@), depth as nat),
    decreases 6 - depth,
{
    let ghost svs = views_of(symbols@);
    if symbols.len() == 1 {
        let s = crate::codebook::clone_symbol(&symbols[0]);
        let t = DecodingTree { root: Some(s), down: None, up: None };
        proof {
            assert(svs[0] == symbols@[0]@);
        }
        return t;
    }
    let mut down_part: Vec<Symbol> = Vec::new();
    let mut up_part: Vec<Symbol> = Vec::new();
    let mut i: usize = 0;
    proof {
        assert(svs.take(0) =~= Seq::<SymSpec>::empty());
        assert(views_of(down_part@) =~= filt(svs.take(0), depth as nat, 0));
        assert(views_of(up_part@) =~= filt(svs.take(0), depth as nat, 1));
    }
    while i < symbols.len()
        invariant
            i <= symbols.len(),
            1 <= symbols.len(),
            depth <= 6,
            wf_syms(svs),
            agree(svs, depth as nat),
            svs == views_of(symbols@),
            symbols.len() >= 2,
            views_of(down_part@) == filt(svs.take(i as int), depth as nat, 0),
            views_of(up_part@) == filt(svs.take(i as int), depth as nat, 1),
        decreases symbols.len() - i,
    {
        proof {
            assert(svs.contains(svs[i as int])) by {
                assert(svs[i as int] == svs[i as int]);
            }
            crate::codebook::lemma_codes_longer(svs, depth as nat, svs[i as int]);
            assert(symbols@[i as int]@.code == symbols@[i as int].bits@);
        }
        let s = crate::codebook::clone_symbol(&symbols[i]);
        let ghost pre_down = down_part@;
        let ghost pre_up = up_part@;
        let bit = s.bits[depth];
        if bit == 0 {
            down_part.push(s);
        } else {
            proof {
                assert(svs[i as int].code[depth as int] <= 1);
            }
            up_part.push(s);
        }
        proof {
            let tk1 = svs.take(i + 1);
            assert(tk1.drop_last() =~= svs.take(i as int));
            assert(tk1.last() == svs[i as int]);
            assert(views_of(down_part@) =~= filt(tk1, depth as nat, 0));
            assert(views_of(up_part@) =~= filt(tk1, depth as nat, 1));
        }
        i += 1;
    }
    proof {
        assert(svs.take(symbols@.len() as int) =~= svs);
        lemma_filt_wf(svs, depth as nat, 0);
        lemma_filt_wf(svs, depth as nat, 1);
        lemma_filt_agree(svs, depth as nat, 0);
        lemma_filt_agree(svs, depth as nat, 1);
    }
    let down = if down_part.len() > 0 {
        proof {
            let f = filt(svs, depth as nat, 0);
            assert(f.contains(f[0]));
            lemma_filt_contains(svs, depth as nat, 0, f[0]);
            assert(f[0].code.len() <= 6);
        }
        Some(Box::new(init(depth + 1, down_part)))
    } else {
        None
    };
    let up = if up_part.len() > 0 {
        proof {
            let f = filt(svs, depth as nat, 1);
            assert(f.contains(f[0]));
            lemma_filt_contains(svs, depth as nat, 1, f[0]);
            assert(f[0].code.len() <= 6);
        }
        Some(Box::new(init(depth + 1, up_part)))
    } else {
        None
    };
    DecodingTree { root: None, down, up }
}

impl DecodingTree {
    /// Builds the decoding trie of a symbol set: the structural inverse of
    /// the codebook, with each symbol at the end of the path its code spells.
    pub fn new(symbols: &Vec<Symbol>) -> (t: DecodingTree)
        requires
            1 <= symbols@.len(),
            wf_syms(views_of(symbols@)),
        ensures
            tree_inverts(t, views_of(symbols@), 0),
    {
        let mut owned: Vec<Symbol> = Vec::new();
        let mut i: usize = 0;
        while i < symbols.len()
            invariant
                i <= symbols.len(),
                views_of(owned@) == views_of(symbols@.take(i as int)),
            decreases symbols.len() - i,
        {
            let s = crate::codebook::clone_symbol(&symbols[i]);
            proof {
                assert(views_of(owned@).push(s@) =~= views_of(symbols@.take(i + 1)));
                assert(views_of(owned@.push(s)) =~= views_of(owned@).push(s@));
            }
            owned.push(s);
            i += 1;
        }
        proof {
            assert(symbols@.take(symbols@.len() as int) =~= symbols@);
            assert(views_of(owned@) == views_of(symbols@));
            assert forall|a: SymSpec, b: SymSpec|
                views_of(symbols@).contains(a) && views_of(symbols@).contains(
                    b,
                ) implies a.code.len() >= 0 && a.code.take(0) == b.code.take(0) by {
                assert(a.code.take(0) =~= b.code.take(0));
            }
        }
        init(0, owned)
    }
}

/// How a decoding run ends: at the end-of-content symbol, at the end of
/// the input with a partial symbol silently dropped, or at a bit with no
/// matching trie edge.
pub enum DecodeEnd {
    Finished,
    Truncated,
    Invalid,
}

/// One decoder step: the child of `t` selected by the bit `b`, if any.
pub open spec fn step(t: DecodingTree, b: u8) -> Option<DecodingTree> {
    if b == 0 {
        match t.down {
            Some(sub) => Some(*sub),
            None => None,
        }
    } else if b == 1 {
        match t.up {
            Some(sub) => Some(*sub),
            None => None,
        }
    } else {
        None
    }
}

/// The decoded byte values of a bit stream walked through the trie rooted
/// at `root` from the cursor `cur`, together with how the run ends. Each
/// bit moves the cursor along the matching edge; a leaf emits its symbol's
/// byte and resets the cursor to the root; the end-of-content symbol stops
/// the run and ignores the rest of the stream.
pub open spec fn run(root: DecodingTree, cur: DecodingTree, bits: Seq<u8>) -> (Seq<u8>, DecodeEnd)
    decreases bits.len(),
{
    if bits.len() == 0 {
        (Seq::<u8>::empty(), DecodeEnd::Truncated)
    } else {
        match step(cur, bits[0]) {
            None => (Seq::<u8>::empty(), DecodeEnd::Invalid),
            Some(nxt) => match nxt.root {
                Some(s) => if s@ == eoc_spec() {
                    (Seq::<u8>::empty(), DecodeEnd::Finished)
                } else {
                    let r = run(root, root, bits.skip(1));
                    (seq![s.value] + r.0, r.1)
                },
                None => run(root, nxt, bits.skip(1)),
            },
        }
    }
}

/// A streaming decoder over a bit vector: each call of `next` walks the
/// trie from its root along the following bits and yields the symbol of
/// the leaf it reaches.
pub struct DecoderUnfold {
    pub iter: Vec<u8>,
    pub pos: usize,
    pub decoding_tree: DecodingTree,
    pub eoc_symbol: Symbol,
}

impl DecoderUnfold {
    /// A decoder positioned at the start of the given bit stream.
    pub fn new(iter: Vec<u8>, decoding_tree: DecodingTree, eoc_symbol: Symbol) -> (d:
        DecoderUnfold)
        ensures
            d.iter == iter,
            d.pos == 0,
            d.decoding_tree == decoding_tree,
            d.eoc_symbol == eoc_symbol,
    {
        DecoderUnfold { iter, pos: 0, decoding_tree, eoc_symbol }
    }

    /// Decodes the next symbol: `None` at the end-of-content symbol or at
    /// the end of the input, the symbol of the reached leaf otherwise, and
    /// an `InvalidData` error on a bit with no matching edge.
    pub fn next(&mut self) -> (r: Option<Result<Symbol, BncsvError>>)
        requires
            old(self).pos <= old(self).iter@.len(),
            old(self).eoc_symbol@ == eoc_spec(),
        ensures
            final(self).iter == old(self).iter,
            final(self).decoding_tree == old(self).decoding_tree,
            final(self).eoc_symbol == old(self).eoc_symbol,
            final(self).pos <= final(self).iter@.len(),
            ({
                let t = old(self).decoding_tree;
                let full = run(t, t, old(self).iter@.skip(old(self).pos as int));
                let after = run(t, t, final(self).iter@.skip(final(self).pos as int));
                match r {
                    None => full.0.len() == 0 && full.1 != DecodeEnd::Invalid,
                    Some(res) => match res {
                        Ok(s) => full.0.len() > 0 && s.value == full.0[0] && after.0 == full.0.skip(
                            1,
                        ) && after.1 == full.1 && final(self).pos > old(self).pos,
                        Err(e) => full.0.len() == 0 && full.1 == DecodeEnd::Invalid && e
                            == BncsvError::InvalidData && final(self).pos > old(self).pos,
                    },
                }
            }),
    {
        let ghost t = self.decoding_tree;
        let ghost start = self.pos;
        let mut cur: &DecodingTree = &self.decoding_tree;
        while self.pos < self.iter.len()
            invariant
                self.iter == old(self).iter,
                self.decoding_tree == old(self).decoding_tree,
                self.eoc_symbol == old(self).eoc_symbol,
                self.eoc_symbol@ == eoc_spec(),
                t == old(self).decoding_tree,
                start == old(self).pos,
                start <= self.pos <= self.iter@.len(),
                run(t, t, self.iter@.skip(start as int)) == run(
                    t,
                    *cur,
                    self.iter@.skip(self.pos as int),
                ),
            decreases self.iter@.len() - self.pos,
        {
            let ghost pre = self.pos as int;
            let b = self.iter[self.pos];
            self.pos = self.pos + 1;
            proof {
                assert(self.iter@.skip(pre)[0] == b);
                assert(self.iter@.skip(pre).skip(1) =~= self.iter@.skip(pre + 1));
            }
            let ghost at_node = *cur;
            if b == 0 && cur.down.is_some() {
                cur = cur.down.as_ref().unwrap();
                proof {
                    assert(step(at_node, b) == Some(*cur));
                }
            } else if b == 1 && cur.up.is_some() {
                cur = cur.up.as_ref().unwrap();
                proof {
                    assert(step(at_node, b) == Some(*cur));
                }
            } else {
                proof {
                    assert(step(at_node, b) is None);
                    assert(run(t, at_node, self.iter@.skip(pre)) == (
                        Seq::<u8>::empty(),
                        DecodeEnd::Invalid,
                    ));
                }
                return Some(Err(BncsvError::InvalidData));
            }
            match &cur.root {
                Some(symb) => {
                    if *symb == self.eoc_symbol {
                        proof {
                            assert(run(t, at_node, self.iter@.skip(pre)) == (
                                Seq::<u8>::empty(),
                                DecodeEnd::Finished,
                            ));
                        }
                        return None;
                    }
                    let out = crate::codebook::clone_symbol(symb);
                    proof {
                        let r2 = run(t, t, self.iter@.skip(self.pos as int));
                        assert(run(t, at_node, self.iter@.skip(pre)) == (
                            seq![symb.value] + r2.0,
                            r2.1,
                        ));
                        assert((seq![symb.value] + r2.0).skip(1) =~= r2.0);
                    }
                    return Some(Ok(out));
                },
                None => {
                    proof {
                        assert(run(t, at_node, self.iter@.skip(pre)) == run(
                            t,
                            *cur,
                            self.iter@.skip(pre + 1),
                        ));
                    }
                },
            }
        }
        proof {
            assert(self.iter@.skip(self.pos as int).len() == 0);
            assert(run(t, *cur, self.iter@.skip(self.pos as int)) == (
                Seq::<u8>::empty(),
                DecodeEnd::Truncated,
            ));
        }
        None
    }
}

/// Decodes a stream of bits (each 0 or 1 as a `u8`) through the given
/// decoding trie: the byte values of the leaves reached in order, ending
/// silently at the end-of-content symbol or at the end of the input, and
/// with an `InvalidData` error at any bit with no matching edge.
#[verifier::loop_isolation(false)]
pub fn decode(decoding_tree: DecodingTree, eoc_symbol: &Symbol, data: Vec<u8>) -> (r: (
    Vec<u8>,
    Option<BncsvError>,
))
    requires
        eoc_symbol@ == eoc_spec(),
    ensures
        ({
            let full = run(decoding_tree, decoding_tree, data@);
            &&& r.0@ == full.0
            &&& r.1 is None <==> full.1 != DecodeEnd::Invalid
            &&& r.1 is Some ==> r.1 == Some(BncsvError::InvalidData)
        }),
{
    let ghost t = decoding_tree;
    let eoc = crate::codebook::clone_symbol(eoc_symbol);
    let mut unfold = DecoderUnfold::new(data, decoding_tree, eoc);
    let mut out: Vec<u8> = Vec::new();
    proof {
        assert(unfold.iter@.skip(0) =~= data@);
        assert(Seq::<u8>::empty() + run(t, t, data@).0 =~= run(t, t, data@).0);
    }
    loop
        invariant
            unfold.decoding_tree == t,
            unfold.eoc_symbol@ == eoc_spec(),
            unfold.pos <= unfold.iter@.len(),
            unfold.iter@ == data@,
            run(t, t, data@).0 == out@ + run(t, t, unfold.iter@.skip(unfold.pos as int)).0,
            run(t, t, data@).1 == run(t, t, unfold.iter@.skip(unfold.pos as int)).1,
        decreases unfold.iter@.len() - unfold.pos,
    {
        let ghost rem = run(t, t, unfold.iter@.skip(unfold.pos as int));
        match unfold.next() {
            None => {
                proof {
                    assert(out@ + rem.0 =~= out@);
                }
                return (out, None);
            },
            Some(res) => match res {
                Ok(s) => {
                    proof {
                        let rem2 = run(t, t, unfold.iter@.skip(unfold.pos as int));
                        assert(out@.push(s.value) + rem2.0 =~= out@ + rem.0) by {
                            assert(rem.0 =~= seq![rem.0[0]] + rem.0.skip(1));
                        }
                    }
                    out.push(s.value);
                },
                Err(e) => {
                    proof {
                        assert(out@ + rem.0 =~= out@);
                    }
                    return (out, Some(e));
                },
            },
        }
    }
}

/// Two tries that invert the same symbol set decode every bit stream the
/// same way: the run depends only on the symbol set.
pub proof fn lemma_run_agree(
    t1: DecodingTree,
    c1: DecodingTree,
    t2: DecodingTree,
    c2: DecodingTree,
    rsyms: Seq<SymSpec>,
    syms: Seq<SymSpec>,
    depth: nat,
    bits: Seq<u8>,
)
    requires
        tree_inverts(t1, rsyms, 0),
        tree_inverts(t2, rsyms, 0),
        tree_inverts(c1, syms, depth),
        tree_inverts(c2, syms, depth),
        rsyms.len() >= 2,
        syms.len() >= 2,
    ensures
        run(t1, c1, bits) == run(t2, c2, bits),
    decreases bits.len(),
{
    if bits.len() > 0 {
        let b = bits[0];
        if b <= 1 {
            let sub = filt(syms, depth, b);
            let e1 = if b == 0 {
                c1.down
            } else {
                c1.up
            };
            let e2 = if b == 0 {
                c2.down
            } else {
                c2.up
            };
            match e1 {
                None => {
                    assert(sub.len() == 0);
                    assert(e2 is None);
                },
                Some(n1) => {
                    assert(sub.len() >= 1);
                    let n2 = e2->Some_0;
                    assert(tree_inverts(*n1, sub, depth + 1));
                    assert(tree_inverts(*n2, sub, depth + 1));
                    if sub.len() == 1 {
                        let s1 = n1.root->Some_0;
                        let s2 = n2.root->Some_0;
                        assert(s1@ == sub[0] && s2@ == sub[0]);
                        if sub[0] != eoc_spec() {
                            lemma_run_agree(t1, t1, t2, t2, rsyms, rsyms, 0, bits.skip(1));
                        }
                    } else {
                        assert(n1.root is None && n2.root is None);
                        lemma_run_agree(t1, *n1, t2, *n2, rsyms, sub, depth + 1, bits.skip(1));
                    }
                },
            }
        }
    }
}

/// Following a symbol's remaining code bits from the subtree of its set
/// reaches that symbol's leaf: the end-of-content symbol finishes the run,
/// and any other symbol emits its byte and the run continues at the root.
pub proof fn lemma_run_code(
    root: DecodingTree,
    t: DecodingTree,
    syms: Seq<SymSpec>,
    depth: nat,
    s: SymSpec,
    rest: Seq<u8>,
)
    requires
        tree_inverts(t, syms, depth),
        wf_syms(syms),
        agree(syms, depth),
        crate::codebook::complete_rel(syms, depth),
        syms.contains(s),
        syms.len() >= 2,
    ensures
        s == eoc_spec() ==> run(root, t, s.code.skip(depth as int) + rest) == (
            Seq::<u8>::empty(),
            DecodeEnd::Finished,
        ),
        s != eoc_spec() ==> run(root, t, s.code.skip(depth as int) + rest) == (
            seq![s.value] + run(root, root, rest).0,
            run(root, root, rest).1,
        ),
    decreases s.code.len() - depth,
{
    crate::codebook::lemma_codes_longer(syms, depth, s);
    let bits = s.code.skip(depth as int) + rest;
    let b = s.code[depth as int];
    assert(bits[0] == b);
    assert(b <= 1);
    let sub = filt(syms, depth, b);
    lemma_filt_contains(syms, depth, b, s);
    assert(sub.contains(s));
    let si = choose|i: int| 0 <= i < sub.len() && sub[i] == s;
    assert(sub.len() >= 1);
    let edge = if b == 0 {
        t.down
    } else {
        t.up
    };
    let n = edge->Some_0;
    assert(edge is Some && tree_inverts(*n, sub, depth + 1));
    assert(step(t, b) == Some(*n));
    if sub.len() == 1 {
        assert(sub[si] == s && si == 0);
        if depth + 1 < s.code.len() {
            assert(crate::codebook::has_extension(syms, s, depth as int + 1));
            let w = choose|w: SymSpec|
                #[trigger] syms.contains(w) && w != s && w.code.len() > depth as int + 1
                    && w.code.take(depth as int + 1) =~= s.code.take(depth as int + 1);
            assert(w.code[depth as int] == s.code[depth as int]) by {
                assert(w.code.take(depth as int + 1)[depth as int] == s.code.take(
                    depth as int + 1,
                )[depth as int]);
            }
            lemma_filt_contains(syms, depth, b, w);
            assert(sub.contains(w));
            let wi = choose|i: int| 0 <= i < sub.len() && sub[i] == w;
            assert(wi == 0 && sub[0] == w);
            assert(false);
        }
        assert(s.code.len() == depth + 1);
        assert(bits.skip(1) =~= rest);
        let leaf = n.root->Some_0;
        assert(leaf@ == s);
        if s == eoc_spec() {
            assert(run(root, t, bits) == (Seq::<u8>::empty(), DecodeEnd::Finished));
        } else {
            assert(leaf@ != eoc_spec());
            assert(run(root, t, bits) == (
                seq![leaf.value] + run(root, root, rest).0,
                run(root, root, rest).1,
            ));
            assert(leaf.value == s.value);
        }
    } else {
        assert(n.root is None);
        lemma_filt_wf(syms, depth, b);
        lemma_filt_agree(syms, depth, b);
        lemma_filt_complete(syms, depth, b);
        lemma_run_code(root, *n, sub, depth + 1, s, rest);
        assert(bits.skip(1) =~= s.code.skip(depth as int + 1) + rest);
        assert(run(root, t, bits) == run(root, *n, bits.skip(1)));
    }
}

} // verus!
