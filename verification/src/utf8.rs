//! The BNCSV converter for numeric CSV text: the concrete lookup table and
//! symbol set, the converter itself, and the laws that tie the encoder and
//! the decoder together.

use vstd::prelude::*;

use crate::bits::{bits_valid, pad_bits, push_byte_bits, unpack_bytes, zeros};
use crate::codebook::{
    alphabet, code_of, eoc_code, eoc_spec, lemma_alphabet_wf, lemma_code_in_alphabet, supported,
    views_of, SymSpec, Symbol,
};
use crate::compr::{
    all_supported, decode, enc_bits, encode, encode_post, lemma_enc_bits_valid, packed_stream, run,
    table_matches, tree_inverts, DecodeEnd, DecodingTree,
};
use crate::errors::BncsvError;

verus! {

/// The byte sequence with every carriage return removed.
pub open spec fn strip_cr(data: Seq<u8>) -> Seq<u8>
    decreases data.len(),
{
    if data.len() == 0 {
        Seq::<u8>::empty()
    } else if data[0] == 13 {
        strip_cr(data.skip(1))
    } else {
        seq![data[0]] + strip_cr(data.skip(1))
    }
}

/// What decoding a packed byte stream returns: the decoded run of the bit
/// expansion of the stream through the decoding trie of the standard
/// alphabet, with an `InvalidData` error exactly on a dead-end bit path.
pub open spec fn decode_post(data: Seq<u8>, out: Seq<u8>, err: Option<BncsvError>) -> bool {
    forall|t: DecodingTree|
        #[trigger] tree_inverts(t, alphabet(), 0) ==> ({
            let full = run(t, t, unpack_bytes(data));
            &&& out == full.0
            &&& err is None <==> full.1 != DecodeEnd::Invalid
            &&& err is Some ==> err == Some(BncsvError::InvalidData)
        })
}

/// The code bits of one byte, or `None` for an unsupported byte.
pub fn code_for(b: u8) -> (r: Option<Vec<u8>>)
    ensures
        match r {
            Some(v) => code_of(b) == Some(v@),
            None => code_of(b) is None,
        },
{
    let r: Option<Vec<u8>> = if b == 10 {
        Some(vec![0u8, 1u8, 1u8, 0u8, 0u8, 1u8])
    } else if b == 13 {
        Some(vec![])
    } else if b == 44 {
        Some(vec![0u8, 0u8, 1u8])
    } else if b == 45 {
        Some(vec![0u8, 1u8, 1u8, 0u8, 1u8])
    } else if b == 46 {
        Some(vec![0u8, 1u8, 0u8])
    } else if b == 48 {
        Some(vec![0u8, 1u8, 1u8, 1u8])
    } else if b == 49 {
        Some(vec![1u8, 0u8, 1u8, 0u8])
    } else if b == 50 {
        Some(vec![1u8, 1u8, 1u8, 0u8])
    } else if b == 51 {
        Some(vec![1u8, 1u8, 0u8, 1u8])
    } else if b == 52 {
        Some(vec![1u8, 0u8, 0u8, 1u8])
    } else if b == 53 {
        Some(vec![0u8, 0u8, 0u8])
    } else if b == 54 {
        Some(vec![1u8, 1u8, 0u8, 0u8])
    } else if b == 55 {
        Some(vec![1u8, 1u8, 1u8, 1u8])
    } else if b == 56 {
        Some(vec![1u8, 0u8, 1u8, 1u8])
    } else if b == 57 {
        Some(vec![1u8, 0u8, 0u8, 0u8])
    } else {
        None
    };
    proof {
        match &r {
            Some(v) => {
                assert(code_of(b) == Some(v@)) by {
                    assert(v@ =~= code_of(b).unwrap());
                }
            },
            None => {},
        }
    }
    r
}

/// Builds the byte-to-code lookup table of the numeric-CSV alphabet: one
/// entry for each byte value from 0 to 254, exactly the codebook.
pub fn build_utf8_lookup_table() -> (t: Vec<Option<Vec<u8>>>)
    ensures
        table_matches(t@),
{
    let mut t: Vec<Option<Vec<u8>>> = Vec::new();
    let mut i: usize = 0;
    while i < 255
        invariant
            i <= 255,
            t@.len() == i,
            forall|b: int|
                0 <= b < i ==> (match #[trigger] t@[b] {
                    Some(v) => code_of(b as u8) == Some(v@),
                    None => code_of(b as u8) is None,
                }),
        decreases 255 - i,
    {
        t.push(code_for(i as u8));
        i += 1;
    }
    t
}

/// The end-of-content sentinel symbol as a value.
pub fn eoc_symbol() -> (s: Symbol)
    ensures
        s@ == eoc_spec(),
{
    let s = Symbol { bits: vec![0u8, 1u8, 1u8, 0u8, 0u8, 0u8], value: 45 };
    proof {
        assert(s.bits@ =~= eoc_code());
    }
    s
}

/// The full symbol set of the standard alphabet, in the order the decoding
/// trie is built from.
pub fn standard_symbols() -> (r: Vec<Symbol>)
    ensures
        views_of(r@) == alphabet(),
{
    let mut r: Vec<Symbol> = Vec::new();
    let mut b: u8 = 48;
    while b <= 57
        invariant
            48 <= b <= 58,
            r@.len() == b - 48,
            forall|i: int| 0 <= i < r@.len() ==> r@[i]@ == alphabet()[i],
        decreases 58 - b,
    {
        match code_for(b) {
            Some(bits) => {
                r.push(Symbol { bits, value: b });
            },
            None => {
                proof {
                    assert(false);
                }
            },
        }
        b += 1;
    }
    match code_for(44) {
        Some(bits) => r.push(Symbol { bits, value: 44 }),
        None => {
            proof {
                assert(false);
            }
        },
    }
    match code_for(46) {
        Some(bits) => r.push(Symbol { bits, value: 46 }),
        None => {
            proof {
                assert(false);
            }
        },
    }
    match code_for(45) {
        Some(bits) => r.push(Symbol { bits, value: 45 }),
        None => {
            proof {
                assert(false);
            }
        },
    }
    match code_for(10) {
        Some(bits) => r.push(Symbol { bits, value: 10 }),
        None => {
            proof {
                assert(false);
            }
        },
    }
    r.push(eoc_symbol());
    proof {
        assert(views_of(r@) =~= alphabet());
    }
    r
}

/// A converter between numeric CSV text and its packed binary form.
pub trait BnCsvConverter {
    /// Encodes a byte sequence into the packed binary stream.
    fn encode(raw_data: &Vec<u8>) -> (r: (Vec<u8>, Option<BncsvError>))
        ensures
            encode_post(raw_data@, r.0@, r.1),
    ;

    /// Decodes a packed binary stream back into bytes.
    fn decode(data: &Vec<u8>) -> (r: (Vec<u8>, Option<BncsvError>))
        ensures
            decode_post(data@, r.0@, r.1),
    ;
}

/// The converter for UTF-8 numeric CSV text over the standard alphabet.
pub struct Utf8Converter;

impl BnCsvConverter for Utf8Converter {
    fn encode(raw_data: &Vec<u8>) -> (r: (Vec<u8>, Option<BncsvError>)) {
        let table = build_utf8_lookup_table();
        let eoc = eoc_symbol();
        encode(&table, &eoc, raw_data)
    }

    fn decode(data: &Vec<u8>) -> (r: (Vec<u8>, Option<BncsvError>)) {
        let symbols = standard_symbols();
        proof {
            lemma_alphabet_wf();
        }
        let built = DecodingTree::new(&symbols);
        let ghost bt = built;
        let mut bits: Vec<u8> = Vec::new();
        let mut i: usize = 0;
        while i < data.len()
            invariant
                i <= data.len(),
                bits@ == unpack_bytes(data@.take(i as int)),
            decreases data.len() - i,
        {
            proof {
                lemma_unpack_snoc(data@, i as int);
            }
            push_byte_bits(&mut bits, data[i]);
            i += 1;
        }
        proof {
            assert(data@.take(data@.len() as int) =~= data@);
        }
        let eoc = eoc_symbol();
        let r = decode(built, &eoc, bits);
        proof {
            lemma_alphabet_wf();
            assert forall|t: DecodingTree| #[trigger]
                tree_inverts(t, alphabet(), 0) implies ({
                let full = run(t, t, unpack_bytes(data@));
                &&& r.0@ == full.0
                &&& r.1 is None <==> full.1 != DecodeEnd::Invalid
                &&& r.1 is Some ==> r.1 == Some(BncsvError::InvalidData)
            }) by {
                crate::compr::lemma_run_agree(
                    bt,
                    bt,
                    t,
                    t,
                    alphabet(),
                    alphabet(),
                    0,
                    unpack_bytes(data@),
                );
            }
        }
        r
    }
}

/// Law: no symbol's bit sequence, the end-of-content sentinel included, is
/// a prefix of another's — the code is a prefix code, so greedy decoding
/// is unambiguous.
pub proof fn lemma_prefix_code()
    ensures
        forall|i: int, j: int|
            0 <= i < alphabet().len() && 0 <= j < alphabet().len() && i != j
                ==> !crate::codebook::is_prefix(
                #[trigger] alphabet()[i].code,
                #[trigger] alphabet()[j].code,
            ),
{
    lemma_alphabet_wf();
    let al = alphabet();
    assert forall|i: int, j: int|
        0 <= i < al.len() && 0 <= j < al.len() && i != j implies !crate::codebook::is_prefix(
        #[trigger] al[i].code,
        #[trigger] al[j].code,
    ) by {
        assert(al.contains(al[i]));
        assert(al.contains(al[j]));
        assert(al[i] != al[j]) by {
            if i < j {
                assert(al[i] != al[j]);
            } else {
                assert(al[j] != al[i]);
            }
        }
    }
}

/// A run that has already ended — at the end-of-content symbol or at a
/// dead end — is unchanged by any bits appended to the stream.
proof fn lemma_run_extend(root: DecodingTree, cur: DecodingTree, bits: Seq<u8>, extra: Seq<u8>)
    requires
        run(root, cur, bits).1 != DecodeEnd::Truncated,
    ensures
        run(root, cur, bits + extra) == run(root, cur, bits),
    decreases bits.len(),
{
    if bits.len() == 0 {
        assert(false);
    } else {
        let b = bits[0];
        assert((bits + extra)[0] == b);
        assert((bits + extra).skip(1) =~= bits.skip(1) + extra);
        match crate::compr::step(cur, b) {
            None => {},
            Some(nxt) => {
                match nxt.root {
                    Some(s) => {
                        if s@ != eoc_spec() {
                            lemma_run_extend(root, root, bits.skip(1), extra);
                        }
                    },
                    None => {
                        lemma_run_extend(root, nxt, bits.skip(1), extra);
                    },
                }
            },
        }
    }
}

/// Law: appending trailing bits — in particular the one to seven zero bits
/// of byte padding — after a stream that decodes to the end-of-content
/// symbol does not change what the stream decodes to.
pub proof fn lemma_padding_tolerance(t: DecodingTree, bits: Seq<u8>, extra: Seq<u8>)
    requires
        run(t, t, bits).1 == DecodeEnd::Finished,
    ensures
        run(t, t, bits + extra) == run(t, t, bits),
{
    lemma_run_extend(t, t, bits, extra);
}

/// The concatenated codes of a supported sequence, the end-of-content
/// code, and any trailing bits decode through a trie of the standard
/// alphabet to the sequence itself with its carriage returns removed.
proof fn lemma_run_encoded(data: Seq<u8>, tail: Seq<u8>, t: DecodingTree)
    requires
        all_supported(data),
        tree_inverts(t, alphabet(), 0),
    ensures
        run(t, t, enc_bits(data) + eoc_code() + tail) == (strip_cr(data), DecodeEnd::Finished),
    decreases data.len(),
{
    lemma_alphabet_wf();
    assert(alphabet()[14] == eoc_spec());
    assert(alphabet().contains(eoc_spec()));
    if data.len() == 0 {
        crate::compr::lemma_run_code(t, t, alphabet(), 0, eoc_spec(), tail);
        assert(enc_bits(data) + eoc_code() + tail =~= eoc_spec().code.skip(0) + tail);
        assert(strip_cr(data) =~= Seq::<u8>::empty());
    } else {
        let b = data[0];
        let d2 = data.skip(1);
        assert(all_supported(d2));
        assert(supported(b));
        if b == 13 {
            lemma_run_encoded(d2, tail, t);
            assert(enc_bits(data) + eoc_code() + tail =~= enc_bits(d2) + eoc_code() + tail);
        } else {
            let s = SymSpec { code: code_of(b).unwrap(), value: b };
            lemma_code_in_alphabet(b);
            assert(s != eoc_spec()) by {
                if b == 10 {
                    assert(s.code[5] != eoc_code()[5]);
                } else {
                    assert(s.code.len() != eoc_code().len());
                }
            }
            let rest2 = enc_bits(d2) + eoc_code() + tail;
            crate::compr::lemma_run_code(t, t, alphabet(), 0, s, rest2);
            lemma_run_encoded(d2, tail, t);
            assert(enc_bits(data) + eoc_code() + tail =~= s.code.skip(0) + rest2);
            assert(run(t, t, enc_bits(data) + eoc_code() + tail) == (
                seq![b] + strip_cr(d2),
                DecodeEnd::Finished,
            ));
            assert(strip_cr(data) == seq![b] + strip_cr(d2));
        }
    }
}

/// Law: decoding an encoded stream gives back the input with its carriage
/// returns removed, for every byte sequence over the supported alphabet
/// and every trie built from the standard symbol set.
pub proof fn lemma_round_trip(data: Seq<u8>, t: DecodingTree)
    requires
        all_supported(data),
        tree_inverts(t, alphabet(), 0),
    ensures
        run(t, t, unpack_bytes(packed_stream(data))) == (strip_cr(data), DecodeEnd::Finished),
{
    let core = enc_bits(data) + eoc_code();
    assert(bits_valid(core)) by {
        lemma_enc_bits_valid(data);
        assert forall|k: int| 0 <= k < core.len() implies core[k] <= 1 by {
            if k < enc_bits(data).len() {
                assert(core[k] == enc_bits(data)[k]);
            } else {
                assert(core[k] == eoc_code()[k - enc_bits(data).len()]);
            }
        }
    }
    let pad = pad_bits(core);
    assert(bits_valid(pad)) by {
        assert forall|k: int| 0 <= k < pad.len() implies pad[k] <= 1 by {
            if k < core.len() {
                assert(pad[k] == core[k]);
            } else {
                assert(pad[k] == zeros(((8 - core.len() % 8) % 8) as nat)[k - core.len()]);
            }
        }
    }
    assert(pad.len() % 8 == 0);
    crate::bits::lemma_unpack_pack(pad);
    let k = ((8 - core.len() % 8) % 8) as nat;
    assert(pad =~= enc_bits(data) + eoc_code() + zeros(k));
    lemma_run_encoded(data, zeros(k), t);
}

/// Extending an unpacked prefix by one byte appends that byte's bits.
pub proof fn lemma_unpack_snoc(data: Seq<u8>, i: int)
    requires
        0 <= i < data.len(),
    ensures
        unpack_bytes(data.take(i + 1)) == unpack_bytes(data.take(i)) + crate::bits::bits_of(
            data[i] as int,
            8,
        ),
    decreases i,
{
    if i == 0 {
        assert(data.take(1).skip(1) =~= Seq::<u8>::empty());
        assert(data.take(0) =~= Seq::<u8>::empty());
        assert(unpack_bytes(data.take(1)) =~= unpack_bytes(data.take(0)) + crate::bits::bits_of(
            data[0] as int,
            8,
        ));
    } else {
        let d2 = data.skip(1);
        lemma_unpack_snoc(d2, i - 1);
        assert(data.take(i + 1).skip(1) =~= d2.take(i));
        assert(data.take(i).skip(1) =~= d2.take(i - 1));
        assert(d2[i - 1] == data[i]);
        let h = crate::bits::bits_of(data[0] as int, 8);
        assert(unpack_bytes(data.take(i + 1)) == h + (unpack_bytes(d2.take(i - 1))
            + crate::bits::bits_of(data[i] as int, 8)));
        assert(unpack_bytes(data.take(i)) == h + unpack_bytes(d2.take(i - 1)));
        assert(h + (unpack_bytes(d2.take(i - 1)) + crate::bits::bits_of(data[i] as int, 8)) =~= (h
            + unpack_bytes(d2.take(i - 1))) + crate::bits::bits_of(data[i] as int, 8));
    }
}

} // verus!
