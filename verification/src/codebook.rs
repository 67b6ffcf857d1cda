//! The fixed prefix code of the BNCSV format: the symbol alphabet, the
//! byte-to-code table, and the structural facts about the code set that the
//! encoder and decoder proofs rest on.

use vstd::prelude::*;

verus! {

/// Mathematical model of a symbol: a prefix-free bit sequence paired with
/// the byte value it stands for. Each bit is carried as a `u8` that is 0 or 1.
pub struct SymSpec {
    pub code: Seq<u8>,
    pub value: u8,
}

/// A symbol of the code: the bit sequence assigned to one byte value.
#[derive(Debug)]
pub struct Symbol {
    pub bits: Vec<u8>,
    pub value: u8,
}

impl View for Symbol {
    type V = SymSpec;

    open spec fn view(&self) -> SymSpec {
        SymSpec { code: self.bits@, value: self.value }
    }
}

impl PartialEq for Symbol {
    fn eq(&self, other: &Symbol) -> (r: bool) {
        if self.value != other.value {
            return false;
        }
        if self.bits.len() != other.bits.len() {
            return false;
        }
        let mut k: usize = 0;
        while k < self.bits.len()
            invariant
                k <= self.bits.len(),
                self.bits.len() == other.bits.len(),
                forall|j: int| 0 <= j < k ==> self.bits@[j] == other.bits@[j],
            decreases self.bits.len() - k,
        {
            if self.bits[k] != other.bits[k] {
                return false;
            }
            k += 1;
        }
        proof {
            assert(self.bits@ =~= other.bits@);
        }
        true
    }
}

impl vstd::std_specs::cmp::PartialEqSpecImpl for Symbol {
    open spec fn obeys_eq_spec() -> bool {
        true
    }

    open spec fn eq_spec(&self, other: &Symbol) -> bool {
        self@ == other@
    }
}

impl Eq for Symbol {}

/// Copies a symbol, preserving its view.
pub fn clone_symbol(s: &Symbol) -> (r: Symbol)
    ensures
        r@ == s@,
{
    let mut bits: Vec<u8> = Vec::new();
    let mut k: usize = 0;
    while k < s.bits.len()
        invariant
            k <= s.bits.len(),
            bits@ =~= s.bits@.take(k as int),
        decreases s.bits.len() - k,
    {
        bits.push(s.bits[k]);
        k += 1;
    }
    proof {
        assert(bits@ =~= s.bits@);
    }
    Symbol { bits, value: s.value }
}

/// The bit sequence of the end-of-content sentinel.
pub open spec fn eoc_code() -> Seq<u8> {
    seq![0u8, 1u8, 1u8, 0u8, 0u8, 0u8]
}

/// The end-of-content sentinel symbol: appended exactly once to every
/// encoded stream; its code is disjoint from every other code.
pub open spec fn eoc_spec() -> SymSpec {
    SymSpec { code: eoc_code(), value: 45u8 }
}

/// The codebook: the bit sequence assigned to a byte value, or `None` for a
/// byte outside the numeric-CSV alphabet. A carriage return maps to the
/// empty sequence and is thereby dropped from the encoded stream.
pub open spec fn code_of(b: u8) -> Option<Seq<u8>> {
    if b == 10 {
        Some(seq![0u8, 1u8, 1u8, 0u8, 0u8, 1u8])
    } else if b == 13 {
        Some(Seq::<u8>::empty())
    } else if b == 44 {
        Some(seq![0u8, 0u8, 1u8])
    } else if b == 45 {
        Some(seq![0u8, 1u8, 1u8, 0u8, 1u8])
    } else if b == 46 {
        Some(seq![0u8, 1u8, 0u8])
    } else if b == 48 {
        Some(seq![0u8, 1u8, 1u8, 1u8])
    } else if b == 49 {
        Some(seq![1u8, 0u8, 1u8, 0u8])
    } else if b == 50 {
        Some(seq![1u8, 1u8, 1u8, 0u8])
    } else if b == 51 {
        Some(seq![1u8, 1u8, 0u8, 1u8])
    } else if b == 52 {
        Some(seq![1u8, 0u8, 0u8, 1u8])
    } else if b == 53 {
        Some(seq![0u8, 0u8, 0u8])
    } else if b == 54 {
        Some(seq![1u8, 1u8, 0u8, 0u8])
    } else if b == 55 {
        Some(seq![1u8, 1u8, 1u8, 1u8])
    } else if b == 56 {
        Some(seq![1u8, 0u8, 1u8, 1u8])
    } else if b == 57 {
        Some(seq![1u8, 0u8, 0u8, 0u8])
    } else {
        None
    }
}

/// A byte the encoder accepts.
pub open spec fn supported(b: u8) -> bool {
    code_of(b) is Some
}

/// The full symbol set of the decoding trie: the fourteen symbols that
/// carry a byte, and the end-of-content sentinel.
pub open spec fn alphabet() -> Seq<SymSpec> {
    seq![
        SymSpec { code: code_of(48).unwrap(), value: 48u8 },
        SymSpec { code: code_of(49).unwrap(), value: 49u8 },
        SymSpec { code: code_of(50).unwrap(), value: 50u8 },
        SymSpec { code: code_of(51).unwrap(), value: 51u8 },
        SymSpec { code: code_of(52).unwrap(), value: 52u8 },
        SymSpec { code: code_of(53).unwrap(), value: 53u8 },
        SymSpec { code: code_of(54).unwrap(), value: 54u8 },
        SymSpec { code: code_of(55).unwrap(), value: 55u8 },
        SymSpec { code: code_of(56).unwrap(), value: 56u8 },
        SymSpec { code: code_of(57).unwrap(), value: 57u8 },
        SymSpec { code: code_of(44).unwrap(), value: 44u8 },
        SymSpec { code: code_of(46).unwrap(), value: 46u8 },
        SymSpec { code: code_of(45).unwrap(), value: 45u8 },
        SymSpec { code: code_of(10).unwrap(), value: 10u8 },
        eoc_spec(),
    ]
}

/// The views of a sequence of symbols.
pub open spec fn views_of(s: Seq<Symbol>) -> Seq<SymSpec> {
    s.map_values(|sym: Symbol| sym@)
}

/// `a` is a prefix of `b` (an equal sequence counts as a prefix).
pub open spec fn is_prefix(a: Seq<u8>, b: Seq<u8>) -> bool {
    a.len() <= b.len() && forall|k: int| 0 <= k < a.len() ==> a[k] == b[k]
}

/// Well-formedness of a symbol set: pairwise distinct, prefix-free, codes
/// of one to six bits each of which is 0 or 1.
pub open spec fn wf_syms(syms: Seq<SymSpec>) -> bool {
    &&& forall|i: int, j: int| 0 <= i < j < syms.len() ==> syms[i] != syms[j]
    &&& forall|a: SymSpec, b: SymSpec|
        syms.contains(a) && syms.contains(b) && a != b ==> !is_prefix(a.code, b.code)
    &&& forall|a: SymSpec|
        #[trigger] syms.contains(a) ==> 1 <= a.code.len() <= 6 && (forall|k: int|
            0 <= k < a.code.len() ==> a.code[k] <= 1)
}

/// Every symbol of the set agrees on its first `depth` bits.
pub open spec fn agree(syms: Seq<SymSpec>, depth: nat) -> bool {
    forall|a: SymSpec, b: SymSpec|
        syms.contains(a) && syms.contains(b) ==> a.code.len() >= depth
            && a.code.take(depth as int) == b.code.take(depth as int)
}

/// Some second symbol of the set shares the first `d` bits of `a`'s code
/// and has a code longer than `d` bits.
pub open spec fn has_extension(syms: Seq<SymSpec>, a: SymSpec, d: int) -> bool {
    exists|b: SymSpec|
        #[trigger] syms.contains(b) && b != a && b.code.len() > d && b.code.take(d) =~= a.code.take(
            d,
        )
}

/// Completeness of the set below `depth`: every proper prefix of a code is
/// shared by a second, longer code, so a symbol becomes unique only once
/// its whole code has been read.
pub open spec fn complete_rel(syms: Seq<SymSpec>, depth: nat) -> bool {
    forall|a: SymSpec, d: int|
        syms.contains(a) && depth <= d < a.code.len() ==> #[trigger] has_extension(syms, a, d)
}

/// In a well-formed set of two or more symbols that agree on their first
/// `depth` bits, every code is strictly longer than `depth`.
pub proof fn lemma_codes_longer(syms: Seq<SymSpec>, depth: nat, a: SymSpec)
    requires
        wf_syms(syms),
        agree(syms, depth),
        syms.len() >= 2,
        syms.contains(a),
    ensures
        a.code.len() > depth,
{
    if a.code.len() == depth {
        let i = choose|i: int| 0 <= i < syms.len() && syms[i] == a;
        let j = if i == 0 { 1int } else { 0int };
        let b = syms[j];
        assert(syms.contains(b));
        assert(b != a) by {
            if i < j {
                assert(syms[i] != syms[j]);
            } else {
                assert(syms[j] != syms[i]);
            }
        }
        assert(a.code.take(depth as int) =~= a.code);
        assert(is_prefix(a.code, b.code)) by {
            assert(forall|k: int|
                0 <= k < depth ==> a.code[k] == #[trigger] a.code.take(depth as int)[k]);
            assert(forall|k: int|
                0 <= k < depth ==> b.code[k] == #[trigger] b.code.take(depth as int)[k]);
        }
        assert(false);
    }
}

/// The supported non-carriage-return bytes are exactly the carrier bytes of
/// the alphabet: the symbol made of such a byte and its code is in the set.
pub proof fn lemma_code_in_alphabet(b: u8)
    requires
        supported(b),
        b != 13,
    ensures
        alphabet().contains(SymSpec { code: code_of(b).unwrap(), value: b }),
{
    let s = SymSpec { code: code_of(b).unwrap(), value: b };
    if b == 48 {
        assert(alphabet()[0] == s);
    } else if b == 49 {
        assert(alphabet()[1] == s);
    } else if b == 50 {
        assert(alphabet()[2] == s);
    } else if b == 51 {
        assert(alphabet()[3] == s);
    } else if b == 52 {
        assert(alphabet()[4] == s);
    } else if b == 53 {
        assert(alphabet()[5] == s);
    } else if b == 54 {
        assert(alphabet()[6] == s);
    } else if b == 55 {
        assert(alphabet()[7] == s);
    } else if b == 56 {
        assert(alphabet()[8] == s);
    } else if b == 57 {
        assert(alphabet()[9] == s);
    } else if b == 44 {
        assert(alphabet()[10] == s);
    } else if b == 46 {
        assert(alphabet()[11] == s);
    } else if b == 45 {
        assert(alphabet()[12] == s);
    } else {
        assert(b == 10);
        assert(alphabet()[13] == s);
    }
}

/// The code of every supported byte holds at most six bits, each 0 or 1.
pub proof fn lemma_code_of_valid(b: u8)
    requires
        supported(b),
    ensures
        code_of(b).unwrap().len() <= 6,
        forall|k: int| 0 <= k < code_of(b).unwrap().len() ==> code_of(b).unwrap()[k] <= 1,
{
}

/// The standard alphabet is well formed, agrees trivially at depth 0, and
/// is complete: the structural requirements of the decoding trie.
pub proof fn lemma_alphabet_wf()
    ensures
        wf_syms(alphabet()),
        agree(alphabet(), 0),
        complete_rel(alphabet(), 0),
        alphabet().len() == 15,
{
    let al = alphabet();
    assert forall|a: SymSpec, b: SymSpec|
        al.contains(a) && al.contains(b) && a != b implies !is_prefix(a.code, b.code) by {
        let i = choose|i: int| 0 <= i < al.len() && al[i] == a;
        let j = choose|j: int| 0 <= j < al.len() && al[j] == b;
        assert(!is_prefix(al[i].code, al[j].code));
    }
    assert forall|a: SymSpec| #[trigger]
        al.contains(a) implies 1 <= a.code.len() <= 6 && (forall|k: int|
        0 <= k < a.code.len() ==> a.code[k] <= 1) by {
        let i = choose|i: int| 0 <= i < al.len() && al[i] == a;
        assert(1 <= al[i].code.len() <= 6 && (forall|k: int|
            0 <= k < al[i].code.len() ==> al[i].code[k] <= 1));
    }
    assert forall|a: SymSpec, b: SymSpec| al.contains(a) && al.contains(b) implies a.code.len()
        >= 0 && a.code.take(0) == b.code.take(0) by {
        assert(a.code.take(0) =~= b.code.take(0));
    }
    assert forall|a: SymSpec, d: int|
        al.contains(a) && 0 <= d < a.code.len() implies #[trigger] has_extension(al, a, d) by {
        let i = choose|i: int| 0 <= i < al.len() && al[i] == a;
        let j = buddy_of(i);
        let b = al[j];
        assert(al.contains(b));
        assert(b != a && b.code.len() > d && b.code.take(d) =~= a.code.take(d));
    }
}

/// The index of a second symbol that shares all but the last bit of the
/// code at index `i` of the alphabet.
pub open spec fn buddy_of(i: int) -> int {
    if i == 0 {
        12int  // 0111 and 01101
    } else if i == 1 {
        8int  // 1010 and 1011
    } else if i == 2 {
        7int  // 1110 and 1111
    } else if i == 3 {
        6int  // 1101 and 1100
    } else if i == 4 {
        9int  // 1001 and 1000
    } else if i == 5 {
        10int  // 000 and 001
    } else if i == 6 {
        3int  // 1100 and 1101
    } else if i == 7 {
        2int  // 1111 and 1110
    } else if i == 8 {
        1int  // 1011 and 1010
    } else if i == 9 {
        4int  // 1000 and 1001
    } else if i == 10 {
        5int  // 001 and 000
    } else if i == 11 {
        12int  // 010 and 01101
    } else if i == 12 {
        14int  // 01101 and 011000
    } else if i == 13 {
        14int  // 011001 and 011000
    } else {
        13int  // 011000 and 011001
    }
}

} // verus!
