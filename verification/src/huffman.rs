pub mod encoder;
pub mod optimize;

use vstd::prelude::*;
use vstd::arithmetic::power2::{pow2, lemma2_to64, lemma_pow2_unfold};
use crate::coding::{abs, bits_of, category, codable, magnitude_bits, repeat};

verus! {

/// Huffman table class.
#[derive(Clone, Copy, Debug, PartialEq, Eq)]
pub enum CodingClass {
    Dc,
    Ac,
}

impl CodingClass {
    /// The table class field of a DHT segment: 0 for DC, 1 for AC.
    pub open spec fn spec_value(self) -> u8 {
        match self {
            CodingClass::Dc => 0,
            CodingClass::Ac => 1,
        }
    }

    pub fn value(self) -> (v: u8)
        ensures
            v == self.spec_value(),
    {
        match self {
            CodingClass::Dc => 0,
            CodingClass::Ac => 1,
        }
    }
}

/// `2^k`, computable.
pub open spec fn code_space(k: nat) -> int
    decreases k,
{
    if k == 0 {
        1
    } else {
        2 * code_space((k - 1) as nat)
    }
}

pub proof fn lemma_code_space_pow2(k: nat)
    ensures
        code_space(k) == pow2(k),
    decreases k,
{
    lemma2_to64();
    if k > 0 {
        lemma_code_space_pow2((k - 1) as nat);
        lemma_pow2_unfold(k);
    }
}

/// The first canonical code of length `k + 1` (JPEG Annex C).
pub open spec fn first_code(len: Seq<u8>, k: nat) -> int
    decreases k,
{
    if k == 0 {
        0
    } else {
        2 * (first_code(len, (k - 1) as nat) + len[k - 1])
    }
}

/// The number of codes shorter than `k + 1` bits.
pub open spec fn count_before(len: Seq<u8>, k: nat) -> int
    decreases k,
{
    if k == 0 {
        0
    } else {
        count_before(len, (k - 1) as nat) + len[k - 1]
    }
}

/// The code lengths leave room for all their codes (the last code of
/// every length fits in that many bits, and the code counter fits in 16 bits).
pub open spec fn lengths_fit(len: Seq<u8>) -> bool {
    &&& len.len() == 16
    &&& forall|k: int| 0 <= k < 15 ==> #[trigger] first_code(len, k as nat) + len[k] <= code_space(
        (k + 1) as nat,
    )
    &&& first_code(len, 15) + len[15] < code_space(16)
}

/// A lookup entry: a code length of at most 16 bits and a code that fits in it.
pub open spec fn entry_wf(e: (u8, u16)) -> bool {
    e.0 <= 16 && (e.1 as int) < pow2(e.0 as nat)
}

/// The (code length, code) that the canonical code of the lengths `len`
/// gives the symbol at position `p` of the symbol list, looking at the
/// lengths from `k + 1` bits on.
pub open spec fn code_at_from(len: Seq<u8>, p: int, k: nat) -> (u8, u16)
    decreases 16 - k,
{
    if k >= 16 {
        (0u8, 0u16)
    } else if p < count_before(len, k + 1) {
        ((k + 1) as u8, (first_code(len, k) + p - count_before(len, k)) as u16)
    } else {
        code_at_from(len, p, k + 1)
    }
}

/// The entry of symbol `v` after the first `n` positions of the symbol
/// list: the code of its last position among them, (0, 0) when it has none.
pub open spec fn entry_upto(len: Seq<u8>, values: Seq<u8>, v: u8, n: nat) -> (u8, u16)
    decreases n,
{
    if n == 0 {
        (0u8, 0u16)
    } else if values[n - 1] == v {
        code_at_from(len, n - 1, 0)
    } else {
        entry_upto(len, values, v, (n - 1) as nat)
    }
}

/// The (code length, code) of symbol `v` in the canonical Huffman code of
/// the lengths `len` over the symbol list `values` (JPEG Annex C), or
/// (0, 0) when `v` has no code.
pub open spec fn canonical_entry(len: Seq<u8>, values: Seq<u8>, v: u8) -> (u8, u16) {
    entry_upto(len, values, v, count_before(len, 16) as nat)
}

/// The symbols of the luma AC table of JPEG Annex K.3, ordered by code.
#[verifier::opaque]
pub open spec fn luma_ac_symbols() -> Seq<u8> {
    seq![0x01u8, 0x02, 0x03, 0x00, 0x04, 0x11, 0x05, 0x12, 0x21, 0x31, 0x41, 0x06, 0x13, 0x51, 0x61, 0x07, 0x22, 0x71, 0x14, 0x32, 0x81, 0x91, 0xa1, 0x08, 0x23, 0x42, 0xb1, 0xc1, 0x15, 0x52, 0xd1, 0xf0, 0x24, 0x33, 0x62, 0x72, 0x82, 0x09, 0x0a, 0x16, 0x17, 0x18, 0x19, 0x1a, 0x25, 0x26, 0x27, 0x28, 0x29, 0x2a, 0x34, 0x35, 0x36, 0x37, 0x38, 0x39, 0x3a, 0x43, 0x44, 0x45, 0x46, 0x47, 0x48, 0x49, 0x4a, 0x53, 0x54, 0x55, 0x56, 0x57, 0x58, 0x59, 0x5a, 0x63, 0x64, 0x65, 0x66, 0x67, 0x68, 0x69, 0x6a, 0x73, 0x74, 0x75, 0x76, 0x77, 0x78, 0x79, 0x7a, 0x83, 0x84, 0x85, 0x86, 0x87, 0x88, 0x89, 0x8a, 0x92, 0x93, 0x94, 0x95, 0x96, 0x97, 0x98, 0x99, 0x9a, 0xa2, 0xa3, 0xa4, 0xa5, 0xa6, 0xa7, 0xa8, 0xa9, 0xaa, 0xb2, 0xb3, 0xb4, 0xb5, 0xb6, 0xb7, 0xb8, 0xb9, 0xba, 0xc2, 0xc3, 0xc4, 0xc5, 0xc6, 0xc7, 0xc8, 0xc9, 0xca, 0xd2, 0xd3, 0xd4, 0xd5, 0xd6, 0xd7, 0xd8, 0xd9, 0xda, 0xe1, 0xe2, 0xe3, 0xe4, 0xe5, 0xe6, 0xe7, 0xe8, 0xe9, 0xea, 0xf1, 0xf2, 0xf3, 0xf4, 0xf5, 0xf6, 0xf7, 0xf8, 0xf9, 0xfa]
}

/// The symbols of the chroma AC table of JPEG Annex K.3, ordered by code.
#[verifier::opaque]
pub open spec fn chroma_ac_symbols() -> Seq<u8> {
    seq![0x00u8, 0x01, 0x02, 0x03, 0x11, 0x04, 0x05, 0x21, 0x31, 0x06, 0x12, 0x41, 0x51, 0x07, 0x61, 0x71, 0x13, 0x22, 0x32, 0x81, 0x08, 0x14, 0x42, 0x91, 0xa1, 0xb1, 0xc1, 0x09, 0x23, 0x33, 0x52, 0xf0, 0x15, 0x62, 0x72, 0xd1, 0x0a, 0x16, 0x24, 0x34, 0xe1, 0x25, 0xf1, 0x17, 0x18, 0x19, 0x1a, 0x26, 0x27, 0x28, 0x29, 0x2a, 0x35, 0x36, 0x37, 0x38, 0x39, 0x3a, 0x43, 0x44, 0x45, 0x46, 0x47, 0x48, 0x49, 0x4a, 0x53, 0x54, 0x55, 0x56, 0x57, 0x58, 0x59, 0x5a, 0x63, 0x64, 0x65, 0x66, 0x67, 0x68, 0x69, 0x6a, 0x73, 0x74, 0x75, 0x76, 0x77, 0x78, 0x79, 0x7a, 0x82, 0x83, 0x84, 0x85, 0x86, 0x87, 0x88, 0x89, 0x8a, 0x92, 0x93, 0x94, 0x95, 0x96, 0x97, 0x98, 0x99, 0x9a, 0xa2, 0xa3, 0xa4, 0xa5, 0xa6, 0xa7, 0xa8, 0xa9, 0xaa, 0xb2, 0xb3, 0xb4, 0xb5, 0xb6, 0xb7, 0xb8, 0xb9, 0xba, 0xc2, 0xc3, 0xc4, 0xc5, 0xc6, 0xc7, 0xc8, 0xc9, 0xca, 0xd2, 0xd3, 0xd4, 0xd5, 0xd6, 0xd7, 0xd8, 0xd9, 0xda, 0xe2, 0xe3, 0xe4, 0xe5, 0xe6, 0xe7, 0xe8, 0xe9, 0xea, 0xf2, 0xf3, 0xf4, 0xf5, 0xf6, 0xf7, 0xf8, 0xf9, 0xfa]
}

/// The tables of JPEG Annex K.3: the luma DC and AC tables, then the
/// chroma DC and AC tables.
pub open spec fn default_tables(t: [(HuffmanTable, HuffmanTable); 2]) -> bool {
    &&& t[0].0.lengths() == seq![0u8, 1, 5, 1, 1, 1, 1, 1, 1, 0, 0, 0, 0, 0, 0, 0]
    &&& t[0].0.symbols() == seq![0u8, 1, 2, 3, 4, 5, 6, 7, 8, 9, 10, 11]
    &&& t[0].1.lengths() == seq![0u8, 2, 1, 3, 3, 2, 4, 3, 5, 5, 4, 4, 0, 0, 1, 125]
    &&& t[0].1.symbols() == luma_ac_symbols()
    &&& t[1].0.lengths() == seq![0u8, 3, 1, 1, 1, 1, 1, 1, 1, 1, 1, 0, 0, 0, 0, 0]
    &&& t[1].0.symbols() == seq![0u8, 1, 2, 3, 4, 5, 6, 7, 8, 9, 10, 11]
    &&& t[1].1.lengths() == seq![0u8, 2, 1, 2, 4, 4, 3, 4, 7, 5, 4, 4, 0, 1, 2, 119]
    &&& t[1].1.symbols() == chroma_ac_symbols()
}

/// A Huffman table: the code lengths and symbols of a DHT segment, and for
/// every symbol its (code length, code).
#[derive(Debug, PartialEq, Eq)]
pub struct HuffmanTable {
    lookup_table: [(u8, u16); 256],
    length: [u8; 16],
    values: Vec<u8>,
}

impl Clone for HuffmanTable {
    fn clone(&self) -> (t: Self)
        ensures
            t.lengths() == self.lengths(),
            t.symbols() == self.symbols(),
            forall|v: u8| #[trigger] t.lookup(v) == self.lookup(v),
    {
        proof {
            use_type_invariant(self);
        }
        let mut values: Vec<u8> = Vec::new();
        let mut i: usize = 0;
        while i < self.values.len()
            invariant
                i <= self.values@.len(),
                values@ == self.values@.take(i as int),
            decreases self.values.len() - i,
        {
            values.push(self.values[i]);
            i += 1;
            proof {
                assert(self.values@.take(i as int) =~= self.values@.take((i - 1) as int).push(self.values@[i - 1]));
            }
        }
        proof {
            assert(self.values@.take(i as int) =~= self.values@);
        }
        HuffmanTable { lookup_table: self.lookup_table, length: self.length, values }
    }
}

impl HuffmanTable {
    #[verifier::type_invariant]
    spec fn wf(self) -> bool {
        &&& forall|v: int| 0 <= v < 256 ==> #[trigger] entry_wf(self.lookup_table[v])
        &&& forall|v: u8| #[trigger] self.lookup_table[v as int] == canonical_entry(self.length@, self.values@, v)
        &&& self.values@.len() <= 256
    }

    /// The (code length, code) of a symbol: its canonical code, or (0, 0)
    /// when the table gives it none.
    pub closed spec fn lookup(&self, symbol: u8) -> (u8, u16) {
        canonical_entry(self.length@, self.values@, symbol)
    }

    /// The number of codes of each length 1..=16.
    pub closed spec fn lengths(&self) -> Seq<u8> {
        self.length@
    }

    /// The symbols, ordered by code.
    pub closed spec fn symbols(&self) -> Seq<u8> {
        self.values@
    }

    pub fn new(length: &[u8; 16], values: &[u8]) -> (t: HuffmanTable)
        requires
            lengths_fit(length@),
            count_before(length@, 16) <= values@.len() <= 256,
        ensures
            t.lengths() == length@,
            t.symbols() == values@,
            lengths_fit(t.lengths()),
            count_before(t.lengths(), 16) <= t.symbols().len(),
    {
        let lookup_table = create_lookup_table(length, values);
        let mut v: Vec<u8> = Vec::new();
        let mut i: usize = 0;
        while i < values.len()
            invariant
                i <= values@.len(),
                v@ == values@.take(i as int),
            decreases values.len() - i,
        {
            v.push(values[i]);
            i += 1;
            proof {
                assert(values@.take(i as int) =~= values@.take((i - 1) as int).push(values@[i - 1]));
            }
        }
        proof {
            assert(values@.take(i as int) =~= values@);
        }
        HuffmanTable { lookup_table, length: *length, values: v }
    }

    /// The DC table for luma of JPEG Annex K.3.
    pub fn default_luma_dc() -> (t: HuffmanTable)
        ensures
            lengths_fit(t.lengths()),
            count_before(t.lengths(), 16) <= t.symbols().len(),
            t.lengths() == seq![0u8, 1, 5, 1, 1, 1, 1, 1, 1, 0, 0, 0, 0, 0, 0, 0],
            t.symbols() == seq![0u8, 1, 2, 3, 4, 5, 6, 7, 8, 9, 10, 11],
    {
        let length: [u8; 16] = [0, 1, 5, 1, 1, 1, 1, 1, 1, 0, 0, 0, 0, 0, 0, 0];
        let values: [u8; 12] = [0, 1, 2, 3, 4, 5, 6, 7, 8, 9, 10, 11];
        proof {
            assert(length@ =~= seq![0u8, 1, 5, 1, 1, 1, 1, 1, 1, 0, 0, 0, 0, 0, 0, 0]);
            assert(values@ =~= seq![0u8, 1, 2, 3, 4, 5, 6, 7, 8, 9, 10, 11]);
            reveal_with_fuel(first_code, 17);
            reveal_with_fuel(count_before, 17);
            lemma_fit(length@);
        }
        Self::new(&length, &values)
    }

    /// The DC table for chroma of JPEG Annex K.3.
    pub fn default_chroma_dc() -> (t: HuffmanTable)
        ensures
            lengths_fit(t.lengths()),
            count_before(t.lengths(), 16) <= t.symbols().len(),
            t.lengths() == seq![0u8, 3, 1, 1, 1, 1, 1, 1, 1, 1, 1, 0, 0, 0, 0, 0],
            t.symbols() == seq![0u8, 1, 2, 3, 4, 5, 6, 7, 8, 9, 10, 11],
    {
        let length: [u8; 16] = [0, 3, 1, 1, 1, 1, 1, 1, 1, 1, 1, 0, 0, 0, 0, 0];
        let values: [u8; 12] = [0, 1, 2, 3, 4, 5, 6, 7, 8, 9, 10, 11];
        proof {
            assert(length@ =~= seq![0u8, 3, 1, 1, 1, 1, 1, 1, 1, 1, 1, 0, 0, 0, 0, 0]);
            assert(values@ =~= seq![0u8, 1, 2, 3, 4, 5, 6, 7, 8, 9, 10, 11]);
            reveal_with_fuel(first_code, 17);
            reveal_with_fuel(count_before, 17);
            lemma_fit(length@);
        }
        Self::new(&length, &values)
    }

    /// The AC table for luma of JPEG Annex K.3.
    pub fn default_luma_ac() -> (t: HuffmanTable)
        ensures
            lengths_fit(t.lengths()),
            count_before(t.lengths(), 16) <= t.symbols().len(),
            t.lengths() == seq![0u8, 2, 1, 3, 3, 2, 4, 3, 5, 5, 4, 4, 0, 0, 1, 125],
            t.symbols() == luma_ac_symbols(),
    {
        let length: [u8; 16] = [0, 2, 1, 3, 3, 2, 4, 3, 5, 5, 4, 4, 0, 0, 1, 125];
        let values: [u8; 162] = [0x01, 0x02, 0x03, 0x00, 0x04, 0x11, 0x05, 0x12, 0x21, 0x31, 0x41, 0x06, 0x13, 0x51, 0x61, 0x07, 0x22, 0x71, 0x14, 0x32, 0x81, 0x91, 0xa1, 0x08, 0x23, 0x42, 0xb1, 0xc1, 0x15, 0x52, 0xd1, 0xf0, 0x24, 0x33, 0x62, 0x72, 0x82, 0x09, 0x0a, 0x16, 0x17, 0x18, 0x19, 0x1a, 0x25, 0x26, 0x27, 0x28, 0x29, 0x2a, 0x34, 0x35, 0x36, 0x37, 0x38, 0x39, 0x3a, 0x43, 0x44, 0x45, 0x46, 0x47, 0x48, 0x49, 0x4a, 0x53, 0x54, 0x55, 0x56, 0x57, 0x58, 0x59, 0x5a, 0x63, 0x64, 0x65, 0x66, 0x67, 0x68, 0x69, 0x6a, 0x73, 0x74, 0x75, 0x76, 0x77, 0x78, 0x79, 0x7a, 0x83, 0x84, 0x85, 0x86, 0x87, 0x88, 0x89, 0x8a, 0x92, 0x93, 0x94, 0x95, 0x96, 0x97, 0x98, 0x99, 0x9a, 0xa2, 0xa3, 0xa4, 0xa5, 0xa6, 0xa7, 0xa8, 0xa9, 0xaa, 0xb2, 0xb3, 0xb4, 0xb5, 0xb6, 0xb7, 0xb8, 0xb9, 0xba, 0xc2, 0xc3, 0xc4, 0xc5, 0xc6, 0xc7, 0xc8, 0xc9, 0xca, 0xd2, 0xd3, 0xd4, 0xd5, 0xd6, 0xd7, 0xd8, 0xd9, 0xda, 0xe1, 0xe2, 0xe3, 0xe4, 0xe5, 0xe6, 0xe7, 0xe8, 0xe9, 0xea, 0xf1, 0xf2, 0xf3, 0xf4, 0xf5, 0xf6, 0xf7, 0xf8, 0xf9, 0xfa];
        proof {
            assert(length@ =~= seq![0u8, 2, 1, 3, 3, 2, 4, 3, 5, 5, 4, 4, 0, 0, 1, 125]);
            reveal(luma_ac_symbols);
            assert(values@ =~= luma_ac_symbols());
            reveal_with_fuel(first_code, 17);
            reveal_with_fuel(count_before, 17);
            lemma_fit(length@);
        }
        Self::new(&length, &values)
    }

    /// The AC table for chroma of JPEG Annex K.3.
    pub fn default_chroma_ac() -> (t: HuffmanTable)
        ensures
            lengths_fit(t.lengths()),
            count_before(t.lengths(), 16) <= t.symbols().len(),
            t.lengths() == seq![0u8, 2, 1, 2, 4, 4, 3, 4, 7, 5, 4, 4, 0, 1, 2, 119],
            t.symbols() == chroma_ac_symbols(),
    {
        let length: [u8; 16] = [0, 2, 1, 2, 4, 4, 3, 4, 7, 5, 4, 4, 0, 1, 2, 119];
        let values: [u8; 162] = [0x00, 0x01, 0x02, 0x03, 0x11, 0x04, 0x05, 0x21, 0x31, 0x06, 0x12, 0x41, 0x51, 0x07, 0x61, 0x71, 0x13, 0x22, 0x32, 0x81, 0x08, 0x14, 0x42, 0x91, 0xa1, 0xb1, 0xc1, 0x09, 0x23, 0x33, 0x52, 0xf0, 0x15, 0x62, 0x72, 0xd1, 0x0a, 0x16, 0x24, 0x34, 0xe1, 0x25, 0xf1, 0x17, 0x18, 0x19, 0x1a, 0x26, 0x27, 0x28, 0x29, 0x2a, 0x35, 0x36, 0x37, 0x38, 0x39, 0x3a, 0x43, 0x44, 0x45, 0x46, 0x47, 0x48, 0x49, 0x4a, 0x53, 0x54, 0x55, 0x56, 0x57, 0x58, 0x59, 0x5a, 0x63, 0x64, 0x65, 0x66, 0x67, 0x68, 0x69, 0x6a, 0x73, 0x74, 0x75, 0x76, 0x77, 0x78, 0x79, 0x7a, 0x82, 0x83, 0x84, 0x85, 0x86, 0x87, 0x88, 0x89, 0x8a, 0x92, 0x93, 0x94, 0x95, 0x96, 0x97, 0x98, 0x99, 0x9a, 0xa2, 0xa3, 0xa4, 0xa5, 0xa6, 0xa7, 0xa8, 0xa9, 0xaa, 0xb2, 0xb3, 0xb4, 0xb5, 0xb6, 0xb7, 0xb8, 0xb9, 0xba, 0xc2, 0xc3, 0xc4, 0xc5, 0xc6, 0xc7, 0xc8, 0xc9, 0xca, 0xd2, 0xd3, 0xd4, 0xd5, 0xd6, 0xd7, 0xd8, 0xd9, 0xda, 0xe2, 0xe3, 0xe4, 0xe5, 0xe6, 0xe7, 0xe8, 0xe9, 0xea, 0xf2, 0xf3, 0xf4, 0xf5, 0xf6, 0xf7, 0xf8, 0xf9, 0xfa];
        proof {
            assert(length@ =~= seq![0u8, 2, 1, 2, 4, 4, 3, 4, 7, 5, 4, 4, 0, 1, 2, 119]);
            reveal(chroma_ac_symbols);
            assert(values@ =~= chroma_ac_symbols());
            reveal_with_fuel(first_code, 17);
            reveal_with_fuel(count_before, 17);
            lemma_fit(length@);
        }
        Self::new(&length, &values)
    }

    /// The (code length, code) of `value`.
    #[inline]
    pub fn get_for_value(&self, value: u8) -> (r: &(u8, u16))
        ensures
            *r == self.lookup(value),
            entry_wf(*r),
    {
        proof {
            use_type_invariant(self);
        }
        &self.lookup_table[value as usize]
    }

    pub fn length(&self) -> (r: &[u8; 16])
        ensures
            r@ == self.lengths(),
    {
        &self.length
    }

    pub fn values(&self) -> (r: &[u8])
        ensures
            r@ == self.symbols(),
            r@.len() <= 256,
    {
        proof {
            use_type_invariant(self);
        }
        self.values.as_slice()
    }
}

fn create_lookup_table(length: &[u8; 16], values: &[u8]) -> (t: [(u8, u16); 256])
    requires
        lengths_fit(length@),
        count_before(length@, 16) <= values@.len(),
    ensures
        forall|v: int| 0 <= v < 256 ==> #[trigger] entry_wf(t[v]),
        forall|v: u8| #[trigger] t[v as int] == canonical_entry(length@, values@, v),
{
    let mut lookup_table = [(0u8, 0u16);256];
    proof {
        lemma2_to64();
        assert forall|v: int| 0 <= v < 256 implies #[trigger] entry_wf(lookup_table[v]) by {}
    }
    let mut code: u16 = 0;
    let mut j: usize = 0;
    let mut i: usize = 0;
    while i < 16
        invariant
            i <= 16,
            lengths_fit(length@),
            count_before(length@, 16) <= values@.len(),
            j as int == count_before(length@, i as nat),
            i < 16 ==> code as int == first_code(length@, i as nat),
            forall|v: int| 0 <= v < 256 ==> #[trigger] entry_wf(lookup_table[v]),
            forall|v: u8| #[trigger] lookup_table[v as int] == entry_upto(length@, values@, v, j as nat),
        decreases 16 - i,
    {
        let bit_size = i as u8 + 1;
        let n = length[i];
        proof {
            lemma_count_before_mono(length@, (i + 1) as nat, 16);
            lemma_code_space_pow2((i + 1) as nat);
            assert(first_code(length@, i as nat) + length@[i as int] <= code_space((i + 1) as nat));
            if i == 15 {
                assert(first_code(length@, 15) + length@[15] < code_space(16));
            }
            assert(code_space(16) == 65536) by {
                reveal_with_fuel(code_space, 17);
            }
            assert(code_space(15) == 32768) by {
                reveal_with_fuel(code_space, 16);
            }
            lemma_code_space_mono((i + 1) as nat, 16);
            if i < 15 {
                lemma_code_space_mono((i + 1) as nat, 15);
            }
        }
        let mut k: u8 = 0;
        while k < n
            invariant
                i < 16,
                k <= n,
                n == length@[i as int],
                bit_size == i + 1,
                lengths_fit(length@),
                count_before(length@, 16) <= values@.len(),
                count_before(length@, (i + 1) as nat) <= values@.len(),
                j as int == count_before(length@, i as nat) + k,
                code as int == first_code(length@, i as nat) + k,
                first_code(length@, i as nat) + n <= code_space((i + 1) as nat),
                code_space((i + 1) as nat) == pow2((i + 1) as nat),
                i == 15 ==> first_code(length@, i as nat) + n < 65536,
                code_space((i + 1) as nat) <= 65536,
                i < 15 ==> code_space((i + 1) as nat) <= 32768,
                forall|v: int| 0 <= v < 256 ==> #[trigger] entry_wf(lookup_table[v]),
                forall|v: u8| #[trigger] lookup_table[v as int] == entry_upto(length@, values@, v, j as nat),
            decreases n - k,
        {
            proof {
                lemma_code_at(length@, j as int, 0, i as nat);
            }
            lookup_table[values[j] as usize] = (bit_size, code);
            code += 1;
            j += 1;
            k += 1;
        }
        proof {
            if i < 15 {
                assert(first_code(length@, (i + 1) as nat) == 2 * (code as int));
                lemma_code_space_mono((i + 2) as nat, 16);
                if i + 1 < 15 {
                    lemma_code_space_mono((i + 2) as nat, 15);
                    assert(first_code(length@, (i + 1) as nat) + length@[i + 1] <= code_space((i + 2) as nat));
                } else {
                    assert(first_code(length@, 15) + length@[15] < code_space(16));
                }
                assert((code as int) * 2 < 65536);
            }
        }
        code = code << 1;
        proof {
            if i < 15 {
                assert(code as int == first_code(length@, (i + 1) as nat)) by {
                    let c0 = (first_code(length@, (i + 1) as nat) / 2) as u16;
                    assert(c0 < 32768 ==> (c0 << 1u16) as int == 2 * c0) by (bit_vector);
                }
            }
        }
        i += 1;
    }
    lookup_table
}

/// Checks `lengths_fit` and counts the codes of concrete code lengths.
proof fn lemma_fit(len: Seq<u8>)
    requires
        len.len() == 16,
        first_code(len, 0) + len[0] <= 2,
        first_code(len, 1) + len[1] <= 4,
        first_code(len, 2) + len[2] <= 8,
        first_code(len, 3) + len[3] <= 16,
        first_code(len, 4) + len[4] <= 32,
        first_code(len, 5) + len[5] <= 64,
        first_code(len, 6) + len[6] <= 128,
        first_code(len, 7) + len[7] <= 256,
        first_code(len, 8) + len[8] <= 512,
        first_code(len, 9) + len[9] <= 1024,
        first_code(len, 10) + len[10] <= 2048,
        first_code(len, 11) + len[11] <= 4096,
        first_code(len, 12) + len[12] <= 8192,
        first_code(len, 13) + len[13] <= 16384,
        first_code(len, 14) + len[14] <= 32768,
        first_code(len, 15) + len[15] < 65536,
    ensures
        lengths_fit(len),
{
    reveal_with_fuel(code_space, 17);
    assert forall|k: int| 0 <= k < 15 implies #[trigger] first_code(len, k as nat) + len[k]
        <= code_space((k + 1) as nat) by {
        if k == 0 {} else if k == 1 {} else if k == 2 {} else if k == 3 {} else if k == 4 {}
        else if k == 5 {} else if k == 6 {} else if k == 7 {} else if k == 8 {} else if k == 9 {}
        else if k == 10 {} else if k == 11 {} else if k == 12 {} else if k == 13 {} else {}
    }
}

/// The symbol at position `p`, among the codes of length `i + 1`, gets the
/// code `first_code(i) + p - count_before(i)`.
proof fn lemma_code_at(len: Seq<u8>, p: int, k0: nat, i: nat)
    requires
        len.len() == 16,
        k0 <= i < 16,
        count_before(len, i) <= p < count_before(len, i + 1),
    ensures
        code_at_from(len, p, k0) == ((i + 1) as u8, (first_code(len, i) + p - count_before(len, i)) as u16),
    decreases i - k0,
{
    if k0 < i {
        lemma_count_before_mono(len, k0 + 1, i);
        lemma_code_at(len, p, k0 + 1, i);
    }
}

/// The length index of a coded position: the `i` with
/// `count_before(i) <= p < count_before(i + 1)`.
proof fn lemma_level(len: Seq<u8>, p: int, k: nat) -> (i: nat)
    requires
        len.len() == 16,
        k <= 16,
        count_before(len, k) <= p < count_before(len, 16),
    ensures
        k <= i < 16,
        count_before(len, i) <= p < count_before(len, i + 1),
    decreases 16 - k,
{
    if k == 16 {
        k
    } else if p < count_before(len, k + 1) {
        k
    } else {
        lemma_level(len, p, k + 1)
    }
}

proof fn lemma_first_code_nonneg(len: Seq<u8>, k: nat)
    requires
        k <= len.len(),
    ensures
        first_code(len, k) >= 0,
    decreases k,
{
    if k > 0 {
        lemma_first_code_nonneg(len, (k - 1) as nat);
    }
}

/// Each code length at least doubles the first code of the lengths before.
proof fn lemma_first_code_grows(len: Seq<u8>, i: nat, j: nat)
    requires
        len.len() == 16,
        i < j <= 16,
    ensures
        first_code(len, j) >= code_space((j - i) as nat) * (first_code(len, i) + len[i as int]),
    decreases j,
{
    reveal_with_fuel(code_space, 2);
    if j > i + 1 {
        lemma_first_code_grows(len, i, (j - 1) as nat);
        lemma_first_code_nonneg(len, (j - 1) as nat);
        lemma_first_code_nonneg(len, i);
        let x = first_code(len, i) + len[i as int];
        let c = code_space((j - 1 - i) as nat);
        assert(code_space((j - i) as nat) == 2 * c);
        assert(first_code(len, j) == 2 * (first_code(len, (j - 1) as nat) + len[j - 1]));
        assert(first_code(len, j) >= code_space((j - i) as nat) * x) by (nonlinear_arith)
            requires
                first_code(len, j) == 2 * (first_code(len, (j - 1) as nat) + len[j - 1]),
                first_code(len, (j - 1) as nat) >= c * x,
                code_space((j - i) as nat) == 2 * c,
                len[j - 1] >= 0,
        ;
    }
}

/// The canonical codes form a prefix code: of two coded positions, the
/// earlier one has a code at most as long as the later one, and that code
/// is not a prefix of the later one.
pub proof fn lemma_canonical_prefix_free(len: Seq<u8>, p: int, q: int)
    requires
        lengths_fit(len),
        0 <= p < q < count_before(len, 16),
    ensures
        1 <= code_at_from(len, p, 0).0 <= code_at_from(len, q, 0).0 <= 16,
        (code_at_from(len, q, 0).1 as int) / code_space((code_at_from(len, q, 0).0 - code_at_from(len, p, 0).0) as nat)
            != code_at_from(len, p, 0).1 as int,
{
    let i = lemma_level(len, p, 0);
    let j = lemma_level(len, q, 0);
    if j < i {
        lemma_count_before_mono(len, j + 1, i);
    }
    lemma_code_at(len, p, 0, i);
    lemma_code_at(len, q, 0, j);
    lemma_first_code_nonneg(len, i);
    lemma_first_code_nonneg(len, j);
    assert(code_space(16) == 65536) by {
        reveal_with_fuel(code_space, 17);
    }
    lemma_code_space_mono(i + 1, 16);
    lemma_code_space_mono(j + 1, 16);
    if i < 15 {
        assert(first_code(len, i) + len[i as int] <= code_space(i + 1));
    } else {
        assert(first_code(len, 15) + len[15] < code_space(16));
    }
    if j < 15 {
        assert(first_code(len, j) + len[j as int] <= code_space(j + 1));
    } else {
        assert(first_code(len, 15) + len[15] < code_space(16));
    }
    let cp = first_code(len, i) + p - count_before(len, i);
    let cq = first_code(len, j) + q - count_before(len, j);
    assert(0 <= cp < 65536 && 0 <= cq < 65536);
    assert(code_at_from(len, p, 0).1 as int == cp);
    assert(code_at_from(len, q, 0).1 as int == cq);
    assert(code_at_from(len, p, 0).0 == i + 1 && code_at_from(len, q, 0).0 == j + 1);
    assert((code_at_from(len, q, 0).0 - code_at_from(len, p, 0).0) as nat == (j - i) as nat);
    if i == j {
        assert(code_space(0) == 1);
        assert(cq / 1 == cq);
        assert(cq != cp);
    } else {
        lemma_first_code_grows(len, i, j);
        let d = code_space((j - i) as nat);
        let x = first_code(len, i) + len[i as int];
        lemma_code_space_mono(0, (j - i) as nat);
        assert(cp < x);
        assert(cq / d >= x) by (nonlinear_arith)
            requires
                cq >= d * x,
                d >= 1,
                x >= 0,
        {
            vstd::arithmetic::div_mod::lemma_div_is_ordered(d * x, cq, d);
            vstd::arithmetic::div_mod::lemma_div_multiples_vanish(x, d);
        }
        assert(cq / d != cp);
    }
}

/// A symbol with a code holds some position of the list, and its code is
/// the code of that position.
proof fn lemma_entry_position(len: Seq<u8>, values: Seq<u8>, v: u8, n: nat) -> (p: int)
    requires
        n <= values.len(),
        entry_upto(len, values, v, n).0 > 0,
    ensures
        0 <= p < n,
        values[p] == v,
        entry_upto(len, values, v, n) == code_at_from(len, p, 0),
    decreases n,
{
    if values[n - 1] == v {
        n - 1
    } else {
        lemma_entry_position(len, values, v, (n - 1) as nat)
    }
}

/// The codes of a table form a prefix code: of two symbols that have codes,
/// the shorter code is not a prefix of the longer one, and codes of the
/// same length differ.
pub proof fn lemma_table_prefix_free(t: HuffmanTable, a: u8, b: u8)
    requires
        lengths_fit(t.lengths()),
        count_before(t.lengths(), 16) <= t.symbols().len(),
        a != b,
        t.lookup(a).0 > 0,
        t.lookup(b).0 > 0,
        t.lookup(a).0 <= t.lookup(b).0,
    ensures
        (t.lookup(b).1 as int) / code_space((t.lookup(b).0 - t.lookup(a).0) as nat) != t.lookup(a).1 as int,
{
    let len = t.lengths();
    let vals = t.symbols();
    lemma_count_before_mono(len, 0, 16);
    let n = count_before(len, 16) as nat;
    let pa = lemma_entry_position(len, vals, a, n);
    let pb = lemma_entry_position(len, vals, b, n);
    if pa < pb {
        lemma_canonical_prefix_free(len, pa, pb);
    } else {
        lemma_canonical_prefix_free(len, pb, pa);
        assert(t.lookup(a).0 == t.lookup(b).0);
        assert(code_space(0) == 1);
    }
}

proof fn lemma_count_before_mono(len: Seq<u8>, a: nat, b: nat)
    requires
        a <= b <= len.len(),
    ensures
        count_before(len, a) <= count_before(len, b),
    decreases b,
{
    if a < b {
        lemma_count_before_mono(len, a, (b - 1) as nat);
    }
}

proof fn lemma_code_space_mono(a: nat, b: nat)
    requires
        a <= b,
    ensures
        1 <= code_space(a) <= code_space(b),
    decreases b,
{
    if b == 0 {
    } else if a == b {
        lemma_code_space_mono((a - 1) as nat, (b - 1) as nat);
    } else {
        lemma_code_space_mono(a, (b - 1) as nat);
    }
}


/// Tables with the same code lengths and symbols give every symbol the same code.
pub proof fn lemma_same_lookup(t1: HuffmanTable, t2: HuffmanTable)
    requires
        t1.lengths() == t2.lengths(),
        t1.symbols() == t2.symbols(),
    ensures
        forall|v: u8| #[trigger] t1.lookup(v) == t2.lookup(v),
{
}

/// The code of `symbol` in table `t`.
pub open spec fn code_bits(t: HuffmanTable, symbol: u8) -> Seq<bool> {
    bits_of(t.lookup(symbol).1 as u64, t.lookup(symbol).0 as nat)
}

/// The code of `symbol` followed by the `size` low bits of `value`.
pub open spec fn coded_value_bits(t: HuffmanTable, symbol: u8, size: u8, value: u16) -> Seq<bool> {
    code_bits(t, symbol) + bits_of(value as u64, size as nat)
}

/// A non-zero AC coefficient after `zeros` (< 16) zero coefficients: the code
/// of (zeros, category), then the magnitude bits.
pub open spec fn coefficient_bits(t: HuffmanTable, zeros: nat, v: i16) -> Seq<bool> {
    let size = category(abs(v as int));
    coded_value_bits(t, (zeros * 16 + size) as u8, size as u8, magnitude_bits(v as int) as u16)
}

/// The DC difference to the previous block: the code of its category, then the magnitude bits.
pub open spec fn dc_bits(t: HuffmanTable, value: i16, prev_dc: i16) -> Seq<bool> {
    let diff = value - prev_dc;
    let size = category(abs(diff));
    coded_value_bits(t, size as u8, size as u8, magnitude_bits(diff) as u16)
}

/// The run-length coding of AC coefficients, after `zero_run` zeros:
/// every run of sixteen zeros before a non-zero coefficient is coded as
/// 0xF0 (ZRL), and trailing zeros as 0x00 (EOB).
pub open spec fn ac_bits(t: HuffmanTable, coefs: Seq<i16>, zero_run: nat) -> Seq<bool>
    decreases coefs.len(),
{
    if coefs.len() == 0 {
        if zero_run > 0 {
            code_bits(t, 0x00)
        } else {
            Seq::<bool>::empty()
        }
    } else if coefs[0] == 0 {
        ac_bits(t, coefs.drop_first(), zero_run + 1)
    } else {
        repeat(code_bits(t, 0xF0), zero_run / 16) + coefficient_bits(t, zero_run % 16, coefs[0])
            + ac_bits(t, coefs.drop_first(), 0)
    }
}

/// The coefficients the entropy coder accepts: their magnitude has at most 14 bits.
pub open spec fn all_codable(coefs: Seq<i16>) -> bool {
    forall|i: int| 0 <= i < coefs.len() ==> codable(#[trigger] coefs[i] as int)
}

/// A block whose DC difference to `prev_dc` and AC coefficients can be coded.
pub open spec fn block_codable(data: [i16; 64], prev_dc: i16) -> bool {
    &&& codable(data[0] - prev_dc)
    &&& all_codable(data@.subrange(1, 64))
}

/// The entropy-coded bits of a block: its DC difference, then its AC coefficients.
pub open spec fn block_bits(dc: HuffmanTable, ac: HuffmanTable, data: [i16; 64], prev_dc: i16) -> Seq<
    bool,
> {
    dc_bits(dc, data[0], prev_dc) + ac_bits(ac, data@.subrange(1, 64), 0)
}

} // verus!

