use vstd::prelude::*;
use vstd::arithmetic::power2::*;
use vstd::bits::{lemma_u64_shr_is_div, lemma_u64_pow2_no_overflow};
use vstd::arithmetic::div_mod::{lemma_basic_div, lemma_div_is_ordered, lemma_div_by_self};

verus! {

/// Number of bits needed to represent the magnitude `n` (the JPEG "category").
pub open spec fn category(n: nat) -> nat
    decreases n,
{
    if n == 0 {
        0
    } else {
        1 + category(n / 2)
    }
}

pub open spec fn abs(v: int) -> nat {
    if v < 0 {
        (-v) as nat
    } else {
        v as nat
    }
}

/// The additional bits that follow a category code: the value itself when
/// it is positive, its one's complement in `category` bits when negative.
pub open spec fn magnitude_bits(v: int) -> nat {
    if v >= 0 {
        v as nat
    } else {
        (pow2(category(abs(v))) - 1 + v) as nat
    }
}

/// The magnitudes that `get_code` accepts.
pub open spec fn codable(v: int) -> bool {
    -16384 < v < 16384
}

/// `category(n)` is the unique `k` with `2^(k-1) <= n < 2^k` (and `k == 0` for `n == 0`).
pub proof fn lemma_category_bounds(n: nat)
    ensures
        n < pow2(category(n)),
        n > 0 ==> pow2((category(n) - 1) as nat) <= n,
        n == 0 <==> category(n) == 0,
    decreases n,
{
    lemma2_to64();
    if n > 0 {
        let k = category(n);
        lemma_category_bounds(n / 2);
        lemma_pow2_unfold(k);
        if n / 2 > 0 {
            lemma_pow2_unfold((k - 1) as nat);
        }
    }
}

/// A magnitude below `2^k` has at most `k` bits.
pub proof fn lemma_category_le(n: nat, k: nat)
    requires
        n < pow2(k),
    ensures
        category(n) <= k,
{
    lemma_category_bounds(n);
    if category(n) > k {
        if (category(n) - 1) as nat > k {
            lemma_pow2_strictly_increases(k, (category(n) - 1) as nat);
        }
    }
}

pub proof fn lemma_category_unique(n: nat, k: nat)
    requires
        n < pow2(k),
        k > 0 ==> pow2((k - 1) as nat) <= n,
        k == 0 ==> n == 0,
    ensures
        category(n) == k,
    decreases k,
{
    lemma2_to64();
    if k > 0 {
        lemma_pow2_unfold(k);
        if k > 1 {
            lemma_pow2_unfold((k - 1) as nat);
        } else {
            assert(n == 1);
        }
        lemma_category_unique(n / 2, (k - 1) as nat);
    } else {
        assert(n == 0);
    }
}

} // verus!

verus! {

/// The `n` low bits of `x`, most significant first (`n <= 64`).
pub open spec fn bits_of(x: u64, n: nat) -> Seq<bool> {
    Seq::new(n, |i: int| (x >> ((n - 1 - i) as u64)) & 1 == 1)
}

/// `k` one bits.
pub open spec fn ones(k: nat) -> Seq<bool> {
    Seq::new(k, |i: int| true)
}

pub open spec fn bit(b: bool) -> int {
    if b {
        1
    } else {
        0
    }
}

/// The byte made of the first eight bits of `s`, most significant first.
pub open spec fn byte_of(s: Seq<bool>) -> u8 {
    (128 * bit(s[0]) + 64 * bit(s[1]) + 32 * bit(s[2]) + 16 * bit(s[3]) + 8 * bit(s[4]) + 4 * bit(
        s[5],
    ) + 2 * bit(s[6]) + bit(s[7])) as u8
}

/// A byte of entropy-coded data: 0xFF is followed by a stuffed 0x00.
pub open spec fn stuff_byte(b: u8) -> Seq<u8> {
    if b == 0xFF {
        seq![0xFFu8, 0x00u8]
    } else {
        seq![b]
    }
}

/// The stuffed bytes made of the complete leading bytes of `bits`;
/// a trailing group of fewer than eight bits produces nothing.
pub open spec fn pack(bits: Seq<bool>) -> Seq<u8>
    decreases bits.len(),
{
    if bits.len() < 8 {
        seq![]
    } else {
        stuff_byte(byte_of(bits)) + pack(bits.skip(8))
    }
}

/// Packed data never holds a marker: every 0xFF byte is followed by a
/// stuffed 0x00.
pub proof fn lemma_pack_stuffed(bits: Seq<bool>)
    ensures
        forall|i: int| 0 <= i < pack(bits).len() && #[trigger] pack(bits)[i] == 0xFF ==> i + 1 < pack(bits).len()
            && pack(bits)[i + 1] == 0x00,
    decreases bits.len(),
{
    if bits.len() >= 8 {
        let head = stuff_byte(byte_of(bits));
        let rest = pack(bits.skip(8));
        lemma_pack_stuffed(bits.skip(8));
        assert(pack(bits) == head + rest);
        assert forall|i: int| 0 <= i < pack(bits).len() && #[trigger] pack(bits)[i] == 0xFF implies i + 1 < pack(bits).len()
            && pack(bits)[i + 1] == 0x00 by {
            if i >= head.len() {
                assert(pack(bits)[i] == rest[i - head.len()]);
                assert(pack(bits)[i + 1] == rest[i + 1 - head.len()]);
            }
        }
    }
}

/// The bits of `bits` after its last complete byte.
pub open spec fn leftover(bits: Seq<bool>) -> Seq<bool> {
    bits.skip(bits.len() - bits.len() % 8)
}

/// Packing a concatenation packs the first part, then its leftover bits
/// followed by the second part.
pub proof fn lemma_pack_append(a: Seq<bool>, b: Seq<bool>)
    ensures
        pack(a + b) == pack(a) + pack(leftover(a) + b),
    decreases a.len(),
{
    if a.len() < 8 {
        assert(leftover(a) =~= a);
        assert(pack(a) =~= seq![]);
    } else {
        let rest = a.skip(8);
        assert((a + b).skip(8) =~= rest + b);
        assert(leftover(rest) =~= leftover(a));
        lemma_pack_append(rest, b);
        assert(byte_of(a + b) == byte_of(a));
    }
}

/// Packing a sequence whose length is a multiple of eight leaves nothing over.
pub proof fn lemma_leftover_aligned(a: Seq<bool>)
    requires
        a.len() % 8 == 0,
    ensures
        leftover(a) =~= Seq::<bool>::empty(),
{
}

/// The byte that starts `m` bits into the `n` low bits of `x`.
pub proof fn lemma_byte_of_bits(x: u64, n: nat, m: nat)
    requires
        m + 8 <= n <= 64,
    ensures
        byte_of(bits_of(x, n).skip(m as int)) == ((x >> ((n - m - 8) as u64)) & 0xFF) as u8,
{
    let y: u64 = x >> ((n - m - 8) as u64);
    let s = bits_of(x, n).skip(m as int);
    assert forall|i: int| 0 <= i < 8 implies s[i] == ((y >> ((7 - i) as u64)) & 1 == 1) by {
        let k: u64 = (7 - i) as u64;
        let sh: u64 = (n - m - 8) as u64;
        assert(sh + k < 64 ==> (x >> ((sh + k) as u64)) & 1 == ((x >> sh) >> k) & 1) by (bit_vector);
    }
    assert(((y & 0xFF) as int) == 128 * ((y >> 7u64) & 1) + 64 * ((y >> 6u64) & 1) + 32 * ((y
        >> 5u64) & 1) + 16 * ((y >> 4u64) & 1) + 8 * ((y >> 3u64) & 1) + 4 * ((y >> 2u64) & 1) + 2
        * ((y >> 1u64) & 1) + ((y >> 0u64) & 1)) by (bit_vector);
    assert(forall|k: u64| #![auto] (y >> k) & 1 == 0 || (y >> k) & 1 == 1) by (bit_vector);
}


/// Dropping the first complete byte keeps the leftover bits.
pub proof fn lemma_leftover_skip8(a: Seq<bool>)
    requires
        a.len() >= 8,
    ensures
        leftover(a.skip(8)) =~= leftover(a),
{
}

/// The low `n - 8` bits are the `n` low bits without the first byte.
pub proof fn lemma_bits_of_skip8(x: u64, n: nat)
    requires
        8 <= n <= 64,
    ensures
        bits_of(x, n).skip(8) =~= bits_of(x, (n - 8) as nat),
{
}

/// A sequence of whole bytes none of which is 0xFF packs to those bytes.
pub proof fn lemma_pack_no_ff(bits: Seq<bool>)
    requires
        bits.len() % 8 == 0,
        forall|k: int| 0 <= k < bits.len() / 8 ==> #[trigger] byte_of(bits.skip(8 * k)) != 0xFF,
    ensures
        pack(bits) =~= Seq::new(bits.len() / 8, |k: int| byte_of(bits.skip(8 * k))),
    decreases bits.len(),
{
    if bits.len() >= 8 {
        let rest = bits.skip(8);
        assert forall|k: int| 0 <= k < rest.len() / 8 implies #[trigger] byte_of(rest.skip(8 * k))
            != 0xFF by {
            assert(rest.skip(8 * k) =~= bits.skip(8 * (k + 1)));
            assert(byte_of(bits.skip(8 * (k + 1))) != 0xFF);
        }
        lemma_pack_no_ff(rest);
        assert(bits.skip(0) =~= bits);
        let k0: int = 0;
        assert(byte_of(bits.skip(8 * k0)) != 0xFF);
        assert(bits.skip(8 * k0) =~= bits);
        assert forall|k: int| 0 <= k < rest.len() / 8 implies #[trigger] rest.skip(8 * k)
            =~= bits.skip(8 * (k + 1)) by {}
    }
}

/// Packing a prefix one byte longer adds that byte.
pub proof fn lemma_pack_take_next(bits: Seq<bool>, i: int)
    requires
        0 <= i,
        8 * i + 8 <= bits.len(),
    ensures
        pack(bits.take(8 * i + 8)) == pack(bits.take(8 * i)) + stuff_byte(
            byte_of(bits.skip(8 * i)),
        ),
{
    let a = bits.take(8 * i);
    let b = bits.subrange(8 * i, 8 * i + 8);
    assert(bits.take(8 * i + 8) =~= a + b);
    lemma_pack_append(a, b);
    assert(leftover(a) =~= Seq::<bool>::empty());
    assert(Seq::<bool>::empty() + b =~= b);
    assert(b.skip(8) =~= Seq::<bool>::empty());
    assert(pack(b.skip(8)) =~= Seq::<u8>::empty());
    assert(byte_of(b) == byte_of(bits.skip(8 * i)));
    assert(pack(b) =~= stuff_byte(byte_of(b)));
}


/// The leftover bits of a concatenation only depend on the leftover bits of its first part.
pub proof fn lemma_leftover_append(a: Seq<bool>, b: Seq<bool>)
    ensures
        leftover(a + b) =~= leftover(leftover(a) + b),
{
    let la = leftover(a);
    assert(la.len() == a.len() % 8);
    assert((a.len() + b.len()) % 8 == (la.len() + b.len()) % 8) by {
        assert(a.len() == 8 * (a.len() / 8) + a.len() % 8);
    }
    let n1 = (a + b).len() - (a + b).len() % 8;
    let n2 = (la + b).len() - (la + b).len() % 8;
    assert forall|i: int| 0 <= i < leftover(a + b).len() implies leftover(a + b)[i] == leftover(
        la + b,
    )[i] by {
        assert(n1 == n2 + (a.len() - la.len()));
    }
}

/// Shifting `s` new bits into the low end of a buffer appends them.
pub proof fn lemma_concat_shift(bb: u64, n: nat, v: u64, s: u64)
    requires
        n + s <= 64,
        s <= 32,
        v >> s == 0,
    ensures
        bits_of((bb << s) | v, n + s as nat) =~= bits_of(bb, n) + bits_of(v, s as nat),
{
    let bb2 = (bb << s) | v;
    let nb = bits_of(bb2, n + s as nat);
    let rhs = bits_of(bb, n) + bits_of(v, s as nat);
    assert forall|i: int| 0 <= i < n + s implies nb[i] == rhs[i] by {
        if i < n {
            let k: u64 = (n - 1 - i) as u64;
            assert(bb2 == (bb << s) | v && v >> s == 0 && s <= 32 && k + s < 64 ==> (bb2 >> ((k + s)
                as u64)) & 1 == (bb >> k) & 1) by (bit_vector);
        } else {
            let j: u64 = (n + s - 1 - i) as u64;
            assert(bb2 == (bb << s) | v && v >> s == 0 && s <= 32 && j < s ==> (bb2 >> j) & 1 == (v
                >> j) & 1) by (bit_vector);
        }
    }
}


/// `n` copies of `s`.
pub open spec fn repeat(s: Seq<bool>, n: nat) -> Seq<bool>
    decreases n,
{
    if n == 0 {
        Seq::<bool>::empty()
    } else {
        s + repeat(s, (n - 1) as nat)
    }
}


/// `x >> k == 0` exactly when `x < 2^k`.
pub proof fn lemma_shr_zero_iff(x: u64, k: u64)
    requires
        k < 64,
    ensures
        (x >> k == 0) <==> (x as nat) < pow2(k as nat),
{
    lemma_u64_shr_is_div(x, k);
    lemma_u64_pow2_no_overflow(k as nat);
    if (x as nat) < pow2(k as nat) {
        lemma_basic_div(x as int, pow2(k as nat) as int);
    } else {
        lemma_div_is_ordered(pow2(k as nat) as int, x as int, pow2(k as nat) as int);
        lemma_div_by_self(pow2(k as nat) as int);
    }
}

/// Shifting a non-negative value right by 16 divides it by 65536.
pub proof fn lemma_shr16(x: i32)
    by (bit_vector)
    requires
        0 <= x,
    ensures
        x >> 16 == x / 65536,
{
}

/// The seven low bits of 0x7F are ones.
pub proof fn lemma_low_seven_ones(k: u64)
    by (bit_vector)
    requires
        k < 7,
    ensures
        (0x7Fu64 >> k) & 1 == 1,
{
}

/// An empty byte holds no bits.
pub proof fn lemma_empty_byte()
    by (bit_vector)
    ensures
        (0u8 as u64) >> 0u64 == 0,
{
}

} // verus!

