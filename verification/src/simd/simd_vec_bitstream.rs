use vstd::prelude::*;
use vstd::arithmetic::power2::{pow2, lemma2_to64};
use vstd::arithmetic::div_mod::lemma_basic_div;
use vstd::bits::{lemma_u64_shr_is_div, lemma_u64_pow2_no_overflow};
use crate::EncodingError;
use crate::bit_stream::{BitStream, value_bits};
use crate::coding::{bits_of, ones, pack, leftover, stuff_byte, byte_of, lemma_pack_append,
    lemma_byte_of_bits, lemma_leftover_append, lemma_concat_shift};

verus! {

/// A bit writer that appends complete bytes to a `Vec<u8>` as soon as they
/// are complete; only the bits of the current byte are held back.
pub struct SimdVecBitStream {
    pub data: Vec<u8>,
    pub len: usize,
    pending_byte: u8,
    pending_bits: u8,
    has_unfinalized_bits: bool,
}

impl SimdVecBitStream {
    pub fn new(data: Vec<u8>) -> (s: Self)
        ensures
            s.inv(),
            s.out() == data@,
            s.tail() == Seq::<bool>::empty(),
    {
        let len = data.len();
        let s = Self { data, len, pending_byte: 0, pending_bits: 0, has_unfinalized_bits: false };
        proof {
            assert(s.tail() =~= Seq::<bool>::empty());
            crate::coding::lemma_empty_byte();
        }
        s
    }

    fn push_raw_byte(&mut self, byte: u8)
        requires
            old(self).len == old(self).data@.len(),
        ensures
            final(self).data@ == old(self).data@.push(byte),
            final(self).len == final(self).data@.len(),
            final(self).pending_byte == old(self).pending_byte,
            final(self).pending_bits == old(self).pending_bits,
            final(self).has_unfinalized_bits == old(self).has_unfinalized_bits,
    {
        self.data.push(byte);
        proof {
            assert(self.data.len() <= usize::MAX);
        }
        self.len += 1;
    }

    /// Appends `byte`, followed by a stuffed 0x00 when it is 0xFF.
    fn push_stuffed_byte(&mut self, byte: u8)
        requires
            old(self).len == old(self).data@.len(),
        ensures
            final(self).data@ == old(self).data@ + stuff_byte(byte),
            final(self).len == final(self).data@.len(),
            final(self).pending_byte == old(self).pending_byte,
            final(self).pending_bits == old(self).pending_bits,
            final(self).has_unfinalized_bits == old(self).has_unfinalized_bits,
    {
        self.push_raw_byte(byte);
        if byte == 0xFF {
            self.push_raw_byte(0x00);
        }
        proof {
            assert(self.data@ =~= old(self).data@ + stuff_byte(byte));
        }
    }

    /// Emits the completed pending byte.
    fn flush_pending_byte(&mut self)
        requires
            old(self).len == old(self).data@.len(),
            old(self).pending_bits == 8,
        ensures
            final(self).data@ == old(self).data@ + stuff_byte(old(self).pending_byte),
            final(self).len == final(self).data@.len(),
            final(self).pending_byte == 0,
            final(self).pending_bits == 0,
            final(self).has_unfinalized_bits == old(self).has_unfinalized_bits,
    {
        self.push_stuffed_byte(self.pending_byte);
        self.pending_byte = 0;
        self.pending_bits = 0;
    }
}

impl BitStream for SimdVecBitStream {
    closed spec fn out(&self) -> Seq<u8> {
        self.data@
    }

    closed spec fn tail(&self) -> Seq<bool> {
        bits_of(self.pending_byte as u64, self.pending_bits as nat)
    }

    closed spec fn settled(&self) -> bool {
        true
    }

    closed spec fn inv(&self) -> bool {
        &&& self.len == self.data@.len()
        &&& self.pending_bits < 8
        &&& (self.pending_byte as u64) >> (self.pending_bits as u64) == 0
    }

    /// Appending to a vector never fails.
    open spec fn infallible() -> bool {
        true
    }

    proof fn lemma_tail_short(&self) {
    }

    /// Write bytes to the bitstream.
    /// It is the callers job to make sure they have called `finalize_bit_buffer`
    ///  after doing bitwise operations and before calling this.
    fn write(&mut self, buf: &[u8]) -> (r: Result<(), EncodingError>)
        ensures
            r is Ok,
    {
        let ghost start = self.data@;
        let mut i: usize = 0;
        while i < buf.len()
            invariant
                i <= buf.len(),
                self.data@ == start + buf@.take(i as int),
                self.len == self.data@.len(),
                self.pending_byte == old(self).pending_byte,
                self.pending_bits == old(self).pending_bits,
            decreases buf.len() - i,
        {
            self.push_raw_byte(buf[i]);
            i += 1;
            proof {
                assert(start + buf@.take(i as int) =~= (start + buf@.take((i - 1) as int)).push(
                    buf@[i - 1],
                ));
            }
        }
        proof {
            assert(buf@.take(i as int) =~= buf@);
        }
        Ok(())
    }

    /// Flush the bit buffer
    fn finalize_bit_buffer(&mut self) -> (r: Result<(), EncodingError>) {
        proof {
            lemma2_to64();
        }
        self.write_bits(0x7F, 7)?;
        proof {
            assert(value_bits(0x7F, 7) =~= ones(7)) by {
                assert forall|i: int| 0 <= i < 7 implies #[trigger] value_bits(0x7F, 7)[i] by {
                    let k: u64 = (6 - i) as u64;
                    crate::coding::lemma_low_seven_ones(k);
                }
            }
        }
        // Match DefaultBitStream behavior: discard partial bits after flushing
        // complete bytes produced by the 0x7F terminator write.
        self.pending_byte = 0;
        self.pending_bits = 0;
        self.has_unfinalized_bits = false;
        proof {
            crate::coding::lemma_empty_byte();
            assert(self.tail() =~= Seq::<bool>::empty());
        }
        Ok(())
    }

    /// Complete bytes are appended as soon as they are complete: nothing to do.
    fn flush_bit_buffer(&mut self) -> (r: Result<(), EncodingError>) {
        Ok(())
    }

    /// Write bits to the bitstream. Sub-byte index is preserved across calls.
    #[verifier::rlimit(40)]
    fn write_bits(&mut self, value: u32, size: u8) -> (r: Result<(), EncodingError>) {
        let ghost vbits = value_bits(value, size);
        let ghost data0 = self.data@;
        let ghost tail0 = self.tail();
        if size == 0 {
            proof {
                assert(vbits =~= Seq::<bool>::empty());
                assert(tail0 + vbits =~= tail0);
                assert(pack(tail0) =~= Seq::<u8>::empty());
                assert(leftover(tail0) =~= tail0);
            }
            return Ok(());
        }
        self.has_unfinalized_bits = true;
        let v: u64 = value as u64;
        proof {
            lemma_u64_shr_is_div(v, size as u64);
            lemma_u64_pow2_no_overflow(size as nat);
            lemma_basic_div(v as int, pow2(size as nat) as int);
        }

        let mut remaining: u8 = size;

        while remaining > 0
            invariant
                self.len == self.data@.len(),
                self.pending_bits < 8,
                (self.pending_byte as u64) >> (self.pending_bits as u64) == 0,
                size <= 32,
                remaining <= size,
                v == value as u64,
                v >> (size as u64) == 0,
                vbits == value_bits(value, size),
                self.data@ == data0 + pack(tail0 + vbits.take(size - remaining)),
                bits_of(self.pending_byte as u64, self.pending_bits as nat) == leftover(
                    tail0 + vbits.take(size - remaining),
                ),
            decreases remaining,
        {
            let ghost c = (size - remaining) as int;
            let ghost prefix = tail0 + vbits.take(c);
            if self.pending_bits == 0 && remaining >= 8 {
                let shift = u32::from(remaining - 8);
                let byte = ((value >> shift) & 0xFF) as u8;
                proof {
                    lemma_full_byte(value, size, c as nat, shift, byte);
                    lemma_extend(tail0, vbits, c, 8);
                    lemma_append_byte(prefix, vbits.subrange(c, c + 8));
                }
                self.push_stuffed_byte(byte);
                remaining -= 8;
                proof {
                    assert(bits_of(self.pending_byte as u64, 0) =~= Seq::<bool>::empty());
                }
                continue;
            }

            let free = 8 - self.pending_bits;
            let take: u8 = if remaining < free { remaining } else { free };
            proof {
                assert(1 <= take <= 8 ==> (1u32 << (take as u32)) >= 2) by (bit_vector);
            }
            let shift = u32::from(remaining - take);
            let mask = ((1u32 << u32::from(take)) - 1) as u8;
            let bits = ((value >> shift) as u8) & mask;
            let ghost pb = self.pending_byte;
            let ghost pbits = self.pending_bits;
            let new_byte: u8 = (self.pending_byte << take) | bits;
            proof {
                lemma_partial_bits(value, size, c as nat, shift, take, mask, bits, pb, pbits, new_byte);
                lemma_extend(tail0, vbits, c, take as int);
                lemma_append_partial(prefix, vbits.subrange(c, c + take), bits_of(new_byte as u64, (pbits + take) as nat));
            }
            self.pending_byte = new_byte;
            self.pending_bits += take;
            remaining -= take;

            if self.pending_bits == 8 {
                proof {
                    lemma_byte_of_u8(new_byte);
                }
                self.flush_pending_byte();
                proof {
                    assert(bits_of(0u8 as u64, 0) =~= Seq::<bool>::empty());
                    crate::coding::lemma_empty_byte();
                }
            }
        }
        proof {
            assert(vbits.take(size as int) =~= vbits);
        }
        Ok(())
    }
}


/// Taking `k` more bits of `v` extends the prefix by them.
proof fn lemma_extend(t: Seq<bool>, v: Seq<bool>, c: int, k: int)
    requires
        0 <= c,
        0 <= k,
        c + k <= v.len(),
    ensures
        t + v.take(c) + v.subrange(c, c + k) == t + v.take(c + k),
{
    assert(t + v.take(c) + v.subrange(c, c + k) =~= t + v.take(c + k));
}

/// Appending a whole byte to a byte-aligned prefix emits exactly that byte.
proof fn lemma_append_byte(prefix: Seq<bool>, y: Seq<bool>)
    requires
        leftover(prefix).len() == 0,
        y.len() == 8,
    ensures
        pack(prefix + y) == pack(prefix) + stuff_byte(byte_of(y)),
        leftover(prefix + y) == Seq::<bool>::empty(),
{
    lemma_pack_append(prefix, y);
    lemma_leftover_append(prefix, y);
    assert(leftover(prefix) + y =~= y);
    assert(y.skip(8) =~= Seq::<bool>::empty());
    assert(pack(y.skip(8)) =~= Seq::<u8>::empty());
    assert(pack(y) =~= stuff_byte(byte_of(y)));
    assert(leftover(y) =~= Seq::<bool>::empty());
}

/// Appending bits that complete at most the current byte.
proof fn lemma_append_partial(prefix: Seq<bool>, y: Seq<bool>, nb: Seq<bool>)
    requires
        leftover(prefix) + y == nb,
        nb.len() <= 8,
    ensures
        nb.len() < 8 ==> pack(prefix + y) == pack(prefix) && leftover(prefix + y) == nb,
        nb.len() == 8 ==> pack(prefix + y) == pack(prefix) + stuff_byte(byte_of(nb)) && leftover(
            prefix + y,
        ) == Seq::<bool>::empty(),
{
    lemma_pack_append(prefix, y);
    lemma_leftover_append(prefix, y);
    if nb.len() < 8 {
        assert(pack(nb) =~= Seq::<u8>::empty());
        assert(pack(prefix) + pack(nb) =~= pack(prefix));
        assert(leftover(nb) =~= nb);
    } else {
        assert(nb.skip(8) =~= Seq::<bool>::empty());
        assert(pack(nb.skip(8)) =~= Seq::<u8>::empty());
        assert(pack(nb) =~= stuff_byte(byte_of(nb)));
        assert(leftover(nb) =~= Seq::<bool>::empty());
    }
}

/// The byte taken from a value `shift` bits above its low end.
proof fn lemma_full_byte(value: u32, size: u8, c: nat, shift: u32, byte: u8)
    requires
        size <= 32,
        c + 8 <= size,
        shift == size - c - 8,
        byte == ((value >> shift) & 0xFF) as u8,
    ensures
        byte_of(value_bits(value, size).subrange(c as int, c + 8int)) == byte,
{
    let v = value as u64;
    lemma_byte_of_bits(v, size as nat, c);
    let sh = shift as u64;
    assert(v == value as u64 && shift < 32 && sh == shift as u64 ==> ((value >> shift) & 0xFF) as u64
        == (v >> sh) & 0xFF) by (bit_vector);
    assert((value >> shift) & 0xFF <= 0xFF) by (bit_vector);
    let y = value_bits(value, size).subrange(c as int, c + 8int);
    assert(byte_of(y) == byte_of(value_bits(value, size).skip(c as int)));
}

/// Shifting `take` bits of the value into the pending byte.
proof fn lemma_partial_bits(
    value: u32,
    size: u8,
    c: nat,
    shift: u32,
    take: u8,
    mask: u8,
    bits: u8,
    pb: u8,
    pbits: u8,
    new_byte: u8,
)
    requires
        size <= 32,
        1 <= take <= 8,
        pbits + take <= 8,
        c + take <= size,
        shift == size - c - take,
        mask == ((1u32 << (take as u32)) - 1) as u8,
        bits == (((value >> shift) as u8) & mask),
        (pb as u64) >> (pbits as u64) == 0,
        new_byte == ((pb << take) | bits),
    ensures
        bits_of(pb as u64, pbits as nat) + value_bits(value, size).subrange(c as int, c + take as int)
            == bits_of(new_byte as u64, (pbits + take) as nat),
        pbits + take < 8 ==> (new_byte as u64) >> ((pbits + take) as u64) == 0,
{
    let t = take as u64;
    let sh = shift as u64;
    let v = value as u64;
    let pb64 = pb as u64;
    let pbits64 = pbits as u64;
    assert(take <= 8 && t == take as u64 && mask == ((1u32 << (take as u32)) - 1) as u8 && bits == (((
    value >> shift) as u8) & mask) ==> (bits as u64) >> t == 0) by (bit_vector);
    assert(pbits64 + t <= 8 && pb64 >> pbits64 == 0 && pb64 == pb as u64 && (bits as u64) >> t == 0
        && new_byte == ((pb << take) | bits) && t == take as u64 ==> new_byte as u64 == (pb64 << t) | (
    bits as u64)) by (bit_vector);
    lemma_concat_shift(pb64, pbits as nat, bits as u64, t);
    let y = value_bits(value, size).subrange(c as int, c + take as int);
    assert(bits_of(bits as u64, take as nat) =~= y) by {
        assert forall|j: int| 0 <= j < take implies #[trigger] bits_of(bits as u64, take as nat)[j]
            == y[j] by {
            let jj: u64 = (take - 1 - j) as u64;
            assert(take <= 8 && mask == ((1u32 << (take as u32)) - 1) as u8 && bits == (((value
                >> shift) as u8) & mask) && jj < t && t == take as u64 && sh == shift as u64 && sh < 32
                && v == value as u64 ==> ((bits as u64) >> jj) & 1 == (v >> ((sh + jj) as u64)) & 1)
                by (bit_vector);
        }
    }
    assert(pbits64 + t <= 8 && pb64 >> pbits64 == 0 && (bits as u64) >> t == 0 && new_byte as u64
        == (pb64 << t) | (bits as u64) && pbits64 + t < 8 ==> (new_byte as u64) >> ((pbits64 + t)
        as u64) == 0) by (bit_vector);
}

/// The eight bits of a byte make that byte.
proof fn lemma_byte_of_u8(b: u8)
    ensures
        byte_of(bits_of(b as u64, 8)) == b,
{
    lemma_byte_of_bits(b as u64, 8, 0);
    assert(bits_of(b as u64, 8).skip(0) =~= bits_of(b as u64, 8));
    assert(((b as u64) >> 0u64) & 0xFF == b as u64) by (bit_vector);
}


impl BitStream for &mut SimdVecBitStream {
    open spec fn out(&self) -> Seq<u8> {
        (**self).out()
    }

    open spec fn tail(&self) -> Seq<bool> {
        (**self).tail()
    }

    open spec fn settled(&self) -> bool {
        (**self).settled()
    }

    open spec fn inv(&self) -> bool {
        (**self).inv()
    }

    open spec fn infallible() -> bool {
        true
    }

    proof fn lemma_tail_short(&self) {
        (**self).lemma_tail_short();
    }

    fn write(&mut self, buf: &[u8]) -> (r: Result<(), EncodingError>) {
        (**self).write(buf)
    }

    fn finalize_bit_buffer(&mut self) -> (r: Result<(), EncodingError>) {
        (**self).finalize_bit_buffer()
    }

    fn flush_bit_buffer(&mut self) -> (r: Result<(), EncodingError>) {
        (**self).flush_bit_buffer()
    }

    fn write_bits(&mut self, value: u32, size: u8) -> (r: Result<(), EncodingError>) {
        (**self).write_bits(value, size)
    }
}

} // verus!

