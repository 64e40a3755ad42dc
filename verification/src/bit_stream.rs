use vstd::prelude::*;
use vstd::arithmetic::power2::{pow2, lemma2_to64, lemma2_to64_rest};
use vstd::arithmetic::div_mod::lemma_basic_div;
use vstd::bits::{lemma_u64_shl_is_mul, lemma_u64_pow2_no_overflow, lemma_u64_shr_is_div};
use crate::EncodingError;
use crate::coding::{bits_of, ones, pack, leftover, stuff_byte, byte_of, lemma_pack_append,
    lemma_byte_of_bits, lemma_leftover_aligned, lemma_leftover_skip8, lemma_bits_of_skip8,
    lemma_pack_no_ff, lemma_pack_take_next, lemma_leftover_append, lemma_concat_shift};

verus! {

/// Number of bits held by the bit buffer of [`DefaultBitStream`].
pub const BUFFER_SIZE: u64 = 64;

/// A byte sink, the subset of `std::io::Write` the encoder needs.
pub trait JfifWrite {
    /// The bytes the sink has accepted so far.
    spec fn written(&self) -> Seq<u8>;

    /// Sinks of this type never refuse a write.
    spec fn infallible() -> bool;

    /// Writes the whole buffer; on success the sink holds `buf` after what it held.
    fn write_all(&mut self, buf: &[u8]) -> (r: Result<(), EncodingError>)
        ensures
            r is Ok ==> final(self).written() == old(self).written() + buf@,
            Self::infallible() ==> r is Ok,
    ;
}

impl JfifWrite for Vec<u8> {
    open spec fn written(&self) -> Seq<u8> {
        self@
    }

    open spec fn infallible() -> bool {
        true
    }

    fn write_all(&mut self, buf: &[u8]) -> (r: Result<(), EncodingError>)
        ensures
            r is Ok,
    {
        let ghost start = self@;
        let mut i: usize = 0;
        while i < buf.len()
            invariant
                i <= buf.len(),
                self@ == start + buf@.take(i as int),
            decreases buf.len() - i,
        {
            self.push(buf[i]);
            i += 1;
            assert(start + buf@.take(i as int) =~= (start + buf@.take((i - 1) as int)).push(buf@[i - 1]));
        }
        assert(buf@.take(i as int) =~= buf@);
        Ok(())
    }
}

/// A byte sink to implement outside the library (over a file, say): it
/// writes the whole buffer or fails. Nothing is assumed of it.
pub trait ByteSink {
    fn write_bytes(&mut self, buf: &[u8]) -> Result<(), EncodingError>;
}

/// A [`JfifWrite`] over a [`ByteSink`]: what it has written is what the
/// sink accepted.
pub struct SinkWriter<S: ByteSink> {
    pub sink: S,
    accepted: Ghost<Seq<u8>>,
}

impl<S: ByteSink> SinkWriter<S> {
    /// The sink written to.
    pub closed spec fn spec_sink(&self) -> S {
        self.sink
    }

    pub fn new(sink: S) -> (w: Self)
        ensures
            w.written() == Seq::<u8>::empty(),
            w.spec_sink() == sink,
    {
        SinkWriter { sink, accepted: Ghost(Seq::empty()) }
    }
}

impl<S: ByteSink> JfifWrite for SinkWriter<S> {
    closed spec fn written(&self) -> Seq<u8> {
        self.accepted@
    }

    open spec fn infallible() -> bool {
        false
    }

    fn write_all(&mut self, buf: &[u8]) -> (r: Result<(), EncodingError>) {
        let r = self.sink.write_bytes(buf);
        if r.is_ok() {
            self.accepted = Ghost(self.accepted@ + buf@);
        }
        r
    }
}

impl<W: JfifWrite> JfifWrite for &mut W {
    open spec fn written(&self) -> Seq<u8> {
        (**self).written()
    }

    open spec fn infallible() -> bool {
        W::infallible()
    }

    fn write_all(&mut self, buf: &[u8]) -> (r: Result<(), EncodingError>) {
        (**self).write_all(buf)
    }
}


/// The bits written by `write_bits(value, size)`: the `size` low bits of `value`.
pub open spec fn value_bits(value: u32, size: u8) -> Seq<bool> {
    bits_of(value as u64, size as nat)
}

/// A sink for entropy-coded bits and for raw marker bytes.
///
/// Its state is modelled by `out`, the bytes produced so far (complete bytes,
/// with every 0xFF followed by a stuffed 0x00), and `tail`, the fewer than
/// eight bits written since the last complete byte.
pub trait BitStream {
    spec fn out(&self) -> Seq<u8>;

    spec fn tail(&self) -> Seq<bool>;

    /// Every complete byte has been handed on (raw bytes may be written now).
    spec fn settled(&self) -> bool;

    spec fn inv(&self) -> bool;

    /// Streams of this type never fail.
    spec fn infallible() -> bool;

    /// Fewer than eight bits are ever held back.
    proof fn lemma_tail_short(&self)
        requires
            self.inv(),
        ensures
            self.tail().len() < 8,
    ;

    /// Writes raw bytes.
    fn write(&mut self, buf: &[u8]) -> (r: Result<(), EncodingError>)
        requires
            old(self).inv(),
        ensures
            Self::infallible() ==> r is Ok,
            r is Ok ==> final(self).inv(),
            r is Ok ==> final(self).tail() == old(self).tail(),
            r is Ok && old(self).settled() ==> final(self).settled() && final(self).out()
                == old(self).out() + buf@,
    ;

    fn write_u8(&mut self, value: u8) -> (r: Result<(), EncodingError>)
        requires
            old(self).inv(),
        ensures
            Self::infallible() ==> r is Ok,
            r is Ok ==> final(self).inv(),
            r is Ok ==> final(self).tail() == old(self).tail(),
            r is Ok && old(self).settled() ==> final(self).settled() && final(self).out()
                == old(self).out() + seq![value],
    {
        let buf = [value];
        let r = self.write(&buf);
        proof {
            assert(buf@ =~= seq![value]);
        }
        r
    }

    /// Writes a big-endian u16.
    fn write_u16(&mut self, value: u16) -> (r: Result<(), EncodingError>)
        requires
            old(self).inv(),
        ensures
            Self::infallible() ==> r is Ok,
            r is Ok ==> final(self).inv(),
            r is Ok ==> final(self).tail() == old(self).tail(),
            r is Ok && old(self).settled() ==> final(self).settled() && final(self).out()
                == old(self).out() + be_bytes(value),
    {
        let hi: u8 = (value >> 8) as u8;
        let lo: u8 = (value & 0xFF) as u8;
        proof {
            assert(value >> 8 == value / 256 && value & 0xFF == value % 256) by (bit_vector);
        }
        let buf = [hi, lo];
        let r = self.write(&buf);
        proof {
            assert(buf@ =~= be_bytes(value));
        }
        r
    }

    /// Pads the current byte with one bits, emits it and starts a fresh byte.
    fn finalize_bit_buffer(&mut self) -> (r: Result<(), EncodingError>)
        requires
            old(self).inv(),
        ensures
            Self::infallible() ==> r is Ok,
            r is Ok ==> final(self).inv() && final(self).settled(),
            r is Ok ==> final(self).tail() == Seq::<bool>::empty(),
            r is Ok ==> final(self).out() == old(self).out() + pack(old(self).tail() + ones(7)),
    ;

    /// Hands every complete byte on to the sink.
    fn flush_bit_buffer(&mut self) -> (r: Result<(), EncodingError>)
        requires
            old(self).inv(),
        ensures
            Self::infallible() ==> r is Ok,
            r is Ok ==> final(self).inv() && final(self).settled(),
            r is Ok ==> final(self).tail() == old(self).tail(),
            r is Ok ==> final(self).out() == old(self).out(),
    ;

    /// Appends the `size` low bits of `value`, most significant first.
    fn write_bits(&mut self, value: u32, size: u8) -> (r: Result<(), EncodingError>)
        requires
            old(self).inv(),
            size <= 32,
            (value as nat) < pow2(size as nat),
        ensures
            Self::infallible() ==> r is Ok,
            r is Ok ==> final(self).inv(),
            r is Ok ==> final(self).out() == old(self).out() + pack(
                old(self).tail() + value_bits(value, size),
            ),
            r is Ok ==> final(self).tail() == leftover(old(self).tail() + value_bits(value, size)),
    ;
}

/// The two bytes of `v`, most significant first.
pub open spec fn be_bytes(v: u16) -> Seq<u8> {
    seq![(v / 256) as u8, (v % 256) as u8]
}

/// A bit writer that collects bits in a 64-bit buffer and hands full
/// buffers to a [`JfifWrite`] sink.
pub struct DefaultBitStream<W: JfifWrite> {
    w: W,
    bit_buffer: u64,
    free_bits: i8,
}

impl<W: JfifWrite> DefaultBitStream<W> {
    /// The bits held in the buffer, oldest first.
    pub closed spec fn buffered(&self) -> Seq<bool> {
        bits_of(self.bit_buffer, (BUFFER_SIZE - self.free_bits) as nat)
    }

    /// The bytes handed to the sink so far.
    pub closed spec fn sink(&self) -> Seq<u8> {
        self.w.written()
    }

    pub fn new(w: W) -> (s: Self)
        ensures
            s.inv(),
            s.settled(),
            s.sink() == w.written(),
            s.out() == w.written(),
            s.tail() == Seq::<bool>::empty(),
    {
        let s = DefaultBitStream { w, bit_buffer: 0, free_bits: BUFFER_SIZE as i8 };
        proof {
            assert(s.buffered() =~= Seq::<bool>::empty());
            assert(pack(s.buffered()) =~= Seq::<u8>::empty());
            assert(s.out() =~= w.written());
        }
        s
    }

    /// Writes the byte that starts after `64 - free_bits` bits of the buffer,
    /// followed by a stuffed zero when it is 0xFF.
    fn flush_byte_from_bit_buffer(&mut self, free_bits: i8) -> (r: Result<(), EncodingError>)
        requires
            0 <= free_bits <= 56,
        ensures
            final(self).bit_buffer == old(self).bit_buffer,
            final(self).free_bits == old(self).free_bits,
            W::infallible() ==> r is Ok,
            r is Ok ==> final(self).w.written() == old(self).w.written() + stuff_byte(
                ((old(self).bit_buffer >> ((56 - free_bits) as u64)) & 0xFF) as u8,
            ),
    {
        let bb = self.bit_buffer;
        let value: u64 = (bb >> ((BUFFER_SIZE as i8 - 8 - free_bits) as u64)) & 0xFF;
        proof {
            let sh = (56 - free_bits) as u64;
            assert(value == (bb >> sh) & 0xFF ==> value <= 0xFF) by (bit_vector);
        }
        let ghost start = self.w.written();
        let byte = [value as u8];
        self.w.write_all(&byte)?;
        if value == 0xFF {
            let zero = [0x00u8];
            self.w.write_all(&zero)?;
            proof {
                assert(start + byte@ + zero@ =~= start + stuff_byte(value as u8));
            }
        } else {
            proof {
                assert(start + byte@ =~= start + stuff_byte(value as u8));
            }
        }
        Ok(())
    }

    /// Writes the whole (full) buffer.
    fn write_bit_buffer(&mut self) -> (r: Result<(), EncodingError>)
        ensures
            final(self).bit_buffer == old(self).bit_buffer,
            final(self).free_bits == old(self).free_bits,
            W::infallible() ==> r is Ok,
            r is Ok ==> final(self).w.written() == old(self).w.written() + pack(
                bits_of(old(self).bit_buffer, 64),
            ),
    {
        let bb = self.bit_buffer;
        let ghost bits = bits_of(bb, 64);
        let ghost start = self.w.written();
        let sum: u64 = bb.wrapping_add(0x0101010101010101);
        if (bb & 0x8080808080808080 & !sum) != 0 {
            let mut i: usize = 0;
            while i < 8
                invariant
                    i <= 8,
                    bb == self.bit_buffer,
                    bb == old(self).bit_buffer,
                    self.free_bits == old(self).free_bits,
                    bits == bits_of(bb, 64),
                    self.w.written() == start + pack(bits.take(8 * i as int)),
                decreases 8 - i,
            {
                self.flush_byte_from_bit_buffer((i * 8) as i8)?;
                proof {
                    lemma_pack_take_next(bits, i as int);
                    lemma_byte_of_bits(bb, 64, (8 * i) as nat);
                    assert(start + pack(bits.take(8 * i as int)) + stuff_byte(byte_of(bits.skip(8 * i as int)))
                        =~= start + pack(bits.take(8 * (i + 1) as int)));
                }
                i += 1;
            }
            proof {
                assert(bits.take(64) =~= bits);
            }
            Ok(())
        } else {
            proof {
                assert forall|k: int| 0 <= k < bits.len() / 8 implies #[trigger] byte_of(
                    bits.skip(8 * k),
                ) != 0xFF by {
                    lemma_byte_of_bits(bb, 64, (8 * k) as nat);
                    lemma_no_ff_byte(bb, sum, (56 - 8 * k) as u64);
                }
                lemma_pack_no_ff(bits);
            }
            let bytes = [
                (bb >> 56) as u8,
                (bb >> 48) as u8,
                (bb >> 40) as u8,
                (bb >> 32) as u8,
                (bb >> 24) as u8,
                (bb >> 16) as u8,
                (bb >> 8) as u8,
                bb as u8,
            ];
            proof {
                assert forall|k: int| 0 <= k < 8 implies #[trigger] bytes@[k] == byte_of(
                    bits.skip(8 * k),
                ) by {
                    lemma_byte_of_bits(bb, 64, (8 * k) as nat);
                    assert((bb >> 56u64) as u8 == ((bb >> 56u64) & 0xFF) as u8
                        && (bb >> 48u64) as u8 == ((bb >> 48u64) & 0xFF) as u8
                        && (bb >> 40u64) as u8 == ((bb >> 40u64) & 0xFF) as u8
                        && (bb >> 32u64) as u8 == ((bb >> 32u64) & 0xFF) as u8
                        && (bb >> 24u64) as u8 == ((bb >> 24u64) & 0xFF) as u8
                        && (bb >> 16u64) as u8 == ((bb >> 16u64) & 0xFF) as u8
                        && (bb >> 8u64) as u8 == ((bb >> 8u64) & 0xFF) as u8
                        && bb as u8 == ((bb >> 0u64) & 0xFF) as u8) by (bit_vector);
                }
                assert(bytes@ =~= pack(bits));
            }
            self.w.write_all(&bytes)
        }
    }
}

impl<W: JfifWrite> BitStream for DefaultBitStream<W> {
    open spec fn out(&self) -> Seq<u8> {
        self.sink() + pack(self.buffered())
    }

    open spec fn tail(&self) -> Seq<bool> {
        leftover(self.buffered())
    }

    open spec fn settled(&self) -> bool {
        self.buffered().len() < 8
    }

    closed spec fn inv(&self) -> bool {
        0 <= self.free_bits <= BUFFER_SIZE
    }

    open spec fn infallible() -> bool {
        W::infallible()
    }

    proof fn lemma_tail_short(&self) {
    }

    fn write(&mut self, buf: &[u8]) -> (r: Result<(), EncodingError>)
        ensures
            final(self).buffered() == old(self).buffered(),
            r is Ok ==> final(self).sink() == old(self).sink() + buf@,
    {
        let r = self.w.write_all(buf);
        proof {
            if r is Ok && old(self).settled() {
                assert(pack(self.buffered()) =~= Seq::<u8>::empty());
                assert(self.out() =~= old(self).out() + buf@);
            }
        }
        r
    }

    fn finalize_bit_buffer(&mut self) -> (r: Result<(), EncodingError>) {
        proof {
            lemma2_to64();
        }
        self.write_bits(0x7F, 7)?;
        proof {
            assert(value_bits(0x7F, 7) =~= ones(7)) by {
                assert forall|i: int| 0 <= i < 7 implies #[trigger] value_bits(0x7F, 7)[i] by {
                    let k: u64 = (6 - i) as u64;
                    crate::coding::lemma_low_seven_ones(k);
                }
            }
        }
        self.flush_bit_buffer()?;
        self.bit_buffer = 0;
        self.free_bits = BUFFER_SIZE as i8;
        proof {
            assert(self.buffered() =~= Seq::<bool>::empty());
            assert(pack(self.buffered()) =~= Seq::<u8>::empty());
            assert(self.tail() =~= Seq::<bool>::empty());
        }
        Ok(())
    }

    fn flush_bit_buffer(&mut self) -> (r: Result<(), EncodingError>)
        ensures
            r is Ok ==> final(self).buffered() == leftover(old(self).buffered()),
    {
        let ghost start_out = self.out();
        let ghost start_tail = self.tail();
        while self.free_bits <= (BUFFER_SIZE as i8 - 8)
            invariant
                self.inv(),
                self.out() == start_out,
                self.tail() == start_tail,
                start_tail == leftover(old(self).buffered()),
            decreases BUFFER_SIZE - self.free_bits,
        {
            let ghost n = (BUFFER_SIZE - self.free_bits) as nat;
            let ghost b = self.buffered();
            self.flush_byte_from_bit_buffer(self.free_bits)?;
            self.free_bits = self.free_bits + 8;
            proof {
                lemma_byte_of_bits(self.bit_buffer, n, 0);
                assert(b.skip(0) =~= b);
                lemma_bits_of_skip8(self.bit_buffer, n);
                lemma_leftover_skip8(b);
                assert(self.out() =~= start_out);
            }
        }
        proof {
            assert(self.buffered().len() < 8);
            assert(leftover(self.buffered()) =~= self.buffered());
        }
        Ok(())
    }

    fn write_bits(&mut self, value: u32, size: u8) -> (r: Result<(), EncodingError>) {
        let ghost old_bits = self.buffered();
        let ghost vbits = value_bits(value, size);
        let ghost written0 = self.w.written();
        let v: u64 = value as u64;
        proof {
            lemma_u64_shr_is_div(v, size as u64);
            lemma_u64_pow2_no_overflow(size as nat);
            lemma_basic_div(v as int, pow2(size as nat) as int);
        }
        let free_bits: i8 = self.free_bits - size as i8;

        if free_bits < 0 {
            let f: u64 = self.free_bits as u64;
            let d: u64 = (-free_bits) as u64;
            let bb = self.bit_buffer;
            let bb1: u64 = (bb << f) | (v >> d);
            proof {
                lemma_overflow_split(bb, f, v, size as u64);
                assert(old_bits + vbits.take(f as int) + vbits.skip(f as int) =~= old_bits + vbits);
                lemma_stream_step(written0, old_bits, vbits, bits_of(bb1, 64), vbits.skip(f as int));
            }
            self.bit_buffer = bb1;
            self.write_bit_buffer()?;
            self.bit_buffer = v;
            self.free_bits = free_bits + BUFFER_SIZE as i8;
            proof {
                assert(self.buffered() =~= vbits.skip(f as int));
            }
        } else {
            let bb = self.bit_buffer;
            let s: u64 = size as u64;
            let bb2: u64 = (bb << s) | v;
            proof {
                lemma_concat_shift(bb, (64 - self.free_bits) as nat, v, s);
                lemma_stream_step(written0, old_bits, vbits, Seq::<bool>::empty(), old_bits + vbits);
            }
            self.free_bits = free_bits;
            self.bit_buffer = bb2;
            proof {
                assert(self.buffered() =~= old_bits + vbits);
            }
        }
        Ok(())
    }
}

/// Every byte of `bb` differs from 0xFF when the word-parallel test finds no 0xFF byte.
proof fn lemma_no_ff_byte(bb: u64, sum: u64, sh: u64)
    requires
        sum == (if bb + 0x0101010101010101 > 0xFFFF_FFFF_FFFF_FFFF {
            (bb + 0x0101010101010101 - 0x1_0000_0000_0000_0000) as u64
        } else {
            (bb + 0x0101010101010101) as u64
        }),
        (bb & 0x8080808080808080 & !sum) == 0,
        sh <= 56,
        sh % 8 == 0,
    ensures
        (bb >> sh) & 0xFF != 0xFF,
        (bb >> sh) & 0xFF <= 0xFF,
{
    assert((bb >> sh) & 0xFF <= 0xFF) by (bit_vector);
    assert(sum == (if bb + 0x0101010101010101 > 0xFFFF_FFFF_FFFF_FFFF {
        (bb + 0x0101010101010101 - 0x1_0000_0000_0000_0000) as u64
    } else {
        (bb + 0x0101010101010101) as u64
    }) && (bb & 0x8080808080808080 & !sum) == 0 && sh <= 56 && sh % 8 == 0 ==> (bb >> sh) & 0xFF
        != 0xFF) by (bit_vector);
}

/// When the new bits do not fit, the full buffer holds the old bits and the
/// first `f` new bits; the remaining new bits are the low bits of the value.
proof fn lemma_overflow_split(bb: u64, f: u64, v: u64, s: u64)
    requires
        f < s <= 32,
        v >> s == 0,
    ensures
        bits_of((bb << f) | (v >> ((s - f) as u64)), 64) =~= bits_of(bb, (64 - f) as nat) + bits_of(
            v,
            s as nat,
        ).take(f as int),
        bits_of(v, (s - f) as nat) =~= bits_of(v, s as nat).skip(f as int),
{
    let d: u64 = (s - f) as u64;
    let bb1 = (bb << f) | (v >> d);
    let n = (64 - f) as nat;
    let full = bits_of(bb1, 64);
    let vbits = bits_of(v, s as nat);
    assert forall|i: int| 0 <= i < 64 implies full[i] == (bits_of(bb, n) + vbits.take(f as int))[i] by {
        if i < n {
            let k: u64 = (n - 1 - i) as u64;
            assert(bb1 == (bb << f) | (v >> d) && d + f == s && v >> s == 0 && s <= 32 && k + f < 64
                ==> (bb1 >> ((k + f) as u64)) & 1 == (bb >> k) & 1) by (bit_vector);
        } else {
            let j: u64 = (63 - i) as u64;
            assert(bb1 == (bb << f) | (v >> d) && d + f == s && v >> s == 0 && s <= 32 && j < f ==> (
            bb1 >> j) & 1 == (v >> ((d + j) as u64)) & 1) by (bit_vector);
        }
    }
}

/// Emitting `full` (a whole number of bytes) and buffering `rest`, where
/// `full + rest` is the old buffer followed by the new bits, keeps the
/// stream's output and leftover bits as the specification says.
proof fn lemma_stream_step(
    written: Seq<u8>,
    old_bits: Seq<bool>,
    vbits: Seq<bool>,
    full: Seq<bool>,
    rest: Seq<bool>,
)
    requires
        full.len() % 8 == 0,
        full + rest == old_bits + vbits,
    ensures
        written + pack(full) + pack(rest) == written + pack(old_bits) + pack(leftover(old_bits) + vbits),
        leftover(rest) == leftover(leftover(old_bits) + vbits),
{
    lemma_pack_append(full, rest);
    lemma_leftover_append(full, rest);
    lemma_pack_append(old_bits, vbits);
    lemma_leftover_append(old_bits, vbits);
    assert(leftover(full) =~= Seq::<bool>::empty());
    assert(Seq::<bool>::empty() + rest =~= rest);
    assert(written + pack(full) + pack(rest) =~= written + (pack(full) + pack(rest)));
    assert(written + pack(old_bits) + pack(leftover(old_bits) + vbits) =~= written + (pack(old_bits)
        + pack(leftover(old_bits) + vbits)));
}


/// `new` is `old` with `bytes` written while every complete byte was handed on.
pub open spec fn wrote_bytes<W: BitStream>(old: W, new: W, bytes: Seq<u8>) -> bool {
    &&& new.inv()
    &&& new.tail() == old.tail()
    &&& old.settled() ==> new.settled() && new.out() == old.out() + bytes
}

/// `new` is `old` with `bits` appended.
pub open spec fn wrote_bits<W: BitStream>(old: W, new: W, bits: Seq<bool>) -> bool {
    &&& new.inv()
    &&& new.out() == old.out() + pack(old.tail() + bits)
    &&& new.tail() == leftover(old.tail() + bits)
}

pub proof fn lemma_wrote_bytes_trans<W: BitStream>(a: W, b: W, c: W, x: Seq<u8>, y: Seq<u8>)
    requires
        wrote_bytes(a, b, x),
        wrote_bytes(b, c, y),
    ensures
        wrote_bytes(a, c, x + y),
{
    if a.settled() {
        assert(c.out() =~= a.out() + (x + y));
    }
}

pub proof fn lemma_wrote_bits_trans<W: BitStream>(a: W, b: W, c: W, x: Seq<bool>, y: Seq<bool>)
    requires
        wrote_bits(a, b, x),
        wrote_bits(b, c, y),
    ensures
        wrote_bits(a, c, x + y),
{
    lemma_pack_append(a.tail() + x, y);
    lemma_leftover_append(a.tail() + x, y);
    assert(a.tail() + x + y =~= a.tail() + (x + y));
    assert(c.out() =~= a.out() + pack(a.tail() + (x + y)));
}

pub proof fn lemma_wrote_nothing<W: BitStream>(a: W)
    requires
        a.inv(),
    ensures
        wrote_bits(a, a, Seq::<bool>::empty()),
{
    a.lemma_tail_short();
    assert(a.tail() + Seq::<bool>::empty() =~= a.tail());
    assert(pack(a.tail()) =~= Seq::<u8>::empty());
    assert(leftover(a.tail()) =~= a.tail());
    assert(a.out() + pack(a.tail()) =~= a.out());
}

} // verus!

