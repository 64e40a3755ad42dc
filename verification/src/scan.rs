use vstd::prelude::*;
use vstd::arithmetic::div_mod::{lemma_fundamental_div_mod_converse, lemma_fundamental_div_mod, lemma_mod_pos_bound};
use crate::EncodingError;
use crate::bit_stream::{BitStream, wrote_bits, wrote_bytes};
use crate::coding::{pack, leftover, ones, lemma_pack_append, lemma_leftover_append};
use crate::marker::{Marker, marker_valid};
use crate::writer::{JfifWriter, marker_bytes};

verus! {

/// A restart marker precedes unit `j` of a scan when restarts are on
/// (`r > 0`) and `j` is a positive multiple of the interval.
pub open spec fn restart_before(r: nat, j: int) -> bool {
    r > 0 && j > 0 && j % (r as int) == 0
}

/// The number of the marker before unit `j`: the markers count 0..=7 and wrap.
pub open spec fn restart_number(r: nat, j: int) -> u8 {
    ((j / (r as int) - 1) % 8) as u8
}

/// The output of a scan after its first `n` units: the bytes of the closed
/// restart intervals (each padded with one bits and followed by its
/// marker), and the bits of the open interval.
pub open spec fn scan_state(units: Seq<Seq<bool>>, r: nat, n: nat) -> (Seq<u8>, Seq<bool>)
    decreases n,
{
    if n == 0 {
        (Seq::<u8>::empty(), Seq::<bool>::empty())
    } else {
        let prev = scan_state(units, r, (n - 1) as nat);
        let j = n - 1;
        if restart_before(r, j) {
            (
                prev.0 + pack(prev.1 + ones(7)) + marker_bytes(Marker::RST(restart_number(r, j))),
                units[j],
            )
        } else {
            (prev.0, prev.1 + units[j])
        }
    }
}

/// The bytes of a scan: all its units, with a restart marker every `r`
/// units, the last interval padded with one bits.
pub open spec fn scan_bytes(units: Seq<Seq<bool>>, r: nat) -> Seq<u8> {
    let s = scan_state(units, r, units.len());
    s.0 + pack(s.1 + ones(7))
}

/// The restart counters before unit `j`: `to_go` units remain in the
/// current interval, and `restarts` markers (mod 8) have been written.
pub open spec fn counters_ok(r: nat, j: int, to_go: int, restarts: int) -> bool {
    r > 0 ==> {
        &&& to_go == if j == 0 { r as int } else { r - 1 - (j - 1) % (r as int) }
        &&& restarts == if j == 0 { 0 } else { ((j - 1) / (r as int)) % 8 }
    }
}

/// What a restart check sees, and how the counters move on after a unit.
pub proof fn lemma_counters_step(r: nat, j: int, to_go: int, restarts: int)
    requires
        r > 0,
        j >= 0,
        counters_ok(r, j, to_go, restarts),
    ensures
        0 <= to_go <= r,
        0 <= restarts < 8,
        (to_go == 0) == restart_before(r, j),
        to_go == 0 ==> restarts == restart_number(r, j),
        to_go == 0 ==> counters_ok(r, j + 1, r - 1, (restarts + 1) % 8),
        to_go != 0 ==> counters_ok(r, j + 1, to_go - 1, restarts),
{
    let ri = r as int;
    if j == 0 {
        lemma_fundamental_div_mod_converse(0, ri, 0, 0);
    } else {
        let q = (j - 1) / ri;
        let m = (j - 1) % ri;
        lemma_fundamental_div_mod(j - 1, ri);
        lemma_mod_pos_bound(j - 1, ri);
        assert(j - 1 == q * ri + m) by (nonlinear_arith)
            requires
                j - 1 == ri * q + m,
        ;
        assert(q >= 0) by (nonlinear_arith)
            requires
                j - 1 == q * ri + m,
                0 <= m < ri,
                j >= 1,
        ;
        if m == ri - 1 {
            assert(j == (q + 1) * ri + 0) by (nonlinear_arith)
                requires
                    j - 1 == q * ri + m,
                    m == ri - 1,
            ;
            lemma_fundamental_div_mod_converse(j, ri, q + 1, 0);
        } else {
            assert(j == q * ri + (m + 1)) by (nonlinear_arith)
                requires
                    j - 1 == q * ri + m,
            ;
            lemma_fundamental_div_mod_converse(j, ri, q, m + 1);
        }
    }
}

/// The stream holds the scan so far: `base`, the closed intervals, and
/// the bits of the open one.
pub open spec fn holds_scan<B: BitStream>(s: B, base: Seq<u8>, bytes: Seq<u8>, bits: Seq<bool>) -> bool {
    &&& s.inv()
    &&& s.out() == base + bytes + pack(bits)
    &&& s.tail() == leftover(bits)
}

/// Writing the bits of a unit extends the open interval.
pub proof fn lemma_unit_written<B: BitStream>(a: B, b: B, base: Seq<u8>, bytes: Seq<u8>, bits: Seq<bool>, unit: Seq<bool>)
    requires
        holds_scan(a, base, bytes, bits),
        wrote_bits(a, b, unit),
    ensures
        holds_scan(b, base, bytes, bits + unit),
{
    lemma_pack_append(bits, unit);
    lemma_leftover_append(bits, unit);
    assert(b.out() =~= base + bytes + pack(bits + unit));
}

/// An empty scan.
pub proof fn lemma_scan_start<B: BitStream>(s: B)
    requires
        s.inv(),
        s.tail() == Seq::<bool>::empty(),
    ensures
        holds_scan(s, s.out(), Seq::<u8>::empty(), Seq::<bool>::empty()),
{
    assert(pack(Seq::<bool>::empty()) =~= Seq::<u8>::empty());
    assert(leftover(Seq::<bool>::empty()) =~= Seq::<bool>::empty());
    assert(s.out() + Seq::<u8>::empty() + pack(Seq::<bool>::empty()) =~= s.out());
}

/// Before unit `j` of a scan: when a restart is due, pads the open
/// interval with one bits and writes the next restart marker.
pub(crate) fn restart_if_due<B: BitStream>(
    writer: &mut JfifWriter<B>,
    restart_interval: u16,
    restarts_to_go: u16,
    restarts: u8,
    Ghost(units): Ghost<Seq<Seq<bool>>>,
    Ghost(j): Ghost<int>,
    Ghost(base): Ghost<Seq<u8>>,
) -> (r: Result<(), EncodingError>)
    requires
        0 <= j < units.len(),
        counters_ok(restart_interval as nat, j, restarts_to_go as int, restarts as int),
        holds_scan(old(writer).stream(), base, scan_state(units, restart_interval as nat, j as nat).0,
            scan_state(units, restart_interval as nat, j as nat).1),
    ensures
        B::infallible() ==> r is Ok,
        r is Ok ==> holds_scan(
            final(writer).stream(),
            base,
            scan_state(units, restart_interval as nat, (j + 1) as nat).0,
            if restart_before(restart_interval as nat, j) {
                Seq::<bool>::empty()
            } else {
                scan_state(units, restart_interval as nat, j as nat).1
            },
        ),
        r is Ok ==> (restart_before(restart_interval as nat, j) ==> final(writer).stream().settled()),
{
    let ghost rr = restart_interval as nat;
    let ghost prev = scan_state(units, rr, j as nat);
    proof {
        if restart_interval > 0 {
            lemma_counters_step(rr, j, restarts_to_go as int, restarts as int);
        }
    }
    if restart_interval > 0 && restarts_to_go == 0 {
        let ghost s0 = writer.stream();
        writer.finalize_bit_buffer()?;
        let ghost s1 = writer.stream();
        proof {
            lemma_pack_append(prev.1, ones(7));
            assert(s1.out() =~= base + (prev.0 + pack(prev.1 + ones(7))));
        }
        writer.write_marker(Marker::RST(restarts % 8))?;
        proof {
            assert(restarts % 8 == restarts);
            let s2 = writer.stream();
            assert(s2.out() =~= base + scan_state(units, rr, (j + 1) as nat).0 + pack(Seq::<bool>::empty()));
            assert(leftover(Seq::<bool>::empty()) =~= Seq::<bool>::empty());
        }
    }
    Ok(())
}

/// After the last unit: pads the open interval with one bits.
pub(crate) fn finish_scan<B: BitStream>(
    writer: &mut JfifWriter<B>,
    Ghost(units): Ghost<Seq<Seq<bool>>>,
    Ghost(restart_interval): Ghost<nat>,
    Ghost(base): Ghost<Seq<u8>>,
) -> (r: Result<(), EncodingError>)
    requires
        holds_scan(old(writer).stream(), base, scan_state(units, restart_interval, units.len()).0,
            scan_state(units, restart_interval, units.len()).1),
    ensures
        B::infallible() ==> r is Ok,
        r is Ok ==> final(writer).stream().inv() && final(writer).stream().settled(),
        r is Ok ==> final(writer).stream().tail() == Seq::<bool>::empty(),
        r is Ok ==> final(writer).stream().out() == base + scan_bytes(units, restart_interval),
{
    let ghost s = scan_state(units, restart_interval, units.len());
    let r = writer.finalize_bit_buffer();
    proof {
        lemma_pack_append(s.1, ones(7));
        if r is Ok {
            assert(writer.stream().out() =~= base + scan_bytes(units, restart_interval));
        }
    }
    r
}

} // verus!
