use vstd::prelude::*;
use crate::bit_stream::BitStream;
use crate::encoder::{
    EncoderState, SamplingFactor, encoded, factors, jpeg_bytes, quality_tables, supported_factors, ac_range,
    lemma_ac_range, Component, components_wf, component_list, image_blocks, image_body, interval_of,
    sequential_units, dc_units, ac_units, sequential_scans, dc_scans, ac_scans_of_range, ac_scans,
    tables_optimized, lemma_component_list_wf,
};
use crate::huffman::{HuffmanTable, ac_bits, lemma_same_lookup};
use crate::image_buffer::ImageBuffer;
use crate::marker::Marker;
use crate::quantization::{QuantizationTable, QuantizationTableType, lemma_table_determined};
use crate::writer::marker_bytes;

verus! {

/// Two encoder states with the same settings, whatever their streams.
pub open spec fn same_settings<W1: BitStream, W2: BitStream>(a: EncoderState<W1>, b: EncoderState<W2>) -> bool {
    &&& a.density == b.density
    &&& a.quality == b.quality
    &&& a.components == b.components
    &&& a.quantization_tables == b.quantization_tables
    &&& a.huffman_tables == b.huffman_tables
    &&& a.sampling_factor == b.sampling_factor
    &&& a.progressive_scans == b.progressive_scans
    &&& a.restart_interval == b.restart_interval
    &&& a.optimize_huffman_table == b.optimize_huffman_table
    &&& a.app_segments == b.app_segments
}

/// The quantization tables of a setting are unique: the table types and
/// the quality fix every divisor, and the divisors fix the table.
pub proof fn lemma_quality_tables_unique(
    q1: [QuantizationTable; 2],
    q2: [QuantizationTable; 2],
    types: [QuantizationTableType; 2],
    quality: u8,
)
    requires
        quality_tables(q1, types, quality),
        quality_tables(q2, types, quality),
    ensures
        q1 == q2,
{
    lemma_table_determined(q1[0], q2[0]);
    lemma_table_determined(q1[1], q2[1]);
    assert(q1 =~= q2);
}

/// The JPEG file of an image depends on the settings only, not on the bit
/// stream that takes it.
pub proof fn lemma_jpeg_bytes_stream_free<I: ImageBuffer, W1: BitStream, W2: BitStream>(
    image: &I,
    st1: EncoderState<W1>,
    st2: EncoderState<W2>,
    q: [QuantizationTable; 2],
    tables: [(HuffmanTable, HuffmanTable); 2],
)
    requires
        same_settings(st1, st2),
    ensures
        jpeg_bytes(image, st1, q, tables) == jpeg_bytes(image, st2, q, tables),
{
}

/// Two tables that code alike: the same code lengths and the same symbols.
pub open spec fn same_code(a: HuffmanTable, b: HuffmanTable) -> bool {
    a.lengths() == b.lengths() && a.symbols() == b.symbols()
}

/// Both table slots code alike.
pub open spec fn same_codes(a: [(HuffmanTable, HuffmanTable); 2], b: [(HuffmanTable, HuffmanTable); 2]) -> bool {
    forall|t: int| #![trigger a[t]] 0 <= t < 2 ==> same_code(a[t].0, b[t].0) && same_code(a[t].1, b[t].1)
}

proof fn lemma_ac_bits_same(t1: HuffmanTable, t2: HuffmanTable, coefs: Seq<i16>, z: nat)
    requires
        same_code(t1, t2),
    ensures
        ac_bits(t1, coefs, z) == ac_bits(t2, coefs, z),
    decreases coefs.len(),
{
    lemma_same_lookup(t1, t2);
    if coefs.len() > 0 {
        if coefs[0] == 0 {
            lemma_ac_bits_same(t1, t2, coefs.drop_first(), z + 1);
        } else {
            lemma_ac_bits_same(t1, t2, coefs.drop_first(), 0);
        }
    }
}

proof fn lemma_units_same(
    blocks: Seq<Seq<i16>>,
    dc1: HuffmanTable,
    ac1: HuffmanTable,
    dc2: HuffmanTable,
    ac2: HuffmanTable,
    r: nat,
    start: int,
    end: int,
)
    requires
        same_code(dc1, dc2),
        same_code(ac1, ac2),
    ensures
        sequential_units(blocks, dc1, ac1, r) == sequential_units(blocks, dc2, ac2, r),
        dc_units(blocks, dc1, r) == dc_units(blocks, dc2, r),
        ac_units(blocks, ac1, start, end) == ac_units(blocks, ac2, start, end),
{
    lemma_same_lookup(dc1, dc2);
    assert forall|j: int| 0 <= j < blocks.len() implies #[trigger] sequential_units(blocks, dc1, ac1, r)[j]
        == sequential_units(blocks, dc2, ac2, r)[j] by {
        lemma_ac_bits_same(ac1, ac2, blocks[j].subrange(1, 64), 0);
    }
    assert forall|j: int| 0 <= j < blocks.len() implies #[trigger] ac_units(blocks, ac1, start, end)[j]
        == ac_units(blocks, ac2, start, end)[j] by {
        lemma_ac_bits_same(ac1, ac2, blocks[j].subrange(start, end), 0);
    }
    assert(sequential_units(blocks, dc1, ac1, r) =~= sequential_units(blocks, dc2, ac2, r));
    assert(dc_units(blocks, dc1, r) =~= dc_units(blocks, dc2, r));
    assert(ac_units(blocks, ac1, start, end) =~= ac_units(blocks, ac2, start, end));
}

proof fn lemma_scans_same(
    cs: Seq<Component>,
    blocks: Seq<Seq<Seq<i16>>>,
    t1: [(HuffmanTable, HuffmanTable); 2],
    t2: [(HuffmanTable, HuffmanTable); 2],
    r: nat,
    start: int,
    end: int,
    n: nat,
)
    requires
        same_codes(t1, t2),
        components_wf(cs),
        n <= cs.len(),
    ensures
        sequential_scans(cs, blocks, t1, r, n) == sequential_scans(cs, blocks, t2, r, n),
        dc_scans(cs, blocks, t1, r, n) == dc_scans(cs, blocks, t2, r, n),
        ac_scans_of_range(cs, blocks, t1, r, start, end, n) == ac_scans_of_range(cs, blocks, t2, r, start, end, n),
    decreases n,
{
    if n > 0 {
        lemma_scans_same(cs, blocks, t1, t2, r, start, end, (n - 1) as nat);
        let c = cs[n - 1];
        let d = c.dc_huffman_table as int;
        let a = c.ac_huffman_table as int;
        assert(same_code(t1[d].0, t2[d].0));
        assert(same_code(t1[a].1, t2[a].1));
        lemma_units_same(blocks[n - 1], t1[d].0, t1[a].1, t2[d].0, t2[a].1, r, start, end);
    }
}

proof fn lemma_ac_scans_same(
    cs: Seq<Component>,
    blocks: Seq<Seq<Seq<i16>>>,
    t1: [(HuffmanTable, HuffmanTable); 2],
    t2: [(HuffmanTable, HuffmanTable); 2],
    r: nat,
    num_ac_scans: int,
    s: nat,
)
    requires
        same_codes(t1, t2),
        components_wf(cs),
    ensures
        ac_scans(cs, blocks, t1, r, num_ac_scans, s) == ac_scans(cs, blocks, t2, r, num_ac_scans, s),
    decreases s,
{
    if s > 0 {
        lemma_ac_scans_same(cs, blocks, t1, t2, r, num_ac_scans, (s - 1) as nat);
        let (start, end) = ac_range(num_ac_scans, s - 1);
        lemma_scans_same(cs, blocks, t1, t2, r, start, end, cs.len());
    }
}

/// Without the interleaved scan, the frame and scans depend on the Huffman
/// tables only through their code lengths and symbols.
proof fn lemma_image_body_same<I: ImageBuffer, W: BitStream>(
    image: &I,
    st: EncoderState<W>,
    cs: Seq<Component>,
    q: [QuantizationTable; 2],
    t1: [(HuffmanTable, HuffmanTable); 2],
    t2: [(HuffmanTable, HuffmanTable); 2],
)
    requires
        same_codes(t1, t2),
        components_wf(cs),
        st.optimize_huffman_table,
    ensures
        image_body(image, st, cs, q, t1) == image_body(image, st, cs, q, t2),
{
    let r = interval_of(st.restart_interval);
    let blocks = image_blocks(image, cs, q);
    assert(same_code(t1[0].0, t2[0].0) && same_code(t1[0].1, t2[0].1));
    assert(same_code(t1[1].0, t2[1].0) && same_code(t1[1].1, t2[1].1));
    lemma_scans_same(cs, blocks, t1, t2, r, 0, 0, cs.len());
    match st.progressive_scans {
        Some(scans) => {
            lemma_ac_scans_same(cs, blocks, t1, t2, r, scans - 1, (scans - 1) as nat);
        },
        None => {},
    }
}

/// Tables optimized from the same settings' tables for the same blocks code
/// alike.
proof fn lemma_optimized_tables_same(
    before: [(HuffmanTable, HuffmanTable); 2],
    a1: [(HuffmanTable, HuffmanTable); 2],
    a2: [(HuffmanTable, HuffmanTable); 2],
    cs: Seq<Component>,
    blocks: Seq<Seq<Seq<i16>>>,
    scans: Option<u8>,
)
    requires
        tables_optimized(before, a1, cs, blocks, scans),
        tables_optimized(before, a2, cs, blocks, scans),
    ensures
        same_codes(a1, a2),
{
    assert forall|t: int| 0 <= t < 2 implies same_code(#[trigger] a1[t].0, a2[t].0) && same_code(a1[t].1, a2[t].1) by {
        assert(a2[t] == a2[t]);
    }
}

/// Encoding writes the same bytes whatever bit stream takes them: two
/// encodings of one image under the same settings append the same bytes to
/// their streams. Without optimization both keep the settings' Huffman
/// tables (as `encode` states); with it, both get tables with the code
/// lengths and symbols built from the same symbol counts.
pub proof fn lemma_output_independent_of_stream<I: ImageBuffer, W1: BitStream, W2: BitStream>(
    image: &I,
    before1: EncoderState<W1>,
    after1: EncoderState<W1>,
    before2: EncoderState<W2>,
    after2: EncoderState<W2>,
)
    requires
        encoded(image, before1, after1),
        encoded(image, before2, after2),
        same_settings(before1, before2),
        !before1.optimize_huffman_table ==> after1.huffman_tables == before1.huffman_tables,
        !before2.optimize_huffman_table ==> after2.huffman_tables == before2.huffman_tables,
    ensures
        after1.stream.out().skip(before1.stream.out().len() as int) == after2.stream.out().skip(
            before2.stream.out().len() as int,
        ),
{
    reveal(encoded);
    let cs = component_list(before1.sampling_factor, image.spec_color_type());
    let q1 = choose|q: [QuantizationTable; 2]|
        #[trigger] quality_tables(q, before1.quantization_tables, before1.quality) && {
            &&& after1.stream.out() == before1.stream.out() + jpeg_bytes(image, before1, q, after1.huffman_tables)
            &&& before1.optimize_huffman_table ==> tables_optimized(
                before1.huffman_tables,
                after1.huffman_tables,
                cs,
                image_blocks(image, cs, q),
                before1.progressive_scans,
            )
        };
    let q2 = choose|q: [QuantizationTable; 2]|
        #[trigger] quality_tables(q, before2.quantization_tables, before2.quality) && {
            &&& after2.stream.out() == before2.stream.out() + jpeg_bytes(image, before2, q, after2.huffman_tables)
            &&& before2.optimize_huffman_table ==> tables_optimized(
                before2.huffman_tables,
                after2.huffman_tables,
                cs,
                image_blocks(image, cs, q),
                before2.progressive_scans,
            )
        };
    lemma_quality_tables_unique(q1, q2, before1.quantization_tables, before1.quality);
    let a1 = after1.huffman_tables;
    let a2 = after2.huffman_tables;
    if before1.optimize_huffman_table {
        lemma_component_list_wf(before1.sampling_factor, image.spec_color_type());
        lemma_optimized_tables_same(
            before1.huffman_tables,
            a1,
            a2,
            cs,
            image_blocks(image, cs, q1),
            before1.progressive_scans,
        );
        lemma_image_body_same(image, before1, cs, q1, a1, a2);
        lemma_jpeg_bytes_stream_free(image, before1, before2, q1, a2);
    } else {
        lemma_jpeg_bytes_stream_free(image, before1, before2, q1, a1);
    }
    let body = jpeg_bytes(image, before2, q1, a2);
    assert(after1.stream.out().skip(before1.stream.out().len() as int) =~= body);
    assert(after2.stream.out().skip(before2.stream.out().len() as int) =~= body);
}

/// Every JPEG file the encoder writes starts with the start-of-image marker
/// and ends with the end-of-image marker.
pub proof fn lemma_jpeg_framing<I: ImageBuffer, W: BitStream>(
    image: &I,
    st: EncoderState<W>,
    q: [QuantizationTable; 2],
    tables: [(HuffmanTable, HuffmanTable); 2],
)
    ensures
        jpeg_bytes(image, st, q, tables).len() >= 4,
        jpeg_bytes(image, st, q, tables).take(2) == seq![0xFFu8, 0xD8],
        jpeg_bytes(image, st, q, tables).skip(jpeg_bytes(image, st, q, tables).len() - 2) == seq![0xFFu8, 0xD9],
{
    let bytes = jpeg_bytes(image, st, q, tables);
    let soi = marker_bytes(Marker::SOI);
    let eoi = marker_bytes(Marker::EOI);
    assert(bytes.take(2) =~= soi);
    assert(bytes.skip(bytes.len() - 2) =~= eoi);
}

/// Every sampling factor has factors that `from_factors` supports, so
/// `from_factors` gives a variant for them (with those factors back).
pub proof fn lemma_factors_supported(f: SamplingFactor)
    ensures
        supported_factors(factors(f).0, factors(f).1),
{
}

/// The AC scans of a progressive image cover the coefficients 1..=63 with
/// consecutive, non-empty ranges: the first starts at 1, each starts where
/// the one before ended, and the last ends at 64 (it takes what rounding left).
pub proof fn lemma_ac_ranges_partition(ac_scans: int)
    requires
        1 <= ac_scans <= 63,
    ensures
        ac_range(ac_scans, 0).0 == 1,
        ac_range(ac_scans, ac_scans - 1).1 == 64,
        forall|s: int| 0 <= s < ac_scans - 1 ==> #[trigger] ac_range(ac_scans, s).1 == ac_range(ac_scans, s + 1).0,
        forall|s: int| 0 <= s < ac_scans ==> 1 <= #[trigger] ac_range(ac_scans, s).0 < ac_range(ac_scans, s).1 <= 64,
{
    lemma_ac_range(ac_scans, 0);
    lemma_ac_range(ac_scans, ac_scans - 1);
    assert forall|s: int| 0 <= s < ac_scans - 1 implies #[trigger] ac_range(ac_scans, s).1 == ac_range(ac_scans, s + 1).0 by {
        lemma_ac_range(ac_scans, s + 1);
    }
    assert forall|s: int| 0 <= s < ac_scans implies 1 <= #[trigger] ac_range(ac_scans, s).0 < ac_range(ac_scans, s).1 <= 64 by {
        lemma_ac_range(ac_scans, s);
    }
}

} // verus!
