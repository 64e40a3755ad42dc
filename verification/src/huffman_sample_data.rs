use vstd::prelude::*;
use crate::encoder::{
    AlignedBlock, Component, SamplingFactor, init_components, component_list, component_blocks, image_blocks,
    lemma_component_list_wf, quality_tables,
};
use crate::fdct::FDCT;
use crate::huffman::{HuffmanTable, default_tables};
use crate::image_buffer::ImageBuffer;
use crate::quantization::{BlockQuantizer, QuantizationTable, QuantizationTableType};
use crate::quantized_block_iter::{encode_blocks, lemma_iter_blocks, component_iter};

verus! {

/// The blocks of an image, each with what coding it takes, and the Huffman
/// tables to code them with.
#[derive(Debug, PartialEq, Eq)]
pub struct HuffmanSampleDataSet {
    pub huffman_tables: [(HuffmanTable, HuffmanTable); 2],
    pub samples: Vec<HuffmanSampleData>,
}

/// A quantized block, the DC coefficient of the block before it in its
/// component, and the Huffman tables of its component.
#[derive(Debug, PartialEq, Eq)]
pub struct HuffmanSampleData {
    pub block: AlignedBlock,
    pub last_dc: i16,
    pub dc_huffman_table: u8,
    pub ac_huffman_table: u8,
}

/// A sample as plain values: the coefficients, the DC coefficient before
/// them and the two table indices.
pub open spec fn sample_view(s: HuffmanSampleData) -> (Seq<i16>, i16, u8, u8) {
    (s.block.data@, s.last_dc, s.dc_huffman_table, s.ac_huffman_table)
}

/// A list of samples as plain values.
pub open spec fn samples_view(s: Seq<HuffmanSampleData>) -> Seq<(Seq<i16>, i16, u8, u8)> {
    s.map_values(|x: HuffmanSampleData| sample_view(x))
}

/// The samples of one component: its blocks in order, each with the DC
/// coefficient of the block before it (0 for the first).
pub open spec fn component_samples(blocks: Seq<Seq<i16>>, component: Component) -> Seq<(Seq<i16>, i16, u8, u8)> {
    Seq::new(
        blocks.len(),
        |j: int|
            (
                blocks[j],
                if j == 0 {
                    0i16
                } else {
                    blocks[j - 1][0]
                },
                component.dc_huffman_table,
                component.ac_huffman_table,
            ),
    )
}

/// The samples of the first `n` components, one component after the other.
pub open spec fn image_samples(blocks: Seq<Seq<Seq<i16>>>, cs: Seq<Component>, n: nat) -> Seq<(Seq<i16>, i16, u8, u8)>
    decreases n,
{
    if n == 0 {
        Seq::empty()
    } else {
        image_samples(blocks, cs, (n - 1) as nat) + component_samples(blocks[n - 1], cs[n - 1])
    }
}

/// The quantization tables the samples are coded with: the default tables
/// at quality 90.
pub open spec fn sample_q_tables(q: [QuantizationTable; 2]) -> bool {
    quality_tables(q, [QuantizationTableType::Default, QuantizationTableType::Default], 90)
}

impl HuffmanSampleDataSet {
    /// The samples of an image coded with one sample per pixel in every
    /// component and the quantization tables of quality 90, with the
    /// default Huffman tables.
    pub fn from_image<I: ImageBuffer, F: FDCT, Q: BlockQuantizer>(image: &I) -> (ds: Self)
        requires
            image.valid(),
            image.spec_width() > 0,
            image.spec_height() > 0,
        ensures
            default_tables(ds.huffman_tables),
            ({
                let cs = component_list(SamplingFactor::F_1_1, image.spec_color_type());
                exists|q: [QuantizationTable; 2]|
                    #[trigger] sample_q_tables(q) && samples_view(ds.samples@) == image_samples(image_blocks(image, cs, q), cs, cs.len())
            }),
    {
        let q_tables = [
            QuantizationTable::new_with_quality(&QuantizationTableType::Default, 90, true),
            QuantizationTable::new_with_quality(&QuantizationTableType::Default, 90, false),
        ];
        proof {
            assert(sample_q_tables(q_tables));
        }

        let mut components: Vec<Component> = Vec::new();
        init_components(&mut components, SamplingFactor::F_1_1, image.get_jpeg_color_type());
        let ghost cs = components@;
        proof {
            lemma_component_list_wf(SamplingFactor::F_1_1, image.spec_color_type());
            assert(cs =~= component_list(SamplingFactor::F_1_1, image.spec_color_type()));
        }

        let mut iters = encode_blocks::<I, F, Q>(image, &q_tables, components.as_slice());

        let huffman_tables = [
            (HuffmanTable::default_luma_dc(), HuffmanTable::default_luma_ac()),
            (HuffmanTable::default_chroma_dc(), HuffmanTable::default_chroma_ac()),
        ];

        let ghost blocks = image_blocks(image, cs, q_tables);
        let mut samples: Vec<HuffmanSampleData> = Vec::new();
        let n = iters.len();
        let mut k: usize = 0;
        while k < n
            invariant
                k <= n,
                n == cs.len(),
                cs == components@,
                iters@.len() == n - k,
                forall|c: int| 0 <= c < n - k ==> component_iter(image, &q_tables, cs, c + k, #[trigger] iters@[c]),
                blocks == image_blocks(image, cs, q_tables),
                samples_view(samples@) == image_samples(blocks, cs, k as nat),
            decreases n - k,
        {
            let ghost old_iters = iters@;
            let mut it = iters.remove(0);
            proof {
                assert(it == old_iters[0]);
                assert(component_iter(image, &q_tables, cs, 0 + k, old_iters[0]));
                lemma_iter_blocks(image, &q_tables, cs, k as int, it);
                assert forall|c: int| 0 <= c < n - (k + 1) implies component_iter(
                    image,
                    &q_tables,
                    cs,
                    c + (k + 1),
                    #[trigger] iters@[c],
                ) by {
                    assert(iters@[c] == old_iters[c + 1]);
                }
            }
            let component = &components[k];
            let ghost start = it;
            let ghost base = samples_view(samples@);
            let ghost cb = component_blocks(image, cs, q_tables, k as int);
            let ghost total = start.spec_num_cols() * start.spec_num_rows();
            let mut last_dc: i16 = 0;
            loop
                invariant
                    it.wf(),
                    it.spec_rows() == start.spec_rows(),
                    it.spec_q_table() == start.spec_q_table(),
                    it.spec_h_scale() == start.spec_h_scale(),
                    it.spec_v_scale() == start.spec_v_scale(),
                    it.spec_buffer_width() == start.spec_buffer_width(),
                    it.spec_num_cols() == start.spec_num_cols(),
                    it.spec_num_rows() == start.spec_num_rows(),
                    total == start.spec_num_cols() * start.spec_num_rows(),
                    total == cb.len(),
                    forall|t: int|
                        0 <= t < total ==> #[trigger] start.block_at(
                            t % (start.spec_num_cols() as int),
                            t / (start.spec_num_cols() as int),
                        ) == cb[t],
                    samples_view(samples@) == base + component_samples(cb, *component).take(it.spec_next_index() as int),
                    it.spec_next_index() == 0 ==> last_dc == 0,
                    it.spec_next_index() > 0 ==> last_dc == cb[it.spec_next_index() - 1][0],
                ensures
                    samples_view(samples@) == base + component_samples(cb, *component),
                decreases total - it.spec_next_index(),
            {
                let ghost t = it.spec_next_index() as int;
                let ghost it_before = it;
                match it.next() {
                    Some(q_block) => {
                        let ghost before = samples@;
                        let sample = HuffmanSampleData {
                            block: q_block,
                            last_dc,
                            dc_huffman_table: component.dc_huffman_table,
                            ac_huffman_table: component.ac_huffman_table,
                        };
                        let ghost sv = sample_view(sample);
                        samples.push(sample);
                        last_dc = q_block.data[0];
                        proof {
                            let cols = start.spec_num_cols() as int;
                            assert(it_before.block_at(t % cols, t / cols) == start.block_at(t % cols, t / cols));
                            assert(q_block.data@ == cb[t]);
                            assert(sv == component_samples(cb, *component)[t]);
                            assert(samples_view(samples@) =~= samples_view(before).push(sv));
                            assert(component_samples(cb, *component).take(t + 1) =~= component_samples(cb, *component).take(t).push(
                                component_samples(cb, *component)[t],
                            ));
                            assert(samples_view(samples@) =~= base + component_samples(cb, *component).take(t + 1));
                        }
                    },
                    None => {
                        proof {
                            assert(component_samples(cb, *component).take(t) =~= component_samples(cb, *component));
                        }
                        break;
                    },
                }
            }
            proof {
                assert(blocks[k as int] == cb);
                assert(image_samples(blocks, cs, (k + 1) as nat) == image_samples(blocks, cs, k as nat) + component_samples(
                    blocks[k as int],
                    cs[k as int],
                ));
            }
            k += 1;
        }
        HuffmanSampleDataSet { huffman_tables, samples }
    }
}

} // verus!
