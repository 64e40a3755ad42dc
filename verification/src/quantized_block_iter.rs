use core::marker::PhantomData;
use vstd::prelude::*;
use crate::encoder::{
    AlignedBlock, component_blocks, Component, allocate_component_vecs, get_block, get_max_sampling_size, num_components,
    block_samples, block_in_bounds, coded_block, plane, ceil_div, components_wf, max_h_factor, max_v_factor,
    h_scale, v_scale, component_cols, component_rows, image_block, lemma_block_from_plane,
    lemma_max_factor_choices, lemma_max_sampling_bounds, fill_rows,
};
use crate::fdct::FDCT;
use crate::image_buffer::ImageBuffer;
use crate::quantization::{BlockQuantizer, QuantizationTable};
use vstd::arithmetic::div_mod::lemma_fundamental_div_mod_converse;

verus! {

/// The block geometry for one dimension: with factors 1, 2 or 4 the scale
/// divides the largest factor, so the blocks of every component fit in the
/// padded buffer of `ceil(len / (8 * max)) * max` blocks.
pub proof fn lemma_block_geometry(len: int, max_f: int, f: int)
    requires
        len > 0,
        max_f == 1 || max_f == 2 || max_f == 4,
        f == 1 || f == 2 || f == 4,
        f <= max_f,
    ensures
        max_f / f >= 1,
        (max_f / f) * f == max_f,
        ceil_div(ceil_div(len, 8), max_f / f) >= 1,
        ceil_div(ceil_div(len, 8), max_f / f) * (max_f / f) <= ceil_div(len, 8 * max_f) * max_f,
        ceil_div(len, 8 * max_f) * max_f * 8 >= len,
{
    let a = ceil_div(len, 8);
    assert(a >= 1 && a * 8 >= len);
    if max_f == 1 {
        assert(ceil_div(len, 8) * 1 * 8 >= len);
    } else if max_f == 2 {
        let b = ceil_div(len, 16);
        assert(b * 16 >= len);
        assert(b * 2 >= a);
        if f == 1 {
            assert(ceil_div(a, 2) * 2 <= b * 2);
        }
    } else {
        let b = ceil_div(len, 32);
        assert(b * 32 >= len);
        assert(b * 4 >= a);
        if f == 1 {
            assert(ceil_div(a, 4) * 4 <= b * 4);
        } else if f == 2 {
            assert(ceil_div(a, 2) * 2 <= b * 4);
        }
    }
}

/// Yields the quantized blocks of one component, row by row, computing
/// each block when it is asked for.
pub struct QBlockComponentIter<'a, F: FDCT, Q: BlockQuantizer> {
    rows: Vec<u8>,
    q_table: &'a QuantizationTable,
    h_scale: usize,
    v_scale: usize,
    buffer_width: usize,
    i: usize,
    num_cols: usize,
    num_rows: usize,
    next_index: usize,
    _op: PhantomData<(F, Q)>,
}

impl<'a, F: FDCT, Q: BlockQuantizer> QBlockComponentIter<'a, F, Q> {
    /// The samples of the component, `buffer_width` per row.
    pub closed spec fn spec_rows(&self) -> Seq<u8> {
        self.rows@
    }

    pub closed spec fn spec_q_table(&self) -> QuantizationTable {
        *self.q_table
    }

    pub closed spec fn spec_h_scale(&self) -> usize {
        self.h_scale
    }

    pub closed spec fn spec_v_scale(&self) -> usize {
        self.v_scale
    }

    pub closed spec fn spec_buffer_width(&self) -> usize {
        self.buffer_width
    }

    pub closed spec fn spec_component(&self) -> usize {
        self.i
    }

    pub closed spec fn spec_num_cols(&self) -> usize {
        self.num_cols
    }

    pub closed spec fn spec_num_rows(&self) -> usize {
        self.num_rows
    }

    /// The index of the next block to yield.
    pub closed spec fn spec_next_index(&self) -> usize {
        self.next_index
    }

    /// Every block of the grid lies within the rows.
    pub open spec fn wf(&self) -> bool {
        &&& self.spec_h_scale() >= 1
        &&& self.spec_v_scale() >= 1
        &&& self.spec_buffer_width() > 0
        &&& self.spec_num_cols() * 8 * self.spec_h_scale() <= self.spec_buffer_width()
        &&& (self.spec_num_rows() * 8 * self.spec_v_scale()) * self.spec_buffer_width() <= self.spec_rows().len()
        &&& self.spec_next_index() <= self.spec_num_cols() * self.spec_num_rows()
        &&& self.spec_rows().len() <= usize::MAX
    }

    /// The block at (`block_x`, `block_y`): its samples transformed and quantized.
    pub open spec fn block_at(&self, block_x: int, block_y: int) -> Seq<i16> {
        coded_block(
            block_samples(
                self.spec_rows(),
                block_x * 8 * self.spec_h_scale(),
                block_y * 8 * self.spec_v_scale(),
                self.spec_h_scale() as int,
                self.spec_v_scale() as int,
                self.spec_buffer_width() as int,
            ),
            self.spec_q_table(),
        )
    }

    /// Transforms and quantizes the block at (`block_x`, `block_y`).
    pub fn eval(&mut self, block_x: usize, block_y: usize) -> (q_block: AlignedBlock)
        requires
            block_x * 8 <= usize::MAX,
            block_y * 8 <= usize::MAX,
            block_x * 8 * old(self).spec_h_scale() <= usize::MAX,
            block_y * 8 * old(self).spec_v_scale() <= usize::MAX,
            block_in_bounds(
                old(self).spec_rows().len() as int,
                block_x * 8 * old(self).spec_h_scale(),
                block_y * 8 * old(self).spec_v_scale(),
                old(self).spec_h_scale() as int,
                old(self).spec_v_scale() as int,
                old(self).spec_buffer_width() as int,
            ),
        ensures
            *final(self) == *old(self),
            q_block.data@ == old(self).block_at(block_x as int, block_y as int),
    {
        proof {
            assert(self.rows@.len() == self.rows.len());
        }
        let mut block = get_block(
            self.rows.as_slice(),
            block_x * 8 * self.h_scale,
            block_y * 8 * self.v_scale,
            self.h_scale,
            self.v_scale,
            self.buffer_width,
        );
        F::fdct(&mut block);
        let mut q_block = AlignedBlock::default();
        Q::quantize_block(&block, &mut q_block, self.q_table);
        proof {
            assert(q_block.data@ =~= self.block_at(block_x as int, block_y as int));
        }
        q_block
    }

    pub fn new(
        rows: Vec<u8>,
        q_table: &'a QuantizationTable,
        h_scale: usize,
        v_scale: usize,
        buffer_width: usize,
        i: usize,
        num_cols: usize,
        num_rows: usize,
    ) -> (it: Self)
        ensures
            it.spec_rows() == rows@,
            it.spec_q_table() == *q_table,
            it.spec_h_scale() == h_scale,
            it.spec_v_scale() == v_scale,
            it.spec_buffer_width() == buffer_width,
            it.spec_component() == i,
            it.spec_num_cols() == num_cols,
            it.spec_num_rows() == num_rows,
            it.spec_next_index() == 0,
            it.spec_rows().len() <= usize::MAX,
    {
        proof {
            assert(rows@.len() == rows.len());
        }
        QBlockComponentIter {
            rows,
            q_table,
            h_scale,
            v_scale,
            buffer_width,
            i,
            num_cols,
            num_rows,
            next_index: 0,
            _op: PhantomData,
        }
    }

    /// The next block, row by row, or `None` after the last one.
    pub fn next(&mut self) -> (r: Option<AlignedBlock>)
        requires
            old(self).wf(),
        ensures
            final(self).wf(),
            old(self).spec_next_index() >= old(self).spec_num_cols() * old(self).spec_num_rows() ==> r is None
                && *final(self) == *old(self),
            old(self).spec_next_index() < old(self).spec_num_cols() * old(self).spec_num_rows() ==> {
                &&& r matches Some(b) && b.data@ == old(self).block_at(
                    (old(self).spec_next_index() as int) % (old(self).spec_num_cols() as int),
                    (old(self).spec_next_index() as int) / (old(self).spec_num_cols() as int),
                )
                &&& final(self).spec_next_index() == old(self).spec_next_index() + 1
                &&& final(self).spec_rows() == old(self).spec_rows()
                &&& final(self).spec_q_table() == old(self).spec_q_table()
                &&& final(self).spec_h_scale() == old(self).spec_h_scale()
                &&& final(self).spec_v_scale() == old(self).spec_v_scale()
                &&& final(self).spec_buffer_width() == old(self).spec_buffer_width()
                &&& final(self).spec_component() == old(self).spec_component()
                &&& final(self).spec_num_cols() == old(self).spec_num_cols()
                &&& final(self).spec_num_rows() == old(self).spec_num_rows()
            },
    {
        proof {
            assert(self.num_cols * self.num_rows <= self.rows@.len()) by (nonlinear_arith)
                requires
                    self.num_cols * 8 * self.h_scale <= self.buffer_width,
                    (self.num_rows * 8 * self.v_scale) * self.buffer_width <= self.rows@.len(),
                    self.h_scale >= 1,
                    self.v_scale >= 1,
            {
                assert(self.num_cols <= self.buffer_width);
                assert(self.num_rows <= self.num_rows * 8 * self.v_scale);
                assert(self.num_cols * self.num_rows <= self.buffer_width * (self.num_rows * 8 * self.v_scale));
            }
            assert(self.rows@.len() == self.rows.len());
        }
        if self.next_index >= self.num_cols * self.num_rows {
            return None;
        }
        let index = self.next_index;
        self.next_index += 1;

        proof {
            assert(self.num_cols > 0) by (nonlinear_arith)
                requires
                    index < self.num_cols * self.num_rows,
            ;
        }
        let block_x = index % self.num_cols;
        let block_y = index / self.num_cols;
        proof {
            vstd::arithmetic::div_mod::lemma_fundamental_div_mod(index as int, self.num_cols as int);
            assert(index == block_y * self.num_cols + block_x) by (nonlinear_arith)
                requires
                    index == self.num_cols * block_y + block_x,
            ;
            assert(block_y < self.num_rows) by (nonlinear_arith)
                requires
                    index < self.num_cols * self.num_rows,
                    index == block_y * self.num_cols + block_x,
                    0 <= block_x,
            ;
        }
        proof {
            let hs = self.h_scale as int;
            let vs = self.v_scale as int;
            let bw = self.buffer_width as int;
            assert(0 <= block_x * 8 <= block_x * 8 * hs && (block_x + 1) * 8 * hs <= self.num_cols * 8 * hs) by (nonlinear_arith)
                requires
                    block_x < self.num_cols,
                    hs >= 1,
            ;
            assert(0 <= block_y * 8 <= block_y * 8 * vs && ((block_y + 1) * 8 * vs) * bw <= (self.num_rows * 8 * vs) * bw) by (nonlinear_arith)
                requires
                    block_y < self.num_rows,
                    vs >= 1,
                    bw > 0,
            ;
            assert(block_y * 8 * vs <= (block_y * 8 * vs) * bw <= ((block_y + 1) * 8 * vs) * bw) by (nonlinear_arith)
                requires
                    bw > 0,
                    block_y * 8 * vs >= 0,
                    vs >= 1,
            ;
            assert(block_x * 8 * hs + 8 * hs == (block_x + 1) * 8 * hs) by (nonlinear_arith);
            assert(block_y * 8 * vs + 8 * vs == (block_y + 1) * 8 * vs) by (nonlinear_arith);
            assert((block_y * 8 * vs + 7 * vs) * bw + block_x * 8 * hs + 7 * hs < self.rows@.len()) by (nonlinear_arith)
                requires
                    ((block_y * 8 * vs + 8 * vs) * bw) <= self.rows@.len(),
                    block_x * 8 * hs + 8 * hs <= bw,
                    vs >= 1,
                    hs >= 1,
                    bw > 0,
            ;
            assert(self.rows@.len() == self.rows.len());
            assert(block_x * 8 * hs <= bw && block_y * 8 * vs <= self.rows@.len());
            assert(block_y * 8 * vs + 8 * vs <= (block_y * 8 * vs + 8 * vs) * bw) by (nonlinear_arith)
                requires
                    bw > 0,
                    block_y * 8 * vs >= 0,
                    vs >= 1,
            ;
            assert(block_in_bounds(self.rows@.len() as int, block_x * 8 * hs, block_y * 8 * vs, hs, vs, bw));
        }
        Some(self.eval(block_x, block_y))
    }

    /// The number of blocks left, twice.
    pub fn size_hint(&self) -> (r: (usize, Option<usize>))
        requires
            self.spec_num_cols() * self.spec_num_rows() <= usize::MAX,
            self.spec_next_index() <= self.spec_num_cols() * self.spec_num_rows(),
        ensures
            r == (self.remaining(), Some(self.remaining())),
    {
        let remaining = self.len();
        (remaining, Some(remaining))
    }

    pub open spec fn remaining(&self) -> usize {
        (self.spec_num_cols() * self.spec_num_rows() - self.spec_next_index()) as usize
    }

    /// The number of blocks left.
    pub fn len(&self) -> (n: usize)
        requires
            self.spec_num_cols() * self.spec_num_rows() <= usize::MAX,
            self.spec_next_index() <= self.spec_num_cols() * self.spec_num_rows(),
        ensures
            n == self.remaining(),
    {
        (self.num_cols * self.num_rows) - self.next_index
    }
}

/// The component planes of an image, padded to whole blocks of the
/// largest sampling factors.
pub struct ConvertedImage {
    pub rows: [Vec<u8>; 4],
    buffer_width: usize,
    num_chunk_cols: usize,
    num_chunk_rows: usize,
}

impl ConvertedImage {
    pub closed spec fn spec_rows(&self) -> [Vec<u8>; 4] {
        self.rows
    }

    pub closed spec fn spec_buffer_width(&self) -> usize {
        self.buffer_width
    }

    pub closed spec fn spec_num_chunk_cols(&self) -> usize {
        self.num_chunk_cols
    }

    pub closed spec fn spec_num_chunk_rows(&self) -> usize {
        self.num_chunk_rows
    }
}

/// Converts the whole image to component planes: `ceil(width / (8 *
/// max_h_sampling)) * max_h_sampling` blocks wide and likewise high, the
/// last column and row of the image repeated.
pub fn convert_full_image<I: ImageBuffer>(
    image: &I,
    components: &[Component],
    max_h_sampling: usize,
    max_v_sampling: usize,
) -> (c: ConvertedImage)
    requires
        image.valid(),
        image.spec_width() > 0,
        image.spec_height() > 0,
        max_h_sampling == 1 || max_h_sampling == 2 || max_h_sampling == 4,
        max_v_sampling == 1 || max_v_sampling == 2 || max_v_sampling == 4,
        components@.len() == 1 || components@.len() == 3 || components@.len() == 4,
        components@.len() == num_components(image.spec_color_type()),
    ensures
        c.spec_buffer_width() == ceil_div(image.spec_width() as int, 8 * max_h_sampling) * max_h_sampling * 8,
        c.spec_num_chunk_cols() == ceil_div(image.spec_width() as int, 8),
        c.spec_num_chunk_rows() == ceil_div(image.spec_height() as int, 8),
        forall|k: int|
            0 <= k < 4 ==> #[trigger] c.spec_rows()[k]@ == if k < components@.len() {
                plane(
                    image,
                    k,
                    c.spec_buffer_width() as int,
                    (ceil_div(image.spec_height() as int, 8 * max_v_sampling) * max_v_sampling * 8) * c.spec_buffer_width(),
                )
            } else {
                Seq::<u8>::empty()
            },
{
    let pixel_width = image.width();
    let pixel_height = image.height();
    proof {
        lemma_block_geometry(pixel_width as int, max_h_sampling as int, max_h_sampling as int);
        lemma_block_geometry(pixel_height as int, max_v_sampling as int, max_v_sampling as int);
    }

    // number of 8 chunks rounded up to the sampling on the channel with most subsampling
    let max_num_chunk_cols = div_ceil(pixel_width as usize, 8 * max_h_sampling) * max_h_sampling;
    let max_num_chunk_rows = div_ceil(pixel_height as usize, 8 * max_v_sampling) * max_v_sampling;

    let buffer_width = max_num_chunk_cols * 8;
    let buffer_size = match max_num_chunk_cols.checked_mul(max_num_chunk_rows * 64) {
        Some(size) => size,
        None => 0,
    };

    let mut rows: [Vec<u8>; 4] = allocate_component_vecs(components, buffer_size);
    fill_rows(image, components.len(), 0, max_num_chunk_rows * 8, buffer_width, &mut rows);

    let num_chunk_cols = div_ceil(pixel_width as usize, 8);
    let num_chunk_rows = div_ceil(pixel_height as usize, 8);
    ConvertedImage { rows, buffer_width, num_chunk_cols, num_chunk_rows }
}

/// `a / b`, rounded up.
fn div_ceil(a: usize, b: usize) -> (r: usize)
    requires
        b > 0,
        a + b - 1 <= usize::MAX,
    ensures
        r == ceil_div(a as int, b as int),
{
    (a + (b - 1)) / b
}

/// What `encode_blocks` hands out for component `c`: its plane, table,
/// scales and block grid.
pub open spec fn component_iter<'a, I: ImageBuffer, F: FDCT, Q: BlockQuantizer>(
    image: &I,
    q_tables: &'a [QuantizationTable; 2],
    cs: Seq<Component>,
    c: int,
    it: QBlockComponentIter<'a, F, Q>,
) -> bool {
    let mh = max_h_factor(cs, cs.len()) as int;
    let mv = max_v_factor(cs, cs.len()) as int;
    let bw = ceil_div(image.spec_width() as int, 8 * mh) * mh * 8;
    &&& it.wf()
    &&& it.spec_next_index() == 0
    &&& it.spec_component() == c
    &&& it.spec_buffer_width() == bw
    &&& it.spec_rows() == plane(image, c, bw, (ceil_div(image.spec_height() as int, 8 * mv) * mv * 8) * bw)
    &&& it.spec_q_table() == q_tables[cs[c].quantization_table as int]
    &&& it.spec_h_scale() == h_scale(cs, c)
    &&& it.spec_v_scale() == v_scale(cs, c)
    &&& it.spec_num_cols() == component_cols(image.spec_width() as int, cs, c)
    &&& it.spec_num_rows() == component_rows(image.spec_height() as int, cs, c)
}

/// One block iterator per component.
pub fn encode_blocks<'a, I: ImageBuffer, F: FDCT, Q: BlockQuantizer>(
    image: &I,
    q_tables: &'a [QuantizationTable; 2],
    components: &[Component],
) -> (out: Vec<QBlockComponentIter<'a, F, Q>>)
    requires
        components_wf(components@),
        components@.len() == num_components(image.spec_color_type()),
        image.valid(),
        image.spec_width() > 0,
        image.spec_height() > 0,
    ensures
        out@.len() == components@.len(),
        forall|c: int| 0 <= c < out@.len() ==> component_iter(image, q_tables, components@, c, #[trigger] out@[c]),
{
    let ghost cs = components@;
    let (max_h_sampling, max_v_sampling) = get_max_sampling_size(components);
    proof {
        lemma_max_factor_choices(cs, cs.len());
        lemma_max_sampling_bounds(cs, cs.len());
    }

    let converted_image = convert_full_image::<I>(image, components, max_h_sampling, max_v_sampling);
    let ConvertedImage { rows: all_rows, buffer_width, num_chunk_cols, num_chunk_rows } = converted_image;
    let ghost plane_len = (ceil_div(image.spec_height() as int, 8 * max_v_sampling) * max_v_sampling * 8) * buffer_width;
    let mut all_rows = all_rows;
    proof {
        assert forall|k: int| 0 <= k < cs.len() implies #[trigger] all_rows[k]@ == plane(image, k, buffer_width as int, plane_len) by {
            assert(all_rows[k] == converted_image.spec_rows()[k]);
        }
    }

    let mut out: Vec<QBlockComponentIter<'a, F, Q>> = Vec::new();
    let n = components.len();
    let mut i: usize = 0;
    while i < n
        invariant
            i <= n,
            n == cs.len(),
            cs == components@,
            components_wf(cs),
            image.spec_width() > 0,
            image.spec_height() > 0,
            max_h_sampling == max_h_factor(cs, cs.len()),
            max_v_sampling == max_v_factor(cs, cs.len()),
            max_h_sampling == 1 || max_h_sampling == 2 || max_h_sampling == 4,
            max_v_sampling == 1 || max_v_sampling == 2 || max_v_sampling == 4,
            forall|k: int| 0 <= k < cs.len() ==> #[trigger] cs[k].horizontal_sampling_factor <= max_h_sampling,
            forall|k: int| 0 <= k < cs.len() ==> #[trigger] cs[k].vertical_sampling_factor <= max_v_sampling,
            buffer_width == ceil_div(image.spec_width() as int, 8 * max_h_sampling) * max_h_sampling * 8,
            num_chunk_cols == ceil_div(image.spec_width() as int, 8),
            num_chunk_rows == ceil_div(image.spec_height() as int, 8),
            plane_len == (ceil_div(image.spec_height() as int, 8 * max_v_sampling) * max_v_sampling * 8) * buffer_width,
            forall|k: int| i <= k < cs.len() ==> #[trigger] all_rows[k]@ == plane(image, k, buffer_width as int, plane_len),
            out@.len() == i,
            forall|c: int| 0 <= c < i ==> component_iter(image, q_tables, cs, c, #[trigger] out@[c]),
        decreases n - i,
    {
        let component = &components[i];
        let h_scale = max_h_sampling / component.horizontal_sampling_factor as usize;
        let v_scale = max_v_sampling / component.vertical_sampling_factor as usize;
        proof {
            lemma_block_geometry(image.spec_width() as int, max_h_sampling as int, component.horizontal_sampling_factor as int);
            lemma_block_geometry(image.spec_height() as int, max_v_sampling as int, component.vertical_sampling_factor as int);
        }

        let num_cols = div_ceil(num_chunk_cols, h_scale);
        let num_rows = div_ceil(num_chunk_rows, v_scale);

        let mut rows: Vec<u8> = Vec::new();
        core::mem::swap(&mut all_rows[i], &mut rows);
        proof {
            assert(num_cols * 8 * h_scale <= buffer_width) by (nonlinear_arith)
                requires
                    num_cols * h_scale <= ceil_div(image.spec_width() as int, 8 * max_h_sampling) * max_h_sampling,
                    buffer_width == ceil_div(image.spec_width() as int, 8 * max_h_sampling) * max_h_sampling * 8,
            ;
            assert((num_rows * 8 * v_scale) * buffer_width <= plane_len) by (nonlinear_arith)
                requires
                    num_rows * v_scale <= ceil_div(image.spec_height() as int, 8 * max_v_sampling) * max_v_sampling,
                    plane_len == (ceil_div(image.spec_height() as int, 8 * max_v_sampling) * max_v_sampling * 8) * buffer_width,
                    buffer_width >= 0,
            ;
        }
        out.push(QBlockComponentIter::new(
            rows,
            &q_tables[component.quantization_table as usize],
            h_scale,
            v_scale,
            buffer_width,
            i,
            num_cols,
            num_rows,
        ));
        i += 1;
    }
    out
}

/// The blocks of a fresh iterator from `encode_blocks` are the coded
/// blocks of its component.
pub proof fn lemma_iter_blocks<'a, I: ImageBuffer, F: FDCT, Q: BlockQuantizer>(
    image: &I,
    q_tables: &'a [QuantizationTable; 2],
    cs: Seq<Component>,
    c: int,
    it: QBlockComponentIter<'a, F, Q>,
)
    requires
        0 <= c < cs.len(),
        component_iter(image, q_tables, cs, c, it),
    ensures
        it.spec_num_cols() * it.spec_num_rows() == component_blocks(image, cs, *q_tables, c).len(),
        forall|t: int|
            0 <= t < it.spec_num_cols() * it.spec_num_rows() ==> #[trigger] it.block_at(
                t % (it.spec_num_cols() as int),
                t / (it.spec_num_cols() as int),
            ) == component_blocks(image, cs, *q_tables, c)[t],
{
    let cols = it.spec_num_cols() as int;
    let rows = it.spec_num_rows() as int;
    let hs = it.spec_h_scale() as int;
    let vs = it.spec_v_scale() as int;
    let bw = it.spec_buffer_width() as int;
    let n = it.spec_rows().len() as int;
    assert forall|t: int| 0 <= t < cols * rows implies #[trigger] it.block_at(t % cols, t / cols)
        == component_blocks(image, cs, *q_tables, c)[t] by {
        assert(cols > 0) by (nonlinear_arith)
            requires
                0 <= t < cols * rows,
                cols >= 0,
                rows >= 0,
        ;
        let bx = t % cols;
        let by = t / cols;
        vstd::arithmetic::div_mod::lemma_fundamental_div_mod(t, cols);
        assert(by < rows) by (nonlinear_arith)
            requires
                t < cols * rows,
                t == cols * by + bx,
                0 <= bx,
                cols > 0,
        ;
        assert(by >= 0);
        assert((bx + 1) * 8 * hs <= bw) by (nonlinear_arith)
            requires
                bx < cols,
                cols * 8 * hs <= bw,
                hs >= 1,
        ;
        assert(((by + 1) * 8 * vs) * bw <= n) by (nonlinear_arith)
            requires
                by < rows,
                (rows * 8 * vs) * bw <= n,
                vs >= 1,
                bw > 0,
        ;
        lemma_block_from_plane(image, c, bw, n, bx, by, hs, vs);
    }
}

/// All the blocks an iterator yields from its start, in order.
pub(crate) fn collect_blocks<'a, F: FDCT, Q: BlockQuantizer>(iter: &mut QBlockComponentIter<'a, F, Q>) -> (blocks: Vec<AlignedBlock>)
    requires
        old(iter).wf(),
        old(iter).spec_next_index() == 0,
    ensures
        blocks@.len() == old(iter).spec_num_cols() * old(iter).spec_num_rows(),
        forall|t: int|
            0 <= t < blocks@.len() ==> #[trigger] blocks@[t].data@ == old(iter).block_at(
                t % (old(iter).spec_num_cols() as int),
                t / (old(iter).spec_num_cols() as int),
            ),
{
    let ghost start = *iter;
    let mut blocks: Vec<AlignedBlock> = Vec::new();
    loop
        invariant
            iter.wf(),
            iter.spec_rows() == start.spec_rows(),
            iter.spec_q_table() == start.spec_q_table(),
            iter.spec_h_scale() == start.spec_h_scale(),
            iter.spec_v_scale() == start.spec_v_scale(),
            iter.spec_buffer_width() == start.spec_buffer_width(),
            iter.spec_num_cols() == start.spec_num_cols(),
            iter.spec_num_rows() == start.spec_num_rows(),
            blocks@.len() == iter.spec_next_index(),
            forall|t: int|
                0 <= t < blocks@.len() ==> #[trigger] blocks@[t].data@ == start.block_at(
                    t % (start.spec_num_cols() as int),
                    t / (start.spec_num_cols() as int),
                ),
        ensures
            blocks@.len() == start.spec_num_cols() * start.spec_num_rows(),
            forall|t: int|
                0 <= t < blocks@.len() ==> #[trigger] blocks@[t].data@ == start.block_at(
                    t % (start.spec_num_cols() as int),
                    t / (start.spec_num_cols() as int),
                ),
        decreases start.spec_num_cols() * start.spec_num_rows() - iter.spec_next_index(),
    {
        match iter.next() {
            Some(block) => {
                blocks.push(block);
            },
            None => {
                break;
            },
        }
    }
    blocks
}
/// `heapless::Vec`, a vector with a fixed capacity of `N` items.
#[verifier::external_type_specification]
#[verifier::external_body]
#[verifier::reject_recursive_types(T)]
pub struct ExHeaplessVec<T, const N: usize>(heapless::Vec<T, N>);

/// The lists that a `heapless::Vec` of block lists holds, in order.
pub uninterp spec fn block_lists(v: heapless::Vec<Vec<AlignedBlock>, 4>) -> Seq<Seq<AlignedBlock>>;

/// `heapless::Vec::new`: a vector that holds nothing.
#[verifier::external_body]
pub(crate) fn block_lists_new() -> (v: heapless::Vec<Vec<AlignedBlock>, 4>)
    ensures
        block_lists(v) == Seq::<Seq<AlignedBlock>>::empty(),
{
    heapless::Vec::new()
}

/// `heapless::Vec::len`: the number of lists held, never more than the
/// capacity of four.
#[verifier::external_body]
pub(crate) fn block_lists_len(v: &heapless::Vec<Vec<AlignedBlock>, 4>) -> (n: usize)
    ensures
        n == block_lists(*v).len(),
        n <= 4,
{
    v.len()
}

/// `heapless::Vec::push`: appends `item` when fewer than four lists are
/// held and reports whether it did; when full, nothing changes (the crate
/// hands the item back in its `Err`, which is dropped here).
#[verifier::external_body]
pub(crate) fn block_lists_push(v: &mut heapless::Vec<Vec<AlignedBlock>, 4>, item: Vec<AlignedBlock>) -> (pushed: bool)
    ensures
        pushed == (block_lists(*old(v)).len() < 4),
        pushed ==> block_lists(*final(v)) == block_lists(*old(v)).push(item@),
        !pushed ==> block_lists(*final(v)) == block_lists(*old(v)),
{
    v.push(item).is_ok()
}

/// `heapless::Vec::into_array`: the four lists as an array when exactly
/// four are held, `None` otherwise.
#[verifier::external_body]
pub(crate) fn block_lists_into_array(v: heapless::Vec<Vec<AlignedBlock>, 4>) -> (a: Option<[Vec<AlignedBlock>; 4]>)
    ensures
        a is Some <==> block_lists(v).len() == 4,
        a matches Some(arr) ==> forall|k: int| 0 <= k < 4 ==> #[trigger] arr[k]@ == block_lists(v)[k],
{
    v.into_array::<4>().ok()
}
} // verus!
