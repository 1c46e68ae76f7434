//! Filling every block of a chunk through its noise sampler: cell column by cell column,
//! each cell from its top layer down, every block of every layer.
use crate::sampler_log::{lemma_requests_push, requests_of, SamplerLog};
use crate::surface::{
    lemma_cells_fit, lemma_layer_bounds, lemma_trunc_div_near, params_ok, shape_ok, trunc_div,
    shape_params, GenerationParams, SamplerReply, SamplerRequest, SamplerShape,
    SurfaceHeightGenerator,
};
use vstd::prelude::*;

verus! {

/// The request that fills block `local` (row, layer, position in the row) of cell `cell`
/// (cell column, cell layer, cell row) of a chunk with parameters `p`: the cell's first
/// sampled block, the block's offset from it, and the block itself.
pub open spec fn fill_request(p: GenerationParams, cell: (int, int, int), local: (int, int, int)) -> SamplerRequest {
    let h = p.horizontal_cell_block_count as int;
    let v = p.vertical_cell_block_count as int;
    let start = (
        (p.start_cell_x + cell.0) * h,
        (p.minimum_cell_y + cell.1) * v,
        (p.start_cell_z + cell.2) * h,
    );
    let block = (
        p.start_block_x + cell.0 * h + local.0,
        (p.minimum_cell_y + cell.1) * v + local.1,
        p.start_block_z + cell.2 * h + local.2,
    );
    SamplerRequest::FillBlock {
        sample_start: (start.0 as i32, start.1 as i32, start.2 as i32),
        offset: ((block.0 - start.0) as i32, (block.1 - start.1) as i32, (block.2 - start.2) as i32),
        block: (block.0 as i32, block.1 as i32, block.2 as i32),
    }
}

/// The parameters a fill can run on, within cell `cell` of a chunk `layers` cell layers high.
pub open spec fn fill_cell_ok(p: GenerationParams, cell: (int, int, int)) -> bool {
    &&& params_ok(p)
    &&& 0 <= cell.0 < p.horizontal_cells
    &&& 0 <= cell.2 < p.horizontal_cells
    &&& 0 <= cell.1 <= 65535
    &&& -128 <= p.minimum_cell_y
}

proof fn lemma_block_fits(p: GenerationParams, cell: (int, int, int), local: (int, int, int))
    requires
        fill_cell_ok(p, cell),
        0 <= local.0 < p.horizontal_cell_block_count,
        0 <= local.1 < p.vertical_cell_block_count,
        0 <= local.2 < p.horizontal_cell_block_count,
    ensures
        ({
            let h = p.horizontal_cell_block_count as int;
            let v = p.vertical_cell_block_count as int;
            &&& 0 <= cell.0 * h + local.0 < 16
            &&& 0 <= cell.2 * h + local.2 < 16
            &&& -32640 <= (p.minimum_cell_y + cell.1) * v <= 16743810
            &&& i32::MIN <= (p.start_cell_x + cell.0) * h <= i32::MAX
            &&& i32::MIN <= (p.start_cell_z + cell.2) * h <= i32::MAX
            &&& -15 <= p.start_block_x - p.start_cell_x * h <= 15
            &&& -15 <= p.start_block_z - p.start_cell_z * h <= 15
            &&& (p.start_cell_x + cell.0) * h == p.start_cell_x * h + cell.0 * h
            &&& (p.start_cell_z + cell.2) * h == p.start_cell_z * h + cell.2 * h
        }),
{
    let h = p.horizontal_cell_block_count as int;
    lemma_cells_fit(h, cell.0, local.0);
    lemma_cells_fit(h, cell.2, local.2);
    lemma_layer_bounds(p.minimum_cell_y + cell.1, p.vertical_cell_block_count as int);
    lemma_trunc_div_near(p.start_block_x as int, h);
    lemma_trunc_div_near(p.start_block_z as int, h);
    assert((p.start_cell_x + cell.0) * h == p.start_cell_x * h + cell.0 * h) by (nonlinear_arith);
    assert((p.start_cell_z + cell.2) * h == p.start_cell_z * h + cell.2 * h) by (nonlinear_arith);
}

/// The requests that fill positions `0..n` of row `lx` of layer `ly` of cell `cell`: for
/// each, the interpolation to it and the fill.
pub open spec fn row_requests(p: GenerationParams, cell: (int, int, int), ly: int, lx: int, n: int) -> Seq<SamplerRequest>
    decreases n,
{
    if n <= 0 {
        Seq::empty()
    } else {
        row_requests(p, cell, ly, lx, n - 1).push(
            SamplerRequest::InterpolateZ {
                local_z: (n - 1) as u8,
                horizontal_cell_block_count: p.horizontal_cell_block_count,
            },
        ).push(fill_request(p, cell, (lx, ly, n - 1)))
    }
}

/// The requests that fill rows `0..n` of layer `ly` of cell `cell`: for each, the
/// interpolation to it and its blocks.
pub open spec fn layer_rows(p: GenerationParams, cell: (int, int, int), ly: int, n: int) -> Seq<SamplerRequest>
    decreases n,
{
    if n <= 0 {
        Seq::empty()
    } else {
        layer_rows(p, cell, ly, n - 1).push(
            SamplerRequest::InterpolateX {
                local_x: (n - 1) as u8,
                horizontal_cell_block_count: p.horizontal_cell_block_count,
            },
        ) + row_requests(p, cell, ly, n - 1, p.horizontal_cell_block_count as int)
    }
}

/// The requests that fill layer `ly` of cell `cell`: the interpolation to it and its rows.
pub open spec fn layer_requests(p: GenerationParams, cell: (int, int, int), ly: int) -> Seq<SamplerRequest> {
    seq![
        SamplerRequest::InterpolateY {
            local_y: ly as u8,
            vertical_cell_block_count: p.vertical_cell_block_count,
        },
    ] + layer_rows(p, cell, ly, p.horizontal_cell_block_count as int)
}

/// The requests that fill the layers of cell `cell` from its top one down to layer `k`.
pub open spec fn cell_layers(p: GenerationParams, cell: (int, int, int), k: int) -> Seq<SamplerRequest>
    decreases p.vertical_cell_block_count - k,
{
    if k < 0 || k >= p.vertical_cell_block_count {
        Seq::empty()
    } else {
        cell_layers(p, cell, k + 1) + layer_requests(p, cell, k)
    }
}

/// The requests that fill cell `cell`: the reading of its corners and its layers, top first.
pub open spec fn cell_requests(p: GenerationParams, cell: (int, int, int)) -> Seq<SamplerRequest> {
    seq![
        SamplerRequest::CellCorners {
            cell_x: cell.0 as u8,
            cell_y: cell.1 as u16,
            cell_z: cell.2 as u8,
        },
    ] + cell_layers(p, cell, 0)
}

/// The requests that fill the cells of cell row `cz` of cell column `cx`, from cell layer
/// `layers - 1` down to layer `k`.
pub open spec fn stack_requests(p: GenerationParams, cx: int, cz: int, layers: int, k: int) -> Seq<SamplerRequest>
    decreases layers - k,
{
    if k < 0 || k >= layers {
        Seq::empty()
    } else {
        stack_requests(p, cx, cz, layers, k + 1) + cell_requests(p, (cx, k, cz))
    }
}

/// The requests that fill cell rows `0..n` of cell column `cx`.
pub open spec fn column_cells(p: GenerationParams, cx: int, layers: int, n: int) -> Seq<SamplerRequest>
    decreases n,
{
    if n <= 0 {
        Seq::empty()
    } else {
        column_cells(p, cx, layers, n - 1) + stack_requests(p, cx, n - 1, layers, 0)
    }
}

/// The requests that fill cell column `cx`: the densities at its end, its cells, and the
/// move to the next column.
pub open spec fn column_requests(p: GenerationParams, cx: int, layers: int) -> Seq<SamplerRequest> {
    seq![SamplerRequest::EndDensity { cell_x: cx as u8 }] + column_cells(
        p,
        cx,
        layers,
        p.horizontal_cells as int,
    ) + seq![SamplerRequest::SwapBuffers]
}

/// The requests that fill cell columns `0..n`.
pub open spec fn columns_requests(p: GenerationParams, layers: int, n: int) -> Seq<SamplerRequest>
    decreases n,
{
    if n <= 0 {
        Seq::empty()
    } else {
        columns_requests(p, layers, n - 1) + column_requests(p, n - 1, layers)
    }
}

/// Every request that filling a chunk with parameters `p`, `layers` cell layers high,
/// makes, in order: the densities at the chunk's start, then each cell column.
pub open spec fn fill_requests(p: GenerationParams, layers: int) -> Seq<SamplerRequest> {
    seq![SamplerRequest::StartDensity] + columns_requests(p, layers, p.horizontal_cells as int)
}

/// Fills row `local_x` of layer `local_y` of cell `cell`.
fn fill_row<F: Fn(SamplerRequest) -> SamplerReply>(
    p: &GenerationParams,
    cell: (u16, u16, u16),
    local_y: u8,
    local_x: u8,
    log: &mut SamplerLog<F>,
)
    requires
        forall|q: SamplerRequest| old(log).sampler().requires((q,)),
        fill_cell_ok(*p, (cell.0 as int, cell.1 as int, cell.2 as int)),
        local_x < p.horizontal_cell_block_count,
        local_y < p.vertical_cell_block_count,
    ensures
        final(log).sampler() == old(log).sampler(),
        requests_of(final(log).entries()) == requests_of(old(log).entries()) + row_requests(
            *p,
            (cell.0 as int, cell.1 as int, cell.2 as int),
            local_y as int,
            local_x as int,
            p.horizontal_cell_block_count as int,
        ),
{
    let ghost c = (cell.0 as int, cell.1 as int, cell.2 as int);
    let h = p.horizontal_cell_block_count;
    let v = p.vertical_cell_block_count;
    let mut local_z: u8 = 0;
    while local_z < h
        invariant
            forall|q: SamplerRequest| log.sampler().requires((q,)),
            log.sampler() == old(log).sampler(),
            fill_cell_ok(*p, c),
            c == (cell.0 as int, cell.1 as int, cell.2 as int),
            h == p.horizontal_cell_block_count,
            v == p.vertical_cell_block_count,
            local_x < h,
            local_y < v,
            local_z <= h,
            requests_of(log.entries()) == requests_of(old(log).entries()) + row_requests(
                *p,
                c,
                local_y as int,
                local_x as int,
                local_z as int,
            ),
        decreases h - local_z,
    {
        proof {
            lemma_block_fits(*p, c, (local_x as int, local_y as int, local_z as int));
        }
        let ghost e0 = log.entries();
        let interpolate = SamplerRequest::InterpolateZ { local_z, horizontal_cell_block_count: h };
        let _ = log.ask(interpolate);
        let hh = h as i32;
        let sample_start_x = (p.start_cell_x + cell.0 as i32) * hh;
        let sample_start_y = (p.minimum_cell_y as i32 + cell.1 as i32) * v as i32;
        let sample_start_z = (p.start_cell_z + cell.2 as i32) * hh;
        let block_x = p.start_block_x + (cell.0 as i32 * hh + local_x as i32);
        let block_y = sample_start_y + local_y as i32;
        let block_z = p.start_block_z + (cell.2 as i32 * hh + local_z as i32);
        let fill = SamplerRequest::FillBlock {
            sample_start: (sample_start_x, sample_start_y, sample_start_z),
            offset: (block_x - sample_start_x, block_y - sample_start_y, block_z - sample_start_z),
            block: (block_x, block_y, block_z),
        };
        let ghost e1 = log.entries();
        let _ = log.ask(fill);
        proof {
            assert(fill == fill_request(*p, c, (local_x as int, local_y as int, local_z as int)));
            lemma_requests_push(e0, e1.last());
            lemma_requests_push(e1, log.entries().last());
            assert(e1 == e0.push(e1.last()));
            assert(log.entries() == e1.push(log.entries().last()));
            let r = row_requests(*p, c, local_y as int, local_x as int, local_z as int);
            assert(row_requests(*p, c, local_y as int, local_x as int, local_z + 1) == r.push(
                interpolate,
            ).push(fill));
            assert(requests_of(old(log).entries()) + r.push(interpolate).push(fill) =~= (
            requests_of(old(log).entries()) + r).push(interpolate).push(fill));
        }
        local_z = local_z + 1;
    }
}

/// Fills layer `local_y` of cell `cell`.
fn fill_layer<F: Fn(SamplerRequest) -> SamplerReply>(
    p: &GenerationParams,
    cell: (u16, u16, u16),
    local_y: u8,
    log: &mut SamplerLog<F>,
)
    requires
        forall|q: SamplerRequest| old(log).sampler().requires((q,)),
        fill_cell_ok(*p, (cell.0 as int, cell.1 as int, cell.2 as int)),
        local_y < p.vertical_cell_block_count,
    ensures
        final(log).sampler() == old(log).sampler(),
        requests_of(final(log).entries()) == requests_of(old(log).entries()) + layer_requests(
            *p,
            (cell.0 as int, cell.1 as int, cell.2 as int),
            local_y as int,
        ),
{
    let ghost c = (cell.0 as int, cell.1 as int, cell.2 as int);
    let h = p.horizontal_cell_block_count;
    let ghost e0 = log.entries();
    let interpolate = SamplerRequest::InterpolateY {
        local_y,
        vertical_cell_block_count: p.vertical_cell_block_count,
    };
    let _ = log.ask(interpolate);
    proof {
        lemma_requests_push(e0, log.entries().last());
        assert(log.entries() == e0.push(log.entries().last()));
    }
    let ghost head = requests_of(e0) + seq![interpolate];
    proof {
        assert(requests_of(log.entries()) =~= head + layer_rows(*p, c, local_y as int, 0));
    }
    let mut local_x: u8 = 0;
    while local_x < h
        invariant
            forall|q: SamplerRequest| log.sampler().requires((q,)),
            log.sampler() == old(log).sampler(),
            fill_cell_ok(*p, c),
            c == (cell.0 as int, cell.1 as int, cell.2 as int),
            h == p.horizontal_cell_block_count,
            local_y < p.vertical_cell_block_count,
            local_x <= h,
            requests_of(log.entries()) == head + layer_rows(*p, c, local_y as int, local_x as int),
        decreases h - local_x,
    {
        let ghost e1 = log.entries();
        let interpolate_x = SamplerRequest::InterpolateX { local_x, horizontal_cell_block_count: h };
        let _ = log.ask(interpolate_x);
        proof {
            lemma_requests_push(e1, log.entries().last());
            assert(log.entries() == e1.push(log.entries().last()));
        }
        fill_row(p, cell, local_y, local_x, log);
        proof {
            let r = layer_rows(*p, c, local_y as int, local_x as int);
            let w = row_requests(*p, c, local_y as int, local_x as int, h as int);
            assert(layer_rows(*p, c, local_y as int, local_x + 1) == r.push(interpolate_x) + w);
            assert((head + r).push(interpolate_x) + w =~= head + (r.push(interpolate_x) + w));
        }
        local_x = local_x + 1;
    }
    proof {
        assert(head + layer_rows(*p, c, local_y as int, h as int) =~= requests_of(e0)
            + layer_requests(*p, c, local_y as int));
    }
}

/// Fills cell `cell`, top layer first.
fn fill_cell<F: Fn(SamplerRequest) -> SamplerReply>(
    p: &GenerationParams,
    cell: (u16, u16, u16),
    log: &mut SamplerLog<F>,
)
    requires
        forall|q: SamplerRequest| old(log).sampler().requires((q,)),
        fill_cell_ok(*p, (cell.0 as int, cell.1 as int, cell.2 as int)),
        cell.0 < 256,
        cell.2 < 256,
    ensures
        final(log).sampler() == old(log).sampler(),
        requests_of(final(log).entries()) == requests_of(old(log).entries()) + cell_requests(
            *p,
            (cell.0 as int, cell.1 as int, cell.2 as int),
        ),
{
    let ghost c = (cell.0 as int, cell.1 as int, cell.2 as int);
    let v = p.vertical_cell_block_count;
    let ghost e0 = log.entries();
    let corners = SamplerRequest::CellCorners {
        cell_x: cell.0 as u8,
        cell_y: cell.1,
        cell_z: cell.2 as u8,
    };
    let _ = log.ask(corners);
    proof {
        lemma_requests_push(e0, log.entries().last());
        assert(log.entries() == e0.push(log.entries().last()));
    }
    let ghost head = requests_of(e0) + seq![corners];
    proof {
        assert(requests_of(log.entries()) =~= head + cell_layers(*p, c, v as int));
    }
    let mut local_y: u8 = v;
    while local_y > 0
        invariant
            forall|q: SamplerRequest| log.sampler().requires((q,)),
            log.sampler() == old(log).sampler(),
            fill_cell_ok(*p, c),
            c == (cell.0 as int, cell.1 as int, cell.2 as int),
            v == p.vertical_cell_block_count,
            local_y <= v,
            requests_of(log.entries()) == head + cell_layers(*p, c, local_y as int),
        decreases local_y,
    {
        local_y = local_y - 1;
        fill_layer(p, cell, local_y, log);
        proof {
            let r = cell_layers(*p, c, local_y + 1);
            let w = layer_requests(*p, c, local_y as int);
            assert(cell_layers(*p, c, local_y as int) == r + w);
            assert(head + r + w =~= head + (r + w));
        }
    }
    proof {
        assert(corners == SamplerRequest::CellCorners {
            cell_x: c.0 as u8,
            cell_y: c.1 as u16,
            cell_z: c.2 as u8,
        });
        assert(head + cell_layers(*p, c, 0) =~= requests_of(e0) + cell_requests(*p, c));
    }
}

/// Fills every cell of cell column `cell_x`, cell row by cell row, each from the top cell
/// layer of `layers` down.
fn fill_cell_column<F: Fn(SamplerRequest) -> SamplerReply>(
    p: &GenerationParams,
    cell_x: u16,
    layers: u16,
    log: &mut SamplerLog<F>,
)
    requires
        forall|q: SamplerRequest| old(log).sampler().requires((q,)),
        params_ok(*p),
        -128 <= p.minimum_cell_y,
        cell_x < p.horizontal_cells,
    ensures
        final(log).sampler() == old(log).sampler(),
        requests_of(final(log).entries()) == requests_of(old(log).entries()) + column_requests(
            *p,
            cell_x as int,
            layers as int,
        ),
{
    let ghost e0 = log.entries();
    let end_density = SamplerRequest::EndDensity { cell_x: cell_x as u8 };
    let _ = log.ask(end_density);
    proof {
        lemma_requests_push(e0, log.entries().last());
        assert(log.entries() == e0.push(log.entries().last()));
    }
    let ghost head = requests_of(e0) + seq![end_density];
    proof {
        assert(requests_of(log.entries()) =~= head + column_cells(*p, cell_x as int, layers as int, 0));
    }
    let mut cell_z: u16 = 0;
    while cell_z < p.horizontal_cells
        invariant
            forall|q: SamplerRequest| log.sampler().requires((q,)),
            log.sampler() == old(log).sampler(),
            params_ok(*p),
            -128 <= p.minimum_cell_y,
            cell_x < p.horizontal_cells,
            cell_z <= p.horizontal_cells,
            requests_of(log.entries()) == head + column_cells(
                *p,
                cell_x as int,
                layers as int,
                cell_z as int,
            ),
        decreases p.horizontal_cells - cell_z,
    {
        let ghost before = column_cells(*p, cell_x as int, layers as int, cell_z as int);
        let mut cell_y: u16 = layers;
        while cell_y > 0
            invariant
                forall|q: SamplerRequest| log.sampler().requires((q,)),
                log.sampler() == old(log).sampler(),
                params_ok(*p),
                -128 <= p.minimum_cell_y,
                cell_x < p.horizontal_cells,
                cell_z < p.horizontal_cells,
                cell_y <= layers,
                requests_of(log.entries()) == head + before + stack_requests(
                    *p,
                    cell_x as int,
                    cell_z as int,
                    layers as int,
                    cell_y as int,
                ),
            decreases cell_y,
        {
            cell_y = cell_y - 1;
            fill_cell(p, (cell_x, cell_y, cell_z), log);
            proof {
                let r = stack_requests(*p, cell_x as int, cell_z as int, layers as int, cell_y + 1);
                let w = cell_requests(*p, (cell_x as int, cell_y as int, cell_z as int));
                assert(stack_requests(*p, cell_x as int, cell_z as int, layers as int, cell_y as int)
                    == r + w);
                assert(head + before + r + w =~= head + before + (r + w));
            }
        }
        proof {
            let w = stack_requests(*p, cell_x as int, cell_z as int, layers as int, 0);
            assert(column_cells(*p, cell_x as int, layers as int, cell_z + 1) == before + w);
            assert(head + before + w =~= head + (before + w));
        }
        cell_z = cell_z + 1;
    }
    let ghost e1 = log.entries();
    let _ = log.ask(SamplerRequest::SwapBuffers);
    proof {
        lemma_requests_push(e1, log.entries().last());
        assert(log.entries() == e1.push(log.entries().last()));
        assert((head + column_cells(*p, cell_x as int, layers as int, p.horizontal_cells as int)).push(
            SamplerRequest::SwapBuffers,
        ) =~= requests_of(e0) + column_requests(*p, cell_x as int, layers as int));
    }
}

/// Fills every block of a chunk: `shape` describes its noise sampler and position, and
/// every request goes to `log`. The requests made are exactly `fill_requests`: every block
/// of every cell of the sampler's whole height is filled once, cell column by cell column,
/// each cell from its top layer down, each through its cell's first sampled block and its
/// offset from it.
pub fn fast_noise<F: Fn(SamplerRequest) -> SamplerReply>(
    shape: &SamplerShape,
    log: &mut SamplerLog<F>,
)
    requires
        forall|q: SamplerRequest| old(log).sampler().requires((q,)),
        shape_ok(*shape),
    ensures
        final(log).sampler() == old(log).sampler(),
        requests_of(final(log).entries()) == requests_of(old(log).entries()) + fill_requests(
            shape_params(*shape),
            (shape.height as int) / (shape.vertical_cell_block_count as int),
        ),
        interpolations_in_cells(
            shape_params(*shape),
            fill_requests(
                shape_params(*shape),
                (shape.height as int) / (shape.vertical_cell_block_count as int),
            ),
        ),
{
    let generator = SurfaceHeightGenerator::new();
    let p = generator.calculate_generation_params(shape);
    let layers = shape.height / (shape.vertical_cell_block_count as u16);
    proof {
        assert(p == shape_params(*shape));
        assert(-128 <= p.minimum_cell_y);
    }
    let ghost e0 = log.entries();
    let _ = log.ask(SamplerRequest::StartDensity);
    proof {
        lemma_requests_push(e0, log.entries().last());
        assert(log.entries() == e0.push(log.entries().last()));
    }
    let ghost head = requests_of(e0) + seq![SamplerRequest::StartDensity];
    proof {
        assert(requests_of(log.entries()) =~= head + columns_requests(p, layers as int, 0));
    }
    let mut cell_x: u16 = 0;
    while cell_x < p.horizontal_cells
        invariant
            forall|q: SamplerRequest| log.sampler().requires((q,)),
            log.sampler() == old(log).sampler(),
            params_ok(p),
            -128 <= p.minimum_cell_y,
            p == shape_params(*shape),
            layers == (shape.height as int) / (shape.vertical_cell_block_count as int),
            cell_x <= p.horizontal_cells,
            requests_of(log.entries()) == head + columns_requests(p, layers as int, cell_x as int),
        decreases p.horizontal_cells - cell_x,
    {
        fill_cell_column(&p, cell_x, layers, log);
        proof {
            let r = columns_requests(p, layers as int, cell_x as int);
            let w = column_requests(p, cell_x as int, layers as int);
            assert(columns_requests(p, layers as int, cell_x + 1) == r + w);
            assert(head + r + w =~= head + (r + w));
        }
        cell_x = cell_x + 1;
    }
    proof {
        assert(head + columns_requests(p, layers as int, p.horizontal_cells as int) =~= requests_of(e0)
            + fill_requests(p, layers as int));
        lemma_fill_interpolations_in_cell(p, layers as int);
    }
}

/// A fill request, if `r` is one, reaches into its cell only: its offset from the cell's
/// first sampled block lies within the cell.
pub open spec fn offset_in_cell(p: GenerationParams, r: SamplerRequest) -> bool {
    match r {
        SamplerRequest::FillBlock { offset, .. } => {
            &&& 0 <= offset.0 < p.horizontal_cell_block_count
            &&& 0 <= offset.1 < p.vertical_cell_block_count
            &&& 0 <= offset.2 < p.horizontal_cell_block_count
        },
        _ => true,
    }
}

/// Every fill request of `s` reaches into its cell only.
pub open spec fn offsets_in_cells(p: GenerationParams, s: Seq<SamplerRequest>) -> bool {
    forall|i: int| 0 <= i < s.len() ==> #[trigger] offset_in_cell(p, s[i])
}

proof fn lemma_offsets_concat(p: GenerationParams, a: Seq<SamplerRequest>, b: Seq<SamplerRequest>)
    requires
        offsets_in_cells(p, a),
        offsets_in_cells(p, b),
    ensures
        offsets_in_cells(p, a + b),
{
    assert forall|i: int| 0 <= i < (a + b).len() implies #[trigger] offset_in_cell(p, (a + b)[i]) by {
        if i < a.len() {
            assert((a + b)[i] == a[i]);
        } else {
            assert((a + b)[i] == b[i - a.len()]);
        }
    }
}

pub(crate) proof fn lemma_trunc_div_exact(a: int, h: int)
    requires
        h > 0,
        a % h == 0,
    ensures
        trunc_div(a, h) * h == a,
{
    vstd::arithmetic::div_mod::lemma_fundamental_div_mod(a, h);
    let q = a / h;
    assert(a == q * h) by (nonlinear_arith)
        requires
            a == h * q + a % h,
            a % h == 0,
    ;
    if a < 0 {
        assert(-a == (-q) * h) by (nonlinear_arith)
            requires
                a == q * h,
        ;
        vstd::arithmetic::div_mod::lemma_fundamental_div_mod_converse(-a, h, -q, 0);
        assert(trunc_div(a, h) == q);
    }
}

proof fn lemma_row_offsets(p: GenerationParams, cell: (int, int, int), ly: int, lx: int, n: int)
    requires
        params_ok(p),
        p.start_cell_x * p.horizontal_cell_block_count == p.start_block_x,
        p.start_cell_z * p.horizontal_cell_block_count == p.start_block_z,
        0 <= lx < p.horizontal_cell_block_count,
        0 <= ly < p.vertical_cell_block_count,
        n <= p.horizontal_cell_block_count,
    ensures
        offsets_in_cells(p, row_requests(p, cell, ly, lx, n)),
    decreases n,
{
    if n > 0 {
        let h = p.horizontal_cell_block_count as int;
        lemma_row_offsets(p, cell, ly, lx, n - 1);
        assert((p.start_cell_x + cell.0) * h == p.start_cell_x * h + cell.0 * h) by (nonlinear_arith);
        assert((p.start_cell_z + cell.2) * h == p.start_cell_z * h + cell.2 * h) by (nonlinear_arith);
        let iz = SamplerRequest::InterpolateZ {
            local_z: (n - 1) as u8,
            horizontal_cell_block_count: p.horizontal_cell_block_count,
        };
        let f = fill_request(p, cell, (lx, ly, n - 1));
        assert(offset_in_cell(p, f));
        let pair = seq![iz, f];
        assert(offsets_in_cells(p, pair)) by {
            assert forall|i: int| 0 <= i < 2 implies #[trigger] offset_in_cell(p, pair[i]) by {
                if i == 1 {
                    assert(pair[i] == f);
                }
            }
        }
        lemma_offsets_concat(p, row_requests(p, cell, ly, lx, n - 1), seq![iz, f]);
        assert(row_requests(p, cell, ly, lx, n) =~= row_requests(p, cell, ly, lx, n - 1) + seq![
            iz,
            f,
        ]);
    }
}

proof fn lemma_layer_offsets(p: GenerationParams, cell: (int, int, int), ly: int, n: int)
    requires
        params_ok(p),
        p.start_cell_x * p.horizontal_cell_block_count == p.start_block_x,
        p.start_cell_z * p.horizontal_cell_block_count == p.start_block_z,
        0 <= ly < p.vertical_cell_block_count,
        n <= p.horizontal_cell_block_count,
    ensures
        offsets_in_cells(p, layer_rows(p, cell, ly, n)),
    decreases n,
{
    if n > 0 {
        lemma_layer_offsets(p, cell, ly, n - 1);
        lemma_row_offsets(p, cell, ly, n - 1, p.horizontal_cell_block_count as int);
        let ix = SamplerRequest::InterpolateX {
            local_x: (n - 1) as u8,
            horizontal_cell_block_count: p.horizontal_cell_block_count,
        };
        assert(offsets_in_cells(p, seq![ix]));
        lemma_offsets_concat(p, layer_rows(p, cell, ly, n - 1), seq![ix]);
        assert(layer_rows(p, cell, ly, n - 1).push(ix) =~= layer_rows(p, cell, ly, n - 1) + seq![ix]);
        lemma_offsets_concat(
            p,
            layer_rows(p, cell, ly, n - 1).push(ix),
            row_requests(p, cell, ly, n - 1, p.horizontal_cell_block_count as int),
        );
    }
}

proof fn lemma_cell_offsets(p: GenerationParams, cell: (int, int, int), k: int)
    requires
        params_ok(p),
        p.start_cell_x * p.horizontal_cell_block_count == p.start_block_x,
        p.start_cell_z * p.horizontal_cell_block_count == p.start_block_z,
    ensures
        offsets_in_cells(p, cell_layers(p, cell, k)),
    decreases p.vertical_cell_block_count - k,
{
    if 0 <= k < p.vertical_cell_block_count {
        lemma_cell_offsets(p, cell, k + 1);
        lemma_layer_offsets(p, cell, k, p.horizontal_cell_block_count as int);
        let iy = SamplerRequest::InterpolateY {
            local_y: k as u8,
            vertical_cell_block_count: p.vertical_cell_block_count,
        };
        assert(offsets_in_cells(p, seq![iy]));
        lemma_offsets_concat(p, seq![iy], layer_rows(p, cell, k, p.horizontal_cell_block_count as int));
        lemma_offsets_concat(p, cell_layers(p, cell, k + 1), layer_requests(p, cell, k));
    }
}

proof fn lemma_stack_offsets(p: GenerationParams, cx: int, cz: int, layers: int, k: int)
    requires
        params_ok(p),
        p.start_cell_x * p.horizontal_cell_block_count == p.start_block_x,
        p.start_cell_z * p.horizontal_cell_block_count == p.start_block_z,
    ensures
        offsets_in_cells(p, stack_requests(p, cx, cz, layers, k)),
    decreases layers - k,
{
    if 0 <= k < layers {
        lemma_stack_offsets(p, cx, cz, layers, k + 1);
        lemma_cell_offsets(p, (cx, k, cz), 0);
        let cc = SamplerRequest::CellCorners { cell_x: cx as u8, cell_y: k as u16, cell_z: cz as u8 };
        assert(offsets_in_cells(p, seq![cc]));
        lemma_offsets_concat(p, seq![cc], cell_layers(p, (cx, k, cz), 0));
        lemma_offsets_concat(p, stack_requests(p, cx, cz, layers, k + 1), cell_requests(p, (cx, k, cz)));
    }
}

proof fn lemma_column_offsets(p: GenerationParams, cx: int, layers: int, n: int)
    requires
        params_ok(p),
        p.start_cell_x * p.horizontal_cell_block_count == p.start_block_x,
        p.start_cell_z * p.horizontal_cell_block_count == p.start_block_z,
    ensures
        offsets_in_cells(p, column_cells(p, cx, layers, n)),
    decreases n,
{
    if n > 0 {
        lemma_column_offsets(p, cx, layers, n - 1);
        lemma_stack_offsets(p, cx, n - 1, layers, 0);
        lemma_offsets_concat(p, column_cells(p, cx, layers, n - 1), stack_requests(p, cx, n - 1, layers, 0));
    }
}

proof fn lemma_columns_offsets(p: GenerationParams, layers: int, n: int)
    requires
        params_ok(p),
        p.start_cell_x * p.horizontal_cell_block_count == p.start_block_x,
        p.start_cell_z * p.horizontal_cell_block_count == p.start_block_z,
    ensures
        offsets_in_cells(p, columns_requests(p, layers, n)),
    decreases n,
{
    if n > 0 {
        lemma_columns_offsets(p, layers, n - 1);
        lemma_column_offsets(p, n - 1, layers, p.horizontal_cells as int);
        let ed = SamplerRequest::EndDensity { cell_x: (n - 1) as u8 };
        let cc = column_cells(p, n - 1, layers, p.horizontal_cells as int);
        assert(offsets_in_cells(p, seq![ed]));
        assert(offsets_in_cells(p, seq![SamplerRequest::SwapBuffers]));
        lemma_offsets_concat(p, seq![ed], cc);
        lemma_offsets_concat(p, seq![ed] + cc, seq![SamplerRequest::SwapBuffers]);
        lemma_offsets_concat(p, columns_requests(p, layers, n - 1), column_requests(p, n - 1, layers));
    }
}

/// For a chunk that starts on a whole cell, as every chunk does when the cell width divides
/// the chunk's, every block `fast_noise` fills is reached from its own cell's first sampled
/// block: its offset lies within the cell.
pub proof fn lemma_fill_offsets_in_cell(p: GenerationParams, layers: int)
    requires
        params_ok(p),
        (p.start_block_x as int) % (p.horizontal_cell_block_count as int) == 0,
        (p.start_block_z as int) % (p.horizontal_cell_block_count as int) == 0,
    ensures
        offsets_in_cells(p, fill_requests(p, layers)),
{
    let h = p.horizontal_cell_block_count as int;
    lemma_trunc_div_exact(p.start_block_x as int, h);
    lemma_trunc_div_exact(p.start_block_z as int, h);
    lemma_columns_offsets(p, layers, p.horizontal_cells as int);
    assert(offsets_in_cells(p, seq![SamplerRequest::StartDensity]));
    lemma_offsets_concat(
        p,
        seq![SamplerRequest::StartDensity],
        columns_requests(p, layers, p.horizontal_cells as int),
    );
}

/// Request `r` fills block `b`.
pub open spec fn fills(r: SamplerRequest, b: (i32, i32, i32)) -> bool {
    match r {
        SamplerRequest::FillBlock { block, .. } => block == b,
        _ => false,
    }
}

/// How many requests of `s` fill block `b`.
pub open spec fn fill_count(s: Seq<SamplerRequest>, b: (i32, i32, i32)) -> int
    decreases s.len(),
{
    if s.len() == 0 {
        0
    } else {
        fill_count(s.drop_last(), b) + if fills(s.last(), b) {
            1int
        } else {
            0int
        }
    }
}

proof fn lemma_fill_count_concat(a: Seq<SamplerRequest>, c: Seq<SamplerRequest>, b: (i32, i32, i32))
    ensures
        fill_count(a + c, b) == fill_count(a, b) + fill_count(c, b),
    decreases c.len(),
{
    if c.len() > 0 {
        lemma_fill_count_concat(a, c.drop_last(), b);
        assert((a + c).drop_last() =~= a + c.drop_last());
        assert((a + c).last() == c.last());
    } else {
        assert(a + c =~= a);
    }
}

proof fn lemma_fill_count_one(r: SamplerRequest, b: (i32, i32, i32))
    ensures
        fill_count(seq![r], b) == if fills(r, b) {
            1int
        } else {
            0int
        },
{
    let one = seq![r];
    assert(one.drop_last() =~= Seq::<SamplerRequest>::empty());
    assert(fill_count(Seq::<SamplerRequest>::empty(), b) == 0);
    assert(one.last() == r);
}

proof fn lemma_row_fills(p: GenerationParams, cell: (int, int, int), ly: int, lx: int, n: int, b: (
    i32,
    i32,
    i32,
))
    requires
        fill_cell_ok(p, cell),
        0 <= lx < p.horizontal_cell_block_count,
        0 <= ly < p.vertical_cell_block_count,
        0 <= n <= p.horizontal_cell_block_count,
    ensures
        fill_count(row_requests(p, cell, ly, lx, n), b) == if b.0 == p.start_block_x + cell.0
            * p.horizontal_cell_block_count + lx && b.1 == (p.minimum_cell_y + cell.1)
            * p.vertical_cell_block_count + ly && p.start_block_z + cell.2
            * p.horizontal_cell_block_count <= b.2 < p.start_block_z + cell.2
            * p.horizontal_cell_block_count + n {
            1int
        } else {
            0int
        },
    decreases n,
{
    if n > 0 {
        lemma_row_fills(p, cell, ly, lx, n - 1, b);
        lemma_block_fits(p, cell, (lx, ly, n - 1));
        let iz = SamplerRequest::InterpolateZ {
            local_z: (n - 1) as u8,
            horizontal_cell_block_count: p.horizontal_cell_block_count,
        };
        let f = fill_request(p, cell, (lx, ly, n - 1));
        lemma_fill_count_one(iz, b);
        lemma_fill_count_one(f, b);
        lemma_fill_count_concat(seq![iz], seq![f], b);
        assert(seq![iz] + seq![f] =~= seq![iz, f]);
        lemma_fill_count_concat(row_requests(p, cell, ly, lx, n - 1), seq![iz, f], b);
        assert(row_requests(p, cell, ly, lx, n) =~= row_requests(p, cell, ly, lx, n - 1) + seq![
            iz,
            f,
        ]);
    } else {
        assert(row_requests(p, cell, ly, lx, n) =~= Seq::<SamplerRequest>::empty());
    }
}

proof fn lemma_layer_fills(p: GenerationParams, cell: (int, int, int), ly: int, n: int, b: (
    i32,
    i32,
    i32,
))
    requires
        fill_cell_ok(p, cell),
        0 <= ly < p.vertical_cell_block_count,
        0 <= n <= p.horizontal_cell_block_count,
    ensures
        fill_count(layer_rows(p, cell, ly, n), b) == if b.1 == (p.minimum_cell_y + cell.1)
            * p.vertical_cell_block_count + ly && p.start_block_x + cell.0
            * p.horizontal_cell_block_count <= b.0 < p.start_block_x + cell.0
            * p.horizontal_cell_block_count + n && p.start_block_z + cell.2
            * p.horizontal_cell_block_count <= b.2 < p.start_block_z + cell.2
            * p.horizontal_cell_block_count + p.horizontal_cell_block_count {
            1int
        } else {
            0int
        },
    decreases n,
{
    if n > 0 {
        lemma_layer_fills(p, cell, ly, n - 1, b);
        lemma_row_fills(p, cell, ly, n - 1, p.horizontal_cell_block_count as int, b);
        let ix = SamplerRequest::InterpolateX {
            local_x: (n - 1) as u8,
            horizontal_cell_block_count: p.horizontal_cell_block_count,
        };
        lemma_fill_count_one(ix, b);
        let prev = layer_rows(p, cell, ly, n - 1);
        assert(prev.push(ix) =~= prev + seq![ix]);
        lemma_fill_count_concat(prev, seq![ix], b);
        lemma_fill_count_concat(
            prev.push(ix),
            row_requests(p, cell, ly, n - 1, p.horizontal_cell_block_count as int),
            b,
        );
    } else {
        assert(layer_rows(p, cell, ly, n) =~= Seq::<SamplerRequest>::empty());
    }
}

proof fn lemma_cell_layers_fills(p: GenerationParams, cell: (int, int, int), k: int, b: (
    i32,
    i32,
    i32,
))
    requires
        fill_cell_ok(p, cell),
        0 <= k <= p.vertical_cell_block_count,
    ensures
        fill_count(cell_layers(p, cell, k), b) == if (p.minimum_cell_y + cell.1)
            * p.vertical_cell_block_count + k <= b.1 < (p.minimum_cell_y + cell.1)
            * p.vertical_cell_block_count + p.vertical_cell_block_count && p.start_block_x
            + cell.0 * p.horizontal_cell_block_count <= b.0 < p.start_block_x + cell.0
            * p.horizontal_cell_block_count + p.horizontal_cell_block_count && p.start_block_z
            + cell.2 * p.horizontal_cell_block_count <= b.2 < p.start_block_z + cell.2
            * p.horizontal_cell_block_count + p.horizontal_cell_block_count {
            1int
        } else {
            0int
        },
    decreases p.vertical_cell_block_count - k,
{
    if k < p.vertical_cell_block_count {
        lemma_cell_layers_fills(p, cell, k + 1, b);
        lemma_layer_fills(p, cell, k, p.horizontal_cell_block_count as int, b);
        let iy = SamplerRequest::InterpolateY {
            local_y: k as u8,
            vertical_cell_block_count: p.vertical_cell_block_count,
        };
        lemma_fill_count_one(iy, b);
        lemma_fill_count_concat(seq![iy], layer_rows(p, cell, k, p.horizontal_cell_block_count as int), b);
        lemma_fill_count_concat(cell_layers(p, cell, k + 1), layer_requests(p, cell, k), b);
    } else {
        assert(cell_layers(p, cell, k) =~= Seq::<SamplerRequest>::empty());
    }
}

proof fn lemma_stack_fills(p: GenerationParams, cx: int, cz: int, layers: int, k: int, b: (
    i32,
    i32,
    i32,
))
    requires
        params_ok(p),
        -128 <= p.minimum_cell_y,
        0 <= cx < p.horizontal_cells,
        0 <= cz < p.horizontal_cells,
        0 <= k <= layers <= 65536,
    ensures
        fill_count(stack_requests(p, cx, cz, layers, k), b) == if (p.minimum_cell_y + k)
            * p.vertical_cell_block_count <= b.1 < (p.minimum_cell_y + layers)
            * p.vertical_cell_block_count && p.start_block_x + cx * p.horizontal_cell_block_count
            <= b.0 < p.start_block_x + cx * p.horizontal_cell_block_count
            + p.horizontal_cell_block_count && p.start_block_z + cz * p.horizontal_cell_block_count
            <= b.2 < p.start_block_z + cz * p.horizontal_cell_block_count
            + p.horizontal_cell_block_count {
            1int
        } else {
            0int
        },
    decreases layers - k,
{
    let v = p.vertical_cell_block_count as int;
    let m = p.minimum_cell_y as int;
    if k < layers {
        lemma_stack_fills(p, cx, cz, layers, k + 1, b);
        lemma_cell_layers_fills(p, (cx, k, cz), 0, b);
        let cc = SamplerRequest::CellCorners { cell_x: cx as u8, cell_y: k as u16, cell_z: cz as u8 };
        lemma_fill_count_one(cc, b);
        lemma_fill_count_concat(seq![cc], cell_layers(p, (cx, k, cz), 0), b);
        lemma_fill_count_concat(stack_requests(p, cx, cz, layers, k + 1), cell_requests(p, (cx, k, cz)), b);
        assert((m + k) * v + v == (m + k + 1) * v) by (nonlinear_arith);
        assert((m + k + 1) * v <= (m + layers) * v) by (nonlinear_arith)
            requires
                k + 1 <= layers,
                v >= 0,
        ;
    } else {
        assert(stack_requests(p, cx, cz, layers, k) =~= Seq::<SamplerRequest>::empty());
    }
}

proof fn lemma_column_fills(p: GenerationParams, cx: int, layers: int, n: int, b: (i32, i32, i32))
    requires
        params_ok(p),
        -128 <= p.minimum_cell_y,
        0 <= cx < p.horizontal_cells,
        0 <= n <= p.horizontal_cells,
        0 <= layers <= 65536,
    ensures
        fill_count(column_cells(p, cx, layers, n), b) == if p.minimum_cell_y
            * p.vertical_cell_block_count <= b.1 < (p.minimum_cell_y + layers)
            * p.vertical_cell_block_count && p.start_block_x + cx * p.horizontal_cell_block_count
            <= b.0 < p.start_block_x + cx * p.horizontal_cell_block_count
            + p.horizontal_cell_block_count && p.start_block_z <= b.2 < p.start_block_z + n
            * p.horizontal_cell_block_count {
            1int
        } else {
            0int
        },
    decreases n,
{
    let h = p.horizontal_cell_block_count as int;
    if n > 0 {
        lemma_column_fills(p, cx, layers, n - 1, b);
        lemma_stack_fills(p, cx, n - 1, layers, 0, b);
        lemma_fill_count_concat(column_cells(p, cx, layers, n - 1), stack_requests(p, cx, n - 1, layers, 0), b);
        assert((n - 1) * h + h == n * h) by (nonlinear_arith);
        assert(0 <= (n - 1) * h) by (nonlinear_arith)
            requires
                n >= 1,
                h >= 0,
        ;
    } else {
        assert(column_cells(p, cx, layers, n) =~= Seq::<SamplerRequest>::empty());
    }
}

proof fn lemma_columns_fills(p: GenerationParams, layers: int, n: int, b: (i32, i32, i32))
    requires
        params_ok(p),
        -128 <= p.minimum_cell_y,
        0 <= n <= p.horizontal_cells,
        0 <= layers <= 65536,
    ensures
        fill_count(columns_requests(p, layers, n), b) == if p.minimum_cell_y
            * p.vertical_cell_block_count <= b.1 < (p.minimum_cell_y + layers)
            * p.vertical_cell_block_count && p.start_block_x <= b.0 < p.start_block_x + n
            * p.horizontal_cell_block_count && p.start_block_z <= b.2 < p.start_block_z
            + p.horizontal_cells * p.horizontal_cell_block_count {
            1int
        } else {
            0int
        },
    decreases n,
{
    let h = p.horizontal_cell_block_count as int;
    if n > 0 {
        lemma_columns_fills(p, layers, n - 1, b);
        lemma_column_fills(p, n - 1, layers, p.horizontal_cells as int, b);
        let ed = SamplerRequest::EndDensity { cell_x: (n - 1) as u8 };
        let cc = column_cells(p, n - 1, layers, p.horizontal_cells as int);
        lemma_fill_count_one(ed, b);
        lemma_fill_count_one(SamplerRequest::SwapBuffers, b);
        lemma_fill_count_concat(seq![ed], cc, b);
        lemma_fill_count_concat(seq![ed] + cc, seq![SamplerRequest::SwapBuffers], b);
        lemma_fill_count_concat(columns_requests(p, layers, n - 1), column_requests(p, n - 1, layers), b);
        assert((n - 1) * h + h == n * h) by (nonlinear_arith);
        assert(0 <= (n - 1) * h) by (nonlinear_arith)
            requires
                n >= 1,
                h >= 0,
        ;
    } else {
        assert(columns_requests(p, layers, n) =~= Seq::<SamplerRequest>::empty());
    }
}

/// `fast_noise` fills every block of the chunk's cells exactly once and no other block:
/// the blocks of the `horizontal_cells` cells on each side, from the lowest cell layer up
/// through `layers` cell layers.
pub proof fn lemma_fill_each_block_once(p: GenerationParams, layers: int, b: (i32, i32, i32))
    requires
        params_ok(p),
        -128 <= p.minimum_cell_y,
        0 <= layers <= 65536,
    ensures
        fill_count(fill_requests(p, layers), b) == if p.start_block_x <= b.0 < p.start_block_x
            + p.horizontal_cells * p.horizontal_cell_block_count && p.minimum_cell_y
            * p.vertical_cell_block_count <= b.1 < (p.minimum_cell_y + layers)
            * p.vertical_cell_block_count && p.start_block_z <= b.2 < p.start_block_z
            + p.horizontal_cells * p.horizontal_cell_block_count {
            1int
        } else {
            0int
        },
{
    lemma_columns_fills(p, layers, p.horizontal_cells as int, b);
    lemma_fill_count_one(SamplerRequest::StartDensity, b);
    lemma_fill_count_concat(
        seq![SamplerRequest::StartDensity],
        columns_requests(p, layers, p.horizontal_cells as int),
        b,
    );
}

/// An interpolation request, if `r` is one, carries the sampler's cell size along its axis
/// (the cell height for `y`, the cell width for `x` and `z`) and a position inside the
/// cell, so that the fraction it interpolates at lies in `[0, 1)`.
pub open spec fn interpolation_in_cell(p: GenerationParams, r: SamplerRequest) -> bool {
    match r {
        SamplerRequest::InterpolateY { local_y, vertical_cell_block_count } => {
            &&& vertical_cell_block_count == p.vertical_cell_block_count
            &&& local_y < vertical_cell_block_count
        },
        SamplerRequest::InterpolateX { local_x, horizontal_cell_block_count } => {
            &&& horizontal_cell_block_count == p.horizontal_cell_block_count
            &&& local_x < horizontal_cell_block_count
        },
        SamplerRequest::InterpolateZ { local_z, horizontal_cell_block_count } => {
            &&& horizontal_cell_block_count == p.horizontal_cell_block_count
            &&& local_z < horizontal_cell_block_count
        },
        _ => true,
    }
}

/// Every interpolation request of `s` stays inside its cell.
pub open spec fn interpolations_in_cells(p: GenerationParams, s: Seq<SamplerRequest>) -> bool {
    forall|i: int| 0 <= i < s.len() ==> #[trigger] interpolation_in_cell(p, s[i])
}

proof fn lemma_interp_concat(p: GenerationParams, a: Seq<SamplerRequest>, b: Seq<SamplerRequest>)
    requires
        interpolations_in_cells(p, a),
        interpolations_in_cells(p, b),
    ensures
        interpolations_in_cells(p, a + b),
{
    assert forall|i: int| 0 <= i < (a + b).len() implies #[trigger] interpolation_in_cell(
        p,
        (a + b)[i],
    ) by {
        if i < a.len() {
            assert((a + b)[i] == a[i]);
        } else {
            assert((a + b)[i] == b[i - a.len()]);
        }
    }
}

proof fn lemma_interp_one(p: GenerationParams, r: SamplerRequest)
    requires
        interpolation_in_cell(p, r),
    ensures
        interpolations_in_cells(p, seq![r]),
{
}

proof fn lemma_row_interp(p: GenerationParams, cell: (int, int, int), ly: int, lx: int, n: int)
    requires
        params_ok(p),
        n <= p.horizontal_cell_block_count,
    ensures
        interpolations_in_cells(p, row_requests(p, cell, ly, lx, n)),
    decreases n,
{
    if n > 0 {
        lemma_row_interp(p, cell, ly, lx, n - 1);
        let iz = SamplerRequest::InterpolateZ {
            local_z: (n - 1) as u8,
            horizontal_cell_block_count: p.horizontal_cell_block_count,
        };
        let f = fill_request(p, cell, (lx, ly, n - 1));
        lemma_interp_one(p, iz);
        lemma_interp_one(p, f);
        lemma_interp_concat(p, seq![iz], seq![f]);
        assert(seq![iz] + seq![f] =~= seq![iz, f]);
        lemma_interp_concat(p, row_requests(p, cell, ly, lx, n - 1), seq![iz, f]);
        assert(row_requests(p, cell, ly, lx, n) =~= row_requests(p, cell, ly, lx, n - 1) + seq![
            iz,
            f,
        ]);
    }
}

proof fn lemma_layer_interp(p: GenerationParams, cell: (int, int, int), ly: int, n: int)
    requires
        params_ok(p),
        n <= p.horizontal_cell_block_count,
    ensures
        interpolations_in_cells(p, layer_rows(p, cell, ly, n)),
    decreases n,
{
    if n > 0 {
        lemma_layer_interp(p, cell, ly, n - 1);
        lemma_row_interp(p, cell, ly, n - 1, p.horizontal_cell_block_count as int);
        let ix = SamplerRequest::InterpolateX {
            local_x: (n - 1) as u8,
            horizontal_cell_block_count: p.horizontal_cell_block_count,
        };
        lemma_interp_one(p, ix);
        let prev = layer_rows(p, cell, ly, n - 1);
        assert(prev.push(ix) =~= prev + seq![ix]);
        lemma_interp_concat(p, prev, seq![ix]);
        lemma_interp_concat(
            p,
            prev.push(ix),
            row_requests(p, cell, ly, n - 1, p.horizontal_cell_block_count as int),
        );
    }
}

proof fn lemma_cell_interp(p: GenerationParams, cell: (int, int, int), k: int)
    requires
        params_ok(p),
    ensures
        interpolations_in_cells(p, cell_layers(p, cell, k)),
    decreases p.vertical_cell_block_count - k,
{
    if 0 <= k < p.vertical_cell_block_count {
        lemma_cell_interp(p, cell, k + 1);
        lemma_layer_interp(p, cell, k, p.horizontal_cell_block_count as int);
        let iy = SamplerRequest::InterpolateY {
            local_y: k as u8,
            vertical_cell_block_count: p.vertical_cell_block_count,
        };
        lemma_interp_one(p, iy);
        lemma_interp_concat(p, seq![iy], layer_rows(p, cell, k, p.horizontal_cell_block_count as int));
        lemma_interp_concat(p, cell_layers(p, cell, k + 1), layer_requests(p, cell, k));
    }
}

proof fn lemma_stack_interp(p: GenerationParams, cx: int, cz: int, layers: int, k: int)
    requires
        params_ok(p),
    ensures
        interpolations_in_cells(p, stack_requests(p, cx, cz, layers, k)),
    decreases layers - k,
{
    if 0 <= k < layers {
        lemma_stack_interp(p, cx, cz, layers, k + 1);
        lemma_cell_interp(p, (cx, k, cz), 0);
        let cc = SamplerRequest::CellCorners { cell_x: cx as u8, cell_y: k as u16, cell_z: cz as u8 };
        lemma_interp_one(p, cc);
        lemma_interp_concat(p, seq![cc], cell_layers(p, (cx, k, cz), 0));
        lemma_interp_concat(p, stack_requests(p, cx, cz, layers, k + 1), cell_requests(p, (cx, k, cz)));
    }
}

proof fn lemma_column_interp(p: GenerationParams, cx: int, layers: int, n: int)
    requires
        params_ok(p),
    ensures
        interpolations_in_cells(p, column_cells(p, cx, layers, n)),
    decreases n,
{
    if n > 0 {
        lemma_column_interp(p, cx, layers, n - 1);
        lemma_stack_interp(p, cx, n - 1, layers, 0);
        lemma_interp_concat(p, column_cells(p, cx, layers, n - 1), stack_requests(p, cx, n - 1, layers, 0));
    }
}

proof fn lemma_columns_interp(p: GenerationParams, layers: int, n: int)
    requires
        params_ok(p),
    ensures
        interpolations_in_cells(p, columns_requests(p, layers, n)),
    decreases n,
{
    if n > 0 {
        lemma_columns_interp(p, layers, n - 1);
        lemma_column_interp(p, n - 1, layers, p.horizontal_cells as int);
        let ed = SamplerRequest::EndDensity { cell_x: (n - 1) as u8 };
        let cc = column_cells(p, n - 1, layers, p.horizontal_cells as int);
        lemma_interp_one(p, ed);
        lemma_interp_one(p, SamplerRequest::SwapBuffers);
        lemma_interp_concat(p, seq![ed], cc);
        lemma_interp_concat(p, seq![ed] + cc, seq![SamplerRequest::SwapBuffers]);
        lemma_interp_concat(p, columns_requests(p, layers, n - 1), column_requests(p, n - 1, layers));
    }
}

/// Every interpolation `fast_noise` asks for stays inside its cell: each carries the
/// sampler's cell size along its axis, the cell height for `y` and the cell width for `x`
/// and `z`, and a position below it, so every interpolation fraction lies in `[0, 1)`.
pub proof fn lemma_fill_interpolations_in_cell(p: GenerationParams, layers: int)
    requires
        params_ok(p),
    ensures
        interpolations_in_cells(p, fill_requests(p, layers)),
{
    lemma_columns_interp(p, layers, p.horizontal_cells as int);
    lemma_interp_one(p, SamplerRequest::StartDensity);
    lemma_interp_concat(
        p,
        seq![SamplerRequest::StartDensity],
        columns_requests(p, layers, p.horizontal_cells as int),
    );
}

} // verus!
