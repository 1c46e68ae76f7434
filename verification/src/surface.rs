//! Adaptive surface-height scan of one 16 x 16 chunk.
//!
//! The scan walks the chunk's noise cells column of cells by column of cells, and within
//! a cell from the top layer down, asking a sampler for one block at a time; the first
//! solid block met in a column is that column's surface. Only a band of cells around a
//! running estimate of the surface height is searched. Everything the sampler does (the
//! noise density, its interpolation, and blending two heights with floating point) happens
//! behind the sampler, which is asked through a `SamplerLog` in the fixed order that
//! `scan_requests` lays out.
use crate::sampler_log::{lemma_requests_push, requests_of, SamplerLog};
use crate::scan_requests::{
    after_f, before_f, before_layer, cell_cys, cell_part, cells_from_f, cy_layers, cy_part,
    in_cell_f, in_rows_f, lemma_cell_cys_tail, cells_before_f, x_part, x_cells, lemma_x_cells_tail,
    lemma_scan_xs_tail, reached_cell, scan_requests, scan_xs, starts_on_cell, requests_in_cells,
    lemma_scan_requests_in_cells, extends, grows, in_layer, in_layer_f,
    layer_blocks, layer_part, layer_y, lemma_count_all, lemma_count_at_least, lemma_count_grow,
    lemma_cy_layers_tail, lemma_grows_refl, lemma_grows_trans, lemma_layer_blocks_grow,
    lemma_layer_blocks_push, lemma_layer_blocks_skip, probe_requests, reached,
};
use vstd::prelude::*;

verus! {

/// Blocks along a chunk's side.
pub const CHUNK_DIM: u8 = 16;

/// Columns in a chunk.
pub const CHUNK_COLUMNS: usize = 256;

/// Lowest height searched (the water level).
pub const TERRAIN_MIN_Y: i32 = 63;

/// Highest height searched.
pub const TERRAIN_MAX_Y: i32 = 200;

/// Half-height of the band searched once the estimate has settled.
pub const ADAPTIVE_SEARCH_RANGE: i32 = 5;

/// Surface height assumed before any column has been found.
pub const INITIAL_SURFACE_ESTIMATE: i32 = 75;

/// Half-height of the band searched while the estimate is still settling.
pub const INITIAL_WIDE_SEARCH_RANGE: i32 = 40;

/// Number of surfaces averaged before the estimate switches to a moving blend.
pub const SAMPLES_FOR_CONVERGENCE: usize = 16;

/// Bound on the surface estimate; a blended estimate further out is clamped to it.
pub const ESTIMATE_LIMIT: i32 = 33554432;

/// Lowest block height a scan can reach.
pub const LOWEST_BLOCK_Y: i32 = -32640;

/// Highest block height a scan can reach.
pub const HIGHEST_BLOCK_Y: i32 = 16744065;

/// Rust's integer division, which rounds towards zero.
pub open spec fn trunc_div(a: int, b: int) -> int {
    let m = if b < 0 {
        -b
    } else {
        b
    };
    let q = if a >= 0 {
        a / m
    } else {
        -((-a) / m)
    };
    if b < 0 {
        -q
    } else {
        q
    }
}

/// The settings of the surface search.
pub struct SurfaceHeightGenerator {
    terrain_min_y: i32,
    terrain_max_y: i32,
    adaptive_search_range: i32,
    initial_surface_estimate: i32,
    initial_wide_search_range: i32,
    samples_for_convergence: usize,
}

impl SurfaceHeightGenerator {
    #[verifier::type_invariant]
    spec fn settings_fixed(self) -> bool {
        &&& self.terrain_min_y == TERRAIN_MIN_Y
        &&& self.terrain_max_y == TERRAIN_MAX_Y
        &&& self.adaptive_search_range == ADAPTIVE_SEARCH_RANGE
        &&& self.initial_surface_estimate == INITIAL_SURFACE_ESTIMATE
        &&& self.initial_wide_search_range == INITIAL_WIDE_SEARCH_RANGE
        &&& self.samples_for_convergence == SAMPLES_FOR_CONVERGENCE
    }

    /// The generator with the search settings above.
    pub fn new() -> (g: Self)
        ensures
            g.terrain_min_y() == TERRAIN_MIN_Y,
            g.terrain_max_y() == TERRAIN_MAX_Y,
            g.adaptive_search_range() == ADAPTIVE_SEARCH_RANGE,
            g.initial_surface_estimate() == INITIAL_SURFACE_ESTIMATE,
            g.initial_wide_search_range() == INITIAL_WIDE_SEARCH_RANGE,
            g.samples_for_convergence() == SAMPLES_FOR_CONVERGENCE,
    {
        Self {
            terrain_min_y: TERRAIN_MIN_Y,
            terrain_max_y: TERRAIN_MAX_Y,
            adaptive_search_range: ADAPTIVE_SEARCH_RANGE,
            initial_surface_estimate: INITIAL_SURFACE_ESTIMATE,
            initial_wide_search_range: INITIAL_WIDE_SEARCH_RANGE,
            samples_for_convergence: SAMPLES_FOR_CONVERGENCE,
        }
    }

    pub closed spec fn terrain_min_y(self) -> i32 {
        self.terrain_min_y
    }

    pub closed spec fn terrain_max_y(self) -> i32 {
        self.terrain_max_y
    }

    pub closed spec fn adaptive_search_range(self) -> i32 {
        self.adaptive_search_range
    }

    pub closed spec fn initial_surface_estimate(self) -> i32 {
        self.initial_surface_estimate
    }

    pub closed spec fn initial_wide_search_range(self) -> i32 {
        self.initial_wide_search_range
    }

    pub closed spec fn samples_for_convergence(self) -> usize {
        self.samples_for_convergence
    }
}

} // verus!

verus! {

/// What the scan needs to know of a chunk's noise sampler and position.
#[derive(Debug, Clone, Copy, PartialEq, Eq, Structural)]
pub struct SamplerShape {
    pub horizontal_cell_block_count: u8,
    pub vertical_cell_block_count: u8,
    pub min_y: i8,
    pub height: u16,
    pub start_block_x: i32,
    pub start_block_z: i32,
}

/// A shape the scan can work on without dividing by zero or leaving `i32`.
pub open spec fn shape_ok(s: SamplerShape) -> bool {
    &&& s.horizontal_cell_block_count > 0
    &&& s.vertical_cell_block_count > 0
    &&& !(s.min_y == -128 && s.vertical_cell_block_count == 255)
    &&& i32::MIN + 32 <= s.start_block_x <= i32::MAX - 32
    &&& i32::MIN + 32 <= s.start_block_z <= i32::MAX - 32
}

/// Everything the scan derives from the sampler's shape before it starts.
#[derive(Debug, Clone, Copy, PartialEq, Eq, Structural)]
pub struct GenerationParams {
    pub horizontal_cell_block_count: u8,
    pub vertical_cell_block_count: u8,
    pub horizontal_cells: u16,
    pub min_y: i8,
    pub minimum_cell_y: i8,
    pub start_cell: u16,
    pub end_cell: u16,
    pub start_block_x: i32,
    pub start_block_z: i32,
    pub start_cell_x: i32,
    pub start_cell_z: i32,
}

/// The parameters derived from `shape`, with Rust's rounding and casts.
pub open spec fn params_of(shape: SamplerShape, params: GenerationParams) -> bool {
    let h = shape.horizontal_cell_block_count as int;
    let v = shape.vertical_cell_block_count as int;
    let cell_height = shape.height as int / v;
    &&& params.horizontal_cell_block_count == shape.horizontal_cell_block_count
    &&& params.vertical_cell_block_count == shape.vertical_cell_block_count
    &&& params.horizontal_cells == CHUNK_DIM as int / h
    &&& params.min_y == shape.min_y
    &&& params.minimum_cell_y == trunc_div(
        shape.min_y as int,
        (shape.vertical_cell_block_count as i8) as int,
    )
    &&& params.start_cell == (if trunc_div(TERRAIN_MIN_Y - shape.min_y, v) >= 0 {
        trunc_div(TERRAIN_MIN_Y - shape.min_y, v)
    } else {
        0
    }) as u16
    &&& params.end_cell == (if trunc_div(TERRAIN_MAX_Y - shape.min_y, v) <= cell_height - 1 {
        trunc_div(TERRAIN_MAX_Y - shape.min_y, v)
    } else {
        cell_height - 1
    }) as u16
    &&& params.start_block_x == shape.start_block_x
    &&& params.start_block_z == shape.start_block_z
    &&& params.start_cell_x == trunc_div(shape.start_block_x as int, h)
    &&& params.start_cell_z == trunc_div(shape.start_block_z as int, h)
}

/// The parameters derived from `shape`.
pub open spec fn shape_params(shape: SamplerShape) -> GenerationParams {
    let h = shape.horizontal_cell_block_count as int;
    let v = shape.vertical_cell_block_count as int;
    let cell_height = shape.height as int / v;
    GenerationParams {
        horizontal_cell_block_count: shape.horizontal_cell_block_count,
        vertical_cell_block_count: shape.vertical_cell_block_count,
        horizontal_cells: (CHUNK_DIM as int / h) as u16,
        min_y: shape.min_y,
        minimum_cell_y: trunc_div(
            shape.min_y as int,
            (shape.vertical_cell_block_count as i8) as int,
        ) as i8,
        start_cell: (if trunc_div(TERRAIN_MIN_Y - shape.min_y, v) >= 0 {
            trunc_div(TERRAIN_MIN_Y - shape.min_y, v)
        } else {
            0
        }) as u16,
        end_cell: (if trunc_div(TERRAIN_MAX_Y - shape.min_y, v) <= cell_height - 1 {
            trunc_div(TERRAIN_MAX_Y - shape.min_y, v)
        } else {
            cell_height - 1
        }) as u16,
        start_block_x: shape.start_block_x,
        start_block_z: shape.start_block_z,
        start_cell_x: trunc_div(shape.start_block_x as int, h) as i32,
        start_cell_z: trunc_div(shape.start_block_z as int, h) as i32,
    }
}

proof fn lemma_shape_params(shape: SamplerShape, p: GenerationParams)
    requires
        params_of(shape, p),
    ensures
        p == shape_params(shape),
{
}

/// Parameters the scan loops can run on.
pub open spec fn params_ok(p: GenerationParams) -> bool {
    let h = p.horizontal_cell_block_count as int;
    &&& h > 0
    &&& p.vertical_cell_block_count > 0
    &&& p.horizontal_cells == CHUNK_DIM as int / h
    &&& i32::MIN + 32 <= p.start_block_x <= i32::MAX - 32
    &&& i32::MIN + 32 <= p.start_block_z <= i32::MAX - 32
    &&& p.start_cell_x == trunc_div(p.start_block_x as int, h)
    &&& p.start_cell_z == trunc_div(p.start_block_z as int, h)
}

pub(crate) proof fn lemma_cells_fit(h: int, c: int, l: int)
    requires
        0 < h,
        0 <= c < 16int / h,
        0 <= l < h,
    ensures
        0 <= c * h + l < 16,
        0 <= c * h <= 16 - h,
        h <= 16,
{
    assert(h * (16int / h) <= 16) by (nonlinear_arith)
        requires
            h > 0,
    ;
    assert(c * h <= (16int / h - 1) * h) by (nonlinear_arith)
        requires
            0 <= c <= 16int / h - 1,
            h > 0,
    ;
    assert((16int / h - 1) * h == h * (16int / h) - h) by (nonlinear_arith);
    assert(0 <= c * h) by (nonlinear_arith)
        requires
            c >= 0,
            h > 0,
    ;
}

pub(crate) proof fn lemma_trunc_div_near(a: int, h: int)
    requires
        0 < h <= 16,
    ensures
        a - 15 <= trunc_div(a, h) * h <= a + 15,
{
    if a >= 0 {
        assert(a - h < (a / h) * h <= a) by (nonlinear_arith)
            requires
                a >= 0,
                h > 0,
        {
            vstd::arithmetic::div_mod::lemma_fundamental_div_mod(a, h);
            vstd::arithmetic::div_mod::lemma_mod_bound(a, h);
        }
    } else {
        assert(-a - h < ((-a) / h) * h <= -a) by (nonlinear_arith)
            requires
                -a > 0,
                h > 0,
        {
            vstd::arithmetic::div_mod::lemma_fundamental_div_mod(-a, h);
            vstd::arithmetic::div_mod::lemma_mod_bound(-a, h);
        }
        assert(trunc_div(a, h) * h == -(((-a) / h) * h)) by (nonlinear_arith)
            requires
                trunc_div(a, h) == -((-a) / h),
        ;
    }
}

/// `a / d` as Rust computes it for `i8`, rounding towards zero, with the quotient by a
/// negative divisor taken through its positive counterpart.
fn div_i8(a: i8, d: i8) -> (q: i8)
    requires
        d != 0,
        !(a == -128 && d == -1),
    ensures
        q == trunc_div(a as int, d as int),
{
    if d > 0 {
        a / d
    } else {
        let positive = -(d as i32);
        let q = (a as i32) / positive;
        proof {
            if a >= 0 {
                assert(a as int / positive as int <= a) by (nonlinear_arith)
                    requires
                        a >= 0,
                        positive >= 1,
                ;
            } else {
                assert((-a) as int / positive as int <= -a) by (nonlinear_arith)
                    requires
                        -a > 0,
                        positive >= 1,
                ;
                if positive == 1 {
                    assert((-a) as int / 1 == -a);
                } else {
                    assert(((-a) as int / positive as int) < 128) by (nonlinear_arith)
                        requires
                            0 < -a <= 128,
                            positive >= 2,
                    ;
                }
            }
        }
        (-q) as i8
    }
}

impl SurfaceHeightGenerator {
    /// Derives the scan parameters from the sampler's shape: the number of horizontal
    /// cells, the lowest cell layer, the band of cell layers between the terrain bounds,
    /// and the chunk's first block and cell.
    pub fn calculate_generation_params(&self, shape: &SamplerShape) -> (params: GenerationParams)
        requires
            shape_ok(*shape),
        ensures
            params_of(*shape, params),
            params_ok(params),
    {
        proof {
            use_type_invariant(self);
        }
        let horizontal_cell_block_count = shape.horizontal_cell_block_count;
        let vertical_cell_block_count = shape.vertical_cell_block_count;
        let horizontal_cells = CHUNK_DIM / horizontal_cell_block_count;

        let min_y = shape.min_y;
        proof {
            let vc = vertical_cell_block_count;
            assert((vc as i8) != 0 && !(min_y == -128 && (vc as i8) == -1)) by (bit_vector)
                requires
                    vc > 0,
                    !(min_y == -128 && vc == 255),
            ;
        }
        let minimum_cell_y = div_i8(min_y, vertical_cell_block_count as i8);
        let cell_height = shape.height / (vertical_cell_block_count as u16);

        let low = (self.terrain_min_y - min_y as i32) / vertical_cell_block_count as i32;
        let start_cell = (if low >= 0 {
            low
        } else {
            0
        }) as u16;
        let high = (self.terrain_max_y - min_y as i32) / vertical_cell_block_count as i32;
        let end_cell = (if high <= cell_height as i32 - 1 {
            high
        } else {
            cell_height as i32 - 1
        }) as u16;

        let start_block_x = shape.start_block_x;
        let start_block_z = shape.start_block_z;
        let start_cell_x = start_block_x / horizontal_cell_block_count as i32;
        let start_cell_z = start_block_z / horizontal_cell_block_count as i32;

        let params = GenerationParams {
            horizontal_cell_block_count,
            vertical_cell_block_count,
            horizontal_cells: horizontal_cells as u16,
            min_y,
            minimum_cell_y,
            start_cell,
            end_cell,
            start_block_x,
            start_block_z,
            start_cell_x,
            start_cell_z,
        };
        proof {
            let h = shape.horizontal_cell_block_count as int;
            let v = shape.vertical_cell_block_count as int;
            let cell_height = shape.height as int / v;
            assert(params.horizontal_cells == CHUNK_DIM as int / h);
            assert(params.minimum_cell_y == trunc_div(
                shape.min_y as int,
                (shape.vertical_cell_block_count as i8) as int,
            ));
            assert(params.start_cell == (if trunc_div(TERRAIN_MIN_Y - shape.min_y, v) >= 0 {
                trunc_div(TERRAIN_MIN_Y - shape.min_y, v)
            } else {
                0
            }) as u16);
            assert(params.end_cell == (if trunc_div(TERRAIN_MAX_Y - shape.min_y, v) <= cell_height - 1 {
                trunc_div(TERRAIN_MAX_Y - shape.min_y, v)
            } else {
                cell_height - 1
            }) as u16);
        }
        params
    }
}

/// The part of one cell column that the scan searches, and where the cell starts.
#[derive(Debug, Clone, Copy, PartialEq, Eq, Structural)]
pub struct CellBounds {
    pub adaptive_start: u16,
    pub adaptive_end: u16,
    pub cell_start_x: i32,
    pub cell_start_z: i32,
    pub sample_start_x: i32,
    pub sample_start_z: i32,
}

/// The half-height of the band searched after `samples` surfaces have been found.
pub open spec fn search_range(samples: int) -> int {
    if samples < SAMPLES_FOR_CONVERGENCE {
        INITIAL_WIDE_SEARCH_RANGE as int
    } else {
        ADAPTIVE_SEARCH_RANGE as int
    }
}

/// The first and last cell layers searched in a cell whose scan begins after `samples`
/// surfaces with estimate `estimate`: those around `estimate +- search_range(samples)`,
/// clipped to the terrain band.
pub open spec fn adaptive_cells(p: GenerationParams, samples: int, estimate: int) -> (int, int) {
    let v = p.vertical_cell_block_count as int;
    let lo = trunc_div(estimate - search_range(samples) - p.min_y, v);
    let hi = trunc_div(estimate + search_range(samples) - p.min_y, v);
    (
        ((if lo >= p.start_cell {
            lo
        } else {
            p.start_cell as int
        }) as u16) as int,
        ((if hi <= p.end_cell {
            hi
        } else {
            p.end_cell as int
        }) as u16) as int,
    )
}

/// The lowest and highest block heights searched in a cell whose scan begins at `start`
/// (the number of surfaces found, and the estimate).
pub open spec fn band_of(p: GenerationParams, start: (int, int)) -> (int, int) {
    let cells = adaptive_cells(p, start.0, start.1);
    let v = p.vertical_cell_block_count as int;
    ((p.minimum_cell_y + cells.0) * v, (p.minimum_cell_y + cells.1 + 1) * v - 1)
}

/// The bounds of cell `(cell_x, cell_z)` for a surface estimate found from `samples`
/// surfaces: the cell layers around `estimate +- search_range` clipped to the terrain band,
/// and the cell's first block and first sampled block.
pub open spec fn bounds_of(
    p: GenerationParams,
    samples: int,
    estimate: int,
    cell_x: int,
    cell_z: int,
    b: CellBounds,
) -> bool {
    let h = p.horizontal_cell_block_count as int;
    &&& b.adaptive_start == adaptive_cells(p, samples, estimate).0
    &&& b.adaptive_end == adaptive_cells(p, samples, estimate).1
    &&& b.cell_start_x == p.start_block_x + cell_x * h
    &&& b.cell_start_z == p.start_block_z + cell_z * h
    &&& b.sample_start_x == (p.start_cell_x + cell_x) * h
    &&& b.sample_start_z == (p.start_cell_z + cell_z) * h
}

impl SurfaceHeightGenerator {
    /// The bounds of cell `(cell_x, cell_z)` given the scan so far.
    pub fn calculate_cell_bounds(
        &self,
        params: &GenerationParams,
        state: &GenerationState,
        cell_x: u16,
        cell_z: u16,
    ) -> (b: CellBounds)
        requires
            params_ok(*params),
            cell_x < params.horizontal_cells,
            cell_z < params.horizontal_cells,
            -ESTIMATE_LIMIT <= state.estimated_surface_y <= ESTIMATE_LIMIT,
        ensures
            bounds_of(
                *params,
                state.surface_samples.len() as int,
                state.estimated_surface_y as int,
                cell_x as int,
                cell_z as int,
                b,
            ),
    {
        proof {
            use_type_invariant(self);
            let h = params.horizontal_cell_block_count as int;
            lemma_cells_fit(h, cell_x as int, 0);
            lemma_cells_fit(h, cell_z as int, 0);
            lemma_trunc_div_near(params.start_block_x as int, h);
            lemma_trunc_div_near(params.start_block_z as int, h);
            assert((params.start_cell_x + cell_x) * h == params.start_cell_x * h + cell_x * h)
                by (nonlinear_arith);
            assert((params.start_cell_z + cell_z) * h == params.start_cell_z * h + cell_z * h)
                by (nonlinear_arith);
        }
        let search_range = if state.surface_samples.len() < self.samples_for_convergence {
            self.initial_wide_search_range
        } else {
            self.adaptive_search_range
        };
        let v = params.vertical_cell_block_count as i32;
        let lo = (state.estimated_surface_y - search_range - params.min_y as i32) / v;
        let adaptive_start = (if lo >= params.start_cell as i32 {
            lo
        } else {
            params.start_cell as i32
        }) as u16;
        let hi = (state.estimated_surface_y + search_range - params.min_y as i32) / v;
        let adaptive_end = (if hi <= params.end_cell as i32 {
            hi
        } else {
            params.end_cell as i32
        }) as u16;

        let h = params.horizontal_cell_block_count as i32;
        let cell_x_offset = cell_x as i32 * h;
        let cell_z_offset = cell_z as i32 * h;
        let cell_start_x = params.start_block_x + cell_x_offset;
        let cell_start_z = params.start_block_z + cell_z_offset;
        let sample_start_x = (params.start_cell_x + cell_x as i32) * h;
        let sample_start_z = (params.start_cell_z + cell_z as i32) * h;

        CellBounds {
            adaptive_start,
            adaptive_end,
            cell_start_x,
            cell_start_z,
            sample_start_x,
            sample_start_z,
        }
    }
}

/// A request to the noise sampler of the chunk being scanned.
#[derive(Debug, Clone, Copy, PartialEq, Eq)]
pub enum SamplerRequest {
    /// Sample the densities at the start of the chunk.
    StartDensity,
    /// Sample the densities at the end of cell column `cell_x`.
    EndDensity { cell_x: u8 },
    /// Read the corners of cell `(cell_x, cell_y, cell_z)`.
    CellCorners { cell_x: u8, cell_y: u16, cell_z: u8 },
    /// Interpolate to block layer `local_y` of a cell `vertical_cell_block_count` high.
    InterpolateY { local_y: u8, vertical_cell_block_count: u8 },
    /// Interpolate to the block at `local` within a cell starting at `sample_start`,
    /// sample it, store the block at `block`, and say whether it is solid.
    SampleBlock {
        sample_start: (i32, i32, i32),
        local: (i32, i32, i32),
        block: (i32, i32, i32),
        horizontal_cell_block_count: u8,
    },
    /// Blend the running estimate with the latest surface: nine tenths of `estimate` and one
    /// tenth of `latest`, in `f32`, truncated.
    BlendEstimate { estimate: i32, latest: i32 },
    /// Move on to the next cell column.
    SwapBuffers,
    /// Interpolate to block row `local_x` of a cell `horizontal_cell_block_count` wide.
    InterpolateX { local_x: u8, horizontal_cell_block_count: u8 },
    /// Interpolate to block `local_z` of a row `horizontal_cell_block_count` long.
    InterpolateZ { local_z: u8, horizontal_cell_block_count: u8 },
    /// Sample the block at `offset` from `sample_start` where the sampler stands, and store
    /// it at `block`.
    FillBlock { sample_start: (i32, i32, i32), offset: (i32, i32, i32), block: (i32, i32, i32) },
}

/// The sampler's answer: `solid` to a `SampleBlock`, `estimate` to a `BlendEstimate`.
#[derive(Debug, Clone, Copy, PartialEq, Eq, Structural)]
pub struct SamplerReply {
    pub solid: bool,
    pub estimate: i32,
}

/// How many entries of `s` are `true`.
pub open spec fn count_true(s: Seq<bool>) -> int
    decreases s.len(),
{
    if s.len() == 0 {
        0
    } else {
        count_true(s.drop_last()) + if s.last() {
            1int
        } else {
            0int
        }
    }
}

/// The sum of `s`.
pub open spec fn seq_sum(s: Seq<i32>) -> int
    decreases s.len(),
{
    if s.len() == 0 {
        0
    } else {
        seq_sum(s.drop_last()) + s.last()
    }
}

/// `x` clamped to `[-ESTIMATE_LIMIT, ESTIMATE_LIMIT]`.
pub open spec fn clamp_estimate(x: int) -> int {
    if x < -ESTIMATE_LIMIT {
        -ESTIMATE_LIMIT as int
    } else if x > ESTIMATE_LIMIT {
        ESTIMATE_LIMIT as int
    } else {
        x
    }
}

/// A block the scan asked about: its column `x * 16 + z`, its height, and whether it was
/// solid.
pub type Probe = (int, int, bool);

/// What the scan has learned so far.
pub struct GenerationState {
    /// Whether the surface of column `x * 16 + z` has been found.
    pub surface_found: Vec<bool>,
    /// The surface height of each found column.
    pub surface_heights: Vec<i64>,
    pub columns_completed: usize,
    /// The heights of the surfaces found, in the order found.
    pub surface_samples: Vec<i32>,
    pub estimated_surface_y: i32,
    /// Every block asked about, in order.
    pub probes: Ghost<Seq<Probe>>,
    /// For each column, the number of surfaces found and the estimate when the scan of its
    /// cell began.
    pub bands: Ghost<Seq<(int, int)>>,
    /// The estimate before any surface was found, then after each surface found.
    pub estimates: Ghost<Seq<i32>>,
}

/// The heights of the solid answers among `probes`, in order: the surfaces found, in the
/// order found.
pub open spec fn surfaces_of(probes: Seq<Probe>) -> Seq<int>
    decreases probes.len(),
{
    if probes.len() == 0 {
        Seq::empty()
    } else if probes.last().2 {
        surfaces_of(probes.drop_last()).push(probes.last().1)
    } else {
        surfaces_of(probes.drop_last())
    }
}

/// `samples` as integers.
pub open spec fn samples_view(samples: Seq<i32>) -> Seq<int> {
    samples.map_values(|y: i32| y as int)
}

/// The laws of a scan: a column is found exactly when one of its blocks answered solid;
/// its height is that block's height; that block is the column's last block asked about,
/// and every block of the column asked about before it answered not solid.
pub open spec fn probes_ok(found: Seq<bool>, heights: Seq<i64>, probes: Seq<Probe>) -> bool {
    &&& forall|k: int| 0 <= k < probes.len() ==> 0 <= #[trigger] probes[k].0 < CHUNK_COLUMNS
    &&& forall|c: int|
        0 <= c < CHUNK_COLUMNS ==> (#[trigger] found[c] <==> exists|k: int|
            0 <= k < probes.len() && probes[k].0 == c && probes[k].2)
    &&& forall|k: int|
        0 <= k < probes.len() && (#[trigger] probes[k]).2 ==> heights[probes[k].0] == probes[k].1
            && forall|k2: int|
            0 <= k2 < probes.len() && k2 != k && (#[trigger] probes[k2]).0 == probes[k].0 ==> k2
                < k && !probes[k2].2
}

/// The invariant of a scan's state.
pub open spec fn scan_ok(st: GenerationState) -> bool {
    &&& st.surface_found.len() == CHUNK_COLUMNS
    &&& st.surface_heights.len() == CHUNK_COLUMNS
    &&& st.columns_completed == count_true(st.surface_found@)
    &&& st.surface_samples.len() == st.columns_completed
    &&& forall|i: int|
        0 <= i < st.surface_samples.len() ==> LOWEST_BLOCK_Y <= #[trigger] st.surface_samples[i]
            <= HIGHEST_BLOCK_Y
    &&& -ESTIMATE_LIMIT <= st.estimated_surface_y <= ESTIMATE_LIMIT
    &&& probes_ok(st.surface_found@, st.surface_heights@, st.probes@)
    &&& st.bands@.len() == CHUNK_COLUMNS
    &&& samples_view(st.surface_samples@) == surfaces_of(st.probes@)
    &&& st.estimates@.len() == st.surface_samples.len() + 1
    &&& st.estimates@.last() == st.estimated_surface_y
    &&& forall|c: int|
        0 <= c < CHUNK_COLUMNS && !#[trigger] st.surface_found@[c] ==> st.surface_heights@[c] == 0
}

/// Step `k` of the estimate: after the `k + 1`-th surface, the average of the surfaces so
/// far while there are at most `SAMPLES_FOR_CONVERGENCE` of them, else the sampler's blend
/// of the estimate before it with that surface, clamped.
pub open spec fn estimate_step<F: Fn(SamplerRequest) -> SamplerReply>(
    sampler: F,
    samples: Seq<i32>,
    estimates: Seq<i32>,
    k: int,
) -> bool {
    if k + 1 <= SAMPLES_FOR_CONVERGENCE {
        estimates[k + 1] == trunc_div(seq_sum(samples.take(k + 1)), k + 1)
    } else {
        exists|r: SamplerReply|
            #[trigger] call_ensures(
                sampler,
                (SamplerRequest::BlendEstimate { estimate: estimates[k], latest: samples[k] },),
                r,
            ) && estimates[k + 1] == clamp_estimate(r.estimate as int)
    }
}

/// The estimates of a scan started at `INITIAL_SURFACE_ESTIMATE`, each following from the
/// one before it and the surfaces found.
pub open spec fn history_ok<F: Fn(SamplerRequest) -> SamplerReply>(
    sampler: F,
    st: GenerationState,
) -> bool {
    &&& st.estimates@[0] == INITIAL_SURFACE_ESTIMATE
    &&& forall|k: int|
        0 <= k < st.surface_samples.len() ==> #[trigger] estimate_step(
            sampler,
            st.surface_samples@,
            st.estimates@,
            k,
        )
}

proof fn lemma_count_true_update(s: Seq<bool>, i: int)
    requires
        0 <= i < s.len(),
        !s[i],
    ensures
        count_true(s.update(i, true)) == count_true(s) + 1,
    decreases s.len(),
{
    if i == s.len() - 1 {
        assert(s.update(i, true).drop_last() == s.drop_last());
    } else {
        assert(s.update(i, true).drop_last() == s.drop_last().update(i, true));
        lemma_count_true_update(s.drop_last(), i);
    }
}

proof fn lemma_count_true_bounds(s: Seq<bool>)
    ensures
        0 <= count_true(s) <= s.len(),
        count_true(s) == s.len() ==> forall|i: int| 0 <= i < s.len() ==> #[trigger] s[i],
    decreases s.len(),
{
    if s.len() > 0 {
        lemma_count_true_bounds(s.drop_last());
        if count_true(s) == s.len() {
            assert forall|i: int| 0 <= i < s.len() implies #[trigger] s[i] by {
                if i < s.len() - 1 {
                    assert(s[i] == s.drop_last()[i]);
                }
            }
        }
    }
}

proof fn lemma_count_true_all_false(n: int)
    requires
        n >= 0,
    ensures
        count_true(Seq::new(n as nat, |i: int| false)) == 0,
    decreases n,
{
    if n > 0 {
        assert(Seq::new(n as nat, |i: int| false).drop_last() == Seq::new(
            (n - 1) as nat,
            |i: int| false,
        ));
        lemma_count_true_all_false(n - 1);
    }
}

/// The request that updating the estimate makes after `found` surfaces, the latest at
/// `latest`: the blend of `estimate` with it once more than `convergence` surfaces were
/// found, else none.
pub open spec fn blend_requests(found: int, convergence: int, estimate: i32, latest: i32) -> Seq<
    SamplerRequest,
> {
    if found > convergence {
        seq![SamplerRequest::BlendEstimate { estimate, latest }]
    } else {
        Seq::empty()
    }
}

impl GenerationState {
    /// A scan that has found nothing yet, expecting the surface at `initial_estimate`.
    pub fn new(initial_estimate: i32) -> (st: Self)
        requires
            -ESTIMATE_LIMIT <= initial_estimate <= ESTIMATE_LIMIT,
        ensures
            scan_ok(st),
            st.columns_completed == 0,
            st.surface_samples@ == Seq::<i32>::empty(),
            st.estimated_surface_y == initial_estimate,
            st.probes@ == Seq::<Probe>::empty(),
            st.estimates@ == seq![initial_estimate],
            forall|c: int| 0 <= c < CHUNK_COLUMNS ==> !#[trigger] st.surface_found@[c],
    {
        let mut surface_found: Vec<bool> = Vec::new();
        let mut surface_heights: Vec<i64> = Vec::new();
        let mut i: usize = 0;
        while i < CHUNK_COLUMNS
            invariant
                i <= CHUNK_COLUMNS,
                surface_found@ == Seq::new(i as nat, |k: int| false),
                surface_heights@ == Seq::new(i as nat, |k: int| 0i64),
            decreases CHUNK_COLUMNS - i,
        {
            surface_found.push(false);
            surface_heights.push(0);
            proof {
                assert(surface_heights@ =~= Seq::new((i + 1) as nat, |k: int| 0i64));
                assert(surface_found@ =~= Seq::new((i + 1) as nat, |k: int| false));
            }
            i = i + 1;
        }
        proof {
            lemma_count_true_all_false(CHUNK_COLUMNS as int);
            assert(samples_view(Seq::<i32>::empty()) =~= Seq::<int>::empty());
        }
        GenerationState {
            surface_found,
            surface_heights,
            columns_completed: 0,
            surface_samples: Vec::new(),
            estimated_surface_y: initial_estimate,
            probes: Ghost(Seq::empty()),
            bands: Ghost(Seq::new(CHUNK_COLUMNS as nat, |c: int| (0int, 0int))),
            estimates: Ghost(Seq::empty().push(initial_estimate)),
        }
    }

    /// Updates the surface estimate after a new surface: the average of all surfaces while
    /// there are at most `samples_for_convergence` of them, else the sampler's blend of
    /// the old estimate with the newest surface (clamped to `ESTIMATE_LIMIT`). At most 128
    /// heights are averaged, so that their sum fits in an `i32`.
    pub fn update_surface_estimate<F: Fn(SamplerRequest) -> SamplerReply>(
        &mut self,
        samples_for_convergence: usize,
        log: &mut SamplerLog<F>,
    )
        requires
            forall|q: SamplerRequest| old(log).sampler().requires((q,)),
            samples_for_convergence <= 128,
            1 <= old(self).surface_samples.len() <= CHUNK_COLUMNS,
            forall|i: int|
                0 <= i < old(self).surface_samples.len() ==> LOWEST_BLOCK_Y
                    <= #[trigger] old(self).surface_samples[i] <= HIGHEST_BLOCK_Y,
            -ESTIMATE_LIMIT <= old(self).estimated_surface_y <= ESTIMATE_LIMIT,
        ensures
            final(log).sampler() == old(log).sampler(),
            final(self).surface_found == old(self).surface_found,
            final(self).surface_heights == old(self).surface_heights,
            final(self).columns_completed == old(self).columns_completed,
            final(self).surface_samples == old(self).surface_samples,
            final(self).probes == old(self).probes,
            final(self).bands == old(self).bands,
            final(self).estimates == old(self).estimates,
            -ESTIMATE_LIMIT <= final(self).estimated_surface_y <= ESTIMATE_LIMIT,
            requests_of(final(log).entries()) == requests_of(old(log).entries()) + blend_requests(
                old(self).surface_samples.len() as int,
                samples_for_convergence as int,
                old(self).estimated_surface_y,
                old(self).surface_samples@.last(),
            ),
            old(self).surface_samples.len() <= samples_for_convergence
                ==> final(self).estimated_surface_y == trunc_div(
                seq_sum(old(self).surface_samples@),
                old(self).surface_samples.len() as int,
            ),
            old(self).surface_samples.len() > samples_for_convergence ==> exists|r: SamplerReply|
                call_ensures(
                    old(log).sampler(),
                    (SamplerRequest::BlendEstimate {
                        estimate: old(self).estimated_surface_y,
                        latest: old(self).surface_samples@.last(),
                    },),
                    r,
                ) && final(self).estimated_surface_y == clamp_estimate(r.estimate as int),
    {
        let n = self.surface_samples.len();
        if n <= samples_for_convergence {
            let mut sum: i32 = 0;
            let mut i: usize = 0;
            while i < n
                invariant
                    n == self.surface_samples.len(),
                    1 <= n <= 128,
                    i <= n,
                    forall|k: int|
                        0 <= k < self.surface_samples.len() ==> LOWEST_BLOCK_Y
                            <= #[trigger] self.surface_samples[k] <= HIGHEST_BLOCK_Y,
                    sum == seq_sum(self.surface_samples@.take(i as int)),
                    i * LOWEST_BLOCK_Y <= sum <= i * HIGHEST_BLOCK_Y,
                decreases n - i,
            {
                proof {
                    let t = self.surface_samples@.take(i + 1);
                    assert(t.drop_last() == self.surface_samples@.take(i as int));
                    let y = self.surface_samples[i as int];
                    assert(LOWEST_BLOCK_Y <= y <= HIGHEST_BLOCK_Y);
                    assert((i + 1) * 16744065 == i * 16744065 + 16744065);
                    assert((i + 1) * -32640 == i * -32640 + -32640);
                }
                sum = sum + self.surface_samples[i];
                i = i + 1;
            }
            proof {
                assert(self.surface_samples@.take(n as int) == self.surface_samples@);
            }
            let estimate = sum / (n as i32);
            proof {
                let s = sum as int;
                let m = n as int;
                if s >= 0 {
                    assert(s / m <= s) by (nonlinear_arith)
                        requires
                            s >= 0,
                            m >= 1,
                    ;
                    assert(s / m <= HIGHEST_BLOCK_Y) by (nonlinear_arith)
                        requires
                            0 <= s <= m * HIGHEST_BLOCK_Y,
                            m >= 1,
                    ;
                } else {
                    assert((-s) / m <= -LOWEST_BLOCK_Y) by (nonlinear_arith)
                        requires
                            0 < -s <= m * (-LOWEST_BLOCK_Y),
                            m >= 1,
                    ;
                }
            }
            self.estimated_surface_y = estimate;
            proof {
                assert(requests_of(log.entries()) =~= requests_of(old(log).entries())
                    + blend_requests(
                    n as int,
                    samples_for_convergence as int,
                    old(self).estimated_surface_y,
                    old(self).surface_samples@.last(),
                ));
            }
        } else {
            let latest = self.surface_samples[n - 1];
            let ghost request = SamplerRequest::BlendEstimate {
                estimate: self.estimated_surface_y,
                latest,
            };
            let ghost e0 = log.entries();
            let reply = log.ask(
                SamplerRequest::BlendEstimate { estimate: self.estimated_surface_y, latest },
            );
            proof {
                assert(call_ensures(old(log).sampler(), (request,), reply));
                lemma_requests_push(e0, (request, reply));
            }
            let blended = reply.estimate;
            self.estimated_surface_y = if blended < -ESTIMATE_LIMIT {
                -ESTIMATE_LIMIT
            } else if blended > ESTIMATE_LIMIT {
                ESTIMATE_LIMIT
            } else {
                blended
            };
            proof {
                assert(latest == old(self).surface_samples@.last());
                assert(request == SamplerRequest::BlendEstimate {
                    estimate: old(self).estimated_surface_y,
                    latest: old(self).surface_samples@.last(),
                });
                assert(self.estimated_surface_y == clamp_estimate(reply.estimate as int));
            }
        }
    }
}

} // verus!

verus! {

/// The column index of chunk-local block `(x, z)`.
pub open spec fn column_index(x: int, z: int) -> int {
    x * CHUNK_DIM + z
}

/// The cell `(cell_x, cell_z)` that column `col` belongs to, for cells `h` blocks wide.
pub open spec fn cell_of(col: int, h: int) -> (int, int) {
    ((col / 16) / h, (col % 16) / h)
}

/// Where column `col` lies within its cell.
pub open spec fn local_of(col: int, h: int) -> (int, int) {
    ((col / 16) % h, (col % 16) % h)
}

/// Lexicographic order on pairs.
pub open spec fn lex_lt(a: (int, int), b: (int, int)) -> bool {
    a.0 < b.0 || (a.0 == b.0 && a.1 < b.1)
}

/// The scan goes down every column: a column's blocks are asked about from the top down,
/// each height at most once.
pub open spec fn descending(probes: Seq<Probe>) -> bool {
    forall|k1: int, k2: int|
        0 <= k1 < k2 < probes.len() && (#[trigger] probes[k1]).0 == (#[trigger] probes[k2]).0
            ==> probes[k1].1 > probes[k2].1
}

/// The sampler answered `p`: it was asked for the block of column `p.0` at height `p.1`
/// of the chunk whose first block is `(start_x, start_z)`, and said `p.2` of its
/// solidity.
pub open spec fn probe_answered<F: Fn(SamplerRequest) -> SamplerReply>(
    sampler: F,
    p: Probe,
    start_x: int,
    start_z: int,
) -> bool {
    exists|req: SamplerRequest, r: SamplerReply|
        #[trigger] call_ensures(sampler, (req,), r) && r.solid == p.2 && match req {
            SamplerRequest::SampleBlock { block, .. } => block.0 == start_x + p.0 / 16 && block.1
                == p.1 && block.2 == start_z + p.0 % 16,
            _ => false,
        }
}

/// Every block asked about was answered by `sampler`.
pub open spec fn answered<F: Fn(SamplerRequest) -> SamplerReply>(
    sampler: F,
    probes: Seq<Probe>,
    start_x: int,
    start_z: int,
) -> bool {
    forall|k: int|
        0 <= k < probes.len() ==> #[trigger] probe_answered(sampler, probes[k], start_x, start_z)
}

/// Block `a` comes before block `b` in the scan's order: in an earlier cell, or in the
/// same cell at a higher layer, or in the same layer at an earlier position.
pub open spec fn scan_before(a: Probe, b: Probe, h: int) -> bool {
    lex_lt(cell_of(a.0, h), cell_of(b.0, h)) || (cell_of(a.0, h) == cell_of(b.0, h) && (a.1 > b.1
        || (a.1 == b.1 && lex_lt(local_of(a.0, h), local_of(b.0, h)))))
}

/// The blocks were asked about in the scan's order.
pub open spec fn scan_ordered(probes: Seq<Probe>, h: int) -> bool {
    forall|k1: int, k2: int|
        0 <= k1 < k2 < probes.len() ==> scan_before(#[trigger] probes[k1], #[trigger] probes[k2], h)
}

/// Every block asked about lies in a column of a cell the scan visits.
pub open spec fn probes_in_grid(p: GenerationParams, probes: Seq<Probe>) -> bool {
    forall|k: int| 0 <= k < probes.len() ==> in_grid(p, (#[trigger] probes[k]).0)
}

/// Every block asked about so far lies in a cell before `cell`.
pub open spec fn probes_before_cell(probes: Seq<Probe>, h: int, cell: (int, int)) -> bool {
    forall|k: int| 0 <= k < probes.len() ==> lex_lt(cell_of((#[trigger] probes[k]).0, h), cell)
}

/// Every block asked about so far lies in a cell before `cell`, or in `cell` above `floor`.
pub open spec fn probes_above(probes: Seq<Probe>, h: int, cell: (int, int), floor: int) -> bool {
    forall|k: int|
        0 <= k < probes.len() ==> lex_lt(cell_of((#[trigger] probes[k]).0, h), cell) || (cell_of(
            probes[k].0,
            h,
        ) == cell && probes[k].1 > floor)
}

/// Every block asked about so far lies in a cell before `cell`, or in `cell` above layer
/// `y`, or in layer `y` of `cell` before position `pos`.
pub open spec fn probes_before_block(
    probes: Seq<Probe>,
    h: int,
    cell: (int, int),
    y: int,
    pos: (int, int),
) -> bool {
    forall|k: int|
        0 <= k < probes.len() ==> lex_lt(cell_of((#[trigger] probes[k]).0, h), cell) || (cell_of(
            probes[k].0,
            h,
        ) == cell && (probes[k].1 > y || (probes[k].1 == y && lex_lt(local_of(probes[k].0, h), pos))))
}

proof fn lemma_column_cell(h: int, cx: int, cz: int, lx: int, lz: int)
    requires
        0 < h,
        0 <= cx,
        0 <= cz,
        0 <= lx < h,
        0 <= lz < h,
        cx * h + lx < 16,
        cz * h + lz < 16,
    ensures
        0 <= column_index(cx * h + lx, cz * h + lz) < 256,
        cell_of(column_index(cx * h + lx, cz * h + lz), h) == (cx, cz),
        local_of(column_index(cx * h + lx, cz * h + lz), h) == (lx, lz),
{
    let col = column_index(cx * h + lx, cz * h + lz);
    assert(0 <= cx * h) by (nonlinear_arith)
        requires
            cx >= 0,
            h > 0,
    ;
    assert(0 <= cz * h) by (nonlinear_arith)
        requires
            cz >= 0,
            h > 0,
    ;
    vstd::arithmetic::div_mod::lemma_fundamental_div_mod_converse(col, 16, cx * h + lx, cz * h + lz);
    vstd::arithmetic::div_mod::lemma_fundamental_div_mod_converse(cx * h + lx, h, cx, lx);
    vstd::arithmetic::div_mod::lemma_fundamental_div_mod_converse(cz * h + lz, h, cz, lz);
}

proof fn lemma_cell_nonneg(col: int, h: int)
    requires
        0 <= col,
        0 < h,
    ensures
        cell_of(col, h).0 >= 0,
        cell_of(col, h).1 >= 0,
        0 <= local_of(col, h).0 < h,
        0 <= local_of(col, h).1 < h,
{
    vstd::arithmetic::div_mod::lemma_mod_bound(col, 16);
    vstd::arithmetic::div_mod::lemma_mod_bound(col % 16, h);
    vstd::arithmetic::div_mod::lemma_mod_bound(col / 16, h);
    assert(col / 16 >= 0) by (nonlinear_arith)
        requires
            col >= 0,
    ;
    assert((col / 16) / h >= 0) by (nonlinear_arith)
        requires
            col / 16 >= 0,
            h > 0,
    ;
    assert((col % 16) / h >= 0) by (nonlinear_arith)
        requires
            col % 16 >= 0,
            h > 0,
    ;
}

pub(crate) proof fn lemma_layer_bounds(m: int, v: int)
    requires
        -128 <= m <= 65662,
        1 <= v <= 255,
    ensures
        -32640 <= m * v <= 16743810,
{
    assert(-32640 <= m * v <= 16743810) by (nonlinear_arith)
        requires
            -128 <= m <= 65662,
            1 <= v <= 255,
    ;
}

/// Adding the answer for block `(col, y)` of a column not yet found keeps the scan laws.
proof fn lemma_probe_step(
    found: Seq<bool>,
    heights: Seq<i64>,
    probes: Seq<Probe>,
    col: int,
    y: int,
    solid: bool,
)
    requires
        found.len() == CHUNK_COLUMNS,
        heights.len() == CHUNK_COLUMNS,
        probes_ok(found, heights, probes),
        0 <= col < CHUNK_COLUMNS,
        !found[col],
        i64::MIN <= y <= i64::MAX,
    ensures
        probes_ok(
            if solid {
                found.update(col, true)
            } else {
                found
            },
            if solid {
                heights.update(col, y as i64)
            } else {
                heights
            },
            probes.push((col, y, solid)),
        ),
{
    let f2 = if solid {
        found.update(col, true)
    } else {
        found
    };
    let h2 = if solid {
        heights.update(col, y as i64)
    } else {
        heights
    };
    let p2 = probes.push((col, y, solid));
    let n = probes.len() as int;
    assert forall|k: int| 0 <= k < p2.len() implies 0 <= #[trigger] p2[k].0 < CHUNK_COLUMNS by {
        if k < n {
            assert(p2[k] == probes[k]);
        }
    }
    assert forall|c: int| 0 <= c < CHUNK_COLUMNS implies (#[trigger] f2[c] <==> exists|k: int|
        0 <= k < p2.len() && p2[k].0 == c && p2[k].2) by {
        if f2[c] {
            if solid && c == col {
                assert(p2[n].0 == c && p2[n].2);
            } else {
                assert(found[c]);
                let k = choose|k: int| 0 <= k < probes.len() && probes[k].0 == c && probes[k].2;
                assert(p2[k] == probes[k]);
            }
        } else {
            assert forall|k: int| 0 <= k < p2.len() && p2[k].0 == c implies !p2[k].2 by {
                if k < n {
                    assert(p2[k] == probes[k]);
                    if probes[k].2 {
                        assert(found[c]);
                    }
                }
            }
        }
    }
    assert forall|k: int| 0 <= k < p2.len() && (#[trigger] p2[k]).2 implies h2[p2[k].0]
        == p2[k].1 && forall|k2: int|
        0 <= k2 < p2.len() && k2 != k && (#[trigger] p2[k2]).0 == p2[k].0 ==> k2 < k
            && !p2[k2].2 by {
        if k == n {
            assert forall|k2: int|
                0 <= k2 < p2.len() && k2 != k && (#[trigger] p2[k2]).0 == p2[k].0 implies k2 < k
                && !p2[k2].2 by {
                assert(p2[k2] == probes[k2]);
                if probes[k2].2 {
                    assert(found[col]);
                }
            }
        } else {
            assert(p2[k] == probes[k]);
            assert(found[probes[k].0]);
            assert(probes[k].0 != col);
            assert forall|k2: int|
                0 <= k2 < p2.len() && k2 != k && (#[trigger] p2[k2]).0 == p2[k].0 implies k2 < k
                && !p2[k2].2 by {
                if k2 < n {
                    assert(p2[k2] == probes[k2]);
                    assert(probes[k2] == probes[k2]);
                }
            }
        }
    }
}

/// Every block asked about lies within the band searched in its column's cell.
pub open spec fn in_bands(p: GenerationParams, probes: Seq<Probe>, bands: Seq<(int, int)>) -> bool {
    forall|k: int|
        0 <= k < probes.len() ==> band_of(p, bands[(#[trigger] probes[k]).0]).0 <= probes[k].1
            <= band_of(p, bands[probes[k].0]).1
}

/// Block `(col, y)` was asked about and answered not solid.
pub open spec fn probed(probes: Seq<Probe>, col: int, y: int) -> bool {
    exists|k: int| 0 <= k < probes.len() && probes[k] == (col, y, false)
}

/// Column `col` lies in one of the cells the scan visits (all of them, unless the cell
/// width does not divide the chunk's).
pub open spec fn in_grid(p: GenerationParams, col: int) -> bool {
    let cell = cell_of(col, p.horizontal_cell_block_count as int);
    0 <= col < CHUNK_COLUMNS && cell.0 < p.horizontal_cells && cell.1 < p.horizontal_cells
}

/// Height `y` of column `col` is one the scan owes an answer for, from height `from` on:
/// up to the top of the band of the column's cell, and above the column's surface once
/// that is found.
pub open spec fn owed(p: GenerationParams, st: GenerationState, col: int, y: int, from: int) -> bool {
    &&& from <= y <= band_of(p, st.bands@[col]).1
    &&& !st.surface_found@[col] || y > st.surface_heights@[col]
}

/// In every visited cell before `cell`, every height owed over the whole band was asked
/// about and answered not solid.
pub open spec fn covered_cells(p: GenerationParams, st: GenerationState, cell: (int, int)) -> bool {
    forall|c: int, y: int|
        in_grid(p, c) && lex_lt(cell_of(c, p.horizontal_cell_block_count as int), cell) && owed(
            p,
            st,
            c,
            y,
            band_of(p, st.bands@[c]).0,
        ) ==> #[trigger] probed(st.probes@, c, y)
}

/// Within `cell`, once the scan has reached layer `y_at` at position `pos`, every height
/// owed down to that layer (down to the layer above it for positions not yet reached) was
/// asked about and answered not solid.
pub open spec fn covered_in(
    p: GenerationParams,
    st: GenerationState,
    cell: (int, int),
    y_at: int,
    pos: (int, int),
) -> bool {
    let h = p.horizontal_cell_block_count as int;
    forall|c: int, y: int|
        0 <= c < CHUNK_COLUMNS && cell_of(c, h) == cell && owed(
            p,
            st,
            c,
            y,
            if lex_lt(local_of(c, h), pos) {
                y_at
            } else {
                y_at + 1
            },
        ) ==> #[trigger] probed(st.probes@, c, y)
}

/// The scan is complete: in every visited cell, every height owed over the whole band was
/// asked about and answered not solid.
pub open spec fn scan_complete(p: GenerationParams, st: GenerationState) -> bool {
    forall|c: int, y: int|
        in_grid(p, c) && owed(p, st, c, y, band_of(p, st.bands@[c]).0) ==> #[trigger] probed(
            st.probes@,
            c,
            y,
        )
}

/// Every column of `cell` has the band `band`.
pub open spec fn cell_band(p: GenerationParams, bands: Seq<(int, int)>, cell: (int, int), band: (
    int,
    int,
)) -> bool {
    forall|c: int|
        0 <= c < CHUNK_COLUMNS && cell_of(c, p.horizontal_cell_block_count as int) == cell
            ==> #[trigger] bands[c] == band
}

proof fn lemma_col_unique(c: int, d: int, h: int)
    requires
        0 <= c < CHUNK_COLUMNS,
        0 <= d < CHUNK_COLUMNS,
        0 < h,
        cell_of(c, h) == cell_of(d, h),
        local_of(c, h) == local_of(d, h),
    ensures
        c == d,
{
    vstd::arithmetic::div_mod::lemma_fundamental_div_mod(c / 16, h);
    vstd::arithmetic::div_mod::lemma_fundamental_div_mod(d / 16, h);
    vstd::arithmetic::div_mod::lemma_fundamental_div_mod(c % 16, h);
    vstd::arithmetic::div_mod::lemma_fundamental_div_mod(d % 16, h);
    vstd::arithmetic::div_mod::lemma_fundamental_div_mod(c, 16);
    vstd::arithmetic::div_mod::lemma_fundamental_div_mod(d, 16);
}

proof fn lemma_probed_push(probes: Seq<Probe>, x: Probe, c: int, y: int)
    requires
        probed(probes, c, y),
    ensures
        probed(probes.push(x), c, y),
{
    let k = choose|k: int| 0 <= k < probes.len() && probes[k] == (c, y, false);
    assert(probes.push(x)[k] == probes[k]);
}

/// The number of columns found in cells before `cell`.
pub open spec fn found_before(found: Seq<bool>, h: int, cell: (int, int)) -> int {
    count_true(Seq::new(CHUNK_COLUMNS as nat, |c: int| found[c] && lex_lt(cell_of(c, h), cell)))
}

/// How the scan of `cell` begins: after the surfaces found in the cells before it, with
/// the estimate those surfaces led to.
pub open spec fn band_start(st: GenerationState, h: int, cell: (int, int)) -> (int, int) {
    let n = found_before(st.surface_found@, h, cell);
    (n, st.estimates@[n] as int)
}

/// Every visited cell before `cell` was searched in the band of how its scan began.
pub open spec fn bands_before(p: GenerationParams, st: GenerationState, cell: (int, int)) -> bool {
    let h = p.horizontal_cell_block_count as int;
    forall|c: int|
        in_grid(p, c) && lex_lt(cell_of(c, h), cell) ==> #[trigger] st.bands@[c] == band_start(
            st,
            h,
            cell_of(c, h),
        )
}

/// Every visited cell was searched in the band of how its scan began.
pub open spec fn bands_all(p: GenerationParams, st: GenerationState) -> bool {
    let h = p.horizontal_cell_block_count as int;
    forall|c: int| in_grid(p, c) ==> #[trigger] st.bands@[c] == band_start(st, h, cell_of(c, h))
}

proof fn lemma_count_true_le(s: Seq<bool>, t: Seq<bool>)
    requires
        s.len() == t.len(),
        forall|i: int| 0 <= i < t.len() && #[trigger] t[i] ==> s[i],
    ensures
        count_true(t) <= count_true(s),
    decreases s.len(),
{
    if s.len() > 0 {
        lemma_count_true_le(s.drop_last(), t.drop_last());
    }
}

proof fn lemma_found_before_le(found: Seq<bool>, h: int, cell: (int, int))
    requires
        found.len() == CHUNK_COLUMNS,
    ensures
        found_before(found, h, cell) <= count_true(found),
{
    lemma_count_true_le(
        found,
        Seq::new(CHUNK_COLUMNS as nat, |c: int| found[c] && lex_lt(cell_of(c, h), cell)),
    );
}

proof fn lemma_found_before_all(found: Seq<bool>, h: int, cell: (int, int))
    requires
        found.len() == CHUNK_COLUMNS,
        forall|c: int| 0 <= c < CHUNK_COLUMNS && #[trigger] found[c] ==> lex_lt(cell_of(c, h), cell),
    ensures
        found_before(found, h, cell) == count_true(found),
{
    assert(Seq::new(CHUNK_COLUMNS as nat, |c: int| found[c] && lex_lt(cell_of(c, h), cell))
        =~= found);
}

/// Finding the surface of a column at or after `cell`, and the estimate that follows, leaves
/// how the scan of `cell` began as it was.
proof fn lemma_band_start_stable(
    st: GenerationState,
    st2: GenerationState,
    h: int,
    cell: (int, int),
    index: int,
)
    requires
        scan_ok(st),
        0 <= index < CHUNK_COLUMNS,
        !lex_lt(cell_of(index, h), cell),
        st2.surface_found@ == st.surface_found@.update(index, true),
        st2.estimates@.len() >= st.estimates@.len(),
        forall|k: int| 0 <= k < st.estimates@.len() ==> #[trigger] st2.estimates@[k] == st.estimates@[k],
    ensures
        band_start(st2, h, cell) == band_start(st, h, cell),
{
    assert(Seq::new(
        CHUNK_COLUMNS as nat,
        |c: int| st2.surface_found@[c] && lex_lt(cell_of(c, h), cell),
    ) =~= Seq::new(
        CHUNK_COLUMNS as nat,
        |c: int| st.surface_found@[c] && lex_lt(cell_of(c, h), cell),
    ));
    lemma_found_before_le(st.surface_found@, h, cell);
    let n = found_before(st.surface_found@, h, cell);
    lemma_count_true_bounds(
        Seq::new(CHUNK_COLUMNS as nat, |c: int| st.surface_found@[c] && lex_lt(cell_of(c, h), cell)),
    );
    assert(found_before(st2.surface_found@, h, cell) == n);
    assert(st2.estimates@[n] == st.estimates@[n]);
}

/// A scan that has found every column, with the coverage reached at layer `y` and position
/// `pos` of `cell`, is complete.
proof fn lemma_done_complete(
    p: GenerationParams,
    st: GenerationState,
    cell: (int, int),
    y_at: int,
    pos: (int, int),
)
    requires
        params_ok(p),
        scan_ok(st),
        covered_cells(p, st, cell),
        covered_in(p, st, cell, y_at, pos),
        probes_before_block(st.probes@, p.horizontal_cell_block_count as int, cell, y_at, pos),
        forall|c: int| 0 <= c < CHUNK_COLUMNS ==> #[trigger] st.surface_found@[c],
        bands_before(p, st, cell),
        cell_band(
            p,
            st.bands@,
            cell,
            band_start(st, p.horizontal_cell_block_count as int, cell),
        ),
    ensures
        scan_complete(p, st),
        bands_all(p, st),
{
    let hh = p.horizontal_cell_block_count as int;
    assert forall|c: int| in_grid(p, c) implies #[trigger] st.bands@[c] == band_start(
        st,
        hh,
        cell_of(c, hh),
    ) by {
        if !lex_lt(cell_of(c, hh), cell) && cell_of(c, hh) != cell {
            assert(st.surface_found@[c]);
            let k = choose|k: int|
                0 <= k < st.probes@.len() && st.probes@[k].0 == c && st.probes@[k].2;
            assert(st.probes@[k].0 == c);
        }
    }
    let h = p.horizontal_cell_block_count as int;
    assert forall|c: int, y: int|
        in_grid(p, c) && owed(p, st, c, y, band_of(p, st.bands@[c]).0) implies #[trigger] probed(
        st.probes@,
        c,
        y,
    ) by {
        assert(st.surface_found@[c]);
        let k = choose|k: int| 0 <= k < st.probes@.len() && st.probes@[k].0 == c && st.probes@[k].2;
        assert(st.probes@[k].2);
        assert(st.surface_heights@[c] == st.probes@[k].1);
        if lex_lt(cell_of(c, h), cell) {
        } else {
            assert(cell_of(st.probes@[k].0, h) == cell);
        }
    }
}

/// Requests of a layer's blocks, as the scan stands, are those of every scan that grows from
/// it by blocks after the layer.
proof fn lemma_layer_requests_close(
    p: GenerationParams,
    st: GenerationState,
    cell: (int, int),
    y: int,
    lim: (int, int),
    now: Seq<SamplerRequest>,
    before: Seq<SamplerRequest>,
)
    requires
        scan_ok(st),
        now == before + layer_blocks(p, st, cell, y, st.probes@.len() as int),
    ensures
        forall|st2: GenerationState|
            #[trigger] grows(
                st2,
                st,
                p.horizontal_cell_block_count as int,
                after_f(p.horizontal_cell_block_count as int, cell, y),
                lim,
            ) ==> now == before + layer_blocks(p, st2, cell, y, st2.probes@.len() as int),
{
    let h = p.horizontal_cell_block_count as int;
    assert forall|st2: GenerationState| #[trigger] grows(st2, st, h, after_f(h, cell, y), lim) implies now
        == before + layer_blocks(p, st2, cell, y, st2.probes@.len() as int) by {
        lemma_layer_blocks_grow(p, st2, st, cell, y, after_f(h, cell, y), lim);
    }
}

/// One more block layer of a cell layer: its interpolation and its blocks follow the
/// requests of the layers above it.
proof fn lemma_layer_step(
    p: GenerationParams,
    st_i: GenerationState,
    st_new: GenerationState,
    cell: (int, int),
    cy: int,
    k: int,
    base: Seq<SamplerRequest>,
    reqs_i: Seq<SamplerRequest>,
    reqs_new: Seq<SamplerRequest>,
)
    requires
        scan_ok(st_i),
        0 <= k < p.vertical_cell_block_count,
        probes_above(st_i.probes@, p.horizontal_cell_block_count as int, cell, layer_y(p, cy, k)),
        st_i.columns_completed < CHUNK_COLUMNS,
        forall|st2: GenerationState|
            #[trigger] grows(
                st2,
                st_i,
                p.horizontal_cell_block_count as int,
                after_f(p.horizontal_cell_block_count as int, cell, layer_y(p, cy, k + 1)),
                (cell.0, cell.1 + 1),
            ) ==> reqs_i == base + cy_layers(p, st2, cell, cy, k + 1),
        grows(
            st_new,
            st_i,
            p.horizontal_cell_block_count as int,
            in_layer_f(p.horizontal_cell_block_count as int, cell, layer_y(p, cy, k)),
            (cell.0, cell.1 + 1),
        ),
        forall|st3: GenerationState|
            #[trigger] grows(
                st3,
                st_new,
                p.horizontal_cell_block_count as int,
                after_f(p.horizontal_cell_block_count as int, cell, layer_y(p, cy, k)),
                (cell.0, cell.1 + 1),
            ) ==> reqs_new == reqs_i.push(
                SamplerRequest::InterpolateY {
                    local_y: k as u8,
                    vertical_cell_block_count: p.vertical_cell_block_count,
                },
            ) + layer_blocks(p, st3, cell, layer_y(p, cy, k), st3.probes@.len() as int),
    ensures
        forall|st3: GenerationState|
            #[trigger] grows(
                st3,
                st_new,
                p.horizontal_cell_block_count as int,
                after_f(p.horizontal_cell_block_count as int, cell, layer_y(p, cy, k)),
                (cell.0, cell.1 + 1),
            ) ==> reqs_new == base + cy_layers(p, st3, cell, cy, k),
{
    let h = p.horizontal_cell_block_count as int;
    let y = layer_y(p, cy, k);
    let lim = (cell.0, cell.1 + 1);
    assert(layer_y(p, cy, k + 1) == y + 1);
    assert forall|st3: GenerationState| #[trigger] grows(st3, st_new, h, after_f(h, cell, y), lim) implies reqs_new
        == base + cy_layers(p, st3, cell, cy, k) by {
        lemma_grows_trans(
            st3,
            st_new,
            st_i,
            h,
            after_f(h, cell, y),
            in_layer_f(h, cell, y),
            after_f(h, cell, y + 1),
            lim,
            lim,
            lim,
        );
        assert(grows(st3, st_i, h, after_f(h, cell, layer_y(p, cy, k + 1)), lim));
        assert forall|kk: int| 0 <= kk < st_i.probes@.len() implies #[trigger] before_f(h, cell, y)(
            st_i.probes@[kk],
        ) by {}
        lemma_count_all(st_i, before_f(h, cell, y));
        lemma_count_grow(st3, st_i, h, after_f(h, cell, y + 1), lim, before_f(h, cell, y));
        assert(reached(st3, h, cell, y));
        let iy = SamplerRequest::InterpolateY {
            local_y: k as u8,
            vertical_cell_block_count: p.vertical_cell_block_count,
        };
        let lb = layer_blocks(p, st3, cell, y, st3.probes@.len() as int);
        assert(layer_part(p, st3, cell, cy, k) == seq![iy] + lb);
        assert(cy_layers(p, st3, cell, cy, k) == cy_layers(p, st3, cell, cy, k + 1) + layer_part(
            p,
            st3,
            cell,
            cy,
            k,
        ));
        assert(reqs_i.push(iy) + lb =~= base + (cy_layers(p, st3, cell, cy, k + 1) + (seq![iy]
            + lb)));
    }
}

/// Once every column is found in block layer `k`, the layers below it add no requests.
proof fn lemma_layers_done(
    p: GenerationParams,
    st: GenerationState,
    cell: (int, int),
    cy: int,
    k: int,
    base: Seq<SamplerRequest>,
    reqs: Seq<SamplerRequest>,
)
    requires
        scan_ok(st),
        st.columns_completed == CHUNK_COLUMNS,
        0 <= k < p.vertical_cell_block_count,
        forall|kk: int|
            0 <= kk < st.probes@.len() ==> before_layer(
                #[trigger] st.probes@[kk],
                p.horizontal_cell_block_count as int,
                cell,
                layer_y(p, cy, k),
            ) || in_layer(st.probes@[kk], p.horizontal_cell_block_count as int, cell, layer_y(p, cy, k)),
        forall|st3: GenerationState|
            #[trigger] grows(
                st3,
                st,
                p.horizontal_cell_block_count as int,
                after_f(p.horizontal_cell_block_count as int, cell, layer_y(p, cy, k)),
                (cell.0, cell.1 + 1),
            ) ==> reqs == base + cy_layers(p, st3, cell, cy, k),
    ensures
        forall|st3: GenerationState|
            #[trigger] grows(
                st3,
                st,
                p.horizontal_cell_block_count as int,
                after_f(p.horizontal_cell_block_count as int, cell, layer_y(p, cy, 0)),
                (cell.0, cell.1 + 1),
            ) ==> reqs == base + cy_layers(p, st3, cell, cy, 0),
{
    let h = p.horizontal_cell_block_count as int;
    let lim = (cell.0, cell.1 + 1);
    let y0 = layer_y(p, cy, 0);
    let yk = layer_y(p, cy, k);
    assert(y0 <= yk);
    assert forall|st3: GenerationState| #[trigger] grows(st3, st, h, after_f(h, cell, y0), lim) implies reqs
        == base + cy_layers(p, st3, cell, cy, 0) by {
        lemma_grows_refl(st, h, after_f(h, cell, yk), lim);
        lemma_grows_trans(st3, st, st, h, after_f(h, cell, y0), after_f(h, cell, yk), after_f(h, cell, yk), lim, lim, lim);
        assert forall|ly: int| 0 <= ly < k implies #[trigger] layer_part(p, st3, cell, cy, ly) == Seq::<
            SamplerRequest,
        >::empty() by {
            let y = layer_y(p, cy, ly);
            assert(y < yk);
            assert forall|kk: int| 0 <= kk < st.probes@.len() implies #[trigger] before_f(h, cell, y)(
                st.probes@[kk],
            ) by {}
            lemma_count_at_least(st3, st, before_f(h, cell, y));
        }
        lemma_cy_layers_tail(p, st3, cell, cy, 0, k);
    }
}

proof fn lemma_layer_y_next(p: GenerationParams, cy: int)
    ensures
        layer_y(p, cy + 1, 0) == layer_y(p, cy, p.vertical_cell_block_count as int),
        layer_y(p, cy, p.vertical_cell_block_count - 1) + 1 == layer_y(p, cy + 1, 0),
{
    let v = p.vertical_cell_block_count as int;
    let m = p.minimum_cell_y as int;
    assert((m + cy + 1) * v == (m + cy) * v + v) by (nonlinear_arith);
}

/// One more cell layer of a cell: the reading of its corners and its block layers follow
/// the requests of the cell layers above it.
proof fn lemma_cy_step(
    p: GenerationParams,
    st_i: GenerationState,
    st_new: GenerationState,
    cell: (int, int),
    cy: int,
    hi: int,
    base: Seq<SamplerRequest>,
    reqs_i: Seq<SamplerRequest>,
    reqs_new: Seq<SamplerRequest>,
)
    requires
        scan_ok(st_i),
        p.vertical_cell_block_count >= 1,
        cy <= hi,
        probes_above(
            st_i.probes@,
            p.horizontal_cell_block_count as int,
            cell,
            layer_y(p, cy, p.vertical_cell_block_count - 1),
        ),
        st_i.columns_completed < CHUNK_COLUMNS,
        forall|st2: GenerationState|
            #[trigger] grows(
                st2,
                st_i,
                p.horizontal_cell_block_count as int,
                after_f(p.horizontal_cell_block_count as int, cell, layer_y(p, cy + 1, 0)),
                (cell.0, cell.1 + 1),
            ) ==> reqs_i == base + cell_cys(p, st2, cell, hi, cy + 1),
        grows(
            st_new,
            st_i,
            p.horizontal_cell_block_count as int,
            in_rows_f(
                p.horizontal_cell_block_count as int,
                cell,
                layer_y(p, cy, 0),
                layer_y(p, cy, p.vertical_cell_block_count - 1),
            ),
            (cell.0, cell.1 + 1),
        ),
        forall|st3: GenerationState|
            #[trigger] grows(
                st3,
                st_new,
                p.horizontal_cell_block_count as int,
                after_f(p.horizontal_cell_block_count as int, cell, layer_y(p, cy, 0)),
                (cell.0, cell.1 + 1),
            ) ==> reqs_new == reqs_i.push(
                SamplerRequest::CellCorners {
                    cell_x: cell.0 as u8,
                    cell_y: cy as u16,
                    cell_z: cell.1 as u8,
                },
            ) + cy_layers(p, st3, cell, cy, 0),
    ensures
        forall|st3: GenerationState|
            #[trigger] grows(
                st3,
                st_new,
                p.horizontal_cell_block_count as int,
                after_f(p.horizontal_cell_block_count as int, cell, layer_y(p, cy, 0)),
                (cell.0, cell.1 + 1),
            ) ==> reqs_new == base + cell_cys(p, st3, cell, hi, cy),
{
    let h = p.horizontal_cell_block_count as int;
    let v = p.vertical_cell_block_count as int;
    let lim = (cell.0, cell.1 + 1);
    let y0 = layer_y(p, cy, 0);
    let top = layer_y(p, cy, v - 1);
    let rows = in_rows_f(h, cell, y0, top);
    lemma_layer_y_next(p, cy);
    assert(y0 <= top) by (nonlinear_arith)
        requires
            y0 == (p.minimum_cell_y + cy) * v,
            top == (p.minimum_cell_y + cy) * v + v - 1,
            v >= 1,
    ;
    assert forall|st3: GenerationState| #[trigger] grows(st3, st_new, h, after_f(h, cell, y0), lim) implies reqs_new
        == base + cell_cys(p, st3, cell, hi, cy) by {
        lemma_grows_trans(
            st3,
            st_new,
            st_i,
            h,
            after_f(h, cell, y0),
            rows,
            after_f(h, cell, top + 1),
            lim,
            lim,
            lim,
        );
        assert(grows(st3, st_i, h, after_f(h, cell, layer_y(p, cy + 1, 0)), lim));
        assert forall|kk: int| 0 <= kk < st_i.probes@.len() implies #[trigger] before_f(h, cell, top)(
            st_i.probes@[kk],
        ) by {}
        lemma_count_all(st_i, before_f(h, cell, top));
        lemma_count_grow(st3, st_i, h, after_f(h, cell, top + 1), lim, before_f(h, cell, top));
        assert(reached(st3, h, cell, top));
        let cc = SamplerRequest::CellCorners {
            cell_x: cell.0 as u8,
            cell_y: cy as u16,
            cell_z: cell.1 as u8,
        };
        let ls = cy_layers(p, st3, cell, cy, 0);
        assert(cy_part(p, st3, cell, cy) == seq![cc] + ls);
        assert(cell_cys(p, st3, cell, hi, cy) == cell_cys(p, st3, cell, hi, cy + 1) + cy_part(
            p,
            st3,
            cell,
            cy,
        ));
        assert(reqs_i.push(cc) + ls =~= base + (cell_cys(p, st3, cell, hi, cy + 1) + (seq![cc]
            + ls)));
    }
}

/// Once every column is found above cell layer `c0` of a cell, the cell layers from `lo`
/// up to it add no requests, and later cells cannot change the cell's requests.
proof fn lemma_cys_done(
    p: GenerationParams,
    st: GenerationState,
    cell: (int, int),
    hi: int,
    lo: int,
    c0: int,
    base: Seq<SamplerRequest>,
    reqs: Seq<SamplerRequest>,
)
    requires
        scan_ok(st),
        st.columns_completed == CHUNK_COLUMNS,
        p.vertical_cell_block_count >= 1,
        lo <= c0,
        forall|kk: int|
            0 <= kk < st.probes@.len() ==> before_layer(
                #[trigger] st.probes@[kk],
                p.horizontal_cell_block_count as int,
                cell,
                layer_y(p, c0, 0) - 1,
            ),
        forall|st3: GenerationState|
            #[trigger] grows(
                st3,
                st,
                p.horizontal_cell_block_count as int,
                after_f(p.horizontal_cell_block_count as int, cell, layer_y(p, c0, 0)),
                (cell.0, cell.1 + 1),
            ) ==> reqs == base + cell_cys(p, st3, cell, hi, c0),
    ensures
        forall|st3: GenerationState|
            #[trigger] grows(
                st3,
                st,
                p.horizontal_cell_block_count as int,
                cells_from_f(p.horizontal_cell_block_count as int, (cell.0, cell.1 + 1)),
                (cell.0, cell.1 + 1),
            ) ==> reqs == base + cell_cys(p, st3, cell, hi, lo),
{
    let h = p.horizontal_cell_block_count as int;
    let v = p.vertical_cell_block_count as int;
    let lim = (cell.0, cell.1 + 1);
    let f = cells_from_f(h, lim);
    let g = after_f(h, cell, layer_y(p, c0, 0));
    assert forall|st3: GenerationState| #[trigger] grows(st3, st, h, f, lim) implies reqs == base
        + cell_cys(p, st3, cell, hi, lo) by {
        lemma_grows_refl(st, h, g, lim);
        lemma_grows_trans(st3, st, st, h, f, g, g, lim, lim, lim);
        assert forall|cy: int| lo <= cy < c0 implies #[trigger] cy_part(p, st3, cell, cy) == Seq::<
            SamplerRequest,
        >::empty() by {
            let top = layer_y(p, cy, v - 1);
            assert(top <= layer_y(p, c0, 0) - 1) by (nonlinear_arith)
                requires
                    top == (p.minimum_cell_y + cy) * v + v - 1,
                    layer_y(p, c0, 0) == (p.minimum_cell_y + c0) * v,
                    cy + 1 <= c0,
                    v >= 1,
            ;
            assert forall|kk: int| 0 <= kk < st.probes@.len() implies #[trigger] before_f(h, cell, top)(
                st.probes@[kk],
            ) by {}
            lemma_count_at_least(st3, st, before_f(h, cell, top));
        }
        lemma_cell_cys_tail(p, st3, cell, hi, lo, c0);
    }
}

/// A cell's requests, read with the band the cell was searched in.
proof fn lemma_cell_close(
    p: GenerationParams,
    st: GenerationState,
    cell: (int, int),
    band: (int, int),
    base: Seq<SamplerRequest>,
    reqs: Seq<SamplerRequest>,
)
    requires
        params_ok(p),
        0 <= cell.0 < p.horizontal_cells,
        0 <= cell.1 < p.horizontal_cells,
        st.bands@.len() == CHUNK_COLUMNS,
        cell_band(p, st.bands@, cell, band),
        forall|st3: GenerationState|
            #[trigger] grows(
                st3,
                st,
                p.horizontal_cell_block_count as int,
                cells_from_f(p.horizontal_cell_block_count as int, (cell.0, cell.1 + 1)),
                (cell.0, cell.1 + 1),
            ) ==> reqs == base + cell_cys(
                p,
                st3,
                cell,
                adaptive_cells(p, band.0, band.1).1,
                adaptive_cells(p, band.0, band.1).0,
            ),
    ensures
        forall|st3: GenerationState|
            #[trigger] grows(
                st3,
                st,
                p.horizontal_cell_block_count as int,
                cells_from_f(p.horizontal_cell_block_count as int, (cell.0, cell.1 + 1)),
                (cell.0, cell.1 + 1),
            ) ==> reqs == base + cell_part(p, st3, cell),
{
    let h = p.horizontal_cell_block_count as int;
    let lim = (cell.0, cell.1 + 1);
    lemma_cells_fit(h, cell.0, 0);
    lemma_cells_fit(h, cell.1, 0);
    lemma_column_cell(h, cell.0, cell.1, 0, 0);
    let col0 = column_index(cell.0 * h, cell.1 * h);
    assert(cell.0 * h + 0 == cell.0 * h && cell.1 * h + 0 == cell.1 * h);
    assert(st.bands@[col0] == band);
    assert forall|st3: GenerationState| #[trigger] grows(st3, st, h, cells_from_f(h, lim), lim) implies reqs
        == base + cell_part(p, st3, cell) by {
        assert(st3.bands@[col0] == st.bands@[col0]);
    }
}

/// Once every column is found in cells before `cell`, the cell adds no requests.
proof fn lemma_cell_part_empty(
    p: GenerationParams,
    st2: GenerationState,
    st: GenerationState,
    cell: (int, int),
)
    requires
        extends(st2, st),
        scan_ok(st),
        st.columns_completed == CHUNK_COLUMNS,
        forall|kk: int|
            0 <= kk < st.probes@.len() ==> lex_lt(
                cell_of((#[trigger] st.probes@[kk]).0, p.horizontal_cell_block_count as int),
                cell,
            ),
    ensures
        cell_part(p, st2, cell) == Seq::<SamplerRequest>::empty(),
{
    let h = p.horizontal_cell_block_count as int;
    let v = p.vertical_cell_block_count as int;
    let band = st2.bands@[column_index(cell.0 * h, cell.1 * h)];
    let cells = adaptive_cells(p, band.0, band.1);
    let (lo, hi) = (cells.0, cells.1);
    if lo <= hi + 1 {
        assert forall|cy: int| lo <= cy < hi + 1 implies #[trigger] cy_part(p, st2, cell, cy) == Seq::<
            SamplerRequest,
        >::empty() by {
            let top = layer_y(p, cy, v - 1);
            assert forall|kk: int| 0 <= kk < st.probes@.len() implies #[trigger] before_f(h, cell, top)(
                st.probes@[kk],
            ) by {}
            lemma_count_at_least(st2, st, before_f(h, cell, top));
        }
        lemma_cell_cys_tail(p, st2, cell, hi, lo, hi + 1);
    }
}

/// Once every column is found in cell columns before `cx`, cell column `cx` adds no
/// requests.
proof fn lemma_x_part_empty(p: GenerationParams, st2: GenerationState, st: GenerationState, cx: int)
    requires
        extends(st2, st),
        scan_ok(st),
        st.columns_completed == CHUNK_COLUMNS,
        p.horizontal_cells >= 0,
        forall|kk: int|
            0 <= kk < st.probes@.len() ==> lex_lt(
                cell_of((#[trigger] st.probes@[kk]).0, p.horizontal_cell_block_count as int),
                (cx, 0),
            ),
    ensures
        x_part(p, st2, cx) == Seq::<SamplerRequest>::empty(),
{
    let h = p.horizontal_cell_block_count as int;
    assert forall|kk: int| 0 <= kk < st.probes@.len() implies #[trigger] cells_before_f(h, (cx, 0))(
        st.probes@[kk],
    ) by {}
    lemma_count_at_least(st2, st, cells_before_f(h, (cx, 0)));
    assert forall|kk: int| 0 <= kk < st.probes@.len() implies #[trigger] cells_before_f(h, (cx + 1, 0))(
        st.probes@[kk],
    ) by {}
    lemma_count_at_least(st2, st, cells_before_f(h, (cx + 1, 0)));
    assert forall|cz: int| 0 <= cz < p.horizontal_cells implies #[trigger] cell_part(p, st2, (cx, cz))
        == Seq::<SamplerRequest>::empty() by {
        lemma_cell_part_empty(p, st2, st, (cx, cz));
    }
    lemma_x_cells_tail(p, st2, cx, 0, p.horizontal_cells as int);
    assert(x_part(p, st2, cx) =~= Seq::<SamplerRequest>::empty());
}

/// One more cell column, with columns left to find after it: the densities at its end,
/// its cells and the move to the next column follow the requests of the columns before it.
proof fn lemma_x_step(
    p: GenerationParams,
    st_i: GenerationState,
    st_new: GenerationState,
    cx: int,
    base: Seq<SamplerRequest>,
    reqs_i: Seq<SamplerRequest>,
    reqs_new: Seq<SamplerRequest>,
)
    requires
        scan_ok(st_i),
        scan_ok(st_new),
        0 <= cx < p.horizontal_cells,
        st_i.columns_completed < CHUNK_COLUMNS,
        st_new.columns_completed < CHUNK_COLUMNS,
        probes_before_cell(st_i.probes@, p.horizontal_cell_block_count as int, (cx, 0)),
        probes_before_cell(st_new.probes@, p.horizontal_cell_block_count as int, (cx + 1, 0)),
        forall|st2: GenerationState|
            #[trigger] grows(
                st2,
                st_i,
                p.horizontal_cell_block_count as int,
                cells_from_f(p.horizontal_cell_block_count as int, (cx, 0)),
                (cx, 0),
            ) ==> reqs_i == base + scan_xs(p, st2, cx),
        grows(
            st_new,
            st_i,
            p.horizontal_cell_block_count as int,
            cells_from_f(p.horizontal_cell_block_count as int, (cx, 0)),
            (cx, 0),
        ),
        forall|st3: GenerationState|
            #[trigger] grows(
                st3,
                st_new,
                p.horizontal_cell_block_count as int,
                cells_from_f(p.horizontal_cell_block_count as int, (cx + 1, 0)),
                (cx + 1, 0),
            ) ==> reqs_new == (reqs_i.push(SamplerRequest::EndDensity { cell_x: cx as u8 }) + x_cells(
                p,
                st3,
                cx,
                p.horizontal_cells as int,
            )).push(SamplerRequest::SwapBuffers),
    ensures
        forall|st3: GenerationState|
            #[trigger] grows(
                st3,
                st_new,
                p.horizontal_cell_block_count as int,
                cells_from_f(p.horizontal_cell_block_count as int, (cx + 1, 0)),
                (cx + 1, 0),
            ) ==> reqs_new == base + scan_xs(p, st3, cx + 1),
{
    let h = p.horizontal_cell_block_count as int;
    let here = (cx, 0);
    let next = (cx + 1, 0);
    assert forall|st3: GenerationState| #[trigger] grows(st3, st_new, h, cells_from_f(h, next), next) implies reqs_new
        == base + scan_xs(p, st3, cx + 1) by {
        lemma_grows_trans(
            st3,
            st_new,
            st_i,
            h,
            cells_from_f(h, next),
            cells_from_f(h, here),
            cells_from_f(h, here),
            next,
            here,
            here,
        );
        assert forall|kk: int| 0 <= kk < st_i.probes@.len() implies #[trigger] cells_before_f(h, here)(
            st_i.probes@[kk],
        ) by {}
        lemma_count_all(st_i, cells_before_f(h, here));
        lemma_count_grow(st3, st_i, h, cells_from_f(h, here), here, cells_before_f(h, here));
        assert forall|kk: int| 0 <= kk < st_new.probes@.len() implies #[trigger] cells_before_f(h, next)(
            st_new.probes@[kk],
        ) by {}
        lemma_count_all(st_new, cells_before_f(h, next));
        lemma_count_grow(st3, st_new, h, cells_from_f(h, next), next, cells_before_f(h, next));
        assert(reached_cell(st3, h, here));
        assert(reached_cell(st3, h, next));
        let ed = SamplerRequest::EndDensity { cell_x: cx as u8 };
        let xc = x_cells(p, st3, cx, p.horizontal_cells as int);
        assert(reqs_i == base + scan_xs(p, st3, cx));
        assert(x_part(p, st3, cx) == seq![ed] + xc + seq![SamplerRequest::SwapBuffers]);
        assert(scan_xs(p, st3, cx + 1) == scan_xs(p, st3, cx) + x_part(p, st3, cx));
        assert((reqs_i.push(ed) + xc).push(SamplerRequest::SwapBuffers) =~= base + (scan_xs(
            p,
            st3,
            cx,
        ) + (seq![ed] + xc + seq![SamplerRequest::SwapBuffers])));
    }
}

/// The cell column in which every column is found ends the scan's requests: the densities
/// at its end and its cells follow the requests before it, and nothing comes after.
proof fn lemma_x_done(
    p: GenerationParams,
    st_i: GenerationState,
    st_new: GenerationState,
    cx: int,
    base: Seq<SamplerRequest>,
    reqs_i: Seq<SamplerRequest>,
    reqs_new: Seq<SamplerRequest>,
)
    requires
        scan_ok(st_i),
        scan_ok(st_new),
        0 <= cx < p.horizontal_cells,
        st_i.columns_completed < CHUNK_COLUMNS,
        st_new.columns_completed == CHUNK_COLUMNS,
        probes_before_cell(st_i.probes@, p.horizontal_cell_block_count as int, (cx, 0)),
        probes_before_cell(st_new.probes@, p.horizontal_cell_block_count as int, (cx + 1, 0)),
        forall|st2: GenerationState|
            #[trigger] grows(
                st2,
                st_i,
                p.horizontal_cell_block_count as int,
                cells_from_f(p.horizontal_cell_block_count as int, (cx, 0)),
                (cx, 0),
            ) ==> reqs_i == base + scan_xs(p, st2, cx),
        grows(
            st_new,
            st_i,
            p.horizontal_cell_block_count as int,
            cells_from_f(p.horizontal_cell_block_count as int, (cx, 0)),
            (cx, 0),
        ),
        reqs_new == reqs_i.push(SamplerRequest::EndDensity { cell_x: cx as u8 }) + x_cells(
            p,
            st_new,
            cx,
            p.horizontal_cells as int,
        ),
    ensures
        reqs_new == base + scan_xs(p, st_new, p.horizontal_cells as int),
{
    let h = p.horizontal_cell_block_count as int;
    let here = (cx, 0);
    let next = (cx + 1, 0);
    assert(reqs_i == base + scan_xs(p, st_new, cx));
    assert forall|kk: int| 0 <= kk < st_i.probes@.len() implies #[trigger] cells_before_f(h, here)(
        st_i.probes@[kk],
    ) by {}
    lemma_count_all(st_i, cells_before_f(h, here));
    lemma_count_grow(st_new, st_i, h, cells_from_f(h, here), here, cells_before_f(h, here));
    assert(reached_cell(st_new, h, here));
    assert forall|kk: int| 0 <= kk < st_new.probes@.len() implies #[trigger] cells_before_f(h, next)(
        st_new.probes@[kk],
    ) by {}
    lemma_count_all(st_new, cells_before_f(h, next));
    assert(!reached_cell(st_new, h, next));
    let ed = SamplerRequest::EndDensity { cell_x: cx as u8 };
    let xc = x_cells(p, st_new, cx, p.horizontal_cells as int);
    assert(x_part(p, st_new, cx) =~= seq![ed] + xc);
    assert forall|c: int| cx + 1 <= c < p.horizontal_cells implies #[trigger] x_part(p, st_new, c)
        == Seq::<SamplerRequest>::empty() by {
        lemma_x_part_empty(p, st_new, st_new, c);
    }
    lemma_scan_xs_tail(p, st_new, cx + 1, p.horizontal_cells as int);
    assert(reqs_i.push(ed) + xc =~= base + (scan_xs(p, st_new, cx) + (seq![ed] + xc)));
}

impl SurfaceHeightGenerator {
    /// Records the surface of column `(chunk_local_x, chunk_local_z)` at `block_y` and updates
    /// the surface estimate: the column is marked found with height `block_y`, every other
    /// column stays as it was, one more column counts as found (still the number of columns
    /// marked found), and `block_y` is appended to the surfaces found.
    pub fn handle_surface_found<F: Fn(SamplerRequest) -> SamplerReply>(
        &self,
        state: &mut GenerationState,
        chunk_local_x: usize,
        chunk_local_z: usize,
        block_y: i32,
        log: &mut SamplerLog<F>,
    )
        requires
            forall|q: SamplerRequest| old(log).sampler().requires((q,)),
            chunk_local_x < 16,
            chunk_local_z < 16,
            scan_ok(*old(state)),
            !old(state).surface_found@[column_index(chunk_local_x as int, chunk_local_z as int)],
            LOWEST_BLOCK_Y <= block_y <= HIGHEST_BLOCK_Y,
            history_ok(old(log).sampler(), *old(state)),
        ensures
            final(log).sampler() == old(log).sampler(),
            final(state).surface_found@ == old(state).surface_found@.update(
                column_index(chunk_local_x as int, chunk_local_z as int),
                true,
            ),
            final(state).surface_heights@ == old(state).surface_heights@.update(
                column_index(chunk_local_x as int, chunk_local_z as int),
                block_y as i64,
            ),
            final(state).columns_completed == old(state).columns_completed + 1,
            final(state).columns_completed == count_true(final(state).surface_found@),
            final(state).columns_completed <= CHUNK_COLUMNS,
            final(state).surface_samples@ == old(state).surface_samples@.push(block_y),
            final(state).probes == old(state).probes,
            final(state).bands == old(state).bands,
            -ESTIMATE_LIMIT <= final(state).estimated_surface_y <= ESTIMATE_LIMIT,
            final(state).estimates@ == old(state).estimates@.push(final(state).estimated_surface_y),
            history_ok(old(log).sampler(), *final(state)),
            requests_of(final(log).entries()) == requests_of(old(log).entries()) + blend_requests(
                old(state).surface_samples.len() + 1,
                SAMPLES_FOR_CONVERGENCE as int,
                old(state).estimated_surface_y,
                block_y,
            ),
    {
        proof {
            use_type_invariant(self);
            lemma_count_true_bounds(state.surface_found@);
            lemma_count_true_update(
                state.surface_found@,
                column_index(chunk_local_x as int, chunk_local_z as int),
            );
            lemma_count_true_bounds(
                state.surface_found@.update(
                    column_index(chunk_local_x as int, chunk_local_z as int),
                    true,
                ),
            );
        }
        let index = chunk_local_x * (CHUNK_DIM as usize) + chunk_local_z;
        state.surface_heights.set(index, block_y as i64);
        state.surface_found.set(index, true);
        state.columns_completed = state.columns_completed + 1;
        state.surface_samples.push(block_y);
        proof {
            assert forall|i: int|
                0 <= i < state.surface_samples.len() implies LOWEST_BLOCK_Y
                <= #[trigger] state.surface_samples[i] <= HIGHEST_BLOCK_Y by {
                if i < state.surface_samples.len() - 1 {
                    assert(state.surface_samples[i] == old(state).surface_samples[i]);
                }
            }
        }
        let ghost mid = *state;
        state.update_surface_estimate(self.samples_for_convergence, log);
        state.estimates = Ghost(state.estimates@.push(state.estimated_surface_y));
        proof {
            let k = old(state).surface_samples.len() as int;
            let smp = state.surface_samples@;
            let est = state.estimates@;
            assert(smp.take(k + 1) =~= smp);
            assert(smp[k] == smp.last());
            assert(est[k] == old(state).estimated_surface_y);
            assert(estimate_step(old(log).sampler(), smp, est, k));
            assert forall|j: int| 0 <= j < smp.len() implies #[trigger] estimate_step(
                old(log).sampler(),
                smp,
                est,
                j,
            ) by {
                if j < k {
                    let os = old(state).surface_samples@;
                    let oe = old(state).estimates@;
                    assert(estimate_step(old(log).sampler(), os, oe, j));
                    assert(smp.take(j + 1) =~= os.take(j + 1));
                    assert(smp[j] == os[j]);
                    assert(est[j] == oe[j]);
                    assert(est[j + 1] == oe[j + 1]);
                }
            }
        }
    }

    /// Asks for every block of layer `block_y` of a cell whose column is not yet found, and
    /// records the solid ones. Returns `true` once every column is found.
    #[verifier::rlimit(60)]
    fn process_blocks_at_height<F: Fn(SamplerRequest) -> SamplerReply>(
        &self,
        params: &GenerationParams,
        state: &mut GenerationState,
        cell_bounds: &CellBounds,
        block_y: i32,
        local_y: i32,
        sample_start_y: i32,
        cell: Ghost<(int, int)>,
        band: Ghost<(int, int)>,
        log: &mut SamplerLog<F>,
    ) -> (done: bool)
        requires
            forall|q: SamplerRequest| old(log).sampler().requires((q,)),
            params_ok(*params),
            0 <= cell@.0 < params.horizontal_cells,
            0 <= cell@.1 < params.horizontal_cells,
            cell_bounds.cell_start_x == params.start_block_x + cell@.0
                * params.horizontal_cell_block_count,
            cell_bounds.cell_start_z == params.start_block_z + cell@.1
                * params.horizontal_cell_block_count,
            scan_ok(*old(state)),
            descending(old(state).probes@),
            scan_ordered(old(state).probes@, params.horizontal_cell_block_count as int),
            answered(old(log).sampler(), old(state).probes@, params.start_block_x as int, params.start_block_z as int),
            history_ok(old(log).sampler(), *old(state)),
            probes_above(
                old(state).probes@,
                params.horizontal_cell_block_count as int,
                cell@,
                block_y as int,
            ),
            LOWEST_BLOCK_Y <= block_y <= HIGHEST_BLOCK_Y,
            in_bands(*params, old(state).probes@, old(state).bands@),
            probes_in_grid(*params, old(state).probes@),
            cell_band(*params, old(state).bands@, cell@, band@),
            band_of(*params, band@).0 <= block_y <= band_of(*params, band@).1,
            covered_cells(*params, *old(state), cell@),
            covered_in(*params, *old(state), cell@, block_y as int, (0, 0)),
            band@ == band_start(*old(state), params.horizontal_cell_block_count as int, cell@),
            bands_before(*params, *old(state), cell@),
            old(state).columns_completed < CHUNK_COLUMNS,
            cell_bounds.sample_start_x == (params.start_cell_x + cell@.0)
                * params.horizontal_cell_block_count,
            cell_bounds.sample_start_z == (params.start_cell_z + cell@.1)
                * params.horizontal_cell_block_count,
            0 <= local_y < params.vertical_cell_block_count,
            sample_start_y == block_y - local_y,
            (block_y as int) / (params.vertical_cell_block_count as int) * (
            params.vertical_cell_block_count as int) == sample_start_y,
        ensures
            final(log).sampler() == old(log).sampler(),
            scan_ok(*final(state)),
            descending(final(state).probes@),
            scan_ordered(final(state).probes@, params.horizontal_cell_block_count as int),
            answered(old(log).sampler(), final(state).probes@, params.start_block_x as int, params.start_block_z as int),
            history_ok(old(log).sampler(), *final(state)),
            done ==> final(state).columns_completed == CHUNK_COLUMNS,
            !done ==> final(state).columns_completed < CHUNK_COLUMNS,
            !done ==> probes_above(
                final(state).probes@,
                params.horizontal_cell_block_count as int,
                cell@,
                block_y - 1,
            ),
            final(state).bands@ == old(state).bands@,
            in_bands(*params, final(state).probes@, final(state).bands@),
            probes_in_grid(*params, final(state).probes@),
            covered_cells(*params, *final(state), cell@),
            done ==> scan_complete(*params, *final(state)),
            !done ==> covered_in(*params, *final(state), cell@, block_y - 1, (0, 0)),
            band@ == band_start(*final(state), params.horizontal_cell_block_count as int, cell@),
            bands_before(*params, *final(state), cell@),
            done ==> bands_all(*params, *final(state)),
            grows(
                *final(state),
                *old(state),
                params.horizontal_cell_block_count as int,
                in_layer_f(params.horizontal_cell_block_count as int, cell@, block_y as int),
                (cell@.0, cell@.1 + 1),
            ),
            forall|st2: GenerationState|
                #[trigger] grows(
                    st2,
                    *final(state),
                    params.horizontal_cell_block_count as int,
                    after_f(params.horizontal_cell_block_count as int, cell@, block_y as int),
                    (cell@.0, cell@.1 + 1),
                ) ==> requests_of(final(log).entries()) == requests_of(old(log).entries())
                    + layer_blocks(*params, st2, cell@, block_y as int, st2.probes@.len() as int),
    {
        let ghost bands0 = state.bands@;
        let h = params.horizontal_cell_block_count;
        let ghost hh = h as int;
        proof {
            assert forall|k: int| 0 <= k < state.probes@.len() implies lex_lt(
                cell_of((#[trigger] state.probes@[k]).0, hh),
                cell@,
            ) || (cell_of(state.probes@[k].0, hh) == cell@ && (state.probes@[k].1 > block_y || (
            state.probes@[k].1 == block_y && lex_lt(local_of(state.probes@[k].0, hh), (0, 0))))) by {}
            assert forall|k: int| 0 <= k < state.probes@.len() implies !in_layer(
                #[trigger] state.probes@[k],
                hh,
                cell@,
                block_y as int,
            ) by {}
            lemma_layer_blocks_skip(*params, *state, cell@, block_y as int, 0, state.probes@.len() as int);
            assert(requests_of(log.entries()) =~= requests_of(old(log).entries()) + layer_blocks(
                *params,
                *state,
                cell@,
                block_y as int,
                state.probes@.len() as int,
            ));
            lemma_grows_refl(*state, hh, in_layer_f(hh, cell@, block_y as int), (cell@.0, cell@.1 + 1));
        }
        let mut local_x: u8 = 0;
        while local_x < h
            invariant
                forall|q: SamplerRequest| old(log).sampler().requires((q,)),
                log.sampler() == old(log).sampler(),
                params_ok(*params),
                h == params.horizontal_cell_block_count,
                hh == h as int,
                0 <= cell@.0 < params.horizontal_cells,
                0 <= cell@.1 < params.horizontal_cells,
                cell_bounds.cell_start_x == params.start_block_x + cell@.0 * hh,
                cell_bounds.cell_start_z == params.start_block_z + cell@.1 * hh,
                LOWEST_BLOCK_Y <= block_y <= HIGHEST_BLOCK_Y,
                local_x <= h,
                scan_ok(*state),
                descending(state.probes@),
                scan_ordered(state.probes@, params.horizontal_cell_block_count as int),
                answered(old(log).sampler(), state.probes@, params.start_block_x as int, params.start_block_z as int),
                history_ok(old(log).sampler(), *state),
                probes_before_block(state.probes@, hh, cell@, block_y as int, (local_x as int, 0)),
                state.bands@ == bands0,
                bands0 == old(state).bands@,
                in_bands(*params, state.probes@, bands0),
                probes_in_grid(*params, state.probes@),
                cell_band(*params, bands0, cell@, band@),
                band_of(*params, band@).0 <= block_y <= band_of(*params, band@).1,
                covered_cells(*params, *state, cell@),
                covered_in(*params, *state, cell@, block_y as int, (local_x as int, 0)),
                band@ == band_start(*state, hh, cell@),
                bands_before(*params, *state, cell@),
                state.columns_completed < CHUNK_COLUMNS,
                requests_of(log.entries()) == requests_of(old(log).entries()) + layer_blocks(
                    *params,
                    *state,
                    cell@,
                    block_y as int,
                    state.probes@.len() as int,
                ),
                grows(*state, *old(state), hh, in_layer_f(hh, cell@, block_y as int), (cell@.0, cell@.1 + 1)),
                cell_bounds.sample_start_x == (params.start_cell_x + cell@.0) * hh,
                cell_bounds.sample_start_z == (params.start_cell_z + cell@.1) * hh,
                0 <= local_y < params.vertical_cell_block_count,
                sample_start_y == block_y - local_y,
                (block_y as int) / (params.vertical_cell_block_count as int) * (
                params.vertical_cell_block_count as int) == sample_start_y,
            decreases h - local_x,
        {
            proof {
                lemma_cells_fit(hh, cell@.0, local_x as int);
            }
            let block_x = cell_bounds.cell_start_x + local_x as i32;
            let chunk_local_x = (block_x - params.start_block_x) as usize;
            let mut local_z: u8 = 0;
            while local_z < h
                invariant
                    forall|q: SamplerRequest| old(log).sampler().requires((q,)),
                    log.sampler() == old(log).sampler(),
                    params_ok(*params),
                    h == params.horizontal_cell_block_count,
                    hh == h as int,
                    0 <= cell@.0 < params.horizontal_cells,
                    0 <= cell@.1 < params.horizontal_cells,
                    cell_bounds.cell_start_z == params.start_block_z + cell@.1 * hh,
                    LOWEST_BLOCK_Y <= block_y <= HIGHEST_BLOCK_Y,
                    local_x < h,
                    local_z <= h,
                    chunk_local_x == cell@.0 * hh + local_x,
                    chunk_local_x < 16,
                    block_x == params.start_block_x + chunk_local_x,
                    scan_ok(*state),
                    descending(state.probes@),
                    scan_ordered(state.probes@, params.horizontal_cell_block_count as int),
                    answered(old(log).sampler(), state.probes@, params.start_block_x as int, params.start_block_z as int),
                    history_ok(old(log).sampler(), *state),
                    probes_before_block(
                        state.probes@,
                        hh,
                        cell@,
                        block_y as int,
                        (local_x as int, local_z as int),
                    ),
                    state.bands@ == bands0,
                    bands0 == old(state).bands@,
                    in_bands(*params, state.probes@, bands0),
                    probes_in_grid(*params, state.probes@),
                    cell_band(*params, bands0, cell@, band@),
                    band_of(*params, band@).0 <= block_y <= band_of(*params, band@).1,
                    covered_cells(*params, *state, cell@),
                    covered_in(*params, *state, cell@, block_y as int, (local_x as int, local_z as int)),
                    band@ == band_start(*state, hh, cell@),
                    bands_before(*params, *state, cell@),
                    state.columns_completed < CHUNK_COLUMNS,
                    requests_of(log.entries()) == requests_of(old(log).entries()) + layer_blocks(
                        *params,
                        *state,
                        cell@,
                        block_y as int,
                        state.probes@.len() as int,
                    ),
                    grows(*state, *old(state), hh, in_layer_f(hh, cell@, block_y as int), (cell@.0, cell@.1 + 1)),
                    cell_bounds.sample_start_x == (params.start_cell_x + cell@.0) * hh,
                    cell_bounds.sample_start_z == (params.start_cell_z + cell@.1) * hh,
                    0 <= local_y < params.vertical_cell_block_count,
                    sample_start_y == block_y - local_y,
                    (block_y as int) / (params.vertical_cell_block_count as int) * (
                    params.vertical_cell_block_count as int) == sample_start_y,
                decreases h - local_z,
            {
                proof {
                    lemma_cells_fit(hh, cell@.1, local_z as int);
                    lemma_column_cell(hh, cell@.0, cell@.1, local_x as int, local_z as int);
                }
                let block_z = cell_bounds.cell_start_z + local_z as i32;
                let chunk_local_z = (block_z - params.start_block_z) as usize;
                let index = chunk_local_x * (CHUNK_DIM as usize) + chunk_local_z;
                if !state.surface_found[index] {
                    let ghost request = SamplerRequest::SampleBlock {
                        sample_start: (
                            cell_bounds.sample_start_x,
                            sample_start_y,
                            cell_bounds.sample_start_z,
                        ),
                        local: (local_x as i32, local_y, local_z as i32),
                        block: (block_x, block_y, block_z),
                        horizontal_cell_block_count: h,
                    };
                    let ghost e0 = log.entries();
                    let reply = log.ask(
                        SamplerRequest::SampleBlock {
                            sample_start: (
                                cell_bounds.sample_start_x,
                                sample_start_y,
                                cell_bounds.sample_start_z,
                            ),
                            local: (local_x as i32, local_y, local_z as i32),
                            block: (block_x, block_y, block_z),
                            horizontal_cell_block_count: h,
                        },
                    );
                    proof {
                        assert(call_ensures(old(log).sampler(), (request,), reply));
                    }
                    let solid = reply.solid;
                    let ghost before = *state;
                    let ghost e1 = log.entries();
                    if solid {
                        self.handle_surface_found(
                            state,
                            chunk_local_x,
                            chunk_local_z,
                            block_y,
                            log,
                        );
                    }
                    state.probes = Ghost(state.probes@.push((index as int, block_y as int, solid)));
                    proof {
                        lemma_probe_step(
                            before.surface_found@,
                            before.surface_heights@,
                            before.probes@,
                            index as int,
                            block_y as int,
                            solid,
                        );
                        if !solid {
                            assert(state.surface_found@ == before.surface_found@);
                        }
                        let p2 = state.probes@;
                        let n = before.probes@.len() as int;
                        assert(p2.drop_last() =~= before.probes@);
                        if solid {
                            assert(samples_view(state.surface_samples@) =~= samples_view(
                                before.surface_samples@,
                            ).push(block_y as int));
                        }
                        vstd::arithmetic::div_mod::lemma_fundamental_div_mod_converse(
                            index as int,
                            16,
                            chunk_local_x as int,
                            chunk_local_z as int,
                        );
                        assert(probe_answered(
                            old(log).sampler(),
                            p2[n],
                            params.start_block_x as int,
                            params.start_block_z as int,
                        ));
                        assert forall|k: int| 0 <= k < p2.len() implies #[trigger] probe_answered(
                            old(log).sampler(),
                            p2[k],
                            params.start_block_x as int,
                            params.start_block_z as int,
                        ) by {
                            if k < n {
                                assert(p2[k] == before.probes@[k]);
                            }
                        }
                        assert forall|k1: int, k2: int|
                            0 <= k1 < k2 < p2.len() implies scan_before(
                            #[trigger] p2[k1],
                            #[trigger] p2[k2],
                            hh,
                        ) by {
                            assert(p2[k1] == before.probes@[k1]);
                            if k2 < n {
                                assert(p2[k2] == before.probes@[k2]);
                            }
                        }
                        assert forall|k1: int, k2: int|
                            0 <= k1 < k2 < p2.len() && (#[trigger] p2[k1]).0 == (
                            #[trigger] p2[k2]).0 implies p2[k1].1 > p2[k2].1 by {
                            assert(p2[k1] == before.probes@[k1]);
                            if k2 < n {
                                assert(p2[k2] == before.probes@[k2]);
                            }
                        }
                        assert forall|k: int| 0 <= k < p2.len() implies lex_lt(
                            cell_of((#[trigger] p2[k]).0, hh),
                            cell@,
                        ) || (cell_of(p2[k].0, hh) == cell@ && (p2[k].1 > block_y || (p2[k].1
                            == block_y && lex_lt(
                            local_of(p2[k].0, hh),
                            (local_x as int, local_z + 1),
                        )))) by {
                            if k < n {
                                assert(p2[k] == before.probes@[k]);
                            }
                        }
                        assert forall|k: int| 0 <= k < p2.len() implies in_grid(
                            *params,
                            (#[trigger] p2[k]).0,
                        ) by {
                            if k < n {
                                assert(p2[k] == before.probes@[k]);
                            }
                        }
                        assert forall|k: int| 0 <= k < p2.len() implies band_of(
                            *params,
                            bands0[(#[trigger] p2[k]).0],
                        ).0 <= p2[k].1 <= band_of(*params, bands0[p2[k].0]).1 by {
                            if k < n {
                                assert(p2[k] == before.probes@[k]);
                            } else {
                                assert(bands0[index as int] == band@);
                            }
                        }
                        let st = *state;
                        let pos = (local_x as int, local_z + 1);
                        if solid {
                            lemma_band_start_stable(before, st, hh, cell@, index as int);
                            assert forall|c: int|
                                in_grid(*params, c) && lex_lt(
                                    cell_of(c, hh),
                                    cell@,
                                ) implies #[trigger] st.bands@[c] == band_start(
                                st,
                                hh,
                                cell_of(c, hh),
                            ) by {
                                lemma_band_start_stable(before, st, hh, cell_of(c, hh), index as int);
                            }
                        }
                        assert forall|c: int, y: int|
                            0 <= c < CHUNK_COLUMNS && cell_of(c, hh) == cell@ && owed(
                                *params,
                                st,
                                c,
                                y,
                                if lex_lt(local_of(c, hh), pos) {
                                    block_y as int
                                } else {
                                    block_y + 1
                                },
                            ) implies #[trigger] probed(st.probes@, c, y) by {
                            if c == index {
                                if !solid && y == block_y {
                                    assert(p2[n] == (c, y, false));
                                } else {
                                    assert(owed(*params, before, c, y, block_y + 1));
                                    lemma_probed_push(before.probes@, p2[n], c, y);
                                }
                            } else {
                                if local_of(c, hh) == (local_x as int, local_z as int) {
                                    lemma_col_unique(c, index as int, hh);
                                }
                                assert(owed(
                                    *params,
                                    before,
                                    c,
                                    y,
                                    if lex_lt(local_of(c, hh), (local_x as int, local_z as int)) {
                                        block_y as int
                                    } else {
                                        block_y + 1
                                    },
                                ));
                                lemma_probed_push(before.probes@, p2[n], c, y);
                            }
                        }
                        assert forall|c: int, y: int|
                            in_grid(*params, c) && lex_lt(cell_of(c, hh), cell@) && owed(
                                *params,
                                st,
                                c,
                                y,
                                band_of(*params, st.bands@[c]).0,
                            ) implies #[trigger] probed(st.probes@, c, y) by {
                            assert(c != index);
                            assert(owed(*params, before, c, y, band_of(*params, st.bands@[c]).0));
                            lemma_probed_push(before.probes@, p2[n], c, y);
                        }
                    }
                    proof {
                        let n = before.probes@.len() as int;
                        let st = *state;
                        lemma_requests_push(e0, (request, reply));
                        assert(st.probes@.take(n) =~= before.probes@);
                        assert(samples_view(before.surface_samples@).len()
                            == before.surface_samples@.len());
                        lemma_column_cell(hh, cell@.0, cell@.1, local_x as int, local_z as int);
                        vstd::arithmetic::div_mod::lemma_fundamental_div_mod_converse(
                            index as int,
                            16,
                            chunk_local_x as int,
                            chunk_local_z as int,
                        );
                        assert(st.probes@[n] == (index as int, block_y as int, solid));
                        assert(before.estimates@[before.surface_samples.len() as int]
                            == before.estimated_surface_y);
                        assert(probe_requests(*params, st, n) =~= seq![request] + if solid {
                            blend_requests(
                                before.surface_samples.len() + 1,
                                SAMPLES_FOR_CONVERGENCE as int,
                                before.estimated_surface_y,
                                block_y,
                            )
                        } else {
                            Seq::empty()
                        });
                        assert(extends(st, before));
                        lemma_layer_blocks_push(*params, st, before, cell@, block_y as int);
                        assert(requests_of(log.entries()) =~= requests_of(old(log).entries())
                            + layer_blocks(*params, st, cell@, block_y as int, st.probes@.len() as int));
                        assert(in_layer_f(hh, cell@, block_y as int)(st.probes@[n]));
                        assert(grows(st, *old(state), hh, in_layer_f(hh, cell@, block_y as int), (cell@.0, cell@.1 + 1)));
                    }
                    if solid && state.columns_completed >= CHUNK_COLUMNS {
                        proof {
                            lemma_layer_requests_close(
                                *params,
                                *state,
                                cell@,
                                block_y as int,
                                (cell@.0, cell@.1 + 1),
                                requests_of(log.entries()),
                                requests_of(old(log).entries()),
                            );
                            lemma_count_true_bounds(state.surface_found@);
                            lemma_done_complete(
                                *params,
                                *state,
                                cell@,
                                block_y as int,
                                (local_x as int, local_z + 1),
                            );
                        }
                        return true;
                    }
                } else {
                    proof {
                        let st = *state;
                        let pos = (local_x as int, local_z + 1);
                        assert forall|c: int, y: int|
                            0 <= c < CHUNK_COLUMNS && cell_of(c, hh) == cell@ && owed(
                                *params,
                                st,
                                c,
                                y,
                                if lex_lt(local_of(c, hh), pos) {
                                    block_y as int
                                } else {
                                    block_y + 1
                                },
                            ) implies #[trigger] probed(st.probes@, c, y) by {
                            if c == index {
                                let k = choose|k: int|
                                    0 <= k < st.probes@.len() && st.probes@[k].0 == c
                                        && st.probes@[k].2;
                                assert(st.probes@[k].2);
                                assert(st.surface_heights@[c] == st.probes@[k].1);
                            } else if local_of(c, hh) == (local_x as int, local_z as int) {
                                lemma_col_unique(c, index as int, hh);
                            }
                        }
                    }
                }
                local_z = local_z + 1;
            }
            proof {
                assert forall|k: int| 0 <= k < state.probes@.len() implies lex_lt(
                    cell_of((#[trigger] state.probes@[k]).0, hh),
                    cell@,
                ) || (cell_of(state.probes@[k].0, hh) == cell@ && (state.probes@[k].1 > block_y
                    || (state.probes@[k].1 == block_y && lex_lt(
                    local_of(state.probes@[k].0, hh),
                    (local_x + 1, 0),
                )))) by {
                    lemma_cell_nonneg(state.probes@[k].0, hh);
                }
                let st = *state;
                assert forall|c: int, y: int|
                    0 <= c < CHUNK_COLUMNS && cell_of(c, hh) == cell@ && owed(
                        *params,
                        st,
                        c,
                        y,
                        if lex_lt(local_of(c, hh), (local_x + 1, 0)) {
                            block_y as int
                        } else {
                            block_y + 1
                        },
                    ) implies #[trigger] probed(st.probes@, c, y) by {
                    lemma_cell_nonneg(c, hh);
                    assert(owed(
                        *params,
                        st,
                        c,
                        y,
                        if lex_lt(local_of(c, hh), (local_x as int, h as int)) {
                            block_y as int
                        } else {
                            block_y + 1
                        },
                    ));
                }
            }
            local_x = local_x + 1;
        }
        proof {
            let st = *state;
            assert forall|c: int, y: int|
                0 <= c < CHUNK_COLUMNS && cell_of(c, hh) == cell@ && owed(
                    *params,
                    st,
                    c,
                    y,
                    if lex_lt(local_of(c, hh), (0, 0)) {
                        block_y - 1
                    } else {
                        block_y - 1 + 1
                    },
                ) implies #[trigger] probed(st.probes@, c, y) by {
                lemma_cell_nonneg(c, hh);
                assert(owed(
                    *params,
                    st,
                    c,
                    y,
                    if lex_lt(local_of(c, hh), (h as int, 0)) {
                        block_y as int
                    } else {
                        block_y + 1
                    },
                ));
            }
            lemma_layer_requests_close(
                *params,
                *state,
                cell@,
                block_y as int,
                (cell@.0, cell@.1 + 1),
                requests_of(log.entries()),
                requests_of(old(log).entries()),
            );
        }
        false
    }
}

} // verus!

verus! {

impl SurfaceHeightGenerator {
    /// Scans the block layers of cell layer `cell_y`, top to bottom. Returns `true` once
    /// every column is found.
    fn process_y_layers_in_cell<F: Fn(SamplerRequest) -> SamplerReply>(
        &self,
        params: &GenerationParams,
        state: &mut GenerationState,
        cell_bounds: &CellBounds,
        cell_y: u16,
        cell: Ghost<(int, int)>,
        band: Ghost<(int, int)>,
        log: &mut SamplerLog<F>,
    ) -> (done: bool)
        requires
            forall|q: SamplerRequest| old(log).sampler().requires((q,)),
            params_ok(*params),
            0 <= cell@.0 < params.horizontal_cells,
            0 <= cell@.1 < params.horizontal_cells,
            cell_bounds.cell_start_x == params.start_block_x + cell@.0
                * params.horizontal_cell_block_count,
            cell_bounds.cell_start_z == params.start_block_z + cell@.1
                * params.horizontal_cell_block_count,
            scan_ok(*old(state)),
            descending(old(state).probes@),
            scan_ordered(old(state).probes@, params.horizontal_cell_block_count as int),
            answered(old(log).sampler(), old(state).probes@, params.start_block_x as int, params.start_block_z as int),
            history_ok(old(log).sampler(), *old(state)),
            probes_above(
                old(state).probes@,
                params.horizontal_cell_block_count as int,
                cell@,
                (params.minimum_cell_y + cell_y + 1) * params.vertical_cell_block_count - 1,
            ),
            in_bands(*params, old(state).probes@, old(state).bands@),
            probes_in_grid(*params, old(state).probes@),
            cell_band(*params, old(state).bands@, cell@, band@),
            adaptive_cells(*params, band@.0, band@.1).0 <= cell_y <= adaptive_cells(
                *params,
                band@.0,
                band@.1,
            ).1,
            covered_cells(*params, *old(state), cell@),
            covered_in(
                *params,
                *old(state),
                cell@,
                (params.minimum_cell_y + cell_y + 1) * params.vertical_cell_block_count - 1,
                (0, 0),
            ),
            band@ == band_start(*old(state), params.horizontal_cell_block_count as int, cell@),
            bands_before(*params, *old(state), cell@),
            old(state).columns_completed < CHUNK_COLUMNS,
            cell_bounds.sample_start_x == (params.start_cell_x + cell@.0)
                * params.horizontal_cell_block_count,
            cell_bounds.sample_start_z == (params.start_cell_z + cell@.1)
                * params.horizontal_cell_block_count,
        ensures
            final(log).sampler() == old(log).sampler(),
            scan_ok(*final(state)),
            descending(final(state).probes@),
            scan_ordered(final(state).probes@, params.horizontal_cell_block_count as int),
            answered(old(log).sampler(), final(state).probes@, params.start_block_x as int, params.start_block_z as int),
            history_ok(old(log).sampler(), *final(state)),
            done ==> final(state).columns_completed == CHUNK_COLUMNS,
            !done ==> final(state).columns_completed < CHUNK_COLUMNS,
            !done ==> probes_above(
                final(state).probes@,
                params.horizontal_cell_block_count as int,
                cell@,
                (params.minimum_cell_y + cell_y) * params.vertical_cell_block_count - 1,
            ),
            final(state).bands@ == old(state).bands@,
            in_bands(*params, final(state).probes@, final(state).bands@),
            probes_in_grid(*params, final(state).probes@),
            covered_cells(*params, *final(state), cell@),
            done ==> scan_complete(*params, *final(state)),
            !done ==> covered_in(
                *params,
                *final(state),
                cell@,
                (params.minimum_cell_y + cell_y) * params.vertical_cell_block_count - 1,
                (0, 0),
            ),
            band@ == band_start(*final(state), params.horizontal_cell_block_count as int, cell@),
            bands_before(*params, *final(state), cell@),
            done ==> bands_all(*params, *final(state)),
            grows(
                *final(state),
                *old(state),
                params.horizontal_cell_block_count as int,
                in_rows_f(
                    params.horizontal_cell_block_count as int,
                    cell@,
                    layer_y(*params, cell_y as int, 0),
                    layer_y(*params, cell_y as int, params.vertical_cell_block_count - 1),
                ),
                (cell@.0, cell@.1 + 1),
            ),
            forall|st2: GenerationState|
                #[trigger] grows(
                    st2,
                    *final(state),
                    params.horizontal_cell_block_count as int,
                    after_f(params.horizontal_cell_block_count as int, cell@, layer_y(*params, cell_y as int, 0)),
                    (cell@.0, cell@.1 + 1),
                ) ==> requests_of(final(log).entries()) == requests_of(old(log).entries())
                    + cy_layers(*params, st2, cell@, cell_y as int, 0),
    {
        let ghost bands0 = state.bands@;
        let v = params.vertical_cell_block_count;
        proof {
            lemma_layer_bounds(params.minimum_cell_y + cell_y, v as int);
        }
        let sample_start_y = (params.minimum_cell_y as i32 + cell_y as i32) * v as i32;
        proof {
            assert((params.minimum_cell_y + cell_y + 1) * v - 1 == sample_start_y + v - 1) by (
            nonlinear_arith)
                requires
                    sample_start_y == (params.minimum_cell_y + cell_y) * v,
            ;
            let cells = adaptive_cells(*params, band@.0, band@.1);
            let m = params.minimum_cell_y as int;
            assert((m + cells.0) * v <= (m + cell_y) * v) by (nonlinear_arith)
                requires
                    cells.0 <= cell_y,
                    v >= 1,
            ;
            assert((m + cell_y + 1) * v <= (m + cells.1 + 1) * v) by (nonlinear_arith)
                requires
                    cell_y <= cells.1,
                    v >= 1,
            ;
        }
        proof {
            lemma_grows_refl(
                *state,
                params.horizontal_cell_block_count as int,
                in_rows_f(
                    params.horizontal_cell_block_count as int,
                    cell@,
                    layer_y(*params, cell_y as int, 0),
                    layer_y(*params, cell_y as int, v - 1),
                ),
                (cell@.0, cell@.1 + 1),
            );
            assert forall|st2: GenerationState|
                #[trigger] grows(
                    st2,
                    *state,
                    params.horizontal_cell_block_count as int,
                    after_f(params.horizontal_cell_block_count as int, cell@, layer_y(*params, cell_y as int, v as int)),
                    (cell@.0, cell@.1 + 1),
                ) implies requests_of(log.entries()) == requests_of(old(log).entries())
                + cy_layers(*params, st2, cell@, cell_y as int, v as int) by {
                assert(requests_of(log.entries()) =~= requests_of(old(log).entries()) + cy_layers(
                    *params,
                    st2,
                    cell@,
                    cell_y as int,
                    v as int,
                ));
            }
        }
        let mut local_y: u8 = v;
        while local_y > 0
            invariant
                forall|q: SamplerRequest| old(log).sampler().requires((q,)),
                log.sampler() == old(log).sampler(),
                params_ok(*params),
                v == params.vertical_cell_block_count,
                0 <= cell@.0 < params.horizontal_cells,
                0 <= cell@.1 < params.horizontal_cells,
                cell_bounds.cell_start_x == params.start_block_x + cell@.0
                    * params.horizontal_cell_block_count,
                cell_bounds.cell_start_z == params.start_block_z + cell@.1
                    * params.horizontal_cell_block_count,
                sample_start_y == (params.minimum_cell_y + cell_y) * v,
                -32640 <= sample_start_y <= 16743810,
                local_y <= v,
                scan_ok(*state),
                descending(state.probes@),
                scan_ordered(state.probes@, params.horizontal_cell_block_count as int),
                answered(old(log).sampler(), state.probes@, params.start_block_x as int, params.start_block_z as int),
                history_ok(old(log).sampler(), *state),
                probes_above(
                    state.probes@,
                    params.horizontal_cell_block_count as int,
                    cell@,
                    sample_start_y + local_y - 1,
                ),
                state.bands@ == bands0,
                bands0 == old(state).bands@,
                in_bands(*params, state.probes@, bands0),
                probes_in_grid(*params, state.probes@),
                cell_band(*params, bands0, cell@, band@),
                band_of(*params, band@).0 <= sample_start_y,
                sample_start_y + v - 1 <= band_of(*params, band@).1,
                covered_cells(*params, *state, cell@),
                covered_in(*params, *state, cell@, sample_start_y + local_y - 1, (0, 0)),
                band@ == band_start(*state, params.horizontal_cell_block_count as int, cell@),
                bands_before(*params, *state, cell@),
                state.columns_completed < CHUNK_COLUMNS,
                cell_bounds.sample_start_x == (params.start_cell_x + cell@.0)
                    * params.horizontal_cell_block_count,
                cell_bounds.sample_start_z == (params.start_cell_z + cell@.1)
                    * params.horizontal_cell_block_count,
                grows(
                    *state,
                    *old(state),
                    params.horizontal_cell_block_count as int,
                    in_rows_f(
                        params.horizontal_cell_block_count as int,
                        cell@,
                        layer_y(*params, cell_y as int, 0),
                        layer_y(*params, cell_y as int, v - 1),
                    ),
                    (cell@.0, cell@.1 + 1),
                ),
                forall|st2: GenerationState|
                    #[trigger] grows(
                        st2,
                        *state,
                        params.horizontal_cell_block_count as int,
                        after_f(params.horizontal_cell_block_count as int, cell@, layer_y(*params, cell_y as int, local_y as int)),
                        (cell@.0, cell@.1 + 1),
                    ) ==> requests_of(log.entries()) == requests_of(old(log).entries())
                        + cy_layers(*params, st2, cell@, cell_y as int, local_y as int),
            decreases local_y,
        {
            local_y = local_y - 1;
            let block_y = sample_start_y + local_y as i32;
            proof {
                vstd::arithmetic::div_mod::lemma_fundamental_div_mod_converse(
                    block_y as int,
                    v as int,
                    params.minimum_cell_y + cell_y,
                    local_y as int,
                );
            }
            let ghost st_i = *state;
            let ghost reqs_i = requests_of(log.entries());
            let ghost e_b = log.entries();
            let interpolate = SamplerRequest::InterpolateY { local_y, vertical_cell_block_count: v };
            let _ = log.ask(interpolate);
            proof {
                lemma_requests_push(e_b, log.entries().last());
                assert(log.entries() == e_b.push(log.entries().last()));
                assert(block_y == layer_y(*params, cell_y as int, local_y as int));
            }
            let done = self.process_blocks_at_height(
                params,
                state,
                cell_bounds,
                block_y,
                local_y as i32,
                sample_start_y,
                cell,
                band,
                log,
            );
            proof {
                let lim = (cell@.0, cell@.1 + 1);
                lemma_layer_step(
                    *params,
                    st_i,
                    *state,
                    cell@,
                    cell_y as int,
                    local_y as int,
                    requests_of(old(log).entries()),
                    reqs_i,
                    requests_of(log.entries()),
                );
                lemma_grows_trans(
                    *state,
                    st_i,
                    *old(state),
                    params.horizontal_cell_block_count as int,
                    in_layer_f(params.horizontal_cell_block_count as int, cell@, block_y as int),
                    in_rows_f(
                        params.horizontal_cell_block_count as int,
                        cell@,
                        layer_y(*params, cell_y as int, 0),
                        layer_y(*params, cell_y as int, v - 1),
                    ),
                    in_rows_f(
                        params.horizontal_cell_block_count as int,
                        cell@,
                        layer_y(*params, cell_y as int, 0),
                        layer_y(*params, cell_y as int, v - 1),
                    ),
                    lim,
                    lim,
                    lim,
                );
            }
            if done {
                proof {
                    assert forall|kk: int| 0 <= kk < state.probes@.len() implies before_layer(
                        #[trigger] state.probes@[kk],
                        params.horizontal_cell_block_count as int,
                        cell@,
                        block_y as int,
                    ) || in_layer(state.probes@[kk], params.horizontal_cell_block_count as int, cell@, block_y as int) by {
                        if kk < st_i.probes@.len() {
                            assert(state.probes@[kk] == st_i.probes@[kk]);
                        } else {
                            assert(in_layer_f(params.horizontal_cell_block_count as int, cell@, block_y as int)(state.probes@[kk]));
                        }
                    }
                    lemma_layers_done(
                        *params,
                        *state,
                        cell@,
                        cell_y as int,
                        local_y as int,
                        requests_of(old(log).entries()),
                        requests_of(log.entries()),
                    );
                }
                return true;
            }
        }
        false
    }

    /// Scans cell `(cell_x, cell_z)` within its bounds, top cell layer first. Returns `true`
    /// once every column is found.
    fn process_xz_cell<F: Fn(SamplerRequest) -> SamplerReply>(
        &self,
        params: &GenerationParams,
        state: &mut GenerationState,
        cell_x: u16,
        cell_z: u16,
        log: &mut SamplerLog<F>,
    ) -> (done: bool)
        requires
            forall|q: SamplerRequest| old(log).sampler().requires((q,)),
            params_ok(*params),
            cell_x < params.horizontal_cells,
            cell_z < params.horizontal_cells,
            scan_ok(*old(state)),
            descending(old(state).probes@),
            scan_ordered(old(state).probes@, params.horizontal_cell_block_count as int),
            answered(old(log).sampler(), old(state).probes@, params.start_block_x as int, params.start_block_z as int),
            history_ok(old(log).sampler(), *old(state)),
            probes_before_cell(
                old(state).probes@,
                params.horizontal_cell_block_count as int,
                (cell_x as int, cell_z as int),
            ),
            in_bands(*params, old(state).probes@, old(state).bands@),
            probes_in_grid(*params, old(state).probes@),
            covered_cells(*params, *old(state), (cell_x as int, cell_z as int)),
            bands_before(*params, *old(state), (cell_x as int, cell_z as int)),
            old(state).columns_completed < CHUNK_COLUMNS,
        ensures
            !done ==> final(state).columns_completed < CHUNK_COLUMNS,
            final(log).sampler() == old(log).sampler(),
            scan_ok(*final(state)),
            descending(final(state).probes@),
            scan_ordered(final(state).probes@, params.horizontal_cell_block_count as int),
            answered(old(log).sampler(), final(state).probes@, params.start_block_x as int, params.start_block_z as int),
            history_ok(old(log).sampler(), *final(state)),
            done ==> final(state).columns_completed == CHUNK_COLUMNS,
            !done ==> probes_before_cell(
                final(state).probes@,
                params.horizontal_cell_block_count as int,
                (cell_x as int, cell_z + 1),
            ),
            in_bands(*params, final(state).probes@, final(state).bands@),
            probes_in_grid(*params, final(state).probes@),
            cell_band(
                *params,
                final(state).bands@,
                (cell_x as int, cell_z as int),
                (old(state).surface_samples.len() as int, old(state).estimated_surface_y as int),
            ),
            forall|c: int|
                0 <= c < CHUNK_COLUMNS && cell_of(c, params.horizontal_cell_block_count as int) != (
                    cell_x as int,
                    cell_z as int,
                ) ==> #[trigger] final(state).bands@[c] == old(state).bands@[c],
            done ==> scan_complete(*params, *final(state)),
            !done ==> covered_cells(*params, *final(state), (cell_x as int, cell_z + 1)),
            done ==> bands_all(*params, *final(state)),
            !done ==> bands_before(*params, *final(state), (cell_x as int, cell_z + 1)),
            grows(*final(state), *old(state), params.horizontal_cell_block_count as int, in_cell_f(params.horizontal_cell_block_count as int, (cell_x as int, cell_z as int)), (cell_x as int, cell_z as int)),
            forall|st2: GenerationState|
                #[trigger] grows(
                    st2,
                    *final(state),
                    params.horizontal_cell_block_count as int,
                    cells_from_f(params.horizontal_cell_block_count as int, (cell_x as int, cell_z + 1)),
                    (cell_x as int, cell_z + 1),
                ) ==> requests_of(final(log).entries()) == requests_of(old(log).entries())
                    + cell_part(*params, st2, (cell_x as int, cell_z as int)),
    {
        let cell_bounds = self.calculate_cell_bounds(params, state, cell_x, cell_z);
        let ghost cell = (cell_x as int, cell_z as int);
        let ghost hh = params.horizontal_cell_block_count as int;
        let ghost band = (state.surface_samples.len() as int, state.estimated_surface_y as int);
        let ghost before = *state;
        let ghost bands1 = Seq::new(
            CHUNK_COLUMNS as nat,
            |c: int|
                if cell_of(c, hh) == cell {
                    band
                } else {
                    before.bands@[c]
                },
        );
        state.bands = Ghost(bands1);
        let start = cell_bounds.adaptive_start as u32;
        let mut next: u32 = cell_bounds.adaptive_end as u32 + 1;
        if next < start {
            next = start;
        }
        proof {
            let v = params.vertical_cell_block_count as int;
            let m = params.minimum_cell_y as int;
            let cells = adaptive_cells(*params, band.0, band.1);
            assert(cells.0 == start && cells.1 + 1 <= next);
            assert((m + cells.1 + 1) * v <= (m + next) * v) by (nonlinear_arith)
                requires
                    cells.1 + 1 <= next,
                    v >= 1,
            ;
            let st = *state;
            assert forall|c: int| 0 <= c < CHUNK_COLUMNS && #[trigger] st.surface_found@[c] implies lex_lt(
                cell_of(c, hh),
                cell,
            ) by {
                let k = choose|k: int|
                    0 <= k < st.probes@.len() && st.probes@[k].0 == c && st.probes@[k].2;
                assert(st.probes@[k].0 == c);
            }
            lemma_found_before_all(st.surface_found@, hh, cell);
            assert(band == band_start(st, hh, cell));
            assert forall|k: int| 0 <= k < st.probes@.len() implies band_of(
                *params,
                bands1[(#[trigger] st.probes@[k]).0],
            ).0 <= st.probes@[k].1 <= band_of(*params, bands1[st.probes@[k].0]).1 by {
                assert(lex_lt(cell_of(st.probes@[k].0, hh), cell));
            }
            assert forall|c: int, y: int|
                in_grid(*params, c) && lex_lt(cell_of(c, hh), cell) && owed(
                    *params,
                    st,
                    c,
                    y,
                    band_of(*params, st.bands@[c]).0,
                ) implies #[trigger] probed(st.probes@, c, y) by {
                assert(owed(*params, before, c, y, band_of(*params, before.bands@[c]).0));
            }
            assert forall|c: int, y: int|
                0 <= c < CHUNK_COLUMNS && cell_of(c, hh) == cell && owed(
                    *params,
                    st,
                    c,
                    y,
                    if lex_lt(local_of(c, hh), (0, 0)) {
                        (m + next) * v - 1
                    } else {
                        (m + next) * v - 1 + 1
                    },
                ) implies #[trigger] probed(st.probes@, c, y) by {
                lemma_cell_nonneg(c, hh);
            }
        }
        proof {
            assert forall|k: int| 0 <= k < state.probes@.len() implies lex_lt(
                cell_of((#[trigger] state.probes@[k]).0, hh),
                cell,
            ) || (cell_of(state.probes@[k].0, hh) == cell && state.probes@[k].1 > (
            params.minimum_cell_y + next) * params.vertical_cell_block_count - 1) by {}
        }
        let ghost hi = cell_bounds.adaptive_end as int;
        proof {
            let st = *state;
            assert forall|c: int|
                0 <= c < old(state).bands@.len() && lex_lt(cell_of(c, hh), cell) implies #[trigger] st.bands@[c]
                == old(state).bands@[c] by {}
            assert(grows(st, *old(state), hh, in_cell_f(hh, cell), cell));
            assert forall|st2: GenerationState|
                #[trigger] grows(
                    st2,
                    *state,
                    hh,
                    after_f(hh, cell, layer_y(*params, next as int, 0)),
                    (cell.0, cell.1 + 1),
                ) implies requests_of(log.entries()) == requests_of(old(log).entries()) + cell_cys(
                *params,
                st2,
                cell,
                hi,
                next as int,
            ) by {
                assert(requests_of(log.entries()) =~= requests_of(old(log).entries()) + cell_cys(
                    *params,
                    st2,
                    cell,
                    hi,
                    next as int,
                ));
            }
        }
        while next > start
            invariant
                forall|q: SamplerRequest| old(log).sampler().requires((q,)),
                log.sampler() == old(log).sampler(),
                params_ok(*params),
                cell == (cell_x as int, cell_z as int),
                hh == params.horizontal_cell_block_count as int,
                cell_x < params.horizontal_cells,
                cell_z < params.horizontal_cells,
                cell_bounds.cell_start_x == params.start_block_x + cell_x * hh,
                cell_bounds.cell_start_z == params.start_block_z + cell_z * hh,
                state.columns_completed < CHUNK_COLUMNS,
                hi == cell_bounds.adaptive_end as int,
                hi == adaptive_cells(*params, band.0, band.1).1,
                next > hi ==> next == start || next == hi + 1,
                grows(*state, *old(state), hh, in_cell_f(hh, cell), cell),
                forall|st2: GenerationState|
                    #[trigger] grows(
                        st2,
                        *state,
                        hh,
                        after_f(hh, cell, layer_y(*params, next as int, 0)),
                        (cell.0, cell.1 + 1),
                    ) ==> requests_of(log.entries()) == requests_of(old(log).entries()) + cell_cys(
                        *params,
                        st2,
                        cell,
                        hi,
                        next as int,
                    ),
                cell_bounds.sample_start_x == (params.start_cell_x + cell_x) * hh,
                cell_bounds.sample_start_z == (params.start_cell_z + cell_z) * hh,
                start <= next <= 65536,
                start == adaptive_cells(*params, band.0, band.1).0,
                next <= adaptive_cells(*params, band.0, band.1).1 + 1 || next == start,
                state.bands@ == bands1,
                bands1.len() == CHUNK_COLUMNS,
                band == (old(state).surface_samples.len() as int, old(state).estimated_surface_y as int),
                forall|c: int|
                    0 <= c < CHUNK_COLUMNS && cell_of(c, hh) != cell ==> #[trigger] bands1[c]
                        == old(state).bands@[c],
                cell_band(*params, bands1, cell, band),
                in_bands(*params, state.probes@, bands1),
                probes_in_grid(*params, state.probes@),
                covered_cells(*params, *state, cell),
                covered_in(
                    *params,
                    *state,
                    cell,
                    (params.minimum_cell_y + next) * params.vertical_cell_block_count - 1,
                    (0, 0),
                ),
                band == band_start(*state, hh, cell),
                bands_before(*params, *state, cell),
                scan_ok(*state),
                descending(state.probes@),
                scan_ordered(state.probes@, params.horizontal_cell_block_count as int),
                answered(old(log).sampler(), state.probes@, params.start_block_x as int, params.start_block_z as int),
                history_ok(old(log).sampler(), *state),
                probes_above(
                    state.probes@,
                    hh,
                    cell,
                    (params.minimum_cell_y + next) * params.vertical_cell_block_count - 1,
                ),
            decreases next,
        {
            if state.columns_completed >= CHUNK_COLUMNS {
                proof {
                    lemma_count_true_bounds(state.surface_found@);
                    let y_at = (params.minimum_cell_y + next) * params.vertical_cell_block_count - 1;
                    assert forall|k: int| 0 <= k < state.probes@.len() implies lex_lt(
                        cell_of((#[trigger] state.probes@[k]).0, hh),
                        cell,
                    ) || (cell_of(state.probes@[k].0, hh) == cell && (state.probes@[k].1 > y_at || (
                    state.probes@[k].1 == y_at && lex_lt(local_of(state.probes@[k].0, hh), (0, 0)))))
                        by {}
                    lemma_done_complete(*params, *state, cell, y_at, (0, 0));
                    lemma_cys_done(
                        *params,
                        *state,
                        cell,
                        hi,
                        start as int,
                        next as int,
                        requests_of(old(log).entries()),
                        requests_of(log.entries()),
                    );
                    lemma_cell_close(
                        *params,
                        *state,
                        cell,
                        band,
                        requests_of(old(log).entries()),
                        requests_of(log.entries()),
                    );
                }
                return true;
            }
            let cell_y = (next - 1) as u16;
            let ghost st_i = *state;
            let ghost reqs_i = requests_of(log.entries());
            let ghost e_b = log.entries();
            let corners = SamplerRequest::CellCorners {
                cell_x: cell_x as u8,
                cell_y,
                cell_z: cell_z as u8,
            };
            let _ = log.ask(corners);
            proof {
                lemma_requests_push(e_b, log.entries().last());
                assert(log.entries() == e_b.push(log.entries().last()));
                lemma_layer_y_next(*params, cell_y as int);
            }
            let done = self.process_y_layers_in_cell(
                params,
                state,
                &cell_bounds,
                cell_y,
                Ghost(cell),
                Ghost(band),
                log,
            );
            proof {
                let lim = (cell.0, cell.1 + 1);
                let v = params.vertical_cell_block_count as int;
                let rows = in_rows_f(
                    hh,
                    cell,
                    layer_y(*params, cell_y as int, 0),
                    layer_y(*params, cell_y as int, v - 1),
                );
                lemma_cy_step(
                    *params,
                    st_i,
                    *state,
                    cell,
                    cell_y as int,
                    hi,
                    requests_of(old(log).entries()),
                    reqs_i,
                    requests_of(log.entries()),
                );
                lemma_grows_trans(
                    *state,
                    st_i,
                    *old(state),
                    hh,
                    rows,
                    in_cell_f(hh, cell),
                    in_cell_f(hh, cell),
                    lim,
                    cell,
                    cell,
                );
            }
            if done {
                proof {
                    let v = params.vertical_cell_block_count as int;
                    let rows = in_rows_f(
                        hh,
                        cell,
                        layer_y(*params, cell_y as int, 0),
                        layer_y(*params, cell_y as int, v - 1),
                    );
                    assert(layer_y(*params, cell_y as int, 0) <= layer_y(*params, cell_y as int, v - 1) + 1);
                    assert forall|kk: int| 0 <= kk < state.probes@.len() implies before_layer(
                        #[trigger] state.probes@[kk],
                        hh,
                        cell,
                        layer_y(*params, cell_y as int, 0) - 1,
                    ) by {
                        if kk < st_i.probes@.len() {
                            assert(state.probes@[kk] == st_i.probes@[kk]);
                        } else {
                            assert(rows(state.probes@[kk]));
                        }
                    }
                    lemma_cys_done(
                        *params,
                        *state,
                        cell,
                        hi,
                        start as int,
                        cell_y as int,
                        requests_of(old(log).entries()),
                        requests_of(log.entries()),
                    );
                    lemma_cell_close(
                        *params,
                        *state,
                        cell,
                        band,
                        requests_of(old(log).entries()),
                        requests_of(log.entries()),
                    );
                }
                return true;
            }
            next = next - 1;
        }
        proof {
            assert forall|k: int| 0 <= k < state.probes@.len() implies lex_lt(
                cell_of((#[trigger] state.probes@[k]).0, hh),
                (cell_x as int, cell_z + 1),
            ) by {}
            let st = *state;
            let y_at = (params.minimum_cell_y + next) * params.vertical_cell_block_count - 1;
            assert forall|c: int, y: int|
                in_grid(*params, c) && lex_lt(cell_of(c, hh), (cell_x as int, cell_z + 1)) && owed(
                    *params,
                    st,
                    c,
                    y,
                    band_of(*params, st.bands@[c]).0,
                ) implies #[trigger] probed(st.probes@, c, y) by {
                if !lex_lt(cell_of(c, hh), cell) {
                    assert(cell_of(c, hh) == cell);
                    assert(st.bands@[c] == band);
                    assert(st.bands@[c] == band_start(st, hh, cell_of(c, hh)));
                    lemma_cell_nonneg(c, hh);
                    assert(owed(
                        *params,
                        st,
                        c,
                        y,
                        if lex_lt(local_of(c, hh), (0, 0)) {
                            y_at
                        } else {
                            y_at + 1
                        },
                    ));
                }
            }
            let lim = (cell.0, cell.1 + 1);
            let g = after_f(hh, cell, layer_y(*params, next as int, 0));
            assert forall|st3: GenerationState|
                #[trigger] grows(st3, *state, hh, cells_from_f(hh, lim), lim) implies requests_of(
                log.entries(),
            ) == requests_of(old(log).entries()) + cell_cys(
                *params,
                st3,
                cell,
                adaptive_cells(*params, band.0, band.1).1,
                adaptive_cells(*params, band.0, band.1).0,
            ) by {
                lemma_grows_refl(*state, hh, g, lim);
                lemma_grows_trans(st3, *state, *state, hh, cells_from_f(hh, lim), g, g, lim, lim, lim);
            }
            lemma_cell_close(
                *params,
                *state,
                cell,
                band,
                requests_of(old(log).entries()),
                requests_of(log.entries()),
            );
        }
        false
    }

    /// Scans every cell of cell column `cell_x`. Returns `true` once every column is found.
    fn process_x_cells<F: Fn(SamplerRequest) -> SamplerReply>(
        &self,
        params: &GenerationParams,
        state: &mut GenerationState,
        cell_x: u16,
        log: &mut SamplerLog<F>,
    ) -> (done: bool)
        requires
            forall|q: SamplerRequest| old(log).sampler().requires((q,)),
            params_ok(*params),
            cell_x < params.horizontal_cells,
            scan_ok(*old(state)),
            descending(old(state).probes@),
            scan_ordered(old(state).probes@, params.horizontal_cell_block_count as int),
            answered(old(log).sampler(), old(state).probes@, params.start_block_x as int, params.start_block_z as int),
            history_ok(old(log).sampler(), *old(state)),
            probes_before_cell(
                old(state).probes@,
                params.horizontal_cell_block_count as int,
                (cell_x as int, 0),
            ),
            in_bands(*params, old(state).probes@, old(state).bands@),
            probes_in_grid(*params, old(state).probes@),
            covered_cells(*params, *old(state), (cell_x as int, 0)),
            bands_before(*params, *old(state), (cell_x as int, 0)),
            old(state).columns_completed < CHUNK_COLUMNS,
        ensures
            !done ==> final(state).columns_completed < CHUNK_COLUMNS,
            final(log).sampler() == old(log).sampler(),
            scan_ok(*final(state)),
            descending(final(state).probes@),
            scan_ordered(final(state).probes@, params.horizontal_cell_block_count as int),
            answered(old(log).sampler(), final(state).probes@, params.start_block_x as int, params.start_block_z as int),
            history_ok(old(log).sampler(), *final(state)),
            done ==> final(state).columns_completed == CHUNK_COLUMNS,
            !done ==> probes_before_cell(
                final(state).probes@,
                params.horizontal_cell_block_count as int,
                (cell_x + 1, 0),
            ),
            in_bands(*params, final(state).probes@, final(state).bands@),
            probes_in_grid(*params, final(state).probes@),
            done ==> scan_complete(*params, *final(state)),
            !done ==> covered_cells(*params, *final(state), (cell_x + 1, 0)),
            done ==> bands_all(*params, *final(state)),
            !done ==> bands_before(*params, *final(state), (cell_x + 1, 0)),
            done ==> probes_before_cell(
                final(state).probes@,
                params.horizontal_cell_block_count as int,
                (cell_x + 1, 0),
            ),
            grows(*final(state), *old(state), params.horizontal_cell_block_count as int, cells_from_f(params.horizontal_cell_block_count as int, (cell_x as int, 0)), (cell_x as int, 0)),
            forall|st2: GenerationState|
                #[trigger] grows(
                    st2,
                    *final(state),
                    params.horizontal_cell_block_count as int,
                    cells_from_f(params.horizontal_cell_block_count as int, (cell_x + 1, 0)),
                    (cell_x + 1, 0),
                ) ==> requests_of(final(log).entries()) == requests_of(old(log).entries())
                    + x_cells(*params, st2, cell_x as int, params.horizontal_cells as int),
    {
        let ghost hh = params.horizontal_cell_block_count as int;
        proof {
            lemma_grows_refl(*state, hh, cells_from_f(hh, (cell_x as int, 0)), (cell_x as int, 0));
            assert forall|st2: GenerationState|
                #[trigger] grows(st2, *state, hh, cells_from_f(hh, (cell_x as int, 0)), (cell_x as int, 0))
                implies requests_of(log.entries()) == requests_of(old(log).entries()) + x_cells(
                *params,
                st2,
                cell_x as int,
                0,
            ) by {
                assert(requests_of(log.entries()) =~= requests_of(old(log).entries()) + x_cells(
                    *params,
                    st2,
                    cell_x as int,
                    0,
                ));
            }
        }
        let mut cell_z: u16 = 0;
        while cell_z < params.horizontal_cells
            invariant
                forall|q: SamplerRequest| old(log).sampler().requires((q,)),
                log.sampler() == old(log).sampler(),
                params_ok(*params),
                hh == params.horizontal_cell_block_count as int,
                cell_x < params.horizontal_cells,
                cell_z <= params.horizontal_cells,
                scan_ok(*state),
                descending(state.probes@),
                scan_ordered(state.probes@, params.horizontal_cell_block_count as int),
                answered(old(log).sampler(), state.probes@, params.start_block_x as int, params.start_block_z as int),
                history_ok(old(log).sampler(), *state),
                probes_before_cell(state.probes@, hh, (cell_x as int, cell_z as int)),
                in_bands(*params, state.probes@, state.bands@),
                probes_in_grid(*params, state.probes@),
                covered_cells(*params, *state, (cell_x as int, cell_z as int)),
                bands_before(*params, *state, (cell_x as int, cell_z as int)),
                state.columns_completed < CHUNK_COLUMNS,
                grows(*state, *old(state), hh, cells_from_f(hh, (cell_x as int, 0)), (cell_x as int, 0)),
                forall|st2: GenerationState|
                    #[trigger] grows(
                        st2,
                        *state,
                        hh,
                        cells_from_f(hh, (cell_x as int, cell_z as int)),
                        (cell_x as int, cell_z as int),
                    ) ==> requests_of(log.entries()) == requests_of(old(log).entries()) + x_cells(
                        *params,
                        st2,
                        cell_x as int,
                        cell_z as int,
                    ),
            decreases params.horizontal_cells - cell_z,
        {
            let ghost st_i = *state;
            let done = self.process_xz_cell(params, state, cell_x, cell_z, log);
            proof {
                let cell = (cell_x as int, cell_z as int);
                let next = (cell_x as int, cell_z + 1);
                assert forall|st3: GenerationState|
                    #[trigger] grows(st3, *state, hh, cells_from_f(hh, next), next) implies requests_of(
                    log.entries(),
                ) == requests_of(old(log).entries()) + x_cells(*params, st3, cell_x as int, cell_z + 1)
                    by {
                    lemma_grows_trans(
                        st3,
                        *state,
                        st_i,
                        hh,
                        cells_from_f(hh, next),
                        in_cell_f(hh, cell),
                        cells_from_f(hh, cell),
                        next,
                        cell,
                        cell,
                    );
                    assert(requests_of(log.entries()) =~= requests_of(old(log).entries()) + (x_cells(
                        *params,
                        st3,
                        cell_x as int,
                        cell_z as int,
                    ) + cell_part(*params, st3, cell)));
                }
                lemma_grows_trans(
                    *state,
                    st_i,
                    *old(state),
                    hh,
                    in_cell_f(hh, cell),
                    cells_from_f(hh, (cell_x as int, 0)),
                    cells_from_f(hh, (cell_x as int, 0)),
                    cell,
                    (cell_x as int, 0),
                    (cell_x as int, 0),
                );
            }
            if done {
                proof {
                    let cell = (cell_x as int, cell_z as int);
                    let next = (cell_x as int, cell_z + 1);
                    let lim = (cell_x + 1, 0);
                    assert forall|kk: int| 0 <= kk < state.probes@.len() implies lex_lt(
                        cell_of((#[trigger] state.probes@[kk]).0, hh),
                        next,
                    ) by {
                        if kk < st_i.probes@.len() {
                            assert(state.probes@[kk] == st_i.probes@[kk]);
                        } else {
                            assert(in_cell_f(hh, cell)(state.probes@[kk]));
                        }
                    }
                    assert forall|st3: GenerationState|
                        #[trigger] grows(st3, *state, hh, cells_from_f(hh, lim), lim) implies requests_of(
                        log.entries(),
                    ) == requests_of(old(log).entries()) + x_cells(
                        *params,
                        st3,
                        cell_x as int,
                        params.horizontal_cells as int,
                    ) by {
                        lemma_grows_refl(*state, hh, cells_from_f(hh, next), next);
                        lemma_grows_trans(
                            st3,
                            *state,
                            *state,
                            hh,
                            cells_from_f(hh, lim),
                            cells_from_f(hh, next),
                            cells_from_f(hh, next),
                            lim,
                            next,
                            next,
                        );
                        assert forall|cz: int|
                            cell_z + 1 <= cz < params.horizontal_cells implies #[trigger] cell_part(
                            *params,
                            st3,
                            (cell_x as int, cz),
                        ) == Seq::<SamplerRequest>::empty() by {
                            lemma_cell_part_empty(*params, st3, *state, (cell_x as int, cz));
                        }
                        lemma_x_cells_tail(
                            *params,
                            st3,
                            cell_x as int,
                            cell_z + 1,
                            params.horizontal_cells as int,
                        );
                    }
                }
                return true;
            }
            cell_z = cell_z + 1;
        }
        proof {
            assert forall|k: int| 0 <= k < state.probes@.len() implies lex_lt(
                cell_of((#[trigger] state.probes@[k]).0, hh),
                (cell_x + 1, 0),
            ) by {}
            let st = *state;
            assert forall|c: int, y: int|
                in_grid(*params, c) && lex_lt(cell_of(c, hh), (cell_x + 1, 0)) && owed(
                    *params,
                    st,
                    c,
                    y,
                    band_of(*params, st.bands@[c]).0,
                ) implies #[trigger] probed(st.probes@, c, y) by {
                assert(lex_lt(cell_of(c, hh), (cell_x as int, cell_z as int)));
            }
            assert forall|c: int|
                in_grid(*params, c) && lex_lt(cell_of(c, hh), (cell_x + 1, 0)) implies #[trigger] st.bands@[c]
                == band_start(st, hh, cell_of(c, hh)) by {
                assert(lex_lt(cell_of(c, hh), (cell_x as int, cell_z as int)));
            }
            let lim = (cell_x + 1, 0);
            let end = (cell_x as int, cell_z as int);
            assert forall|st3: GenerationState|
                #[trigger] grows(st3, *state, hh, cells_from_f(hh, lim), lim) implies requests_of(
                log.entries(),
            ) == requests_of(old(log).entries()) + x_cells(
                *params,
                st3,
                cell_x as int,
                params.horizontal_cells as int,
            ) by {
                lemma_grows_refl(*state, hh, cells_from_f(hh, end), end);
                lemma_grows_trans(
                    st3,
                    *state,
                    *state,
                    hh,
                    cells_from_f(hh, lim),
                    cells_from_f(hh, end),
                    cells_from_f(hh, end),
                    lim,
                    end,
                    end,
                );
            }
        }
        false
    }

    /// Scans one chunk. `shape` describes the chunk's noise sampler and position; every
    /// request goes through `log`, and the requests made are exactly
    /// `scan_requests(shape_params(*shape), state)`, in that order.
    ///
    /// The scan visits the cells one after the other, and each cell from its top layer
    /// down, asking about every block of a layer whose column is not yet found. A cell is
    /// searched in the band of layers around the surface estimate as it stood when the cell
    /// began: the average of the surfaces found so far, or, once more than
    /// `SAMPLES_FOR_CONVERGENCE` were found, the sampler's blend of the estimate with each
    /// new surface. The result holds, for each of the 256 columns, whether its surface was
    /// found and at what height: the first block of the column, from the top of its cell's
    /// band down, that the sampler answered solid. Every block of the band above it, or of
    /// the whole band when none answered solid, was asked about, and nothing else was. The
    /// scan stops early once every column is found.
    pub fn generate<F: Fn(SamplerRequest) -> SamplerReply>(
        &self,
        shape: &SamplerShape,
        log: &mut SamplerLog<F>,
    ) -> (state: GenerationState)
        requires
            forall|q: SamplerRequest| old(log).sampler().requires((q,)),
            shape_ok(*shape),
        ensures
            final(log).sampler() == old(log).sampler(),
            scan_ok(state),
            descending(state.probes@),
            scan_ordered(state.probes@, shape.horizontal_cell_block_count as int),
            answered(old(log).sampler(), state.probes@, shape.start_block_x as int, shape.start_block_z as int),
            history_ok(old(log).sampler(), state),
            in_bands(shape_params(*shape), state.probes@, state.bands@),
            probes_in_grid(shape_params(*shape), state.probes@),
            scan_complete(shape_params(*shape), state),
            bands_all(shape_params(*shape), state),
            requests_of(final(log).entries()) == requests_of(old(log).entries()) + scan_requests(
                shape_params(*shape),
                state,
            ),
            starts_on_cell(shape_params(*shape)) ==> requests_in_cells(
                shape_params(*shape),
                scan_requests(shape_params(*shape), state),
            ),
    {
        proof {
            use_type_invariant(self);
        }
        let params = self.calculate_generation_params(shape);
        proof {
            lemma_shape_params(*shape, params);
        }
        let mut state = GenerationState::new(self.initial_surface_estimate);
        proof {
            assert(state.estimates@[0] == INITIAL_SURFACE_ESTIMATE);
            let hh = params.horizontal_cell_block_count as int;
            assert forall|c: int, y: int|
                in_grid(params, c) && lex_lt(cell_of(c, hh), (0, 0)) && owed(
                    params,
                    state,
                    c,
                    y,
                    band_of(params, state.bands@[c]).0,
                ) implies #[trigger] probed(state.probes@, c, y) by {
                lemma_cell_nonneg(c, hh);
            }
            assert forall|c: int| in_grid(params, c) && lex_lt(cell_of(c, hh), (0, 0)) implies #[trigger] state.bands@[c]
                == band_start(state, hh, cell_of(c, hh)) by {
                lemma_cell_nonneg(c, hh);
            }
        }
        let ghost e_sd = log.entries();
        let _ = log.ask(SamplerRequest::StartDensity);
        let ghost base = requests_of(old(log).entries()).push(SamplerRequest::StartDensity);
        proof {
            lemma_requests_push(e_sd, log.entries().last());
            assert(log.entries() == e_sd.push(log.entries().last()));
            let hh = params.horizontal_cell_block_count as int;
            assert forall|st2: GenerationState|
                #[trigger] grows(st2, state, hh, cells_from_f(hh, (0, 0)), (0, 0)) implies requests_of(
                log.entries(),
            ) == base + scan_xs(params, st2, 0) by {
                assert(base + scan_xs(params, st2, 0) =~= base);
            }
        }
        let mut cell_x: u16 = 0;
        proof {
            let hh = params.horizontal_cell_block_count as int;
            lemma_grows_refl(state, hh, cells_from_f(hh, (0, 0)), (0, 0));
        }
        while cell_x < params.horizontal_cells
            invariant_except_break
                probes_before_cell(
                    state.probes@,
                    params.horizontal_cell_block_count as int,
                    (cell_x as int, 0),
                ),
                covered_cells(params, state, (cell_x as int, 0)),
                bands_before(params, state, (cell_x as int, 0)),
                state.columns_completed < CHUNK_COLUMNS,
                grows(
                    state,
                    state,
                    params.horizontal_cell_block_count as int,
                    cells_from_f(params.horizontal_cell_block_count as int, (cell_x as int, 0)),
                    (cell_x as int, 0),
                ),
                forall|st2: GenerationState|
                    #[trigger] grows(
                        st2,
                        state,
                        params.horizontal_cell_block_count as int,
                        cells_from_f(params.horizontal_cell_block_count as int, (cell_x as int, 0)),
                        (cell_x as int, 0),
                    ) ==> requests_of(log.entries()) == base + scan_xs(params, st2, cell_x as int),
            invariant
                base == requests_of(old(log).entries()).push(SamplerRequest::StartDensity),
                forall|q: SamplerRequest| old(log).sampler().requires((q,)),
                log.sampler() == old(log).sampler(),
                params_ok(params),
                cell_x <= params.horizontal_cells,
                scan_ok(state),
                descending(state.probes@),
                scan_ordered(state.probes@, params.horizontal_cell_block_count as int),
                answered(old(log).sampler(), state.probes@, params.start_block_x as int, params.start_block_z as int),
                history_ok(old(log).sampler(), state),
                in_bands(params, state.probes@, state.bands@),
                probes_in_grid(params, state.probes@),
            ensures
                scan_ok(state),
                descending(state.probes@),
                scan_ordered(state.probes@, params.horizontal_cell_block_count as int),
                answered(old(log).sampler(), state.probes@, params.start_block_x as int, params.start_block_z as int),
                history_ok(old(log).sampler(), state),
                in_bands(params, state.probes@, state.bands@),
                probes_in_grid(params, state.probes@),
                scan_complete(params, state),
                bands_all(params, state),
                requests_of(log.entries()) == base + scan_xs(
                    params,
                    state,
                    params.horizontal_cells as int,
                ),
            decreases params.horizontal_cells - cell_x,
        {
            let ghost st_i = state;
            let ghost reqs_i = requests_of(log.entries());
            let ghost e_ed = log.entries();
            let _ = log.ask(SamplerRequest::EndDensity { cell_x: cell_x as u8 });
            proof {
                lemma_requests_push(e_ed, log.entries().last());
                assert(log.entries() == e_ed.push(log.entries().last()));
            }
            let ghost reqs_mid = requests_of(log.entries());
            let done = self.process_x_cells(&params, &mut state, cell_x, log);
            if done {
                proof {
                    let hh = params.horizontal_cell_block_count as int;
                    lemma_grows_refl(state, hh, cells_from_f(hh, (cell_x + 1, 0)), (cell_x + 1, 0));
                    lemma_x_done(
                        params,
                        st_i,
                        state,
                        cell_x as int,
                        base,
                        reqs_i,
                        requests_of(log.entries()),
                    );
                }
                break;
            }
            let ghost e_sw = log.entries();
            let _ = log.ask(SamplerRequest::SwapBuffers);
            proof {
                let hh = params.horizontal_cell_block_count as int;
                let next = (cell_x + 1, 0);
                lemma_requests_push(e_sw, log.entries().last());
                assert(log.entries() == e_sw.push(log.entries().last()));
                assert forall|st3: GenerationState|
                    #[trigger] grows(st3, state, hh, cells_from_f(hh, next), next) implies requests_of(
                    log.entries(),
                ) == (reqs_i.push(SamplerRequest::EndDensity { cell_x: cell_x as int as u8 }) + x_cells(
                    params,
                    st3,
                    cell_x as int,
                    params.horizontal_cells as int,
                )).push(SamplerRequest::SwapBuffers) by {}
                lemma_x_step(
                    params,
                    st_i,
                    state,
                    cell_x as int,
                    base,
                    reqs_i,
                    requests_of(log.entries()),
                );
            }
            cell_x = cell_x + 1;
            proof {
                let hh = params.horizontal_cell_block_count as int;
                lemma_grows_refl(state, hh, cells_from_f(hh, (cell_x as int, 0)), (cell_x as int, 0));
            }
        }
        proof {
            assert(requests_of(log.entries()) =~= requests_of(old(log).entries()) + scan_requests(
                params,
                state,
            ));
            if starts_on_cell(params) {
                lemma_scan_requests_in_cells(params, state);
            }
        }
        state
    }
}

/// Once every column is counted as found, every column has a surface, each at the height
/// of a block of that column that answered solid.
pub proof fn lemma_complete_scan(st: GenerationState)
    requires
        scan_ok(st),
        st.columns_completed == CHUNK_COLUMNS,
    ensures
        forall|c: int| 0 <= c < CHUNK_COLUMNS ==> #[trigger] st.surface_found@[c],
        forall|c: int|
            0 <= c < CHUNK_COLUMNS ==> exists|k: int|
                0 <= k < st.probes@.len() && #[trigger] st.probes@[k] == (
                c,
                (#[trigger] st.surface_heights@[c]) as int,
                true,
            ),
{
    lemma_count_true_bounds(st.surface_found@);
    assert forall|c: int| 0 <= c < CHUNK_COLUMNS implies exists|k: int|
        0 <= k < st.probes@.len() && #[trigger] st.probes@[k] == (
            c,
            (#[trigger] st.surface_heights@[c]) as int,
            true,
        ) by {
        assert(st.surface_found@[c]);
        let k = choose|k: int| 0 <= k < st.probes@.len() && st.probes@[k].0 == c && st.probes@[k].2;
        assert(st.probes@[k].2);
    }
}

} // verus!
