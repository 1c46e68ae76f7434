//! The requests a surface scan makes of its sampler, in order, as a function of what the
//! scan learned: the blocks it asked about and their answers, the estimates it kept, and
//! the band each cell was searched in.
//!
//! The scan asks for the densities at the chunk's start; then, for each cell column, the
//! densities at its end, its cells one after the other, and the move to the next column.
//! Within a cell it reads the corners of each cell layer of the cell's band, top first,
//! and within a cell layer it interpolates to each block layer, top first, and asks for
//! each block of that layer whose column is still open, blending the estimate after each
//! surface found past the first `SAMPLES_FOR_CONVERGENCE`. It asks nothing more once every
//! column is found.
use crate::block_fill::lemma_trunc_div_exact;
use crate::surface::{
    adaptive_cells, band_of, cell_of, column_index, in_bands, lex_lt, local_of, params_ok,
    samples_view, scan_ok, surfaces_of, GenerationParams, GenerationState, Probe,
    SamplerRequest, CHUNK_COLUMNS, HIGHEST_BLOCK_Y, LOWEST_BLOCK_Y, SAMPLES_FOR_CONVERGENCE,
};
use vstd::prelude::*;

verus! {

/// Block `pr` lies in a cell before `cell`, or in `cell` above height `y`.
pub open spec fn before_layer(pr: Probe, h: int, cell: (int, int), y: int) -> bool {
    lex_lt(cell_of(pr.0, h), cell) || (cell_of(pr.0, h) == cell && pr.1 > y)
}

/// Block `pr` lies in layer `y` of `cell`.
pub open spec fn in_layer(pr: Probe, h: int, cell: (int, int), y: int) -> bool {
    cell_of(pr.0, h) == cell && pr.1 == y
}

/// Block `pr` lies in a cell after `cell`, or in `cell` below height `y`.
pub open spec fn after_layer(pr: Probe, h: int, cell: (int, int), y: int) -> bool {
    lex_lt(cell, cell_of(pr.0, h)) || (cell_of(pr.0, h) == cell && pr.1 < y)
}

/// The blocks before layer `y` of `cell`.
pub open spec fn before_f(h: int, cell: (int, int), y: int) -> spec_fn(Probe) -> bool {
    |pr: Probe| before_layer(pr, h, cell, y)
}

/// The blocks of layer `y` of `cell`.
pub open spec fn in_layer_f(h: int, cell: (int, int), y: int) -> spec_fn(Probe) -> bool {
    |pr: Probe| in_layer(pr, h, cell, y)
}

/// The blocks after layer `y` of `cell`.
pub open spec fn after_f(h: int, cell: (int, int), y: int) -> spec_fn(Probe) -> bool {
    |pr: Probe| after_layer(pr, h, cell, y)
}

/// The blocks of `cell` from height `lo` to height `hi`.
pub open spec fn in_rows_f(h: int, cell: (int, int), lo: int, hi: int) -> spec_fn(Probe) -> bool {
    |pr: Probe| cell_of(pr.0, h) == cell && lo <= pr.1 <= hi
}

/// The blocks of `cell`.
pub open spec fn in_cell_f(h: int, cell: (int, int)) -> spec_fn(Probe) -> bool {
    |pr: Probe| cell_of(pr.0, h) == cell
}

/// The blocks of `cell` and the cells after it.
pub open spec fn cells_from_f(h: int, cell: (int, int)) -> spec_fn(Probe) -> bool {
    |pr: Probe| !lex_lt(cell_of(pr.0, h), cell)
}

/// The blocks of cells before `cell`.
pub open spec fn cells_before_f(h: int, cell: (int, int)) -> spec_fn(Probe) -> bool {
    |pr: Probe| lex_lt(cell_of(pr.0, h), cell)
}

/// How many of the first `n` blocks of `probes` answered solid and satisfy `pred`.
pub open spec fn solids_where(probes: Seq<Probe>, n: int, pred: spec_fn(Probe) -> bool) -> int
    decreases n,
{
    if n <= 0 {
        0
    } else {
        solids_where(probes, n - 1, pred) + if probes[n - 1].2 && pred(probes[n - 1]) {
            1int
        } else {
            0int
        }
    }
}

/// The scan reaches layer `y` of `cell`: fewer than all the columns' surfaces were found
/// before it.
pub open spec fn reached(st: GenerationState, h: int, cell: (int, int), y: int) -> bool {
    solids_where(st.probes@, st.probes@.len() as int, before_f(h, cell, y)) < CHUNK_COLUMNS
}

/// The scan reaches `cell`: fewer than all the columns' surfaces were found in the cells
/// before it.
pub open spec fn reached_cell(st: GenerationState, h: int, cell: (int, int)) -> bool {
    solids_where(st.probes@, st.probes@.len() as int, cells_before_f(h, cell)) < CHUNK_COLUMNS
}

/// The requests for the `k`-th block the scan asked about: the block itself, through its
/// cell's first sampled block and its place in the cell, and, when it answered solid after
/// `SAMPLES_FOR_CONVERGENCE` surfaces were found, the blend of the estimate with it.
pub open spec fn probe_requests(p: GenerationParams, st: GenerationState, k: int) -> Seq<
    SamplerRequest,
> {
    let pr = st.probes@[k];
    let h = p.horizontal_cell_block_count as int;
    let v = p.vertical_cell_block_count as int;
    let cell = cell_of(pr.0, h);
    let local = local_of(pr.0, h);
    let sample_y = (pr.1 / v) * v;
    let sample = SamplerRequest::SampleBlock {
        sample_start: (
            ((p.start_cell_x + cell.0) * h) as i32,
            sample_y as i32,
            ((p.start_cell_z + cell.1) * h) as i32,
        ),
        local: (local.0 as i32, (pr.1 - sample_y) as i32, local.1 as i32),
        block: (
            (p.start_block_x + pr.0 / 16) as i32,
            pr.1 as i32,
            (p.start_block_z + pr.0 % 16) as i32,
        ),
        horizontal_cell_block_count: p.horizontal_cell_block_count,
    };
    let found = surfaces_of(st.probes@.take(k)).len() as int;
    if pr.2 && found + 1 > SAMPLES_FOR_CONVERGENCE {
        seq![
            sample,
            SamplerRequest::BlendEstimate { estimate: st.estimates@[found], latest: pr.1 as i32 },
        ]
    } else {
        seq![sample]
    }
}

/// The requests for the blocks of layer `y` of `cell` among the first `n` asked about.
pub open spec fn layer_blocks(
    p: GenerationParams,
    st: GenerationState,
    cell: (int, int),
    y: int,
    n: int,
) -> Seq<SamplerRequest>
    decreases n,
{
    if n <= 0 {
        Seq::empty()
    } else {
        layer_blocks(p, st, cell, y, n - 1) + if in_layer(
            st.probes@[n - 1],
            p.horizontal_cell_block_count as int,
            cell,
            y,
        ) {
            probe_requests(p, st, n - 1)
        } else {
            Seq::empty()
        }
    }
}

/// The height of block layer `ly` of cell layer `cy`.
pub open spec fn layer_y(p: GenerationParams, cy: int, ly: int) -> int {
    (p.minimum_cell_y + cy) * p.vertical_cell_block_count + ly
}

/// The requests for block layer `ly` of cell layer `cy` of `cell`, if the scan reaches it:
/// the interpolation to it and its blocks.
pub open spec fn layer_part(
    p: GenerationParams,
    st: GenerationState,
    cell: (int, int),
    cy: int,
    ly: int,
) -> Seq<SamplerRequest> {
    let y = layer_y(p, cy, ly);
    if reached(st, p.horizontal_cell_block_count as int, cell, y) {
        seq![
            SamplerRequest::InterpolateY {
                local_y: ly as u8,
                vertical_cell_block_count: p.vertical_cell_block_count,
            },
        ] + layer_blocks(p, st, cell, y, st.probes@.len() as int)
    } else {
        Seq::empty()
    }
}

/// The requests for the block layers of cell layer `cy` of `cell` from the top one down to
/// layer `k`.
pub open spec fn cy_layers(
    p: GenerationParams,
    st: GenerationState,
    cell: (int, int),
    cy: int,
    k: int,
) -> Seq<SamplerRequest>
    decreases p.vertical_cell_block_count - k,
{
    if k < 0 || k >= p.vertical_cell_block_count {
        Seq::empty()
    } else {
        cy_layers(p, st, cell, cy, k + 1) + layer_part(p, st, cell, cy, k)
    }
}

/// The requests for cell layer `cy` of `cell`, if the scan reaches it: the reading of its
/// corners and its block layers, top first.
pub open spec fn cy_part(p: GenerationParams, st: GenerationState, cell: (int, int), cy: int) -> Seq<
    SamplerRequest,
> {
    let v = p.vertical_cell_block_count as int;
    if reached(st, p.horizontal_cell_block_count as int, cell, layer_y(p, cy, v - 1)) {
        seq![
            SamplerRequest::CellCorners {
                cell_x: cell.0 as u8,
                cell_y: cy as u16,
                cell_z: cell.1 as u8,
            },
        ] + cy_layers(p, st, cell, cy, 0)
    } else {
        Seq::empty()
    }
}

/// The requests for the cell layers of `cell` from `hi` down to `k`.
pub open spec fn cell_cys(
    p: GenerationParams,
    st: GenerationState,
    cell: (int, int),
    hi: int,
    k: int,
) -> Seq<SamplerRequest>
    decreases hi + 1 - k,
{
    if k > hi {
        Seq::empty()
    } else {
        cell_cys(p, st, cell, hi, k + 1) + cy_part(p, st, cell, k)
    }
}

/// The requests for `cell`: its cell layers within the band it was searched in, top first.
pub open spec fn cell_part(p: GenerationParams, st: GenerationState, cell: (int, int)) -> Seq<
    SamplerRequest,
> {
    let h = p.horizontal_cell_block_count as int;
    let band = st.bands@[column_index(cell.0 * h, cell.1 * h)];
    let cells = adaptive_cells(p, band.0, band.1);
    cell_cys(p, st, cell, cells.1, cells.0)
}

/// The requests for cells `0..n` of cell column `cx`.
pub open spec fn x_cells(p: GenerationParams, st: GenerationState, cx: int, n: int) -> Seq<
    SamplerRequest,
>
    decreases n,
{
    if n <= 0 {
        Seq::empty()
    } else {
        x_cells(p, st, cx, n - 1) + cell_part(p, st, (cx, n - 1))
    }
}

/// The requests for cell column `cx`: the densities at its end if the scan reaches it, its
/// cells, and the move to the next column if the scan goes on past it.
pub open spec fn x_part(p: GenerationParams, st: GenerationState, cx: int) -> Seq<SamplerRequest> {
    let h = p.horizontal_cell_block_count as int;
    (if reached_cell(st, h, (cx, 0)) {
        seq![SamplerRequest::EndDensity { cell_x: cx as u8 }]
    } else {
        Seq::empty()
    }) + x_cells(p, st, cx, p.horizontal_cells as int) + (if reached_cell(st, h, (cx + 1, 0)) {
        seq![SamplerRequest::SwapBuffers]
    } else {
        Seq::empty()
    })
}

/// The requests for cell columns `0..n`.
pub open spec fn scan_xs(p: GenerationParams, st: GenerationState, n: int) -> Seq<SamplerRequest>
    decreases n,
{
    if n <= 0 {
        Seq::empty()
    } else {
        scan_xs(p, st, n - 1) + x_part(p, st, n - 1)
    }
}

/// Every request of a scan with parameters `p` that learned `st`, in order: the densities
/// at the chunk's start, then each cell column.
pub open spec fn scan_requests(p: GenerationParams, st: GenerationState) -> Seq<SamplerRequest> {
    seq![SamplerRequest::StartDensity] + scan_xs(p, st, p.horizontal_cells as int)
}

/// `st2` keeps every block `st1` asked about and every estimate it kept.
pub open spec fn extends(st2: GenerationState, st1: GenerationState) -> bool {
    &&& st1.probes@.len() <= st2.probes@.len()
    &&& forall|k: int| 0 <= k < st1.probes@.len() ==> #[trigger] st2.probes@[k] == st1.probes@[k]
    &&& st1.estimates@.len() <= st2.estimates@.len()
    &&& forall|k: int|
        0 <= k < st1.estimates@.len() ==> #[trigger] st2.estimates@[k] == st1.estimates@[k]
}

/// `st2` continues the scan `st1`: it keeps what `st1` learned and the band of every cell
/// before `lim`, and every block it adds satisfies `fresh`.
pub open spec fn grows(
    st2: GenerationState,
    st1: GenerationState,
    h: int,
    fresh: spec_fn(Probe) -> bool,
    lim: (int, int),
) -> bool {
    &&& extends(st2, st1)
    &&& forall|k: int|
        st1.probes@.len() <= k < st2.probes@.len() ==> fresh(#[trigger] st2.probes@[k])
    &&& st2.bands@.len() == st1.bands@.len()
    &&& forall|c: int|
        0 <= c < st1.bands@.len() && lex_lt(cell_of(c, h), lim) ==> #[trigger] st2.bands@[c]
            == st1.bands@[c]
}

/// A scan grows from itself.
pub(crate) proof fn lemma_grows_refl(st: GenerationState, h: int, fresh: spec_fn(Probe) -> bool, lim: (
    int,
    int,
))
    ensures
        grows(st, st, h, fresh, lim),
{
}

/// Growing is transitive, for weaker conditions on the blocks added.
pub(crate) proof fn lemma_grows_trans(
    st3: GenerationState,
    st2: GenerationState,
    st1: GenerationState,
    h: int,
    f3: spec_fn(Probe) -> bool,
    f2: spec_fn(Probe) -> bool,
    f: spec_fn(Probe) -> bool,
    lim3: (int, int),
    lim2: (int, int),
    lim: (int, int),
)
    requires
        grows(st3, st2, h, f3, lim3),
        grows(st2, st1, h, f2, lim2),
        forall|pr: Probe| #[trigger] f3(pr) ==> f(pr),
        forall|pr: Probe| #[trigger] f2(pr) ==> f(pr),
        forall|c: (int, int)| #[trigger] lex_lt(c, lim) ==> lex_lt(c, lim2) && lex_lt(c, lim3),
    ensures
        grows(st3, st1, h, f, lim),
{
    assert forall|k: int| st1.probes@.len() <= k < st3.probes@.len() implies f(
        #[trigger] st3.probes@[k],
    ) by {
        if k < st2.probes@.len() {
            assert(f2(st2.probes@[k]));
        } else {
            assert(f3(st3.probes@[k]));
        }
    }
    assert forall|c: int|
        0 <= c < st1.bands@.len() && lex_lt(cell_of(c, h), lim) implies #[trigger] st3.bands@[c]
        == st1.bands@[c] by {
        assert(lex_lt(cell_of(c, h), lim2) && lex_lt(cell_of(c, h), lim3));
    }
}

/// A prefix of the blocks asked about holds no more surfaces than all of them.
pub(crate) proof fn lemma_surfaces_take(s: Seq<Probe>, k: int)
    requires
        0 <= k <= s.len(),
    ensures
        surfaces_of(s.take(k)).len() <= surfaces_of(s).len(),
    decreases s.len(),
{
    if k < s.len() {
        lemma_surfaces_take(s.drop_last(), k);
        assert(s.drop_last().take(k) == s.take(k));
    } else {
        assert(s.take(k) == s);
    }
}

/// The requests for a block the scan asked about do not change as the scan goes on.
pub(crate) proof fn lemma_probe_requests_stable(
    p: GenerationParams,
    st2: GenerationState,
    st1: GenerationState,
    k: int,
)
    requires
        extends(st2, st1),
        scan_ok(st1),
        0 <= k < st1.probes@.len(),
    ensures
        probe_requests(p, st2, k) == probe_requests(p, st1, k),
{
    assert(st2.probes@.take(k) =~= st1.probes@.take(k));
    lemma_surfaces_take(st1.probes@, k);
    assert(samples_view(st1.surface_samples@).len() == st1.surface_samples@.len());
    assert(st2.probes@[k] == st1.probes@[k]);
}

/// The requests for a layer's blocks among the first `n` do not change as the scan goes on.
pub(crate) proof fn lemma_layer_blocks_stable(
    p: GenerationParams,
    st2: GenerationState,
    st1: GenerationState,
    cell: (int, int),
    y: int,
    n: int,
)
    requires
        extends(st2, st1),
        scan_ok(st1),
        n <= st1.probes@.len(),
    ensures
        layer_blocks(p, st2, cell, y, n) == layer_blocks(p, st1, cell, y, n),
    decreases n,
{
    if n > 0 {
        lemma_layer_blocks_stable(p, st2, st1, cell, y, n - 1);
        lemma_probe_requests_stable(p, st2, st1, n - 1);
        assert(st2.probes@[n - 1] == st1.probes@[n - 1]);
    }
}

/// Blocks outside a layer add no requests to it.
pub(crate) proof fn lemma_layer_blocks_skip(
    p: GenerationParams,
    st: GenerationState,
    cell: (int, int),
    y: int,
    a: int,
    b: int,
)
    requires
        0 <= a <= b,
        forall|k: int|
            a <= k < b ==> !in_layer(
                #[trigger] st.probes@[k],
                p.horizontal_cell_block_count as int,
                cell,
                y,
            ),
    ensures
        layer_blocks(p, st, cell, y, b) == layer_blocks(p, st, cell, y, a),
    decreases b - a,
{
    if b > a {
        lemma_layer_blocks_skip(p, st, cell, y, a, b - 1);
        assert(!in_layer(st.probes@[b - 1], p.horizontal_cell_block_count as int, cell, y));
        assert(layer_blocks(p, st, cell, y, b) =~= layer_blocks(p, st, cell, y, b - 1));
    }
}

/// Counting over the first `n` blocks does not change as the scan goes on.
pub(crate) proof fn lemma_solids_stable(s2: Seq<Probe>, s1: Seq<Probe>, n: int, pred: spec_fn(Probe) -> bool)
    requires
        n <= s1.len() <= s2.len(),
        forall|k: int| 0 <= k < s1.len() ==> #[trigger] s2[k] == s1[k],
    ensures
        solids_where(s2, n, pred) == solids_where(s1, n, pred),
    decreases n,
{
    if n > 0 {
        lemma_solids_stable(s2, s1, n - 1, pred);
        assert(s2[n - 1] == s1[n - 1]);
    }
}

/// Blocks that are not solid or fail `pred` add nothing to the count.
pub(crate) proof fn lemma_solids_skip(s: Seq<Probe>, a: int, b: int, pred: spec_fn(Probe) -> bool)
    requires
        0 <= a <= b,
        forall|k: int| a <= k < b ==> !(#[trigger] s[k].2 && pred(s[k])),
    ensures
        solids_where(s, b, pred) == solids_where(s, a, pred),
    decreases b - a,
{
    if b > a {
        lemma_solids_skip(s, a, b - 1, pred);
        assert(!(s[b - 1].2 && pred(s[b - 1])));
    }
}

/// The count only grows with more blocks.
pub(crate) proof fn lemma_solids_mono(s: Seq<Probe>, a: int, b: int, pred: spec_fn(Probe) -> bool)
    requires
        0 <= a <= b,
    ensures
        solids_where(s, a, pred) <= solids_where(s, b, pred),
    decreases b - a,
{
    if b > a {
        lemma_solids_mono(s, a, b - 1, pred);
    }
}

/// When every one of the first `n` blocks satisfies `pred`, the count is the number of
/// surfaces among them.
pub(crate) proof fn lemma_solids_all(s: Seq<Probe>, n: int, pred: spec_fn(Probe) -> bool)
    requires
        0 <= n <= s.len(),
        forall|k: int| 0 <= k < n ==> #[trigger] pred(s[k]),
    ensures
        solids_where(s, n, pred) == surfaces_of(s.take(n)).len(),
    decreases n,
{
    if n > 0 {
        lemma_solids_all(s, n - 1, pred);
        assert(s.take(n).drop_last() =~= s.take(n - 1));
        assert(s.take(n).last() == s[n - 1]);
        assert(pred(s[n - 1]));
    } else {
        assert(s.take(0) =~= Seq::<Probe>::empty());
    }
}

/// Block layers that add no requests leave a cell layer's requests as they are.
pub(crate) proof fn lemma_cy_layers_tail(
    p: GenerationParams,
    st: GenerationState,
    cell: (int, int),
    cy: int,
    a: int,
    b: int,
)
    requires
        0 <= a <= b,
        forall|ly: int| a <= ly < b ==> #[trigger] layer_part(p, st, cell, cy, ly) == Seq::<
            SamplerRequest,
        >::empty(),
    ensures
        cy_layers(p, st, cell, cy, a) == cy_layers(p, st, cell, cy, b),
    decreases b - a,
{
    if a < b {
        lemma_cy_layers_tail(p, st, cell, cy, a + 1, b);
        if a < p.vertical_cell_block_count {
            assert(layer_part(p, st, cell, cy, a) == Seq::<SamplerRequest>::empty());
            assert(cy_layers(p, st, cell, cy, a) =~= cy_layers(p, st, cell, cy, a + 1));
        }
    }
}

/// Cell layers that add no requests leave a cell's requests as they are.
pub(crate) proof fn lemma_cell_cys_tail(
    p: GenerationParams,
    st: GenerationState,
    cell: (int, int),
    hi: int,
    a: int,
    b: int,
)
    requires
        a <= b,
        forall|cy: int| a <= cy < b ==> #[trigger] cy_part(p, st, cell, cy) == Seq::<
            SamplerRequest,
        >::empty(),
    ensures
        cell_cys(p, st, cell, hi, a) == cell_cys(p, st, cell, hi, b),
    decreases b - a,
{
    if a < b {
        lemma_cell_cys_tail(p, st, cell, hi, a + 1, b);
        if a <= hi {
            assert(cy_part(p, st, cell, a) == Seq::<SamplerRequest>::empty());
            assert(cell_cys(p, st, cell, hi, a) =~= cell_cys(p, st, cell, hi, a + 1));
        }
    }
}

/// Cells that add no requests leave a cell column's requests as they are.
pub(crate) proof fn lemma_x_cells_tail(
    p: GenerationParams,
    st: GenerationState,
    cx: int,
    a: int,
    b: int,
)
    requires
        0 <= a <= b,
        forall|cz: int| a <= cz < b ==> #[trigger] cell_part(p, st, (cx, cz)) == Seq::<
            SamplerRequest,
        >::empty(),
    ensures
        x_cells(p, st, cx, b) == x_cells(p, st, cx, a),
    decreases b - a,
{
    if a < b {
        lemma_x_cells_tail(p, st, cx, a, b - 1);
        assert(cell_part(p, st, (cx, b - 1)) == Seq::<SamplerRequest>::empty());
        assert(x_cells(p, st, cx, b) =~= x_cells(p, st, cx, b - 1));
    }
}

/// Cell columns that add no requests leave the scan's requests as they are.
pub(crate) proof fn lemma_scan_xs_tail(p: GenerationParams, st: GenerationState, a: int, b: int)
    requires
        0 <= a <= b,
        forall|cx: int| a <= cx < b ==> #[trigger] x_part(p, st, cx) == Seq::<SamplerRequest>::empty(),
    ensures
        scan_xs(p, st, b) == scan_xs(p, st, a),
    decreases b - a,
{
    if a < b {
        lemma_scan_xs_tail(p, st, a, b - 1);
        assert(x_part(p, st, b - 1) == Seq::<SamplerRequest>::empty());
        assert(scan_xs(p, st, b) =~= scan_xs(p, st, b - 1));
    }
}

/// Blocks added that fail `pred` leave the count of a growing scan as it was.
pub(crate) proof fn lemma_count_grow(
    st2: GenerationState,
    st: GenerationState,
    h: int,
    fresh: spec_fn(Probe) -> bool,
    lim: (int, int),
    pred: spec_fn(Probe) -> bool,
)
    requires
        grows(st2, st, h, fresh, lim),
        forall|pr: Probe| #[trigger] fresh(pr) ==> !pred(pr),
    ensures
        solids_where(st2.probes@, st2.probes@.len() as int, pred) == solids_where(
            st.probes@,
            st.probes@.len() as int,
            pred,
        ),
{
    assert forall|k: int|
        st.probes@.len() <= k < st2.probes@.len() implies !(#[trigger] st2.probes@[k].2 && pred(
        st2.probes@[k],
    )) by {
        assert(fresh(st2.probes@[k]));
    }
    lemma_solids_skip(st2.probes@, st.probes@.len() as int, st2.probes@.len() as int, pred);
    lemma_solids_stable(st2.probes@, st.probes@, st.probes@.len() as int, pred);
}

/// When every block asked about satisfies `pred`, the count is the number of columns found.
pub(crate) proof fn lemma_count_all(st: GenerationState, pred: spec_fn(Probe) -> bool)
    requires
        scan_ok(st),
        forall|k: int| 0 <= k < st.probes@.len() ==> #[trigger] pred(st.probes@[k]),
    ensures
        solids_where(st.probes@, st.probes@.len() as int, pred) == st.columns_completed,
{
    lemma_solids_all(st.probes@, st.probes@.len() as int, pred);
    assert(st.probes@.take(st.probes@.len() as int) =~= st.probes@);
    assert(samples_view(st.surface_samples@).len() == st.surface_samples@.len());
}

/// A scan that grows from one whose blocks all satisfy `pred` counts at least its columns
/// found.
pub(crate) proof fn lemma_count_at_least(st2: GenerationState, st: GenerationState, pred: spec_fn(Probe) -> bool)
    requires
        extends(st2, st),
        scan_ok(st),
        forall|k: int| 0 <= k < st.probes@.len() ==> #[trigger] pred(st.probes@[k]),
    ensures
        solids_where(st2.probes@, st2.probes@.len() as int, pred) >= st.columns_completed,
{
    lemma_count_all(st, pred);
    lemma_solids_mono(st2.probes@, st.probes@.len() as int, st2.probes@.len() as int, pred);
    lemma_solids_stable(st2.probes@, st.probes@, st.probes@.len() as int, pred);
}

/// Blocks added outside a layer leave its requests as they were.
pub(crate) proof fn lemma_layer_blocks_grow(
    p: GenerationParams,
    st2: GenerationState,
    st: GenerationState,
    cell: (int, int),
    y: int,
    fresh: spec_fn(Probe) -> bool,
    lim: (int, int),
)
    requires
        grows(st2, st, p.horizontal_cell_block_count as int, fresh, lim),
        scan_ok(st),
        forall|pr: Probe| #[trigger] fresh(pr) ==> !in_layer(
            pr,
            p.horizontal_cell_block_count as int,
            cell,
            y,
        ),
    ensures
        layer_blocks(p, st2, cell, y, st2.probes@.len() as int) == layer_blocks(
            p,
            st,
            cell,
            y,
            st.probes@.len() as int,
        ),
{
    assert forall|k: int| st.probes@.len() <= k < st2.probes@.len() implies !in_layer(
        #[trigger] st2.probes@[k],
        p.horizontal_cell_block_count as int,
        cell,
        y,
    ) by {
        assert(fresh(st2.probes@[k]));
    }
    lemma_layer_blocks_skip(
        p,
        st2,
        cell,
        y,
        st.probes@.len() as int,
        st2.probes@.len() as int,
    );
    lemma_layer_blocks_stable(p, st2, st, cell, y, st.probes@.len() as int);
}

/// One more block of the layer adds its requests to the layer's.
pub(crate) proof fn lemma_layer_blocks_push(
    p: GenerationParams,
    st2: GenerationState,
    st: GenerationState,
    cell: (int, int),
    y: int,
)
    requires
        extends(st2, st),
        scan_ok(st),
        st2.probes@.len() == st.probes@.len() + 1,
        in_layer(st2.probes@.last(), p.horizontal_cell_block_count as int, cell, y),
    ensures
        layer_blocks(p, st2, cell, y, st2.probes@.len() as int) == layer_blocks(
            p,
            st,
            cell,
            y,
            st.probes@.len() as int,
        ) + probe_requests(p, st2, st.probes@.len() as int),
{
    lemma_layer_blocks_stable(p, st2, st, cell, y, st.probes@.len() as int);
}

/// Request `r` of a scan with parameters `p` stays within its cell: a block request names,
/// as the block's place in the cell, exactly the block's offset from the cell's first
/// sampled block on every axis, inside the cell, for cells as wide as the sampler's; and an
/// interpolation to a block layer carries the sampler's cell height and a layer inside it.
pub open spec fn request_in_cell(p: GenerationParams, r: SamplerRequest) -> bool {
    match r {
        SamplerRequest::SampleBlock { sample_start, local, block, horizontal_cell_block_count } => {
            &&& horizontal_cell_block_count == p.horizontal_cell_block_count
            &&& local.0 == block.0 - sample_start.0
            &&& local.1 == block.1 - sample_start.1
            &&& local.2 == block.2 - sample_start.2
            &&& 0 <= local.0 < p.horizontal_cell_block_count
            &&& 0 <= local.1 < p.vertical_cell_block_count
            &&& 0 <= local.2 < p.horizontal_cell_block_count
        },
        SamplerRequest::InterpolateY { local_y, vertical_cell_block_count } => {
            &&& vertical_cell_block_count == p.vertical_cell_block_count
            &&& local_y < vertical_cell_block_count
        },
        _ => true,
    }
}

/// Every request of `s` stays within its cell.
pub open spec fn requests_in_cells(p: GenerationParams, s: Seq<SamplerRequest>) -> bool {
    forall|i: int| 0 <= i < s.len() ==> #[trigger] request_in_cell(p, s[i])
}

proof fn lemma_in_cells_concat(p: GenerationParams, a: Seq<SamplerRequest>, b: Seq<SamplerRequest>)
    requires
        requests_in_cells(p, a),
        requests_in_cells(p, b),
    ensures
        requests_in_cells(p, a + b),
{
    assert forall|i: int| 0 <= i < (a + b).len() implies #[trigger] request_in_cell(p, (a + b)[i]) by {
        if i < a.len() {
            assert((a + b)[i] == a[i]);
        } else {
            assert((a + b)[i] == b[i - a.len()]);
        }
    }
}

proof fn lemma_in_cells_one(p: GenerationParams, r: SamplerRequest)
    requires
        request_in_cell(p, r),
    ensures
        requests_in_cells(p, seq![r]),
{
}

/// The blocks a scan asked about lie in its chunk's columns, at heights a scan can reach.
pub open spec fn probes_in_chunk(probes: Seq<Probe>) -> bool {
    forall|k: int|
        0 <= k < probes.len() ==> 0 <= (#[trigger] probes[k]).0 < CHUNK_COLUMNS && LOWEST_BLOCK_Y
            <= probes[k].1 <= HIGHEST_BLOCK_Y
}

/// The chunk starts on a whole cell on both horizontal axes.
pub open spec fn starts_on_cell(p: GenerationParams) -> bool {
    &&& (p.start_block_x as int) % (p.horizontal_cell_block_count as int) == 0
    &&& (p.start_block_z as int) % (p.horizontal_cell_block_count as int) == 0
}

proof fn lemma_probe_in_cells(p: GenerationParams, st: GenerationState, k: int)
    requires
        params_ok(p),
        starts_on_cell(p),
        probes_in_chunk(st.probes@),
        0 <= k < st.probes@.len(),
    ensures
        requests_in_cells(p, probe_requests(p, st, k)),
{
    let h = p.horizontal_cell_block_count as int;
    let v = p.vertical_cell_block_count as int;
    let pr = st.probes@[k];
    let col = pr.0;
    let y = pr.1;
    assert(0 <= col < 256 && LOWEST_BLOCK_Y <= y <= HIGHEST_BLOCK_Y);
    lemma_trunc_div_exact(p.start_block_x as int, h);
    lemma_trunc_div_exact(p.start_block_z as int, h);
    let x = col / 16;
    let z = col % 16;
    assert(0 <= x < 16 && 0 <= z < 16);
    vstd::arithmetic::div_mod::lemma_fundamental_div_mod(x, h);
    vstd::arithmetic::div_mod::lemma_fundamental_div_mod(z, h);
    vstd::arithmetic::div_mod::lemma_fundamental_div_mod(y, v);
    vstd::arithmetic::div_mod::lemma_mod_bound(x, h);
    vstd::arithmetic::div_mod::lemma_mod_bound(z, h);
    vstd::arithmetic::div_mod::lemma_mod_bound(y, v);
    let cx = x / h;
    let cz = z / h;
    assert(0 <= cx * h <= x) by (nonlinear_arith)
        requires
            x == h * cx + x % h,
            0 <= x % h,
            0 <= x,
            h > 0,
    ;
    assert(0 <= cz * h <= z) by (nonlinear_arith)
        requires
            z == h * cz + z % h,
            0 <= z % h,
            0 <= z,
            h > 0,
    ;
    assert((p.start_cell_x + cx) * h == p.start_cell_x * h + cx * h) by (nonlinear_arith);
    assert((p.start_cell_z + cz) * h == p.start_cell_z * h + cz * h) by (nonlinear_arith);
    let sample_y = (y / v) * v;
    assert(sample_y == y - y % v) by (nonlinear_arith)
        requires
            y == v * (y / v) + y % v,
            sample_y == (y / v) * v,
    ;
    let sample = probe_requests(p, st, k)[0];
    assert(request_in_cell(p, sample));
    let reqs = probe_requests(p, st, k);
    assert forall|i: int| 0 <= i < reqs.len() implies #[trigger] request_in_cell(p, reqs[i]) by {}
}

proof fn lemma_layer_blocks_in_cells(
    p: GenerationParams,
    st: GenerationState,
    cell: (int, int),
    y: int,
    n: int,
)
    requires
        params_ok(p),
        starts_on_cell(p),
        probes_in_chunk(st.probes@),
        n <= st.probes@.len(),
    ensures
        requests_in_cells(p, layer_blocks(p, st, cell, y, n)),
    decreases n,
{
    if n > 0 {
        lemma_layer_blocks_in_cells(p, st, cell, y, n - 1);
        if in_layer(st.probes@[n - 1], p.horizontal_cell_block_count as int, cell, y) {
            lemma_probe_in_cells(p, st, n - 1);
            lemma_in_cells_concat(p, layer_blocks(p, st, cell, y, n - 1), probe_requests(p, st, n - 1));
        } else {
            assert(layer_blocks(p, st, cell, y, n) =~= layer_blocks(p, st, cell, y, n - 1));
        }
    }
}

proof fn lemma_cy_layers_in_cells(p: GenerationParams, st: GenerationState, cell: (int, int), cy: int, k: int)
    requires
        params_ok(p),
        starts_on_cell(p),
        probes_in_chunk(st.probes@),
    ensures
        requests_in_cells(p, cy_layers(p, st, cell, cy, k)),
    decreases p.vertical_cell_block_count - k,
{
    if 0 <= k < p.vertical_cell_block_count {
        lemma_cy_layers_in_cells(p, st, cell, cy, k + 1);
        let y = layer_y(p, cy, k);
        if reached(st, p.horizontal_cell_block_count as int, cell, y) {
            lemma_layer_blocks_in_cells(p, st, cell, y, st.probes@.len() as int);
            let iy = SamplerRequest::InterpolateY {
                local_y: k as u8,
                vertical_cell_block_count: p.vertical_cell_block_count,
            };
            lemma_in_cells_one(p, iy);
            lemma_in_cells_concat(p, seq![iy], layer_blocks(p, st, cell, y, st.probes@.len() as int));
        }
        lemma_in_cells_concat(p, cy_layers(p, st, cell, cy, k + 1), layer_part(p, st, cell, cy, k));
    }
}

proof fn lemma_cell_cys_in_cells(p: GenerationParams, st: GenerationState, cell: (int, int), hi: int, k: int)
    requires
        params_ok(p),
        starts_on_cell(p),
        probes_in_chunk(st.probes@),
    ensures
        requests_in_cells(p, cell_cys(p, st, cell, hi, k)),
    decreases hi + 1 - k,
{
    if k <= hi {
        lemma_cell_cys_in_cells(p, st, cell, hi, k + 1);
        let v = p.vertical_cell_block_count as int;
        if reached(st, p.horizontal_cell_block_count as int, cell, layer_y(p, k, v - 1)) {
            lemma_cy_layers_in_cells(p, st, cell, k, 0);
            let cc = SamplerRequest::CellCorners {
                cell_x: cell.0 as u8,
                cell_y: k as u16,
                cell_z: cell.1 as u8,
            };
            lemma_in_cells_one(p, cc);
            lemma_in_cells_concat(p, seq![cc], cy_layers(p, st, cell, k, 0));
        }
        lemma_in_cells_concat(p, cell_cys(p, st, cell, hi, k + 1), cy_part(p, st, cell, k));
    }
}

proof fn lemma_x_cells_in_cells(p: GenerationParams, st: GenerationState, cx: int, n: int)
    requires
        params_ok(p),
        starts_on_cell(p),
        probes_in_chunk(st.probes@),
    ensures
        requests_in_cells(p, x_cells(p, st, cx, n)),
    decreases n,
{
    if n > 0 {
        lemma_x_cells_in_cells(p, st, cx, n - 1);
        let h = p.horizontal_cell_block_count as int;
        let cell = (cx, n - 1);
        let band = st.bands@[column_index(cell.0 * h, cell.1 * h)];
        let cells = adaptive_cells(p, band.0, band.1);
        lemma_cell_cys_in_cells(p, st, cell, cells.1, cells.0);
        lemma_in_cells_concat(p, x_cells(p, st, cx, n - 1), cell_part(p, st, cell));
    }
}

proof fn lemma_scan_xs_in_cells(p: GenerationParams, st: GenerationState, n: int)
    requires
        params_ok(p),
        starts_on_cell(p),
        probes_in_chunk(st.probes@),
    ensures
        requests_in_cells(p, scan_xs(p, st, n)),
    decreases n,
{
    if n > 0 {
        lemma_scan_xs_in_cells(p, st, n - 1);
        let cx = n - 1;
        let h = p.horizontal_cell_block_count as int;
        lemma_x_cells_in_cells(p, st, cx, p.horizontal_cells as int);
        let ed = SamplerRequest::EndDensity { cell_x: cx as u8 };
        let head = if reached_cell(st, h, (cx, 0)) {
            seq![ed]
        } else {
            Seq::empty()
        };
        let tail = if reached_cell(st, h, (cx + 1, 0)) {
            seq![SamplerRequest::SwapBuffers]
        } else {
            Seq::empty()
        };
        assert(requests_in_cells(p, head));
        assert(requests_in_cells(p, tail));
        lemma_in_cells_concat(p, head, x_cells(p, st, cx, p.horizontal_cells as int));
        lemma_in_cells_concat(p, head + x_cells(p, st, cx, p.horizontal_cells as int), tail);
        lemma_in_cells_concat(p, scan_xs(p, st, n - 1), x_part(p, st, cx));
    }
}

/// Every block a scan's contract admits lies in its chunk's columns at a height a scan can
/// reach.
pub proof fn lemma_scan_probes_in_chunk(p: GenerationParams, st: GenerationState)
    requires
        params_ok(p),
        scan_ok(st),
        in_bands(p, st.probes@, st.bands@),
    ensures
        probes_in_chunk(st.probes@),
{
    let v = p.vertical_cell_block_count as int;
    let m = p.minimum_cell_y as int;
    assert forall|k: int| 0 <= k < st.probes@.len() implies 0 <= (#[trigger] st.probes@[k]).0
        < CHUNK_COLUMNS && LOWEST_BLOCK_Y <= st.probes@[k].1 <= HIGHEST_BLOCK_Y by {
        let b = st.bands@[st.probes@[k].0];
        let cells = adaptive_cells(p, b.0, b.1);
        assert(0 <= cells.0 <= 65535 && 0 <= cells.1 <= 65535);
        assert(-32640 <= (m + cells.0) * v) by (nonlinear_arith)
            requires
                -128 <= m,
                0 <= cells.0,
                1 <= v <= 255,
        ;
        assert((m + cells.1 + 1) * v - 1 <= 16744065) by (nonlinear_arith)
            requires
                m <= 127,
                cells.1 <= 65535,
                1 <= v <= 255,
        ;
        assert(band_of(p, b).0 <= st.probes@[k].1 <= band_of(p, b).1);
    }
}

/// Every request a scan makes stays within its cell, for a chunk that starts on a whole cell
/// (as every chunk does when the cell width divides the chunk's): each block is asked
/// through its own cell's first sampled block with its exact offset from it, on every axis,
/// and each interpolation to a block layer carries the sampler's cell height.
pub proof fn lemma_scan_requests_in_cells(p: GenerationParams, st: GenerationState)
    requires
        params_ok(p),
        starts_on_cell(p),
        scan_ok(st),
        in_bands(p, st.probes@, st.bands@),
    ensures
        requests_in_cells(p, scan_requests(p, st)),
{
    lemma_scan_probes_in_chunk(p, st);
    lemma_scan_xs_in_cells(p, st, p.horizontal_cells as int);
    lemma_in_cells_one(p, SamplerRequest::StartDensity);
    lemma_in_cells_concat(p, seq![SamplerRequest::StartDensity], scan_xs(p, st, p.horizontal_cells as int));
}

} // verus!
