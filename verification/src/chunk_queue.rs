//! Queueing chunk height maps for batched storage, and laying chunks out as table rows.
use crate::surface::column_index;
use vstd::prelude::*;

verus! {

/// A chunk's coordinates and its height map.
pub type QueuedChunk = (i32, i32, Vec<i64>);

/// A chunk's coordinates and its height map, as values.
pub open spec fn chunk_view(c: QueuedChunk) -> (i32, i32, Seq<i64>) {
    (c.0, c.1, c.2@)
}

/// The chunks of `s`, as values.
pub open spec fn chunks_view(s: Seq<QueuedChunk>) -> Seq<(i32, i32, Seq<i64>)> {
    s.map_values(|c: QueuedChunk| chunk_view(c))
}

/// Queuing `c` behind the chunks `q` with batch size `b`: the chunks left waiting, and the
/// batch handed out to be stored (empty while the queue holds fewer than `b` chunks).
pub open spec fn queue_step(q: Seq<(i32, i32, Seq<i64>)>, b: int, c: (i32, i32, Seq<i64>)) -> (
    Seq<(i32, i32, Seq<i64>)>,
    Seq<(i32, i32, Seq<i64>)>,
) {
    let all = q.push(c);
    if all.len() >= b {
        (Seq::empty(), all)
    } else {
        (all, Seq::empty())
    }
}

/// Queuing each of `inputs` in turn behind `q`: every chunk handed out, in order, and the
/// chunks left waiting.
pub open spec fn queue_run(
    q: Seq<(i32, i32, Seq<i64>)>,
    b: int,
    inputs: Seq<(i32, i32, Seq<i64>)>,
) -> (Seq<(i32, i32, Seq<i64>)>, Seq<(i32, i32, Seq<i64>)>)
    decreases inputs.len(),
{
    if inputs.len() == 0 {
        (Seq::empty(), q)
    } else {
        let (out, left) = queue_run(q, b, inputs.drop_last());
        let (left2, batch) = queue_step(left, b, inputs.last());
        (out + batch, left2)
    }
}

/// However chunks are queued, what was handed out followed by what is left is what was
/// waiting followed by what was queued, in order: no chunk is lost, repeated or moved; and
/// a queue that held fewer than `b` chunks never holds `b` or more.
pub proof fn lemma_queue_keeps_every_chunk(
    q: Seq<(i32, i32, Seq<i64>)>,
    b: int,
    inputs: Seq<(i32, i32, Seq<i64>)>,
)
    ensures
        queue_run(q, b, inputs).0 + queue_run(q, b, inputs).1 == q + inputs,
        q.len() < b ==> queue_run(q, b, inputs).1.len() < b,
    decreases inputs.len(),
{
    if inputs.len() > 0 {
        let init = inputs.drop_last();
        lemma_queue_keeps_every_chunk(q, b, init);
        let (out, left) = queue_run(q, b, init);
        assert(inputs =~= init.push(inputs.last()));
        let (left2, batch) = queue_step(left, b, inputs.last());
        assert(batch + left2 =~= left.push(inputs.last()));
        assert(out + batch + left2 =~= out + (batch + left2));
        assert(q + inputs =~= (q + init).push(inputs.last()));
    }
}

/// Chunks waiting to be stored together, and how many make a batch.
#[derive(Debug, Clone)]
pub struct ChunkQueue {
    pub chunks: Vec<QueuedChunk>,
    pub batch_size: usize,
}

proof fn lemma_chunks_push(s: Seq<QueuedChunk>, c: QueuedChunk)
    ensures
        chunks_view(s.push(c)) == chunks_view(s).push(chunk_view(c)),
{
    assert(chunks_view(s.push(c)) =~= chunks_view(s).push(chunk_view(c)));
}

impl ChunkQueue {
    /// An empty queue that stores every `batch_size` chunks.
    pub fn new(batch_size: usize) -> (q: Self)
        ensures
            q.chunks@.len() == 0,
            q.batch_size == batch_size,
    {
        ChunkQueue { chunks: Vec::new(), batch_size }
    }

    /// Queues a chunk. Once the queue holds `batch_size` chunks it empties, and the chunks
    /// it held, in the order queued, are returned to be stored.
    pub fn queue_chunk(&mut self, chunk_x: i32, chunk_z: i32, height_map: Vec<i64>) -> (batch:
        Option<Vec<QueuedChunk>>)
        ensures
            final(self).batch_size == old(self).batch_size,
            ({
                let all = chunks_view(old(self).chunks@).push((chunk_x, chunk_z, height_map@));
                if all.len() >= old(self).batch_size {
                    &&& batch is Some
                    &&& chunks_view(batch->0@) == all
                    &&& final(self).chunks@.len() == 0
                } else {
                    &&& batch is None
                    &&& chunks_view(final(self).chunks@) == all
                }
            }),
            (chunks_view(final(self).chunks@), match batch {
                Some(b) => chunks_view(b@),
                None => Seq::empty(),
            }) == queue_step(
                chunks_view(old(self).chunks@),
                old(self).batch_size as int,
                (chunk_x, chunk_z, height_map@),
            ),
    {
        let ghost before = self.chunks@;
        self.chunks.push((chunk_x, chunk_z, height_map));
        proof {
            lemma_chunks_push(before, (chunk_x, chunk_z, height_map));
        }
        if self.chunks.len() >= self.batch_size {
            let mut taken: Vec<QueuedChunk> = Vec::new();
            std::mem::swap(&mut taken, &mut self.chunks);
            Some(taken)
        } else {
            None
        }
    }

    /// Empties the queue, returning every chunk it held in the order queued.
    pub fn flush_queue(&mut self) -> (chunks: Vec<QueuedChunk>)
        ensures
            final(self).batch_size == old(self).batch_size,
            final(self).chunks@.len() == 0,
            chunks@ == old(self).chunks@,
    {
        let mut taken: Vec<QueuedChunk> = Vec::new();
        std::mem::swap(&mut taken, &mut self.chunks);
        taken
    }

    /// How many chunks are waiting.
    pub fn queue_size(&self) -> (n: usize)
        ensures
            n == self.chunks@.len(),
    {
        self.chunks.len()
    }

    /// Whether no chunk is waiting.
    pub fn is_queue_empty(&self) -> (b: bool)
        ensures
            b == (self.chunks@.len() == 0),
    {
        self.chunks.len() == 0
    }
}

/// One table row per block column: the seven columns of a chunk store, as parallel lists.
#[derive(Debug, Clone)]
pub struct ChunkRows {
    pub chunk_xs: Vec<i32>,
    pub chunk_zs: Vec<i32>,
    pub local_xs: Vec<i32>,
    pub local_zs: Vec<i32>,
    pub heights: Vec<i32>,
    pub world_xs: Vec<i32>,
    pub world_zs: Vec<i32>,
}

/// A chunk's coordinates leave room for its blocks in `i32` world coordinates, and its
/// height map covers all 256 columns.
pub open spec fn chunk_storable(c: (i32, i32, Seq<i64>)) -> bool {
    &&& c.2.len() >= 256
    &&& i32::MIN <= c.0 * 16 && c.0 * 16 + 15 <= i32::MAX
    &&& i32::MIN <= c.1 * 16 && c.1 * 16 + 15 <= i32::MAX
}

/// Row `r` of the chunks' rows: chunk `r / 256`, local column `((r % 256) / 16, r % 16)`.
pub open spec fn row_of(chunks: Seq<(i32, i32, Seq<i64>)>, r: int) -> (
    i32,
    i32,
    i32,
    i32,
    i32,
    i32,
    i32,
) {
    let c = chunks[r / 256];
    let lx = (r % 256) / 16;
    let lz = r % 16;
    (
        c.0,
        c.1,
        lx as i32,
        lz as i32,
        c.2[lx * 16 + lz] as i32,
        (c.0 * 16 + lx) as i32,
        (c.1 * 16 + lz) as i32,
    )
}

/// The rows hold, for every chunk in order and every local column `(x, z)` with `x` major,
/// the chunk's coordinates, `x` and `z`, the column's height (cast to `i32`), and the
/// column's world coordinates.
pub open spec fn rows_of(rows: ChunkRows, chunks: Seq<(i32, i32, Seq<i64>)>) -> bool {
    let n = chunks.len() * 256;
    &&& rows.chunk_xs.len() == n
    &&& rows.chunk_zs.len() == n
    &&& rows.local_xs.len() == n
    &&& rows.local_zs.len() == n
    &&& rows.heights.len() == n
    &&& rows.world_xs.len() == n
    &&& rows.world_zs.len() == n
    &&& forall|r: int|
        0 <= r < n ==> #[trigger] row_of(chunks, r) == (
            rows.chunk_xs@[r],
            rows.chunk_zs@[r],
            rows.local_xs@[r],
            rows.local_zs@[r],
            rows.heights@[r],
            rows.world_xs@[r],
            rows.world_zs@[r],
        )
}

proof fn lemma_row_index(ci: int, lx: int, lz: int)
    requires
        ci >= 0,
        0 <= lx < 16,
        0 <= lz < 16,
    ensures
        (ci * 256 + lx * 16 + lz) / 256 == ci,
        ((ci * 256 + lx * 16 + lz) % 256) / 16 == lx,
        (ci * 256 + lx * 16 + lz) % 16 == lz,
{
    let r = ci * 256 + lx * 16 + lz;
    vstd::arithmetic::div_mod::lemma_fundamental_div_mod_converse(r, 256, ci, lx * 16 + lz);
    vstd::arithmetic::div_mod::lemma_fundamental_div_mod_converse(lx * 16 + lz, 16, lx, lz);
    vstd::arithmetic::div_mod::lemma_fundamental_div_mod_converse(r, 16, ci * 16 + lx, lz);
}

/// Lays the chunks out as rows, one per block column.
pub fn chunk_rows(chunks: &Vec<QueuedChunk>) -> (rows: ChunkRows)
    requires
        forall|i: int| 0 <= i < chunks@.len() ==> chunk_storable(#[trigger] chunk_view(chunks@[i])),
    ensures
        rows_of(rows, chunks_view(chunks@)),
        forall|r: int|
            0 <= r < rows.heights@.len() ==> #[trigger] row_stores_its_column(
                rows,
                chunks_view(chunks@),
                r,
            ),
{
    let ghost cv = chunks_view(chunks@);
    let mut rows = ChunkRows {
        chunk_xs: Vec::new(),
        chunk_zs: Vec::new(),
        local_xs: Vec::new(),
        local_zs: Vec::new(),
        heights: Vec::new(),
        world_xs: Vec::new(),
        world_zs: Vec::new(),
    };
    let mut ci: usize = 0;
    while ci < chunks.len()
        invariant
            cv == chunks_view(chunks@),
            ci <= chunks.len(),
            forall|i: int| 0 <= i < chunks@.len() ==> chunk_storable(#[trigger] chunk_view(chunks@[i])),
            rows.chunk_xs.len() == ci * 256,
            rows.chunk_zs.len() == ci * 256,
            rows.local_xs.len() == ci * 256,
            rows.local_zs.len() == ci * 256,
            rows.heights.len() == ci * 256,
            rows.world_xs.len() == ci * 256,
            rows.world_zs.len() == ci * 256,
            forall|r: int|
                0 <= r < ci * 256 ==> #[trigger] row_of(cv, r) == (
                    rows.chunk_xs@[r],
                    rows.chunk_zs@[r],
                    rows.local_xs@[r],
                    rows.local_zs@[r],
                    rows.heights@[r],
                    rows.world_xs@[r],
                    rows.world_zs@[r],
                ),
        decreases chunks.len() - ci,
    {
        let chunk_x = chunks[ci].0;
        let chunk_z = chunks[ci].1;
        let height_map = &chunks[ci].2;
        proof {
            assert(chunk_storable(chunk_view(chunks@[ci as int])));
            assert(cv[ci as int] == chunk_view(chunks@[ci as int]));
        }
        let mut local_x: i32 = 0;
        while local_x < 16
            invariant
                cv == chunks_view(chunks@),
                ci < chunks.len(),
                chunk_x == chunks@[ci as int].0,
                chunk_z == chunks@[ci as int].1,
                height_map@ == chunks@[ci as int].2@,
                cv[ci as int] == chunk_view(chunks@[ci as int]),
                chunk_storable(chunk_view(chunks@[ci as int])),
                0 <= local_x <= 16,
                rows.chunk_xs.len() == ci * 256 + local_x * 16,
                rows.chunk_zs.len() == ci * 256 + local_x * 16,
                rows.local_xs.len() == ci * 256 + local_x * 16,
                rows.local_zs.len() == ci * 256 + local_x * 16,
                rows.heights.len() == ci * 256 + local_x * 16,
                rows.world_xs.len() == ci * 256 + local_x * 16,
                rows.world_zs.len() == ci * 256 + local_x * 16,
                forall|r: int|
                    0 <= r < ci * 256 + local_x * 16 ==> #[trigger] row_of(cv, r) == (
                        rows.chunk_xs@[r],
                        rows.chunk_zs@[r],
                        rows.local_xs@[r],
                        rows.local_zs@[r],
                        rows.heights@[r],
                        rows.world_xs@[r],
                        rows.world_zs@[r],
                    ),
            decreases 16 - local_x,
        {
            let mut local_z: i32 = 0;
            while local_z < 16
                invariant
                    cv == chunks_view(chunks@),
                    ci < chunks.len(),
                    chunk_x == chunks@[ci as int].0,
                    chunk_z == chunks@[ci as int].1,
                    height_map@ == chunks@[ci as int].2@,
                    cv[ci as int] == chunk_view(chunks@[ci as int]),
                    chunk_storable(chunk_view(chunks@[ci as int])),
                    0 <= local_x < 16,
                    0 <= local_z <= 16,
                    rows.chunk_xs.len() == ci * 256 + local_x * 16 + local_z,
                    rows.chunk_zs.len() == ci * 256 + local_x * 16 + local_z,
                    rows.local_xs.len() == ci * 256 + local_x * 16 + local_z,
                    rows.local_zs.len() == ci * 256 + local_x * 16 + local_z,
                    rows.heights.len() == ci * 256 + local_x * 16 + local_z,
                    rows.world_xs.len() == ci * 256 + local_x * 16 + local_z,
                    rows.world_zs.len() == ci * 256 + local_x * 16 + local_z,
                    forall|r: int|
                        0 <= r < ci * 256 + local_x * 16 + local_z ==> #[trigger] row_of(cv, r)
                            == (
                            rows.chunk_xs@[r],
                            rows.chunk_zs@[r],
                            rows.local_xs@[r],
                            rows.local_zs@[r],
                            rows.heights@[r],
                            rows.world_xs@[r],
                            rows.world_zs@[r],
                        ),
                decreases 16 - local_z,
            {
                let index = (local_x * 16 + local_z) as usize;
                let height = height_map[index] as i32;
                let world_x = chunk_x * 16 + local_x;
                let world_z = chunk_z * 16 + local_z;
                let ghost r0 = ci * 256 + local_x * 16 + local_z;
                rows.chunk_xs.push(chunk_x);
                rows.chunk_zs.push(chunk_z);
                rows.local_xs.push(local_x);
                rows.local_zs.push(local_z);
                rows.heights.push(height);
                rows.world_xs.push(world_x);
                rows.world_zs.push(world_z);
                proof {
                    lemma_row_index(ci as int, local_x as int, local_z as int);
                    assert(row_of(cv, r0) == (
                        rows.chunk_xs@[r0],
                        rows.chunk_zs@[r0],
                        rows.local_xs@[r0],
                        rows.local_zs@[r0],
                        rows.heights@[r0],
                        rows.world_xs@[r0],
                        rows.world_zs@[r0],
                    ));
                }
                local_z = local_z + 1;
            }
            local_x = local_x + 1;
        }
        ci = ci + 1;
    }
    proof {
        assert forall|i: int| 0 <= i < cv.len() implies #[trigger] chunk_storable(cv[i]) by {
            assert(cv[i] == chunk_view(chunks@[i]));
        }
        lemma_rows_store_each_column(rows, cv);
    }
    rows
}

/// Row `r` stores one column of its chunk `chunks[r / 256]`, consistently: a local column
/// `(x, z)` inside the chunk, the height the chunk's height map holds for that column at the
/// scan's index `column_index(x, z)` (cast to `i32`), the chunk's coordinates, and the world
/// coordinates of that same column.
pub open spec fn row_stores_its_column(rows: ChunkRows, chunks: Seq<(i32, i32, Seq<i64>)>, r: int) -> bool {
    let c = chunks[r / 256];
    let x = rows.local_xs@[r] as int;
    let z = rows.local_zs@[r] as int;
    &&& 0 <= x < 16
    &&& 0 <= z < 16
    &&& rows.heights@[r] == c.2[column_index(x, z)] as i32
    &&& rows.chunk_xs@[r] == c.0
    &&& rows.chunk_zs@[r] == c.1
    &&& rows.world_xs@[r] == c.0 * 16 + x
    &&& rows.world_zs@[r] == c.1 * 16 + z
}

/// Column `(x, z)` of chunk `i` has its row, at `i * 256 + column_index(x, z)`.
pub open spec fn column_has_row(rows: ChunkRows, i: int, x: int, z: int) -> bool {
    let r = i * 256 + column_index(x, z);
    &&& 0 <= r < rows.heights@.len()
    &&& rows.local_xs@[r] == x
    &&& rows.local_zs@[r] == z
    &&& r / 256 == i
}

/// Each row stores one column of one chunk, consistently: the height of the very column
/// its local coordinates name, under the scan's column index, and that column's world
/// coordinates; and every column of every chunk has its row.
pub proof fn lemma_rows_store_each_column(rows: ChunkRows, chunks: Seq<(i32, i32, Seq<i64>)>)
    requires
        rows_of(rows, chunks),
        forall|i: int| 0 <= i < chunks.len() ==> #[trigger] chunk_storable(chunks[i]),
    ensures
        forall|r: int|
            0 <= r < rows.heights@.len() ==> #[trigger] row_stores_its_column(rows, chunks, r),
        forall|i: int, x: int, z: int|
            0 <= i < chunks.len() && 0 <= x < 16 && 0 <= z < 16 ==> #[trigger] column_has_row(
                rows,
                i,
                x,
                z,
            ),
{
    let n = chunks.len() * 256;
    assert forall|r: int| 0 <= r < rows.heights@.len() implies #[trigger] row_stores_its_column(
        rows,
        chunks,
        r,
    ) by {
        assert(row_of(chunks, r) == (
            rows.chunk_xs@[r],
            rows.chunk_zs@[r],
            rows.local_xs@[r],
            rows.local_zs@[r],
            rows.heights@[r],
            rows.world_xs@[r],
            rows.world_zs@[r],
        ));
        let lx = (r % 256) / 16;
        let lz = r % 16;
        vstd::arithmetic::div_mod::lemma_fundamental_div_mod(r, 256);
        assert(0 <= r / 256 < chunks.len()) by (nonlinear_arith)
            requires
                r == 256 * (r / 256) + r % 256,
                0 <= r % 256 < 256,
                0 <= r < chunks.len() * 256,
        ;
        let c = chunks[r / 256];
        assert(chunk_storable(c));
        assert(rows.local_xs@[r] as int == lx);
        assert(rows.local_zs@[r] as int == lz);
    }
    assert forall|i: int, x: int, z: int|
        0 <= i < chunks.len() && 0 <= x < 16 && 0 <= z < 16 implies #[trigger] column_has_row(
        rows,
        i,
        x,
        z,
    ) by {
        let r = i * 256 + x * 16 + z;
        lemma_row_index(i, x, z);
        assert(r < n) by (nonlinear_arith)
            requires
                r == i * 256 + x * 16 + z,
                i + 1 <= chunks.len(),
                x * 16 + z < 256,
                n == chunks.len() * 256,
        ;
        assert(row_of(chunks, r) == (
            rows.chunk_xs@[r],
            rows.chunk_zs@[r],
            rows.local_xs@[r],
            rows.local_zs@[r],
            rows.heights@[r],
            rows.world_xs@[r],
            rows.world_zs@[r],
        ));
    }
}

} // verus!
