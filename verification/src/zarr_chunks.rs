//! The chunks of a stored height array: every coordinate of its chunk grid, each chunk's
//! dimensions, and how chunks are grouped into batches that fit a memory budget.
use vstd::prelude::*;
use vstd::slice::slice_subrange;
use vstd::slice::slice_to_vec;

verus! {

broadcast use vstd::seq_lib::group_seq_properties;

/// The coordinate vectors of `s`, as sequences.
pub open spec fn coords_view(s: Seq<Vec<u64>>) -> Seq<Seq<u64>> {
    s.map_values(|v: Vec<u64>| v@)
}

/// Each of `s`, with `p` in front.
pub open spec fn prefixed(p: Seq<u64>, s: Seq<Seq<u64>>) -> Seq<Seq<u64>> {
    s.map_values(|t: Seq<u64>| p + t)
}

/// Every coordinate of a grid with `dims[k]` positions along axis `k`, in lexicographic
/// order (the last axis varying fastest). A grid of no axes has the one empty coordinate.
pub open spec fn grid_coords(dims: Seq<u64>) -> Seq<Seq<u64>>
    decreases dims.len(),
{
    if dims.len() == 0 {
        seq![Seq::<u64>::empty()]
    } else {
        let sub = grid_coords(dims.drop_first());
        Seq::new(dims[0] as nat, |i: int| prefixed(seq![i as u64], sub)).flatten()
    }
}

proof fn lemma_prefixed_concat(p: Seq<u64>, a: Seq<Seq<u64>>, b: Seq<Seq<u64>>)
    ensures
        prefixed(p, a + b) == prefixed(p, a) + prefixed(p, b),
{
    assert(prefixed(p, a + b) =~= prefixed(p, a) + prefixed(p, b));
}

proof fn lemma_prefixed_push(p: Seq<u64>, i: u64, s: Seq<Seq<u64>>)
    ensures
        prefixed(p.push(i), s) == prefixed(p, prefixed(seq![i], s)),
{
    assert forall|k: int| 0 <= k < s.len() implies prefixed(p.push(i), s)[k] == prefixed(
        p,
        prefixed(seq![i], s),
    )[k] by {
        assert(p.push(i) + s[k] =~= p + (seq![i] + s[k]));
    }
    assert(prefixed(p.push(i), s) =~= prefixed(p, prefixed(seq![i], s)));
}

/// Appends to `all_chunks` every coordinate of the grid `remaining`, each with `current`
/// in front, in lexicographic order; `current` ends as it began.
pub fn generate_chunk_coords(current: &mut Vec<u64>, remaining: &[u64], all_chunks: &mut Vec<
    Vec<u64>,
>)
    ensures
        final(current)@ == old(current)@,
        coords_view(final(all_chunks)@) == coords_view(old(all_chunks)@) + prefixed(
            old(current)@,
            grid_coords(remaining@),
        ),
    decreases remaining@.len(),
{
    let ghost c0 = current@;
    let ghost a0 = coords_view(all_chunks@);
    if remaining.len() == 0 {
        let copy = slice_to_vec(current.as_slice());
        all_chunks.push(copy);
        proof {
            assert(prefixed(c0, grid_coords(remaining@)) =~= seq![c0]);
            assert(coords_view(all_chunks@) =~= a0 + seq![c0]);
        }
        return ;
    }
    let rest = slice_subrange(remaining, 1, remaining.len());
    let ghost sub = grid_coords(remaining@.drop_first());
    let ghost f = |i: int| prefixed(seq![i as u64], sub);
    proof {
        assert(rest@ =~= remaining@.drop_first());
        assert(Seq::new(0, f) =~= Seq::<Seq<Seq<u64>>>::empty());
        assert(Seq::<Seq<Seq<u64>>>::empty().flatten() =~= Seq::<Seq<u64>>::empty());
        assert(prefixed(c0, Seq::empty()) =~= Seq::<Seq<u64>>::empty());
        assert(a0 + Seq::<Seq<u64>>::empty() =~= a0);
    }
    let n = remaining[0];
    let mut i: u64 = 0;
    while i < n
        invariant
            i <= n,
            n == remaining@[0],
            remaining@.len() > 0,
            rest@ == remaining@.drop_first(),
            sub == grid_coords(remaining@.drop_first()),
            f == (|i: int| prefixed(seq![i as u64], sub)),
            current@ == c0,
            coords_view(all_chunks@) == a0 + prefixed(c0, Seq::new(i as nat, f).flatten()),
        decreases n - i,
    {
        current.push(i);
        generate_chunk_coords(current, rest, all_chunks);
        current.pop();
        proof {
            assert(current@ =~= c0);
            lemma_prefixed_push(c0, i, sub);
            assert(Seq::new((i + 1) as nat, f) =~= Seq::new(i as nat, f).push(f(i as int)));
            Seq::new(i as nat, f).lemma_flatten_push(f(i as int));
            lemma_prefixed_concat(c0, Seq::new(i as nat, f).flatten(), f(i as int));
        }
        i = i + 1;
    }
    proof {
        assert(grid_coords(remaining@) == Seq::new(n as nat, f).flatten());
    }
}

/// Every coordinate of a chunk grid of shape `grid_shape`, or none when the grid's shape
/// is unknown.
pub fn find_all_chunks(grid_shape: Option<Vec<u64>>) -> (all_chunks: Vec<Vec<u64>>)
    ensures
        coords_view(all_chunks@) == match grid_shape {
            Some(g) => grid_coords(g@),
            None => Seq::empty(),
        },
{
    match grid_shape {
        Some(g) => {
            let mut all_chunks: Vec<Vec<u64>> = Vec::new();
            let mut current: Vec<u64> = Vec::new();
            proof {
                assert(coords_view(all_chunks@) =~= Seq::empty());
            }
            generate_chunk_coords(&mut current, g.as_slice(), &mut all_chunks);
            proof {
                assert(Seq::<Seq<u64>>::empty() + prefixed(Seq::empty(), grid_coords(g@))
                    =~= grid_coords(g@));
            }
            all_chunks
        },
        None => {
            let all_chunks: Vec<Vec<u64>> = Vec::new();
            proof {
                assert(coords_view(all_chunks@) =~= Seq::empty());
            }
            all_chunks
        },
    }
}

/// The unsigned number that `bytes` spell with the first byte least significant.
pub open spec fn le_unsigned(bytes: Seq<u8>) -> int
    decreases bytes.len(),
{
    if bytes.len() == 0 {
        0
    } else {
        bytes[0] + 256 * le_unsigned(bytes.drop_first())
    }
}

/// The unsigned number that `bytes` spell with the first byte most significant.
pub open spec fn be_unsigned(bytes: Seq<u8>) -> int {
    le_unsigned(bytes.reverse())
}

/// An unsigned 64-bit number read as two's complement.
pub open spec fn signed_64(u: int) -> int {
    if u >= 0x8000_0000_0000_0000 {
        u - 0x1_0000_0000_0000_0000
    } else {
        u
    }
}

/// The `i64` that eight bytes hold in little-endian order.
pub open spec fn le_i64(bytes: Seq<u8>) -> int {
    signed_64(le_unsigned(bytes))
}

/// The `i64` that eight bytes hold in big-endian order.
pub open spec fn be_i64(bytes: Seq<u8>) -> int {
    signed_64(be_unsigned(bytes))
}

/// Calls `bytemuck::pod_read_unaligned::<i64>`, which copies the eight bytes, wherever they
/// lie in memory, into one `i64` and fails only when it is not given exactly eight bytes
/// (excluded by `requires`). The bytes are read in the machine's byte order; every Rust
/// target is little- or big-endian, so the value is one of the two readings, and the
/// contract does not say which.
#[verifier::external_body]
fn read_height(bytes: &[u8]) -> (height: i64)
    requires
        bytes@.len() == 8,
    ensures
        height == le_i64(bytes@) || height == be_i64(bytes@),
{
    bytemuck::pod_read_unaligned::<i64>(bytes)
}

/// The stored heights that `bytes` holds, eight bytes each in the machine's byte order:
/// one height for each group of eight bytes, in order; `None` exactly where the bytes are
/// not a whole number of heights.
pub fn bytes_to_heights(bytes: &[u8]) -> (heights: Option<Vec<i64>>)
    ensures
        heights is Some <==> bytes@.len() % 8 == 0,
        heights matches Some(h) ==> h@.len() * 8 == bytes@.len(),
        heights matches Some(h) ==> forall|k: int|
            0 <= k < h@.len() ==> #[trigger] h@[k] == le_i64(bytes@.subrange(8 * k, 8 * k + 8))
                || h@[k] == be_i64(bytes@.subrange(8 * k, 8 * k + 8)),
{
    let len = bytes.len();
    if len % 8 != 0 {
        return None;
    }
    let count = len / 8;
    let mut heights: Vec<i64> = Vec::with_capacity(count);
    let mut i: usize = 0;
    while i < count
        invariant
            count * 8 == len,
            len == bytes@.len(),
            i <= count,
            heights@.len() == i,
            forall|k: int|
                0 <= k < i ==> #[trigger] heights@[k] == le_i64(bytes@.subrange(8 * k, 8 * k + 8))
                    || heights@[k] == be_i64(bytes@.subrange(8 * k, 8 * k + 8)),
        decreases count - i,
    {
        let group = &bytes[i * 8..i * 8 + 8];
        let height = read_height(group);
        heights.push(height);
        i = i + 1;
    }
    Some(heights)
}

/// Bytes that one height takes while a chunk is processed: an `i64` as stored and an
/// `f32` as computed with.
pub const BYTES_PER_HEIGHT: usize = 12;

/// Bytes in a mebibyte.
pub const BYTES_PER_MB: usize = 1048576;

/// The memory, in whole mebibytes rounded down, that a chunk of `height_count` heights
/// takes while it is processed.
pub fn calculate_chunk_size_mb(height_count: usize) -> (mb: usize)
    requires
        height_count * BYTES_PER_HEIGHT <= usize::MAX,
    ensures
        mb == height_count * BYTES_PER_HEIGHT / (BYTES_PER_MB as int),
{
    (height_count * BYTES_PER_HEIGHT) / BYTES_PER_MB
}

/// The product of `s`.
pub open spec fn product(s: Seq<usize>) -> int
    decreases s.len(),
{
    if s.len() == 0 {
        1
    } else {
        product(s.drop_last()) * s.last()
    }
}

/// `s`, each taken as a `usize`.
pub open spec fn as_usizes(s: Seq<u64>) -> Seq<usize> {
    s.map_values(|x: u64| x as usize)
}

/// Every running product of `s`, from the left, fits in a `usize`.
pub open spec fn products_fit(s: Seq<usize>) -> bool {
    forall|k: int| 0 <= k <= s.len() ==> #[trigger] product(s.take(k)) <= usize::MAX
}

/// The side of a chunk, in heights, when its shape is unknown.
pub const FALLBACK_CHUNK_SIDE: usize = 256;

/// The number of heights in a chunk and its size along each axis: from its shape where
/// that is known, else a square of 256 by 256.
pub fn get_chunk_dimensions(chunk_shape: Option<Vec<u64>>) -> (dims: (usize, Vec<usize>))
    requires
        chunk_shape matches Some(s) ==> products_fit(as_usizes(s@)),
    ensures
        match chunk_shape {
            Some(s) => dims.1@ == as_usizes(s@) && dims.0 == product(as_usizes(s@)),
            None => dims.0 == FALLBACK_CHUNK_SIDE * FALLBACK_CHUNK_SIDE && dims.1@ == seq![
                FALLBACK_CHUNK_SIDE,
                FALLBACK_CHUNK_SIDE,
            ],
        },
{
    match chunk_shape {
        Some(shape) => {
            let mut sizes: Vec<usize> = Vec::new();
            let mut total: usize = 1;
            let mut k: usize = 0;
            proof {
                assert(as_usizes(shape@).take(0) =~= Seq::<usize>::empty());
            }
            while k < shape.len()
                invariant
                    k <= shape.len(),
                    products_fit(as_usizes(shape@)),
                    sizes@ == as_usizes(shape@).take(k as int),
                    total == product(sizes@),
                decreases shape.len() - k,
            {
                let ghost us = as_usizes(shape@);
                proof {
                    assert(us.take(k + 1).drop_last() =~= us.take(k as int));
                    assert(product(us.take(k + 1)) <= usize::MAX);
                }
                let d = shape[k] as usize;
                total = total * d;
                sizes.push(d);
                k = k + 1;
                proof {
                    assert(sizes@ =~= us.take(k as int));
                }
            }
            proof {
                assert(as_usizes(shape@).take(shape.len() as int) =~= as_usizes(shape@));
            }
            (total, sizes)
        },
        None => {
            let sizes = vec![FALLBACK_CHUNK_SIDE, FALLBACK_CHUNK_SIDE];
            proof {
                assert(sizes@ =~= seq![FALLBACK_CHUNK_SIDE, FALLBACK_CHUNK_SIDE]);
            }
            (FALLBACK_CHUNK_SIDE * FALLBACK_CHUNK_SIDE, sizes)
        },
    }
}

} // verus!

verus! {

/// The sum of `s`.
pub open spec fn mem_total(s: Seq<int>) -> int
    decreases s.len(),
{
    if s.len() == 0 {
        0
    } else {
        mem_total(s.drop_last()) + s.last()
    }
}

/// Whether no entry of `s` is negative.
pub open spec fn all_nonneg(s: Seq<int>) -> bool {
    forall|k: int| 0 <= k < s.len() ==> #[trigger] s[k] >= 0
}

/// The memory, in mebibytes, of chunks of `sizes` heights each.
pub open spec fn mbs_of(sizes: Seq<usize>) -> Seq<int> {
    sizes.map_values(|n: usize| n * BYTES_PER_HEIGHT / (BYTES_PER_MB as int))
}

/// The batches closed so far, the batch being filled and its memory, after the greedy
/// grouping has gone through `items` (whose memories are `mems`, by position) with a
/// budget of `max`: a chunk opens a new batch when adding it to a non-empty batch would
/// go over the budget.
pub open spec fn pack_state(items: Seq<Seq<u64>>, mems: Seq<int>, max: int) -> (
    Seq<Seq<Seq<u64>>>,
    Seq<Seq<u64>>,
    int,
)
    decreases items.len(),
{
    if items.len() == 0 {
        (Seq::empty(), Seq::empty(), 0)
    } else {
        let n = items.len() - 1;
        let (done, cur, m) = pack_state(items.take(n), mems, max);
        if m + mems[n] > max && cur.len() > 0 {
            (done.push(cur), seq![items[n]], mems[n])
        } else {
            (done, cur.push(items[n]), m + mems[n])
        }
    }
}

/// The batches that the greedy grouping of `items` makes: those it closed, then the last
/// one if it holds a chunk.
pub open spec fn packed_batches(items: Seq<Seq<u64>>, mems: Seq<int>, max: int) -> Seq<
    Seq<Seq<u64>>,
> {
    let (done, cur, m) = pack_state(items, mems, max);
    if cur.len() > 0 {
        done.push(cur)
    } else {
        done
    }
}

/// The batches of `b`, each as a sequence of coordinate sequences.
pub open spec fn batches_view(b: Seq<Vec<Vec<u64>>>) -> Seq<Seq<Seq<u64>>> {
    b.map_values(|v: Vec<Vec<u64>>| coords_view(v@))
}

/// Where batch `j` of `batches` starts in the list of all chunks.
pub open spec fn batch_start(batches: Seq<Seq<Seq<u64>>>, j: int) -> int {
    batches.take(j).flatten().len() as int
}

/// The memory of the `len` chunks from position `start`.
pub open spec fn span_mem(mems: Seq<int>, start: int, len: int) -> int {
    mem_total(mems.subrange(start, start + len))
}

/// A closed batch of `len` chunks from `start`: not empty, within the budget unless it is
/// a single chunk, and over the budget with the chunk that follows it.
pub open spec fn closed_batch_ok(mems: Seq<int>, max: int, start: int, len: int) -> bool {
    &&& len > 0
    &&& span_mem(mems, start, len) <= max || len == 1
    &&& span_mem(mems, start, len) + mems[start + len] > max
}

spec fn pack_inv(
    items: Seq<Seq<u64>>,
    mems: Seq<int>,
    max: int,
    i: int,
    done: Seq<Seq<Seq<u64>>>,
    cur: Seq<Seq<u64>>,
    m: int,
) -> bool {
    &&& done.flatten() + cur == items.take(i)
    &&& cur.len() <= i
    &&& i > 0 ==> cur.len() > 0
    &&& m == span_mem(mems, i - cur.len(), cur.len() as int)
    &&& m <= max || cur.len() <= 1
    &&& forall|j: int|
        0 <= j < done.len() ==> closed_batch_ok(
            mems,
            max,
            batch_start(done, j),
            (#[trigger] done[j]).len() as int,
        )
}

proof fn lemma_take_flatten_push(done: Seq<Seq<Seq<u64>>>, cur: Seq<Seq<u64>>, j: int)
    requires
        0 <= j <= done.len(),
    ensures
        done.push(cur).take(j) == done.take(j),
{
    assert(done.push(cur).take(j) =~= done.take(j));
}

proof fn lemma_pack_inv(items: Seq<Seq<u64>>, mems: Seq<int>, max: int, i: int)
    requires
        0 <= i <= items.len(),
        items.len() <= mems.len(),
    ensures
        ({
            let (done, cur, m) = pack_state(items.take(i), mems, max);
            pack_inv(items, mems, max, i, done, cur, m)
        }),
    decreases i,
{
    if i == 0 {
        assert(items.take(0) =~= Seq::<Seq<u64>>::empty());
        let (done, cur, m) = pack_state(items.take(i), mems, max);
        assert(done.flatten() =~= Seq::<Seq<u64>>::empty());
        assert(done.flatten() + cur =~= items.take(0));
        assert(mems.subrange(0, 0) =~= Seq::<int>::empty());
    } else {
        let n = i - 1;
        lemma_pack_inv(items, mems, max, n);
        assert(items.take(i).take(n) =~= items.take(n));
        assert(items.take(i)[n] == items[n]);
        let (done, cur, m) = pack_state(items.take(n), mems, max);
        let (done2, cur2, m2) = pack_state(items.take(i), mems, max);
        assert(items.take(i) =~= items.take(n).push(items[n]));
        if m + mems[n] > max && cur.len() > 0 {
            assert(done2 == done.push(cur));
            done.lemma_flatten_push(cur);
            assert(done2.flatten() + cur2 =~= items.take(i));
            assert(mems.subrange(n, n + 1).drop_last() =~= Seq::<int>::empty());
            assert(mem_total(mems.subrange(n, n + 1).drop_last()) == 0);
            assert(mems.subrange(n, n + 1).last() == mems[n]);
            assert(m2 == span_mem(mems, i - cur2.len(), cur2.len() as int));
            assert forall|j: int| 0 <= j < done2.len() implies closed_batch_ok(
                mems,
                max,
                batch_start(done2, j),
                (#[trigger] done2[j]).len() as int,
            ) by {
                lemma_take_flatten_push(done, cur, j);
                if j == done.len() {
                    assert(done.take(j) =~= done);
                    assert((done.flatten() + cur).len() == n);
                }
            }
        } else {
            assert(cur2 == cur.push(items[n]));
            assert(done2.flatten() + cur2 =~= items.take(i));
            let a = n - cur.len();
            assert(mems.subrange(a, n + 1).drop_last() =~= mems.subrange(a, n));
            assert(mems.subrange(a, n + 1).last() == mems[n]);
        }
    }
}

proof fn lemma_total_nonneg(s: Seq<int>)
    requires
        all_nonneg(s),
    ensures
        mem_total(s) >= 0,
    decreases s.len(),
{
    if s.len() > 0 {
        lemma_total_nonneg(s.drop_last());
    }
}

proof fn lemma_total_split(s: Seq<int>, a: int, b: int)
    requires
        0 <= a <= b <= s.len(),
    ensures
        mem_total(s.subrange(0, b)) == mem_total(s.subrange(0, a)) + mem_total(s.subrange(a, b)),
    decreases b - a,
{
    if a == b {
        assert(s.subrange(a, b) =~= Seq::<int>::empty());
    } else {
        lemma_total_split(s, a, b - 1);
        assert(s.subrange(0, b).drop_last() =~= s.subrange(0, b - 1));
        assert(s.subrange(a, b).drop_last() =~= s.subrange(a, b - 1));
    }
}

proof fn lemma_span_le_total(s: Seq<int>, a: int, b: int)
    requires
        0 <= a <= b <= s.len(),
        all_nonneg(s),
    ensures
        mem_total(s.subrange(a, b)) <= mem_total(s),
{
    lemma_total_split(s, a, b);
    lemma_total_split(s, b, s.len() as int);
    lemma_total_nonneg(s.subrange(0, a));
    lemma_total_nonneg(s.subrange(b, s.len() as int));
    assert(s.subrange(0, s.len() as int) =~= s);
}

/// The greedy grouping of `items` keeps every chunk once and in order, leaves no batch
/// empty, keeps every batch of more than one chunk within the budget, and closes a batch
/// only when the chunk after it would have taken it over the budget.
pub proof fn lemma_packed_batches_laws(items: Seq<Seq<u64>>, mems: Seq<int>, max: int)
    requires
        items.len() == mems.len(),
    ensures
        ({
            let b = packed_batches(items, mems, max);
            &&& b.flatten() == items
            &&& forall|j: int| 0 <= j < b.len() ==> (#[trigger] b[j]).len() > 0
            &&& forall|j: int|
                0 <= j < b.len() ==> span_mem(mems, batch_start(b, j), (#[trigger] b[j]).len() as int)
                    <= max || b[j].len() == 1
            &&& forall|j: int|
                0 <= j < b.len() - 1 ==> span_mem(
                    mems,
                    batch_start(b, j),
                    (#[trigger] b[j]).len() as int,
                ) + mems[batch_start(b, j) + b[j].len()] > max
        }),
{
    let n = items.len() as int;
    lemma_pack_inv(items, mems, max, n);
    assert(items.take(n) =~= items);
    let (done, cur, m) = pack_state(items, mems, max);
    let b = packed_batches(items, mems, max);
    if cur.len() > 0 {
        done.lemma_flatten_push(cur);
        assert forall|j: int| 0 <= j < b.len() implies {
            &&& (#[trigger] b[j]).len() > 0
            &&& span_mem(mems, batch_start(b, j), b[j].len() as int) <= max || b[j].len() == 1
            &&& j < b.len() - 1 ==> span_mem(mems, batch_start(b, j), b[j].len() as int)
                + mems[batch_start(b, j) + b[j].len()] > max
        } by {
            lemma_take_flatten_push(done, cur, j);
            if j == done.len() {
                assert(done.take(j) =~= done);
                assert((done.flatten() + cur).len() == n);
            } else {
                assert(closed_batch_ok(mems, max, batch_start(done, j), done[j].len() as int));
            }
        }
    } else {
        assert(done.flatten() + cur =~= done.flatten());
        assert forall|j: int| 0 <= j < b.len() implies (#[trigger] b[j]).len() > 0 && (span_mem(
            mems,
            batch_start(b, j),
            b[j].len() as int,
        ) <= max || b[j].len() == 1) by {
            assert(closed_batch_ok(mems, max, batch_start(done, j), done[j].len() as int));
        }
        assert forall|j: int| 0 <= j < b.len() - 1 implies span_mem(
            mems,
            batch_start(b, j),
            (#[trigger] b[j]).len() as int,
        ) + mems[batch_start(b, j) + b[j].len()] > max by {
            assert(closed_batch_ok(mems, max, batch_start(done, j), done[j].len() as int));
        }
    }
}

} // verus!

verus! {

/// Groups `all_chunks` into batches in order, `chunk_sizes[k]` being the number of heights
/// of chunk `k`: each chunk joins the current batch unless that batch already holds a
/// chunk and the chunk's memory would take it over `max_memory_mb`, in which case it opens
/// a new batch.
pub fn group_chunks_into_batches(
    all_chunks: Vec<Vec<u64>>,
    chunk_sizes: &Vec<usize>,
    max_memory_mb: usize,
) -> (batches: Vec<Vec<Vec<u64>>>)
    requires
        chunk_sizes.len() == all_chunks.len(),
        forall|k: int|
            0 <= k < chunk_sizes.len() ==> #[trigger] chunk_sizes[k] * BYTES_PER_HEIGHT
                <= usize::MAX,
        mem_total(mbs_of(chunk_sizes@)) <= usize::MAX,
    ensures
        batches_view(batches@) == packed_batches(
            coords_view(all_chunks@),
            mbs_of(chunk_sizes@),
            max_memory_mb as int,
        ),
{
    let ghost items = coords_view(all_chunks@);
    let ghost mems = mbs_of(chunk_sizes@);
    let ghost max = max_memory_mb as int;
    let mut batches: Vec<Vec<Vec<u64>>> = Vec::new();
    let mut current_batch: Vec<Vec<u64>> = Vec::new();
    let mut current_memory: usize = 0;
    let mut i: usize = 0;
    proof {
        assert(items.take(0) =~= Seq::<Seq<u64>>::empty());
        assert(batches_view(batches@) =~= Seq::<Seq<Seq<u64>>>::empty());
        assert(coords_view(current_batch@) =~= Seq::<Seq<u64>>::empty());
        assert(all_nonneg(mems));
    }
    while i < all_chunks.len()
        invariant
            i <= all_chunks.len(),
            chunk_sizes.len() == all_chunks.len(),
            items == coords_view(all_chunks@),
            mems == mbs_of(chunk_sizes@),
            max == max_memory_mb as int,
            all_nonneg(mems),
            forall|k: int|
                0 <= k < chunk_sizes.len() ==> #[trigger] chunk_sizes[k] * BYTES_PER_HEIGHT
                    <= usize::MAX,
            mem_total(mems) <= usize::MAX,
            ({
                let (d, c, m) = pack_state(items.take(i as int), mems, max);
                &&& batches_view(batches@) == d
                &&& coords_view(current_batch@) == c
                &&& current_memory == m
            }),
        decreases all_chunks.len() - i,
    {
        let chunk_memory = calculate_chunk_size_mb(chunk_sizes[i]);
        let ghost (d, c, m) = pack_state(items.take(i as int), mems, max);
        proof {
            lemma_pack_inv(items, mems, max, i as int);
            let a = i - c.len();
            assert(mems.subrange(a, i + 1).drop_last() =~= mems.subrange(a, i as int));
            assert(mems.subrange(a, i + 1).last() == mems[i as int]);
            lemma_span_le_total(mems, a, i + 1);
        }
        if current_memory + chunk_memory > max_memory_mb && current_batch.len() > 0 {
            batches.push(current_batch);
            current_batch = Vec::new();
            current_memory = 0;
            proof {
                assert(batches_view(batches@) =~= d.push(c));
            }
        }
        let coords = slice_to_vec(all_chunks[i].as_slice());
        current_batch.push(coords);
        current_memory = current_memory + chunk_memory;
        proof {
            assert(items.take(i + 1).take(i as int) =~= items.take(i as int));
            assert(items.take(i + 1)[i as int] == coords@);
            let (d2, c2, m2) = pack_state(items.take(i + 1), mems, max);
            assert(batches_view(batches@) == d2);
            assert(coords_view(current_batch@) =~= c2);
        }
        i = i + 1;
    }
    proof {
        assert(items.take(all_chunks.len() as int) =~= items);
    }
    if current_batch.len() > 0 {
        let ghost before = batches_view(batches@);
        batches.push(current_batch);
        proof {
            assert(batches_view(batches@) =~= before.push(pack_state(items, mems, max).1));
        }
    }
    batches
}

} // verus!
