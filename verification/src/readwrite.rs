use vstd::prelude::*;
use crate::primes::{
    is_prime, lemma_divides_trans, lemma_divisor_le, lemma_prime_factors_prime_ascending,
    lemma_prime_factors_product, lemma_prime_factors_step, lemma_quotient_divides, prime_factors,
    seq_product, product_of_last, lemma_suffix_product_step, lemma_suffix_product_pos,
    lemma_suffix_product_le, lemma_prime_factors_divide, lemma_product_of_last_divides,
};

verus! {

/// A writer that discards every chunk it is given.
pub struct EmptyWriter {}

/// One read of an empty reader of `limit` chunks that has produced `produced` of them:
/// the new count, and the number of the chunk produced, if any.
pub open spec fn empty_read_step(limit: nat, produced: nat) -> (nat, Option<nat>) {
    if produced >= limit {
        (produced, None)
    } else {
        (produced + 1, Some(produced + 1))
    }
}

/// `calls` reads in a row, from a count of `produced`: the final count, and the numbers
/// the reads gave, in order.
pub open spec fn empty_reads(limit: nat, produced: nat, calls: nat) -> (nat, Seq<Option<nat>>)
    decreases calls,
{
    if calls == 0 {
        (produced, Seq::empty())
    } else {
        let (count, given) = empty_reads(limit, produced, (calls - 1) as nat);
        let (next, out) = empty_read_step(limit, count);
        (next, given.push(out))
    }
}

/// A chunk number as a plain value.
pub open spec fn index_view(r: Option<usize>) -> Option<nat> {
    match r {
        Some(x) => Some(x as nat),
        None => None,
    }
}

/// A fresh empty reader of `limit` chunks gives the numbers 1 to `limit`, in order, and
/// after them nothing, however often it is read.
pub proof fn lemma_empty_reader_counts(limit: nat, calls: nat)
    ensures
        empty_reads(limit, 0, calls).1 == Seq::new(
            calls,
            |i: int| if i < limit { Some((i + 1) as nat) } else { None },
        ),
        empty_reads(limit, 0, calls).0 == if calls <= limit { calls } else { limit },
    decreases calls,
{
    if calls > 0 {
        lemma_empty_reader_counts(limit, (calls - 1) as nat);
        assert(empty_reads(limit, 0, calls).1 =~= Seq::new(
            calls,
            |i: int| if i < limit { Some((i + 1) as nat) } else { None },
        ));
    }
}

/// A reader that produces `N` empty chunks, numbered 1 to `N`, and then no more.
pub struct EmptyReader<const N: usize> {
    n: usize,
}

impl<const N: usize> EmptyReader<N> {
    /// The reader never produced more than `N` chunks.
    #[verifier::type_invariant]
    closed spec fn produced_at_most_limit(self) -> bool {
        self.n <= N
    }

    /// How many chunks the reader has produced.
    pub closed spec fn produced(self) -> nat {
        self.n as nat
    }

    /// A reader that has produced no chunk yet.
    pub fn new() -> (r: Self)
        ensures
            r.produced() == 0,
    {
        EmptyReader { n: 0 }
    }

    /// Produces the number of the next chunk: `None` once `N` chunks were produced,
    /// else the count of chunks produced so far, this one included.
    pub fn read_chunk_index(&mut self) -> (r: Option<usize>)
        ensures
            final(self).produced() <= N,
            (final(self).produced(), index_view(r)) == empty_read_step(N as nat, old(self).produced()),
    {
        proof {
            use_type_invariant(&*self);
        }
        if self.n == N {
            None
        } else {
            self.n = self.n + 1;
            Some(self.n)
        }
    }
}

/// The prime factors of `n`, each as often as it divides `n`, in ascending order; empty
/// when `n` is below 2.
pub fn factors(n: i64) -> (out: Vec<i64>)
    requires
        n < i64::MAX,
    ensures
        out@.map_values(|x: i64| x as int) == prime_factors(n as int),
        forall|i: int| 0 <= i < out@.len() ==> is_prime(#[trigger] out@[i] as int),
        forall|i: int, j: int| 0 <= i <= j < out@.len() ==> out@[i] <= out@[j],
        n >= 1 ==> seq_product(out@.map_values(|x: i64| x as int)) == n,
{
    proof {
        lemma_prime_factors_prime_ascending(n as int);
        if n >= 1 {
            lemma_prime_factors_product(n as int);
        }
    }
    let mut out: Vec<i64> = Vec::new();
    if n < 2 {
        assert(out@.map_values(|x: i64| x as int) =~= prime_factors(n as int));
        return out;
    }
    let ghost n0 = n as int;
    let mut m: i64 = n;
    let mut i: i64 = 2;
    while i <= n && m != 1
        invariant
            2 <= n0 < i64::MAX,
            n == n0,
            2 <= i <= n0 + 1,
            1 <= m <= n0,
            out@.map_values(|x: i64| x as int) + prime_factors(m as int) == prime_factors(n0),
            forall|k: int| 2 <= k < i ==> #[trigger] ((m as int) % k) != 0,
        decreases n0 + 1 - i, m,
    {
        while m % i == 0
            invariant
                2 <= n0 < i64::MAX,
                n == n0,
                2 <= i <= n0,
                1 <= m <= n0,
                out@.map_values(|x: i64| x as int) + prime_factors(m as int) == prime_factors(n0),
                forall|k: int| 2 <= k < i ==> #[trigger] ((m as int) % k) != 0,
            decreases m,
        {
            proof {
                lemma_divisor_le(m as int, i as int);
                lemma_prime_factors_step(m as int, i as int);
                lemma_quotient_divides(m as int, i as int);
                assert forall|k: int| 2 <= k < i implies #[trigger] (((m / i) as int) % k) != 0 by {
                    if ((m / i) as int) % k == 0 {
                        lemma_divides_trans(m as int, (m / i) as int, k);
                    }
                }
                vstd::arithmetic::div_mod::lemma_div_is_strictly_smaller(m as int, i as int);
            }
            let ghost before = out@;
            out.push(i);
            assert(out@.map_values(|x: i64| x as int) =~= before.map_values(|x: i64| x as int).push(
                i as int,
            ));
            m = m / i;
        }
        i = i + 1;
    }
    proof {
        if m != 1 {
            // no number from 2 to n divides m, yet m divides itself
            vstd::arithmetic::div_mod::lemma_mod_self_0(m as int);
            assert((m as int) % (m as int) != 0);
        }
    }
    assert(prime_factors(1) =~= Seq::<int>::empty());
    assert(out@.map_values(|x: i64| x as int) + prime_factors(1) =~= out@.map_values(
        |x: i64| x as int,
    ));
    proof {
        assert forall|i: int| 0 <= i < out@.len() implies is_prime(#[trigger] out@[i] as int) by {
            assert(out@.map_values(|x: i64| x as int)[i] == out@[i] as int);
        }
        assert forall|i: int, j: int| 0 <= i <= j < out@.len() implies out@[i] <= out@[j] by {
            assert(out@.map_values(|x: i64| x as int)[i] == out@[i] as int);
            assert(out@.map_values(|x: i64| x as int)[j] == out@[j] as int);
        }
    }
    out
}

/// The factorisation of the row count of a dataset with the given `shape`, as `factors`
/// computes it (the row count taken as an `i64`).
pub open spec fn row_factors(shape: Seq<usize>) -> Seq<int> {
    prime_factors((shape[0] as i64) as int)
}

/// Chunk sizes for a dataset of the given `shape`: the product of the `n` largest prime
/// factors of its row count, and the sizes of its second and third dimensions. A dataset
/// of more than three dimensions gives zeros.
pub fn opt_chunk_size(shape: &Vec<usize>, n: usize) -> (r: (usize, usize, usize))
    requires
        shape@.len() >= 1,
        (shape@[0] as i64) < i64::MAX,
        n <= row_factors(shape@).len(),
    ensures
        r.0 == (if shape@.len() <= 3 {
            product_of_last(row_factors(shape@), n as int)
        } else {
            0
        }),
        r.1 == (if 2 <= shape@.len() <= 3 {
            shape@[1] as int
        } else {
            0
        }),
        r.2 == (if shape@.len() == 3 {
            shape@[2] as int
        } else {
            0
        }),
        shape@.len() <= 3 && (shape@[0] as i64) >= 1 ==> r.0 >= 1 && (shape@[0] as i64) % (r.0 as i64)
            == 0,
        shape@.len() <= 3 ==> r.0 == seq_product(
            row_factors(shape@).subrange(row_factors(shape@).len() - n, row_factors(shape@).len() as int),
        ),
        forall|a: int, b: int|
            0 <= a < row_factors(shape@).len() - n <= b < row_factors(shape@).len() ==> row_factors(
                shape@,
            )[a] <= row_factors(shape@)[b],
{
    proof {
        lemma_prime_factors_prime_ascending((shape@[0] as i64) as int);
    }
    let dim: usize = shape.len();
    let row_size: usize = shape[0];
    let primes = factors(row_size as i64);
    let ghost pf = row_factors(shape@);
    let count: usize = primes.len();
    proof {
        assert(primes@.map_values(|x: i64| x as int) == pf);
        lemma_prime_factors_divide((row_size as i64) as int);
        if (row_size as i64) >= 1 {
            lemma_prime_factors_product((row_size as i64) as int);
        } else {
            assert(pf =~= Seq::<int>::empty());
        }
        assert forall|i: int| 0 <= i < pf.len() implies #[trigger] pf[i] >= 1 by {}
    }
    let mut chunk_size: i64 = 1;
    let mut i: usize = 0;
    assert(pf.subrange(pf.len() - 0, pf.len() as int) =~= Seq::<int>::empty());
    while i < n
        invariant
            i <= n <= count,
            count == pf.len(),
            primes@.map_values(|x: i64| x as int) == pf,
            forall|k: int| 0 <= k < pf.len() ==> #[trigger] pf[k] >= 1,
            seq_product(pf) <= i64::MAX,
            chunk_size as int == product_of_last(pf, i as int),
        decreases n - i,
    {
        let ghost j = pf.len() - (i + 1);
        proof {
            lemma_suffix_product_step(pf, j);
            lemma_suffix_product_le(pf, j);
            assert(primes@.map_values(|x: i64| x as int)[j] == primes@[j] as int);
            assert(pf.subrange(j + 1, pf.len() as int) == pf.subrange(
                pf.len() - i,
                pf.len() as int,
            ));
            let a = pf[j];
            let b = product_of_last(pf, i as int);
            assert(b * a == a * b) by (nonlinear_arith);
            lemma_suffix_product_pos(pf, j + 1);
            assert(a * b == seq_product(pf.subrange(j, pf.len() as int)));
            assert(a * b >= 1) by (nonlinear_arith)
                requires
                    a >= 1,
                    b >= 1,
            ;
            assert(1 <= b * a <= i64::MAX);
        }
        chunk_size = chunk_size * primes[count - 1 - i];
        i = i + 1;
    }
    proof {
        lemma_suffix_product_le(pf, pf.len() - n);
        lemma_suffix_product_pos(pf, pf.len() - n);
        if (row_size as i64) >= 1 {
            lemma_product_of_last_divides((row_size as i64) as int, n as int);
        }
    }
    if dim == 1 {
        (chunk_size as usize, 0, 0)
    } else if dim == 2 {
        let sensor_size: usize = shape[1];
        (chunk_size as usize, sensor_size, 0)
    } else if dim == 3 {
        let sensor_size: usize = shape[1];
        let third_dim: usize = shape[2];
        (chunk_size as usize, sensor_size, third_dim)
    } else {
        (0, 0, 0)
    }
}

/// The name and extents of a dataset in a file being read.
pub struct DatasetInfo {
    pub name: String,
    pub shape: Vec<usize>,
}

/// A block of one dataset to read: for each of its dimensions, the range of indices
/// (start inclusive, end exclusive).
pub struct SliceRead {
    pub dataset: usize,
    pub ranges: Vec<(usize, usize)>,
}

/// What reading the next chunk comes to: the chunk's queue position, where the reader
/// goes on afterwards, and the blocks to read into the chunk, in order.
pub struct ChunkPlan {
    pub queue: usize,
    pub next_pos: usize,
    pub reads: Vec<SliceRead>,
}

/// The dataset that the reader leaves out.
pub open spec fn is_skipped_name(name: Seq<char>) -> bool {
    name == "/circdistance"@
}

/// How many prime factors `opt_chunk_size` takes from each dataset's row count.
pub const CHUNK_FACTORS: usize = 6;

/// `opt_chunk_size` can size chunks for a dataset of this shape.
pub open spec fn sizable(shape: Seq<usize>) -> bool {
    &&& shape.len() >= 1
    &&& (shape[0] as i64) < i64::MAX
    &&& CHUNK_FACTORS <= row_factors(shape).len()
}

/// The ranges of a block of `rows` rows from `start` of a dataset of the given shape,
/// over the whole of its second and third dimensions.
pub open spec fn block_ranges(shape: Seq<usize>, start: int, rows: int) -> Seq<(usize, usize)> {
    let first = (start as usize, (start + rows) as usize);
    if shape.len() == 1 {
        seq![first]
    } else if shape.len() == 2 {
        seq![first, (0usize, shape[1])]
    } else {
        seq![first, (0usize, shape[1]), (0usize, shape[2])]
    }
}

/// The reader examines dataset `i` and the ones after it, up to the first one that ends
/// the chunk (a dataset that is too short, or of more than three dimensions), and each
/// of them has a shape that chunks can be sized for.
pub open spec fn examined_sizable(ds: Seq<DatasetInfo>, pos: int, rows: int, i: int) -> bool
    decreases ds.len() - i,
{
    if i < 0 || i >= ds.len() {
        true
    } else {
        let shape = ds[i].shape@;
        &&& sizable(shape)
        &&& if is_skipped_name(ds[i].name@) {
            examined_sizable(ds, pos, rows, i + 1)
        } else if shape[0] < pos {
            true
        } else if shape[0] < pos + rows {
            examined_sizable(ds, pos, rows, i + 1)
        } else if shape.len() <= 3 {
            examined_sizable(ds, pos, rows, i + 1)
        } else {
            true
        }
    }
}

/// The blocks to read from dataset `i` on, as (dataset index, ranges); `None` when a
/// dataset ends before the position: the data is exhausted. Datasets named as skipped,
/// and datasets that end within the chunk, are passed over; a dataset of more than three
/// dimensions ends the chunk.
pub open spec fn planned_reads(ds: Seq<DatasetInfo>, pos: int, rows: int, i: int) -> Option<
    Seq<(usize, Seq<(usize, usize)>)>,
>
    decreases ds.len() - i,
{
    if i < 0 || i >= ds.len() {
        Some(Seq::empty())
    } else {
        let shape = ds[i].shape@;
        if is_skipped_name(ds[i].name@) {
            planned_reads(ds, pos, rows, i + 1)
        } else if shape[0] < pos {
            None
        } else if shape[0] < pos + rows {
            planned_reads(ds, pos, rows, i + 1)
        } else if shape.len() <= 3 {
            match planned_reads(ds, pos, rows, i + 1) {
                Some(rest) => Some(seq![(i as usize, block_ranges(shape, pos, rows))] + rest),
                None => None,
            }
        } else {
            Some(Seq::empty())
        }
    }
}

/// The view of a planned read: its dataset index and ranges.
pub open spec fn read_view(r: SliceRead) -> (usize, Seq<(usize, usize)>) {
    (r.dataset, r.ranges@)
}

/// `found` followed by the blocks of `rest`, or `None` when `rest` is `None`.
pub open spec fn prepend_reads(
    found: Seq<(usize, Seq<(usize, usize)>)>,
    rest: Option<Seq<(usize, Seq<(usize, usize)>)>>,
) -> Option<Seq<(usize, Seq<(usize, usize)>)>> {
    match rest {
        Some(r) => Some(found + r),
        None => None,
    }
}

/// Dataset `d` ends the reading of a chunk at row `pos`: it is not skipped, and it either
/// ends before `pos` (the data is exhausted) or has more than three dimensions.
pub open spec fn ends_chunk(d: DatasetInfo, pos: int, rows: int) -> bool {
    &&& !is_skipped_name(d.name@)
    &&& (d.shape@[0] < pos || (d.shape@[0] >= pos + rows && d.shape@.len() > 3))
}

/// Dataset `i` is examined when the datasets from `start` on are looked at in order: no
/// dataset from `start` up to it ends the chunk.
pub open spec fn examined_from(ds: Seq<DatasetInfo>, pos: int, rows: int, start: int, i: int) -> bool {
    &&& start <= i < ds.len()
    &&& forall|k: int| start <= k < i ==> !ends_chunk(#[trigger] ds[k], pos, rows)
}

/// A block of rows `pos..pos + rows` is to be read from dataset `d`: it is not skipped,
/// has at least `pos + rows` rows, and one to three dimensions.
pub open spec fn wants_block(d: DatasetInfo, pos: int, rows: int) -> bool {
    &&& !is_skipped_name(d.name@)
    &&& d.shape@[0] >= pos + rows
    &&& 1 <= d.shape@.len() <= 3
}

/// `r` selects rows `pos..pos + rows` of a dataset of the given shape, over the whole of
/// each of its other dimensions.
pub open spec fn is_block_of(shape: Seq<usize>, r: Seq<(usize, usize)>, pos: int, rows: int) -> bool {
    &&& r.len() == shape.len()
    &&& r.len() >= 1
    &&& r[0].0 == pos
    &&& r[0].1 == pos + rows
    &&& forall|d: int| 1 <= d < r.len() ==> #[trigger] r[d] == (0usize, shape[d])
}

/// Some examined dataset other than the skipped one ends before row `pos`: the data is
/// exhausted.
pub open spec fn is_exhausted_from(ds: Seq<DatasetInfo>, pos: int, rows: int, start: int) -> bool {
    exists|i: int|
        examined_from(ds, pos, rows, start, i) && !is_skipped_name(#[trigger] ds[i].name@)
            && ds[i].shape@[0] < pos
}

/// `reads` is the chunk of rows `pos..pos + rows`: one block read from each examined
/// dataset that has enough rows, each the right block, in the order of the datasets.
pub open spec fn is_chunk_plan_from(
    ds: Seq<DatasetInfo>,
    pos: int,
    rows: int,
    start: int,
    reads: Seq<(usize, Seq<(usize, usize)>)>,
) -> bool {
    &&& forall|j: int|
        0 <= j < reads.len() ==> {
            let i = (#[trigger] reads[j]).0 as int;
            &&& examined_from(ds, pos, rows, start, i)
            &&& wants_block(ds[i], pos, rows)
            &&& is_block_of(ds[i].shape@, reads[j].1, pos, rows)
        }
    &&& forall|j: int, k: int| 0 <= j < k < reads.len() ==> reads[j].0 < reads[k].0
    &&& forall|i: int|
        examined_from(ds, pos, rows, start, i) && wants_block(#[trigger] ds[i], pos, rows)
            ==> exists|j: int| 0 <= j < reads.len() && (#[trigger] reads[j]).0 == i
}

/// The blocks `block_ranges` gives select the block of rows they are for.
proof fn lemma_block_ranges_is_block(shape: Seq<usize>, pos: int, rows: int)
    requires
        1 <= shape.len() <= 3,
        0 <= pos,
        0 <= rows,
        pos + rows <= usize::MAX,
    ensures
        is_block_of(shape, block_ranges(shape, pos, rows), pos, rows),
{
    let r = block_ranges(shape, pos, rows);
    assert forall|d: int| 1 <= d < r.len() implies #[trigger] r[d] == (0usize, shape[d]) by {}
}

/// Planning from dataset `start` on: exhausted exactly when an examined dataset ends before
/// `pos`; otherwise the plan reads rows `pos..pos + rows` from exactly the examined
/// datasets that have enough rows, in order.
proof fn lemma_planned_reads_from(ds: Seq<DatasetInfo>, pos: int, rows: int, start: int)
    requires
        0 <= start,
        0 <= pos,
        0 <= rows,
        pos + rows <= usize::MAX,
        ds.len() <= usize::MAX,
        examined_sizable(ds, pos, rows, start),
    ensures
        planned_reads(ds, pos, rows, start) is None <==> is_exhausted_from(ds, pos, rows, start),
        planned_reads(ds, pos, rows, start) matches Some(reads) ==> is_chunk_plan_from(
            ds,
            pos,
            rows,
            start,
            reads,
        ),
    decreases ds.len() - start,
{
    if start >= ds.len() {
        assert(!is_exhausted_from(ds, pos, rows, start));
        return ;
    }
    let d = ds[start];
    let shape = d.shape@;
    let next = start + 1;
    // what is examined from `next` on is examined from `start` on
    assert forall|i: int| examined_from(ds, pos, rows, next, i) && !ends_chunk(d, pos, rows) implies examined_from(
        ds,
        pos,
        rows,
        start,
        i,
    ) by {
        assert forall|k: int| start <= k < i implies !ends_chunk(#[trigger] ds[k], pos, rows) by {
            if k > start {
                assert(next <= k < i);
            }
        }
    }
    // what is examined from `start` on, other than `start` itself, is examined from `next` on
    assert forall|i: int| examined_from(ds, pos, rows, start, i) && i != start implies examined_from(
        ds,
        pos,
        rows,
        next,
        i,
    ) by {}
    if is_skipped_name(d.name@) || (pos <= shape[0] < pos + rows) || (shape[0] >= pos + rows
        && shape.len() <= 3) {
        lemma_planned_reads_from(ds, pos, rows, next);
        assert(!ends_chunk(d, pos, rows));
        assert(examined_from(ds, pos, rows, start, start));
        if is_exhausted_from(ds, pos, rows, next) {
            let i = choose|i: int|
                examined_from(ds, pos, rows, next, i) && !is_skipped_name(#[trigger] ds[i].name@)
                    && ds[i].shape@[0] < pos;
            assert(examined_from(ds, pos, rows, start, i));
        }
        if is_exhausted_from(ds, pos, rows, start) {
            let i = choose|i: int|
                examined_from(ds, pos, rows, start, i) && !is_skipped_name(#[trigger] ds[i].name@)
                    && ds[i].shape@[0] < pos;
            assert(i != start);
            assert(examined_from(ds, pos, rows, next, i));
        }
        if is_skipped_name(d.name@) || shape[0] < pos + rows {
            // the dataset is passed over
            match planned_reads(ds, pos, rows, next) {
                Some(reads) => {
                    assert forall|i: int|
                        examined_from(ds, pos, rows, start, i) && wants_block(
                            #[trigger] ds[i],
                            pos,
                            rows,
                        ) implies exists|j: int| 0 <= j < reads.len() && (#[trigger] reads[j]).0 == i by {
                        assert(i != start);
                        assert(examined_from(ds, pos, rows, next, i));
                    }
                },
                None => {},
            }
        } else {
            // a block of this dataset is read, before those of the datasets after it
            lemma_block_ranges_is_block(shape, pos, rows);
            assert(wants_block(d, pos, rows));
            match planned_reads(ds, pos, rows, next) {
                Some(rest) => {
                    let head = (start as usize, block_ranges(shape, pos, rows));
                    let reads = seq![head] + rest;
                    assert(planned_reads(ds, pos, rows, start) == Some(reads));
                    assert forall|j: int| 0 <= j < reads.len() implies {
                        let i = (#[trigger] reads[j]).0 as int;
                        &&& examined_from(ds, pos, rows, start, i)
                        &&& wants_block(ds[i], pos, rows)
                        &&& is_block_of(ds[i].shape@, reads[j].1, pos, rows)
                    } by {
                        if j > 0 {
                            assert(reads[j] == rest[j - 1]);
                        }
                    }
                    assert forall|j: int, k: int|
                        0 <= j < k < reads.len() implies reads[j].0 < reads[k].0 by {
                        assert(reads[k] == rest[k - 1]);
                        assert(examined_from(ds, pos, rows, next, rest[k - 1].0 as int));
                        if j > 0 {
                            assert(reads[j] == rest[j - 1]);
                        }
                    }
                    assert forall|i: int|
                        examined_from(ds, pos, rows, start, i) && wants_block(
                            #[trigger] ds[i],
                            pos,
                            rows,
                        ) implies exists|j: int| 0 <= j < reads.len() && (#[trigger] reads[j]).0 == i by {
                        if i == start {
                            assert(reads[0].0 == i);
                        } else {
                            assert(examined_from(ds, pos, rows, next, i));
                            let j = choose|j: int| 0 <= j < rest.len() && (#[trigger] rest[j]).0 == i;
                            assert(reads[j + 1] == rest[j]);
                        }
                    }
                },
                None => {},
            }
        }
    } else if shape[0] < pos {
        // the data is exhausted
        assert(examined_from(ds, pos, rows, start, start));
    } else {
        // a dataset of more than three dimensions ends the chunk
        assert(ends_chunk(d, pos, rows));
        assert forall|i: int| examined_from(ds, pos, rows, start, i) implies i == start by {
            if i > start {
                assert(!ends_chunk(ds[start], pos, rows));
            }
        }
    }
}

/// Planning a chunk: the data is exhausted exactly when a dataset the reader examines
/// (one not skipped, before any dataset that ends the chunk) ends before `pos`; otherwise
/// the chunk reads rows `pos..pos + rows` of exactly the examined datasets that are not
/// skipped, have at least `pos + rows` rows and one to three dimensions, over the whole of
/// their other dimensions, in the order of the datasets.
pub proof fn lemma_plan_reads_every_long_dataset(ds: Seq<DatasetInfo>, pos: int, rows: int)
    requires
        0 <= pos,
        0 <= rows,
        pos + rows <= usize::MAX,
        ds.len() <= usize::MAX,
        examined_sizable(ds, pos, rows, 0),
    ensures
        planned_reads(ds, pos, rows, 0) is None <==> is_exhausted_from(ds, pos, rows, 0),
        planned_reads(ds, pos, rows, 0) matches Some(reads) ==> is_chunk_plan_from(
            ds,
            pos,
            rows,
            0,
            reads,
        ),
{
    lemma_planned_reads_from(ds, pos, rows, 0);
}

/// Plans the reading of the next chunk of `rows` rows from row `pos` of the datasets:
/// `None` when some dataset (not skipped) ends before `pos`, else the chunk's queue
/// position `pos`, the next position `pos + rows`, and the blocks to read, in the order
/// of the datasets.
pub fn plan_chunk(pos: usize, rows: usize, datasets: &Vec<DatasetInfo>) -> (r: Option<ChunkPlan>)
    requires
        pos + rows <= usize::MAX,
        examined_sizable(datasets@, pos as int, rows as int, 0),
    ensures
        planned_reads(datasets@, pos as int, rows as int, 0) is None ==> r is None,
        planned_reads(datasets@, pos as int, rows as int, 0) matches Some(expected) ==> {
            &&& r matches Some(plan)
            &&& plan.queue == pos
            &&& plan.next_pos == pos + rows
            &&& plan.reads@.map_values(|x: SliceRead| read_view(x)) == expected
        },
        r is None <==> is_exhausted_from(datasets@, pos as int, rows as int, 0),
        r matches Some(plan) ==> is_chunk_plan_from(
            datasets@,
            pos as int,
            rows as int,
            0,
            plan.reads@.map_values(|x: SliceRead| read_view(x)),
        ),
{
    let ghost ds = datasets@;
    let ghost p = pos as int;
    let ghost k = rows as int;
    let n: usize = datasets.len();
    proof {
        lemma_plan_reads_every_long_dataset(datasets@, pos as int, rows as int);
    }
    let mut reads: Vec<SliceRead> = Vec::new();
    let mut i: usize = 0;
    while i < n
        invariant_except_break
            n == ds.len(),
            ds == datasets@,
            p == pos,
            k == rows,
            pos + rows <= usize::MAX,
            i <= n,
            examined_sizable(ds, p, k, i as int),
            planned_reads(ds, p, k, 0) is None <==> is_exhausted_from(ds, p, k, 0),
            planned_reads(ds, p, k, 0) == prepend_reads(
                reads@.map_values(|x: SliceRead| read_view(x)),
                planned_reads(ds, p, k, i as int),
            ),
        ensures
            planned_reads(ds, p, k, 0) == prepend_reads(
                reads@.map_values(|x: SliceRead| read_view(x)),
                Some(Seq::empty()),
            ),
        decreases n - i,
    {
        let d = &datasets[i];
        let (_chunk_size, sensor_size, third_dim) = opt_chunk_size(&d.shape, CHUNK_FACTORS);
        if is_skipped(&d.name) {
            i = i + 1;
            continue ;
        }
        let row_count: usize = d.shape[0];
        if row_count < pos {
            return None;
        }
        if row_count < pos + rows {
            i = i + 1;
            continue ;
        }
        let dim: usize = d.shape.len();
        let ranges: Vec<(usize, usize)>;
        if dim == 1 {
            ranges = vec![(pos, pos + rows)];
        } else if dim == 2 {
            ranges = vec![(pos, pos + rows), (0, sensor_size)];
        } else if dim == 3 {
            ranges = vec![(pos, pos + rows), (0, sensor_size), (0, third_dim)];
        } else {
            assert(reads@.map_values(|x: SliceRead| read_view(x)) + Seq::empty() =~= reads@.map_values(
                |x: SliceRead| read_view(x),
            ));
            break ;
        }
        assert(ranges@ =~= block_ranges(d.shape@, p, k));
        let ghost before = reads@.map_values(|x: SliceRead| read_view(x));
        reads.push(SliceRead { dataset: i, ranges });
        assert(reads@.map_values(|x: SliceRead| read_view(x)) =~= before.push(
            (i as usize, block_ranges(d.shape@, p, k)),
        ));
        proof {
            match planned_reads(ds, p, k, i + 1) {
                Some(rest) => {
                    assert(before.push((i as usize, block_ranges(d.shape@, p, k))) + rest =~= before
                        + (seq![(i as usize, block_ranges(d.shape@, p, k))] + rest));
                },
                None => {},
            }
        }
        i = i + 1;
    }
    proof {
        assert(reads@.map_values(|x: SliceRead| read_view(x)) + Seq::empty() =~= reads@.map_values(
            |x: SliceRead| read_view(x),
        ));
    }
    Some(ChunkPlan { queue: pos, next_pos: pos + rows, reads })
}

/// The view of a chunk plan: its queue position and its blocks.
pub open spec fn plan_view(r: Option<ChunkPlan>) -> Option<(nat, Seq<(usize, Seq<(usize, usize)>)>)> {
    match r {
        Some(plan) => Some(
            (plan.queue as nat, plan.reads@.map_values(|x: SliceRead| read_view(x))),
        ),
        None => None,
    }
}

/// One read of a reader standing at row `pos` with chunks of `rows` rows, from the
/// datasets `ds`: where it stands afterwards, and the chunk (queue position and blocks),
/// if any. A reader that finds the data exhausted stays where it is.
pub open spec fn cursor_step(rows: nat, pos: nat, ds: Seq<DatasetInfo>) -> (
    nat,
    Option<(nat, Seq<(usize, Seq<(usize, usize)>)>)>,
) {
    match planned_reads(ds, pos as int, rows as int, 0) {
        Some(reads) => ((pos + rows) as nat, Some((pos, reads))),
        None => (pos, None),
    }
}

/// Successive reads, the `i`-th from the datasets `dss[i]`: where the reader stands
/// afterwards, and the queue position of each read's chunk, if any.
pub open spec fn cursor_run(rows: nat, pos: nat, dss: Seq<Seq<DatasetInfo>>) -> (
    nat,
    Seq<Option<nat>>,
)
    decreases dss.len(),
{
    if dss.len() == 0 {
        (pos, Seq::empty())
    } else {
        let (p, queues) = cursor_run(rows, pos, dss.drop_last());
        let (next, r) = cursor_step(rows, p, dss.last());
        (
            next,
            queues.push(
                match r {
                    Some(c) => Some(c.0),
                    None => None,
                },
            ),
        )
    }
}

/// How many of the reads gave a chunk.
pub open spec fn count_chunks(queues: Seq<Option<nat>>) -> nat
    decreases queues.len(),
{
    if queues.len() == 0 {
        0
    } else {
        count_chunks(queues.drop_last()) + if queues.last() is Some {
            1nat
        } else {
            0nat
        }
    }
}

/// A reader that found the data exhausted finds it exhausted again, and stays where it
/// is, as long as the datasets are the same.
pub proof fn lemma_exhausted_stays_exhausted(rows: nat, pos: nat, ds: Seq<DatasetInfo>)
    requires
        cursor_step(rows, pos, ds).1 is None,
    ensures
        cursor_step(rows, cursor_step(rows, pos, ds).0, ds) == cursor_step(rows, pos, ds),
        cursor_step(rows, pos, ds).0 == pos,
{
}

/// The chunks of a reader that starts at row 0 cover consecutive blocks of rows: the
/// chunk of each read that gives one starts `rows` rows after the previous chunk, the
/// first one at row 0.
pub proof fn lemma_chunks_are_consecutive(rows: nat, dss: Seq<Seq<DatasetInfo>>)
    ensures
        ({
            let (pos, queues) = cursor_run(rows, 0, dss);
            &&& pos == rows * count_chunks(queues)
            &&& queues.len() == dss.len()
            &&& forall|j: int|
                0 <= j < queues.len() && (#[trigger] queues[j]) is Some ==> queues[j]->0 == rows
                    * count_chunks(queues.take(j))
        }),
    decreases dss.len(),
{
    if dss.len() > 0 {
        lemma_chunks_are_consecutive(rows, dss.drop_last());
        let (p, queues) = cursor_run(rows, 0, dss.drop_last());
        let (pos, all) = cursor_run(rows, 0, dss);
        let n = queues.len();
        assert(all.drop_last() =~= queues);
        assert(all.take(n as int) =~= queues);
        assert(count_chunks(all) == count_chunks(queues) + if all.last() is Some {
            1nat
        } else {
            0nat
        });
        let (next, r) = cursor_step(rows, p, dss.last());
        assert(pos == next);
        assert(all.last() is Some <==> r is Some);
        if r is Some {
            assert(all.last()->0 == p);
        }
        assert forall|j: int| 0 <= j < all.len() && (#[trigger] all[j]) is Some implies all[j]->0
            == rows * count_chunks(all.take(j)) by {
            if j < n {
                assert(all.take(j) =~= queues.take(j));
                assert(all[j] == queues[j]);
            } else {
                assert(all[j] == all.last());
            }
        }
        assert(rows * (count_chunks(queues) + 1) == rows * count_chunks(queues) + rows) by (
        nonlinear_arith);
        assert(all.len() == dss.len());
        assert(pos == rows * count_chunks(all));
    } else {
        assert(rows * 0 == 0);
    }
}

/// What a reader at row `pos` hands out is the chunk of rows `pos..pos + rows`: it is
/// exhausted exactly when an examined dataset ends before `pos`, and stays where it is;
/// otherwise it moves on by `rows` rows, and its chunk, at queue position `pos`, reads
/// rows `pos..pos + rows` of exactly the examined datasets that have enough rows, in order.
pub proof fn lemma_cursor_hands_out_the_chunk(rows: nat, pos: nat, ds: Seq<DatasetInfo>)
    requires
        pos + rows <= usize::MAX,
        ds.len() <= usize::MAX,
        examined_sizable(ds, pos as int, rows as int, 0),
    ensures
        cursor_step(rows, pos, ds).1 is None <==> is_exhausted_from(ds, pos as int, rows as int, 0),
        cursor_step(rows, pos, ds).1 is None ==> cursor_step(rows, pos, ds).0 == pos,
        cursor_step(rows, pos, ds).1 matches Some(chunk) ==> {
            &&& chunk.0 == pos
            &&& cursor_step(rows, pos, ds).0 == pos + rows
            &&& is_chunk_plan_from(ds, pos as int, rows as int, 0, chunk.1)
        },
{
    lemma_plan_reads_every_long_dataset(ds, pos as int, rows as int);
}

/// Where the reader of a file stands: the first row of its next chunk of `N` rows.
pub struct ReadCursor<const N: usize> {
    pos: usize,
}

impl<const N: usize> ReadCursor<N> {
    /// The first row of the next chunk.
    pub closed spec fn pos(self) -> nat {
        self.pos as nat
    }

    /// A reader at the first row.
    pub fn new() -> (c: Self)
        ensures
            c.pos() == 0,
    {
        ReadCursor { pos: 0 }
    }

    /// The first row of the next chunk.
    pub fn position(&self) -> (p: usize)
        ensures
            p == self.pos(),
    {
        self.pos
    }

    /// Plans the next chunk from the datasets, and moves on by `N` rows when there is
    /// one; stays where it is when the data is exhausted.
    pub fn next_chunk(&mut self, datasets: &Vec<DatasetInfo>) -> (r: Option<ChunkPlan>)
        requires
            old(self).pos() + N <= usize::MAX,
            examined_sizable(datasets@, old(self).pos() as int, N as int, 0),
        ensures
            (final(self).pos(), plan_view(r)) == cursor_step(N as nat, old(self).pos(), datasets@),
            r matches Some(plan) ==> plan.next_pos == final(self).pos(),
            r is None <==> is_exhausted_from(datasets@, old(self).pos() as int, N as int, 0),
            r is None ==> final(self).pos() == old(self).pos(),
            r matches Some(plan) ==> {
                &&& plan.queue == old(self).pos()
                &&& final(self).pos() == old(self).pos() + N
                &&& is_chunk_plan_from(
                    datasets@,
                    old(self).pos() as int,
                    N as int,
                    0,
                    plan.reads@.map_values(|x: SliceRead| read_view(x)),
                )
            },
    {
        let r = plan_chunk(self.pos, N, datasets);
        match r {
            Some(plan) => {
                self.pos = plan.next_pos;
                Some(plan)
            },
            None => None,
        }
    }
}

/// How many rows a dataset that a writer creates holds to begin with; it can grow.
pub const INITIAL_ROWS: usize = 167936;

/// How to write a series of values into its dataset: the shape the values are arranged
/// in, the extents of the dataset when it must be created (its first dimension can grow
/// beyond that), the extents to resize it to, and the ranges to write, per dimension.
pub struct WritePlan {
    pub array_shape: Vec<usize>,
    pub create_shape: Vec<usize>,
    pub resize_to: Vec<usize>,
    pub ranges: Vec<(usize, usize)>,
}

/// The number of values in one row of a dataset of the given shape (of two or three
/// dimensions).
pub open spec fn row_width(shape: Seq<usize>) -> int {
    if shape.len() == 2 {
        shape[1] as int
    } else {
        shape[1] * shape[2]
    }
}

/// How many rows `len` values of a dataset of the given shape make.
pub open spec fn written_rows(shape: Seq<usize>, len: int) -> int {
    if shape.len() == 1 {
        len
    } else {
        len / row_width(shape)
    }
}

/// The shape of `rows` rows of a dataset of the given shape.
pub open spec fn rows_shape(shape: Seq<usize>, rows: int) -> Seq<usize> {
    if shape.len() == 1 {
        seq![rows as usize]
    } else if shape.len() == 2 {
        seq![rows as usize, shape[1]]
    } else {
        seq![rows as usize, shape[1], shape[2]]
    }
}

/// The number of values in an array of the given shape.
pub open spec fn shape_size(shape: Seq<usize>) -> int
    decreases shape.len(),
{
    if shape.len() == 0 {
        1
    } else {
        shape[0] * shape_size(shape.drop_first())
    }
}

/// The series of `len` values at queue position `queue` of a dataset of the given shape
/// can be written: the shape has one to three dimensions, the values fill whole rows,
/// and the extents fit.
pub open spec fn writable(queue: int, len: int, shape: Seq<usize>) -> bool {
    &&& 1 <= shape.len() <= 3
    &&& shape.len() == 3 ==> shape[1] * shape[2] <= usize::MAX
    &&& shape.len() >= 2 ==> row_width(shape) != 0
    &&& shape_size(rows_shape(shape, written_rows(shape, len))) == len
    &&& queue + written_rows(shape, len) <= usize::MAX
}

/// Plans writing `len` values that a chunk at queue position `queue` holds for a dataset
/// of the given shape: they are arranged in rows of the dataset's trailing extents and
/// written to the rows from `queue` on.
pub fn plan_write(queue: usize, len: usize, shape: &Vec<usize>) -> (r: WritePlan)
    requires
        writable(queue as int, len as int, shape@),
    ensures
        r.array_shape@ == rows_shape(shape@, written_rows(shape@, len as int)),
        r.create_shape@ == rows_shape(shape@, INITIAL_ROWS as int),
        r.resize_to@ == rows_shape(shape@, queue + written_rows(shape@, len as int)),
        r.ranges@ == block_ranges(shape@, queue as int, written_rows(shape@, len as int)),
        r.array_shape@.len() == shape@.len(),
        r.create_shape@.len() == shape@.len(),
        r.resize_to@.len() == shape@.len(),
        shape_size(r.array_shape@) == len,
        r.create_shape@[0] == INITIAL_ROWS,
        r.resize_to@[0] == queue + r.array_shape@[0],
        forall|d: int|
            1 <= d < shape@.len() ==> #[trigger] r.array_shape@[d] == shape@[d]
                && r.create_shape@[d] == shape@[d] && r.resize_to@[d] == shape@[d],
        is_block_of(shape@, r.ranges@, queue as int, r.array_shape@[0] as int),
{
    proof {
        let rows = written_rows(shape@, len as int);
        if shape@.len() >= 2 {
            vstd::arithmetic::div_mod::lemma_div_pos_is_pos(len as int, row_width(shape@));
            vstd::arithmetic::div_mod::lemma_div_is_ordered_by_denominator(len as int, 1, row_width(shape@));
        }
        lemma_block_ranges_is_block(shape@, queue as int, rows);
    }
    let dim: usize = shape.len();
    if dim == 1 {
        let r = WritePlan {
            array_shape: vec![len],
            create_shape: vec![INITIAL_ROWS],
            resize_to: vec![queue + len],
            ranges: vec![(queue, queue + len)],
        };
        assert(r.array_shape@ =~= rows_shape(shape@, written_rows(shape@, len as int)));
        assert(r.create_shape@ =~= rows_shape(shape@, INITIAL_ROWS as int));
        assert(r.resize_to@ =~= rows_shape(shape@, queue + written_rows(shape@, len as int)));
        assert(r.ranges@ =~= block_ranges(shape@, queue as int, written_rows(shape@, len as int)));
        r
    } else if dim == 2 {
        let cols: usize = shape[1];
        let rows: usize = len / cols;
        let r = WritePlan {
            array_shape: vec![rows, cols],
            create_shape: vec![INITIAL_ROWS, cols],
            resize_to: vec![queue + rows, cols],
            ranges: vec![(queue, queue + rows), (0, cols)],
        };
        assert(r.array_shape@ =~= rows_shape(shape@, written_rows(shape@, len as int)));
        assert(r.create_shape@ =~= rows_shape(shape@, INITIAL_ROWS as int));
        assert(r.resize_to@ =~= rows_shape(shape@, queue + written_rows(shape@, len as int)));
        assert(r.ranges@ =~= block_ranges(shape@, queue as int, written_rows(shape@, len as int)));
        r
    } else {
        let cols: usize = shape[1];
        let depth: usize = shape[2];
        let rows: usize = len / (cols * depth);
        let r = WritePlan {
            array_shape: vec![rows, cols, depth],
            create_shape: vec![INITIAL_ROWS, cols, depth],
            resize_to: vec![queue + rows, cols, depth],
            ranges: vec![(queue, queue + rows), (0, cols), (0, depth)],
        };
        assert(r.array_shape@ =~= rows_shape(shape@, written_rows(shape@, len as int)));
        assert(r.create_shape@ =~= rows_shape(shape@, INITIAL_ROWS as int));
        assert(r.resize_to@ =~= rows_shape(shape@, queue + written_rows(shape@, len as int)));
        assert(r.ranges@ =~= block_ranges(shape@, queue as int, written_rows(shape@, len as int)));
        r
    }
}

/// Values read as a block of `rows` rows from row `pos` of a dataset, written back with
/// the chunk's queue position `pos`, land on exactly the rows and columns they were read
/// from.
pub proof fn lemma_written_where_read(shape: Seq<usize>, pos: int, rows: int)
    requires
        1 <= shape.len() <= 3,
        shape.len() >= 2 ==> row_width(shape) > 0,
        shape.len() == 3 ==> shape[1] * shape[2] <= usize::MAX,
        0 <= pos,
        0 <= rows,
        pos + rows <= usize::MAX,
    ensures
        ({
            let len = shape_size(rows_shape(shape, rows));
            &&& written_rows(shape, len) == rows
            &&& writable(pos, len, shape)
            &&& block_ranges(shape, pos, written_rows(shape, len)) == block_ranges(shape, pos, rows)
        }),
{
    let rs = rows_shape(shape, rows);
    lemma_shape_size_small(rs);
    let len = shape_size(rs);
    assert(rs[0] == rows);
    if shape.len() >= 2 {
        let w = row_width(shape);
        if shape.len() == 3 {
            assert(rs[1] == shape[1] && rs[2] == shape[2]);
        } else {
            assert(rs[1] == shape[1]);
        }
        assert(len == rows * w);
        vstd::arithmetic::div_mod::lemma_div_multiples_vanish(rows, w);
        assert(w * rows == rows * w) by (nonlinear_arith);
    }
}

/// Whether `opt_chunk_size` can size chunks for a dataset of this shape.
pub fn is_sizable(shape: &Vec<usize>) -> (b: bool)
    ensures
        b == sizable(shape@),
{
    if shape.len() < 1 {
        return false;
    }
    let row_size: usize = shape[0];
    if (row_size as i64) == i64::MAX {
        return false;
    }
    let primes = factors(row_size as i64);
    proof {
        assert(primes@.map_values(|x: i64| x as int).len() == primes@.len());
    }
    primes.len() >= CHUNK_FACTORS
}

/// Whether `plan_chunk` can plan the next chunk of `rows` rows from row `pos` of these
/// datasets: the positions fit, and every dataset the reader examines has a shape that
/// chunks can be sized for.
pub fn chunk_plannable(pos: usize, rows: usize, datasets: &Vec<DatasetInfo>) -> (b: bool)
    ensures
        b == (pos + rows <= usize::MAX && examined_sizable(datasets@, pos as int, rows as int, 0)),
{
    if pos > usize::MAX - rows {
        return false;
    }
    let ghost ds = datasets@;
    let ghost p = pos as int;
    let ghost k = rows as int;
    let n: usize = datasets.len();
    let mut i: usize = 0;
    while i < n
        invariant
            n == ds.len(),
            ds == datasets@,
            p == pos,
            k == rows,
            pos + rows <= usize::MAX,
            i <= n,
            examined_sizable(ds, p, k, 0) == examined_sizable(ds, p, k, i as int),
        decreases n - i,
    {
        let d = &datasets[i];
        if !is_sizable(&d.shape) {
            return false;
        }
        if is_skipped(&d.name) {
            i = i + 1;
            continue ;
        }
        let row_count: usize = d.shape[0];
        if row_count < pos {
            return true;
        }
        if row_count < pos + rows || d.shape.len() <= 3 {
            i = i + 1;
            continue ;
        }
        return true;
    }
    true
}

/// The number of values in arrays of one, two or three dimensions.
pub proof fn lemma_shape_size_small(s: Seq<usize>)
    requires
        1 <= s.len() <= 3,
    ensures
        s.len() == 1 ==> shape_size(s) == s[0],
        s.len() == 2 ==> shape_size(s) == s[0] * s[1],
        s.len() == 3 ==> shape_size(s) == s[0] * (s[1] * s[2]),
{
    let t = s.drop_first();
    if s.len() == 1 {
        assert(shape_size(t) == 1);
        assert(shape_size(s) == s[0] * shape_size(t));
    } else if s.len() == 2 {
        assert(t.drop_first().len() == 0);
        assert(shape_size(t.drop_first()) == 1);
        assert(shape_size(t) == s[1]);
    } else {
        let u = t.drop_first();
        assert(u.drop_first().len() == 0);
        assert(shape_size(u.drop_first()) == 1);
        assert(shape_size(u) == s[2]);
        assert(shape_size(t) == s[1] * s[2]);
    }
}

/// Whether `plan_write` can plan writing `len` values at queue position `queue` into a
/// dataset of the given shape.
pub fn write_plannable(queue: usize, len: usize, shape: &Vec<usize>) -> (b: bool)
    ensures
        b == writable(queue as int, len as int, shape@),
{
    let dim: usize = shape.len();
    if dim < 1 || dim > 3 {
        return false;
    }
    let rows: usize;
    if dim == 1 {
        rows = len;
        proof {
            lemma_shape_size_small(rows_shape(shape@, len as int));
        }
    } else if dim == 2 {
        let cols: usize = shape[1];
        if cols == 0 {
            return false;
        }
        rows = len / cols;
        proof {
            lemma_shape_size_small(rows_shape(shape@, rows as int));
        }
        match rows.checked_mul(cols) {
            Some(size) => {
                if size != len {
                    return false;
                }
            },
            None => {
                return false;
            },
        }
    } else {
        let cols: usize = shape[1];
        let depth: usize = shape[2];
        let area: usize = match cols.checked_mul(depth) {
            Some(area) => area,
            None => {
                return false;
            },
        };
        if area == 0 {
            return false;
        }
        rows = len / area;
        proof {
            lemma_shape_size_small(rows_shape(shape@, rows as int));
            assert(rows as int * (cols as int * depth as int) == rows as int * area as int);
        }
        match rows.checked_mul(area) {
            Some(size) => {
                if size != len {
                    return false;
                }
            },
            None => {
                return false;
            },
        }
    }
    queue <= usize::MAX - rows
}

fn is_skipped(name: &String) -> (b: bool)
    ensures
        b == is_skipped_name(name@),
{
    let skipped = String::from_str("/circdistance");
    proof {
        reveal_strlit("/circdistance");
    }
    *name == skipped
}

} // verus!
