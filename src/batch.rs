//! The batch router: a buffered batch of records is routed in one pass,
//! either sequentially or with the lookups spread over worker threads, and
//! both ways give the same per-group index lists.

use vstd::prelude::*;

use rayon::iter::ParallelIterator;
use rayon::slice::ParallelSlice;

use crate::record::{get_tag_value, tag_value_of, TagError, TagRecord};
use crate::subsetter::{group_of, route_of, Subsetter};

verus! {

/// Positions, ascending, of the records among the first `n` of `records` that go to group `g`.
pub open spec fn group_indices(
    lists: Seq<Seq<Seq<char>>>,
    records: Seq<TagRecord>,
    key: [u8; 2],
    g: nat,
    n: int,
) -> Seq<usize>
    decreases n,
{
    if n <= 0 {
        Seq::empty()
    } else {
        let prev = group_indices(lists, records, key, g, n - 1);
        if route_of(lists, records[n - 1].tags@, key) == Ok::<Option<nat>, TagError>(Some(g)) {
            prev.push((n - 1) as usize)
        } else {
            prev
        }
    }
}

/// No record of the batch holds undecodable text under `key`.
pub open spec fn batch_decodes(records: Seq<TagRecord>, key: [u8; 2]) -> bool {
    forall|i: int| 0 <= i < records.len() ==> #[trigger] tag_value_of(records[i].tags@, key) is Ok
}

/// The routing of a whole batch, as a sequential scan gives it: for each
/// group, the positions of its records in ascending order; or the error,
/// when some record's tag text cannot be decoded.
pub open spec fn assignment(lists: Seq<Seq<Seq<char>>>, records: Seq<TagRecord>, key: [u8; 2]) -> Result<Seq<Seq<usize>>, TagError> {
    if batch_decodes(records, key) {
        Ok(Seq::new(lists.len(), |g: int| group_indices(lists, records, key, g as nat, records.len() as int)))
    } else {
        Err(TagError::InvalidText)
    }
}

/// The index lists of a batch result, as sequences.
pub open spec fn groups_view(r: Result<Vec<Vec<usize>>, TagError>) -> Result<Seq<Seq<usize>>, TagError> {
    match r {
        Ok(v) => Ok(v@.map_values(|x: Vec<usize>| x@)),
        Err(e) => Err(e),
    }
}

/// Positions, in order, of the `(position, value)` pairs whose value belongs to group `g`.
pub open spec fn pair_indices(lists: Seq<Seq<Seq<char>>>, pairs: Seq<(usize, String)>, g: nat) -> Seq<usize>
    decreases pairs.len(),
{
    if pairs.len() == 0 {
        Seq::empty()
    } else {
        let prev = pair_indices(lists, pairs.drop_last(), g);
        if group_of(lists, pairs.last().1@) == Some(g) {
            prev.push(pairs.last().0)
        } else {
            prev
        }
    }
}

/// `x`, capped at `hi`.
pub open spec fn clamp(x: int, hi: int) -> int {
    if x < hi {
        x
    } else {
        hi
    }
}

/// Chunk number `c` when `s` is cut into consecutive chunks of `size` items; the last may be shorter.
pub open spec fn chunk_of<T>(s: Seq<T>, size: nat, c: int) -> Seq<T> {
    s.subrange(c * size, clamp(c * size + size, s.len() as int))
}

/// Routing the pairs of two consecutive pieces is routing each piece and
/// concatenating, group by group.
pub proof fn lemma_pair_indices_concat(lists: Seq<Seq<Seq<char>>>, a: Seq<(usize, String)>, b: Seq<(usize, String)>, g: nat)
    ensures
        pair_indices(lists, a + b, g) == pair_indices(lists, a, g) + pair_indices(lists, b, g),
    decreases b.len(),
{
    if b.len() == 0 {
        assert(a + b =~= a);
        assert(pair_indices(lists, a, g) + pair_indices(lists, b, g) =~= pair_indices(lists, a, g));
    } else {
        assert((a + b).drop_last() =~= a + b.drop_last());
        assert((a + b).last() == b.last());
        lemma_pair_indices_concat(lists, a, b.drop_last(), g);
        let pa = pair_indices(lists, a, g);
        let pb = pair_indices(lists, b.drop_last(), g);
        assert((pa + pb).push(b.last().0) =~= pa + pb.push(b.last().0));
    }
}

/// Appends `src` to `dst`.
fn append_copy(dst: &mut Vec<usize>, src: &Vec<usize>)
    ensures
        final(dst)@ == old(dst)@ + src@,
{
    let mut k: usize = 0;
    while k < src.len()
        invariant
            k <= src@.len(),
            dst@ == old(dst)@ + src@.subrange(0, k as int),
        decreases src@.len() - k,
    {
        dst.push(src[k]);
        assert(src@.subrange(0, k + 1) =~= src@.subrange(0, k as int).push(src@[k as int]));
        k += 1;
    }
    assert(src@.subrange(0, src@.len() as int) =~= src@);
}

/// `n` empty index lists.
fn empty_groups(n: usize) -> (r: Vec<Vec<usize>>)
    ensures
        r@.len() == n,
        forall|g: int| 0 <= g < n ==> (#[trigger] r@[g])@ == Seq::<usize>::empty(),
{
    let mut r: Vec<Vec<usize>> = Vec::with_capacity(n);
    let mut g: usize = 0;
    while g < n
        invariant
            g <= n,
            r@.len() == g,
            forall|k: int| 0 <= k < g ==> (#[trigger] r@[k])@ == Seq::<usize>::empty(),
        decreases n - g,
    {
        r.push(Vec::new());
        g += 1;
    }
    r
}

/// `chunks` is what routing each chunk of `size` pairs gives, in chunk order:
/// one entry per non-empty chunk, each with one index list per group.
pub open spec fn routed_chunks(
    lists: Seq<Seq<Seq<char>>>,
    pairs: Seq<(usize, String)>,
    size: nat,
    chunks: Seq<Vec<Vec<usize>>>,
) -> bool {
    &&& chunks.len() * size >= pairs.len()
    &&& forall|c: int| 0 <= c < chunks.len() ==> #[trigger] (c * size) < pairs.len()
    &&& forall|c: int| 0 <= c < chunks.len() ==> (#[trigger] chunks[c])@.len() == lists.len()
    &&& forall|c: int, g: int| 0 <= c < chunks.len() && 0 <= g < lists.len() ==>
        (#[trigger] chunks[c]@[g])@ == pair_indices(lists, chunk_of(pairs, size, c), g as nat)
}

/// Relies on rayon's `ParallelSlice::par_chunks` with `map` and `collect`: the
/// pairs are cut into consecutive non-empty chunks of `chunk_size` (the last
/// may be shorter), each chunk is routed by `route_chunk` on rayon's global
/// pool, and the results are collected in chunk order.
#[verifier::external_body]
fn route_chunks_parallel(subsetter: &Subsetter, pairs: &[(usize, String)], chunk_size: usize) -> (r: Vec<Vec<Vec<usize>>>)
    requires
        subsetter.wf(),
        chunk_size > 0,
    ensures
        routed_chunks(subsetter.registered(), pairs@, chunk_size as nat, r@),
{
    pairs.par_chunks(chunk_size).map(|chunk| subsetter.route_chunk(chunk)).collect()
}

/// Relies on rayon's `ThreadPoolBuilder::num_threads` and `build`, then
/// `ThreadPool::install` around the same `par_chunks`, `map` and `collect`:
/// the chunks are routed on a pool of `workers` threads of its own. Nothing
/// comes back when the pool cannot be built.
#[verifier::external_body]
fn route_chunks_in_pool(subsetter: &Subsetter, pairs: &[(usize, String)], chunk_size: usize, workers: usize) -> (r: Option<Vec<Vec<Vec<usize>>>>)
    requires
        subsetter.wf(),
        chunk_size > 0,
    ensures
        r matches Some(chunks) ==> routed_chunks(subsetter.registered(), pairs@, chunk_size as nat, chunks@),
{
    let pool = rayon::ThreadPoolBuilder::new().num_threads(workers).build().ok()?;
    Some(pool.install(|| pairs.par_chunks(chunk_size).map(|chunk| subsetter.route_chunk(chunk)).collect()))
}

/// Relies on `rayon::current_num_threads`: how many threads rayon's pool
/// has here. It depends on the machine, so nothing is stated of it.
#[verifier::external_body]
fn available_workers() -> (r: usize) {
    rayon::current_num_threads()
}

/// The number of workers used for `requested` when `available` can run: the
/// smaller of the two, and at least one.
pub open spec fn worker_bound(requested: nat, available: nat) -> nat {
    let m = if requested < available {
        requested
    } else {
        available
    };
    if m == 0 {
        1
    } else {
        m
    }
}

/// Clamps a requested worker count to what is available; asking for more is no error.
pub fn effective_workers(requested: usize, available: usize) -> (r: usize)
    ensures
        r == worker_bound(requested as nat, available as nat),
{
    let m = if requested < available {
        requested
    } else {
        available
    };
    if m == 0 {
        1
    } else {
        m
    }
}

impl Subsetter {
    /// Routes a batch in one sequential scan: for each group, the positions
    /// of its records in ascending order.
    pub fn process_records(&self, records: &[TagRecord], tag: &[u8; 2]) -> (r: Result<Vec<Vec<usize>>, TagError>)
        requires
            self.wf(),
        ensures
            groups_view(r) == assignment(self.registered(), records@, *tag),
    {
        let ghost lists = self.registered();
        let mut result = empty_groups(self.group_count());
        let mut i: usize = 0;
        while i < records.len()
            invariant
                self.wf(),
                lists == self.registered(),
                i <= records@.len(),
                result@.len() == lists.len(),
                forall|g: int| 0 <= g < lists.len() ==> (#[trigger] result@[g])@ == group_indices(lists, records@, *tag, g as nat, i as int),
                forall|j: int| 0 <= j < i ==> #[trigger] tag_value_of(records@[j].tags@, *tag) is Ok,
            decreases records@.len() - i,
        {
            let routed = self.process_record(&records[i], tag);
            let ghost prev = result@;
            match routed {
                Ok(Some(g)) => {
                    result[g].push(i);
                },
                Ok(None) => {},
                Err(e) => {
                    assert(!(tag_value_of(records@[i as int].tags@, *tag) is Ok));
                    return Err(e);
                },
            }
            assert forall|g: int| 0 <= g < lists.len() implies (#[trigger] result@[g])@ == group_indices(lists, records@, *tag, g as nat, i + 1) by {
                assert(prev[g]@ == group_indices(lists, records@, *tag, g as nat, i as int));
            }
            i += 1;
        }
        proof {
            assert(groups_view(Ok(result))->Ok_0 =~= assignment(lists, records@, *tag)->Ok_0);
        }
        Ok(result)
    }

    /// Routes one chunk of `(position, value)` pairs: for each group, the
    /// positions whose value belongs to it, in chunk order.
    pub fn route_chunk(&self, chunk: &[(usize, String)]) -> (r: Vec<Vec<usize>>)
        requires
            self.wf(),
        ensures
            r@.len() == self.n_groups(),
            forall|g: int| 0 <= g < self.n_groups() ==> (#[trigger] r@[g])@ == pair_indices(self.registered(), chunk@, g as nat),
    {
        let ghost lists = self.registered();
        let mut result = empty_groups(self.group_count());
        let mut k: usize = 0;
        while k < chunk.len()
            invariant
                self.wf(),
                lists == self.registered(),
                k <= chunk@.len(),
                result@.len() == lists.len(),
                forall|g: int| 0 <= g < lists.len() ==> (#[trigger] result@[g])@ == pair_indices(lists, chunk@.subrange(0, k as int), g as nat),
            decreases chunk@.len() - k,
        {
            let ghost prev = result@;
            let (index, value) = &chunk[k];
            let found = self.lookup(value.as_str());
            if let Some(g) = found {
                result[g].push(*index);
            }
            assert(chunk@.subrange(0, k + 1).drop_last() =~= chunk@.subrange(0, k as int));
            assert forall|g: int| 0 <= g < lists.len() implies (#[trigger] result@[g])@ == pair_indices(lists, chunk@.subrange(0, k + 1), g as nat) by {
                assert(prev[g]@ == pair_indices(lists, chunk@.subrange(0, k as int), g as nat));
            }
            k += 1;
        }
        assert(chunk@.subrange(0, chunk@.len() as int) =~= chunk@);
        result
    }

    /// The `(position, value)` pairs of the records that hold a value under
    /// `tag`, in batch order; or the error, when some value is not text.
    fn extract_pairs(&self, records: &[TagRecord], tag: &[u8; 2]) -> (r: Result<Vec<(usize, String)>, TagError>)
        requires
            self.wf(),
        ensures
            match r {
                Ok(pairs) => {
                    &&& batch_decodes(records@, *tag)
                    &&& forall|g: nat| #[trigger] pair_indices(self.registered(), pairs@, g) == group_indices(self.registered(), records@, *tag, g, records@.len() as int)
                },
                Err(e) => !batch_decodes(records@, *tag) && e == TagError::InvalidText,
            },
    {
        let ghost lists = self.registered();
        let mut pairs: Vec<(usize, String)> = Vec::new();
        let mut i: usize = 0;
        while i < records.len()
            invariant
                i <= records@.len(),
                forall|g: nat| #[trigger] pair_indices(lists, pairs@, g) == group_indices(lists, records@, *tag, g, i as int),
                forall|j: int| 0 <= j < i ==> #[trigger] tag_value_of(records@[j].tags@, *tag) is Ok,
            decreases records@.len() - i,
        {
            let ghost prev = pairs@;
            match get_tag_value(&records[i], tag) {
                Ok(Some(value)) => {
                    pairs.push((i, value));
                    assert(pairs@.drop_last() =~= prev);
                },
                Ok(None) => {},
                Err(e) => {
                    assert(!(tag_value_of(records@[i as int].tags@, *tag) is Ok));
                    return Err(e);
                },
            }
            assert forall|g: nat| #[trigger] pair_indices(lists, pairs@, g) == group_indices(lists, records@, *tag, g, i + 1) by {
                assert(pair_indices(lists, prev, g) == group_indices(lists, records@, *tag, g, i as int));
            }
            i += 1;
        }
        Ok(pairs)
    }

    /// Concatenates the per-chunk index lists group by group, in chunk order.
    fn merge_chunks(&self, pairs: &[(usize, String)], chunk_size: usize, chunks: &Vec<Vec<Vec<usize>>>) -> (r: Vec<Vec<usize>>)
        requires
            self.wf(),
            chunk_size > 0,
            routed_chunks(self.registered(), pairs@, chunk_size as nat, chunks@),
        ensures
            r@.len() == self.n_groups(),
            forall|g: int| 0 <= g < self.n_groups() ==> (#[trigger] r@[g])@ == pair_indices(self.registered(), pairs@, g as nat),
    {
        let ghost lists = self.registered();
        let n = self.group_count();
        let mut result = empty_groups(n);
        let ghost total = pairs@.len();
        let mut c: usize = 0;
        while c < chunks.len()
            invariant
                n == lists.len(),
                chunk_size > 0,
                total == pairs@.len(),
                c <= chunks@.len(),
                routed_chunks(lists, pairs@, chunk_size as nat, chunks@),
                result@.len() == n,
                forall|g: int| 0 <= g < n ==> (#[trigger] result@[g])@ == pair_indices(lists, pairs@.subrange(0, clamp(c * chunk_size, total as int)), g as nat),
            decreases chunks@.len() - c,
        {
            let ghost start = c * chunk_size;
            let ghost piece = chunk_of(pairs@, chunk_size as nat, c as int);
            let ghost end = clamp(start + chunk_size, total as int);
            let ghost before = result@;
            let mut g: usize = 0;
            while g < n
                invariant
                    n == lists.len(),
                    g <= n,
                    result@.len() == n,
                    c < chunks@.len(),
                    before.len() == n,
                    forall|d: int| 0 <= d < chunks@.len() ==> (#[trigger] chunks@[d])@.len() == n,
                    forall|h: int| 0 <= h < g ==> (#[trigger] result@[h])@ == before[h]@ + chunks@[c as int]@[h]@,
                    forall|h: int| g <= h < n ==> (#[trigger] result@[h]) == before[h],
                decreases n - g,
            {
                append_copy(&mut result[g], &chunks[c][g]);
                g += 1;
            }
            proof {
                assert((c + 1) * chunk_size == start + chunk_size) by (nonlinear_arith)
                    requires start == c * chunk_size;
                assert(start < total);
                assert(clamp(start, total as int) == start);
                assert(end == clamp((c + 1) * chunk_size, total as int));
                assert(pairs@.subrange(0, start) + piece =~= pairs@.subrange(0, end));
                assert forall|h: int| 0 <= h < n implies (#[trigger] result@[h])@ == pair_indices(lists, pairs@.subrange(0, end), h as nat) by {
                    lemma_pair_indices_concat(lists, pairs@.subrange(0, start), piece, h as nat);
                }
            }
            c += 1;
        }
        proof {
            assert(clamp(c * chunk_size, total as int) == total);
            assert(pairs@.subrange(0, total as int) =~= pairs@);
        }
        result
    }

    /// Routes a batch with the lookups spread over rayon's worker threads,
    /// chunk by chunk; the result is that of the sequential scan, whatever the
    /// chunk size.
    pub fn process_records_parallel(&self, records: &[TagRecord], tag: &[u8; 2], chunk_size: usize) -> (r: Result<Vec<Vec<usize>>, TagError>)
        requires
            self.wf(),
            chunk_size > 0,
        ensures
            groups_view(r) == assignment(self.registered(), records@, *tag),
    {
        let pairs = match self.extract_pairs(records, tag) {
            Ok(pairs) => pairs,
            Err(e) => return Err(e),
        };
        let chunks = route_chunks_parallel(self, pairs.as_slice(), chunk_size);
        let result = self.merge_chunks(pairs.as_slice(), chunk_size, &chunks);
        proof {
            assert(groups_view(Ok(result))->Ok_0 =~= assignment(self.registered(), records@, *tag)->Ok_0);
        }
        Ok(result)
    }

    /// Like `process_records_parallel`, on a pool of its own with `workers`
    /// threads, clamped to the threads available (and to at least one). Where
    /// no such pool can be had, rayon's global pool does the work. The result
    /// is that of the sequential scan, whatever the chunk size or worker count.
    pub fn process_records_with_workers(&self, records: &[TagRecord], tag: &[u8; 2], chunk_size: usize, workers: usize) -> (r: Result<Vec<Vec<usize>>, TagError>)
        requires
            self.wf(),
            chunk_size > 0,
        ensures
            groups_view(r) == assignment(self.registered(), records@, *tag),
    {
        let pairs = match self.extract_pairs(records, tag) {
            Ok(pairs) => pairs,
            Err(e) => return Err(e),
        };
        let threads = effective_workers(workers, available_workers());
        let chunks = match route_chunks_in_pool(self, pairs.as_slice(), chunk_size, threads) {
            Some(chunks) => chunks,
            None => route_chunks_parallel(self, pairs.as_slice(), chunk_size),
        };
        let result = self.merge_chunks(pairs.as_slice(), chunk_size, &chunks);
        proof {
            assert(groups_view(Ok(result))->Ok_0 =~= assignment(self.registered(), records@, *tag)->Ok_0);
        }
        Ok(result)
    }
}

} // verus!
