//! A bsdiff-style binary differencing engine: it finds matches between an
//! old and a new buffer with a suffix index over the old one, and turns them
//! into add / copy / seek control records from which the new buffer can be
//! rebuilt.
use vstd::prelude::*;

pub mod cycle;
pub mod index;
pub mod model;
pub mod scan;
pub mod translate;

pub use cycle::{assert_cycle, apply_controls, translate_all};
pub use index::OldIndex;
pub use model::{Match, Control};
pub use scan::{BsdiffIterator, scan_matches};
pub use translate::Translator;

use model::tiles;
use scan::{is_bsdiff_cut, cut_then};

verus! {

/// Why a set of diff parameters was refused.
#[derive(Debug, Clone, Copy, PartialEq, Eq)]
pub enum ParamError {
    /// The number of sort partitions is below one.
    SortPartitions,
    /// A scan chunk size was given and is below one.
    ScanChunkSize,
}

impl ParamError {
    /// A sentence that says what was wrong.
    pub fn message(&self) -> (r: String)
        ensures
            *self == ParamError::SortPartitions ==> r@ == "number of sort partitions cannot be less than 1"@,
            *self == ParamError::ScanChunkSize ==> r@ == "scan chunk size cannot be less than 1"@,
    {
        match self {
            ParamError::SortPartitions => "number of sort partitions cannot be less than 1".to_owned(),
            ParamError::ScanChunkSize => "scan chunk size cannot be less than 1".to_owned(),
        }
    }
}

/// Parameters used when creating diffs.
///
/// `sort_partitions` parts of the old buffer are suffix sorted in parallel,
/// and, when `scan_chunk_size` is given, the new buffer is scanned in chunks
/// of that size. Both trade patch quality for parallelism: matches cannot
/// cross a partition or a chunk boundary.
pub struct DiffParams {
    sort_partitions: usize,
    scan_chunk_size: Option<usize>,
}

impl DiffParams {
    pub closed spec fn spec_sort_partitions(&self) -> usize {
        self.sort_partitions
    }

    pub closed spec fn spec_scan_chunk_size(&self) -> Option<usize> {
        self.scan_chunk_size
    }

    /// Both parameters are at least one.
    pub open spec fn wf(&self) -> bool {
        &&& self.spec_sort_partitions() >= 1
        &&& self.spec_scan_chunk_size() matches Some(c) ==> c >= 1
    }

    /// Checks and builds a set of parameters.
    pub fn new(sort_partitions: usize, scan_chunk_size: Option<usize>) -> (r: Result<
        DiffParams,
        ParamError,
    >)
        ensures
            sort_partitions < 1 ==> r == Err::<DiffParams, ParamError>(ParamError::SortPartitions),
            sort_partitions >= 1 && scan_chunk_size == Some(0usize) ==> r == Err::<
                DiffParams,
                ParamError,
            >(ParamError::ScanChunkSize),
            sort_partitions >= 1 && scan_chunk_size != Some(0usize) ==> (r matches Ok(p) && p.wf()
                && p.spec_sort_partitions() == sort_partitions && p.spec_scan_chunk_size()
                == scan_chunk_size),
    {
        if sort_partitions < 1 {
            return Err(ParamError::SortPartitions);
        }
        if let Some(s) = scan_chunk_size {
            if s < 1 {
                return Err(ParamError::ScanChunkSize);
            }
        }
        Ok(DiffParams { sort_partitions, scan_chunk_size })
    }

    pub fn sort_partitions(&self) -> (r: usize)
        ensures
            r == self.spec_sort_partitions(),
    {
        self.sort_partitions
    }

    pub fn scan_chunk_size(&self) -> (r: Option<usize>)
        ensures
            r == self.spec_scan_chunk_size(),
    {
        self.scan_chunk_size
    }
}

impl Default for DiffParams {
    /// One sort partition, no scan chunks.
    fn default() -> (r: Self)
        ensures
            r.wf(),
            r.spec_sort_partitions() == 1,
            r.spec_scan_chunk_size() is None,
    {
        DiffParams { sort_partitions: 1, scan_chunk_size: None }
    }
}

/// Appends `ms`, moved `offset` bytes further into the new buffer, to `out`.
fn append_shifted(
    out: &mut Vec<Match>,
    ms: &Vec<Match>,
    offset: usize,
    Ghost(old_len): Ghost<int>,
    Ghost(new_len): Ghost<int>,
    Ghost(chunk_len): Ghost<int>,
)
    requires
        tiles(old(out)@, old_len, new_len, 0, offset as int),
        tiles(ms@, old_len, chunk_len, 0, chunk_len),
        offset + chunk_len <= new_len,
        new_len <= usize::MAX,
        old(out)@.len() > 0 ==> old(out)@[0].add_old_start == 0,
        old(out)@.len() == 0 && ms@.len() > 0 ==> ms@[0].add_old_start == 0,
    ensures
        tiles(final(out)@, old_len, new_len, 0, offset + chunk_len),
        final(out)@.len() > 0 ==> final(out)@[0].add_old_start == 0,
        final(out)@.len() == old(out)@.len() + ms@.len(),
        forall|k: int| 0 <= k < old(out)@.len() ==> #[trigger] final(out)@[k] == old(out)@[k],
        forall|k: int|
            old(out)@.len() <= k < final(out)@.len() ==> offset <= (#[trigger] final(out)@[k]).add_new_start
                && final(out)@[k].copy_end <= offset + chunk_len,
{
    let ghost before = out@;
    let mut i: usize = 0;
    while i < ms.len()
        invariant
            0 <= i <= ms@.len(),
            tiles(ms@, old_len, chunk_len, 0, chunk_len),
            offset + chunk_len <= new_len,
            new_len <= usize::MAX,
            out@.len() == before.len() + i,
            out@.subrange(0, before.len() as int) == before,
            forall|k: int| 0 <= k < i ==> #[trigger] out@[before.len() + k] == (Match {
                add_old_start: ms@[k].add_old_start,
                add_new_start: (ms@[k].add_new_start + offset) as usize,
                add_length: ms@[k].add_length,
                copy_end: (ms@[k].copy_end + offset) as usize,
            }),
        decreases ms@.len() - i,
    {
        let m = ms[i];
        assert(ms@[i as int].within(old_len, chunk_len));
        let ghost prev = out@;
        out.push(Match {
            add_old_start: m.add_old_start,
            add_new_start: m.add_new_start + offset,
            add_length: m.add_length,
            copy_end: m.copy_end + offset,
        });
        proof {
            assert(out@.subrange(0, before.len() as int) =~= before);
            assert forall|k: int| 0 <= k < i + 1 implies #[trigger] out@[before.len() + k] == (Match {
                add_old_start: ms@[k].add_old_start,
                add_new_start: (ms@[k].add_new_start + offset) as usize,
                add_length: ms@[k].add_length,
                copy_end: (ms@[k].copy_end + offset) as usize,
            }) by {
                if k < i {
                    assert(out@[before.len() + k] == prev[before.len() + k]);
                }
            }
        }
        i += 1;
    }
    proof {
        let r = out@;
        let b = before.len() as int;
        assert forall|k: int| 0 <= k < b implies #[trigger] r[k] == before[k] by {
            assert(r.subrange(0, b)[k] == r[k]);
        }
        assert forall|k: int| b <= k < r.len() implies offset <= (#[trigger] r[k]).add_new_start
            && r[k].copy_end <= offset + chunk_len by {
            assert(r[b + (k - b)] == r[k]);
            assert(ms@[k - b].within(old_len, chunk_len));
        }
        assert forall|k: int| 0 <= k < r.len() implies (#[trigger] r[k]).within(old_len, new_len) by {
            if k < b {
                assert(r[k] == before[k]);
            } else {
                assert(r[b + (k - b)] == r[k]);
                assert(ms@[k - b].within(old_len, chunk_len));
            }
        }
        assert forall|k: int| 0 <= k < r.len() - 1 implies (#[trigger] r[k + 1]).add_new_start
            == r[k].copy_end by {
            if k + 1 < b {
                assert(r[k] == before[k]);
                assert(r[k + 1] == before[k + 1]);
            } else if k + 1 == b {
                assert(r[k] == before[k]);
                assert(r[b + 0] == r[k + 1]);
            } else {
                assert(r[b + (k - b)] == r[k]);
                assert(r[b + (k + 1 - b)] == r[k + 1]);
                let j = k - b;
                assert(ms@[j + 1].add_new_start == ms@[j].copy_end);
            }
        }
        if r.len() > 0 {
            if b > 0 {
                assert(r[0] == before[0]);
            } else {
                assert(r[b + 0] == r[0]);
            }
            if ms@.len() > 0 {
                assert(r[b + (ms@.len() - 1)] == r.last());
            } else {
                assert(r.last() == before.last());
            }
        }
    }
}

/// `m` moved `off` bytes further into the new buffer.
pub open spec fn shifted(m: Match, off: int) -> Match {
    Match {
        add_old_start: m.add_old_start,
        add_new_start: (m.add_new_start + off) as usize,
        add_length: m.add_length,
        copy_end: (m.copy_end + off) as usize,
    }
}

/// The matches of each chunk in chunk order, those of chunk `i` moved to
/// the chunk's start `i * c`.
pub open spec fn joined(chunks: Seq<Vec<Match>>, c: int) -> Seq<Match>
    decreases chunks.len(),
{
    if chunks.len() == 0 {
        Seq::empty()
    } else {
        joined(chunks.drop_last(), c) + chunks.last()@.map_values(
            |m: Match| shifted(m, (chunks.len() - 1) * c),
        )
    }
}

/// Joins the matches found in consecutive chunks of `chunk_size` bytes of
/// the new buffer into matches over the whole buffer.
pub fn join_chunks(chunks: &Vec<Vec<Match>>, chunk_size: usize) -> (r: Vec<Match>)
    requires
        chunks@.len() * chunk_size <= usize::MAX,
        forall|i: int, j: int|
            0 <= i < chunks@.len() && 0 <= j < chunks@[i]@.len() ==> (#[trigger] chunks@[i]@[j]).add_new_start
                <= chunks@[i]@[j].copy_end <= chunk_size,
    ensures
        r@ == joined(chunks@, chunk_size as int),
{
    let mut out: Vec<Match> = Vec::new();
    let mut offset: usize = 0;
    let mut i: usize = 0;
    while i < chunks.len()
        invariant
            chunks@.len() * chunk_size <= usize::MAX,
            forall|i: int, j: int|
                0 <= i < chunks@.len() && 0 <= j < chunks@[i]@.len() ==> (#[trigger] chunks@[i]@[j]).add_new_start
                    <= chunks@[i]@[j].copy_end <= chunk_size,
            i <= chunks@.len(),
            offset == i * chunk_size,
            out@ == joined(chunks@.take(i as int), chunk_size as int),
        decreases chunks@.len() - i,
    {
        proof {
            assert((i + 1) * chunk_size <= chunks@.len() * chunk_size) by (nonlinear_arith)
                requires i + 1 <= chunks@.len();
            assert((i + 1) * chunk_size == i * chunk_size + chunk_size) by (nonlinear_arith);
        }
        let v = &chunks[i];
        let ghost base = out@;
        let mut j: usize = 0;
        while j < v.len()
            invariant
                v@ == chunks@[i as int]@,
                0 <= i < chunks@.len(),
                forall|j: int| 0 <= j < v@.len() ==> (#[trigger] v@[j]).add_new_start <= v@[j].copy_end <= chunk_size,
                offset + chunk_size <= usize::MAX,
                j <= v@.len(),
                out@ == base + v@.take(j as int).map_values(|m: Match| shifted(m, offset as int)),
            decreases v@.len() - j,
        {
            let m = v[j];
            assert(v@[j as int] == m);
            out.push(Match {
                add_old_start: m.add_old_start,
                add_new_start: m.add_new_start + offset,
                add_length: m.add_length,
                copy_end: m.copy_end + offset,
            });
            assert(v@.take(j + 1).map_values(|m: Match| shifted(m, offset as int)) =~= v@.take(
                j as int,
            ).map_values(|m: Match| shifted(m, offset as int)).push(shifted(m, offset as int)));
            j += 1;
        }
        proof {
            let t = chunks@.take(i + 1);
            assert(t.drop_last() =~= chunks@.take(i as int));
            assert(t.last() == chunks@[i as int]);
            assert(v@.take(v@.len() as int) =~= v@);
            assert(out@ =~= joined(t, chunk_size as int));
        }
        offset = offset + chunk_size;
        i += 1;
    }
    assert(chunks@.take(chunks@.len() as int) =~= chunks@);
    out
}

/// Where chunk number `k` of size `c` starts.
pub open spec fn chunk_start(k: int, c: int) -> int {
    k * c
}

/// `m` lies inside chunk number `k` of size `c`.
pub open spec fn cut_in_chunk(m: Match, k: int, c: int) -> bool {
    chunk_start(k, c) <= m.add_new_start && m.copy_end <= chunk_start(k, c) + c
}

/// `m` lies inside one chunk of size `c`: it does not cross a chunk boundary.
pub open spec fn in_one_chunk(m: Match, c: int) -> bool {
    exists|k: int| #[trigger] cut_in_chunk(m, k, c)
}

/// Diffs two buffers: builds the index over `obuf` and scans `nbuf`, whole
/// or chunk by chunk, into matches that tile it from start to end. In chunked
/// mode no match crosses a chunk boundary; otherwise each match is a bsdiff
/// cut of the whole new buffer.
pub fn diff(obuf: &[u8], nbuf: &[u8], params: &DiffParams) -> (r: Vec<Match>)
    requires
        obuf@.len() < i32::MAX,
        nbuf@.len() <= isize::MAX,
        params.wf(),
    ensures
        tiles(r@, obuf@.len() as int, nbuf@.len() as int, 0, nbuf@.len() as int),
        r@.len() > 0 ==> r@[0].add_old_start == 0,
        nbuf@.len() == 0 ==> r@.len() == 0,
        nbuf@.len() > 0 ==> r@.len() > 0,
        params.spec_scan_chunk_size() is None ==> r@.len() <= nbuf@.len() + 1,
        params.spec_scan_chunk_size() is None && obuf@.len() == 0 && nbuf@.len() > 0 ==> r@ == seq![
            Match { add_old_start: 0, add_new_start: 0, add_length: 0, copy_end: nbuf@.len() as usize },
        ],
        params.spec_scan_chunk_size() is None ==> forall|i: int|
            0 <= i < r@.len() ==> is_bsdiff_cut(obuf@, nbuf@, #[trigger] r@[i]),
        params.spec_scan_chunk_size() is None ==> forall|i: int|
            0 <= i < r@.len() - 1 ==> cut_then(obuf@, nbuf@, #[trigger] r@[i], r@[i + 1].add_old_start as int),
        params.spec_scan_chunk_size() matches Some(c) ==> forall|i: int|
            0 <= i < r@.len() ==> in_one_chunk(#[trigger] r@[i], c as int),
{
    let sa = OldIndex::new(obuf, params.sort_partitions);
    match params.scan_chunk_size {
        None => scan_matches(obuf, nbuf, &sa),
        Some(chunk_size) => {
            let nlen = nbuf.len();
            let mut out: Vec<Match> = Vec::new();
            let mut start: usize = 0;
            let ghost mut index: int = 0;
            while start < nlen
                invariant
                    start == chunk_start(index, chunk_size as int) || start == nlen,
                    0 <= index,
                    forall|i: int| 0 <= i < out@.len() ==> in_one_chunk(#[trigger] out@[i], chunk_size as int),
                    sa.text() == obuf@,
                    obuf@.len() < i32::MAX,
                    nlen == nbuf@.len(),
                    nlen <= isize::MAX,
                    chunk_size >= 1,
                    start <= nlen,
                    nlen == 0 ==> out@.len() == 0,
                    tiles(out@, obuf@.len() as int, nlen as int, 0, start as int),
                    out@.len() > 0 ==> out@[0].add_old_start == 0,
                decreases nlen - start,
            {
                let end: usize = if nlen - start < chunk_size {
                    nlen
                } else {
                    start + chunk_size
                };
                let chunk = &nbuf[start..end];
                let ghost prev = out@;
                let ghost prev_len = out@.len() as int;
                let ms = scan_matches(obuf, chunk, &sa);
                append_shifted(
                    &mut out,
                    &ms,
                    start,
                    Ghost(obuf@.len() as int),
                    Ghost(nlen as int),
                    Ghost(end - start),
                );
                proof {
                    let o = out@;
                    assert(chunk_start(index + 1, chunk_size as int) == start + chunk_size) by (nonlinear_arith)
                        requires start == index * chunk_size;
                    assert forall|i: int| 0 <= i < o.len() implies in_one_chunk(#[trigger] o[i], chunk_size as int) by {
                        if i >= prev_len {
                            assert(cut_in_chunk(o[i], index, chunk_size as int));
                        } else {
                            assert(o[i] == prev[i]);
                        }
                    }
                    index = index + 1;
                }
                start = end;
            }
            out
        },
    }
}

} // verus!
