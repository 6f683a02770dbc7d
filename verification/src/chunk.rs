//! Content-defined chunking, and updates that write only what changed.
//!
//! The sizes are fixed: both ends must cut alike to find the same chunks. Only large files are
//! worth it.
use vstd::prelude::*;
use vstd::slice::slice_subrange;
use crate::bytes::patched;
use crate::hash::{blake3_hex, hash_hex};

verus! {

/// Files smaller than this are written whole.
pub const DELTA_MIN_SIZE: u64 = 4194304;

/// Files larger than this are not read into memory.
pub const DELTA_MEM_CAP: u64 = 1073741824;

pub const MIN_CHUNK: u32 = 16384;

pub const AVG_CHUNK: u32 = 65536;

pub const MAX_CHUNK: u32 = 262144;

/// One chunk of a file.
#[derive(Debug)]
pub struct ChunkInfo {
    pub off: u64,
    pub len: u32,
    pub hash: String,
}

/// A file, cut.
#[derive(Debug)]
pub struct FileChunks {
    pub rel: String,
    pub size: u64,
    /// The hash of the whole file.
    pub hash: String,
    pub chunks: Vec<ChunkInfo>,
}

pub struct ChunkModel {
    pub off: int,
    pub len: int,
    pub hash: Seq<char>,
}

impl View for ChunkInfo {
    type V = ChunkModel;

    open spec fn view(&self) -> ChunkModel {
        ChunkModel { off: self.off as int, len: self.len as int, hash: self.hash@ }
    }
}

pub open spec fn chunk_models(v: Seq<ChunkInfo>) -> Seq<ChunkModel> {
    Seq::new(v.len(), |i: int| v[i]@)
}

/// Where the chunks of some bytes begin and how long they are.
pub uninterp spec fn cuts(data: Seq<u8>, min: int, avg: int, max: int) -> Seq<(usize, usize)>;

/// The cuts lie end to end, from the beginning to the end, none empty and none longer than `max`.
pub open spec fn tiles(cuts: Seq<(usize, usize)>, len: int, max: int) -> bool {
    &&& forall|i: int| 0 <= i < cuts.len() ==> 1 <= (#[trigger] cuts[i]).1 <= max
    &&& forall|i: int, j: int|
        0 <= i && i + 1 == j && j < cuts.len() ==> (#[trigger] cuts[j]).0 == (#[trigger] cuts[i]).0
            + cuts[i].1
    &&& if cuts.len() == 0 {
        len == 0
    } else {
        cuts[0].0 == 0 && cuts.last().0 + cuts.last().1 == len
    }
}

/// `fastcdc::v2020::FastCDC`, iterated: offset and length of each chunk. They depend on the bytes
/// and on the three sizes alone. A chunk begins where the one before ends, is not empty and not
/// longer than the largest size, and the last one ends where the bytes end.
#[verifier::external_body]
fn fast_cuts(data: &[u8], min: u32, avg: u32, max: u32) -> (r: Vec<(usize, usize)>)
    requires
        64 <= min <= 1048576,
        256 <= avg <= 4194304,
        1024 <= max <= 16777216,
        min <= avg <= max,
    ensures
        r@ == cuts(data@, min as int, avg as int, max as int),
        tiles(r@, data@.len() as int, max as int),
{
    fastcdc::v2020::FastCDC::new(data, min, avg, max).map(|c| (c.offset, c.length)).collect()
}

pub open spec fn chunk_at(data: Seq<u8>, cut: (usize, usize)) -> ChunkModel {
    ChunkModel {
        off: cut.0 as int,
        len: cut.1 as int,
        hash: blake3_hex(data.subrange(cut.0 as int, cut.0 + cut.1)),
    }
}

pub open spec fn cut_chunks(data: Seq<u8>, cuts: Seq<(usize, usize)>) -> Seq<ChunkModel> {
    Seq::new(cuts.len(), |i: int| chunk_at(data, cuts[i]))
}

/// The chunks of some bytes.
pub open spec fn chunks_of(data: Seq<u8>) -> Seq<ChunkModel> {
    cut_chunks(data, cuts(data, MIN_CHUNK as int, AVG_CHUNK as int, MAX_CHUNK as int))
}

/// The chunks lie end to end and each carries the hash of its bytes.
pub open spec fn chunked(data: Seq<u8>, chunks: Seq<ChunkModel>) -> bool {
    &&& forall|i: int|
        0 <= i < chunks.len() ==> {
            let c = #[trigger] chunks[i];
            &&& 1 <= c.len <= MAX_CHUNK
            &&& 0 <= c.off && c.off + c.len <= data.len()
            &&& c.hash == blake3_hex(data.subrange(c.off, c.off + c.len))
        }
    &&& forall|i: int, j: int|
        0 <= i && i + 1 == j && j < chunks.len() ==> (#[trigger] chunks[j]).off == (
        #[trigger] chunks[i]).off + chunks[i].len
    &&& if chunks.len() == 0 {
        data.len() == 0
    } else {
        chunks[0].off == 0 && chunks.last().off + chunks.last().len == data.len()
    }
}

/// No cut reaches beyond the end.
proof fn lemma_tiles_bounded(cuts: Seq<(usize, usize)>, len: int, max: int, i: int)
    requires
        tiles(cuts, len, max),
        0 <= i < cuts.len(),
    ensures
        cuts[i].0 + cuts[i].1 <= len,
    decreases cuts.len() - i,
{
    if i + 1 < cuts.len() {
        lemma_tiles_bounded(cuts, len, max, i + 1);
        assert(cuts[i + 1].0 == cuts[i].0 + cuts[i].1);
    }
}

/// Cuts that lie end to end make chunks that do.
pub proof fn tiling_cuts_make_chunks(data: Seq<u8>, cuts: Seq<(usize, usize)>)
    requires
        tiles(cuts, data.len() as int, MAX_CHUNK as int),
    ensures
        chunked(data, cut_chunks(data, cuts)),
{
    let chunks = cut_chunks(data, cuts);
    assert forall|i: int| 0 <= i < chunks.len() implies {
        let c = #[trigger] chunks[i];
        &&& 1 <= c.len <= MAX_CHUNK
        &&& 0 <= c.off && c.off + c.len <= data.len()
        &&& c.hash == blake3_hex(data.subrange(c.off, c.off + c.len))
    } by {
        lemma_tiles_bounded(cuts, data.len() as int, MAX_CHUNK as int, i);
        assert(chunks[i] == chunk_at(data, cuts[i]));
    }
    assert forall|i: int, j: int| 0 <= i && i + 1 == j && j < chunks.len() implies (
    #[trigger] chunks[j]).off == (#[trigger] chunks[i]).off + chunks[i].len by {
        assert(chunks[i] == chunk_at(data, cuts[i]));
        assert(chunks[j] == chunk_at(data, cuts[j]));
    }
    if cuts.len() > 0 {
        assert(chunks.last() == chunk_at(data, cuts.last()));
    }
}

/// Hashes every chunk of a cutting.
pub fn hash_chunks(data: &[u8], cuts: &Vec<(usize, usize)>) -> (r: Vec<ChunkInfo>)
    requires
        tiles(cuts@, data@.len() as int, MAX_CHUNK as int),
    ensures
        chunk_models(r@) == cut_chunks(data@, cuts@),
        chunked(data@, chunk_models(r@)),
{
    let mut out: Vec<ChunkInfo> = Vec::new();
    let mut i: usize = 0;
    let n = data.len();
    while i < cuts.len()
        invariant
            i <= cuts@.len(),
            n == data@.len(),
            tiles(cuts@, data@.len() as int, MAX_CHUNK as int),
            out@.len() == i,
            forall|j: int| 0 <= j < i ==> (#[trigger] out@[j])@ == chunk_at(data@, cuts@[j]),
        decreases cuts@.len() - i,
    {
        let (off, len) = cuts[i];
        proof {
            lemma_tiles_bounded(cuts@, data@.len() as int, MAX_CHUNK as int, i as int);
        }
        let hash = hash_hex(slice_subrange(data, off, off + len));
        out.push(ChunkInfo { off: off as u64, len: len as u32, hash });
        i = i + 1;
    }
    proof {
        assert(chunk_models(out@) =~= cut_chunks(data@, cuts@));
        tiling_cuts_make_chunks(data@, cuts@);
    }
    out
}

/// Cuts bytes into chunks.
pub fn chunk_bytes(data: &[u8]) -> (r: Vec<ChunkInfo>)
    ensures
        chunk_models(r@) == chunks_of(data@),
        chunked(data@, chunk_models(r@)),
{
    let cuts = fast_cuts(data, MIN_CHUNK, AVG_CHUNK, MAX_CHUNK);
    hash_chunks(data, &cuts)
}

/// The chunks of a file whose content was read.
pub fn chunk_content(rel: &str, data: &[u8]) -> (r: FileChunks)
    ensures
        r.rel@ == rel@,
        r.size == data@.len(),
        r.hash@ == blake3_hex(data@),
        chunk_models(r.chunks@) == chunks_of(data@),
{
    FileChunks {
        rel: rel.to_owned(),
        size: data.len() as u64,
        hash: hash_hex(data),
        chunks: chunk_bytes(data),
    }
}

/// Whether an update of such sizes is done by chunks.
pub open spec fn by_chunks(new_len: u64, old_len: u64) -> bool {
    DELTA_MIN_SIZE <= new_len <= DELTA_MEM_CAP && old_len <= DELTA_MEM_CAP
}

pub fn delta_pays(new_len: u64, old_len: u64) -> (r: bool)
    ensures
        r == by_chunks(new_len, old_len),
{
    DELTA_MIN_SIZE <= new_len && new_len <= DELTA_MEM_CAP && old_len <= DELTA_MEM_CAP
}

/// The last chunk of that hash.
pub open spec fn last_of_hash(chunks: Seq<ChunkModel>, hash: Seq<char>) -> Option<ChunkModel>
    decreases chunks.len(),
{
    if chunks.len() == 0 {
        None
    } else if chunks.last().hash == hash {
        Some(chunks.last())
    } else {
        last_of_hash(chunks.drop_last(), hash)
    }
}

/// The chunk stands in the old file at the same place.
pub open spec fn in_place(old: Seq<ChunkModel>, c: ChunkModel) -> bool {
    last_of_hash(old, c.hash) matches Some(o) && o.off == c.off && o.len == c.len
}

/// The chunks that have to be written, in order.
pub open spec fn to_write(old: Seq<ChunkModel>, new: Seq<ChunkModel>) -> Seq<ChunkModel>
    decreases new.len(),
{
    if new.len() == 0 {
        Seq::empty()
    } else {
        let before = to_write(old, new.drop_last());
        if in_place(old, new.last()) {
            before
        } else {
            before.push(new.last())
        }
    }
}

/// The bytes that the chunks hold.
pub open spec fn weight(chunks: Seq<ChunkModel>) -> int
    decreases chunks.len(),
{
    if chunks.len() == 0 {
        0
    } else {
        weight(chunks.drop_last()) + chunks.last().len
    }
}

/// What to write over the old content to get the new one.
pub struct DeltaPlan {
    /// Place and length in the new content of every stretch to be written.
    pub writes: Vec<(u64, u32)>,
    pub written: u64,
    pub total: u64,
    /// The length to cut the file to, where it gets shorter.
    pub shrink_to: Option<u64>,
}

pub open spec fn stretches(chunks: Seq<ChunkModel>) -> Seq<(int, int)> {
    Seq::new(chunks.len(), |i: int| (chunks[i].off, chunks[i].len))
}

pub open spec fn plan_stretches(writes: Seq<(u64, u32)>) -> Seq<(int, int)> {
    Seq::new(writes.len(), |i: int| (writes[i].0 as int, writes[i].1 as int))
}

fn stays(old: &Vec<ChunkInfo>, c: &ChunkInfo) -> (r: bool)
    ensures
        r == in_place(chunk_models(old@), c@),
{
    let ghost models = chunk_models(old@);
    let mut i: usize = old.len();
    assert(models.take(models.len() as int) =~= models);
    while i > 0
        invariant
            i <= old@.len(),
            models == chunk_models(old@),
            last_of_hash(models, c.hash@) == last_of_hash(models.take(i as int), c.hash@),
        decreases i,
    {
        i = i - 1;
        proof {
            assert(models.take(i as int + 1).drop_last() =~= models.take(i as int));
            assert(models.take(i as int + 1).last() == old@[i as int]@);
        }
        if old[i].hash == c.hash {
            return old[i].off == c.off && old[i].len == c.len;
        }
    }
    false
}

/// What weighs the chunks of some bytes: all of them together weigh as much as the bytes.
proof fn lemma_weight(data: Seq<u8>, chunks: Seq<ChunkModel>, n: int)
    requires
        chunked(data, chunks),
        0 <= n <= chunks.len(),
    ensures
        weight(chunks.take(n)) == if n == 0 {
            0
        } else {
            chunks[n - 1].off + chunks[n - 1].len
        },
    decreases n,
{
    if n > 0 {
        lemma_weight(data, chunks, n - 1);
        assert(chunks.take(n).drop_last() =~= chunks.take(n - 1));
        assert(chunks.take(n).last() == chunks[n - 1]);
    } else {
        assert(chunks.take(0) =~= Seq::<ChunkModel>::empty());
    }
}

/// The plan of an update, from the chunks of both contents.
pub fn plan_chunks(
    old_chunks: &Vec<ChunkInfo>,
    new_chunks: &Vec<ChunkInfo>,
    old_len: u64,
    new_len: u64,
) -> (r: DeltaPlan)
    requires
        exists|new: Seq<u8>|
            new.len() == new_len && #[trigger] chunked(new, chunk_models(new_chunks@)),
    ensures
        ({
            let w = to_write(chunk_models(old_chunks@), chunk_models(new_chunks@));
            &&& plan_stretches(r.writes@) == stretches(w)
            &&& r.written == weight(w)
            &&& r.written <= new_len
            &&& r.total == new_len
            &&& r.shrink_to == if new_len < old_len {
                Some(new_len)
            } else {
                None
            }
        }),
{
    let ghost o = chunk_models(old_chunks@);
    let ghost n = chunk_models(new_chunks@);
    let ghost new = choose|new: Seq<u8>| new.len() == new_len && #[trigger] chunked(new, n);
    let mut writes: Vec<(u64, u32)> = Vec::new();
    let mut written: u64 = 0;
    let mut i: usize = 0;
    proof {
        assert(n.take(0) =~= Seq::<ChunkModel>::empty());
        assert(plan_stretches(writes@) =~= stretches(to_write(o, n.take(0))));
    }
    while i < new_chunks.len()
        invariant
            i <= new_chunks@.len(),
            o == chunk_models(old_chunks@),
            n == chunk_models(new_chunks@),
            new.len() == new_len,
            chunked(new, n),
            plan_stretches(writes@) == stretches(to_write(o, n.take(i as int))),
            written == weight(to_write(o, n.take(i as int))),
            written <= weight(n.take(i as int)),
        decreases new_chunks@.len() - i,
    {
        let c = &new_chunks[i];
        let ghost w = to_write(o, n.take(i as int));
        proof {
            assert(n.take(i as int + 1).drop_last() =~= n.take(i as int));
            assert(n.take(i as int + 1).last() == c@);
            assert(n[i as int] == c@);
            lemma_weight(new, n, i as int + 1);
            assert(c@.off + c@.len <= new.len());
        }
        if !stays(old_chunks, c) {
            proof {
                assert(w.push(c@).drop_last() =~= w);
                assert(plan_stretches(writes@.push((c.off, c.len))) =~= plan_stretches(writes@).push(
                    (c@.off, c@.len),
                ));
                assert(stretches(w.push(c@)) =~= stretches(w).push((c@.off, c@.len)));
            }
            writes.push((c.off, c.len));
            written = written + c.len as u64;
        }
        i = i + 1;
    }
    proof {
        assert(n.take(n.len() as int) =~= n);
        lemma_weight(new, n, n.len() as int);
    }
    let shrink_to = if new_len < old_len {
        Some(new_len)
    } else {
        None
    };
    DeltaPlan { writes, written, total: new_len, shrink_to }
}

/// The plan of an update from one content to the other.
pub fn plan_delta(old: &[u8], new: &[u8]) -> (r: DeltaPlan)
    ensures
        ({
            let w = to_write(chunks_of(old@), chunks_of(new@));
            &&& plan_stretches(r.writes@) == stretches(w)
            &&& r.written == weight(w)
            &&& r.written <= new@.len()
            &&& r.total == new@.len()
            &&& r.shrink_to == if new@.len() < old@.len() {
                Some(new@.len() as u64)
            } else {
                None
            }
        }),
{
    let a = chunk_bytes(old);
    let b = chunk_bytes(new);
    plan_chunks(&a, &b, old.len() as u64, new.len() as u64)
}

/// The old content with the stretches of the new one laid over it.
pub open spec fn overlaid(old: Seq<u8>, new: Seq<u8>, writes: Seq<(int, int)>) -> Seq<u8>
    decreases writes.len(),
{
    if writes.len() == 0 {
        old
    } else {
        let w = writes.last();
        patched(
            overlaid(old, new, writes.drop_last()),
            w.0,
            new.subrange(w.0, w.0 + w.1),
        )
    }
}

/// Cut to a length, where it is longer.
pub open spec fn cut_to(data: Seq<u8>, len: Option<u64>) -> Seq<u8> {
    match len {
        Some(n) => if n < data.len() {
            data.take(n as int)
        } else {
            data
        },
        None => data,
    }
}

/// Chunks of one hash hold the same bytes.
pub open spec fn hashes_tell_apart(
    old: Seq<u8>,
    oc: Seq<ChunkModel>,
    new: Seq<u8>,
    nc: Seq<ChunkModel>,
) -> bool {
    forall|i: int, j: int|
        0 <= i < oc.len() && 0 <= j < nc.len() && (#[trigger] oc[i]).hash == (#[trigger] nc[j]).hash
            ==> old.subrange(oc[i].off, oc[i].off + oc[i].len) == new.subrange(
            nc[j].off,
            nc[j].off + nc[j].len,
        )
}

proof fn lemma_last_of_hash(chunks: Seq<ChunkModel>, hash: Seq<char>) -> (i: int)
    ensures
        match last_of_hash(chunks, hash) {
            Some(c) => 0 <= i < chunks.len() && chunks[i] == c && c.hash == hash,
            None => true,
        },
    decreases chunks.len(),
{
    if chunks.len() == 0 {
        0
    } else if chunks.last().hash == hash {
        chunks.len() - 1
    } else {
        lemma_last_of_hash(chunks.drop_last(), hash)
    }
}

/// After the first `n` chunks were seen to, everything up to their end is new, and the rest is old.
proof fn lemma_overlaid(
    old: Seq<u8>,
    oc: Seq<ChunkModel>,
    new: Seq<u8>,
    nc: Seq<ChunkModel>,
    n: int,
)
    requires
        chunked(old, oc),
        chunked(new, nc),
        hashes_tell_apart(old, oc, new, nc),
        0 <= n <= nc.len(),
    ensures
        ({
            let end = if n == 0 {
                0
            } else {
                nc[n - 1].off + nc[n - 1].len
            };
            let out = overlaid(old, new, stretches(to_write(oc, nc.take(n))));
            &&& out.len() == if old.len() < end {
                end
            } else {
                old.len() as int
            }
            &&& forall|k: int| 0 <= k < end ==> out[k] == new[k]
            &&& forall|k: int| end <= k < out.len() ==> out[k] == old[k]
        }),
    decreases n,
{
    let w = to_write(oc, nc.take(n));
    if n == 0 {
        assert(nc.take(0) =~= Seq::<ChunkModel>::empty());
        assert(stretches(w) =~= Seq::<(int, int)>::empty());
    } else {
        lemma_overlaid(old, oc, new, nc, n - 1);
        let c = nc[n - 1];
        let before = to_write(oc, nc.take(n - 1));
        let was = overlaid(old, new, stretches(before));
        assert(nc.take(n).drop_last() =~= nc.take(n - 1));
        assert(nc.take(n).last() == c);
        if n > 1 {
            assert(c.off == nc[n - 2].off + nc[n - 2].len);
        }
        if in_place(oc, c) {
            let i = lemma_last_of_hash(oc, c.hash);
            assert(oc[i].off == c.off && oc[i].len == c.len);
            let x = old.subrange(c.off, c.off + c.len);
            let y = new.subrange(c.off, c.off + c.len);
            assert(oc[i].hash == nc[n - 1].hash);
            assert(x == y);
            assert forall|k: int| c.off <= k < c.off + c.len implies was[k] == new[k] by {
                assert(x[k - c.off] == y[k - c.off]);
            }
        } else {
            let now = stretches(before.push(c));
            assert(now.drop_last() =~= stretches(before));
            assert(now.last() == (c.off, c.len));
        }
    }
}

/// Laying the planned stretches over the old content, and cutting it where it gets shorter, gives the
/// new content exactly, as long as chunks of one hash hold the same bytes.
pub proof fn a_delta_rebuilds_the_new_content(
    old: Seq<u8>,
    oc: Seq<ChunkModel>,
    new: Seq<u8>,
    nc: Seq<ChunkModel>,
)
    requires
        chunked(old, oc),
        chunked(new, nc),
        hashes_tell_apart(old, oc, new, nc),
        new.len() <= u64::MAX,
    ensures
        cut_to(
            overlaid(old, new, stretches(to_write(oc, nc))),
            if new.len() < old.len() {
                Some(new.len() as u64)
            } else {
                None
            },
        ) == new,
{
    lemma_overlaid(old, oc, new, nc, nc.len() as int);
    assert(nc.take(nc.len() as int) =~= nc);
    let out = overlaid(old, new, stretches(to_write(oc, nc)));
    if new.len() < old.len() {
        assert(out.take(new.len() as int) =~= new);
    } else {
        assert(out =~= new);
    }
}

/// An update to the same content writes nothing.
pub proof fn an_unchanged_file_writes_nothing(data: Seq<u8>, chunks: Seq<ChunkModel>)
    requires
        chunked(data, chunks),
        forall|i: int, j: int|
            0 <= i < j < chunks.len() ==> (#[trigger] chunks[i]).hash != (#[trigger] chunks[j]).hash,
    ensures
        to_write(chunks, chunks).len() == 0,
{
    lemma_nothing_to_write(chunks, chunks.len() as int);
    assert(chunks.take(chunks.len() as int) =~= chunks);
}

proof fn lemma_nothing_to_write(chunks: Seq<ChunkModel>, n: int)
    requires
        0 <= n <= chunks.len(),
        forall|i: int, j: int|
            0 <= i < j < chunks.len() ==> (#[trigger] chunks[i]).hash != (#[trigger] chunks[j]).hash,
    ensures
        to_write(chunks, chunks.take(n)).len() == 0,
    decreases n,
{
    if n > 0 {
        lemma_nothing_to_write(chunks, n - 1);
        assert(chunks.take(n).drop_last() =~= chunks.take(n - 1));
        lemma_found(chunks, n - 1, chunks.len() as int);
        assert(chunks.take(chunks.len() as int) =~= chunks);
    }
}

proof fn lemma_found(chunks: Seq<ChunkModel>, k: int, n: int)
    requires
        0 <= k < n <= chunks.len(),
        forall|i: int, j: int|
            0 <= i < j < chunks.len() ==> (#[trigger] chunks[i]).hash != (#[trigger] chunks[j]).hash,
    ensures
        last_of_hash(chunks.take(n), chunks[k].hash) == Some(chunks[k]),
    decreases n,
{
    assert(chunks.take(n).last() == chunks[n - 1]);
    if k < n - 1 {
        lemma_found(chunks, k, n - 1);
        assert(chunks.take(n).drop_last() =~= chunks.take(n - 1));
    }
}

/// What is written is exactly what changed its place or its content: a chunk that stands nowhere in the
/// old file as it does in the new one is written, and what is written is a chunk of the new file that the
/// last old chunk of its hash does not match in place and length.
pub proof fn only_what_changed_is_written(old: Seq<ChunkModel>, new: Seq<ChunkModel>, c: ChunkModel)
    ensures
        new.contains(c) && !old.contains(c) ==> to_write(old, new).contains(c),
        to_write(old, new).contains(c) ==> new.contains(c),
        to_write(old, new).contains(c) && old.contains(c) ==> exists|i: int|
            0 <= i < old.len() && (#[trigger] old[i]).hash == c.hash && old[i] != c,
    decreases new.len(),
{
    if new.len() > 0 {
        let less = new.drop_last();
        let last = new.last();
        let before = to_write(old, less);
        only_what_changed_is_written(old, less, c);
        assert(new =~= less.push(last));
        assert(new[less.len() as int] == last);
        let i = lemma_last_of_hash(old, last.hash);
        if new.contains(c) && !old.contains(c) {
            if less.contains(c) {
                let k = choose|k: int| 0 <= k < before.len() && before[k] == c;
                assert(to_write(old, new)[k] == c);
            } else {
                assert(last == c) by {
                    let k = choose|k: int| 0 <= k < new.len() && new[k] == c;
                    if k < less.len() {
                        assert(less[k] == c);
                    }
                }
                if in_place(old, c) {
                    assert(old[i] == c);
                }
                assert(to_write(old, new)[before.len() as int] == c);
            }
        }
        if to_write(old, new).contains(c) {
            let k = choose|k: int| 0 <= k < to_write(old, new).len() && to_write(old, new)[k] == c;
            if k < before.len() {
                assert(before[k] == c);
                let j = choose|j: int| 0 <= j < less.len() && less[j] == c;
                assert(new[j] == c);
            } else {
                assert(c == last);
                assert(!in_place(old, c));
                if old.contains(c) {
                    lemma_last_is_found(old, c);
                    assert(old[i].hash == c.hash && old[i] != c);
                }
            }
        }
    }
}

proof fn lemma_last_is_found(chunks: Seq<ChunkModel>, c: ChunkModel)
    requires
        chunks.contains(c),
    ensures
        last_of_hash(chunks, c.hash) is Some,
    decreases chunks.len(),
{
    let k = choose|k: int| 0 <= k < chunks.len() && chunks[k] == c;
    if chunks.last().hash != c.hash {
        assert(chunks.drop_last()[k] == c);
        lemma_last_is_found(chunks.drop_last(), c);
    }
}

/// Files below four mebibytes are copied whole, and so is what would not fit into one gibibyte of memory.
pub proof fn small_and_huge_files_are_copied_whole(new_len: u64, old_len: u64)
    ensures
        new_len < 4 * 1024 * 1024 ==> !by_chunks(new_len, old_len),
        new_len > 1024 * 1024 * 1024 || old_len > 1024 * 1024 * 1024 ==> !by_chunks(new_len, old_len),
        4 * 1024 * 1024 <= new_len <= 1024 * 1024 * 1024 && old_len <= 1024 * 1024 * 1024 ==> by_chunks(
            new_len,
            old_len,
        ),
{
}

/// The chunks lie end to end: what they weigh together is the length of the content.
pub proof fn chunks_weigh_what_the_content_does(data: Seq<u8>, chunks: Seq<ChunkModel>)
    requires
        chunked(data, chunks),
    ensures
        weight(chunks) == data.len(),
{
    lemma_weight(data, chunks, chunks.len() as int);
    assert(chunks.take(chunks.len() as int) =~= chunks);
}

} // verus!
