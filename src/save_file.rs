use vstd::prelude::*;

use crate::bytes::{i32_at, i32_le, push_i32, push_u32, read_i32, read_u32, u32_at};
use crate::chunk::{encoding_of, expand, is_maximal, Chunk, CompressedSet};
use crate::save_format::{
    chunk_record, chunk_records, decode_records, decode_runs, decode_world_data,
    lemma_chunk_records_push, lemma_placement_records_push, lemma_runs_bytes_push,
    placement_record, placement_records, prepend, runs_bytes, world_data_bytes, SaveError,
    CHUNK_TAG, PLACEMENT_TAG, SAVE_FORMAT_VERSION,
};
use crate::vector_types::Vec2;
use crate::vector_types::Vec3;
use crate::world::BlockToPlace;

verus! {

/// Relies on rand::random: it returns some value of the requested type,
/// drawn from the thread-local generator; nothing more is known of it.
pub assume_specification<T>[ rand::random::<T> ]() -> (r: T)
    where
        rand::distributions::Standard: rand::distributions::Distribution<T>,
;

/// The persisted runs of one chunk.
pub struct ChunkInfo {
    pub position: Vec3<i32>,
    pub data: Vec<CompressedSet>,
}

impl View for ChunkInfo {
    type V = (Vec3<i32>, Seq<CompressedSet>);

    open spec fn view(&self) -> (Vec3<i32>, Seq<CompressedSet>) {
        (self.position, self.data@)
    }
}

/// Entry `i` is the first entry of `chunks` saved at `p`.
pub open spec fn is_first_saved(chunks: Seq<(Vec3<i32>, Seq<CompressedSet>)>, p: Vec3<i32>, i: int) -> bool {
    &&& 0 <= i < chunks.len()
    &&& chunks[i].0 == p
    &&& forall|j: int| 0 <= j < i ==> (#[trigger] chunks[j]).0 != p
}

/// The runs saved for the chunk at `p`: those of the first entry at `p`.
pub open spec fn saved_runs(chunks: Seq<(Vec3<i32>, Seq<CompressedSet>)>, p: Vec3<i32>) -> Option<
    Seq<CompressedSet>,
> {
    if exists|i: int| is_first_saved(chunks, p, i) {
        Some(chunks[choose|i: int| is_first_saved(chunks, p, i)].1)
    } else {
        None
    }
}

/// A save directory is usable: not empty, free of `\`, and without a trailing `/`.
pub open spec fn is_valid_save_directory(dir: Seq<char>) -> bool {
    &&& dir.len() > 0
    &&& !dir.contains('\\')
    &&& dir.last() != '/'
}

/// Checks a save directory path.
pub fn check_save_directory(dir: &String) -> (r: bool)
    ensures
        r == is_valid_save_directory(dir@),
{
    let s = dir.as_str();
    let n = s.unicode_len();
    if n == 0 {
        return false;
    }
    let mut i: usize = 0;
    while i < n
        invariant
            n == dir@.len(),
            s@ == dir@,
            i <= n,
            forall|j: int| 0 <= j < i ==> dir@[j] != '\\',
        decreases n - i,
    {
        if s.get_char(i) == '\\' {
            return false;
        }
        i += 1;
    }
    s.get_char(n - 1) != '/'
}

/// The in-memory image of a world's save: its seed, the runs of every
/// chunk saved so far, and the recorded out-of-column placements.
pub struct SaveFile {
    /// Where the save lives, without a trailing slash; `None` for a world
    /// that is never written.
    save_directory: Option<String>,
    world_seed: i32,
    chunk_data: Vec<ChunkInfo>,
    block_to_place: Vec<BlockToPlace>,
}

impl SaveFile {
    /// The saved chunks, in the order they were first saved or loaded.
    pub closed spec fn chunks(&self) -> Seq<(Vec3<i32>, Seq<CompressedSet>)> {
        self.chunk_data@.map_values(|c: ChunkInfo| c@)
    }

    /// No saved chunk holds more runs than its record can count.
    pub open spec fn wf(&self) -> bool {
        forall|i: int| 0 <= i < self.chunks().len() ==> (#[trigger] self.chunks()[i]).1.len() <= u32::MAX
    }

    /// Where the save lives.
    pub closed spec fn directory(&self) -> Option<String> {
        self.save_directory
    }

    /// The world's seed.
    pub closed spec fn seed(&self) -> i32 {
        self.world_seed
    }

    /// The recorded out-of-column placements.
    pub closed spec fn placements(&self) -> Seq<BlockToPlace> {
        self.block_to_place@
    }

    /// Where the save lives; `None` for a world that is never written.
    pub fn save_directory(&self) -> (r: &Option<String>)
        ensures
            *r == self.directory(),
    {
        &self.save_directory
    }

    /// The world's seed.
    pub fn world_seed(&self) -> (r: i32)
        ensures
            r == self.seed(),
    {
        self.world_seed
    }

    /// An empty save with a random seed.
    pub fn new(directory: Option<String>) -> (r: SaveFile)
        requires
            match directory {
                Some(d) => is_valid_save_directory(d@),
                None => true,
            },
        ensures
            r.directory() == directory,
            r.chunks() == Seq::<(Vec3<i32>, Seq<CompressedSet>)>::empty(),
            r.placements() == Seq::<BlockToPlace>::empty(),
            r.wf(),
    {
        let r = SaveFile {
            save_directory: directory,
            world_seed: rand::random::<i32>(),
            chunk_data: Vec::new(),
            block_to_place: Vec::new(),
        };
        assert(r.chunks() =~= Seq::<(Vec3<i32>, Seq<CompressedSet>)>::empty());
        r
    }

    /// An empty save with the given seed.
    pub fn with_seed(directory: Option<String>, world_seed: i32) -> (r: SaveFile)
        ensures
            r.directory() == directory,
            r.seed() == world_seed,
            r.chunks() == Seq::<(Vec3<i32>, Seq<CompressedSet>)>::empty(),
            r.placements() == Seq::<BlockToPlace>::empty(),
            r.wf(),
    {
        let r = SaveFile {
            save_directory: directory,
            world_seed,
            chunk_data: Vec::new(),
            block_to_place: Vec::new(),
        };
        assert(r.chunks() =~= Seq::<(Vec3<i32>, Seq<CompressedSet>)>::empty());
        r
    }

    /// The saved runs of the chunk at `position`, if any were saved.
    pub fn get_chunk(&self, position: Vec3<i32>) -> (r: Option<&ChunkInfo>)
        ensures
            match r {
                Some(c) => c.position == position && saved_runs(self.chunks(), position) == Some(
                    c.data@,
                ),
                None => saved_runs(self.chunks(), position) is None,
            },
    {
        let mut i: usize = 0;
        while i < self.chunk_data.len()
            invariant
                i <= self.chunks().len(),
                self.chunks().len() == self.chunk_data@.len(),
                forall|j: int| 0 <= j < i ==> (#[trigger] self.chunks()[j]).0 != position,
            decreases self.chunk_data@.len() - i,
        {
            let c = &self.chunk_data[i];
            if c.position.x == position.x && c.position.y == position.y && c.position.z
                == position.z {
                proof {
                    assert(is_first_saved(self.chunks(), position, i as int));
                    lemma_first_saved_unique(self.chunks(), position, i as int);
                }
                return Some(c);
            }
            i += 1;
        }
        proof {
            assert forall|k: int| !is_first_saved(self.chunks(), position, k) by {
                if 0 <= k < self.chunks().len() {
                    assert(self.chunks()[k].0 != position);
                }
            }
        }
        None
    }

    /// Stores the compressed blocks of `chunk` as the last entry, dropping
    /// what was saved at its position before; the other entries keep their
    /// order.
    pub fn save_chunk_data(&mut self, chunk: &Chunk)
        requires
            chunk.wf(),
        ensures
            final(self).directory() == old(self).directory(),
            final(self).seed() == old(self).seed(),
            final(self).placements() == old(self).placements(),
            final(self).chunks() == save_one(old(self).chunks(), chunk.spec_position(), chunk@),
            unique_positions(old(self).chunks()) ==> unique_positions(final(self).chunks()),
            old(self).wf() ==> final(self).wf(),
            match saved_runs(final(self).chunks(), chunk.spec_position()) {
                Some(runs) => expand(runs) == chunk@ && is_maximal(runs),
                None => false,
            },
            forall|p: Vec3<i32>|
                p != chunk.spec_position() ==> #[trigger] saved_runs(final(self).chunks(), p)
                    == saved_runs(old(self).chunks(), p),
    {
        let position = chunk.position();
        let data = chunk.compress();
        let ghost runs = data@;
        let ghost orig = self.chunks();
        let ghost mut j: int = 0;
        let mut i: usize = 0;
        while i < self.chunk_data.len()
            invariant
                orig == old(self).chunks(),
                self.save_directory == old(self).save_directory,
                self.world_seed == old(self).world_seed,
                self.block_to_place == old(self).block_to_place,
                0 <= j <= orig.len(),
                self.chunks() == entries_elsewhere(orig.take(j), position) + orig.skip(j),
                i == entries_elsewhere(orig.take(j), position).len(),
                self.chunks().len() == self.chunk_data@.len(),
            decreases self.chunk_data@.len() - i,
        {
            let ghost prefix = entries_elsewhere(orig.take(j), position);
            proof {
                assert(orig.take(j + 1).drop_last() =~= orig.take(j));
                assert(self.chunks()[i as int] == orig[j]);
            }
            let c = &self.chunk_data[i];
            if c.position.x == position.x && c.position.y == position.y && c.position.z
                == position.z {
                let ghost before = self.chunks();
                let _removed = self.chunk_data.remove(i);
                proof {
                    assert(self.chunks() =~= before.remove(i as int));
                    assert(before.remove(i as int) =~= prefix + orig.skip(j + 1));
                }
            } else {
                proof {
                    assert(prefix.push(orig[j]) + orig.skip(j + 1) =~= prefix + orig.skip(j));
                }
                i += 1;
            }
            proof {
                j = j + 1;
            }
        }
        proof {
            assert(orig.take(j) =~= orig);
            assert(orig.skip(j) =~= Seq::<(Vec3<i32>, Seq<CompressedSet>)>::empty());
            assert(self.chunks() =~= entries_elsewhere(orig, position));
        }
        let ghost kept = self.chunks();
        self.chunk_data.push(ChunkInfo { position, data });
        proof {
            assert(self.chunks() =~= kept.push((position, runs)));
            lemma_elsewhere_has_none(orig, position);
            lemma_saved_runs_push(kept, position, runs);
            lemma_saved_runs_elsewhere(orig, position);
            if unique_positions(orig) {
                lemma_elsewhere_unique(orig, position);
            }
            lemma_elsewhere_wf(orig, position);
        }
    }
}

/// The entries after the chunk at `p` holding `blocks` is saved: earlier
/// entries at `p` are dropped and its maximal runs come last.
pub open spec fn save_one(chunks: Seq<(Vec3<i32>, Seq<CompressedSet>)>, p: Vec3<i32>, blocks: Seq<i32>) -> Seq<
    (Vec3<i32>, Seq<CompressedSet>),
> {
    entries_elsewhere(chunks, p).push((p, encoding_of(blocks)))
}

/// The entries of `chunks` at positions other than `p`, in order.
pub open spec fn entries_elsewhere(chunks: Seq<(Vec3<i32>, Seq<CompressedSet>)>, p: Vec3<i32>) -> Seq<
    (Vec3<i32>, Seq<CompressedSet>),
>
    decreases chunks.len(),
{
    if chunks.len() == 0 {
        chunks
    } else {
        let before = entries_elsewhere(chunks.drop_last(), p);
        if chunks.last().0 == p {
            before
        } else {
            before.push(chunks.last())
        }
    }
}

/// No two entries are saved at one position.
pub open spec fn unique_positions(chunks: Seq<(Vec3<i32>, Seq<CompressedSet>)>) -> bool {
    forall|i: int, j: int| 0 <= i < j < chunks.len() ==> #[trigger] chunks[i].0 != #[trigger] chunks[j].0
}

proof fn lemma_elsewhere_has_none(chunks: Seq<(Vec3<i32>, Seq<CompressedSet>)>, p: Vec3<i32>)
    ensures
        forall|i: int|
            0 <= i < entries_elsewhere(chunks, p).len() ==> (#[trigger] entries_elsewhere(chunks, p)[i]).0
                != p,
    decreases chunks.len(),
{
    if chunks.len() > 0 {
        lemma_elsewhere_has_none(chunks.drop_last(), p);
        let before = entries_elsewhere(chunks.drop_last(), p);
        let e = entries_elsewhere(chunks, p);
        assert forall|i: int| 0 <= i < before.len() implies e[i] == before[i] by {
            if chunks.last().0 != p {
                assert(before.push(chunks.last())[i] == before[i]);
            }
        }
    }
}

/// Without a first entry at `q`, no entry of the first `n` is at `q`.
proof fn lemma_none_saved(chunks: Seq<(Vec3<i32>, Seq<CompressedSet>)>, q: Vec3<i32>, n: int)
    requires
        0 <= n <= chunks.len(),
        !exists|i: int| is_first_saved(chunks, q, i),
    ensures
        forall|j: int| 0 <= j < n ==> (#[trigger] chunks[j]).0 != q,
    decreases n,
{
    if n > 0 {
        lemma_none_saved(chunks, q, n - 1);
        if chunks[n - 1].0 == q {
            assert(is_first_saved(chunks, q, n - 1));
        }
    }
}

/// Every kept entry is an entry of `chunks`.
proof fn lemma_elsewhere_from(chunks: Seq<(Vec3<i32>, Seq<CompressedSet>)>, p: Vec3<i32>)
    ensures
        forall|i: int|
            0 <= i < entries_elsewhere(chunks, p).len() ==> exists|j: int|
                0 <= j < chunks.len() && chunks[j] == #[trigger] entries_elsewhere(chunks, p)[i],
    decreases chunks.len(),
{
    if chunks.len() > 0 {
        let init = chunks.drop_last();
        lemma_elsewhere_from(init, p);
        let e = entries_elsewhere(chunks, p);
        assert forall|i: int| 0 <= i < e.len() implies exists|j: int|
            0 <= j < chunks.len() && chunks[j] == #[trigger] e[i] by {
            if i < entries_elsewhere(init, p).len() {
                let j = choose|j: int| 0 <= j < init.len() && init[j] == entries_elsewhere(init, p)[i];
                assert(chunks[j] == init[j]);
            } else {
                assert(chunks[chunks.len() - 1] == e[i]);
            }
        }
    }
}

proof fn lemma_elsewhere_unique(chunks: Seq<(Vec3<i32>, Seq<CompressedSet>)>, p: Vec3<i32>)
    requires
        unique_positions(chunks),
    ensures
        unique_positions(entries_elsewhere(chunks, p).push((p, Seq::<CompressedSet>::empty()))),
        forall|r: Seq<CompressedSet>| #[trigger] unique_positions(entries_elsewhere(chunks, p).push((p, r))),
    decreases chunks.len(),
{
    let init = chunks.drop_last();
    let e = entries_elsewhere(chunks, p);
    lemma_elsewhere_has_none(chunks, p);
    if chunks.len() > 0 {
        assert forall|i: int, j: int| 0 <= i < j < init.len() implies #[trigger] init[i].0
            != #[trigger] init[j].0 by {
            assert(init[i] == chunks[i] && init[j] == chunks[j]);
        }
        lemma_elsewhere_unique(init, p);
        lemma_elsewhere_from(init, p);
        let ei = entries_elsewhere(init, p);
        assert(unique_positions(ei.push((p, Seq::<CompressedSet>::empty()))));
        assert forall|i: int, j: int| 0 <= i < j < e.len() implies #[trigger] e[i].0 != #[trigger] e[j].0 by {
            if j < ei.len() {
                assert(ei.push((p, Seq::<CompressedSet>::empty()))[i] == ei[i]);
                assert(ei.push((p, Seq::<CompressedSet>::empty()))[j] == ei[j]);
            } else {
                let k = choose|k: int| 0 <= k < init.len() && init[k] == ei[i];
                assert(chunks[k] == init[k]);
                assert(chunks[k].0 != chunks[chunks.len() - 1].0);
            }
        }
    }
    assert forall|r: Seq<CompressedSet>| #[trigger] unique_positions(e.push((p, r))) by {
        let s = e.push((p, r));
        assert forall|i: int, j: int| 0 <= i < j < s.len() implies #[trigger] s[i].0 != #[trigger] s[j].0 by {
            if j < e.len() {
                assert(s[i] == e[i] && s[j] == e[j]);
            } else {
                assert(s[i] == e[i]);
            }
        }
    }
}

#[verifier::rlimit(30)]
proof fn lemma_saved_runs_push_any(
    chunks: Seq<(Vec3<i32>, Seq<CompressedSet>)>,
    x: (Vec3<i32>, Seq<CompressedSet>),
    q: Vec3<i32>,
)
    ensures
        saved_runs(chunks.push(x), q) == if saved_runs(chunks, q) is Some {
            saved_runs(chunks, q)
        } else if x.0 == q {
            Some(x.1)
        } else {
            None
        },
{
    let s = chunks.push(x);
    if exists|i: int| is_first_saved(chunks, q, i) {
        let i = choose|i: int| is_first_saved(chunks, q, i);
        lemma_first_saved_unique(chunks, q, i);
        assert forall|j: int| 0 <= j < i implies #[trigger] chunks[j] == s[j] by {}
        assert(is_first_saved(s, q, i));
        lemma_first_saved_unique(s, q, i);
    } else {
        lemma_none_saved(chunks, q, chunks.len() as int);
        if x.0 == q {
            assert(is_first_saved(s, q, chunks.len() as int));
            lemma_first_saved_unique(s, q, chunks.len() as int);
        } else {
            assert forall|i: int| !is_first_saved(s, q, i) by {
                if 0 <= i < s.len() && s[i].0 == q {
                    assert(i < chunks.len());
                    assert(chunks[i] == s[i]);
                }
            }
        }
    }
}

proof fn lemma_saved_runs_elsewhere(chunks: Seq<(Vec3<i32>, Seq<CompressedSet>)>, p: Vec3<i32>)
    ensures
        forall|q: Vec3<i32>|
            q != p ==> #[trigger] saved_runs(entries_elsewhere(chunks, p), q) == saved_runs(chunks, q),
    decreases chunks.len(),
{
    if chunks.len() > 0 {
        let init = chunks.drop_last();
        let x = chunks.last();
        lemma_saved_runs_elsewhere(init, p);
        assert(init.push(x) =~= chunks);
        assert forall|q: Vec3<i32>| q != p implies #[trigger] saved_runs(entries_elsewhere(chunks, p), q)
            == saved_runs(chunks, q) by {
            lemma_saved_runs_push_any(init, x, q);
            if x.0 != p {
                lemma_saved_runs_push_any(entries_elsewhere(init, p), x, q);
            }
        }
    } else {
        assert(entries_elsewhere(chunks, p) == chunks);
    }
}

proof fn lemma_elsewhere_wf(chunks: Seq<(Vec3<i32>, Seq<CompressedSet>)>, p: Vec3<i32>)
    ensures
        (forall|i: int| 0 <= i < chunks.len() ==> (#[trigger] chunks[i]).1.len() <= u32::MAX) ==> (
        forall|i: int|
            0 <= i < entries_elsewhere(chunks, p).len() ==> (#[trigger] entries_elsewhere(
                chunks,
                p,
            )[i]).1.len() <= u32::MAX),
{
    lemma_elsewhere_from(chunks, p);
}

proof fn lemma_first_saved_unique(chunks: Seq<(Vec3<i32>, Seq<CompressedSet>)>, p: Vec3<i32>, i: int)
    requires
        is_first_saved(chunks, p, i),
    ensures
        saved_runs(chunks, p) == Some(chunks[i].1),
{
    let k = choose|k: int| is_first_saved(chunks, p, k);
    assert(is_first_saved(chunks, p, k));
    if k < i {
        assert(chunks[k].0 != p);
    } else if k > i {
        assert(chunks[i].0 != p);
    }
}

/// Appending runs for a position that has none saved makes them its runs.
proof fn lemma_saved_runs_push(
    chunks: Seq<(Vec3<i32>, Seq<CompressedSet>)>,
    p: Vec3<i32>,
    runs: Seq<CompressedSet>,
)
    requires
        forall|j: int| 0 <= j < chunks.len() ==> (#[trigger] chunks[j]).0 != p,
    ensures
        saved_runs(chunks.push((p, runs)), p) == Some(runs),
        forall|q: Vec3<i32>| q != p ==> #[trigger] saved_runs(chunks.push((p, runs)), q) == saved_runs(chunks, q),
{
    let s = chunks.push((p, runs));
    assert(is_first_saved(s, p, chunks.len() as int));
    lemma_first_saved_unique(s, p, chunks.len() as int);
    assert forall|q: Vec3<i32>| q != p implies #[trigger] saved_runs(s, q) == saved_runs(chunks, q) by {
        if exists|i: int| is_first_saved(chunks, q, i) {
            let i = choose|i: int| is_first_saved(chunks, q, i);
            assert(is_first_saved(s, q, i));
            lemma_first_saved_unique(chunks, q, i);
            lemma_first_saved_unique(s, q, i);
        } else {
            assert forall|i: int| !is_first_saved(s, q, i) by {
                if is_first_saved(s, q, i) {
                    assert(i < chunks.len());
                    assert forall|j: int| 0 <= j < i implies #[trigger] chunks[j] == s[j] by {}
                    assert(is_first_saved(chunks, q, i));
                }
            }
        }
    }
}

/// Reading at offset `at` of `s.skip(p)` reads at `p + at` of `s`.
proof fn lemma_read_skip(s: Seq<u8>, p: int, at: int)
    requires
        0 <= p,
        0 <= at,
        p + at + 4 <= s.len(),
    ensures
        i32_at(s.skip(p), at) == i32_at(s, p + at),
        u32_at(s.skip(p), at) == u32_at(s, p + at),
{
    assert(s.skip(p)[at] == s[p + at]);
    assert(s.skip(p)[at + 1] == s[p + at + 1]);
    assert(s.skip(p)[at + 2] == s[p + at + 2]);
    assert(s.skip(p)[at + 3] == s[p + at + 3]);
}

proof fn lemma_prepend_chunk(
    cs0: Seq<(Vec3<i32>, Seq<CompressedSet>)>,
    bs0: Seq<BlockToPlace>,
    c: (Vec3<i32>, Seq<CompressedSet>),
    rest: Result<(Seq<(Vec3<i32>, Seq<CompressedSet>)>, Seq<BlockToPlace>), SaveError>,
)
    ensures
        prepend(cs0, bs0, prepend(seq![c], Seq::<BlockToPlace>::empty(), rest)) == prepend(
            cs0.push(c),
            bs0,
            rest,
        ),
{
    match rest {
        Ok((c2, b2)) => {
            assert(cs0 + (seq![c] + c2) =~= cs0.push(c) + c2);
            assert(bs0 + (Seq::<BlockToPlace>::empty() + b2) =~= bs0 + b2);
        },
        Err(_) => {},
    }
}

proof fn lemma_prepend_placement(
    cs0: Seq<(Vec3<i32>, Seq<CompressedSet>)>,
    bs0: Seq<BlockToPlace>,
    b: BlockToPlace,
    rest: Result<(Seq<(Vec3<i32>, Seq<CompressedSet>)>, Seq<BlockToPlace>), SaveError>,
)
    ensures
        prepend(cs0, bs0, prepend(Seq::<(Vec3<i32>, Seq<CompressedSet>)>::empty(), seq![b], rest))
            == prepend(cs0, bs0.push(b), rest),
{
    match rest {
        Ok((c2, b2)) => {
            assert(cs0 + (Seq::<(Vec3<i32>, Seq<CompressedSet>)>::empty() + c2) =~= cs0 + c2);
            assert(bs0 + (seq![b] + b2) =~= bs0.push(b) + b2);
        },
        Err(_) => {},
    }
}

/// Reads the chunk record at `p`; on success also gives its length.
fn read_chunk_record(bytes: &Vec<u8>, p: usize) -> (r: Result<(ChunkInfo, usize), SaveError>)
    requires
        p < bytes@.len(),
        bytes@[p as int] == CHUNK_TAG,
    ensures
        match r {
            Ok((info, end)) => {
                &&& info.data@.len() <= u32::MAX
                &&& 0 < end
                &&& p + end <= bytes@.len()
                &&& decode_records(bytes@.skip(p as int)) == prepend(
                    seq![info@],
                    Seq::<BlockToPlace>::empty(),
                    decode_records(bytes@.skip(p + end)),
                )
            },
            Err(e) => decode_records(bytes@.skip(p as int)) == Err::<
                (Seq<(Vec3<i32>, Seq<CompressedSet>)>, Seq<BlockToPlace>),
                SaveError,
            >(e),
        },
{
    let n = bytes.len();
    let ghost s = bytes@;
    let ghost t = s.skip(p as int);
    proof {
        reveal(decode_records);
        assert(t[0] == CHUNK_TAG);
    }
    if n - p < 17 {
        return Err(SaveError::Truncated);
    }
    let x = read_i32(bytes, p + 1);
    let y = read_i32(bytes, p + 5);
    let z = read_i32(bytes, p + 9);
    let count = read_u32(bytes, p + 13);
    proof {
        lemma_read_skip(s, p as int, 1);
        lemma_read_skip(s, p as int, 5);
        lemma_read_skip(s, p as int, 9);
        lemma_read_skip(s, p as int, 13);
    }
    let need: u64 = 17 + 8 * (count as u64);
    if ((n - p) as u64) < need {
        return Err(SaveError::Truncated);
    }
    let ghost body = s.skip(p + 17);
    let mut runs: Vec<CompressedSet> = Vec::new();
    let mut j: usize = 0;
    while j < count as usize
        invariant
            j <= count,
            17 + 8 * (count as int) <= n - p,
            n == s.len(),
            s == bytes@,
            body == s.skip(p + 17),
            runs@ == decode_runs(body, j as int),
        decreases count - j,
    {
        assert(8 * j + 8 <= 8 * (count as int)) by (nonlinear_arith)
            requires
                j < count,
        ;
        let at: usize = p + 17 + 8 * j;
        let id = read_i32(bytes, at);
        let cnt = read_i32(bytes, at + 4);
        proof {
            lemma_read_skip(s, p + 17, 8 * j);
            lemma_read_skip(s, p + 17, 8 * j + 4);
        }
        runs.push(CompressedSet { id, count: cnt });
        j += 1;
        assert(runs@ =~= decode_runs(body, j as int));
    }
    let info = ChunkInfo { position: Vec3::new(x, y, z), data: runs };
    let end: usize = need as usize;
    proof {
        assert(t.skip(17) =~= body);
        assert(t.skip(end as int) =~= s.skip(p + end));
    }
    Ok((info, end))
}

/// Reads the placement record at `p`.
fn read_placement_record(bytes: &Vec<u8>, p: usize) -> (r: Result<BlockToPlace, SaveError>)
    requires
        p < bytes@.len(),
        bytes@[p as int] == PLACEMENT_TAG,
    ensures
        match r {
            Ok(b) => {
                &&& p + 25 <= bytes@.len()
                &&& decode_records(bytes@.skip(p as int)) == prepend(
                    Seq::<(Vec3<i32>, Seq<CompressedSet>)>::empty(),
                    seq![b],
                    decode_records(bytes@.skip(p + 25)),
                )
            },
            Err(e) => decode_records(bytes@.skip(p as int)) == Err::<
                (Seq<(Vec3<i32>, Seq<CompressedSet>)>, Seq<BlockToPlace>),
                SaveError,
            >(e),
        },
{
    let n = bytes.len();
    let ghost s = bytes@;
    let ghost t = s.skip(p as int);
    proof {
        reveal(decode_records);
        assert(t[0] == PLACEMENT_TAG);
    }
    if n - p < 25 {
        return Err(SaveError::Truncated);
    }
    let b = BlockToPlace {
        column_position: Vec2::new(read_i32(bytes, p + 1), read_i32(bytes, p + 5)),
        position_in_column: Vec3::new(
            read_i32(bytes, p + 9),
            read_i32(bytes, p + 13),
            read_i32(bytes, p + 17),
        ),
        block_id: read_i32(bytes, p + 21),
    };
    proof {
        lemma_read_skip(s, p as int, 1);
        lemma_read_skip(s, p as int, 5);
        lemma_read_skip(s, p as int, 9);
        lemma_read_skip(s, p as int, 13);
        lemma_read_skip(s, p as int, 17);
        lemma_read_skip(s, p as int, 21);
        assert(t.skip(25) =~= s.skip(p + 25));
    }
    Ok(b)
}

impl SaveFile {
    /// The world data file for this save: seed, chunk records, placement records.
    pub fn write_save(&self) -> (r: Vec<u8>)
        ensures
            r@ == world_data_bytes(self.seed(), self.chunks(), self.placements()),
    {
        let mut out: Vec<u8> = Vec::new();
        out.push(SAVE_FORMAT_VERSION);
        push_i32(&mut out, self.world_seed);
        let ghost cs = self.chunks();
        let mut i: usize = 0;
        while i < self.chunk_data.len()
            invariant
                cs == self.chunks(),
                cs.len() == self.chunk_data@.len(),
                i <= cs.len(),
                out@ == seq![SAVE_FORMAT_VERSION] + i32_le(self.world_seed) + chunk_records(
                    cs.take(i as int),
                ),
            decreases cs.len() - i,
        {
            let c = &self.chunk_data[i];
            let ghost before = out@;
            out.push(CHUNK_TAG);
            push_i32(&mut out, c.position.x);
            push_i32(&mut out, c.position.y);
            push_i32(&mut out, c.position.z);
            push_u32(&mut out, c.data.len() as u32);
            let ghost head = out@;
            let mut j: usize = 0;
            while j < c.data.len()
                invariant
                    j <= c.data@.len(),
                    out@ == head + runs_bytes(c.data@.take(j as int)),
                decreases c.data@.len() - j,
            {
                let run = c.data[j];
                push_i32(&mut out, run.id);
                push_i32(&mut out, run.count);
                proof {
                    assert(c.data@.take(j + 1) =~= c.data@.take(j as int).push(run));
                    lemma_runs_bytes_push(c.data@.take(j as int), run);
                }
                j += 1;
            }
            proof {
                assert(c.data@.take(c.data@.len() as int) =~= c.data@);
                assert(cs[i as int] == c@);
                assert(out@ =~= before + chunk_record(c@));
                assert(cs.take(i + 1) =~= cs.take(i as int).push(c@));
                lemma_chunk_records_push(cs.take(i as int), c@);
            }
            i += 1;
        }
        proof {
            assert(cs.take(cs.len() as int) =~= cs);
        }
        let ghost mid = out@;
        let ghost bs = self.placements();
        let mut k: usize = 0;
        while k < self.block_to_place.len()
            invariant
                bs == self.block_to_place@,
                k <= bs.len(),
                out@ == mid + placement_records(bs.take(k as int)),
            decreases bs.len() - k,
        {
            let b = self.block_to_place[k];
            let ghost before = out@;
            out.push(PLACEMENT_TAG);
            push_i32(&mut out, b.column_position.x);
            push_i32(&mut out, b.column_position.y);
            push_i32(&mut out, b.position_in_column.x);
            push_i32(&mut out, b.position_in_column.y);
            push_i32(&mut out, b.position_in_column.z);
            push_i32(&mut out, b.block_id);
            proof {
                assert(out@ =~= before + placement_record(b));
                assert(bs.take(k + 1) =~= bs.take(k as int).push(b));
                lemma_placement_records_push(bs.take(k as int), b);
            }
            k += 1;
        }
        proof {
            assert(bs.take(bs.len() as int) =~= bs);
        }
        out
    }

    /// Reads world data written by `write_save`: sets the seed and appends
    /// the chunk and placement records. Data that ends inside the seed or a
    /// record, or holds a record of unknown tag, leaves the save unchanged.
    pub fn load(&mut self, bytes: &Vec<u8>) -> (r: Result<(), SaveError>)
        ensures
            match decode_world_data(bytes@) {
                Ok((seed, cs, bs)) => {
                    &&& r is Ok
                    &&& final(self).seed() == seed
                    &&& final(self).chunks() == old(self).chunks() + cs
                    &&& final(self).placements() == old(self).placements() + bs
                    &&& final(self).directory() == old(self).directory()
                    &&& old(self).wf() ==> final(self).wf()
                },
                Err(e) => r == Err::<(), SaveError>(e) && *final(self) == *old(self),
            },
    {
        let n = bytes.len();
        if n < 1 {
            return Err(SaveError::Truncated);
        }
        if bytes[0] != SAVE_FORMAT_VERSION {
            return Err(SaveError::UnsupportedVersion(bytes[0]));
        }
        if n < 5 {
            return Err(SaveError::Truncated);
        }
        let seed = read_i32(bytes, 1);
        let ghost s = bytes@;
        let mut chunks: Vec<ChunkInfo> = Vec::new();
        let mut placements: Vec<BlockToPlace> = Vec::new();
        let mut p: usize = 5;
        proof {
            assert(chunks@.map_values(|c: ChunkInfo| c@) =~= Seq::<(Vec3<i32>, Seq<CompressedSet>)>::empty());
            assert(decode_records(s.skip(5)) == prepend(
                Seq::<(Vec3<i32>, Seq<CompressedSet>)>::empty(),
                Seq::<BlockToPlace>::empty(),
                decode_records(s.skip(5)),
            )) by {
                match decode_records(s.skip(5)) {
                    Ok((c, b)) => {
                        assert(Seq::<(Vec3<i32>, Seq<CompressedSet>)>::empty() + c =~= c);
                        assert(Seq::<BlockToPlace>::empty() + b =~= b);
                    },
                    Err(_) => {},
                }
            }
        }
        while p < n
            invariant
                5 <= p <= n,
                s[0] == SAVE_FORMAT_VERSION,
                n == s.len(),
                s == bytes@,
                decode_records(s.skip(5)) == prepend(
                    chunks@.map_values(|c: ChunkInfo| c@),
                    placements@,
                    decode_records(s.skip(p as int)),
                ),
                forall|i: int| 0 <= i < chunks@.len() ==> (#[trigger] chunks@[i]).data@.len() <= u32::MAX,
            decreases n - p,
        {
            let ghost cs0 = chunks@.map_values(|c: ChunkInfo| c@);
            let ghost bs0 = placements@;
            let tag = bytes[p];
            if tag == CHUNK_TAG {
                match read_chunk_record(bytes, p) {
                    Ok((info, end)) => {
                        let ghost c = info@;
                        chunks.push(info);
                        proof {
                            assert(chunks@.map_values(|c: ChunkInfo| c@) =~= cs0.push(c));
                            lemma_prepend_chunk(cs0, bs0, c, decode_records(s.skip(p + end)));
                        }
                        p = p + end;
                    },
                    Err(e) => {
                        return Err(e);
                    },
                }
            } else if tag == PLACEMENT_TAG {
                match read_placement_record(bytes, p) {
                    Ok(b) => {
                        placements.push(b);
                        proof {
                            lemma_prepend_placement(cs0, bs0, b, decode_records(s.skip(p + 25)));
                        }
                        p = p + 25;
                    },
                    Err(e) => {
                        return Err(e);
                    },
                }
            } else {
                proof {
                    reveal(decode_records);
                    assert(s.skip(p as int)[0] == tag);
                }
                return Err(SaveError::UnknownRecord(tag));
            }
        }
        let ghost cs = chunks@.map_values(|c: ChunkInfo| c@);
        let ghost bs = placements@;
        proof {
            reveal(decode_records);
            assert(s.skip(p as int) =~= Seq::<u8>::empty());
            assert(cs + Seq::<(Vec3<i32>, Seq<CompressedSet>)>::empty() =~= cs);
            assert(bs + Seq::<BlockToPlace>::empty() =~= bs);
        }
        let ghost old_chunks = self.chunks();
        proof {
            assert forall|i: int| 0 <= i < cs.len() implies (#[trigger] cs[i]).1.len() <= u32::MAX by {
                assert(cs[i] == chunks@[i]@);
            }
        }
        self.world_seed = seed;
        self.chunk_data.append(&mut chunks);
        self.block_to_place.append(&mut placements);
        proof {
            assert(self.chunks() =~= old_chunks + cs);
        }
        Ok(())
    }
}

} // verus!
