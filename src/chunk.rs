use vstd::prelude::*;

use crate::vector_types::Vec3;

verus! {

/// Edge length of a chunk, in blocks.
pub const CHUNK_WIDTH: usize = 16;

/// Number of blocks held by one chunk.
pub const CHUNK_VOLUME: usize = 4096;

/// One run of the run-length encoding: `count` consecutive blocks of `id`.
#[derive(Clone, Copy, Debug, PartialEq, Eq)]
pub struct CompressedSet {
    pub id: i32,
    pub count: i32,
}

/// Failure of a chunk access.
#[derive(Clone, Copy, Debug, PartialEq, Eq)]
pub enum ChunkError {
    /// A local coordinate or a block index lies outside the chunk.
    OutOfRange,
}

/// Position of the block at local coordinates `(x, y, z)` in the flat array.
pub open spec fn local_index(x: int, y: int, z: int) -> int {
    z * 256 + y * 16 + x
}

/// `n` copies of `id` (none when `n` is not positive).
pub open spec fn repeat(id: i32, n: int) -> Seq<i32> {
    Seq::new(if n > 0 { n as nat } else { 0 }, |_i: int| id)
}

/// The block ids that a sequence of runs stands for.
pub open spec fn expand(runs: Seq<CompressedSet>) -> Seq<i32>
    decreases runs.len(),
{
    if runs.len() == 0 {
        Seq::empty()
    } else {
        expand(runs.drop_last()) + repeat(runs.last().id, runs.last().count as int)
    }
}

/// Sum of the counts of a sequence of runs.
pub open spec fn run_total(runs: Seq<CompressedSet>) -> int
    decreases runs.len(),
{
    if runs.len() == 0 {
        0
    } else {
        run_total(runs.drop_last()) + runs.last().count
    }
}

/// Every run is non-empty and no two neighbouring runs share an id.
pub open spec fn is_maximal(runs: Seq<CompressedSet>) -> bool {
    &&& forall|i: int| 0 <= i < runs.len() ==> #[trigger] runs[i].count > 0
    &&& forall|i: int| 0 <= i < runs.len() - 1 ==> #[trigger] runs[i].id != runs[i + 1].id
}

/// The maximal runs of `blocks`; there is only one such sequence (see
/// `lemma_maximal_encoding_unique`).
pub open spec fn encoding_of(blocks: Seq<i32>) -> Seq<CompressedSet> {
    choose|runs: Seq<CompressedSet>| expand(runs) == blocks && is_maximal(runs)
}

/// The blocks left after the runs are written from index 0 over `blocks`.
pub open spec fn overlay(blocks: Seq<i32>, runs: Seq<CompressedSet>) -> Seq<i32> {
    expand(runs) + blocks.skip(expand(runs).len() as int)
}

proof fn lemma_expand_push(runs: Seq<CompressedSet>, r: CompressedSet)
    ensures
        expand(runs.push(r)) == expand(runs) + repeat(r.id, r.count as int),
        run_total(runs.push(r)) == run_total(runs) + r.count,
{
    assert(runs.push(r).drop_last() =~= runs);
}

proof fn lemma_expand_take(runs: Seq<CompressedSet>, k: int)
    requires
        0 <= k < runs.len(),
    ensures
        expand(runs.take(k + 1)) == expand(runs.take(k)) + repeat(runs[k].id, runs[k].count as int),
{
    assert(runs.take(k + 1) =~= runs.take(k).push(runs[k]));
    lemma_expand_push(runs.take(k), runs[k]);
}

/// With positive counts, the expansion is as long as the counts add up to.
pub proof fn lemma_expand_len(runs: Seq<CompressedSet>)
    requires
        forall|i: int| 0 <= i < runs.len() ==> #[trigger] runs[i].count > 0,
    ensures
        expand(runs).len() == run_total(runs),
    decreases runs.len(),
{
    if runs.len() > 0 {
        let init = runs.drop_last();
        assert forall|i: int| 0 <= i < init.len() implies #[trigger] init[i].count > 0 by {
            assert(init[i] == runs[i]);
        }
        lemma_expand_len(init);
    }
}

/// The local Y layer of the block at index `i` of the flat array.
pub open spec fn layer_of(i: int) -> int {
    (i / 16) % 16
}

/// `blocks` with every block whose local Y layer lies in `[lower, upper]` set to `id`.
pub open spec fn filled_layers(blocks: Seq<i32>, lower: int, upper: int, id: i32) -> Seq<i32> {
    Seq::new(
        blocks.len(),
        |i: int|
            if lower <= layer_of(i) <= upper {
                id
            } else {
                blocks[i]
            },
    )
}

/// A 16x16x16 cube of block ids at a fixed position of the chunk grid.
pub struct Chunk {
    position: Vec3<i32>,
    blocks: Vec<i32>,
}

impl View for Chunk {
    type V = Seq<i32>;

    closed spec fn view(&self) -> Seq<i32> {
        self.blocks@
    }
}

impl Chunk {
    /// The chunk's position on the chunk grid.
    pub closed spec fn spec_position(&self) -> Vec3<i32> {
        self.position
    }

    /// The block array has exactly one entry per block.
    pub open spec fn wf(&self) -> bool {
        self@.len() == CHUNK_VOLUME
    }

    /// Creates a chunk at `position` with every block set to `id`.
    pub fn new(position: Vec3<i32>, id: i32) -> (r: Chunk)
        ensures
            r.wf(),
            r.spec_position() == position,
            r@ == repeat(id, CHUNK_VOLUME as int),
    {
        let mut blocks: Vec<i32> = Vec::with_capacity(CHUNK_VOLUME);
        let mut i: usize = 0;
        while i < CHUNK_VOLUME
            invariant
                i <= CHUNK_VOLUME,
                blocks@ == repeat(id, i as int),
            decreases CHUNK_VOLUME - i,
        {
            blocks.push(id);
            i += 1;
            assert(blocks@ =~= repeat(id, i as int));
        }
        Chunk { position, blocks }
    }

    /// The chunk's position on the chunk grid.
    pub fn position(&self) -> (r: Vec3<i32>)
        ensures
            r == self.spec_position(),
    {
        self.position
    }

    /// Index in the block array of the local coordinates `(x, y, z)`.
    pub fn xyz_to_i(x: u8, y: u8, z: u8) -> (r: usize)
        requires
            x < 16,
            y < 16,
            z < 16,
        ensures
            r == local_index(x as int, y as int, z as int),
            r < CHUNK_VOLUME,
    {
        (z as usize) * 256 + (y as usize) * 16 + (x as usize)
    }

    /// Sets the block at index `i` of the block array.
    pub fn set_block_i(&mut self, i: usize, id: i32) -> (r: Result<(), ChunkError>)
        requires
            old(self).wf(),
        ensures
            final(self).wf(),
            final(self).spec_position() == old(self).spec_position(),
            i < CHUNK_VOLUME ==> r is Ok && final(self)@ == old(self)@.update(i as int, id),
            i >= CHUNK_VOLUME ==> r == Err::<(), ChunkError>(ChunkError::OutOfRange) && final(self)@
                == old(self)@,
    {
        if i < CHUNK_VOLUME {
            self.blocks.set(i, id);
            Ok(())
        } else {
            Err(ChunkError::OutOfRange)
        }
    }

    /// Sets the block at local coordinates `(x, y, z)`.
    pub fn set_block(&mut self, x: u8, y: u8, z: u8, id: i32) -> (r: Result<(), ChunkError>)
        requires
            old(self).wf(),
        ensures
            final(self).wf(),
            final(self).spec_position() == old(self).spec_position(),
            x < 16 && y < 16 && z < 16 ==> r is Ok && final(self)@ == old(self)@.update(
                local_index(x as int, y as int, z as int),
                id,
            ),
            !(x < 16 && y < 16 && z < 16) ==> r == Err::<(), ChunkError>(ChunkError::OutOfRange)
                && final(self)@ == old(self)@,
    {
        if x < 16 && y < 16 && z < 16 {
            let i = Chunk::xyz_to_i(x, y, z);
            self.blocks.set(i, id);
            Ok(())
        } else {
            Err(ChunkError::OutOfRange)
        }
    }

    /// The block at local coordinates `(x, y, z)`.
    pub fn get_block(&self, x: u8, y: u8, z: u8) -> (r: Result<i32, ChunkError>)
        requires
            self.wf(),
        ensures
            x < 16 && y < 16 && z < 16 ==> r == Ok::<i32, ChunkError>(
                self@[local_index(x as int, y as int, z as int)],
            ),
            !(x < 16 && y < 16 && z < 16) ==> r == Err::<i32, ChunkError>(ChunkError::OutOfRange),
    {
        if x < 16 && y < 16 && z < 16 {
            let i = Chunk::xyz_to_i(x, y, z);
            Ok(self.blocks[i])
        } else {
            Err(ChunkError::OutOfRange)
        }
    }

    /// Sets every block whose local Y layer lies in `[lower, upper]` to `id`.
    pub fn fill_layers(&mut self, lower: i64, upper: i64, id: i32)
        requires
            old(self).wf(),
        ensures
            final(self).wf(),
            final(self).spec_position() == old(self).spec_position(),
            final(self)@ == filled_layers(old(self)@, lower as int, upper as int, id),
    {
        let ghost before = self@;
        let mut i: usize = 0;
        while i < CHUNK_VOLUME
            invariant
                self.wf(),
                self.spec_position() == old(self).spec_position(),
                before == old(self)@,
                before.len() == CHUNK_VOLUME,
                i <= CHUNK_VOLUME,
                forall|j: int|
                    0 <= j < i ==> #[trigger] self@[j] == filled_layers(
                        before,
                        lower as int,
                        upper as int,
                        id,
                    )[j],
                forall|j: int| i <= j < CHUNK_VOLUME ==> #[trigger] self@[j] == before[j],
            decreases CHUNK_VOLUME - i,
        {
            let layer = ((i / 16) % 16) as i64;
            if lower <= layer && layer <= upper {
                self.blocks.set(i, id);
            }
            i += 1;
        }
        assert(self@ =~= filled_layers(before, lower as int, upper as int, id));
    }

    /// Encodes the blocks, in index order, as maximal runs.
    pub fn compress(&self) -> (r: Vec<CompressedSet>)
        requires
            self.wf(),
        ensures
            expand(r@) == self@,
            is_maximal(r@),
            run_total(r@) == CHUNK_VOLUME,
            r@ == encoding_of(self@),
            r@.len() <= CHUNK_VOLUME,
    {
        let mut runs: Vec<CompressedSet> = Vec::new();
        let mut current: i32 = self.blocks[0];
        let mut count: i32 = 1;
        let mut i: usize = 1;
        assert(repeat(current, 1) =~= self@.take(1));
        while i < CHUNK_VOLUME
            invariant
                self.wf(),
                1 <= i <= CHUNK_VOLUME,
                1 <= count <= i,
                expand(runs@) + repeat(current, count as int) == self@.take(i as int),
                is_maximal(runs@),
                runs@.len() > 0 ==> runs@.last().id != current,
            decreases CHUNK_VOLUME - i,
        {
            let b = self.blocks[i];
            let ghost prev = expand(runs@);
            if b == current {
                count += 1;
                assert(repeat(current, count as int) =~= repeat(current, count - 1).push(b));
            } else {
                let ghost old_runs = runs@;
                let run = CompressedSet { id: current, count };
                runs.push(run);
                proof {
                    lemma_expand_push(old_runs, run);
                    assert(is_maximal(runs@)) by {
                        assert forall|j: int| 0 <= j < runs@.len() - 1 implies #[trigger] runs@[j].id
                            != runs@[j + 1].id by {
                            if j < old_runs.len() - 1 {
                                assert(runs@[j] == old_runs[j] && runs@[j + 1] == old_runs[j + 1]);
                            }
                        }
                    }
                }
                current = b;
                count = 1;
                assert(repeat(current, 1) =~= seq![b]);
            }
            assert(self@.take(i + 1) =~= self@.take(i as int).push(b));
            i += 1;
        }
        let ghost old_runs = runs@;
        let last = CompressedSet { id: current, count };
        runs.push(last);
        proof {
            lemma_expand_push(old_runs, last);
            assert(self@.take(CHUNK_VOLUME as int) =~= self@);
            assert(is_maximal(runs@)) by {
                assert forall|j: int| 0 <= j < runs@.len() - 1 implies #[trigger] runs@[j].id
                    != runs@[j + 1].id by {
                    if j < old_runs.len() - 1 {
                        assert(runs@[j] == old_runs[j] && runs@[j + 1] == old_runs[j + 1]);
                    }
                }
            }
            lemma_expand_len(runs@);
            let e = encoding_of(self@);
            assert(expand(runs@) == self@ && is_maximal(runs@));
            lemma_maximal_encoding_unique(runs@, e);
            lemma_runs_fewer_than_blocks(runs@);
        }
        runs
    }

    /// Writes `runs` from index 0 onward, each run as `count` consecutive
    /// blocks of its id. Runs whose blocks would not fit in the chunk leave
    /// it unchanged and give `OutOfRange`.
    pub fn decompress(&mut self, runs: &Vec<CompressedSet>) -> (r: Result<(), ChunkError>)
        requires
            old(self).wf(),
        ensures
            final(self).wf(),
            final(self).spec_position() == old(self).spec_position(),
            expand(runs@).len() <= CHUNK_VOLUME ==> r is Ok && final(self)@ == overlay(
                old(self)@,
                runs@,
            ),
            expand(runs@).len() > CHUNK_VOLUME ==> r == Err::<(), ChunkError>(ChunkError::OutOfRange)
                && final(self)@ == old(self)@,
    {
        // First measure the expansion, stopping once it cannot fit.
        let mut total: usize = 0;
        let mut k: usize = 0;
        while k < runs.len()
            invariant
                self.wf(),
                self@ == old(self)@,
                self.spec_position() == old(self).spec_position(),
                k <= runs@.len(),
                total == expand(runs@.take(k as int)).len(),
                total <= CHUNK_VOLUME,
            decreases runs@.len() - k,
        {
            let c = runs[k].count;
            proof {
                lemma_expand_take(runs@, k as int);
            }
            if c > 0 {
                if c as usize > CHUNK_VOLUME - total {
                    proof {
                        lemma_expand_prefix_len(runs@, k as int + 1);
                    }
                    return Err(ChunkError::OutOfRange);
                }
                total = total + c as usize;
            }
            k += 1;
        }
        assert(runs@.take(runs@.len() as int) =~= runs@);
        let ghost old_blocks = self@;
        let mut pos: usize = 0;
        let mut k: usize = 0;
        while k < runs.len()
            invariant
                self.wf(),
                self.spec_position() == old(self).spec_position(),
                old_blocks == old(self)@,
                old_blocks.len() == CHUNK_VOLUME,
                k <= runs@.len(),
                expand(runs@).len() <= CHUNK_VOLUME,
                pos == expand(runs@.take(k as int)).len(),
                pos <= expand(runs@).len(),
                self@ == expand(runs@.take(k as int)) + old_blocks.skip(pos as int),
            decreases runs@.len() - k,
        {
            let run = runs[k];
            proof {
                lemma_expand_take(runs@, k as int);
                lemma_expand_prefix_len(runs@, k as int + 1);
            }
            let ghost prefix = expand(runs@.take(k as int));
            assert forall|j: int| 0 <= j < prefix.len() implies #[trigger] self@[j] == prefix[j] by {
                assert(self@[j] == (prefix + old_blocks.skip(pos as int))[j]);
            }
            assert forall|j: int| pos <= j < CHUNK_VOLUME implies #[trigger] self@[j]
                == old_blocks[j] by {
                assert(self@[j] == (prefix + old_blocks.skip(pos as int))[j]);
            }
            let mut c: i32 = 0;
            while c < run.count
                invariant
                    self.wf(),
                    self.spec_position() == old(self).spec_position(),
                    old_blocks.len() == CHUNK_VOLUME,
                    0 <= c,
                    run.count > 0 ==> c <= run.count,
                    run.count <= 0 ==> c == 0,
                    pos == prefix.len() + c,
                    prefix.len() + repeat(run.id, run.count as int).len() <= CHUNK_VOLUME,
                    forall|j: int| 0 <= j < prefix.len() ==> #[trigger] self@[j] == prefix[j],
                    forall|j: int| prefix.len() <= j < pos ==> #[trigger] self@[j] == run.id,
                    forall|j: int| pos <= j < CHUNK_VOLUME ==> #[trigger] self@[j] == old_blocks[j],
                decreases run.count - c,
            {
                self.blocks.set(pos, run.id);
                pos += 1;
                c += 1;
            }
            assert(repeat(run.id, c as int) =~= repeat(run.id, run.count as int));
            assert(self@ =~= expand(runs@.take(k + 1)) + old_blocks.skip(pos as int));
            k += 1;
        }
        Ok(())
    }
}

/// The expansion of a prefix of the runs is no longer than that of all of them.
proof fn lemma_expand_prefix_len(runs: Seq<CompressedSet>, k: int)
    requires
        0 <= k <= runs.len(),
    ensures
        expand(runs.take(k)).len() <= expand(runs).len(),
    decreases runs.len() - k,
{
    if k < runs.len() {
        lemma_expand_take(runs, k);
        lemma_expand_prefix_len(runs, k + 1);
    } else {
        assert(runs.take(k) =~= runs);
    }
}

/// Writing the runs that `compress` produced for a chunk back over any
/// chunk restores the compressed chunk's blocks exactly.
pub proof fn lemma_decompress_compress(
    blocks: Seq<i32>,
    runs: Seq<CompressedSet>,
    target: Seq<i32>,
)
    requires
        blocks.len() == CHUNK_VOLUME,
        target.len() == CHUNK_VOLUME,
        expand(runs) == blocks,
    ensures
        expand(runs).len() <= CHUNK_VOLUME,
        overlay(target, runs) == blocks,
{
    assert(target.skip(CHUNK_VOLUME as int) =~= Seq::<i32>::empty());
    assert(overlay(target, runs) =~= blocks);
}

/// Non-empty runs are no more than the blocks they expand to.
proof fn lemma_runs_fewer_than_blocks(runs: Seq<CompressedSet>)
    requires
        forall|i: int| 0 <= i < runs.len() ==> #[trigger] runs[i].count > 0,
    ensures
        runs.len() <= expand(runs).len(),
    decreases runs.len(),
{
    if runs.len() > 0 {
        let init = runs.drop_last();
        assert forall|i: int| 0 <= i < init.len() implies #[trigger] init[i].count > 0 by {
            assert(init[i] == runs[i]);
        }
        lemma_runs_fewer_than_blocks(init);
        assert(runs[runs.len() - 1].count > 0);
    }
}

/// The last block of a non-empty expansion of maximal runs is the last run's id.
proof fn lemma_expand_last(runs: Seq<CompressedSet>)
    requires
        runs.len() > 0,
        is_maximal(runs),
    ensures
        expand(runs).len() >= runs.last().count,
        expand(runs).last() == runs.last().id,
        expand(runs) == expand(runs.drop_last()) + repeat(runs.last().id, runs.last().count as int),
{
    assert(runs[runs.len() - 1].count > 0);
}

proof fn lemma_maximal_prefix(runs: Seq<CompressedSet>)
    requires
        runs.len() > 0,
        is_maximal(runs),
    ensures
        is_maximal(runs.drop_last()),
        runs.len() > 1 ==> runs.drop_last().last().id != runs.last().id,
{
    let init = runs.drop_last();
    assert forall|i: int| 0 <= i < init.len() implies #[trigger] init[i].count > 0 by {
        assert(init[i] == runs[i]);
    }
    assert forall|i: int| 0 <= i < init.len() - 1 implies #[trigger] init[i].id != init[i + 1].id by {
        assert(init[i] == runs[i] && init[i + 1] == runs[i + 1]);
    }
    if runs.len() > 1 {
        assert(runs[runs.len() - 2].id != runs[runs.len() - 1].id);
    }
}

/// A block sequence has only one encoding as maximal runs, so the runs that
/// `compress` returns are determined by the chunk's blocks.
pub proof fn lemma_maximal_encoding_unique(a: Seq<CompressedSet>, b: Seq<CompressedSet>)
    requires
        is_maximal(a),
        is_maximal(b),
        expand(a) == expand(b),
    ensures
        a == b,
    decreases a.len() + b.len(),
{
    if a.len() == 0 || b.len() == 0 {
        if a.len() > 0 {
            lemma_expand_last(a);
        }
        if b.len() > 0 {
            lemma_expand_last(b);
        }
        assert(a =~= b);
    } else {
        lemma_expand_last(a);
        lemma_expand_last(b);
        lemma_maximal_prefix(a);
        lemma_maximal_prefix(b);
        let e = expand(a);
        let ca = a.last().count as int;
        let cb = b.last().count as int;
        let id = a.last().id;
        assert(b.last().id == id);
        if ca < cb {
            let k = e.len() - ca - 1;
            assert(e[k] == id);
            if a.len() > 1 {
                lemma_expand_last(a.drop_last());
                assert(e[k] == expand(a.drop_last()).last());
            } else {
                assert(expand(a.drop_last()).len() == 0);
            }
        } else if cb < ca {
            let k = e.len() - cb - 1;
            assert(e[k] == id);
            if b.len() > 1 {
                lemma_expand_last(b.drop_last());
                assert(expand(b)[k] == expand(b.drop_last()).last());
            } else {
                assert(expand(b.drop_last()).len() == 0);
            }
        }
        assert(ca == cb);
        assert(expand(a.drop_last()) =~= e.subrange(0, e.len() - ca));
        assert(expand(b.drop_last()) =~= e.subrange(0, e.len() - cb));
        lemma_maximal_encoding_unique(a.drop_last(), b.drop_last());
        assert(a.last() == b.last());
        assert(a =~= a.drop_last().push(a.last()));
        assert(b =~= b.drop_last().push(b.last()));
    }
}

} // verus!
