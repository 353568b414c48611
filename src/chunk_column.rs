use vstd::prelude::*;

use crate::chunk::{
    expand, filled_layers, local_index, overlay, repeat, Chunk, ChunkError, CompressedSet,
    CHUNK_VOLUME,
};
use crate::vector_types::{Vec2, Vec3};

verus! {

/// Number of chunks stacked in a column.
pub const COLUMN_CHUNKS: usize = 16;

/// Height of a column, in blocks.
pub const COLUMN_HEIGHT: i32 = 256;

/// The block at column-local `(x, y, z)` of a column's chunk contents.
pub open spec fn column_block(chunks: Seq<Seq<i32>>, x: int, y: int, z: int) -> i32 {
    chunks[y / 16][local_index(x, y % 16, z)]
}

/// Grid position of the chunk at vertical index `y` of the column at `column`.
pub open spec fn chunk_grid_position(column: Vec2<i32>, y: int) -> Vec3<i32> {
    Vec3 { x: column.x, y: y as i32, z: column.y }
}

/// Column contents with the block at column-local `(x, y, z)` set to `id`.
pub open spec fn with_block(chunks: Seq<Seq<i32>>, x: int, y: int, z: int, id: i32) -> Seq<Seq<i32>> {
    chunks.update(y / 16, chunks[y / 16].update(local_index(x, y % 16, z), id))
}

/// Column contents with every block whose Y lies in `[lower, upper]` set to `id`.
pub open spec fn with_layers(chunks: Seq<Seq<i32>>, lower: int, upper: int, id: i32) -> Seq<
    Seq<i32>,
> {
    Seq::new(chunks.len(), |c: int| filled_layers(chunks[c], lower - c * 16, upper - c * 16, id))
}

/// Column-local coordinates that address a block of the column.
pub open spec fn in_column(x: int, y: int, z: int) -> bool {
    0 <= x < 16 && 0 <= y < 256 && 0 <= z < 16
}

/// A vertical stack of 16 chunks sharing one column coordinate.
pub struct ChunkColumn {
    position: Vec2<i32>,
    chunks: Vec<Chunk>,
}

impl View for ChunkColumn {
    /// The blocks of each chunk, bottom chunk first.
    type V = Seq<Seq<i32>>;

    closed spec fn view(&self) -> Seq<Seq<i32>> {
        Seq::new(self.chunks@.len(), |i: int| self.chunks@[i]@)
    }
}

impl ChunkColumn {
    /// The column coordinate, X then Z.
    pub closed spec fn spec_position(&self) -> Vec2<i32> {
        self.position
    }

    /// Sixteen well-formed chunks; chunk `i` sits at chunk-grid Y `i`
    /// below the column's coordinate.
    pub closed spec fn wf(&self) -> bool {
        &&& self.chunks@.len() == COLUMN_CHUNKS
        &&& forall|i: int|
            0 <= i < COLUMN_CHUNKS ==> {
                &&& (#[trigger] self.chunks@[i]).wf()
                &&& self.chunks@[i].spec_position() == chunk_grid_position(self.position, i as int)
            }
    }

    /// What a well-formed column lets callers rely on.
    pub proof fn lemma_wf_view(&self)
        requires
            self.wf(),
        ensures
            self@.len() == COLUMN_CHUNKS,
            forall|i: int| 0 <= i < COLUMN_CHUNKS ==> (#[trigger] self@[i]).len() == CHUNK_VOLUME,
    {
        assert forall|i: int| 0 <= i < COLUMN_CHUNKS implies (#[trigger] self@[i]).len()
            == CHUNK_VOLUME by {
            assert(self.chunks@[i].wf());
        }
    }

    /// Creates a column at `position` whose blocks are all `id`.
    pub fn new(position: &Vec2<i32>, id: i32) -> (r: ChunkColumn)
        ensures
            r.wf(),
            r.spec_position() == *position,
            r@.len() == COLUMN_CHUNKS,
            forall|i: int| 0 <= i < COLUMN_CHUNKS ==> #[trigger] r@[i] == repeat(id, CHUNK_VOLUME as int),
    {
        let mut chunks: Vec<Chunk> = Vec::new();
        let mut y: i32 = 0;
        while y < 16
            invariant
                0 <= y <= 16,
                chunks@.len() == y,
                forall|i: int|
                    0 <= i < y ==> {
                        &&& (#[trigger] chunks@[i]).wf()
                        &&& chunks@[i]@ == repeat(id, CHUNK_VOLUME as int)
                        &&& chunks@[i].spec_position() == chunk_grid_position(*position, i as int)
                    },
            decreases 16 - y,
        {
            chunks.push(Chunk::new(Vec3::new(position.x, y, position.y), id));
            y += 1;
        }
        ChunkColumn { position: *position, chunks }
    }

    /// The column coordinate, X then Z.
    pub fn position(&self) -> (r: Vec2<i32>)
        ensures
            r == self.spec_position(),
    {
        self.position
    }

    /// The chunks, bottom first.
    pub fn get_chunks(&self) -> (r: &Vec<Chunk>)
        requires
            self.wf(),
        ensures
            r@.len() == COLUMN_CHUNKS,
            forall|i: int|
                0 <= i < COLUMN_CHUNKS ==> {
                    &&& (#[trigger] r@[i]).wf()
                    &&& r@[i]@ == self@[i]
                    &&& r@[i].spec_position() == chunk_grid_position(self.spec_position(), i as int)
                },
    {
        &self.chunks
    }

    /// The chunk at vertical index `i`.
    pub fn get_chunk(&self, i: u8) -> (r: &Chunk)
        requires
            self.wf(),
            i < 16,
        ensures
            r.wf(),
            r@ == self@[i as int],
            r.spec_position() == chunk_grid_position(self.spec_position(), i as int),
    {
        &self.chunks[i as usize]
    }

    /// Sets the block at column-local `position`; coordinates outside the
    /// column leave it unchanged and give `OutOfRange`.
    pub fn set_block(&mut self, position: &Vec3<i32>, id: i32) -> (r: Result<(), ChunkError>)
        requires
            old(self).wf(),
        ensures
            final(self).wf(),
            final(self).spec_position() == old(self).spec_position(),
            in_column(position.x as int, position.y as int, position.z as int) ==> {
                &&& r is Ok
                &&& final(self)@ == with_block(
                    old(self)@,
                    position.x as int,
                    position.y as int,
                    position.z as int,
                    id,
                )
            },
            !in_column(position.x as int, position.y as int, position.z as int) ==> r == Err::<
                (),
                ChunkError,
            >(ChunkError::OutOfRange) && final(self)@ == old(self)@,
    {
        if 0 <= position.x && position.x < 16 && 0 <= position.y && position.y < 256 && 0
            <= position.z && position.z < 16 {
            let c = (position.y / 16) as usize;
            let ly = (position.y % 16) as u8;
            let ghost before = self.chunks@;
            let _ = self.chunks[c].set_block(position.x as u8, ly, position.z as u8, id);
            proof {
                assert forall|i: int| 0 <= i < COLUMN_CHUNKS implies (#[trigger] self.chunks@[i]).wf()
                    && self.chunks@[i].spec_position() == chunk_grid_position(self.position, i as int) by {
                    if i != c {
                        assert(self.chunks@[i] == before[i]);
                    }
                }
                assert(self@ =~= old(self)@.update(
                    position.y as int / 16,
                    old(self)@[position.y as int / 16].update(
                        local_index(position.x as int, position.y as int % 16, position.z as int),
                        id,
                    ),
                ));
            }
            Ok(())
        } else {
            Err(ChunkError::OutOfRange)
        }
    }

    /// The block at column-local `position`, or `OutOfRange` outside the column.
    pub fn get_block(&self, position: &Vec3<i32>) -> (r: Result<i32, ChunkError>)
        requires
            self.wf(),
        ensures
            in_column(position.x as int, position.y as int, position.z as int) ==> r == Ok::<
                i32,
                ChunkError,
            >(column_block(self@, position.x as int, position.y as int, position.z as int)),
            !in_column(position.x as int, position.y as int, position.z as int) ==> r == Err::<
                i32,
                ChunkError,
            >(ChunkError::OutOfRange),
    {
        if 0 <= position.x && position.x < 16 && 0 <= position.y && position.y < 256 && 0
            <= position.z && position.z < 16 {
            let c = (position.y / 16) as usize;
            let ly = (position.y % 16) as u8;
            assert(self.chunks@[c as int].wf());
            self.chunks[c].get_block(position.x as u8, ly, position.z as u8)
        } else {
            Err(ChunkError::OutOfRange)
        }
    }

    /// Replaces the blocks of chunk `i` by the runs written from index 0
    /// over its current blocks; runs that do not fit leave it unchanged
    /// and give `OutOfRange`.
    pub fn decompress_chunk(&mut self, i: u8, runs: &Vec<CompressedSet>) -> (r: Result<
        (),
        ChunkError,
    >)
        requires
            old(self).wf(),
            i < 16,
        ensures
            final(self).wf(),
            final(self).spec_position() == old(self).spec_position(),
            expand(runs@).len() <= CHUNK_VOLUME ==> r is Ok && final(self)@ == old(
                self,
            )@.update(i as int, overlay(old(self)@[i as int], runs@)),
            expand(runs@).len() > CHUNK_VOLUME ==> r is Err && final(self)@ == old(
                self,
            )@,
    {
        let ghost before = self.chunks@;
        let r = self.chunks[i as usize].decompress(runs);
        proof {
            assert forall|k: int| 0 <= k < COLUMN_CHUNKS implies (#[trigger] self.chunks@[k]).wf()
                && self.chunks@[k].spec_position() == chunk_grid_position(self.position, k as int) by {
                if k != i {
                    assert(self.chunks@[k] == before[k]);
                }
            }
            if expand(runs@).len() <= CHUNK_VOLUME {
                assert(self@ =~= old(self)@.update(
                    i as int,
                    overlay(old(self)@[i as int], runs@),
                ));
            } else {
                assert(self@ =~= old(self)@);
            }
        }
        r
    }

    /// Sets every block whose Y lies in `[lower, upper]` to `id`, across
    /// the whole horizontal extent of the column; `upper` must lie inside
    /// the column.
    pub fn set_layers(&mut self, lower: u32, upper: u32, id: i32)
        requires
            old(self).wf(),
            upper < 256,
        ensures
            final(self).wf(),
            final(self).spec_position() == old(self).spec_position(),
            final(self)@ == with_layers(old(self)@, lower as int, upper as int, id),
    {
        let ghost before = self.chunks@;
        let mut c: usize = 0;
        while c < COLUMN_CHUNKS
            invariant
                self.wf(),
                self.spec_position() == old(self).spec_position(),
                before == old(self).chunks@,
                c <= COLUMN_CHUNKS,
                forall|k: int|
                    0 <= k < c ==> #[trigger] self.chunks@[k]@ == filled_layers(
                        before[k]@,
                        lower - k * 16,
                        upper - k * 16,
                        id,
                    ),
                forall|k: int| c <= k < COLUMN_CHUNKS ==> #[trigger] self.chunks@[k] == before[k],
            decreases COLUMN_CHUNKS - c,
        {
            let base = (c as i64) * 16;
            let ghost prev = self.chunks@;
            self.chunks[c].fill_layers(lower as i64 - base, upper as i64 - base, id);
            proof {
                assert forall|k: int| 0 <= k < COLUMN_CHUNKS implies (#[trigger] self.chunks@[k]).wf()
                    && self.chunks@[k].spec_position() == chunk_grid_position(self.position, k as int) by {
                    if k != c {
                        assert(self.chunks@[k] == prev[k]);
                    }
                }
                assert forall|k: int| 0 <= k < c + 1 implies #[trigger] self.chunks@[k]@
                    == filled_layers(before[k]@, lower - k * 16, upper - k * 16, id) by {
                    if k != c {
                        assert(self.chunks@[k] == prev[k]);
                    }
                }
            }
            c += 1;
        }
        assert(self@ =~= with_layers(old(self)@, lower as int, upper as int, id));
    }
}

} // verus!
