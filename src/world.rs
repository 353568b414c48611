use vstd::prelude::*;

use std::collections::BTreeMap;

use crate::chunk::{
    expand, is_maximal, lemma_decompress_compress, overlay, repeat, CompressedSet, CHUNK_VOLUME,
};
use crate::chunk_column::{
    chunk_grid_position, column_block, in_column, with_block, ChunkColumn, COLUMN_CHUNKS,
};
use crate::coords::{chunk_coord, floor_div16, local_coord, mod16};
use crate::generation::{
    apply_commands, apply_generation, ColumnEdits, ColumnGenerator, GenerationCommand,
};
use crate::items::{is_registered, ItemData, ItemManager};
use crate::save_file::{save_one, saved_runs, unique_positions, SaveFile};
use crate::save_format::{decode_world_data, lemma_world_data_round_trip, world_data_bytes, SaveError};
use crate::packets::ChunkAction;
use crate::vector_types::{Vec2, Vec3};

verus! {

broadcast use vstd::laws_cmp::group_laws_cmp, vstd::std_specs::btree::group_btree_axioms;

/// What `get_block` returns for a position above or below the world.
pub const NOT_FOUND: i32 = -1;

/// A block that generation put outside the column being generated, kept
/// until its target column exists.
#[derive(Clone, Copy, Debug, PartialEq, Eq)]
pub struct BlockToPlace {
    pub column_position: Vec2<i32>,
    pub position_in_column: Vec3<i32>,
    pub block_id: i32,
}

/// The map key of the column at `p`.
pub open spec fn key_of(p: Vec2<i32>) -> (i32, i32) {
    (p.x, p.y)
}

/// The column coordinate of a key.
pub open spec fn column_of_key(k: (i32, i32)) -> Vec2<i32> {
    Vec2 { x: k.0, y: k.1 }
}

/// The key of the column that holds world position `p`.
pub open spec fn column_key(p: Vec3<i32>) -> (i32, i32) {
    (chunk_coord(p.x as int) as i32, chunk_coord(p.z as int) as i32)
}

/// World position `p` lies within the height of the world.
pub open spec fn in_height(p: Vec3<i32>) -> bool {
    0 <= p.y < 256
}

/// The block at world position `p` of the resident columns `cols`.
pub open spec fn block_at(cols: Map<(i32, i32), Seq<Seq<i32>>>, p: Vec3<i32>) -> i32 {
    column_block(cols[column_key(p)], local_coord(p.x as int), p.y as int, local_coord(p.z as int))
}

/// Column contents after placing `b` in them, if its id is registered and
/// its position lies in the column.
pub open spec fn place(cols: Seq<Seq<i32>>, b: BlockToPlace, registry: Seq<ItemData>) -> Seq<
    Seq<i32>,
> {
    let p = b.position_in_column;
    if is_registered(registry, b.block_id as int) && in_column(p.x as int, p.y as int, p.z as int) {
        with_block(cols, p.x as int, p.y as int, p.z as int, b.block_id)
    } else {
        cols
    }
}

/// Column contents after placing, in order, the pending blocks meant for the column at `k`.
pub open spec fn apply_pending(
    cols: Seq<Seq<i32>>,
    pending: Seq<BlockToPlace>,
    k: (i32, i32),
    registry: Seq<ItemData>,
) -> Seq<Seq<i32>>
    decreases pending.len(),
{
    if pending.len() == 0 {
        cols
    } else {
        let before = apply_pending(cols, pending.drop_last(), k, registry);
        if key_of(pending.last().column_position) == k {
            place(before, pending.last(), registry)
        } else {
            before
        }
    }
}

/// The pending blocks not meant for the column at `k`, in order.
pub open spec fn pending_elsewhere(pending: Seq<BlockToPlace>, k: (i32, i32)) -> Seq<BlockToPlace>
    decreases pending.len(),
{
    if pending.len() == 0 {
        pending
    } else {
        let before = pending_elsewhere(pending.drop_last(), k);
        if key_of(pending.last().column_position) == k {
            before
        } else {
            before.push(pending.last())
        }
    }
}

/// Every chunk of the column at `k` is saved, with runs that fit a chunk.
pub open spec fn fully_saved(chunks: Seq<(Vec3<i32>, Seq<CompressedSet>)>, k: (i32, i32)) -> bool {
    forall|i: int|
        0 <= i < COLUMN_CHUNKS ==> match #[trigger] saved_runs(
            chunks,
            chunk_grid_position(column_of_key(k), i),
        ) {
            Some(runs) => expand(runs).len() <= CHUNK_VOLUME,
            None => false,
        }
}

/// Chunk `i` of the column at `k` as the save gives it back: its saved runs
/// written over air when they fit a chunk, air otherwise.
pub open spec fn restored_chunk(chunks: Seq<(Vec3<i32>, Seq<CompressedSet>)>, k: (i32, i32), i: int) -> Seq<
    i32,
> {
    match saved_runs(chunks, chunk_grid_position(column_of_key(k), i)) {
        Some(runs) => if expand(runs).len() <= CHUNK_VOLUME {
            overlay(repeat(0, CHUNK_VOLUME as int), runs)
        } else {
            repeat(0, CHUNK_VOLUME as int)
        },
        None => repeat(0, CHUNK_VOLUME as int),
    }
}

/// The contents of the column at `k` rebuilt from the save, chunk by chunk.
pub open spec fn restored_column(chunks: Seq<(Vec3<i32>, Seq<CompressedSet>)>, k: (i32, i32)) -> Seq<
    Seq<i32>,
> {
    Seq::new(COLUMN_CHUNKS as nat, |i: int| restored_chunk(chunks, k, i))
}

/// The resident columns and the waiting list after block `b`, which
/// generation put outside its column, is delivered: placed in its column
/// when that is resident, appended to the waiting list otherwise.
pub open spec fn deliver(
    state: (Map<(i32, i32), Seq<Seq<i32>>>, Seq<BlockToPlace>),
    b: BlockToPlace,
    registry: Seq<ItemData>,
) -> (Map<(i32, i32), Seq<Seq<i32>>>, Seq<BlockToPlace>) {
    let kb = key_of(b.column_position);
    if state.0.contains_key(kb) {
        (state.0.insert(kb, place(state.0[kb], b, registry)), state.1)
    } else {
        (state.0, state.1.push(b))
    }
}

/// Delivers the blocks of `bs` in order.
pub open spec fn deliver_all(
    state: (Map<(i32, i32), Seq<Seq<i32>>>, Seq<BlockToPlace>),
    bs: Seq<BlockToPlace>,
    registry: Seq<ItemData>,
) -> (Map<(i32, i32), Seq<Seq<i32>>>, Seq<BlockToPlace>)
    decreases bs.len(),
{
    if bs.len() == 0 {
        state
    } else {
        deliver(deliver_all(state, bs.drop_last(), registry), bs.last(), registry)
    }
}

/// Delivering blocks changes no column's residence.
pub proof fn lemma_deliver_all_dom(
    state: (Map<(i32, i32), Seq<Seq<i32>>>, Seq<BlockToPlace>),
    bs: Seq<BlockToPlace>,
    registry: Seq<ItemData>,
)
    ensures
        deliver_all(state, bs, registry).0.dom() == state.0.dom(),
    decreases bs.len(),
{
    if bs.len() > 0 {
        lemma_deliver_all_dom(state, bs.drop_last(), registry);
        let prev = deliver_all(state, bs.drop_last(), registry);
        let kb = key_of(bs.last().column_position);
        if prev.0.contains_key(kb) {
            assert(prev.0.insert(kb, place(prev.0[kb], bs.last(), registry)).dom() =~= prev.0.dom());
        }
    }
}

/// The resident columns and the waiting list after the column at `k`,
/// holding `blocks` before generation, is built by `cmds` and made
/// resident: the commands are applied, the blocks waiting for it are
/// placed, then the blocks the commands put elsewhere are delivered.
pub open spec fn built_with(
    old: World,
    k: (i32, i32),
    blocks: Seq<Seq<i32>>,
    cmds: Seq<GenerationCommand>,
) -> (Map<(i32, i32), Seq<Seq<i32>>>, Seq<BlockToPlace>) {
    let generated = apply_commands(blocks, column_of_key(k), cmds);
    deliver_all(
        (
            old.columns().insert(k, apply_pending(generated.0, old.pending(), k, old.registry())),
            pending_elsewhere(old.pending(), k),
        ),
        generated.1,
        old.registry(),
    )
}

/// The entries after the first `n` chunks, bottom first, of the column at
/// `k` holding `col` are saved.
pub open spec fn save_column_chunks(
    chunks: Seq<(Vec3<i32>, Seq<CompressedSet>)>,
    k: (i32, i32),
    col: Seq<Seq<i32>>,
    n: int,
) -> Seq<(Vec3<i32>, Seq<CompressedSet>)>
    decreases n,
{
    if n <= 0 {
        chunks
    } else {
        save_one(
            save_column_chunks(chunks, k, col, n - 1),
            chunk_grid_position(column_of_key(k), n - 1),
            col[n - 1],
        )
    }
}

/// The entries after the columns whose keys `order` lists are saved whole,
/// in that order, with the contents `cols` gives them.
pub open spec fn save_columns(
    chunks: Seq<(Vec3<i32>, Seq<CompressedSet>)>,
    cols: Map<(i32, i32), Seq<Seq<i32>>>,
    order: Seq<(i32, i32)>,
) -> Seq<(Vec3<i32>, Seq<CompressedSet>)>
    decreases order.len(),
{
    if order.len() == 0 {
        chunks
    } else {
        save_column_chunks(
            save_columns(chunks, cols, order.drop_last()),
            order.last(),
            cols[order.last()],
            COLUMN_CHUNKS as int,
        )
    }
}

/// Column key `a` comes before `b`: by X, then by Z.
pub open spec fn key_less(a: (i32, i32), b: (i32, i32)) -> bool {
    a.0 < b.0 || (a.0 == b.0 && a.1 < b.1)
}

/// The keys of `s` ascend strictly, by X then by Z.
pub open spec fn is_ascending(s: Seq<(i32, i32)>) -> bool {
    forall|i: int, j: int| 0 <= i < j < s.len() ==> key_less(#[trigger] s[i], #[trigger] s[j])
}

/// `p` is the chunk-grid position of a chunk of a resident column.
pub open spec fn is_resident_chunk(cols: Map<(i32, i32), Seq<Seq<i32>>>, p: Vec3<i32>) -> bool {
    cols.contains_key((p.x, p.z)) && 0 <= p.y < COLUMN_CHUNKS
}

/// Every chunk of the column at `k` is saved as maximal runs that expand to
/// the blocks of `col`.
pub open spec fn column_saved(
    chunks: Seq<(Vec3<i32>, Seq<CompressedSet>)>,
    k: (i32, i32),
    col: Seq<Seq<i32>>,
) -> bool {
    forall|i: int|
        0 <= i < COLUMN_CHUNKS ==> match #[trigger] saved_runs(
            chunks,
            chunk_grid_position(column_of_key(k), i),
        ) {
            Some(runs) => expand(runs) == col[i] && is_maximal(runs),
            None => false,
        }
}

/// The authoritative world: resident columns by column coordinate, the item
/// registry, the save, and the blocks waiting for their column.
///
/// A column becomes resident the first time it is asked for, restored from
/// the save when the save holds all of its chunks and built by the caller's
/// generator otherwise, and it stays resident. Blocks that generation puts
/// into other columns are replayed once the column is resident: each
/// target column that is not resident yet is built first, on its own, and
/// then the blocks are placed. Blocks that such a neighbour's generation
/// puts into columns that are still not resident wait until those are
/// built, so building never recurses. Columns are kept in the order they
/// became resident, with an ordered index from column coordinate to column.
pub struct World {
    save_file: SaveFile,
    columns: Vec<ChunkColumn>,
    column_index: BTreeMap<(i32, i32), usize>,
    item_manager: ItemManager,
    pending: Vec<BlockToPlace>,
}

/// How `new` relates to `old` once the column at `k` is resident. A
/// resident column changes nothing. Otherwise the column is rebuilt from
/// the save and, unless the save held all of it, built further by some
/// generator commands; then every column that those commands put a block
/// in is made resident (each built on its own), and the blocks are placed
/// in order; see `replayed`.
pub open spec fn made_resident(old: World, new: World, k: (i32, i32)) -> bool {
    &&& new.wf()
    &&& new.registry() == old.registry()
    &&& new.save() == old.save()
    &&& new.columns().contains_key(k)
    &&& old.columns().dom().subset_of(new.columns().dom())
    &&& old.columns().contains_key(k) ==> new == old
    &&& !old.columns().contains_key(k) ==> exists|cmds: Seq<GenerationCommand>, mid: World|
        {
            &&& #[trigger] replayed(old, mid, new, k, cmds)
            &&& fully_saved(old.save().chunks(), k) ==> cmds.len() == 0
        }
    &&& !old.columns().contains_key(k) && fully_saved(old.save().chunks(), k) ==> {
        &&& new.columns() == old.columns().insert(
            k,
            apply_pending(restored_column(old.save().chunks(), k), old.pending(), k, old.registry()),
        )
        &&& new.pending() == pending_elsewhere(old.pending(), k)
        &&& no_pending_for(old.pending(), k) ==> new.columns()[k] == restored_column(
            old.save().chunks(),
            k,
        )
    }
}

/// The column keys that the blocks of `bs` are aimed at.
pub open spec fn target_keys(bs: Seq<BlockToPlace>) -> Set<(i32, i32)> {
    Set::new(|t: (i32, i32)| exists|i: int| 0 <= i < bs.len() && key_of(#[trigger] bs[i].column_position) == t)
}

/// The column at `k` was built by `cmds` over what the save holds of it;
/// `mid` is the world once that column and every column its commands put
/// a block in are resident, and `new` is `mid` with those blocks placed in
/// order. So each such block ends in its column, unless a later one of
/// them is placed at the same position.
pub open spec fn replayed(old: World, mid: World, new: World, k: (i32, i32), cmds: Seq<GenerationCommand>) -> bool {
    let placed = apply_commands(restored_column(old.save().chunks(), k), column_of_key(k), cmds).1;
    &&& mid.wf()
    &&& mid.columns().dom() == old.columns().dom().insert(k).union(target_keys(placed))
    &&& new.columns().dom() == mid.columns().dom()
    &&& (new.columns(), new.pending()) == deliver_all((mid.columns(), mid.pending()), placed, old.registry())
}

/// How `new` relates to `old` once the column at `k` is resident, built on
/// its own: blocks its generation puts in columns that are not resident
/// wait for them. A resident column changes nothing. Otherwise the column
/// is rebuilt from the save and, unless the save held all of it, built
/// further by some generator commands; see `built_with`.
pub open spec fn built_alone(old: World, new: World, k: (i32, i32)) -> bool {
    &&& new.wf()
    &&& new.registry() == old.registry()
    &&& new.save() == old.save()
    &&& new.columns().dom() == old.columns().dom().insert(k)
    &&& old.columns().contains_key(k) ==> new == old
    &&& !old.columns().contains_key(k) ==> exists|cmds: Seq<GenerationCommand>|
        {
            &&& #[trigger] built_with(old, k, restored_column(old.save().chunks(), k), cmds) == (
            new.columns(), new.pending())
            &&& fully_saved(old.save().chunks(), k) ==> cmds.len() == 0
        }
    &&& !old.columns().contains_key(k) && fully_saved(old.save().chunks(), k) ==> {
        &&& new.columns() == old.columns().insert(
            k,
            apply_pending(restored_column(old.save().chunks(), k), old.pending(), k, old.registry()),
        )
        &&& new.pending() == pending_elsewhere(old.pending(), k)
        &&& no_pending_for(old.pending(), k) ==> new.columns()[k] == restored_column(
            old.save().chunks(),
            k,
        )
    }
}

/// No block waits for the column at `k`.
pub open spec fn no_pending_for(pending: Seq<BlockToPlace>, k: (i32, i32)) -> bool {
    forall|i: int| 0 <= i < pending.len() ==> key_of(#[trigger] pending[i].column_position) != k
}

/// Placing the waiting blocks for a column that none waits for changes nothing.
pub proof fn lemma_no_pending(
    cols: Seq<Seq<i32>>,
    pending: Seq<BlockToPlace>,
    k: (i32, i32),
    registry: Seq<ItemData>,
)
    requires
        no_pending_for(pending, k),
    ensures
        apply_pending(cols, pending, k, registry) == cols,
    decreases pending.len(),
{
    if pending.len() > 0 {
        let init = pending.drop_last();
        assert forall|i: int| 0 <= i < init.len() implies key_of(
            #[trigger] init[i].column_position,
        ) != k by {
            assert(init[i] == pending[i]);
        }
        lemma_no_pending(cols, init, k, registry);
        assert(key_of(pending[pending.len() - 1].column_position) != k);
    }
}

impl World {
    /// The resident columns' contents by key.
    pub closed spec fn columns(&self) -> Map<(i32, i32), Seq<Seq<i32>>> {
        Map::new(
            |k: (i32, i32)| self.column_index@.contains_key(k),
            |k: (i32, i32)| self.columns@[self.column_index@[k] as int]@,
        )
    }

    /// The item registry.
    pub closed spec fn registry(&self) -> Seq<ItemData> {
        self.item_manager@
    }

    /// The save.
    pub closed spec fn save(&self) -> SaveFile {
        self.save_file
    }

    /// Blocks waiting for their column, oldest first.
    pub closed spec fn pending(&self) -> Seq<BlockToPlace> {
        self.pending@
    }

    /// The index and the column list agree, and every column is well formed
    /// and stored under its own coordinate.
    pub closed spec fn wf(&self) -> bool {
        &&& self.save_file.wf()
        &&& forall|k: (i32, i32)|
            #[trigger] self.column_index@.contains_key(k) ==> {
                &&& self.column_index@[k] < self.columns@.len()
                &&& self.columns@[self.column_index@[k] as int].spec_position() == column_of_key(k)
            }
        &&& forall|i: int|
            0 <= i < self.columns@.len() ==> {
                &&& (#[trigger] self.columns@[i]).wf()
                &&& self.column_index@.contains_key(key_of(self.columns@[i].spec_position()))
                &&& self.column_index@[key_of(self.columns@[i].spec_position())] == i
            }
    }

    /// A world with no resident column.
    pub fn new(item_manager: ItemManager, save_file: SaveFile) -> (r: World)
        requires
            save_file.wf(),
        ensures
            r.wf(),
            r.columns() == Map::<(i32, i32), Seq<Seq<i32>>>::empty(),
            r.registry() == item_manager@,
            r.save() == save_file,
            r.pending() == Seq::<BlockToPlace>::empty(),
    {
        let r = World {
            save_file,
            columns: Vec::new(),
            column_index: BTreeMap::new(),
            item_manager,
            pending: Vec::new(),
        };
        assert(r.columns() =~= Map::<(i32, i32), Seq<Seq<i32>>>::empty());
        r
    }

    /// Where the column at `pos` is stored, if it is resident.
    fn find_column(&self, pos: &Vec2<i32>) -> (r: Option<usize>)
        requires
            self.wf(),
        ensures
            match r {
                Some(i) => self.columns().contains_key(key_of(*pos)) && i
                    == self.column_index@[key_of(*pos)] && i < self.columns@.len(),
                None => !self.columns().contains_key(key_of(*pos)),
            },
    {
        match self.column_index.get(&(pos.x, pos.y)) {
            Some(i) => Some(*i),
            None => None,
        }
    }

    /// Whether the column at `pos` is resident.
    pub fn does_column_exist(&self, pos: &Vec2<i32>) -> (r: bool)
        requires
            self.wf(),
        ensures
            r == self.columns().contains_key(key_of(*pos)),
    {
        self.find_column(pos).is_some()
    }

    /// A new column at `pos` with every chunk that the save holds written
    /// back; `true` when all sixteen were there and fit.
    fn restore_column(&self, pos: &Vec2<i32>) -> (r: (ChunkColumn, bool))
        ensures
            r.0.wf(),
            r.0.spec_position() == *pos,
            r.1 == fully_saved(self.save().chunks(), key_of(*pos)),
            r.0@ == restored_column(self.save().chunks(), key_of(*pos)),
    {
        let ghost chunks = self.save_file.chunks();
        let ghost k = key_of(*pos);
        let mut col = ChunkColumn::new(pos, 0);
        let mut was_saved = true;
        let mut h: u8 = 0;
        while h < 16
            invariant
                col.wf(),
                col.spec_position() == *pos,
                chunks == self.save_file.chunks(),
                k == key_of(*pos),
                h <= 16,
                col@.len() == COLUMN_CHUNKS,
                was_saved == forall|i: int|
                    0 <= i < h ==> match #[trigger] saved_runs(
                        chunks,
                        chunk_grid_position(column_of_key(k), i),
                    ) {
                        Some(runs) => expand(runs).len() <= CHUNK_VOLUME,
                        None => false,
                    },
                forall|i: int| 0 <= i < h ==> #[trigger] col@[i] == restored_chunk(chunks, k, i),
                forall|i: int| h <= i < COLUMN_CHUNKS ==> #[trigger] col@[i] == repeat(0, CHUNK_VOLUME as int),
            decreases 16 - h,
        {
            assert(chunk_grid_position(column_of_key(k), h as int) == Vec3 { x: pos.x, y: h as i32, z: pos.y });
            match self.save_file.get_chunk(Vec3::new(pos.x, h as i32, pos.y)) {
                Some(info) => {
                    if col.decompress_chunk(h, &info.data).is_err() {
                        was_saved = false;
                    }
                },
                None => {
                    was_saved = false;
                },
            }
            h += 1;
        }
        proof {
            assert(col@ =~= restored_column(chunks, k));
        }
        (col, was_saved)
    }

    /// Places the pending blocks meant for `col` in it, in order, and keeps
    /// the others.
    fn take_pending_for(&mut self, col: &mut ChunkColumn)
        requires
            old(col).wf(),
        ensures
            final(col).wf(),
            final(col).spec_position() == old(col).spec_position(),
            final(col)@ == apply_pending(
                old(col)@,
                old(self).pending(),
                key_of(old(col).spec_position()),
                old(self).registry(),
            ),
            final(self).pending() == pending_elsewhere(
                old(self).pending(),
                key_of(old(col).spec_position()),
            ),
            final(self).columns == old(self).columns,
            final(self).column_index == old(self).column_index,
            final(self).item_manager == old(self).item_manager,
            final(self).save_file == old(self).save_file,
    {
        let pos = col.position();
        let ghost k = key_of(pos);
        let ghost pending = self.pending@;
        let ghost start = col@;
        let mut rest: Vec<BlockToPlace> = Vec::new();
        let mut i: usize = 0;
        while i < self.pending.len()
            invariant
                col.wf(),
                col.spec_position() == pos,
                pos == old(col).spec_position(),
                k == key_of(pos),
                start == old(col)@,
                pending == self.pending@,
                self.pending@ == old(self).pending@,
                self.item_manager == old(self).item_manager,
                i <= pending.len(),
                col@ == apply_pending(start, pending.take(i as int), k, self.item_manager@),
                rest@ == pending_elsewhere(pending.take(i as int), k),
            decreases pending.len() - i,
        {
            let b = self.pending[i];
            proof {
                assert(pending.take(i + 1).drop_last() =~= pending.take(i as int));
            }
            if b.column_position.x == pos.x && b.column_position.y == pos.y {
                if self.item_manager.get_item_by_id(b.block_id).is_some() {
                    let _ = col.set_block(&b.position_in_column, b.block_id);
                }
            } else {
                rest.push(b);
            }
            i += 1;
        }
        proof {
            assert(pending.take(pending.len() as int) =~= pending);
        }
        self.pending = rest;
    }

    /// Makes `col` resident under its coordinate.
    fn insert_column(&mut self, col: ChunkColumn)
        requires
            old(self).wf(),
            col.wf(),
            !old(self).columns().contains_key(key_of(col.spec_position())),
        ensures
            final(self).wf(),
            final(self).columns() == old(self).columns().insert(key_of(col.spec_position()), col@),
            final(self).registry() == old(self).registry(),
            final(self).save() == old(self).save(),
            final(self).pending() == old(self).pending(),
    {
        let pos = col.position();
        let ghost k = key_of(pos);
        let idx = self.columns.len();
        self.columns.push(col);
        self.column_index.insert((pos.x, pos.y), idx);
        proof {
            assert forall|i: int| 0 <= i < self.columns@.len() implies {
                &&& (#[trigger] self.columns@[i]).wf()
                &&& self.column_index@.contains_key(key_of(self.columns@[i].spec_position()))
                &&& self.column_index@[key_of(self.columns@[i].spec_position())] == i
            } by {
                if i < idx {
                    assert(self.columns@[i] == old(self).columns@[i]);
                    assert(old(self).column_index@.contains_key(key_of(self.columns@[i].spec_position())));
                }
            }
            assert(self.columns() =~= old(self).columns().insert(k, col@));
        }
    }

    /// Sets the block at column-local `local` of the column stored at `i`.
    fn set_in_column(&mut self, i: usize, local: &Vec3<i32>, id: i32)
        requires
            old(self).wf(),
            i < old(self).columns@.len(),
        ensures
            final(self).wf(),
            final(self).registry() == old(self).registry(),
            final(self).save() == old(self).save(),
            final(self).pending() == old(self).pending(),
            ({
                let k = key_of(old(self).columns@[i as int].spec_position());
                final(self).columns() == old(self).columns().insert(
                    k,
                    if in_column(local.x as int, local.y as int, local.z as int) {
                        with_block(old(self).columns()[k], local.x as int, local.y as int, local.z as int, id)
                    } else {
                        old(self).columns()[k]
                    },
                )
            }),
    {
        let ghost k = key_of(self.columns@[i as int].spec_position());
        let _ = self.columns[i].set_block(local, id);
        proof {
            assert forall|j: int| 0 <= j < self.columns@.len() implies {
                &&& (#[trigger] self.columns@[j]).wf()
                &&& self.column_index@.contains_key(key_of(self.columns@[j].spec_position()))
                &&& self.column_index@[key_of(self.columns@[j].spec_position())] == j
            } by {
                if j != i {
                    assert(self.columns@[j] == old(self).columns@[j]);
                }
            }
            assert(old(self).columns@[old(self).column_index@[k] as int] == old(self).columns@[i as int]);
            assert forall|k2: (i32, i32)| #[trigger] self.column_index@.contains_key(k2) && k2 != k implies
                self.column_index@[k2] != i by {
                assert(old(self).columns@[old(self).column_index@[k2] as int].spec_position()
                    == column_of_key(k2));
            }
            assert(self.columns() =~= old(self).columns().insert(
                k,
                if in_column(local.x as int, local.y as int, local.z as int) {
                    with_block(old(self).columns()[k], local.x as int, local.y as int, local.z as int, id)
                } else {
                    old(self).columns()[k]
                },
            ));
        }
    }

    /// Places a block that generation put outside its column: in its column
    /// if that is resident (when the id is registered), else it waits.
    fn place_elsewhere(&mut self, b: BlockToPlace)
        requires
            old(self).wf(),
        ensures
            final(self).wf(),
            final(self).registry() == old(self).registry(),
            final(self).save() == old(self).save(),
            (final(self).columns(), final(self).pending()) == deliver(
                (old(self).columns(), old(self).pending()),
                b,
                old(self).registry(),
            ),
    {
        let ghost kb = key_of(b.column_position);
        match self.find_column(&b.column_position) {
            Some(i) => {
                assert(self.columns@[i as int].spec_position() == column_of_key(kb));
                if self.item_manager.get_item_by_id(b.block_id).is_some() {
                    self.set_in_column(i, &b.position_in_column, b.block_id);
                } else {
                    assert(self.columns() =~= old(self).columns().insert(
                        kb,
                        place(old(self).columns()[kb], b, old(self).registry()),
                    ));
                }
            },
            None => {
                self.pending.push(b);
            },
        }
    }

    /// Applies `commands` to the column `col`, places the blocks waiting for
    /// it and makes it resident; returns the blocks the commands put in
    /// other columns.
    fn build_column(&mut self, col: ChunkColumn, commands: &Vec<GenerationCommand>) -> (placed: Vec<
        BlockToPlace,
    >)
        requires
            old(self).wf(),
            col.wf(),
            !old(self).columns().contains_key(key_of(col.spec_position())),
        ensures
            final(self).wf(),
            final(self).registry() == old(self).registry(),
            final(self).save() == old(self).save(),
            ({
                let k = key_of(col.spec_position());
                let generated = apply_commands(col@, col.spec_position(), commands@);
                &&& placed@ == generated.1
                &&& final(self).columns() == old(self).columns().insert(
                    k,
                    apply_pending(generated.0, old(self).pending(), k, old(self).registry()),
                )
                &&& final(self).pending() == pending_elsewhere(old(self).pending(), k)
            }),
    {
        let mut col = col;
        let placed = apply_generation(&mut col, commands);
        self.take_pending_for(&mut col);
        self.insert_column(col);
        placed
    }

    /// Delivers the blocks of `placed` in order.
    fn deliver_placed(&mut self, placed: &Vec<BlockToPlace>)
        requires
            old(self).wf(),
        ensures
            final(self).wf(),
            final(self).registry() == old(self).registry(),
            final(self).save() == old(self).save(),
            (final(self).columns(), final(self).pending()) == deliver_all(
                (old(self).columns(), old(self).pending()),
                placed@,
                old(self).registry(),
            ),
    {
        let ghost start = (self.columns(), self.pending());
        let ghost reg = self.registry();
        let mut j: usize = 0;
        while j < placed.len()
            invariant
                self.wf(),
                self.registry() == reg,
                reg == old(self).registry(),
                self.save() == old(self).save(),
                start == (old(self).columns(), old(self).pending()),
                j <= placed@.len(),
                (self.columns(), self.pending()) == deliver_all(start, placed@.take(j as int), reg),
            decreases placed@.len() - j,
        {
            proof {
                assert(placed@.take(j + 1).drop_last() =~= placed@.take(j as int));
            }
            self.place_elsewhere(placed[j]);
            j += 1;
        }
        proof {
            assert(placed@.take(placed@.len() as int) =~= placed@);
        }
    }

    /// Makes the column `col`, which a generator described by `commands`,
    /// resident on its own: applies the commands to it in order, places the
    /// blocks waiting for it, then delivers the blocks that the commands put
    /// in other columns (placed at once in resident columns, kept waiting
    /// otherwise).
    pub fn insert_generated_column(&mut self, col: ChunkColumn, commands: &Vec<GenerationCommand>)
        requires
            old(self).wf(),
            col.wf(),
            !old(self).columns().contains_key(key_of(col.spec_position())),
        ensures
            final(self).wf(),
            final(self).registry() == old(self).registry(),
            final(self).save() == old(self).save(),
            (final(self).columns(), final(self).pending()) == built_with(
                *old(self),
                key_of(col.spec_position()),
                col@,
                commands@,
            ),
    {
        let placed = self.build_column(col, commands);
        self.deliver_placed(&placed);
    }

    /// Builds the column at `pos` from the save, or, when the save does not
    /// hold all of it, with `generator`; then makes it resident on its own.
    fn generate_alone<G: ColumnGenerator>(&mut self, pos: &Vec2<i32>, generator: &mut G)
        requires
            old(self).wf(),
            !old(self).columns().contains_key(key_of(*pos)),
        ensures
            built_alone(*old(self), *final(self), key_of(*pos)),
            fully_saved(old(self).save().chunks(), key_of(*pos)) ==> *final(generator) == *old(
                generator,
            ),
    {
        let ghost k = key_of(*pos);
        let (col, was_saved) = self.restore_column(pos);
        if was_saved {
            let ghost none = Seq::<GenerationCommand>::empty();
            let mut col = col;
            self.take_pending_for(&mut col);
            self.insert_column(col);
            proof {
                assert(apply_commands(restored_column(old(self).save().chunks(), k), column_of_key(k), none)
                    == (restored_column(old(self).save().chunks(), k), Seq::<BlockToPlace>::empty()));
                assert(built_with(*old(self), k, restored_column(old(self).save().chunks(), k), none)
                    == (self.columns(), self.pending()));
                assert(self.columns().dom() =~= old(self).columns().dom().insert(k));
                if no_pending_for(old(self).pending(), k) {
                    lemma_no_pending(restored_column(old(self).save().chunks(), k), old(self).pending(), k, old(self).registry());
                }
            }
        } else {
            let mut edits = ColumnEdits::new();
            generator.generate_column(*pos, &self.item_manager, &mut edits);
            let ghost cmds = edits@;
            self.insert_generated_column(col, edits.commands());
            proof {
                let generated = apply_commands(restored_column(old(self).save().chunks(), k), column_of_key(k), cmds);
                let start = (
                    old(self).columns().insert(k, apply_pending(generated.0, old(self).pending(), k, old(self).registry())),
                    pending_elsewhere(old(self).pending(), k),
                );
                lemma_deliver_all_dom(start, generated.1, old(self).registry());
            }
            assert(built_with(*old(self), k, restored_column(old(self).save().chunks(), k), cmds)
                == (self.columns(), self.pending()));
        }
    }

    /// Builds the column at `pos` from the save, or, when the save does not
    /// hold all of it, with `generator`, and makes it resident. Blocks that
    /// the generator puts in other columns are then replayed: each target
    /// column that is not resident is built first (on its own, so the
    /// building stops there), then the blocks are placed in order.
    fn generate_column<G: ColumnGenerator>(&mut self, pos: &Vec2<i32>, generator: &mut G)
        requires
            old(self).wf(),
            !old(self).columns().contains_key(key_of(*pos)),
        ensures
            made_resident(*old(self), *final(self), key_of(*pos)),
            fully_saved(old(self).save().chunks(), key_of(*pos)) ==> *final(generator) == *old(
                generator,
            ),
    {
        let ghost k = key_of(*pos);
        let ghost restored = restored_column(old(self).save().chunks(), k);
        let (col, was_saved) = self.restore_column(pos);
        if was_saved {
            let ghost none = Seq::<GenerationCommand>::empty();
            let mut col = col;
            self.take_pending_for(&mut col);
            self.insert_column(col);
            proof {
                assert(apply_commands(restored, column_of_key(k), none) == (
                restored, Seq::<BlockToPlace>::empty()));
                assert(target_keys(Seq::<BlockToPlace>::empty()) =~= Set::<(i32, i32)>::empty());
                assert(self.columns().dom() =~= old(self).columns().dom().insert(k).union(
                    Set::<(i32, i32)>::empty(),
                ));
                assert(replayed(*old(self), *self, *self, k, none));
                if no_pending_for(old(self).pending(), k) {
                    lemma_no_pending(restored, old(self).pending(), k, old(self).registry());
                }
                assert(old(self).columns().dom().subset_of(self.columns().dom()));
            }
        } else {
            let mut edits = ColumnEdits::new();
            generator.generate_column(*pos, &self.item_manager, &mut edits);
            let ghost cmds = edits@;
            let placed = self.build_column(col, edits.commands());
            let ghost start_dom = self.columns().dom();
            assert(start_dom == old(self).columns().dom().insert(k));
            let mut j: usize = 0;
            while j < placed.len()
                invariant
                    self.wf(),
                    self.registry() == old(self).registry(),
                    self.save() == old(self).save(),
                    j <= placed@.len(),
                    self.columns().dom() == start_dom.union(target_keys(placed@.take(j as int))),
                decreases placed@.len() - j,
            {
                let target = placed[j].column_position;
                proof {
                    let t = key_of(target);
                    let a = target_keys(placed@.take(j + 1));
                    let b = target_keys(placed@.take(j as int)).insert(t);
                    assert forall|x: (i32, i32)| a.contains(x) <==> b.contains(x) by {
                        if a.contains(x) {
                            let i = choose|i: int| 0 <= i < j + 1 && key_of(
                                #[trigger] placed@.take(j + 1)[i].column_position,
                            ) == x;
                            if i < j {
                                assert(placed@.take(j as int)[i] == placed@.take(j + 1)[i]);
                            }
                        }
                        if b.contains(x) && x != t {
                            let i = choose|i: int| 0 <= i < j && key_of(
                                #[trigger] placed@.take(j as int)[i].column_position,
                            ) == x;
                            assert(placed@.take(j + 1)[i] == placed@.take(j as int)[i]);
                        }
                        if x == t {
                            assert(placed@.take(j + 1)[j as int] == placed@[j as int]);
                        }
                    }
                    assert(a =~= b);
                }
                if !self.does_column_exist(&target) {
                    self.generate_alone(&target, generator);
                } else {
                    assert(self.columns().dom().insert(key_of(target)) =~= self.columns().dom());
                }
                assert(self.columns().dom() =~= start_dom.union(target_keys(placed@.take(j + 1))));
                j += 1;
            }
            let ghost mid = *self;
            assert(placed@.take(placed@.len() as int) =~= placed@);
            self.deliver_placed(&placed);
            proof {
                lemma_deliver_all_dom((mid.columns(), mid.pending()), placed@, old(self).registry());
                assert(replayed(*old(self), mid, *self, k, cmds));
                assert(old(self).columns().dom().subset_of(self.columns().dom()));
            }
        }
    }

    /// The column at `pos`, generated first if it is not resident.
    pub fn get_column<G: ColumnGenerator>(&mut self, pos: &Vec2<i32>, generator: &mut G) -> (r:
        &ChunkColumn)
        requires
            old(self).wf(),
        ensures
            made_resident(*old(self), *final(self), key_of(*pos)),
            old(self).columns().contains_key(key_of(*pos)) || fully_saved(
                old(self).save().chunks(),
                key_of(*pos),
            ) ==> *final(generator) == *old(generator),
            r.wf(),
            r.spec_position() == *pos,
            r@ == final(self).columns()[key_of(*pos)],
    {
        if !self.does_column_exist(pos) {
            self.generate_column(pos, generator);
        } else {
            assert(self.columns().dom().insert(key_of(*pos)) =~= self.columns().dom());
        }
        let i = self.resident_index(pos);
        &self.columns[i]
    }

    /// Where the resident column at `pos` is stored.
    fn resident_index(&self, pos: &Vec2<i32>) -> (r: usize)
        requires
            self.wf(),
            self.columns().contains_key(key_of(*pos)),
        ensures
            r < self.columns@.len(),
            r == self.column_index@[key_of(*pos)],
            self.columns@[r as int].wf(),
            self.columns@[r as int].spec_position() == *pos,
            self.columns@[r as int]@ == self.columns()[key_of(*pos)],
    {
        match self.find_column(pos) {
            Some(i) => i,
            None => 0,
        }
    }

    /// The column coordinate of the column that holds world position `pos`.
    pub fn world_to_column_position(pos: &Vec2<i32>) -> (r: Vec2<i32>)
        ensures
            r.x == chunk_coord(pos.x as int),
            r.y == chunk_coord(pos.y as int),
    {
        Vec2::new(floor_div16(pos.x), floor_div16(pos.y))
    }

    /// The chunk-grid position of the chunk that holds world position `pos`.
    pub fn world_to_chunk_position(pos: &Vec3<i32>) -> (r: Vec3<i32>)
        ensures
            r.x == chunk_coord(pos.x as int),
            r.y == chunk_coord(pos.y as int),
            r.z == chunk_coord(pos.z as int),
    {
        Vec3::new(floor_div16(pos.x), floor_div16(pos.y), floor_div16(pos.z))
    }

    /// The position of world position `pos` inside its chunk.
    pub fn world_to_position_in_chunk(pos: &Vec3<i32>) -> (r: Vec3<i32>)
        ensures
            r.x == local_coord(pos.x as int),
            r.y == local_coord(pos.y as int),
            r.z == local_coord(pos.z as int),
    {
        Vec3::new(mod16(pos.x), mod16(pos.y), mod16(pos.z))
    }

    /// The block at world `position`, generating its column first if it is
    /// not resident; `NOT_FOUND`, with nothing generated, above or below
    /// the world.
    pub fn get_block<G: ColumnGenerator>(&mut self, position: &Vec3<i32>, generator: &mut G) -> (r:
        i32)
        requires
            old(self).wf(),
        ensures
            !in_height(*position) ==> r == NOT_FOUND && *final(self) == *old(self),
            !in_height(*position) || old(self).columns().contains_key(column_key(*position))
                || fully_saved(old(self).save().chunks(), column_key(*position)) ==> *final(generator)
                == *old(generator),
            in_height(*position) ==> {
                &&& made_resident(*old(self), *final(self), column_key(*position))
                &&& r == block_at(final(self).columns(), *position)
            },
    {
        let chunk_position = World::world_to_chunk_position(position);
        if chunk_position.y < 0 || chunk_position.y > 15 {
            return NOT_FOUND;
        }
        let block_position = World::world_to_position_in_chunk(position);
        let column_position = Vec2::new(chunk_position.x, chunk_position.z);
        let local = Vec3::new(block_position.x, position.y, block_position.z);
        let column = self.get_column(&column_position, generator);
        match column.get_block(&local) {
            Ok(b) => b,
            Err(_) => NOT_FOUND,
        }
    }

    /// Sets the block at world `position` to `id`, generating its column
    /// first if it is not resident. An id missing from the registry, or a
    /// position above or below the world, changes nothing.
    pub fn set_block<G: ColumnGenerator>(&mut self, position: &Vec3<i32>, id: i32, generator: &mut G)
        requires
            old(self).wf(),
        ensures
            !is_registered(old(self).registry(), id as int) || !in_height(*position) ==> *final(self)
                == *old(self),
            !is_registered(old(self).registry(), id as int) || !in_height(*position) || old(
                self,
            ).columns().contains_key(column_key(*position)) || fully_saved(
                old(self).save().chunks(),
                column_key(*position),
            ) ==> *final(generator) == *old(generator),
            is_registered(old(self).registry(), id as int) && in_height(*position) ==> exists|
                mid: World,
            |
                {
                    &&& #[trigger] made_resident(*old(self), mid, column_key(*position))
                    &&& final(self).wf()
                    &&& final(self).registry() == mid.registry()
                    &&& final(self).save() == mid.save()
                    &&& final(self).pending() == mid.pending()
                    &&& final(self).columns() == mid.columns().insert(
                        column_key(*position),
                        with_block(
                            mid.columns()[column_key(*position)],
                            local_coord(position.x as int),
                            position.y as int,
                            local_coord(position.z as int),
                            id,
                        ),
                    )
                },
    {
        if self.item_manager.get_item_by_id(id).is_none() {
            return;
        }
        let chunk_position = World::world_to_chunk_position(position);
        if chunk_position.y < 0 || chunk_position.y > 15 {
            return;
        }
        let block_position = World::world_to_position_in_chunk(position);
        let column_position = Vec2::new(chunk_position.x, chunk_position.z);
        let local = Vec3::new(block_position.x, position.y, block_position.z);
        if !self.does_column_exist(&column_position) {
            self.generate_column(&column_position, generator);
        } else {
            assert(self.columns().dom().insert(key_of(column_position)) =~= self.columns().dom());
        }
        let ghost mid = *self;
        let i = self.resident_index(&column_position);
        self.set_in_column(i, &local, id);
        assert(made_resident(*old(self), mid, column_key(*position)));
    }

    /// The save.
    pub fn get_save_file(&self) -> (r: &SaveFile)
        ensures
            *r == self.save(),
    {
        &self.save_file
    }

    /// The item registry.
    pub fn get_item_manager(&self) -> (r: &ItemManager)
        ensures
            r@ == self.registry(),
    {
        &self.item_manager
    }
}

/// Asking for a column that is already resident changes nothing: the second
/// of two requests for the same column leaves the world as the first one
/// left it.
pub proof fn lemma_column_generated_once(w0: World, w1: World, w2: World, k: (i32, i32))
    requires
        made_resident(w0, w1, k),
        made_resident(w1, w2, k),
    ensures
        w2 == w1,
        w2.columns()[k] == w1.columns()[k],
{
    assert(w1.columns().dom().contains(k));
}

/// Rebuilding a column from a save that holds every one of its chunks as
/// runs of its blocks gives back exactly those blocks.
pub proof fn lemma_saved_column_restores(
    chunks: Seq<(Vec3<i32>, Seq<CompressedSet>)>,
    k: (i32, i32),
    col: Seq<Seq<i32>>,
)
    requires
        col.len() == COLUMN_CHUNKS,
        forall|i: int| 0 <= i < COLUMN_CHUNKS ==> (#[trigger] col[i]).len() == CHUNK_VOLUME,
        column_saved(chunks, k, col),
    ensures
        fully_saved(chunks, k),
        restored_column(chunks, k) == col,
{
    assert forall|i: int| 0 <= i < COLUMN_CHUNKS implies match #[trigger] saved_runs(
        chunks,
        chunk_grid_position(column_of_key(k), i),
    ) {
        Some(runs) => expand(runs).len() <= CHUNK_VOLUME,
        None => false,
    } && restored_column(chunks, k)[i] == col[i] by {
        let runs = saved_runs(chunks, chunk_grid_position(column_of_key(k), i)).unwrap();
        assert(col[i].len() == CHUNK_VOLUME);
        lemma_decompress_compress(col[i], runs, repeat(0, CHUNK_VOLUME as int));
    }
    assert(restored_column(chunks, k) =~= col);
}

/// A column saved by one world and loaded into a fresh world with the same
/// saved chunks and nothing pending comes back with identical blocks.
pub proof fn lemma_reload_column(saved: World, fresh: World, loaded: World, k: (i32, i32))
    requires
        saved.wf(),
        saved.columns().contains_key(k),
        column_saved(saved.save().chunks(), k, saved.columns()[k]),
        fresh.save().chunks() == saved.save().chunks(),
        fresh.pending() == Seq::<BlockToPlace>::empty(),
        !fresh.columns().contains_key(k),
        made_resident(fresh, loaded, k),
    ensures
        loaded.columns().contains_key(k),
        loaded.columns()[k] == saved.columns()[k],
{
    saved.lemma_wf_columns(k);
    lemma_saved_column_restores(saved.save().chunks(), k, saved.columns()[k]);
    let restored = restored_column(fresh.save().chunks(), k);
    assert(apply_pending(restored, fresh.pending(), k, fresh.registry()) == restored);
    assert(loaded.columns().dom().contains(k));
}

/// Save, write, load, rebuild: after `save_to_file` has saved a resident
/// column, its world data file reads back as the same seed, chunks and
/// placements, and a fresh world whose save was loaded from that file, with
/// nothing waiting, rebuilds the column with identical blocks.
pub proof fn lemma_save_load_round_trip(saved: World, fresh: World, loaded: World, k: (i32, i32))
    requires
        saved.wf(),
        saved.columns().contains_key(k),
        column_saved(saved.save().chunks(), k, saved.columns()[k]),
        (match decode_world_data(
            world_data_bytes(saved.save().seed(), saved.save().chunks(), saved.save().placements()),
        ) {
            Ok((_, cs, _)) => fresh.save().chunks() == cs,
            Err(_) => true,
        }),
        fresh.pending() == Seq::<BlockToPlace>::empty(),
        !fresh.columns().contains_key(k),
        made_resident(fresh, loaded, k),
    ensures
        decode_world_data(
            world_data_bytes(saved.save().seed(), saved.save().chunks(), saved.save().placements()),
        ) == Ok::<(i32, Seq<(Vec3<i32>, Seq<CompressedSet>)>, Seq<BlockToPlace>), SaveError>(
            (saved.save().seed(), saved.save().chunks(), saved.save().placements()),
        ),
        loaded.columns().contains_key(k),
        loaded.columns()[k] == saved.columns()[k],
{
    assert(saved.save().wf());
    lemma_world_data_round_trip(saved.save().seed(), saved.save().chunks(), saved.save().placements());
    lemma_reload_column(saved, fresh, loaded, k);
}

impl World {
    /// The keys of the resident columns, ascending by X then by Z.
    fn keys_in_order(&self) -> (r: Vec<(i32, i32)>)
        requires
            self.wf(),
        ensures
            is_ascending(r@),
            forall|k: (i32, i32)| self.columns().contains_key(k) <==> r@.contains(k),
    {
        let mut r: Vec<(i32, i32)> = Vec::new();
        let mut c: usize = 0;
        while c < self.columns.len()
            invariant
                self.wf(),
                c <= self.columns@.len(),
                is_ascending(r@),
                forall|k: (i32, i32)|
                    r@.contains(k) <==> exists|j: int|
                        0 <= j < c && key_of(#[trigger] self.columns@[j].spec_position()) == k,
            decreases self.columns@.len() - c,
        {
            let pos = self.columns[c].position();
            let key = (pos.x, pos.y);
            proof {
                assert forall|j: int| 0 <= j < c implies key_of(#[trigger] self.columns@[j].spec_position())
                    != key by {
                    assert(self.column_index@[key_of(self.columns@[j].spec_position())] == j);
                    assert(self.column_index@[key_of(self.columns@[c as int].spec_position())] == c);
                }
                assert(!r@.contains(key));
            }
            let mut p: usize = 0;
            while p < r.len() && (r[p].0 < key.0 || (r[p].0 == key.0 && r[p].1 < key.1))
                invariant
                    p <= r@.len(),
                    forall|q: int| 0 <= q < p ==> key_less(#[trigger] r@[q], key),
                decreases r@.len() - p,
            {
                p += 1;
            }
            let ghost before = r@;
            r.insert(p, key);
            proof {
                assert(r@ == before.insert(p as int, key));
                assert forall|q: int| p <= q < before.len() implies key_less(key, #[trigger] before[q]) by {
                    assert(before[p as int] != key);
                    assert(!key_less(before[p as int], key));
                    if q > p {
                        assert(key_less(before[p as int], before[q]));
                    }
                }
                assert forall|i: int, j: int| 0 <= i < j < r@.len() implies key_less(
                    #[trigger] r@[i],
                    #[trigger] r@[j],
                ) by {
                    if j < p {
                        assert(r@[i] == before[i] && r@[j] == before[j]);
                    } else if j == p {
                        assert(r@[i] == before[i]);
                    } else if i < p {
                        assert(r@[i] == before[i] && r@[j] == before[j - 1]);
                        assert(key_less(before[i], key));
                    } else if i == p {
                        assert(r@[j] == before[j - 1]);
                    } else {
                        assert(r@[i] == before[i - 1] && r@[j] == before[j - 1]);
                    }
                }
                assert forall|k: (i32, i32)| r@.contains(k) <==> exists|j: int|
                    0 <= j < c + 1 && key_of(#[trigger] self.columns@[j].spec_position()) == k by {
                    if r@.contains(k) {
                        let i = choose|i: int| 0 <= i < r@.len() && r@[i] == k;
                        if i < p {
                            assert(before[i] == k && before.contains(k));
                        } else if i > p {
                            assert(before[i - 1] == k && before.contains(k));
                        } else {
                            assert(key_of(self.columns@[c as int].spec_position()) == k);
                        }
                    }
                    if exists|j: int| 0 <= j < c + 1 && key_of(#[trigger] self.columns@[j].spec_position()) == k {
                        let j = choose|j: int| 0 <= j < c + 1 && key_of(#[trigger] self.columns@[j].spec_position()) == k;
                        if j < c {
                            assert(before.contains(k));
                            let i = choose|i: int| 0 <= i < before.len() && before[i] == k;
                            if i < p {
                                assert(r@[i] == k);
                            } else {
                                assert(r@[i + 1] == k);
                            }
                        } else {
                            assert(r@[p as int] == k);
                        }
                    }
                }
            }
            c += 1;
        }
        proof {
            assert forall|k: (i32, i32)| self.columns().contains_key(k) <==> r@.contains(k) by {
                if self.columns().contains_key(k) {
                    let j = self.column_index@[k] as int;
                    assert(key_of(self.columns@[j].spec_position()) == k);
                }
                if r@.contains(k) {
                    let j = choose|j: int| 0 <= j < c && key_of(#[trigger] self.columns@[j].spec_position()) == k;
                    assert(self.column_index@.contains_key(key_of(self.columns@[j].spec_position())));
                }
            }
        }
        r
    }

    /// A resident column is sixteen chunks of 4096 blocks.
    pub proof fn lemma_wf_columns(&self, k: (i32, i32))
        requires
            self.wf(),
            self.columns().contains_key(k),
        ensures
            self.columns()[k].len() == COLUMN_CHUNKS,
            forall|i: int|
                0 <= i < COLUMN_CHUNKS ==> (#[trigger] self.columns()[k][i]).len() == CHUNK_VOLUME,
    {
        let c = self.columns@[self.column_index@[k] as int];
        assert(c.wf());
        c.lemma_wf_view();
    }

    /// Stores every chunk of every resident column in the save, as maximal
    /// runs, and returns the world data file to write. Columns are stored
    /// in ascending order of X, then of Z, each bottom chunk first, so their
    /// entries end the save in that order; entries at other positions stay.
    /// Blocks still waiting for their column are not written. A world
    /// without a save directory is left as it is and gives `None`.
    pub fn save_to_file(&mut self) -> (r: Option<Vec<u8>>)
        requires
            old(self).wf(),
        ensures
            old(self).save().directory() is None ==> r is None && *final(self) == *old(self),
            old(self).save().directory() is Some ==> {
                &&& final(self).wf()
                &&& final(self).columns() == old(self).columns()
                &&& final(self).registry() == old(self).registry()
                &&& final(self).pending() == old(self).pending()
                &&& final(self).save().directory() == old(self).save().directory()
                &&& final(self).save().seed() == old(self).save().seed()
                &&& final(self).save().placements() == old(self).save().placements()
                &&& exists|order: Seq<(i32, i32)>|
                    {
                        &&& is_ascending(order)
                        &&& forall|k: (i32, i32)| old(self).columns().contains_key(k) <==> order.contains(k)
                        &&& #[trigger] save_columns(
                            old(self).save().chunks(),
                            old(self).columns(),
                            order,
                        ) == final(self).save().chunks()
                    }
                &&& forall|p: Vec3<i32>|
                    !is_resident_chunk(old(self).columns(), p) ==> #[trigger] saved_runs(
                        final(self).save().chunks(),
                        p,
                    ) == saved_runs(old(self).save().chunks(), p)
                &&& unique_positions(old(self).save().chunks()) ==> unique_positions(
                    final(self).save().chunks(),
                )
                &&& forall|k: (i32, i32)|
                    #[trigger] final(self).columns().contains_key(k) ==> column_saved(
                        final(self).save().chunks(),
                        k,
                        final(self).columns()[k],
                    )
                &&& r matches Some(bytes) && bytes@ == world_data_bytes(
                    final(self).save().seed(),
                    final(self).save().chunks(),
                    final(self).save().placements(),
                )
            },
    {
        if self.save_file.save_directory().is_none() {
            return None;
        }
        let order = self.keys_in_order();
        let ghost ord = order@;
        let mut c: usize = 0;
        while c < order.len()
            invariant
                ord == order@,
                is_ascending(ord),
                forall|k: (i32, i32)| old(self).columns().contains_key(k) <==> ord.contains(k),
                self.wf(),
                self.columns == old(self).columns,
                self.column_index == old(self).column_index,
                self.item_manager == old(self).item_manager,
                self.pending == old(self).pending,
                self.save_file.directory() == old(self).save_file.directory(),
                self.save_file.seed() == old(self).save_file.seed(),
                self.save_file.placements() == old(self).save_file.placements(),
                self.save_file.wf(),
                self.save_file.chunks() == save_columns(
                    old(self).save_file.chunks(),
                    old(self).columns(),
                    ord.take(c as int),
                ),
                forall|p: Vec3<i32>|
                    !is_resident_chunk(old(self).columns(), p) ==> #[trigger] saved_runs(
                        self.save_file.chunks(),
                        p,
                    ) == saved_runs(old(self).save_file.chunks(), p),
                unique_positions(old(self).save_file.chunks()) ==> unique_positions(
                    self.save_file.chunks(),
                ),
                c <= ord.len(),
                forall|j: int|
                    0 <= j < c ==> column_saved(
                        self.save_file.chunks(),
                        #[trigger] ord[j],
                        old(self).columns()[ord[j]],
                    ),
            decreases ord.len() - c,
        {
            let key = order[c];
            let ghost k = key;
            proof {
                assert(ord.contains(k));
            }
            let i = self.resident_index(&Vec2::new(key.0, key.1));
            let mut h: usize = 0;
            while h < 16
                invariant
                    self.wf(),
                    self.columns == old(self).columns,
                    self.column_index == old(self).column_index,
                    self.item_manager == old(self).item_manager,
                    self.pending == old(self).pending,
                    self.save_file.directory() == old(self).save_file.directory(),
                    self.save_file.seed() == old(self).save_file.seed(),
                    self.save_file.placements() == old(self).save_file.placements(),
                    self.save_file.wf(),
                    self.save_file.chunks() == save_column_chunks(
                        save_columns(
                            old(self).save_file.chunks(),
                            old(self).columns(),
                            ord.take(c as int),
                        ),
                        k,
                        old(self).columns()[k],
                        h as int,
                    ),
                    forall|p: Vec3<i32>|
                        !is_resident_chunk(old(self).columns(), p) ==> #[trigger] saved_runs(
                            self.save_file.chunks(),
                            p,
                        ) == saved_runs(old(self).save_file.chunks(), p),
                    unique_positions(old(self).save_file.chunks()) ==> unique_positions(
                        self.save_file.chunks(),
                    ),
                    ord == order@,
                    is_ascending(ord),
                    c < ord.len(),
                    k == ord[c as int],
                    i < self.columns@.len(),
                    self.columns@[i as int].spec_position() == column_of_key(k),
                    self.columns@[i as int]@ == old(self).columns()[k],
                    old(self).columns().contains_key(k),
                    h <= 16,
                    forall|j: int|
                        0 <= j < c ==> column_saved(
                            self.save_file.chunks(),
                            #[trigger] ord[j],
                            old(self).columns()[ord[j]],
                        ),
                    forall|n: int|
                        0 <= n < h ==> match #[trigger] saved_runs(
                            self.save_file.chunks(),
                            chunk_grid_position(column_of_key(k), n),
                        ) {
                            Some(runs) => expand(runs) == self.columns@[i as int]@[n] && is_maximal(runs),
                            None => false,
                        },
                decreases 16 - h,
            {
                let ghost before = self.save_file.chunks();
                let chunk = self.columns[i].get_chunk(h as u8);
                self.save_file.save_chunk_data(chunk);
                proof {
                    let p = chunk_grid_position(column_of_key(k), h as int);
                    assert(chunk.spec_position() == p);
                    assert(old(self).columns().contains_key(k));
                    assert(is_resident_chunk(old(self).columns(), p));
                    assert forall|j: int| 0 <= j < c implies column_saved(
                        self.save_file.chunks(),
                        #[trigger] ord[j],
                        old(self).columns()[ord[j]],
                    ) by {
                        let kj = ord[j];
                        assert(key_less(kj, k));
                        assert forall|n: int| 0 <= n < COLUMN_CHUNKS implies #[trigger] saved_runs(
                            self.save_file.chunks(),
                            chunk_grid_position(column_of_key(kj), n),
                        ) == saved_runs(before, chunk_grid_position(column_of_key(kj), n)) by {
                            assert(chunk_grid_position(column_of_key(kj), n) != p);
                        }
                    }
                    assert forall|n: int| 0 <= n < h + 1 implies match #[trigger] saved_runs(
                        self.save_file.chunks(),
                        chunk_grid_position(column_of_key(k), n),
                    ) {
                        Some(runs) => expand(runs) == self.columns@[i as int]@[n] && is_maximal(runs),
                        None => false,
                    } by {
                        if n < h {
                            assert(chunk_grid_position(column_of_key(k), n) != p);
                        }
                    }
                }
                h += 1;
            }
            proof {
                assert(ord.take(c + 1).drop_last() =~= ord.take(c as int));
                assert(ord.take(c + 1).last() == k);
            }
            c += 1;
        }
        proof {
            assert(ord.take(ord.len() as int) =~= ord);
            assert forall|k: (i32, i32)| #[trigger] self.columns().contains_key(k) implies column_saved(
                self.save_file.chunks(),
                k,
                self.columns()[k],
            ) by {
                assert(ord.contains(k));
                let j = choose|j: int| 0 <= j < ord.len() && ord[j] == k;
                assert(column_saved(self.save_file.chunks(), ord[j], old(self).columns()[ord[j]]));
            }
            assert(save_columns(old(self).save().chunks(), old(self).columns(), ord) == self.save().chunks());
        }
        Some(self.save_file.write_save())
    }
}

/// What became of a chunk update.
#[derive(Clone, Copy, Debug, PartialEq, Eq)]
pub enum UpdateOutcome {
    /// The block was set to the requested id.
    Placed,
    /// Placing or destroying was refused: the position lies above or below
    /// the world.
    OutOfHeight,
    /// Placing was refused: the id is missing from the registry.
    UnknownBlock(i32),
    /// The block was set to air.
    Destroyed,
    /// Placing was refused: the block holds this non-air id.
    Occupied(i32),
    /// Destroying was refused: the block holds this id, which is not above air.
    AlreadyEmpty(i32),
    /// The action byte was neither place nor destroy.
    UnknownAction(u8),
}

/// The outcome of `action` at a position outside the world's height.
pub open spec fn outside_outcome(action: ChunkAction) -> UpdateOutcome {
    match action {
        ChunkAction::Unknown(b) => UpdateOutcome::UnknownAction(b),
        _ => UpdateOutcome::OutOfHeight,
    }
}

/// The outcome of `action` on a block that holds `existing`, with the
/// item registry `registry`.
pub open spec fn update_outcome(action: ChunkAction, existing: i32, registry: Seq<ItemData>) -> UpdateOutcome {
    match action {
        ChunkAction::Place(id) => if existing > 0 {
            UpdateOutcome::Occupied(existing)
        } else if !is_registered(registry, id as int) {
            UpdateOutcome::UnknownBlock(id)
        } else {
            UpdateOutcome::Placed
        },
        ChunkAction::Destroy => if existing < 1 {
            UpdateOutcome::AlreadyEmpty(existing)
        } else {
            UpdateOutcome::Destroyed
        },
        ChunkAction::Unknown(b) => UpdateOutcome::UnknownAction(b),
    }
}

/// `new` is `old` with the block at world position `p` set to `id`, or
/// `old` itself when `id` is not registered.
pub open spec fn block_set(old: World, new: World, p: Vec3<i32>, id: i32) -> bool {
    if is_registered(old.registry(), id as int) {
        &&& new.wf()
        &&& new.registry() == old.registry()
        &&& new.save() == old.save()
        &&& new.pending() == old.pending()
        &&& new.columns() == old.columns().insert(
            column_key(p),
            with_block(
                old.columns()[column_key(p)],
                local_coord(p.x as int),
                p.y as int,
                local_coord(p.z as int),
                id,
            ),
        )
    } else {
        new == old
    }
}

impl World {
    /// Applies a client's chunk update at world `position`: placing only
    /// a registered id over air (an id not above 0), destroying only a
    /// block above air.
    /// The column is generated first if it is not resident.
    pub fn handle_chunk_update<G: ColumnGenerator>(
        &mut self,
        position: &Vec3<i32>,
        action: ChunkAction,
        generator: &mut G,
    ) -> (r: UpdateOutcome)
        requires
            old(self).wf(),
        ensures
            !in_height(*position) ==> r == outside_outcome(action) && *final(self)
                == *old(self),
            !in_height(*position) || old(self).columns().contains_key(column_key(*position))
                || fully_saved(old(self).save().chunks(), column_key(*position)) ==> *final(generator)
                == *old(generator),
            in_height(*position) ==> exists|w1: World|
                {
                    &&& #[trigger] made_resident(*old(self), w1, column_key(*position))
                    &&& r == update_outcome(action, block_at(w1.columns(), *position), w1.registry())
                    &&& match r {
                        UpdateOutcome::Placed => match action {
                            ChunkAction::Place(id) => block_set(w1, *final(self), *position, id),
                            _ => false,
                        },
                        UpdateOutcome::Destroyed => block_set(w1, *final(self), *position, 0),
                        _ => *final(self) == w1,
                    }
                },
    {
        let chunk_position = World::world_to_chunk_position(position);
        if chunk_position.y < 0 || chunk_position.y > 15 {
            return match action {
                ChunkAction::Unknown(b) => UpdateOutcome::UnknownAction(b),
                _ => UpdateOutcome::OutOfHeight,
            };
        }
        let existing = self.get_block(position, generator);
        let ghost w1 = *self;
        let r = match action {
            ChunkAction::Place(id) => {
                if existing > 0 {
                    UpdateOutcome::Occupied(existing)
                } else if self.item_manager.get_item_by_id(id).is_none() {
                    UpdateOutcome::UnknownBlock(id)
                } else {
                    self.set_block(position, id, generator);
                    UpdateOutcome::Placed
                }
            },
            ChunkAction::Destroy => {
                if existing < 1 {
                    UpdateOutcome::AlreadyEmpty(existing)
                } else {
                    self.set_block(position, 0, generator);
                    UpdateOutcome::Destroyed
                }
            },
            ChunkAction::Unknown(b) => UpdateOutcome::UnknownAction(b),
        };
        proof {
            if in_height(*position) {
                assert(made_resident(*old(self), w1, column_key(*position)));
            }
        }
        r
    }
}

} // verus!
