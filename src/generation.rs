use vstd::prelude::*;

use crate::chunk_column::{in_column, with_block, with_layers, ChunkColumn};
use crate::coords::{chunk_coord, floor_div16, local_coord, mod16};
use crate::items::ItemManager;
use crate::vector_types::{Vec2, Vec3};
use crate::world::BlockToPlace;

verus! {

/// One edit that a generator asks for, in column-local coordinates.
#[derive(Clone, Copy, Debug, PartialEq, Eq)]
pub enum GenerationCommand {
    /// Set the block at `(x, y, z)`; X or Z outside `[0, 16)` reach into
    /// a neighbouring column.
    SetBlock { x: i32, y: i32, z: i32, id: i32 },
    /// Set every block whose Y lies in `[lower, upper]`.
    SetLayers { lower: u32, upper: u32, id: i32 },
}

/// The edits a generator makes to the column it is generating, recorded in
/// the order they were asked for.
pub struct ColumnEdits {
    commands: Vec<GenerationCommand>,
}

impl View for ColumnEdits {
    type V = Seq<GenerationCommand>;

    closed spec fn view(&self) -> Seq<GenerationCommand> {
        self.commands@
    }
}

impl ColumnEdits {
    /// No edits yet.
    pub fn new() -> (r: ColumnEdits)
        ensures
            r@ == Seq::<GenerationCommand>::empty(),
    {
        ColumnEdits { commands: Vec::new() }
    }

    /// Asks for the block at column-local `(x, y, z)` to be `id`.
    pub fn set_block(&mut self, x: i32, y: i32, z: i32, id: i32)
        ensures
            final(self)@ == old(self)@.push(GenerationCommand::SetBlock { x, y, z, id }),
    {
        self.commands.push(GenerationCommand::SetBlock { x, y, z, id });
    }

    /// Asks for every block whose Y lies in `[lower, upper]` to be `id`.
    pub fn set_layers(&mut self, lower: u32, upper: u32, id: i32)
        ensures
            final(self)@ == old(self)@.push(GenerationCommand::SetLayers { lower, upper, id }),
    {
        self.commands.push(GenerationCommand::SetLayers { lower, upper, id });
    }

    /// The edits, oldest first.
    pub fn commands(&self) -> (r: &Vec<GenerationCommand>)
        ensures
            r@ == self@,
    {
        &self.commands
    }
}

/// Produces the terrain of columns that were never generated nor saved.
pub trait ColumnGenerator {
    /// Describes the column at `column` through `edits`; `items` resolves
    /// item names to ids.
    fn generate_column(&mut self, column: Vec2<i32>, items: &ItemManager, edits: &mut ColumnEdits);
}

/// `v` fits an `i32`.
pub open spec fn fits_i32(v: int) -> bool {
    i32::MIN <= v <= i32::MAX
}

/// Where a block set at column-local `(x, y, z)` of the column at `column`
/// lands when X or Z lie outside the column; `None` when the target column
/// coordinate does not fit an `i32`.
pub open spec fn placement_target(column: Vec2<i32>, x: int, y: i32, z: int, id: i32) -> Option<
    BlockToPlace,
> {
    let tx = column.x + chunk_coord(x);
    let tz = column.y + chunk_coord(z);
    if fits_i32(tx) && fits_i32(tz) {
        Some(
            BlockToPlace {
                column_position: Vec2 { x: tx as i32, y: tz as i32 },
                position_in_column: Vec3 {
                    x: local_coord(x) as i32,
                    y: y,
                    z: local_coord(z) as i32,
                },
                block_id: id,
            },
        )
    } else {
        None
    }
}

/// The effect of one command on a column's contents and on the list of
/// blocks meant for other columns. Blocks above or below the column are
/// dropped, and layers above the column are ignored.
pub open spec fn apply_command(
    state: (Seq<Seq<i32>>, Seq<BlockToPlace>),
    column: Vec2<i32>,
    cmd: GenerationCommand,
) -> (Seq<Seq<i32>>, Seq<BlockToPlace>) {
    match cmd {
        GenerationCommand::SetBlock { x, y, z, id } => {
            if 0 <= x < 16 && 0 <= z < 16 {
                if in_column(x as int, y as int, z as int) {
                    (with_block(state.0, x as int, y as int, z as int, id), state.1)
                } else {
                    state
                }
            } else {
                match placement_target(column, x as int, y, z as int, id) {
                    Some(b) => (state.0, state.1.push(b)),
                    None => state,
                }
            }
        },
        GenerationCommand::SetLayers { lower, upper, id } => (
            with_layers(state.0, lower as int, if upper > 255 { 255 } else { upper as int }, id),
            state.1,
        ),
    }
}

/// The effect of a sequence of commands, applied in order.
pub open spec fn apply_commands(
    blocks: Seq<Seq<i32>>,
    column: Vec2<i32>,
    cmds: Seq<GenerationCommand>,
) -> (Seq<Seq<i32>>, Seq<BlockToPlace>)
    decreases cmds.len(),
{
    if cmds.len() == 0 {
        (blocks, Seq::empty())
    } else {
        apply_command(apply_commands(blocks, column, cmds.drop_last()), column, cmds.last())
    }
}

/// Applies a generator's commands to `column` in order, and returns the
/// blocks that fall in other columns, each with its target column and its
/// position there.
pub fn apply_generation(column: &mut ChunkColumn, commands: &Vec<GenerationCommand>) -> (placed:
    Vec<BlockToPlace>)
    requires
        old(column).wf(),
    ensures
        final(column).wf(),
        final(column).spec_position() == old(column).spec_position(),
        (final(column)@, placed@) == apply_commands(
            old(column)@,
            old(column).spec_position(),
            commands@,
        ),
{
    let pos = column.position();
    let mut placed: Vec<BlockToPlace> = Vec::new();
    let mut i: usize = 0;
    while i < commands.len()
        invariant
            column.wf(),
            column.spec_position() == pos,
            pos == old(column).spec_position(),
            i <= commands@.len(),
            (column@, placed@) == apply_commands(old(column)@, pos, commands@.take(i as int)),
        decreases commands@.len() - i,
    {
        proof {
            assert(commands@.take(i + 1).drop_last() =~= commands@.take(i as int));
        }
        match commands[i] {
            GenerationCommand::SetBlock { x, y, z, id } => {
                if 0 <= x && x < 16 && 0 <= z && z < 16 {
                    let _ = column.set_block(&Vec3::new(x, y, z), id);
                } else {
                    let tx: i64 = pos.x as i64 + floor_div16(x) as i64;
                    let tz: i64 = pos.y as i64 + floor_div16(z) as i64;
                    if i32::MIN as i64 <= tx && tx <= i32::MAX as i64 && i32::MIN as i64 <= tz && tz
                        <= i32::MAX as i64 {
                        placed.push(
                            BlockToPlace {
                                column_position: Vec2::new(tx as i32, tz as i32),
                                position_in_column: Vec3::new(mod16(x), y, mod16(z)),
                                block_id: id,
                            },
                        );
                    }
                }
            },
            GenerationCommand::SetLayers { lower, upper, id } => {
                let top: u32 = if upper > 255 {
                    255
                } else {
                    upper
                };
                column.set_layers(lower, top, id);
            },
        }
        i += 1;
    }
    proof {
        assert(commands@.take(commands@.len() as int) =~= commands@);
    }
    placed
}

} // verus!
