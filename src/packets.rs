use vstd::prelude::*;

use crate::bytes::{i32_at, i32_le, push_i32, read_i32, read_u32, u32_at};
use crate::chunk::{expand, is_maximal, CompressedSet};
use crate::chunk_column::{ChunkColumn, COLUMN_CHUNKS};
use crate::save_format::{lemma_runs_bytes_push, runs_bytes};
use crate::vector_types::{Vec2, Vec3};

verus! {

/// The kind of a packet, sent as its first byte.
#[derive(Clone, Copy, Debug, PartialEq, Eq)]
pub enum PacketType {
    PlayerInfoRequest,
    PlayerInfoData,
    ChunkRequest,
    ChunkUpdate,
    ChunkContents,
}

/// The byte that stands for a packet type.
pub open spec fn packet_type_byte(t: PacketType) -> u8 {
    match t {
        PacketType::PlayerInfoRequest => 0,
        PacketType::PlayerInfoData => 1,
        PacketType::ChunkRequest => 2,
        PacketType::ChunkUpdate => 3,
        PacketType::ChunkContents => 4,
    }
}

impl PacketType {
    /// The byte that stands for this packet type.
    pub fn to_byte(self) -> (r: u8)
        ensures
            r == packet_type_byte(self),
    {
        match self {
            PacketType::PlayerInfoRequest => 0,
            PacketType::PlayerInfoData => 1,
            PacketType::ChunkRequest => 2,
            PacketType::ChunkUpdate => 3,
            PacketType::ChunkContents => 4,
        }
    }
}

/// What a chunk update asks for, sent as one byte after the position.
#[derive(Clone, Copy, Debug, PartialEq, Eq)]
pub enum ChunkUpdateType {
    PlaceBlockEvent,
    DestroyBlockEvent,
}

/// The byte that stands for a chunk update type.
pub open spec fn update_type_byte(t: ChunkUpdateType) -> u8 {
    match t {
        ChunkUpdateType::PlaceBlockEvent => 0,
        ChunkUpdateType::DestroyBlockEvent => 1,
    }
}

impl ChunkUpdateType {
    /// The byte that stands for this update type.
    pub fn to_byte(self) -> (r: u8)
        ensures
            r == update_type_byte(self),
    {
        match self {
            ChunkUpdateType::PlaceBlockEvent => 0,
            ChunkUpdateType::DestroyBlockEvent => 1,
        }
    }
}

/// The change a chunk update asks for.
#[derive(Clone, Copy, Debug, PartialEq, Eq)]
pub enum ChunkAction {
    /// Place a block of this id.
    Place(i32),
    /// Remove the block, leaving air.
    Destroy,
    /// An action byte that is neither place nor destroy.
    Unknown(u8),
}

/// A request from a client.
pub enum Request {
    /// Asks for the stored data of the named player.
    PlayerInfoRequest { username: Vec<u8> },
    /// Reports a player's position (three little-endian `f32`) and rotation
    /// (two little-endian `f32`), kept here as their raw bytes.
    PlayerInfoData { position: Vec<u8>, rotation: Vec<u8>, username: Vec<u8> },
    /// Asks for the contents of a column.
    ChunkRequest { column: Vec2<i32> },
    /// Asks to place or destroy the block at a world position.
    ChunkUpdate { position: Vec3<i32>, action: ChunkAction },
}

/// The content of a request, over byte sequences.
pub enum RequestView {
    PlayerInfoRequest { username: Seq<u8> },
    PlayerInfoData { position: Seq<u8>, rotation: Seq<u8>, username: Seq<u8> },
    ChunkRequest { column: Vec2<i32> },
    ChunkUpdate { position: Vec3<i32>, action: ChunkAction },
}

impl View for Request {
    type V = RequestView;

    open spec fn view(&self) -> RequestView {
        match self {
            Request::PlayerInfoRequest { username } => RequestView::PlayerInfoRequest {
                username: username@,
            },
            Request::PlayerInfoData { position, rotation, username } => RequestView::PlayerInfoData {
                position: position@,
                rotation: rotation@,
                username: username@,
            },
            Request::ChunkRequest { column } => RequestView::ChunkRequest { column: *column },
            Request::ChunkUpdate { position, action } => RequestView::ChunkUpdate {
                position: *position,
                action: *action,
            },
        }
    }
}

/// Why a packet could not be read.
#[derive(Clone, Copy, Debug, PartialEq, Eq)]
pub enum ProtocolError {
    /// The packet has no bytes.
    Empty,
    /// The packet is shorter than its type requires.
    Truncated,
    /// The first byte is not the type of a request.
    UnknownPacketType(u8),
}

/// What a packet reads as. Text fields run from their start to the byte
/// before the last, which is the terminating NUL.
pub open spec fn parse_request(s: Seq<u8>) -> Result<RequestView, ProtocolError> {
    if s.len() == 0 {
        Err(ProtocolError::Empty)
    } else if s[0] == 0 {
        if s.len() < 2 {
            Err(ProtocolError::Truncated)
        } else {
            Ok(RequestView::PlayerInfoRequest { username: s.subrange(1, s.len() - 1) })
        }
    } else if s[0] == 1 {
        if s.len() < 22 {
            Err(ProtocolError::Truncated)
        } else {
            Ok(
                RequestView::PlayerInfoData {
                    position: s.subrange(1, 13),
                    rotation: s.subrange(13, 21),
                    username: s.subrange(21, s.len() - 1),
                },
            )
        }
    } else if s[0] == 2 {
        if s.len() < 9 {
            Err(ProtocolError::Truncated)
        } else {
            Ok(RequestView::ChunkRequest { column: Vec2 { x: i32_at(s, 1), y: i32_at(s, 5) } })
        }
    } else if s[0] == 3 {
        if s.len() < 14 {
            Err(ProtocolError::Truncated)
        } else {
            let position = Vec3 { x: i32_at(s, 1), y: i32_at(s, 5), z: i32_at(s, 9) };
            if s[13] == 0 {
                if s.len() < 18 {
                    Err(ProtocolError::Truncated)
                } else {
                    Ok(
                        RequestView::ChunkUpdate {
                            position,
                            action: ChunkAction::Place(u32_at(s, 14) as i32),
                        },
                    )
                }
            } else if s[13] == 1 {
                Ok(RequestView::ChunkUpdate { position, action: ChunkAction::Destroy })
            } else {
                Ok(RequestView::ChunkUpdate { position, action: ChunkAction::Unknown(s[13]) })
            }
        }
    } else {
        Err(ProtocolError::UnknownPacketType(s[0]))
    }
}

/// Copies `data[from..to]`.
fn copy_range(data: &Vec<u8>, from: usize, to: usize) -> (r: Vec<u8>)
    requires
        from <= to <= data@.len(),
    ensures
        r@ == data@.subrange(from as int, to as int),
{
    let mut out: Vec<u8> = Vec::new();
    let mut i: usize = from;
    while i < to
        invariant
            from <= i <= to,
            to <= data@.len(),
            out@ == data@.subrange(from as int, i as int),
        decreases to - i,
    {
        out.push(data[i]);
        i += 1;
        assert(out@ =~= data@.subrange(from as int, i as int));
    }
    out
}

/// Reads a request packet.
pub fn read_request(data: &Vec<u8>) -> (r: Result<Request, ProtocolError>)
    ensures
        match r {
            Ok(req) => parse_request(data@) == Ok::<RequestView, ProtocolError>(req@),
            Err(e) => parse_request(data@) == Err::<RequestView, ProtocolError>(e),
        },
{
    let n = data.len();
    if n == 0 {
        return Err(ProtocolError::Empty);
    }
    let kind = data[0];
    if kind == 0 {
        if n < 2 {
            return Err(ProtocolError::Truncated);
        }
        Ok(Request::PlayerInfoRequest { username: copy_range(data, 1, n - 1) })
    } else if kind == 1 {
        if n < 22 {
            return Err(ProtocolError::Truncated);
        }
        Ok(
            Request::PlayerInfoData {
                position: copy_range(data, 1, 13),
                rotation: copy_range(data, 13, 21),
                username: copy_range(data, 21, n - 1),
            },
        )
    } else if kind == 2 {
        if n < 9 {
            return Err(ProtocolError::Truncated);
        }
        Ok(Request::ChunkRequest { column: Vec2::new(read_i32(data, 1), read_i32(data, 5)) })
    } else if kind == 3 {
        if n < 14 {
            return Err(ProtocolError::Truncated);
        }
        let position = Vec3::new(read_i32(data, 1), read_i32(data, 5), read_i32(data, 9));
        let action_byte = data[13];
        if action_byte == 0 {
            if n < 18 {
                return Err(ProtocolError::Truncated);
            }
            Ok(
                Request::ChunkUpdate {
                    position,
                    action: ChunkAction::Place(read_u32(data, 14) as i32),
                },
            )
        } else if action_byte == 1 {
            Ok(Request::ChunkUpdate { position, action: ChunkAction::Destroy })
        } else {
            Ok(Request::ChunkUpdate { position, action: ChunkAction::Unknown(action_byte) })
        }
    } else {
        Err(ProtocolError::UnknownPacketType(kind))
    }
}

/// One chunk's section of a chunk contents packet: its grid position, its
/// runs, and a count of -1 that ends them.
pub open spec fn chunk_section(position: Vec3<i32>, runs: Seq<CompressedSet>) -> Seq<u8> {
    i32_le(position.x) + i32_le(position.y) + i32_le(position.z) + runs_bytes(runs) + i32_le(-1i32)
}

/// The sections of the first `n` chunks of the column at `column`.
pub open spec fn column_sections(column: Vec2<i32>, runs: Seq<Seq<CompressedSet>>, n: int) -> Seq<
    u8,
>
    decreases n,
{
    if n <= 0 {
        Seq::empty()
    } else {
        column_sections(column, runs, n - 1) + chunk_section(
            Vec3 { x: column.x, y: (n - 1) as i32, z: column.y },
            runs[n - 1],
        )
    }
}

/// A chunk contents packet: the type byte, then each chunk's section, bottom first.
pub open spec fn chunk_contents_bytes(column: Vec2<i32>, runs: Seq<Seq<CompressedSet>>) -> Seq<u8> {
    seq![packet_type_byte(PacketType::ChunkContents)] + column_sections(
        column,
        runs,
        COLUMN_CHUNKS as int,
    )
}

/// `runs` holds, for each chunk of `col`, the maximal runs of its blocks.
pub open spec fn encodes_column(runs: Seq<Seq<CompressedSet>>, col: Seq<Seq<i32>>) -> bool {
    &&& runs.len() == COLUMN_CHUNKS
    &&& forall|i: int|
        0 <= i < COLUMN_CHUNKS ==> expand(#[trigger] runs[i]) == col[i] && is_maximal(runs[i])
}

/// The chunk contents packet for `col`: each chunk's runs, bottom first.
pub fn assemble_chunk_contents_packet(col: &ChunkColumn) -> (r: Vec<u8>)
    requires
        col.wf(),
    ensures
        exists|runs: Seq<Seq<CompressedSet>>|
            encodes_column(runs, col@) && r@ == chunk_contents_bytes(col.spec_position(), runs),
{
    let mut out: Vec<u8> = Vec::new();
    out.push(PacketType::ChunkContents.to_byte());
    let chunks = col.get_chunks();
    let column = col.position();
    proof {
        col.lemma_wf_view();
    }
    let ghost mut all: Seq<Seq<CompressedSet>> = Seq::empty();
    let mut i: usize = 0;
    while i < COLUMN_CHUNKS
        invariant
            i <= COLUMN_CHUNKS,
            chunks@.len() == COLUMN_CHUNKS,
            column == col.spec_position(),
            col@.len() == COLUMN_CHUNKS,
            forall|j: int|
                0 <= j < COLUMN_CHUNKS ==> {
                    &&& (#[trigger] chunks@[j]).wf()
                    &&& chunks@[j]@ == col@[j]
                    &&& chunks@[j].spec_position() == Vec3 { x: column.x, y: j as i32, z: column.y }
                },
            all.len() == i,
            forall|j: int| 0 <= j < i ==> expand(#[trigger] all[j]) == col@[j] && is_maximal(all[j]),
            out@ == seq![packet_type_byte(PacketType::ChunkContents)] + column_sections(
                column,
                all,
                i as int,
            ),
        decreases COLUMN_CHUNKS - i,
    {
        let chunk = &chunks[i];
        let position = chunk.position();
        let ghost before = out@;
        push_i32(&mut out, position.x);
        push_i32(&mut out, position.y);
        push_i32(&mut out, position.z);
        let ghost head = out@;
        let runs = chunk.compress();
        let mut j: usize = 0;
        while j < runs.len()
            invariant
                j <= runs@.len(),
                out@ == head + runs_bytes(runs@.take(j as int)),
            decreases runs@.len() - j,
        {
            let run = runs[j];
            push_i32(&mut out, run.id);
            push_i32(&mut out, run.count);
            proof {
                assert(runs@.take(j + 1) =~= runs@.take(j as int).push(run));
                lemma_runs_bytes_push(runs@.take(j as int), run);
            }
            j += 1;
        }
        push_i32(&mut out, -1);
        proof {
            assert(runs@.take(runs@.len() as int) =~= runs@);
            let old_all = all;
            all = all.push(runs@);
            assert(column_sections(column, all, i as int) == column_sections(column, old_all, i as int))
                by {
                lemma_sections_prefix(column, old_all, all, i as int);
            }
            assert(out@ =~= before + chunk_section(position, runs@));
        }
        i += 1;
    }
    proof {
        assert(encodes_column(all, col@));
        assert(out@ == chunk_contents_bytes(col.spec_position(), all));
    }
    out
}

proof fn lemma_sections_prefix(
    column: Vec2<i32>,
    a: Seq<Seq<CompressedSet>>,
    b: Seq<Seq<CompressedSet>>,
    n: int,
)
    requires
        0 <= n <= a.len(),
        n <= b.len(),
        forall|j: int| 0 <= j < n ==> a[j] == b[j],
    ensures
        column_sections(column, a, n) == column_sections(column, b, n),
    decreases n,
{
    if n > 0 {
        lemma_sections_prefix(column, a, b, n - 1);
    }
}

/// A player info packet: the type byte, the position and rotation bytes,
/// the username, and a terminating NUL.
pub fn assemble_player_info_data(position: &Vec<u8>, rotation: &Vec<u8>, username: &Vec<u8>) -> (r:
    Vec<u8>)
    requires
        position@.len() == 12,
        rotation@.len() == 8,
    ensures
        r@ == seq![packet_type_byte(PacketType::PlayerInfoData)] + position@ + rotation@ + username@
            + seq![0u8],
{
    let mut out: Vec<u8> = Vec::new();
    out.push(PacketType::PlayerInfoData.to_byte());
    let mut i: usize = 0;
    while i < position.len()
        invariant
            i <= position@.len(),
            out@ == seq![packet_type_byte(PacketType::PlayerInfoData)] + position@.take(i as int),
        decreases position@.len() - i,
    {
        out.push(position[i]);
        i += 1;
        assert(out@ =~= seq![packet_type_byte(PacketType::PlayerInfoData)] + position@.take(i as int));
    }
    assert(position@.take(position@.len() as int) =~= position@);
    let ghost a = out@;
    let mut i: usize = 0;
    while i < rotation.len()
        invariant
            i <= rotation@.len(),
            out@ == a + rotation@.take(i as int),
        decreases rotation@.len() - i,
    {
        out.push(rotation[i]);
        i += 1;
        assert(out@ =~= a + rotation@.take(i as int));
    }
    assert(rotation@.take(rotation@.len() as int) =~= rotation@);
    let ghost b = out@;
    let mut i: usize = 0;
    while i < username.len()
        invariant
            i <= username@.len(),
            out@ == b + username@.take(i as int),
        decreases username@.len() - i,
    {
        out.push(username[i]);
        i += 1;
        assert(out@ =~= b + username@.take(i as int));
    }
    assert(username@.take(username@.len() as int) =~= username@);
    out.push(0u8);
    out
}

} // verus!
