use vstd::prelude::*;

use crate::bytes::{i32_at, i32_le, lemma_i32_round_trip, lemma_u32_round_trip, u32_at, u32_le};
use crate::chunk::CompressedSet;
use crate::vector_types::{Vec2, Vec3};
use crate::world::BlockToPlace;

verus! {

/// First byte of a world data file: the version of its layout.
pub const SAVE_FORMAT_VERSION: u8 = 1;

/// Tag byte of a chunk record (`'C'`).
pub const CHUNK_TAG: u8 = 67;

/// Tag byte of a pending-placement record (`'N'`).
pub const PLACEMENT_TAG: u8 = 78;

/// Why saved world data could not be read.
#[derive(Clone, Copy, Debug, PartialEq, Eq)]
pub enum SaveError {
    /// The data ends inside the seed or inside a record.
    Truncated,
    /// A record starts with a tag that is neither `'C'` nor `'N'`.
    UnknownRecord(u8),
    /// The file starts with a layout version this library does not read.
    UnsupportedVersion(u8),
}

/// Byte `j` (in `[0, 8)`) of the encoding of run `r`: its id, then its count.
pub open spec fn run_byte(r: CompressedSet, j: int) -> u8 {
    if j < 4 {
        i32_le(r.id)[j]
    } else {
        i32_le(r.count)[j - 4]
    }
}

/// The runs, eight bytes each.
pub open spec fn runs_bytes(runs: Seq<CompressedSet>) -> Seq<u8> {
    Seq::new(8 * runs.len(), |j: int| run_byte(runs[j / 8], j % 8))
}

/// A chunk record: tag, chunk-grid position, number of runs, runs.
pub open spec fn chunk_record(c: (Vec3<i32>, Seq<CompressedSet>)) -> Seq<u8> {
    seq![CHUNK_TAG] + i32_le(c.0.x) + i32_le(c.0.y) + i32_le(c.0.z) + u32_le(c.1.len() as u32)
        + runs_bytes(c.1)
}

/// A placement record: tag, column position, position in the column, block id.
pub open spec fn placement_record(b: BlockToPlace) -> Seq<u8> {
    seq![PLACEMENT_TAG] + i32_le(b.column_position.x) + i32_le(b.column_position.y) + i32_le(
        b.position_in_column.x,
    ) + i32_le(b.position_in_column.y) + i32_le(b.position_in_column.z) + i32_le(b.block_id)
}

/// The chunk records of `cs`, in order.
pub open spec fn chunk_records(cs: Seq<(Vec3<i32>, Seq<CompressedSet>)>) -> Seq<u8>
    decreases cs.len(),
{
    if cs.len() == 0 {
        Seq::empty()
    } else {
        chunk_record(cs[0]) + chunk_records(cs.skip(1))
    }
}

/// The placement records of `bs`, in order.
pub open spec fn placement_records(bs: Seq<BlockToPlace>) -> Seq<u8>
    decreases bs.len(),
{
    if bs.len() == 0 {
        Seq::empty()
    } else {
        placement_record(bs[0]) + placement_records(bs.skip(1))
    }
}

/// The world data file: the layout version, the seed, every chunk record,
/// every placement record.
pub open spec fn world_data_bytes(
    seed: i32,
    cs: Seq<(Vec3<i32>, Seq<CompressedSet>)>,
    bs: Seq<BlockToPlace>,
) -> Seq<u8> {
    seq![SAVE_FORMAT_VERSION] + i32_le(seed) + chunk_records(cs) + placement_records(bs)
}

/// `n` runs read from the start of `s`.
pub open spec fn decode_runs(s: Seq<u8>, n: int) -> Seq<CompressedSet> {
    Seq::new(n as nat, |i: int| CompressedSet { id: i32_at(s, 8 * i), count: i32_at(s, 8 * i + 4) })
}

/// Records read so far put in front of what the rest reads as.
pub open spec fn prepend(
    cs: Seq<(Vec3<i32>, Seq<CompressedSet>)>,
    bs: Seq<BlockToPlace>,
    rest: Result<(Seq<(Vec3<i32>, Seq<CompressedSet>)>, Seq<BlockToPlace>), SaveError>,
) -> Result<(Seq<(Vec3<i32>, Seq<CompressedSet>)>, Seq<BlockToPlace>), SaveError> {
    match rest {
        Ok((c, b)) => Ok((cs + c, bs + b)),
        Err(e) => Err(e),
    }
}

/// The records of `s`, chunk and placement records each in file order.
#[verifier::opaque]
pub open spec fn decode_records(s: Seq<u8>) -> Result<
    (Seq<(Vec3<i32>, Seq<CompressedSet>)>, Seq<BlockToPlace>),
    SaveError,
>
    decreases s.len(),
{
    if s.len() == 0 {
        Ok((Seq::empty(), Seq::empty()))
    } else if s[0] == CHUNK_TAG {
        if s.len() < 17 {
            Err(SaveError::Truncated)
        } else {
            let n = u32_at(s, 13) as int;
            let end = 17 + 8 * n;
            if s.len() < end {
                Err(SaveError::Truncated)
            } else {
                let c = (
                    Vec3 { x: i32_at(s, 1), y: i32_at(s, 5), z: i32_at(s, 9) },
                    decode_runs(s.skip(17), n),
                );
                prepend(seq![c], Seq::empty(), decode_records(s.skip(end)))
            }
        }
    } else if s[0] == PLACEMENT_TAG {
        if s.len() < 25 {
            Err(SaveError::Truncated)
        } else {
            let b = BlockToPlace {
                column_position: Vec2 { x: i32_at(s, 1), y: i32_at(s, 5) },
                position_in_column: Vec3 { x: i32_at(s, 9), y: i32_at(s, 13), z: i32_at(s, 17) },
                block_id: i32_at(s, 21),
            };
            prepend(Seq::empty(), seq![b], decode_records(s.skip(25)))
        }
    } else {
        Err(SaveError::UnknownRecord(s[0]))
    }
}

/// The seed and the records of a world data file of the current layout version.
pub open spec fn decode_world_data(s: Seq<u8>) -> Result<
    (i32, Seq<(Vec3<i32>, Seq<CompressedSet>)>, Seq<BlockToPlace>),
    SaveError,
> {
    if s.len() < 1 {
        Err(SaveError::Truncated)
    } else if s[0] != SAVE_FORMAT_VERSION {
        Err(SaveError::UnsupportedVersion(s[0]))
    } else if s.len() < 5 {
        Err(SaveError::Truncated)
    } else {
        match decode_records(s.skip(5)) {
            Ok((cs, bs)) => Ok((i32_at(s, 1), cs, bs)),
            Err(e) => Err(e),
        }
    }
}

pub proof fn lemma_chunk_records_push(cs: Seq<(Vec3<i32>, Seq<CompressedSet>)>, c: (
    Vec3<i32>,
    Seq<CompressedSet>,
))
    ensures
        chunk_records(cs.push(c)) == chunk_records(cs) + chunk_record(c),
    decreases cs.len(),
{
    if cs.len() == 0 {
        assert(cs.push(c).skip(1) =~= Seq::<(Vec3<i32>, Seq<CompressedSet>)>::empty());
        assert(cs.push(c)[0] == c);
        assert(chunk_records(cs.push(c).skip(1)) == Seq::<u8>::empty());
        assert(chunk_records(cs) == Seq::<u8>::empty());
        assert(chunk_records(cs.push(c)) =~= chunk_records(cs) + chunk_record(c));
    } else {
        assert(cs.push(c).skip(1) =~= cs.skip(1).push(c));
        assert(cs.push(c)[0] == cs[0]);
        lemma_chunk_records_push(cs.skip(1), c);
        assert(chunk_record(cs[0]) + (chunk_records(cs.skip(1)) + chunk_record(c)) =~= (
        chunk_record(cs[0]) + chunk_records(cs.skip(1))) + chunk_record(c));
    }
}

pub proof fn lemma_placement_records_push(bs: Seq<BlockToPlace>, b: BlockToPlace)
    ensures
        placement_records(bs.push(b)) == placement_records(bs) + placement_record(b),
    decreases bs.len(),
{
    if bs.len() == 0 {
        assert(bs.push(b).skip(1) =~= Seq::<BlockToPlace>::empty());
        assert(bs.push(b)[0] == b);
        assert(placement_records(bs.push(b).skip(1)) == Seq::<u8>::empty());
        assert(placement_records(bs) == Seq::<u8>::empty());
        assert(placement_records(bs.push(b)) =~= placement_records(bs) + placement_record(b));
    } else {
        assert(bs.push(b).skip(1) =~= bs.skip(1).push(b));
        assert(bs.push(b)[0] == bs[0]);
        lemma_placement_records_push(bs.skip(1), b);
        assert(placement_record(bs[0]) + (placement_records(bs.skip(1)) + placement_record(b)) =~= (
        placement_record(bs[0]) + placement_records(bs.skip(1))) + placement_record(b));
    }
}

/// Appending a run appends its eight bytes.
pub proof fn lemma_runs_bytes_push(runs: Seq<CompressedSet>, r: CompressedSet)
    ensures
        runs_bytes(runs.push(r)) == runs_bytes(runs) + i32_le(r.id) + i32_le(r.count),
{
    let lhs = runs_bytes(runs.push(r));
    let rhs = runs_bytes(runs) + i32_le(r.id) + i32_le(r.count);
    let n = runs.len() as int;
    assert(8 * (n + 1) == 8 * n + 8);
    assert forall|k: int| 0 <= k < lhs.len() implies #[trigger] lhs[k] == rhs[k] by {
        let q = k / 8;
        let m = k % 8;
        vstd::arithmetic::div_mod::lemma_fundamental_div_mod(k, 8);
        if k < 8 * n {
            assert(q < n) by (nonlinear_arith)
                requires
                    k == 8 * q + m,
                    0 <= m < 8,
                    k < 8 * n,
            ;
            assert(runs.push(r)[q] == runs[q]);
        } else {
            assert(q == n) by (nonlinear_arith)
                requires
                    k == 8 * q + m,
                    0 <= m < 8,
                    8 * n <= k < 8 * n + 8,
            ;
        }
    }
    assert(lhs =~= rhs);
}

/// An `i32` written between `a` and `b` reads back.
proof fn lemma_read_i32(a: Seq<u8>, v: i32, b: Seq<u8>)
    ensures
        i32_at(a + i32_le(v) + b, a.len() as int) == v,
{
    let s = a + i32_le(v) + b;
    let at = a.len() as int;
    assert(s[at] == i32_le(v)[0]);
    assert(s[at + 1] == i32_le(v)[1]);
    assert(s[at + 2] == i32_le(v)[2]);
    assert(s[at + 3] == i32_le(v)[3]);
    lemma_i32_round_trip(v);
    assert(i32_at(s, at) == i32_at(i32_le(v), 0));
}

/// A `u32` written between `a` and `b` reads back.
proof fn lemma_read_u32(a: Seq<u8>, v: u32, b: Seq<u8>)
    ensures
        u32_at(a + u32_le(v) + b, a.len() as int) == v,
{
    let s = a + u32_le(v) + b;
    let at = a.len() as int;
    assert(s[at] == u32_le(v)[0]);
    assert(s[at + 1] == u32_le(v)[1]);
    assert(s[at + 2] == u32_le(v)[2]);
    assert(s[at + 3] == u32_le(v)[3]);
    lemma_u32_round_trip(v);
    assert(u32_at(s, at) == u32_at(u32_le(v), 0));
}

/// Run `i` reads back from the encoded runs.
#[verifier::spinoff_prover]
proof fn lemma_decode_run(runs: Seq<CompressedSet>, rest: Seq<u8>, i: int)
    requires
        0 <= i < runs.len(),
    ensures
        i32_at(runs_bytes(runs) + rest, 8 * i) == runs[i].id,
        i32_at(runs_bytes(runs) + rest, 8 * i + 4) == runs[i].count,
{
    let rb = runs_bytes(runs);
    let s = rb + rest;
    vstd::arithmetic::div_mod::lemma_fundamental_div_mod_converse(8 * i + 0, 8, i, 0);
    vstd::arithmetic::div_mod::lemma_fundamental_div_mod_converse(8 * i + 1, 8, i, 1);
    vstd::arithmetic::div_mod::lemma_fundamental_div_mod_converse(8 * i + 2, 8, i, 2);
    vstd::arithmetic::div_mod::lemma_fundamental_div_mod_converse(8 * i + 3, 8, i, 3);
    vstd::arithmetic::div_mod::lemma_fundamental_div_mod_converse(8 * i + 4, 8, i, 4);
    vstd::arithmetic::div_mod::lemma_fundamental_div_mod_converse(8 * i + 5, 8, i, 5);
    vstd::arithmetic::div_mod::lemma_fundamental_div_mod_converse(8 * i + 6, 8, i, 6);
    vstd::arithmetic::div_mod::lemma_fundamental_div_mod_converse(8 * i + 7, 8, i, 7);
    assert(8 * i + 8 <= 8 * runs.len()) by (nonlinear_arith)
        requires
            i < runs.len(),
    ;
    let id_part = rb.subrange(8 * i, 8 * i + 4);
    let count_part = rb.subrange(8 * i + 4, 8 * i + 8);
    assert(id_part =~= i32_le(runs[i].id));
    assert(count_part =~= i32_le(runs[i].count));
    assert(s =~= rb.subrange(0, 8 * i) + id_part + (rb.subrange(8 * i + 4, rb.len() as int) + rest));
    lemma_read_i32(rb.subrange(0, 8 * i), runs[i].id, rb.subrange(8 * i + 4, rb.len() as int) + rest);
    assert(s =~= rb.subrange(0, 8 * i + 4) + count_part + (rb.subrange(8 * i + 8, rb.len() as int)
        + rest));
    lemma_read_i32(
        rb.subrange(0, 8 * i + 4),
        runs[i].count,
        rb.subrange(8 * i + 8, rb.len() as int) + rest,
    );
}

proof fn lemma_decode_runs(runs: Seq<CompressedSet>, rest: Seq<u8>)
    ensures
        decode_runs(runs_bytes(runs) + rest, runs.len() as int) == runs,
{
    let s = runs_bytes(runs) + rest;
    assert forall|i: int| 0 <= i < runs.len() implies #[trigger] decode_runs(s, runs.len() as int)[i]
        == runs[i] by {
        lemma_decode_run(runs, rest, i);
    }
    assert(decode_runs(s, runs.len() as int) =~= runs);
}

/// What the head of a chunk record followed by `rest` reads as.
#[verifier::spinoff_prover]
proof fn lemma_chunk_head(c: (Vec3<i32>, Seq<CompressedSet>), rest: Seq<u8>)
    requires
        c.1.len() <= u32::MAX,
    ensures
        ({
            let s = chunk_record(c) + rest;
            &&& s.len() >= 17 + 8 * c.1.len()
            &&& s[0] == CHUNK_TAG
            &&& i32_at(s, 1) == c.0.x
            &&& i32_at(s, 5) == c.0.y
            &&& i32_at(s, 9) == c.0.z
            &&& u32_at(s, 13) as int == c.1.len()
            &&& s.skip(17) == runs_bytes(c.1) + rest
            &&& s.skip(17 + 8 * (c.1.len() as int)) == rest
        }),
{
    let t = seq![CHUNK_TAG];
    let x = i32_le(c.0.x);
    let y = i32_le(c.0.y);
    let z = i32_le(c.0.z);
    let n = u32_le(c.1.len() as u32);
    let r = runs_bytes(c.1);
    let s = chunk_record(c) + rest;
    assert(s =~= t + x + (y + z + n + r + rest));
    lemma_read_i32(t, c.0.x, y + z + n + r + rest);
    assert(s =~= (t + x) + y + (z + n + r + rest));
    lemma_read_i32(t + x, c.0.y, z + n + r + rest);
    assert(s =~= (t + x + y) + z + (n + r + rest));
    lemma_read_i32(t + x + y, c.0.z, n + r + rest);
    assert(s =~= (t + x + y + z) + n + (r + rest));
    lemma_read_u32(t + x + y + z, c.1.len() as u32, r + rest);
    assert(s.skip(17) =~= r + rest);
    assert(s.skip(17 + 8 * (c.1.len() as int)) =~= rest);
}

/// What a placement record followed by `rest` reads as.
#[verifier::spinoff_prover]
proof fn lemma_placement_head(b: BlockToPlace, rest: Seq<u8>)
    ensures
        ({
            let s = placement_record(b) + rest;
            &&& s.len() >= 25
            &&& s[0] == PLACEMENT_TAG
            &&& i32_at(s, 1) == b.column_position.x
            &&& i32_at(s, 5) == b.column_position.y
            &&& i32_at(s, 9) == b.position_in_column.x
            &&& i32_at(s, 13) == b.position_in_column.y
            &&& i32_at(s, 17) == b.position_in_column.z
            &&& i32_at(s, 21) == b.block_id
            &&& s.skip(25) == rest
        }),
{
    let t = seq![PLACEMENT_TAG];
    let a = i32_le(b.column_position.x);
    let c = i32_le(b.column_position.y);
    let d = i32_le(b.position_in_column.x);
    let e = i32_le(b.position_in_column.y);
    let f = i32_le(b.position_in_column.z);
    let g = i32_le(b.block_id);
    let s = placement_record(b) + rest;
    assert(s =~= t + a + (c + d + e + f + g + rest));
    lemma_read_i32(t, b.column_position.x, c + d + e + f + g + rest);
    assert(s =~= (t + a) + c + (d + e + f + g + rest));
    lemma_read_i32(t + a, b.column_position.y, d + e + f + g + rest);
    assert(s =~= (t + a + c) + d + (e + f + g + rest));
    lemma_read_i32(t + a + c, b.position_in_column.x, e + f + g + rest);
    assert(s =~= (t + a + c + d) + e + (f + g + rest));
    lemma_read_i32(t + a + c + d, b.position_in_column.y, f + g + rest);
    assert(s =~= (t + a + c + d + e) + f + (g + rest));
    lemma_read_i32(t + a + c + d + e, b.position_in_column.z, g + rest);
    assert(s =~= (t + a + c + d + e + f) + g + rest);
    lemma_read_i32(t + a + c + d + e + f, b.block_id, rest);
    assert(s.skip(25) =~= rest);
}

/// A chunk record in front of `rest` reads as that chunk before what `rest` reads as.
#[verifier::spinoff_prover]
proof fn lemma_decode_chunk_step(c: (Vec3<i32>, Seq<CompressedSet>), rest: Seq<u8>)
    requires
        c.1.len() <= u32::MAX,
    ensures
        decode_records(chunk_record(c) + rest) == prepend(
            seq![c],
            Seq::<BlockToPlace>::empty(),
            decode_records(rest),
        ),
{
    reveal(decode_records);
    lemma_chunk_head(c, rest);
    lemma_decode_runs(c.1, rest);
    let s = chunk_record(c) + rest;
    assert(c.0 == Vec3 { x: c.0.x, y: c.0.y, z: c.0.z });
    assert(decode_runs(s.skip(17), u32_at(s, 13) as int) == c.1);
}

/// A placement record in front of `rest` reads as that placement before what `rest` reads as.
#[verifier::spinoff_prover]
proof fn lemma_decode_placement_step(b: BlockToPlace, rest: Seq<u8>)
    ensures
        decode_records(placement_record(b) + rest) == prepend(
            Seq::<(Vec3<i32>, Seq<CompressedSet>)>::empty(),
            seq![b],
            decode_records(rest),
        ),
{
    reveal(decode_records);
    lemma_placement_head(b, rest);
}

#[verifier::spinoff_prover]
proof fn lemma_decode_records(cs: Seq<(Vec3<i32>, Seq<CompressedSet>)>, bs: Seq<BlockToPlace>)
    requires
        forall|i: int| 0 <= i < cs.len() ==> (#[trigger] cs[i]).1.len() <= u32::MAX,
    ensures
        decode_records(chunk_records(cs) + placement_records(bs)) == Ok::<
            (Seq<(Vec3<i32>, Seq<CompressedSet>)>, Seq<BlockToPlace>),
            SaveError,
        >((cs, bs)),
    decreases cs.len(), bs.len(),
{
    let s = chunk_records(cs) + placement_records(bs);
    if cs.len() > 0 {
        let c = cs[0];
        let rest = chunk_records(cs.skip(1)) + placement_records(bs);
        assert(s =~= chunk_record(c) + rest);
        lemma_decode_chunk_step(c, rest);
        assert forall|i: int| 0 <= i < cs.skip(1).len() implies (#[trigger] cs.skip(1)[i]).1.len()
            <= u32::MAX by {
            assert(cs.skip(1)[i] == cs[i + 1]);
        }
        lemma_decode_records(cs.skip(1), bs);
        assert(seq![c] + cs.skip(1) =~= cs);
        assert(Seq::<BlockToPlace>::empty() + bs =~= bs);
    } else if bs.len() > 0 {
        let b = bs[0];
        let rest = chunk_records(cs) + placement_records(bs.skip(1));
        assert(chunk_records(cs) == Seq::<u8>::empty());
        assert(s =~= placement_record(b) + rest);
        lemma_decode_placement_step(b, rest);
        lemma_decode_records(cs, bs.skip(1));
        assert(seq![b] + bs.skip(1) =~= bs);
        assert(Seq::<(Vec3<i32>, Seq<CompressedSet>)>::empty() + cs =~= cs);
    } else {
        reveal(decode_records);
        assert(chunk_records(cs) == Seq::<u8>::empty());
        assert(placement_records(bs) == Seq::<u8>::empty());
        assert(s =~= Seq::<u8>::empty());
        assert(cs =~= Seq::<(Vec3<i32>, Seq<CompressedSet>)>::empty());
        assert(bs =~= Seq::<BlockToPlace>::empty());
    }
}

/// Reading back written world data gives the same seed, the same chunk
/// records and the same placement records, in the same order.
pub proof fn lemma_world_data_round_trip(
    seed: i32,
    cs: Seq<(Vec3<i32>, Seq<CompressedSet>)>,
    bs: Seq<BlockToPlace>,
)
    requires
        forall|i: int| 0 <= i < cs.len() ==> (#[trigger] cs[i]).1.len() <= u32::MAX,
    ensures
        decode_world_data(world_data_bytes(seed, cs, bs)) == Ok::<
            (i32, Seq<(Vec3<i32>, Seq<CompressedSet>)>, Seq<BlockToPlace>),
            SaveError,
        >((seed, cs, bs)),
{
    let s = world_data_bytes(seed, cs, bs);
    let body = chunk_records(cs) + placement_records(bs);
    assert(s =~= seq![SAVE_FORMAT_VERSION] + i32_le(seed) + body);
    lemma_read_i32(seq![SAVE_FORMAT_VERSION], seed, body);
    assert(s.skip(5) =~= body);
    lemma_decode_records(cs, bs);
}

} // verus!
