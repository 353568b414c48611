use vstd::prelude::*;

verus! {

/// The chunk (or column) coordinate that world coordinate `w` falls in:
/// `w` divided by 16, rounded down.
pub open spec fn chunk_coord(w: int) -> int {
    w / 16
}

/// The offset of world coordinate `w` inside its chunk, in `[0, 16)`.
pub open spec fn local_coord(w: int) -> int {
    w % 16
}

/// `w` divided by 16, rounded toward negative infinity.
pub fn floor_div16(w: i32) -> (r: i32)
    ensures
        r == chunk_coord(w as int),
{
    if w >= 0 {
        w / 16
    } else {
        let n: i64 = -(w as i64);
        let q: i64 = (n + 15) / 16;
        proof {
            let qq = (n + 15) / 16;
            let rr = (n + 15) % 16;
            assert(n + 15 == 16 * qq + rr && 0 <= rr < 16);
            assert(w as int == 16 * (-qq) + (15 - rr));
            vstd::arithmetic::div_mod::lemma_fundamental_div_mod_converse(
                w as int,
                16,
                -qq,
                15 - rr,
            );
        }
        (-q) as i32
    }
}

/// The remainder of `w` by 16, always in `[0, 16)`.
pub fn mod16(w: i32) -> (r: i32)
    ensures
        r == local_coord(w as int),
        0 <= r < 16,
{
    let q = floor_div16(w);
    let r: i64 = (w as i64) - (q as i64) * 16;
    r as i32
}

/// Every world coordinate is its chunk coordinate times 16 plus its local
/// coordinate, and the local coordinate lies in `[0, 16)`; this holds for
/// negative coordinates too.
pub proof fn lemma_coordinate_decomposition(w: int)
    ensures
        chunk_coord(w) * 16 + local_coord(w) == w,
        0 <= local_coord(w) < 16,
{
}

} // verus!
