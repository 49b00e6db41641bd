use vstd::prelude::*;

verus! {

/// The bits of a spread value: every third bit, from bit 0 up to bit 27.
pub const SPREAD_MASK: u32 = 0x0924_9249;

/// Bit `k` of `v`.
pub open spec fn bit(v: u32, k: u32) -> u32 {
    (v >> k) & 1
}

/// `r` holds the ten low bits of `v`, bit `k` of `v` at bit `3 * k` of `r`,
/// and no other bit.
pub open spec fn is_spread_of(r: u32, v: u32) -> bool {
    &&& r & !SPREAD_MASK == 0
    &&& forall|k: u32| k < 10 ==> #[trigger] bit(r, (3 * k) as u32) == bit(v, k)
}

/// `code` interleaves the ten-bit cells `x`, `y` and `z`: bit `k` of `x`, `y`
/// and `z` stands at bits `3k`, `3k + 1` and `3k + 2`, and bits 30 and 31 are
/// clear.
pub open spec fn interleaves(code: u32, x: u32, y: u32, z: u32) -> bool {
    &&& code < 0x4000_0000
    &&& forall|k: u32|
        k < 10 ==> #[trigger] bit(code, (3 * k) as u32) == bit(x, k) && bit(code, (3 * k + 1) as u32) == bit(y, k)
            && bit(code, (3 * k + 2) as u32) == bit(z, k)
}

proof fn lemma_spread(v: u32, r: u32)
    requires
        v < 1024,
        r == ({
            let a = (v | (v << 16u32)) & 0x0300_00FFu32;
            let b = (a | (a << 8u32)) & 0x0300_F00Fu32;
            let c = (b | (b << 4u32)) & 0x030C_30C3u32;
            (c | (c << 2u32)) & 0x0924_9249u32
        }),
    ensures
        is_spread_of(r, v),
{
    assert(r & !0x0924_9249u32 == 0) by (bit_vector)
        requires
            r == ({
                let a = (v | (v << 16u32)) & 0x0300_00FFu32;
                let b = (a | (a << 8u32)) & 0x0300_F00Fu32;
                let c = (b | (b << 4u32)) & 0x030C_30C3u32;
                (c | (c << 2u32)) & 0x0924_9249u32
            }),
    ;
    assert forall|k: u32| k < 10 implies #[trigger] bit(r, (3 * k) as u32) == bit(v, k) by {
        assert(((r >> ((3 * k) as u32)) & 1) == ((v >> k) & 1)) by (bit_vector)
            requires
                v < 1024,
                k < 10,
                r == ({
                    let a = (v | (v << 16u32)) & 0x0300_00FFu32;
                    let b = (a | (a << 8u32)) & 0x0300_F00Fu32;
                    let c = (b | (b << 4u32)) & 0x030C_30C3u32;
                    (c | (c << 2u32)) & 0x0924_9249u32
                }),
        ;
    }
}

proof fn lemma_interleave(x: u32, y: u32, z: u32, sx: u32, sy: u32, sz: u32)
    requires
        is_spread_of(sx, x),
        is_spread_of(sy, y),
        is_spread_of(sz, z),
    ensures
        interleaves(sx | (sy << 1u32) | (sz << 2u32), x, y, z),
{
    let code = sx | (sy << 1u32) | (sz << 2u32);
    assert(code < 0x4000_0000) by (bit_vector)
        requires
            sx & !0x0924_9249u32 == 0,
            sy & !0x0924_9249u32 == 0,
            sz & !0x0924_9249u32 == 0,
            code == sx | (sy << 1u32) | (sz << 2u32),
    ;
    assert forall|k: u32| k < 10 implies #[trigger] bit(code, (3 * k) as u32) == bit(x, k)
        && bit(code, (3 * k + 1) as u32) == bit(y, k) && bit(code, (3 * k + 2) as u32) == bit(z, k) by {
        assert(bit(sx, (3 * k) as u32) == bit(x, k));
        assert(bit(sy, (3 * k) as u32) == bit(y, k));
        assert(bit(sz, (3 * k) as u32) == bit(z, k));
        assert(((code >> ((3 * k) as u32)) & 1) == ((sx >> ((3 * k) as u32)) & 1) && ((code >> ((3 * k + 1) as u32)) & 1)
            == ((sy >> ((3 * k) as u32)) & 1) && ((code >> ((3 * k + 2) as u32)) & 1) == ((sz >> ((3 * k) as u32)) & 1))
            by (bit_vector)
            requires
                k < 10,
                sx & !0x0924_9249u32 == 0,
                sy & !0x0924_9249u32 == 0,
                sz & !0x0924_9249u32 == 0,
                code == sx | (sy << 1u32) | (sz << 2u32),
        ;
    }
}

/// The interleaved code of three cells is unique.
pub proof fn lemma_interleave_unique(c1: u32, c2: u32, x: u32, y: u32, z: u32)
    requires
        interleaves(c1, x, y, z),
        interleaves(c2, x, y, z),
    ensures
        c1 == c2,
{
    assert(bit(c1, 0) == bit(c2, 0) && bit(c1, 1) == bit(c2, 1) && bit(c1, 2) == bit(c2, 2)) by { assert(bit(c1, (3 * 0u32) as u32) == bit(x, 0u32)); assert(bit(c2, (3 * 0u32) as u32) == bit(x, 0u32)); }
    assert(bit(c1, 3) == bit(c2, 3) && bit(c1, 4) == bit(c2, 4) && bit(c1, 5) == bit(c2, 5)) by { assert(bit(c1, (3 * 1u32) as u32) == bit(x, 1u32)); assert(bit(c2, (3 * 1u32) as u32) == bit(x, 1u32)); }
    assert(bit(c1, 6) == bit(c2, 6) && bit(c1, 7) == bit(c2, 7) && bit(c1, 8) == bit(c2, 8)) by { assert(bit(c1, (3 * 2u32) as u32) == bit(x, 2u32)); assert(bit(c2, (3 * 2u32) as u32) == bit(x, 2u32)); }
    assert(bit(c1, 9) == bit(c2, 9) && bit(c1, 10) == bit(c2, 10) && bit(c1, 11) == bit(c2, 11)) by { assert(bit(c1, (3 * 3u32) as u32) == bit(x, 3u32)); assert(bit(c2, (3 * 3u32) as u32) == bit(x, 3u32)); }
    assert(bit(c1, 12) == bit(c2, 12) && bit(c1, 13) == bit(c2, 13) && bit(c1, 14) == bit(c2, 14)) by { assert(bit(c1, (3 * 4u32) as u32) == bit(x, 4u32)); assert(bit(c2, (3 * 4u32) as u32) == bit(x, 4u32)); }
    assert(bit(c1, 15) == bit(c2, 15) && bit(c1, 16) == bit(c2, 16) && bit(c1, 17) == bit(c2, 17)) by { assert(bit(c1, (3 * 5u32) as u32) == bit(x, 5u32)); assert(bit(c2, (3 * 5u32) as u32) == bit(x, 5u32)); }
    assert(bit(c1, 18) == bit(c2, 18) && bit(c1, 19) == bit(c2, 19) && bit(c1, 20) == bit(c2, 20)) by { assert(bit(c1, (3 * 6u32) as u32) == bit(x, 6u32)); assert(bit(c2, (3 * 6u32) as u32) == bit(x, 6u32)); }
    assert(bit(c1, 21) == bit(c2, 21) && bit(c1, 22) == bit(c2, 22) && bit(c1, 23) == bit(c2, 23)) by { assert(bit(c1, (3 * 7u32) as u32) == bit(x, 7u32)); assert(bit(c2, (3 * 7u32) as u32) == bit(x, 7u32)); }
    assert(bit(c1, 24) == bit(c2, 24) && bit(c1, 25) == bit(c2, 25) && bit(c1, 26) == bit(c2, 26)) by { assert(bit(c1, (3 * 8u32) as u32) == bit(x, 8u32)); assert(bit(c2, (3 * 8u32) as u32) == bit(x, 8u32)); }
    assert(bit(c1, 27) == bit(c2, 27) && bit(c1, 28) == bit(c2, 28) && bit(c1, 29) == bit(c2, 29)) by { assert(bit(c1, (3 * 9u32) as u32) == bit(x, 9u32)); assert(bit(c2, (3 * 9u32) as u32) == bit(x, 9u32)); }
    assert(c1 == c2) by (bit_vector)
        requires
            c1 < 0x4000_0000u32,
            c2 < 0x4000_0000u32,
            ((c1 >> 0u32) & 1u32) == ((c2 >> 0u32) & 1u32),
            ((c1 >> 1u32) & 1u32) == ((c2 >> 1u32) & 1u32),
            ((c1 >> 2u32) & 1u32) == ((c2 >> 2u32) & 1u32),
            ((c1 >> 3u32) & 1u32) == ((c2 >> 3u32) & 1u32),
            ((c1 >> 4u32) & 1u32) == ((c2 >> 4u32) & 1u32),
            ((c1 >> 5u32) & 1u32) == ((c2 >> 5u32) & 1u32),
            ((c1 >> 6u32) & 1u32) == ((c2 >> 6u32) & 1u32),
            ((c1 >> 7u32) & 1u32) == ((c2 >> 7u32) & 1u32),
            ((c1 >> 8u32) & 1u32) == ((c2 >> 8u32) & 1u32),
            ((c1 >> 9u32) & 1u32) == ((c2 >> 9u32) & 1u32),
            ((c1 >> 10u32) & 1u32) == ((c2 >> 10u32) & 1u32),
            ((c1 >> 11u32) & 1u32) == ((c2 >> 11u32) & 1u32),
            ((c1 >> 12u32) & 1u32) == ((c2 >> 12u32) & 1u32),
            ((c1 >> 13u32) & 1u32) == ((c2 >> 13u32) & 1u32),
            ((c1 >> 14u32) & 1u32) == ((c2 >> 14u32) & 1u32),
            ((c1 >> 15u32) & 1u32) == ((c2 >> 15u32) & 1u32),
            ((c1 >> 16u32) & 1u32) == ((c2 >> 16u32) & 1u32),
            ((c1 >> 17u32) & 1u32) == ((c2 >> 17u32) & 1u32),
            ((c1 >> 18u32) & 1u32) == ((c2 >> 18u32) & 1u32),
            ((c1 >> 19u32) & 1u32) == ((c2 >> 19u32) & 1u32),
            ((c1 >> 20u32) & 1u32) == ((c2 >> 20u32) & 1u32),
            ((c1 >> 21u32) & 1u32) == ((c2 >> 21u32) & 1u32),
            ((c1 >> 22u32) & 1u32) == ((c2 >> 22u32) & 1u32),
            ((c1 >> 23u32) & 1u32) == ((c2 >> 23u32) & 1u32),
            ((c1 >> 24u32) & 1u32) == ((c2 >> 24u32) & 1u32),
            ((c1 >> 25u32) & 1u32) == ((c2 >> 25u32) & 1u32),
            ((c1 >> 26u32) & 1u32) == ((c2 >> 26u32) & 1u32),
            ((c1 >> 27u32) & 1u32) == ((c2 >> 27u32) & 1u32),
            ((c1 >> 28u32) & 1u32) == ((c2 >> 28u32) & 1u32),
            ((c1 >> 29u32) & 1u32) == ((c2 >> 29u32) & 1u32),
    ;
}

/// The Morton code of the cell `(x, y, z)`.
pub open spec fn morton_code(x: u32, y: u32, z: u32) -> u32 {
    choose|c: u32| interleaves(c, x, y, z)
}

/// The sort key of one primitive: the Morton code of its cell, and its index.
#[derive(Clone, Copy, Debug, PartialEq, Eq, Structural)]
pub struct MortonCode {
    pub code: u32,
    pub primitive_id: u32,
}

pub open spec fn clamp_cell(c: u32) -> u32 {
    if c > 1023 {
        1023
    } else {
        c
    }
}

impl MortonCode {
    /// Spreads the ten bits of `v` over thirty, two zero bits between each.
    pub fn expand_bits(v: u32) -> (r: u32)
        requires
            v < 1024,
        ensures
            is_spread_of(r, v),
    {
        let mut w = v;
        w = (w | (w << 16u32)) & 0x0300_00FFu32;
        w = (w | (w << 8u32)) & 0x0300_F00Fu32;
        w = (w | (w << 4u32)) & 0x030C_30C3u32;
        w = (w | (w << 2u32)) & 0x0924_9249u32;
        proof {
            lemma_spread(v, w);
        }
        w
    }

    /// The Morton code of a grid cell; each coordinate is first clamped to 1023.
    pub fn new(cell: &[u32; 3], primitive_id: u32) -> (r: MortonCode)
        ensures
            r.primitive_id == primitive_id,
            r.code == morton_code(clamp_cell(cell@[0]), clamp_cell(cell@[1]), clamp_cell(cell@[2])),
            interleaves(
                r.code,
                clamp_cell(cell@[0]),
                clamp_cell(cell@[1]),
                clamp_cell(cell@[2]),
            ),
    {
        let x = if cell[0] > 1023 { 1023 } else { cell[0] };
        let y = if cell[1] > 1023 { 1023 } else { cell[1] };
        let z = if cell[2] > 1023 { 1023 } else { cell[2] };
        let sx = Self::expand_bits(x);
        let sy = Self::expand_bits(y);
        let sz = Self::expand_bits(z);
        proof {
            lemma_interleave(x, y, z, sx, sy, sz);
        }
        let code = sx | (sy << 1u32) | (sz << 2u32);
        proof {
            let m = morton_code(x, y, z);
            lemma_interleave_unique(code, m, x, y, z);
        }
        MortonCode { code, primitive_id }
    }
}

} // verus!
