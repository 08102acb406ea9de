//! Z-order (Morton) indexing of the cells of a page.
use vstd::prelude::*;

verus! {

/// `x` with its binary digits moved to the even positions (digit `i` to `2i`).
pub open spec fn spread(x: nat) -> nat
    decreases x,
{
    if x == 0 {
        0
    } else {
        x % 2 + 4 * spread(x / 2)
    }
}

/// The digits of `z` at even positions, packed together (digit `2i` to `i`).
pub open spec fn gather(z: nat) -> nat
    decreases z,
{
    if z == 0 {
        0
    } else {
        z % 2 + 2 * gather(z / 4)
    }
}

/// The Morton interleave: the digits of `x` at even positions, those of `y`
/// at odd positions.
pub open spec fn morton(x: nat, y: nat) -> nat {
    spread(x) + 2 * spread(y)
}

pub open spec fn pow2(n: nat) -> nat
    decreases n,
{
    if n == 0 {
        1
    } else {
        2 * pow2((n - 1) as nat)
    }
}

pub open spec fn pow4(n: nat) -> nat
    decreases n,
{
    if n == 0 {
        1
    } else {
        4 * pow4((n - 1) as nat)
    }
}

spec fn split_word(x: u32) -> u32 {
    let a = x & 0x0000ffff;
    let b = (a ^ (a << 8)) & 0x00ff00ff;
    let c = (b ^ (b << 4)) & 0x0f0f0f0f;
    let d = (c ^ (c << 2)) & 0x33333333;
    (d ^ (d << 1)) & 0x55555555
}

spec fn compact_word(z: u32) -> u32 {
    let a = z & 0x55555555;
    let b = (a ^ (a >> 1)) & 0x33333333;
    let c = (b ^ (b >> 2)) & 0x0f0f0f0f;
    let d = (c ^ (c >> 4)) & 0x00ff00ff;
    (d ^ (d >> 8)) & 0x0000ffff
}

proof fn lemma_split_step(x: u32)
    requires
        x < 0x10000,
    ensures
        split_word(x) == x % 2 + 4 * split_word(x / 2),
        x == 0 ==> split_word(x) == 0,
{
    assert(split_word(x) == x % 2 + 4 * split_word(x / 2) && (x == 0 ==> split_word(x) == 0))
        by (bit_vector)
        requires
            x < 0x10000,
    ;
}

proof fn lemma_split_word(x: u32)
    requires
        x < 0x10000,
    ensures
        split_word(x) as nat == spread(x as nat),
    decreases x,
{
    lemma_split_step(x);
    if x != 0 {
        lemma_split_word(x / 2);
    }
}

proof fn lemma_compact_step(z: u32)
    ensures
        compact_word(z) == z % 2 + 2 * compact_word(z / 4),
        z == 0 ==> compact_word(z) == 0,
{
    assert(compact_word(z) == z % 2 + 2 * compact_word(z / 4) && (z == 0 ==> compact_word(z)
        == 0)) by (bit_vector);
}

proof fn lemma_compact_word(z: u32)
    ensures
        compact_word(z) as nat == gather(z as nat),
    decreases z,
{
    lemma_compact_step(z);
    if z != 0 {
        lemma_compact_word(z / 4);
    }
}

/// Spreads the low 16 bits of `x` onto the even bit positions.
fn split_by_2(x: u32) -> (r: u32)
    ensures
        r as nat == spread((x % 0x10000) as nat),
        r & 0xaaaaaaaa == 0,
{
    let x0 = x;
    let mut x = x & 0x0000ffff;
    x = (x ^ (x << 8)) & 0x00ff00ff;
    x = (x ^ (x << 4)) & 0x0f0f0f0f;
    x = (x ^ (x << 2)) & 0x33333333;
    x = (x ^ (x << 1)) & 0x55555555;
    proof {
        assert(x == split_word(x0));
        let low = x0 & 0xffff;
        assert(low == x0 % 0x10000 && low < 0x10000 && split_word(x0) == split_word(low))
            by (bit_vector)
            requires
                low == x0 & 0xffff,
        ;
        lemma_split_word(low);
        assert(split_word(x0) & 0xaaaaaaaa == 0) by (bit_vector);
    }
    x
}

/// Collects the even bit positions of `z` into the low 16 bits.
fn compact_by_2(z: u32) -> (r: u32)
    ensures
        r as nat == gather(z as nat),
        r < 0x10000,
{
    let mut x = z & 0x55555555;
    x = (x ^ (x >> 1)) & 0x33333333;
    x = (x ^ (x >> 2)) & 0x0f0f0f0f;
    x = (x ^ (x >> 4)) & 0x00ff00ff;
    x = (x ^ (x >> 8)) & 0x0000ffff;
    proof {
        assert(x == compact_word(z));
        lemma_compact_word(z);
        assert(compact_word(z) < 0x10000) by (bit_vector);
    }
    x
}

/// The Morton index of `(x, y)`: the low 16 bits of `x` on the even bit
/// positions, those of `y` on the odd ones.
pub fn xy_to_z(x: u32, y: u32) -> (r: u32)
    ensures
        r as nat == morton((x % 0x10000) as nat, (y % 0x10000) as nat),
{
    let a = split_by_2(x);
    let b = split_by_2(y);
    assert((b << 1) == 2 * b && a + 2 * b < 0x1_0000_0000) by (bit_vector)
        requires
            a & 0xaaaaaaaa == 0,
            b & 0xaaaaaaaa == 0,
    ;
    (b << 1) + a
}

/// The coordinates `(x, y)` whose Morton index is `z`.
pub fn z_to_xy(z: u32) -> (r: (u32, u32))
    ensures
        r.0 as nat == gather(z as nat),
        r.1 as nat == gather((z / 2) as nat),
{
    assert(z >> 1 == z / 2) by (bit_vector);
    (compact_by_2(z), compact_by_2(z >> 1))
}

proof fn lemma_spread_bound(x: nat, n: nat)
    requires
        x < pow2(n),
    ensures
        3 * spread(x) < pow4(n),
    decreases n,
{
    if n == 0 {
        assert(x == 0);
    } else if x == 0 {
        lemma_pow4_positive(n);
    } else {
        lemma_spread_bound(x / 2, (n - 1) as nat);
    }
}

proof fn lemma_pow4_positive(n: nat)
    ensures
        pow4(n) >= 1,
    decreases n,
{
    if n > 0 {
        lemma_pow4_positive((n - 1) as nat);
    }
}

proof fn lemma_gather_bound(z: nat, n: nat)
    requires
        z < pow4(n),
    ensures
        gather(z) < pow2(n),
        gather(z / 2) < pow2(n),
    decreases n,
{
    if n == 0 {
        assert(z == 0);
    } else {
        lemma_gather_bound(z / 4, (n - 1) as nat);
        assert(z / 2 / 4 == z / 4 / 2);
        if z == 0 {
            lemma_pow2_positive(n);
        }
        if z / 2 == 0 {
            lemma_pow2_positive(n);
        }
    }
}

proof fn lemma_pow2_positive(n: nat)
    ensures
        pow2(n) >= 1,
    decreases n,
{
    if n > 0 {
        lemma_pow2_positive((n - 1) as nat);
    }
}

/// Coordinates below `2^n` have a Morton index below `4^n`, and an index
/// below `4^n` decodes to coordinates below `2^n`.
pub proof fn lemma_morton_bounds(x: nat, y: nat, z: nat, n: nat)
    ensures
        x < pow2(n) && y < pow2(n) ==> morton(x, y) < pow4(n),
        z < pow4(n) ==> gather(z) < pow2(n) && gather(z / 2) < pow2(n),
{
    if x < pow2(n) && y < pow2(n) {
        lemma_spread_bound(x, n);
        lemma_spread_bound(y, n);
    }
    if z < pow4(n) {
        lemma_gather_bound(z, n);
    }
}

/// Decoding a Morton index gives back the coordinates it was built from:
/// `z_to_xy(xy_to_z(x, y)) == (x, y)`.
pub proof fn lemma_zorder_round_trip(x: nat, y: nat)
    ensures
        gather(morton(x, y)) == x,
        gather(morton(x, y) / 2) == y,
    decreases x + y,
{
    if x == 0 && y == 0 {
    } else {
        lemma_zorder_round_trip(x / 2, y / 2);
        let m = morton(x, y);
        let m1 = morton(x / 2, y / 2);
        assert(m == x % 2 + 2 * (y % 2) + 4 * m1);
        assert(m / 4 == m1);
        assert(m % 2 == x % 2);
        assert(m / 2 == y % 2 + 2 * m1);
        assert((m / 2) / 4 == m1 / 2);
        assert((m / 2) % 2 == y % 2);
    }
}

/// The concrete bounds used for a 64 x 64 page.
pub proof fn lemma_page_bounds(x: nat, y: nat, z: nat)
    ensures
        x < 64 && y < 64 ==> morton(x, y) < 4096,
        z < 4096 ==> gather(z) < 64 && gather(z / 2) < 64,
{
    reveal_with_fuel(pow2, 7);
    reveal_with_fuel(pow4, 7);
    assert(pow2(6) == 64);
    assert(pow4(6) == 4096);
    lemma_morton_bounds(x, y, z, 6);
}

} // verus!
