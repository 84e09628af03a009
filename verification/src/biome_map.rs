use vstd::prelude::*;
use std::sync::Arc;
use rand_chacha::ChaCha8Rng;
use rand::{RngCore, SeedableRng};
use crate::biome::{Biome, BiomeType, biome_data, biome_of_index, get_biome_data, biome_from_index};
use crate::constants::ANCHOR_RADIUS;

verus! {

/// A place at which the climate is known.
#[derive(Debug, Clone, Copy, PartialEq, Eq, Structural)]
pub struct ClimatePoint {
    /// World position, in blocks.
    pub x: i64,
    /// World position, in blocks.
    pub z: i64,
    /// In thousandths.
    pub temperature: u32,
    /// In thousandths.
    pub humidity: u32,
    /// In thousandths.
    pub altitude: u32,
    /// The biome that rules around this place.
    pub biome: BiomeType,
}

/// The climate of a column of the world and the biome that rules it.
#[derive(Debug, Clone, Copy, PartialEq, Eq, Structural)]
pub struct Climate {
    pub biome: BiomeType,
    /// In thousandths.
    pub temperature: u32,
    /// In thousandths.
    pub humidity: u32,
    /// In thousandths.
    pub altitude: u32,
}

/// The climate anchors of a world and the distance, in blocks, up to which
/// an anchor counts.
pub struct BiomeMap {
    anchors: Vec<ClimatePoint>,
    radius: u16,
}

/// Whether `n` lies from the square of `r` up to the next square.
pub open spec fn is_floor_sqrt(r: nat, n: nat) -> bool {
    r * r <= n < (r + 1) * (r + 1)
}

/// A biome map that is shared, read only, by all who make terrain.
#[derive(Clone)]
pub struct BiomeMapArc(pub Arc<BiomeMap>);

/// The whole part of the square root of `n`.
pub open spec fn floor_sqrt(n: nat) -> nat {
    choose|r: nat| is_floor_sqrt(r, n)
}

/// `r` is the whole part of the square root of `n` once `n` lies from `r`
/// squared up to the next square.
pub proof fn lemma_floor_sqrt(n: nat, r: nat)
    requires
        r * r <= n < (r + 1) * (r + 1),
    ensures
        floor_sqrt(n) == r,
{
    let s = floor_sqrt(n);
    assert(is_floor_sqrt(r, n));
    assert(is_floor_sqrt(s, n));
    if s < r {
        assert((s + 1) * (s + 1) <= r * r) by (nonlinear_arith)
            requires
                s + 1 <= r,
        ;
    } else if s > r {
        assert((r + 1) * (r + 1) <= s * s) by (nonlinear_arith)
            requires
                r + 1 <= s,
        ;
    }
}

/// Distance in blocks from an anchor to column `(x, z)`, rounded down.
pub open spec fn anchor_distance(p: ClimatePoint, x: int, z: int) -> nat {
    floor_sqrt(((p.x - x) * (p.x - x) + (p.z - z) * (p.z - z)) as nat)
}

/// How much an anchor counts at column `(x, z)`: the square of what its
/// distance leaves of `radius`, so in proportion to the square of one minus
/// distance over radius; nothing from `radius` on.
pub open spec fn anchor_weight(p: ClimatePoint, radius: nat, x: int, z: int) -> nat {
    let d = anchor_distance(p, x, z);
    if d < radius {
        ((radius - d) * (radius - d)) as nat
    } else {
        0
    }
}

/// Sum of the weights of the first `n` anchors.
pub open spec fn weight_total(anchors: Seq<ClimatePoint>, radius: nat, x: int, z: int, n: nat) -> nat
    decreases n,
{
    if n == 0 {
        0
    } else {
        weight_total(anchors, radius, x, z, (n - 1) as nat) + anchor_weight(
            anchors[n - 1],
            radius,
            x,
            z,
        )
    }
}

/// Sum over the first `n` anchors of `value` times weight.
pub open spec fn weighted_sum(
    anchors: Seq<ClimatePoint>,
    radius: nat,
    x: int,
    z: int,
    value: spec_fn(ClimatePoint) -> nat,
    n: nat,
) -> nat
    decreases n,
{
    if n == 0 {
        0
    } else {
        weighted_sum(anchors, radius, x, z, value, (n - 1) as nat) + anchor_weight(
            anchors[n - 1],
            radius,
            x,
            z,
        ) * value(anchors[n - 1])
    }
}

/// Position among the first `n` anchors of the one that counts most at
/// `(x, z)`, the earliest of several that count the same; -1 where none
/// counts.
pub open spec fn dominant_index(anchors: Seq<ClimatePoint>, radius: nat, x: int, z: int, n: nat) -> int
    decreases n,
{
    if n == 0 {
        -1
    } else {
        let before = dominant_index(anchors, radius, x, z, (n - 1) as nat);
        let w = anchor_weight(anchors[n - 1], radius, x, z);
        if w > 0 && (before < 0 || w > anchor_weight(anchors[before], radius, x, z)) {
            n - 1
        } else {
            before
        }
    }
}

/// The climate far from every anchor.
pub open spec fn neutral_climate() -> Climate {
    Climate { biome: BiomeType::Plain, temperature: 500, humidity: 500, altitude: 500 }
}

/// The mean of `value` over the anchors, each counted by its weight,
/// rounded down. Only meaningful where some anchor counts.
pub open spec fn weighted_mean(
    anchors: Seq<ClimatePoint>,
    radius: nat,
    x: int,
    z: int,
    value: spec_fn(ClimatePoint) -> nat,
) -> nat {
    weighted_sum(anchors, radius, x, z, value, anchors.len()) / weight_total(
        anchors,
        radius,
        x,
        z,
        anchors.len(),
    )
}

/// The climate at column `(x, z)`: the weighted mean of the anchors within
/// `radius`, with the biome of the anchor that counts most; the neutral
/// climate of the plain where no anchor is within `radius`.
pub open spec fn climate_at(anchors: Seq<ClimatePoint>, radius: nat, x: int, z: int) -> Climate {
    if weight_total(anchors, radius, x, z, anchors.len()) == 0 {
        neutral_climate()
    } else {
        Climate {
            biome: anchors[dominant_index(anchors, radius, x, z, anchors.len())].biome,
            temperature: weighted_mean(
                anchors,
                radius,
                x,
                z,
                |p: ClimatePoint| p.temperature as nat,
            ) as u32,
            humidity: weighted_mean(anchors, radius, x, z, |p: ClimatePoint| p.humidity as nat) as u32,
            altitude: weighted_mean(anchors, radius, x, z, |p: ClimatePoint| p.altitude as nat) as u32,
        }
    }
}

/// The base height and the amplitude of the terrain at column `(x, z)`:
/// the weighted means of those of the anchors' biomes; those of the plain
/// where no anchor is within `radius`.
pub open spec fn relief_at(anchors: Seq<ClimatePoint>, radius: nat, x: int, z: int) -> (nat, nat) {
    if weight_total(anchors, radius, x, z, anchors.len()) == 0 {
        (
            biome_data(BiomeType::Plain).base_height as nat,
            biome_data(BiomeType::Plain).amplitude as nat,
        )
    } else {
        (
            weighted_mean(
                anchors,
                radius,
                x,
                z,
                |p: ClimatePoint| biome_data(p.biome).base_height as nat,
            ),
            weighted_mean(
                anchors,
                radius,
                x,
                z,
                |p: ClimatePoint| biome_data(p.biome).amplitude as nat,
            ),
        )
    }
}

/// The dominant anchor, where there is one, is an anchor that counts, and
/// there is one exactly where the weights do not sum to nothing.
pub proof fn lemma_dominant(anchors: Seq<ClimatePoint>, radius: nat, x: int, z: int, n: nat)
    requires
        n <= anchors.len(),
    ensures
        -1 <= dominant_index(anchors, radius, x, z, n) < n,
        dominant_index(anchors, radius, x, z, n) >= 0 ==> anchor_weight(
            anchors[dominant_index(anchors, radius, x, z, n)],
            radius,
            x,
            z,
        ) > 0,
        (dominant_index(anchors, radius, x, z, n) >= 0) == (weight_total(anchors, radius, x, z, n)
            > 0),
        forall|i: int|
            0 <= i < n ==> anchor_weight(#[trigger] anchors[i], radius, x, z) <= (if dominant_index(
                anchors,
                radius,
                x,
                z,
                n,
            ) >= 0 {
                anchor_weight(anchors[dominant_index(anchors, radius, x, z, n)], radius, x, z)
            } else {
                0
            }),
        forall|i: int|
            0 <= i < dominant_index(anchors, radius, x, z, n) ==> anchor_weight(
                #[trigger] anchors[i],
                radius,
                x,
                z,
            ) < anchor_weight(anchors[dominant_index(anchors, radius, x, z, n)], radius, x, z),
    decreases n,
{
    if n > 0 {
        lemma_dominant(anchors, radius, x, z, (n - 1) as nat);
    }
}

/// A weighted sum is at most the sum of the weights times a bound on the
/// values.
pub proof fn lemma_weighted_sum_bound(
    anchors: Seq<ClimatePoint>,
    radius: nat,
    x: int,
    z: int,
    value: spec_fn(ClimatePoint) -> nat,
    bound: nat,
    n: nat,
)
    requires
        n <= anchors.len(),
        forall|i: int| 0 <= i < anchors.len() ==> value(#[trigger] anchors[i]) <= bound,
    ensures
        weighted_sum(anchors, radius, x, z, value, n) <= weight_total(anchors, radius, x, z, n)
            * bound,
    decreases n,
{
    if n > 0 {
        lemma_weighted_sum_bound(anchors, radius, x, z, value, bound, (n - 1) as nat);
        let w = anchor_weight(anchors[n - 1], radius, x, z);
        let v = value(anchors[n - 1]);
        let t = weight_total(anchors, radius, x, z, (n - 1) as nat);
        assert(w * v <= w * bound) by (nonlinear_arith)
            requires
                v <= bound,
        ;
        assert((t + w) * bound == t * bound + w * bound) by (nonlinear_arith);
    }
}

/// A weight is below the square of the radius.
pub proof fn lemma_weight_bound(p: ClimatePoint, radius: nat, x: int, z: int)
    ensures
        anchor_weight(p, radius, x, z) <= radius * radius,
{
    let d = anchor_distance(p, x, z);
    if d < radius {
        assert((radius - d) * (radius - d) <= radius * radius) by (nonlinear_arith)
            requires
                0 <= d < radius,
        ;
    }
}

/// The whole part of the square root of `n`.
pub fn isqrt(n: u64) -> (r: u64)
    ensures
        r == floor_sqrt(n as nat),
        r * r <= n < (r + 1) * (r + 1),
        r < 0x1_0000_0000,
{
    let mut lo: u64 = 0;
    let mut hi: u64 = 0x1_0000_0000;
    while hi - lo > 1
        invariant
            lo < hi <= 0x1_0000_0000,
            lo * lo <= n < hi * hi,
        decreases hi - lo,
    {
        let mid: u64 = lo + (hi - lo) / 2;
        assert(mid * mid < 0x1_0000_0000_0000_0000) by (nonlinear_arith)
            requires
                mid < 0x1_0000_0000,
        ;
        if mid * mid <= n {
            lo = mid;
        } else {
            hi = mid;
        }
    }
    proof {
        lemma_floor_sqrt(n as nat, lo as nat);
    }
    lo
}

/// How much anchor `p` counts at column `(x, z)`.
pub fn weight_of(p: &ClimatePoint, radius: u16, x: i64, z: i64) -> (w: u64)
    ensures
        w == anchor_weight(*p, radius as nat, x as int, z as int),
        w <= 0xffff * 0xffff,
{
    let r: i128 = radius as i128;
    let dx: i128 = p.x as i128 - x as i128;
    let dz: i128 = p.z as i128 - z as i128;
    let ghost n = (dx * dx + dz * dz) as nat;
    proof {
        lemma_weight_bound(*p, radius as nat, x as int, z as int);
        assert(radius * radius <= 0xffff * 0xffff) by (nonlinear_arith)
            requires
                radius <= 0xffff,
        ;
    }
    if dx >= r || dx <= -r || dz >= r || dz <= -r {
        proof {
            let d = floor_sqrt(n);
            assert(dx * dx >= 0 && dz * dz >= 0) by (nonlinear_arith);
            lemma_sqrt_exists(n);
            assert(is_floor_sqrt(d, n));
            if d < radius {
                assert((d + 1) * (d + 1) <= r * r) by (nonlinear_arith)
                    requires
                        0 <= d + 1 <= r,
                ;
                assert(dx * dx >= r * r || dz * dz >= r * r) by (nonlinear_arith)
                    requires
                        dx >= r || dx <= -r || dz >= r || dz <= -r,
                        r >= 0,
                ;
                assert(false);
            }
        }
        return 0;
    }
    assert(dx * dx < 0x1_0000_0000 && dx * dx >= 0) by (nonlinear_arith)
        requires
            -0x1_0000 < dx < 0x1_0000,
    ;
    assert(dz * dz < 0x1_0000_0000 && dz * dz >= 0) by (nonlinear_arith)
        requires
            -0x1_0000 < dz < 0x1_0000,
    ;
    let squared: u64 = (dx * dx + dz * dz) as u64;
    let d: u64 = isqrt(squared);
    if d >= radius as u64 {
        return 0;
    }
    let left: u64 = radius as u64 - d;
    assert(left * left <= 0xffff * 0xffff) by (nonlinear_arith)
        requires
            left <= 0xffff,
    ;
    left * left
}

/// Every number lies between a square and the next.
pub proof fn lemma_sqrt_exists(n: nat)
    ensures
        exists|s: nat| is_floor_sqrt(s, n),
        is_floor_sqrt(floor_sqrt(n), n),
    decreases n,
{
    if n == 0 {
        let r = 0nat;
        assert(r * r <= n < (r + 1) * (r + 1)) by (nonlinear_arith)
            requires
                r == 0,
                n == 0,
        ;
        assert(is_floor_sqrt(r, n));
    } else {
        let m = (n - 1) as nat;
        lemma_sqrt_exists(m);
        let s = choose|s: nat| is_floor_sqrt(s, m);
        if n < (s + 1) * (s + 1) {
            assert(is_floor_sqrt(s, n));
        } else {
            let t = s + 1;
            assert(t * t <= n);
            assert(n < (t + 1) * (t + 1)) by (nonlinear_arith)
                requires
                    n == t * t,
                    t >= 0,
            ;
            assert(is_floor_sqrt(t, n));
        }
    }
}

impl BiomeMap {
    /// The anchors of the map, in insertion order.
    pub closed spec fn anchors(&self) -> Seq<ClimatePoint> {
        self.anchors@
    }

    /// The distance up to which an anchor counts.
    pub closed spec fn radius(&self) -> nat {
        self.radius as nat
    }

    /// The climate at column `(x, z)` of this map.
    pub open spec fn climate(&self, x: int, z: int) -> Climate {
        climate_at(self.anchors(), self.radius(), x, z)
    }

    /// The base height and amplitude of the terrain at column `(x, z)`.
    pub open spec fn relief(&self, x: int, z: int) -> (nat, nat) {
        relief_at(self.anchors(), self.radius(), x, z)
    }

    /// A map without anchors: plains everywhere.
    pub fn new() -> (m: BiomeMap)
        ensures
            m.anchors() == Seq::<ClimatePoint>::empty(),
            m.radius() == 256,
            forall|x: int, z: int| #[trigger] m.climate(x, z) == neutral_climate(),
    {
        BiomeMap { anchors: Vec::new(), radius: ANCHOR_RADIUS }
    }

    /// Replaces the anchors by `count` anchors scattered from `seed`: the
    /// same seed gives the same anchors. Each lies within `world_extent`
    /// blocks of the origin along both axes.
    pub fn generate(&mut self, seed: u64, count: u32, world_extent: u32)
        ensures
            final(self).radius() == old(self).radius(),
            final(self).anchors() == scattered_anchors(seed, count as nat, world_extent),
    {
        let mut anchors: Vec<ClimatePoint> = Vec::new();
        let mut i: u32 = 0;
        while i < count
            invariant
                i <= count,
                anchors@.len() == i,
                forall|k: int| 0 <= k < i ==> anchors@[k] == scattered_anchor(seed, k, world_extent),
            decreases count - i,
        {
            let first: u64 = i as u64 * 6;
            let p = anchor_from_words(
                stream_word(seed, first),
                stream_word(seed, first + 1),
                stream_word(seed, first + 2),
                stream_word(seed, first + 3),
                stream_word(seed, first + 4),
                stream_word(seed, first + 5),
                world_extent,
            );
            anchors.push(p);
            i += 1;
        }
        proof {
            assert(anchors@ =~= scattered_anchors(seed, count as nat, world_extent));
        }
        self.anchors = anchors;
    }

    /// A map of the given anchors.
    pub fn with_anchors(anchors: Vec<ClimatePoint>, radius: u16) -> (m: BiomeMap)
        ensures
            m.anchors() == anchors@,
            m.radius() == radius,
    {
        BiomeMap { anchors, radius }
    }

    /// Number of anchors.
    pub fn anchor_count(&self) -> (n: usize)
        ensures
            n == self.anchors().len(),
    {
        self.anchors.len()
    }

    /// The anchor at position `i`.
    pub fn anchor(&self, i: usize) -> (p: Option<ClimatePoint>)
        ensures
            p == (if i < self.anchors().len() {
                Some(self.anchors()[i as int])
            } else {
                None
            }),
    {
        if i < self.anchors.len() {
            Some(self.anchors[i])
        } else {
            None
        }
    }

    /// The climate at column `(x_block, z_block)`.
    pub fn classify(&self, x_block: i64, z_block: i64) -> (c: Climate)
        ensures
            c == self.climate(x_block as int, z_block as int),
    {
        let ghost anchors = self.anchors@;
        let ghost radius = self.radius as nat;
        let ghost x = x_block as int;
        let ghost z = z_block as int;
        let ghost temp = |p: ClimatePoint| p.temperature as nat;
        let ghost humid = |p: ClimatePoint| p.humidity as nat;
        let ghost alt = |p: ClimatePoint| p.altitude as nat;
        let mut total: u128 = 0;
        let mut sum_t: u128 = 0;
        let mut sum_h: u128 = 0;
        let mut sum_a: u128 = 0;
        let mut best: usize = 0;
        let mut best_weight: u64 = 0;
        let mut i: usize = 0;
        while i < self.anchors.len()
            invariant
                i <= self.anchors@.len(),
                anchors == self.anchors@,
                radius == self.radius as nat,
                x == x_block as int,
                z == z_block as int,
                temp == (|p: ClimatePoint| p.temperature as nat),
                humid == (|p: ClimatePoint| p.humidity as nat),
                alt == (|p: ClimatePoint| p.altitude as nat),
                total == weight_total(anchors, radius, x, z, i as nat),
                sum_t == weighted_sum(anchors, radius, x, z, temp, i as nat),
                sum_h == weighted_sum(anchors, radius, x, z, humid, i as nat),
                sum_a == weighted_sum(anchors, radius, x, z, alt, i as nat),
                total <= i * 0x1_0000_0000,
                sum_t <= i * 0x1_0000_0000_0000_0000,
                sum_h <= i * 0x1_0000_0000_0000_0000,
                sum_a <= i * 0x1_0000_0000_0000_0000,
                best_weight == 0 ==> dominant_index(anchors, radius, x, z, i as nat) == -1,
                best_weight > 0 ==> dominant_index(anchors, radius, x, z, i as nat) == best && best
                    < i && best_weight == anchor_weight(anchors[best as int], radius, x, z),
            decreases self.anchors@.len() - i,
        {
            let p = self.anchors[i];
            let w: u64 = weight_of(&p, self.radius, x_block, z_block);
            proof {
                assert(w * p.temperature <= 0xffff_ffff * 0xffff_ffff) by (nonlinear_arith)
                    requires
                        w <= 0xffff * 0xffff,
                        p.temperature <= 0xffff_ffff,
                ;
                assert(w * p.humidity <= 0xffff_ffff * 0xffff_ffff) by (nonlinear_arith)
                    requires
                        w <= 0xffff * 0xffff,
                        p.humidity <= 0xffff_ffff,
                ;
                assert(w * p.altitude <= 0xffff_ffff * 0xffff_ffff) by (nonlinear_arith)
                    requires
                        w <= 0xffff * 0xffff,
                        p.altitude <= 0xffff_ffff,
                ;
                assert(i < 0x1_0000_0000_0000_0000);
            }
            total = total + w as u128;
            sum_t = sum_t + (w as u128) * (p.temperature as u128);
            sum_h = sum_h + (w as u128) * (p.humidity as u128);
            sum_a = sum_a + (w as u128) * (p.altitude as u128);
            if w > 0 && w > best_weight {
                best = i;
                best_weight = w;
            }
            i += 1;
        }
        if total == 0 {
            return Climate { biome: BiomeType::Plain, temperature: 500, humidity: 500, altitude: 500 };
        }
        proof {
            let n = anchors.len();
            lemma_dominant(anchors, radius, x, z, n);
            lemma_weighted_sum_bound(anchors, radius, x, z, temp, 0xffff_ffff, n);
            lemma_weighted_sum_bound(anchors, radius, x, z, humid, 0xffff_ffff, n);
            lemma_weighted_sum_bound(anchors, radius, x, z, alt, 0xffff_ffff, n);
            lemma_mean_bound(sum_t as nat, total as nat, 0xffff_ffff);
            lemma_mean_bound(sum_h as nat, total as nat, 0xffff_ffff);
            lemma_mean_bound(sum_a as nat, total as nat, 0xffff_ffff);
        }
        Climate {
            biome: self.anchors[best].biome,
            temperature: (sum_t / total) as u32,
            humidity: (sum_h / total) as u32,
            altitude: (sum_a / total) as u32,
        }
    }

    /// The biome that rules column `(x_block, z_block)`: that of the anchor
    /// that counts most there, the earliest of several; the plain where no
    /// anchor is within the radius.
    pub fn get_biome(&self, x_block: i64, z_block: i64) -> (b: BiomeType)
        ensures
            b == self.climate(x_block as int, z_block as int).biome,
    {
        self.classify(x_block, z_block).biome
    }

    /// The base height and the amplitude of the terrain at column
    /// `(x_block, z_block)`, blended over the biomes of the anchors within
    /// the radius.
    pub fn blend_relief(&self, x_block: i64, z_block: i64) -> (r: (usize, usize))
        ensures
            (r.0 as nat, r.1 as nat) == self.relief(x_block as int, z_block as int),
            r.0 <= 136,
            r.1 <= 200,
    {
        let ghost anchors = self.anchors@;
        let ghost radius = self.radius as nat;
        let ghost x = x_block as int;
        let ghost z = z_block as int;
        let ghost base = |p: ClimatePoint| biome_data(p.biome).base_height as nat;
        let ghost ampl = |p: ClimatePoint| biome_data(p.biome).amplitude as nat;
        let mut total: u128 = 0;
        let mut sum_b: u128 = 0;
        let mut sum_a: u128 = 0;
        let mut i: usize = 0;
        while i < self.anchors.len()
            invariant
                i <= self.anchors@.len(),
                anchors == self.anchors@,
                radius == self.radius as nat,
                x == x_block as int,
                z == z_block as int,
                base == (|p: ClimatePoint| biome_data(p.biome).base_height as nat),
                ampl == (|p: ClimatePoint| biome_data(p.biome).amplitude as nat),
                total == weight_total(anchors, radius, x, z, i as nat),
                sum_b == weighted_sum(anchors, radius, x, z, base, i as nat),
                sum_a == weighted_sum(anchors, radius, x, z, ampl, i as nat),
                total <= i * 0x1_0000_0000,
                sum_b <= i * 0x1_0000_0000_0000_0000,
                sum_a <= i * 0x1_0000_0000_0000_0000,
            decreases self.anchors@.len() - i,
        {
            let p = self.anchors[i];
            let w: u64 = weight_of(&p, self.radius, x_block, z_block);
            let data: Biome = get_biome_data(p.biome);
            proof {
                assert(w * data.base_height <= 0xffff_ffff * 0xffff_ffff) by (nonlinear_arith)
                    requires
                        w <= 0xffff * 0xffff,
                        data.base_height <= 384,
                ;
                assert(w * data.amplitude <= 0xffff_ffff * 0xffff_ffff) by (nonlinear_arith)
                    requires
                        w <= 0xffff * 0xffff,
                        data.amplitude <= 384,
                ;
                assert(i < 0x1_0000_0000_0000_0000);
            }
            total = total + w as u128;
            sum_b = sum_b + (w as u128) * (data.base_height as u128);
            sum_a = sum_a + (w as u128) * (data.amplitude as u128);
            i += 1;
        }
        if total == 0 {
            let plain: Biome = get_biome_data(BiomeType::Plain);
            return (plain.base_height, plain.amplitude);
        }
        proof {
            let n = anchors.len();
            lemma_weighted_sum_bound(anchors, radius, x, z, base, 136, n);
            lemma_weighted_sum_bound(anchors, radius, x, z, ampl, 200, n);
            lemma_mean_bound(sum_b as nat, total as nat, 136);
            lemma_mean_bound(sum_a as nat, total as nat, 200);
        }
        ((sum_b / total) as usize, (sum_a / total) as usize)
    }
}

/// Word `index` of the ChaCha8 stream that belongs to `seed`.
pub uninterp spec fn chacha8_word(seed: u64, index: u64) -> u32;

/// One word of a seeded random stream. Makes `rand_chacha::ChaCha8Rng` from
/// `seed` with `SeedableRng::seed_from_u64`, moves it to word `index` of its
/// stream with `set_word_pos` and takes one word with `RngCore::next_u32`.
/// The stream is fixed by the seed, so the word depends on `seed` and
/// `index` alone; nothing else is claimed of it.
#[verifier::external_body]
pub(crate) fn stream_word(seed: u64, index: u64) -> (word: u32)
    ensures
        word == chacha8_word(seed, index),
{
    let mut rng = ChaCha8Rng::seed_from_u64(seed);
    rng.set_word_pos(index as u128);
    rng.next_u32()
}

/// A coordinate within `extent` blocks of the origin, picked by `word`:
/// from `-extent` up to, not including, `extent`; 0 for an extent of 0.
pub open spec fn scattered_coordinate(word: u32, extent: u32) -> int {
    if extent == 0 {
        0
    } else {
        (word as int) % (2 * extent) - extent
    }
}

/// The anchor that six words of a random stream pick: position along `x`
/// and `z`, then temperature, humidity and altitude from 0 to 1000
/// thousandths, then the biome.
pub open spec fn anchor_of_words(
    wx: u32,
    wz: u32,
    wt: u32,
    wh: u32,
    wa: u32,
    wb: u32,
    extent: u32,
) -> ClimatePoint {
    ClimatePoint {
        x: scattered_coordinate(wx, extent) as i64,
        z: scattered_coordinate(wz, extent) as i64,
        temperature: (wt % 1001) as u32,
        humidity: (wh % 1001) as u32,
        altitude: (wa % 1001) as u32,
        biome: biome_of_index(wb as int),
    }
}

/// Anchor `i` of the anchors scattered from `seed`.
pub open spec fn scattered_anchor(seed: u64, i: int, extent: u32) -> ClimatePoint {
    anchor_of_words(
        chacha8_word(seed, (6 * i) as u64),
        chacha8_word(seed, (6 * i + 1) as u64),
        chacha8_word(seed, (6 * i + 2) as u64),
        chacha8_word(seed, (6 * i + 3) as u64),
        chacha8_word(seed, (6 * i + 4) as u64),
        chacha8_word(seed, (6 * i + 5) as u64),
        extent,
    )
}

/// The `count` anchors scattered from `seed`.
pub open spec fn scattered_anchors(seed: u64, count: nat, extent: u32) -> Seq<ClimatePoint> {
    Seq::new(count, |i: int| scattered_anchor(seed, i, extent))
}

/// The anchor that six words of a random stream pick.
pub fn anchor_from_words(wx: u32, wz: u32, wt: u32, wh: u32, wa: u32, wb: u32, extent: u32) -> (p:
    ClimatePoint)
    ensures
        p == anchor_of_words(wx, wz, wt, wh, wa, wb, extent),
        -(extent as int) <= p.x <= extent,
        -(extent as int) <= p.z <= extent,
        p.temperature <= 1000,
        p.humidity <= 1000,
        p.altitude <= 1000,
{
    let x: i64 = if extent == 0 {
        0
    } else {
        (wx as u64 % (2 * extent as u64)) as i64 - extent as i64
    };
    let z: i64 = if extent == 0 {
        0
    } else {
        (wz as u64 % (2 * extent as u64)) as i64 - extent as i64
    };
    ClimatePoint {
        x,
        z,
        temperature: wt % 1001,
        humidity: wh % 1001,
        altitude: wa % 1001,
        biome: biome_from_index(wb),
    }
}

/// A sum that is at most `total` times `bound` has a mean of at most
/// `bound`.
pub proof fn lemma_mean_bound(sum: nat, total: nat, bound: nat)
    requires
        total > 0,
        sum <= total * bound,
    ensures
        sum / total <= bound,
{
    assert(sum / total <= bound) by (nonlinear_arith)
        requires
            total > 0,
            sum <= total * bound,
    ;
}

} // verus!
