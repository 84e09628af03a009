use voxel_world::biome::BiomeType;
use voxel_world::biome_map::{anchor_from_words, isqrt, weight_of, BiomeMap, Climate, ClimatePoint};

fn point(x: i64, z: i64, t: u32, h: u32, a: u32, biome: BiomeType) -> ClimatePoint {
    ClimatePoint { x, z, temperature: t, humidity: h, altitude: a, biome }
}

#[test]
fn whole_square_roots() {
    assert_eq!(isqrt(0), 0);
    assert_eq!(isqrt(1), 1);
    assert_eq!(isqrt(2), 1);
    assert_eq!(isqrt(3), 1);
    assert_eq!(isqrt(4), 2);
    assert_eq!(isqrt(24), 4);
    assert_eq!(isqrt(25), 5);
    assert_eq!(isqrt(26), 5);
    assert_eq!(isqrt(1_000_000), 1000);
    assert_eq!(isqrt(999_999), 999);
    assert_eq!(isqrt(0x3_ffff_ffff), 131071);
}

#[test]
fn weight_falls_with_the_square() {
    let p = point(0, 0, 0, 0, 0, BiomeType::Plain);
    assert_eq!(weight_of(&p, 100, 0, 0), 10000);
    assert_eq!(weight_of(&p, 100, 3, 4), 95 * 95);
    assert_eq!(weight_of(&p, 100, 1, 1), 99 * 99);
    assert_eq!(weight_of(&p, 100, 50, 0), 2500);
    assert_eq!(weight_of(&p, 100, -50, 0), 2500);
    assert_eq!(weight_of(&p, 100, 0, 99), 1);
}

#[test]
fn weight_is_nothing_from_the_radius_on() {
    let p = point(0, 0, 0, 0, 0, BiomeType::Plain);
    assert_eq!(weight_of(&p, 100, 100, 0), 0);
    assert_eq!(weight_of(&p, 100, 0, -100), 0);
    assert_eq!(weight_of(&p, 100, 80, 80), 0);
    assert_eq!(weight_of(&p, 100, i64::MAX, i64::MIN), 0);
    assert_eq!(weight_of(&p, 0, 0, 0), 0);
    let far = point(i64::MIN, i64::MAX, 0, 0, 0, BiomeType::Plain);
    assert_eq!(weight_of(&far, 65535, i64::MAX, i64::MIN), 0);
}

#[test]
fn no_anchor_in_reach_gives_the_neutral_plain() {
    let neutral = Climate { biome: BiomeType::Plain, temperature: 500, humidity: 500, altitude: 500 };
    let empty = BiomeMap::new();
    assert_eq!(empty.anchor_count(), 0);
    assert_eq!(empty.classify(0, 0), neutral);
    assert_eq!(empty.get_biome(12345, -999), BiomeType::Plain);
    let map = BiomeMap::with_anchors(vec![point(0, 0, 1, 2, 3, BiomeType::Abyss)], 100);
    assert_eq!(map.classify(1000, 1000), neutral);
    assert_eq!(map.classify(100, 0), neutral);
    assert_eq!(map.blend_relief(1000, 1000), (130, 5));
}

#[test]
fn one_anchor_in_reach_rules() {
    let map = BiomeMap::with_anchors(
        vec![
            point(0, 0, 100, 200, 300, BiomeType::Ocean),
            point(100, 0, 900, 800, 700, BiomeType::Mountain),
        ],
        100,
    );
    assert_eq!(
        map.classify(0, 0),
        Climate { biome: BiomeType::Ocean, temperature: 100, humidity: 200, altitude: 300 }
    );
    assert_eq!(map.blend_relief(0, 0), (46, 25));
    assert_eq!(map.get_biome(100, 0), BiomeType::Mountain);
}

#[test]
fn climate_is_blended_by_weight() {
    let map = BiomeMap::with_anchors(
        vec![
            point(0, 0, 100, 200, 300, BiomeType::Ocean),
            point(100, 0, 900, 800, 700, BiomeType::Mountain),
        ],
        100,
    );
    assert_eq!(
        map.classify(60, 0),
        Climate { biome: BiomeType::Mountain, temperature: 653, humidity: 615, altitude: 576 }
    );
    assert_eq!(map.blend_relief(60, 0), ((1600 * 46 + 3600 * 136) / 5200, (1600 * 25 + 3600 * 200) / 5200));
    assert_eq!(map.blend_relief(60, 0), (108, 146));
}

#[test]
fn equal_weights_go_to_the_earlier_anchor() {
    let first = point(0, 0, 100, 200, 300, BiomeType::Ocean);
    let second = point(100, 0, 900, 800, 700, BiomeType::Mountain);
    let map = BiomeMap::with_anchors(vec![first, second], 100);
    assert_eq!(
        map.classify(50, 0),
        Climate { biome: BiomeType::Ocean, temperature: 500, humidity: 500, altitude: 500 }
    );
    let swapped = BiomeMap::with_anchors(vec![second, first], 100);
    assert_eq!(swapped.get_biome(50, 0), BiomeType::Mountain);
    assert_eq!(map.blend_relief(50, 0), (91, 112));
}

#[test]
fn anchors_from_words() {
    let p = anchor_from_words(0, 1999, 1000, 1001, 2003, 8, 1000);
    assert_eq!(p, point(-1000, 999, 1000, 0, 1, BiomeType::Ocean));
    let q = anchor_from_words(2000, 4_294_967_295, 500, 0, 4_294_967_295, 0, 1000);
    assert_eq!(q.x, -1000);
    assert_eq!(q.z, (4_294_967_295u64 % 2000) as i64 - 1000);
    assert_eq!(q.altitude, 4_294_967_295u32 % 1001);
    assert_eq!(q.biome, BiomeType::Mountain);
    let still = anchor_from_words(77, 88, 1, 2, 3, 4, 0);
    assert_eq!(still, point(0, 0, 1, 2, 3, BiomeType::Abyss));
    let wide = anchor_from_words(4_294_967_295, 0, 0, 0, 0, 0, 4_294_967_295);
    assert_eq!(wide.x, 0);
    assert_eq!(wide.z, -4_294_967_295);
}

#[test]
fn scattered_anchors_stay_in_bounds() {
    let mut map = BiomeMap::new();
    map.generate(42, 600, 2000);
    assert_eq!(map.anchor_count(), 600);
    for i in 0..600 {
        let p = map.anchor(i).unwrap();
        assert!(-2000 <= p.x && p.x < 2000);
        assert!(-2000 <= p.z && p.z < 2000);
        assert!(p.temperature <= 1000);
        assert!(p.humidity <= 1000);
        assert!(p.altitude <= 1000);
    }
    assert_eq!(map.anchor(600), None);
}

#[test]
fn the_same_seed_scatters_the_same_anchors() {
    let mut first = BiomeMap::new();
    let mut second = BiomeMap::new();
    first.generate(5, 50, 1000);
    second.generate(5, 50, 1000);
    for i in 0..50 {
        assert_eq!(first.anchor(i), second.anchor(i));
    }
    let mut longer = BiomeMap::new();
    longer.generate(5, 80, 1000);
    for i in 0..50 {
        assert_eq!(first.anchor(i), longer.anchor(i));
    }
}

#[test]
fn scattered_anchors_come_from_the_random_stream() {
    let mut map = BiomeMap::new();
    map.generate(3, 64, 1_000_000);
    let mut other = BiomeMap::new();
    other.generate(4, 64, 1_000_000);
    let mut by_index = 0;
    let mut by_seed = 0;
    let mut same_as_other = 0;
    for i in 0..64usize {
        let p = map.anchor(i).unwrap();
        let first = (6 * i) as u32;
        if p == anchor_from_words(first, first + 1, first + 2, first + 3, first + 4, first + 5, 1_000_000) {
            by_index += 1;
        }
        if p == anchor_from_words(3, 3, 3, 3, 3, 3, 1_000_000) {
            by_seed += 1;
        }
        if Some(p) == other.anchor(i) {
            same_as_other += 1;
        }
    }
    assert_eq!(by_index, 0);
    assert_eq!(by_seed, 0);
    assert_eq!(same_as_other, 0);
}

#[test]
fn generate_replaces_the_anchors() {
    let mut map = BiomeMap::with_anchors(vec![point(1, 2, 3, 4, 5, BiomeType::Beach)], 77);
    map.generate(9, 3, 10);
    assert_eq!(map.anchor_count(), 3);
    map.generate(9, 0, 10);
    assert_eq!(map.anchor_count(), 0);
}

#[test]
fn known_anchors_of_known_seeds() {
    let mut map = BiomeMap::new();
    map.generate(0, 3, 1000);
    assert_eq!(map.anchor(0), Some(point(-172, 719, 524, 440, 789, BiomeType::Beach)));
    assert_eq!(map.anchor(1), Some(point(-92, 188, 742, 804, 908, BiomeType::Beach)));
    assert_eq!(map.anchor(2), Some(point(-12, 213, 730, 625, 308, BiomeType::Plain)));
    let mut map = BiomeMap::new();
    map.generate(12345, 2, 2000);
    assert_eq!(map.anchor(0), Some(point(99, -875, 818, 85, 718, BiomeType::Mountain)));
    assert_eq!(map.anchor(1), Some(point(1606, -1463, 159, 859, 553, BiomeType::Abyss)));
}
