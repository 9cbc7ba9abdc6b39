use gridwalk::follower::Position;
use gridwalk::path_finding::MoveCost;
use gridwalk::terrain::{
    heat_level, height_level, Biome, BiomeKind, BiomeRule, Biomes, Rgb, Terrain, HALF_MAP, MAP_SIZE, MAP_VOLUME, UNIT,
};

fn kind_of(height: u32, heat: u32) -> BiomeKind {
    let rules = BiomeRule::catalog();
    match BiomeRule::select(&rules, height, heat) {
        Some(i) => rules[i].biome,
        None => BiomeKind::Void,
    }
}

fn samples(seed: i32) -> (Vec<i32>, Vec<i32>) {
    let mut heights = Vec::with_capacity(MAP_VOLUME);
    let mut heats = Vec::with_capacity(MAP_VOLUME);
    for i in 0..MAP_VOLUME as i32 {
        heights.push(((i.wrapping_mul(7919).wrapping_add(seed)) % 1_400_000) - 500_000);
        heats.push(((i.wrapping_mul(104_729).wrapping_add(seed)) % 1_000_000) - 400_000);
    }
    (heights, heats)
}

#[test]
fn height_is_the_sample_lifted_and_stretched() {
    assert_eq!(height_level(0), 450_000);
    assert_eq!(height_level(-200_000), 0);
    assert_eq!(height_level(-300_000), 0);
    assert_eq!(height_level(i32::MIN), 0);
    assert_eq!(height_level(100_001), 675_002);
    assert_eq!(height_level(244_444), 999_999);
    assert_eq!(height_level(244_445), UNIT);
    assert_eq!(height_level(i32::MAX), UNIT);
}

#[test]
fn heat_is_the_sample_lifted_and_stretched() {
    assert_eq!(heat_level(0), 500_000);
    assert_eq!(heat_level(-200_001), 0);
    assert_eq!(heat_level(-199_999), 2);
    assert_eq!(heat_level(199_999), 999_997);
    assert_eq!(heat_level(200_000), UNIT);
    assert_eq!(heat_level(i32::MAX), UNIT);
}

#[test]
fn each_band_has_its_biome() {
    assert_eq!(kind_of(300_000, 500_000), BiomeKind::Grass);
    assert_eq!(kind_of(50_000, 500_000), BiomeKind::Water);
    assert_eq!(kind_of(150_000, 500_000), BiomeKind::Sand);
    assert_eq!(kind_of(900_000, 900_000), BiomeKind::Mountain);
    assert_eq!(kind_of(0, 0), BiomeKind::Water);
}

#[test]
fn higher_priority_wins_where_bands_overlap() {
    assert_eq!(kind_of(400_000, 100_000), BiomeKind::Grass);
    assert_eq!(kind_of(500_000, 100_000), BiomeKind::Grass);
    assert_eq!(kind_of(800_000, 100_000), BiomeKind::Grass);
    assert_eq!(kind_of(100_000, 100_000), BiomeKind::Sand);
    assert_eq!(kind_of(99_999, 100_000), BiomeKind::Water);
}

#[test]
fn first_rule_wins_among_equal_priorities() {
    assert_eq!(kind_of(200_000, 0), BiomeKind::Grass);
    assert_eq!(kind_of(900_000, 300_000), BiomeKind::Mountain);
    assert_eq!(kind_of(1_000_000, 500_000), BiomeKind::Mountain);
    let rules = BiomeRule::catalog();
    assert_eq!(BiomeRule::select(&rules, 200_000, 0), Some(0));
    assert_eq!(BiomeRule::select(&rules, 900_000, 300_000), Some(3));
}

#[test]
fn no_rule_means_void() {
    assert_eq!(kind_of(300_000, 1_000_001), BiomeKind::Void);
    assert_eq!(kind_of(1_000_001, 0), BiomeKind::Void);
    assert_eq!(BiomeRule::select(&[], 0, 0), None);
    let rules = BiomeRule::catalog();
    assert_eq!(BiomeRule::select(&rules, 300_000, 1_000_001), None);
}

#[test]
fn bounds_are_inclusive() {
    let rule = BiomeRule {
        priority: 3,
        biome: BiomeKind::Sand,
        min_height: 10,
        max_height: 20,
        min_temperature: 30,
        max_temperature: 40,
    };
    assert!(rule.matches(10, 30));
    assert!(rule.matches(20, 40));
    assert!(!rule.matches(9, 35));
    assert!(!rule.matches(21, 35));
    assert!(!rule.matches(15, 29));
    assert!(!rule.matches(15, 41));
}

#[test]
fn generated_map_goes_row_by_row() {
    let rules = BiomeRule::catalog();
    let heights = [300_000, 50_000, 150_000, 900_000, 300_000, 0];
    let heats = [0, 0, 0, 0, 2_000_000, 0];
    let map = BiomeRule::generate_map::<3, 2>(&rules, &heats, &heights);
    assert_eq!(
        map,
        vec![
            BiomeKind::Grass,
            BiomeKind::Water,
            BiomeKind::Sand,
            BiomeKind::Mountain,
            BiomeKind::Void,
            BiomeKind::Water,
        ]
    );
    let empty = BiomeRule::generate_map::<0, 5>(&rules, &heats, &heights);
    assert!(empty.is_empty());
}

#[test]
fn catalog_of_rules_is_the_five() {
    let rules = BiomeRule::catalog();
    assert_eq!(rules.len(), 5);
    assert_eq!(
        rules[0],
        BiomeRule {
            priority: 0,
            biome: BiomeKind::Grass,
            min_height: 200_000,
            max_height: 800_000,
            min_temperature: 0,
            max_temperature: 1_000_000,
        }
    );
    assert_eq!(rules[4].biome, BiomeKind::MountainSnow);
    assert_eq!(rules[4].priority, -1);
    assert_eq!(rules[4].max_temperature, 500_000);
}

#[test]
fn catalog_of_biomes_gives_costs_and_colours() {
    let biomes = Biomes::new();
    assert_eq!(biomes.0.len(), 6);
    assert_eq!(
        biomes.get(BiomeKind::Grass),
        Some(Biome { kind: BiomeKind::Grass, move_cost: MoveCost(10), color: Rgb { red: 0, green: 128, blue: 0 } })
    );
    assert_eq!(biomes.move_cost(BiomeKind::Sand), MoveCost(15));
    assert!(biomes.move_cost(BiomeKind::Water).is_infinite());
    assert!(biomes.move_cost(BiomeKind::Mountain).is_infinite());
    assert!(biomes.move_cost(BiomeKind::MountainSnow).is_infinite());
    assert!(biomes.move_cost(BiomeKind::Void).is_infinite());
    assert_eq!(
        biomes.get(BiomeKind::Void),
        Some(Biome { kind: BiomeKind::Void, move_cost: MoveCost::infinite(), color: Rgb { red: 0, green: 0, blue: 0 } })
    );
    assert_eq!(biomes.0[5].kind, BiomeKind::Void);
    assert_eq!(Biomes(Vec::new()).get(BiomeKind::Void), None);
    assert!(Biomes(Vec::new()).move_cost(BiomeKind::Grass).is_infinite());
    assert_eq!(biomes.color(BiomeKind::Void), Rgb { red: 0, green: 0, blue: 0 });
    assert_eq!(biomes.color(BiomeKind::Sand), Rgb { red: 255, green: 255, blue: 0 });
    assert_eq!(biomes.color(BiomeKind::Water), Rgb { red: 0, green: 0, blue: 128 });
}

#[test]
fn biome_names() {
    assert_eq!(BiomeKind::Grass.name(), "Grass");
    assert_eq!(BiomeKind::Water.name(), "Water");
    assert_eq!(BiomeKind::Sand.name(), "Sand");
    assert_eq!(BiomeKind::Mountain.name(), "Mountain");
    assert_eq!(BiomeKind::MountainSnow.name(), "Mountain_Snow");
    assert_eq!(BiomeKind::Void.name(), "Void");
}

#[test]
fn cells_are_counted_from_the_lowest_corner() {
    assert_eq!(Terrain::index(-HALF_MAP, -HALF_MAP), Some(0));
    assert_eq!(Terrain::index(-HALF_MAP + 1, -HALF_MAP), Some(1));
    assert_eq!(Terrain::index(-HALF_MAP, -HALF_MAP + 1), Some(MAP_SIZE));
    assert_eq!(Terrain::index(0, 0), Some(500_500));
    assert_eq!(Terrain::index(HALF_MAP - 1, HALF_MAP - 1), Some(MAP_VOLUME - 1));
    assert_eq!(Terrain::index(HALF_MAP, 0), None);
    assert_eq!(Terrain::index(0, HALF_MAP), None);
    assert_eq!(Terrain::index(-HALF_MAP - 1, 0), None);
    assert_eq!(Terrain::index(i32::MAX, i32::MIN), None);
}

#[test]
fn same_samples_give_the_same_terrain() {
    let (heights, heats) = samples(11);
    let a = Terrain::new(3, &heights, &heats);
    let b = Terrain::new(3, &heights, &heats);
    assert_eq!(a.seed(), 3);
    assert_eq!(b.seed(), 3);
    let biomes = Biomes::new();
    assert!(a.make_texture(&biomes) == b.make_texture(&biomes));
    for z in (-HALF_MAP..HALF_MAP).step_by(37) {
        for x in (-HALF_MAP..HALF_MAP).step_by(41) {
            assert_eq!(a.height(x, z), b.height(x, z));
            assert_eq!(a.heat(x, z), b.heat(x, z));
            assert_eq!(a.biome(x, z), b.biome(x, z));
        }
    }
}

#[test]
fn terrain_holds_levels_and_biomes_of_its_samples() {
    let (heights, heats) = samples(5);
    let terrain = Terrain::new(0, &heights, &heats);
    let biomes = Biomes::new();
    for (x, z) in [(-500, -500), (0, 0), (499, 499), (-1, 250), (123, -321)] {
        let i = Terrain::index(x, z).unwrap();
        let h = height_level(heights[i]);
        let t = heat_level(heats[i]);
        assert_eq!(terrain.height(x, z), Some(h));
        assert_eq!(terrain.heat(x, z), Some(t));
        assert_eq!(terrain.biome(x, z), Some(kind_of(h, t)));
        assert_eq!(terrain.move_cost(&biomes, x, z), Some(biomes.move_cost(kind_of(h, t))));
        assert_eq!(
            terrain.place(x, z),
            Some(Position { x: x as i64 * 1000, y: (h / 100) as i64, z: z as i64 * 1000 })
        );
    }
    assert_eq!(terrain.height(500, 0), None);
    assert_eq!(terrain.biome(0, -501), None);
    assert_eq!(terrain.move_cost(&biomes, 500, 500), None);
    assert_eq!(terrain.place(-501, 0), None);
}

#[test]
fn texture_has_four_bytes_for_each_cell() {
    let (heights, heats) = samples(1);
    let terrain = Terrain::new(0, &heights, &heats);
    let biomes = Biomes::new();
    let data = terrain.make_texture(&biomes);
    assert_eq!(data.len(), 4 * MAP_VOLUME);
    for (x, z) in [(-500, -500), (0, 0), (499, 499), (17, -4)] {
        let i = Terrain::index(x, z).unwrap();
        let color = biomes.color(terrain.biome(x, z).unwrap());
        assert_eq!(&data[4 * i..4 * i + 4], &[color.red, color.green, color.blue, 255]);
    }
}

#[test]
fn mesh_has_a_point_for_each_cell_and_two_triangles_for_each_square() {
    let (heights, heats) = samples(2);
    let terrain = Terrain::new(0, &heights, &heats);
    let mesh = terrain.make_mesh();
    assert_eq!(mesh.points.len(), MAP_VOLUME);
    assert_eq!(mesh.uvs.len(), MAP_VOLUME);
    assert_eq!(mesh.indices.len(), 6 * 999 * 999);
    assert_eq!(mesh.uvs[0], (0, 0));
    assert_eq!(mesh.uvs[1], (1, 0));
    assert_eq!(mesh.uvs[1000], (0, 1));
    assert_eq!(mesh.uvs[MAP_VOLUME - 1], (999, 999));
    assert_eq!(Some(mesh.points[0]), terrain.place(-500, -500));
    assert_eq!(Some(mesh.points[1]), terrain.place(-499, -500));
    assert_eq!(Some(mesh.points[500_500]), terrain.place(0, 0));
    assert_eq!(Some(mesh.points[MAP_VOLUME - 1]), terrain.place(499, 499));
    assert_eq!(&mesh.indices[0..6], &[1, 1000, 1001, 0, 1000, 1]);
    assert_eq!(&mesh.indices[6..12], &[2, 1001, 1002, 1, 1001, 2]);
    let second_row = 6 * 999;
    assert_eq!(&mesh.indices[second_row..second_row + 6], &[1001, 2000, 2001, 1000, 2000, 1001]);
    let last = 6 * (999 * 999 - 1);
    assert_eq!(&mesh.indices[last..last + 6], &[998_999, 999_998, 999_999, 998_998, 999_998, 998_999]);
}
