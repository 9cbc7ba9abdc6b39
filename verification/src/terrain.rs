//! The terrain: a height and a heat for each cell of a square map, and the
//! biome that the two decide.
//!
//! Heights and heats run from 0 to 1 and are kept in millionths. They come
//! from noise samples, in millionths too, which the caller draws for each
//! cell at the cell's coordinates times the sample steps given here.

use vstd::prelude::*;
use crate::follower::Position;
use crate::path_finding::{MoveCost, INFINITE_COST};

verus! {

/// The cells along one side of the map.
pub const MAP_SIZE: usize = 1000;

/// Half of [`MAP_SIZE`]: the coordinates of the map run from `-HALF_MAP` up
/// to, and not including, `HALF_MAP`.
pub const HALF_MAP: i32 = 500;

/// The cells of the map.
pub const MAP_VOLUME: usize = 1000000;

/// One, in the millionths in which heights and heats are kept.
pub const UNIT: u32 = 1000000;

/// What is added to a noise sample before it is stretched, in millionths.
pub const SAMPLE_LIFT: i64 = 200000;

/// The kinds of ground.
#[derive(Clone, Copy, Debug, PartialEq, Eq, Structural, Hash)]
pub enum BiomeKind {
    Grass,
    Water,
    Sand,
    Mountain,
    MountainSnow,
    /// Where no rule applies; cannot be crossed.
    Void,
}

/// A colour, as red, green and blue.
#[derive(Clone, Copy, Debug, PartialEq, Eq, Structural)]
pub struct Rgb {
    pub red: u8,
    pub green: u8,
    pub blue: u8,
}

/// What is known of a kind of ground.
#[derive(Clone, Copy, Debug, PartialEq, Eq, Structural)]
pub struct Biome {
    pub kind: BiomeKind,
    pub move_cost: MoveCost,
    pub color: Rgb,
}

/// What it costs to cross ground of each kind.
pub open spec fn biome_cost(kind: BiomeKind) -> MoveCost {
    match kind {
        BiomeKind::Grass => MoveCost(10),
        BiomeKind::Sand => MoveCost(15),
        _ => MoveCost(INFINITE_COST),
    }
}

/// The colour in which ground of each kind is drawn.
pub open spec fn biome_color(kind: BiomeKind) -> Rgb {
    match kind {
        BiomeKind::Grass => Rgb { red: 0, green: 128, blue: 0 },
        BiomeKind::Water => Rgb { red: 0, green: 0, blue: 128 },
        BiomeKind::Sand => Rgb { red: 255, green: 255, blue: 0 },
        BiomeKind::Mountain => Rgb { red: 128, green: 128, blue: 128 },
        BiomeKind::MountainSnow => Rgb { red: 128, green: 128, blue: 128 },
        BiomeKind::Void => Rgb { red: 0, green: 0, blue: 0 },
    }
}

/// The entry of the catalog for ground of each kind.
pub open spec fn biome_of(kind: BiomeKind) -> Biome {
    Biome { kind, move_cost: biome_cost(kind), color: biome_color(kind) }
}

/// The kinds of ground in the order of the catalog: the five that the rules
/// of the map assign, and void, which is assigned where no rule applies.
pub open spec fn catalog_kinds() -> Seq<BiomeKind> {
    seq![
        BiomeKind::Grass,
        BiomeKind::Water,
        BiomeKind::Sand,
        BiomeKind::Mountain,
        BiomeKind::MountainSnow,
        BiomeKind::Void,
    ]
}

impl BiomeKind {
    pub open spec fn spec_name(self) -> Seq<char> {
        match self {
            BiomeKind::Grass => "Grass"@,
            BiomeKind::Water => "Water"@,
            BiomeKind::Sand => "Sand"@,
            BiomeKind::Mountain => "Mountain"@,
            BiomeKind::MountainSnow => "Mountain_Snow"@,
            BiomeKind::Void => "Void"@,
        }
    }

    /// The name of the kind.
    pub fn name(self) -> (n: &'static str)
        ensures
            n@ == self.spec_name(),
    {
        match self {
            BiomeKind::Grass => "Grass",
            BiomeKind::Water => "Water",
            BiomeKind::Sand => "Sand",
            BiomeKind::Mountain => "Mountain",
            BiomeKind::MountainSnow => "Mountain_Snow",
            BiomeKind::Void => "Void",
        }
    }
}

/// The catalog of the kinds of ground.
pub struct Biomes(pub Vec<Biome>);

impl Biomes {
    /// The catalog holds the entry of every kind of ground, in their order.
    pub open spec fn complete(&self) -> bool {
        &&& self.0.len() == 6
        &&& forall|i: int| 0 <= i < 6 ==> #[trigger] self.0[i] == biome_of(catalog_kinds()[i])
    }

    /// The catalog of all kinds of ground, void among them.
    pub fn new() -> (b: Biomes)
        ensures
            b.complete(),
    {
        let mut out: Vec<Biome> = Vec::new();
        out.push(Biome { kind: BiomeKind::Grass, move_cost: MoveCost(10), color: Rgb { red: 0, green: 128, blue: 0 } });
        out.push(
            Biome { kind: BiomeKind::Water, move_cost: MoveCost::infinite(), color: Rgb { red: 0, green: 0, blue: 128 } },
        );
        out.push(
            Biome { kind: BiomeKind::Sand, move_cost: MoveCost(15), color: Rgb { red: 255, green: 255, blue: 0 } },
        );
        out.push(
            Biome {
                kind: BiomeKind::Mountain,
                move_cost: MoveCost::infinite(),
                color: Rgb { red: 128, green: 128, blue: 128 },
            },
        );
        out.push(
            Biome {
                kind: BiomeKind::MountainSnow,
                move_cost: MoveCost::infinite(),
                color: Rgb { red: 128, green: 128, blue: 128 },
            },
        );
        out.push(
            Biome { kind: BiomeKind::Void, move_cost: MoveCost::infinite(), color: Rgb { red: 0, green: 0, blue: 0 } },
        );
        Biomes(out)
    }

    /// The entry for `kind`, where the catalog has one.
    pub open spec fn spec_get(&self, kind: BiomeKind) -> Option<Biome> {
        if exists|i: int| 0 <= i < self.0.len() && self.0[i].kind == kind {
            let i = choose|i: int|
                0 <= i < self.0.len() && self.0[i].kind == kind && forall|j: int|
                    0 <= j < i ==> self.0[j].kind != kind;
            Some(self.0[i])
        } else {
            None
        }
    }

    /// The first entry for `kind`, where the catalog has one.
    pub fn get(&self, kind: BiomeKind) -> (b: Option<Biome>)
        ensures
            b == self.spec_get(kind),
            self.complete() ==> b == Some(biome_of(kind)),
    {
        let mut i: usize = 0;
        while i < self.0.len()
            invariant
                i <= self.0.len(),
                forall|j: int| 0 <= j < i ==> self.0[j].kind != kind,
            decreases self.0.len() - i,
        {
            if self.0[i].kind == kind {
                proof {
                    if self.complete() {
                        assert(self.0[i as int] == biome_of(catalog_kinds()[i as int]));
                    }
                }
                return Some(self.0[i]);
            }
            i = i + 1;
        }
        proof {
            if self.complete() {
                assert(self.0[0] == biome_of(catalog_kinds()[0]));
                assert(self.0[1] == biome_of(catalog_kinds()[1]));
                assert(self.0[2] == biome_of(catalog_kinds()[2]));
                assert(self.0[3] == biome_of(catalog_kinds()[3]));
                assert(self.0[4] == biome_of(catalog_kinds()[4]));
                assert(self.0[5] == biome_of(catalog_kinds()[5]));
            }
        }
        None
    }

    /// What it costs to cross ground of `kind`: the cost in the catalog, and
    /// for a kind that the catalog lacks the cost of ground that cannot be
    /// crossed.
    pub open spec fn spec_move_cost(&self, kind: BiomeKind) -> MoveCost {
        match self.spec_get(kind) {
            Some(b) => b.move_cost,
            None => MoveCost(INFINITE_COST),
        }
    }

    /// What it costs to cross ground of `kind`: the cost in the catalog, and
    /// for a kind that the catalog lacks the cost of ground that cannot be
    /// crossed.
    pub fn move_cost(&self, kind: BiomeKind) -> (c: MoveCost)
        ensures
            c == self.spec_move_cost(kind),
            self.complete() ==> c == biome_cost(kind),
    {
        match self.get(kind) {
            Some(b) => b.move_cost,
            None => MoveCost::infinite(),
        }
    }

    /// The colour of ground of `kind`: the colour in the catalog, and black
    /// for a kind that the catalog lacks.
    pub fn color(&self, kind: BiomeKind) -> (c: Rgb)
        ensures
            c == match self.spec_get(kind) {
                Some(b) => b.color,
                None => (Rgb { red: 0, green: 0, blue: 0 }),
            },
            self.complete() ==> c == biome_color(kind),
    {
        match self.get(kind) {
            Some(b) => b.color,
            None => Rgb { red: 0, green: 0, blue: 0 },
        }
    }
}

/// A rule that assigns a kind of ground to the cells whose height and heat
/// lie within its bounds, the bounds included.
#[derive(Clone, Copy, Debug, PartialEq, Eq, Structural)]
pub struct BiomeRule {
    pub priority: i8,
    pub biome: BiomeKind,
    pub min_height: u32,
    pub max_height: u32,
    pub min_temperature: u32,
    pub max_temperature: u32,
}

/// Rule `i` is chosen before rule `j`: its priority is higher, or the same
/// and it does not stand later.
pub open spec fn goes_before(rules: Seq<BiomeRule>, i: int, j: int) -> bool {
    rules[i].priority > rules[j].priority || (rules[i].priority == rules[j].priority && i <= j)
}

/// Rule `i` is the one that decides a cell of this height and heat: it
/// applies, and it is chosen before every other rule that applies.
pub open spec fn is_choice(rules: Seq<BiomeRule>, height: u32, heat: u32, i: int) -> bool {
    &&& 0 <= i < rules.len()
    &&& rules[i].applies(height, heat)
    &&& forall|j: int| 0 <= j < rules.len() && (#[trigger] rules[j]).applies(height, heat) ==> goes_before(rules, i, j)
}

/// The rule that decides a cell of this height and heat, if any applies.
pub open spec fn choice(rules: Seq<BiomeRule>, height: u32, heat: u32) -> Option<int> {
    if exists|i: int| is_choice(rules, height, heat, i) {
        Some(choose|i: int| is_choice(rules, height, heat, i))
    } else {
        None
    }
}

/// The kind of ground of a cell of this height and heat: that of the rule
/// that decides it, and void where no rule applies.
pub open spec fn resolve(rules: Seq<BiomeRule>, height: u32, heat: u32) -> BiomeKind {
    match choice(rules, height, heat) {
        Some(i) => rules[i].biome,
        None => BiomeKind::Void,
    }
}

/// No two rules decide the same cell.
pub proof fn lemma_choice_unique(rules: Seq<BiomeRule>, height: u32, heat: u32, i: int, k: int)
    requires
        is_choice(rules, height, heat, i),
        is_choice(rules, height, heat, k),
    ensures
        i == k,
{
}

/// The kind of ground that is assigned to a cell comes from a rule within
/// whose bounds the cell lies, and no rule that applies to the cell has a
/// higher priority; void is assigned only where no rule applies.
pub proof fn lemma_resolved_by_best_rule(rules: Seq<BiomeRule>, height: u32, heat: u32)
    ensures
        match choice(rules, height, heat) {
            Some(i) => {
                &&& 0 <= i < rules.len()
                &&& resolve(rules, height, heat) == rules[i].biome
                &&& rules[i].min_height <= height <= rules[i].max_height
                &&& rules[i].min_temperature <= heat <= rules[i].max_temperature
                &&& forall|j: int|
                    0 <= j < rules.len() && (#[trigger] rules[j]).applies(height, heat) ==> rules[j].priority
                        <= rules[i].priority
            },
            None => {
                &&& resolve(rules, height, heat) == BiomeKind::Void
                &&& forall|j: int| 0 <= j < rules.len() ==> !(#[trigger] rules[j]).applies(height, heat)
            },
        },
{
    match choice(rules, height, heat) {
        Some(i) => {
        },
        None => {
            lemma_best_among(rules, height, heat, rules.len() as int);
            lemma_some_rule_is_chosen(rules, height, heat, rules.len() as int);
        },
    }
}

/// The rule among the first `n` that is chosen before the others of them
/// that apply.
pub open spec fn best_among(rules: Seq<BiomeRule>, height: u32, heat: u32, n: int) -> Option<int>
    decreases n,
{
    if n <= 0 {
        None
    } else {
        match best_among(rules, height, heat, n - 1) {
            Some(b) => if rules[n - 1].applies(height, heat) && rules[n - 1].priority > rules[b].priority {
                Some(n - 1)
            } else {
                Some(b)
            },
            None => if rules[n - 1].applies(height, heat) {
                Some(n - 1)
            } else {
                None
            },
        }
    }
}

/// What [`best_among`] finds among the first `n` rules applies and goes
/// before every other of them that applies.
pub proof fn lemma_best_among(rules: Seq<BiomeRule>, height: u32, heat: u32, n: int)
    requires
        0 <= n <= rules.len(),
    ensures
        match best_among(rules, height, heat, n) {
            Some(b) => {
                &&& 0 <= b < n
                &&& rules[b].applies(height, heat)
                &&& forall|j: int| 0 <= j < n && (#[trigger] rules[j]).applies(height, heat) ==> goes_before(rules, b, j)
            },
            None => forall|j: int| 0 <= j < n ==> !(#[trigger] rules[j]).applies(height, heat),
        },
    decreases n,
{
    if n > 0 {
        lemma_best_among(rules, height, heat, n - 1);
    }
}

/// Where a rule applies, one is chosen.
pub proof fn lemma_some_rule_is_chosen(rules: Seq<BiomeRule>, height: u32, heat: u32, n: int)
    requires
        n == rules.len(),
    ensures
        best_among(rules, height, heat, n).is_some() ==> choice(rules, height, heat) == best_among(
            rules,
            height,
            heat,
            n,
        ),
        best_among(rules, height, heat, n).is_none() ==> choice(rules, height, heat).is_none(),
{
    lemma_best_among(rules, height, heat, n);
    match best_among(rules, height, heat, n) {
        Some(b) => {
            let c = choose|i: int| is_choice(rules, height, heat, i);
            lemma_choice_unique(rules, height, heat, b, c);
        },
        None => {
            assert forall|i: int| !is_choice(rules, height, heat, i) by {
            }
        },
    }
}

impl BiomeRule {
    /// A cell of this height and heat lies within the bounds of the rule.
    pub open spec fn applies(self, height: u32, heat: u32) -> bool {
        &&& self.max_height >= height
        &&& self.min_height <= height
        &&& self.min_temperature <= heat
        &&& self.max_temperature >= heat
    }

    /// Whether a cell of this height and heat lies within the bounds of the
    /// rule.
    pub fn matches(&self, height: u32, heat: u32) -> (b: bool)
        ensures
            b == self.applies(height, heat),
    {
        self.max_height >= height && self.min_height <= height && self.min_temperature <= heat
            && self.max_temperature >= heat
    }

    /// The rules of the map, in the order in which they are tried.
    pub open spec fn spec_catalog() -> Seq<BiomeRule> {
        seq![
            BiomeRule {
                priority: 0i8,
                biome: BiomeKind::Grass,
                min_height: 200000,
                max_height: 800000,
                min_temperature: 0,
                max_temperature: 1000000,
            },
            BiomeRule {
                priority: -1i8,
                biome: BiomeKind::Water,
                min_height: 0,
                max_height: 500000,
                min_temperature: 0,
                max_temperature: 1000000,
            },
            BiomeRule {
                priority: 0i8,
                biome: BiomeKind::Sand,
                min_height: 100000,
                max_height: 200000,
                min_temperature: 0,
                max_temperature: 1000000,
            },
            BiomeRule {
                priority: -1i8,
                biome: BiomeKind::Mountain,
                min_height: 500000,
                max_height: 1000000,
                min_temperature: 0,
                max_temperature: 1000000,
            },
            BiomeRule {
                priority: -1i8,
                biome: BiomeKind::MountainSnow,
                min_height: 800000,
                max_height: 1000000,
                min_temperature: 0,
                max_temperature: 500000,
            },
        ]
    }

    /// The rules of the map, in the order in which they are tried.
    pub fn catalog() -> (rules: Vec<BiomeRule>)
        ensures
            rules@ == Self::spec_catalog(),
    {
        let mut rules: Vec<BiomeRule> = Vec::new();
        rules.push(
            BiomeRule {
                priority: 0,
                biome: BiomeKind::Grass,
                min_height: 200000,
                max_height: 800000,
                min_temperature: 0,
                max_temperature: 1000000,
            },
        );
        rules.push(
            BiomeRule {
                priority: -1,
                biome: BiomeKind::Water,
                min_height: 0,
                max_height: 500000,
                min_temperature: 0,
                max_temperature: 1000000,
            },
        );
        rules.push(
            BiomeRule {
                priority: 0,
                biome: BiomeKind::Sand,
                min_height: 100000,
                max_height: 200000,
                min_temperature: 0,
                max_temperature: 1000000,
            },
        );
        rules.push(
            BiomeRule {
                priority: -1,
                biome: BiomeKind::Mountain,
                min_height: 500000,
                max_height: 1000000,
                min_temperature: 0,
                max_temperature: 1000000,
            },
        );
        rules.push(
            BiomeRule {
                priority: -1,
                biome: BiomeKind::MountainSnow,
                min_height: 800000,
                max_height: 1000000,
                min_temperature: 0,
                max_temperature: 500000,
            },
        );
        rules
    }

    /// The rule that decides a cell of this height and heat: the first of
    /// those with the highest priority among the rules that apply.
    pub fn select(biomes: &[BiomeRule], height: u32, heat: u32) -> (found: Option<usize>)
        ensures
            found.is_some() ==> is_choice(biomes@, height, heat, found.unwrap() as int),
            found.is_none() ==> forall|j: int| 0 <= j < biomes.len() ==> !(#[trigger] biomes[j]).applies(height, heat),
            match found {
                Some(i) => choice(biomes@, height, heat) == Some(i as int),
                None => choice(biomes@, height, heat).is_none(),
            },
    {
        let mut best: Option<usize> = None;
        let mut k: usize = 0;
        while k < biomes.len()
            invariant
                k <= biomes.len(),
                match best {
                    Some(b) => best_among(biomes@, height, heat, k as int) == Some(b as int) && b < k,
                    None => best_among(biomes@, height, heat, k as int).is_none(),
                },
            decreases biomes.len() - k,
        {
            if biomes[k].matches(height, heat) {
                match best {
                    Some(b) => {
                        if biomes[k].priority > biomes[b].priority {
                            best = Some(k);
                        }
                    },
                    None => {
                        best = Some(k);
                    },
                }
            }
            k = k + 1;
        }
        proof {
            lemma_best_among(biomes@, height, heat, biomes.len() as int);
            lemma_some_rule_is_chosen(biomes@, height, heat, biomes.len() as int);
        }
        best
    }

    /// The kind of ground of each cell of a map of `W` by `H` cells, row by
    /// row.
    pub fn generate_map<const W: usize, const H: usize>(
        biomes: &[BiomeRule],
        heat_map: &[u32],
        height_map: &[u32],
    ) -> (map: Vec<BiomeKind>)
        requires
            W * H <= usize::MAX,
            heat_map.len() >= W * H,
            height_map.len() >= W * H,
        ensures
            map.len() == W * H,
            forall|i: int| 0 <= i < W * H ==> #[trigger] map[i] == resolve(biomes@, height_map[i], heat_map[i]),
    {
        let mut map: Vec<BiomeKind> = Vec::new();
        let mut h: usize = 0;
        while h < H
            invariant
                h <= H,
                W * H <= usize::MAX,
                heat_map.len() >= W * H,
                height_map.len() >= W * H,
                map.len() == h * W,
                forall|i: int| 0 <= i < h * W ==> #[trigger] map[i] == resolve(biomes@, height_map[i], heat_map[i]),
            decreases H - h,
        {
            let mut w: usize = 0;
            assert(h * W + W <= W * H) by (nonlinear_arith)
                requires
                    h < H,
            ;
            while w < W
                invariant
                    w <= W,
                    h < H,
                    h * W + W <= W * H,
                    W * H <= usize::MAX,
                    heat_map.len() >= W * H,
                    height_map.len() >= W * H,
                    map.len() == h * W + w,
                    forall|i: int|
                        0 <= i < h * W + w ==> #[trigger] map[i] == resolve(biomes@, height_map[i], heat_map[i]),
                decreases W - w,
            {
                let index: usize = w + h * W;
                let heat: u32 = heat_map[index];
                let height: u32 = height_map[index];
                let kind = match Self::select(biomes, height, heat) {
                    Some(choice) => biomes[choice].biome,
                    None => BiomeKind::Void,
                };
                map.push(kind);
                w = w + 1;
            }
            assert((h + 1) * W == h * W + W) by (nonlinear_arith);
            h = h + 1;
        }
        assert(h * W == W * H) by (nonlinear_arith)
            requires
                h == H,
        ;
        map
    }
}

/// The noise for the height of a cell is drawn at the cell's `x` and `z`,
/// each times this many thousandths.
pub const HEIGHT_SAMPLE_STEP: u32 = 26;

/// The noise for the heat of a cell is drawn at the cell's `x` times this
/// many ten-thousandths
pub const HEAT_SAMPLE_STEP_X: u32 = 36;

/// and at its `z` times this many ten-thousandths.
pub const HEAT_SAMPLE_STEP_Z: u32 = 16;

/// The level that a noise sample stands for: the sample is lifted by
/// [`SAMPLE_LIFT`], stretched by `num / den`, and cut off at zero and at
/// one. All in millionths.
pub open spec fn stretch(sample: int, num: int, den: int) -> int {
    let lifted = sample + SAMPLE_LIFT;
    if lifted <= 0 {
        0
    } else if lifted * num / den >= UNIT {
        UNIT as int
    } else {
        lifted * num / den
    }
}

/// The height that a noise sample stands for: lifted and stretched by 2.25.
pub fn height_level(sample: i32) -> (level: u32)
    ensures
        level == stretch(sample as int, 9, 4),
        level <= UNIT,
{
    let lifted: i64 = sample as i64 + SAMPLE_LIFT;
    if lifted <= 0 {
        0
    } else {
        let v: i64 = lifted * 9 / 4;
        if v >= 1000000 {
            UNIT
        } else {
            v as u32
        }
    }
}

/// The heat that a noise sample stands for: lifted and stretched by 2.5.
pub fn heat_level(sample: i32) -> (level: u32)
    ensures
        level == stretch(sample as int, 5, 2),
        level <= UNIT,
{
    let lifted: i64 = sample as i64 + SAMPLE_LIFT;
    if lifted <= 0 {
        0
    } else {
        let v: i64 = lifted * 5 / 2;
        if v >= 1000000 {
            UNIT
        } else {
            v as u32
        }
    }
}

/// Where the cell at `x` and `z` stands in the rows of the map, for a cell
/// of the map.
pub open spec fn cell_index(x: int, z: int) -> Option<int> {
    if -HALF_MAP <= x < HALF_MAP && -HALF_MAP <= z < HALF_MAP {
        Some(x + HALF_MAP + (z + HALF_MAP) * MAP_SIZE)
    } else {
        None
    }
}

/// Where a cell of this height lies in the world, in thousandths of a world
/// unit: at its coordinates, ten times its height up.
pub open spec fn cell_place(x: i32, z: i32, height: u32) -> Position {
    Position { x: (x * 1000) as i64, y: (height / 100) as i64, z: (z * 1000) as i64 }
}

/// The squares of four neighbouring cells in the map.
pub const QUADS: usize = 998001;

/// The shape of the map, for drawing.
pub struct MeshData {
    /// Where each cell lies, row by row.
    pub points: Vec<Position>,
    /// The corners of the triangles, three for each, as places in `points`.
    pub indices: Vec<u32>,
    /// Where each cell lies in the picture of the map, across and down, in
    /// thousandths of the side of the picture.
    pub uvs: Vec<(u32, u32)>,
}

/// Corner `k` of the two triangles that fill the square whose lowest cell
/// stands at place `i` of the rows.
pub open spec fn quad_corner(i: int, k: int) -> u32 {
    if k == 0 || k == 5 {
        (i + 1) as u32
    } else if k == 1 || k == 4 {
        (i + 1000) as u32
    } else if k == 2 {
        (i + 1001) as u32
    } else {
        i as u32
    }
}

/// How many of the first `z` rows have squares above them.
pub open spec fn mesh_rows(z: int) -> int {
    if z < 999 {
        z
    } else {
        999
    }
}

/// How many of the first `x` cells of row `z` have a square.
pub open spec fn mesh_columns(x: int, z: int) -> int {
    if z >= 999 {
        0
    } else if x < 999 {
        x
    } else {
        999
    }
}

/// A terrain: height, heat and kind of ground of every cell of the map.
pub struct Terrain {
    seed: u32,
    height_map: Vec<u32>,
    heat_map: Vec<u32>,
    biome_map: Vec<BiomeKind>,
}

impl Terrain {
    /// The seed from which the noise was drawn.
    pub closed spec fn spec_seed(&self) -> u32 {
        self.seed
    }

    /// The height of each cell, row by row.
    pub closed spec fn heights(&self) -> Seq<u32> {
        self.height_map@
    }

    /// The heat of each cell, row by row.
    pub closed spec fn heats(&self) -> Seq<u32> {
        self.heat_map@
    }

    /// The kind of ground of each cell, row by row.
    pub closed spec fn biomes(&self) -> Seq<BiomeKind> {
        self.biome_map@
    }

    /// The terrain is the one that the seed and these noise samples make.
    pub open spec fn made_from(&self, seed: u32, height_noise: Seq<i32>, heat_noise: Seq<i32>) -> bool {
        &&& self.spec_seed() == seed
        &&& self.heights().len() == MAP_VOLUME
        &&& self.heats().len() == MAP_VOLUME
        &&& self.biomes().len() == MAP_VOLUME
        &&& forall|i: int| 0 <= i < MAP_VOLUME ==> #[trigger] self.heights()[i] == stretch(height_noise[i] as int, 9, 4)
        &&& forall|i: int| 0 <= i < MAP_VOLUME ==> #[trigger] self.heats()[i] == stretch(heat_noise[i] as int, 5, 2)
        &&& forall|i: int|
            0 <= i < MAP_VOLUME ==> #[trigger] self.biomes()[i] == resolve(
                BiomeRule::spec_catalog(),
                self.heights()[i],
                self.heats()[i],
            )
    }

    /// Every cell has a height, a heat and the kind of ground that the rules
    /// of the map assign to the two.
    pub open spec fn whole(&self) -> bool {
        &&& self.heights().len() == MAP_VOLUME
        &&& self.heats().len() == MAP_VOLUME
        &&& self.biomes().len() == MAP_VOLUME
        &&& forall|i: int| 0 <= i < MAP_VOLUME ==> #[trigger] self.heights()[i] <= UNIT
        &&& forall|i: int| 0 <= i < MAP_VOLUME ==> #[trigger] self.heats()[i] <= UNIT
        &&& forall|i: int|
            0 <= i < MAP_VOLUME ==> #[trigger] self.biomes()[i] == resolve(
                BiomeRule::spec_catalog(),
                self.heights()[i],
                self.heats()[i],
            )
    }

    #[verifier::type_invariant]
    spec fn sound(&self) -> bool {
        self.whole()
    }

    /// The terrain of the noise samples given, one for the height and one
    /// for the heat of each cell, row by row from the lowest `z` and in each
    /// row from the lowest `x`.
    pub fn new(seed: u32, height_noise: &[i32], heat_noise: &[i32]) -> (terrain: Terrain)
        requires
            height_noise.len() == MAP_VOLUME,
            heat_noise.len() == MAP_VOLUME,
        ensures
            terrain.made_from(seed, height_noise@, heat_noise@),
            terrain.whole(),
    {
        let mut heights: Vec<u32> = Vec::new();
        let mut heats: Vec<u32> = Vec::new();
        let mut i: usize = 0;
        while i < MAP_VOLUME
            invariant
                i <= MAP_VOLUME,
                height_noise.len() == MAP_VOLUME,
                heat_noise.len() == MAP_VOLUME,
                heights.len() == i,
                heats.len() == i,
                forall|k: int| 0 <= k < i ==> #[trigger] heights[k] == stretch(height_noise[k] as int, 9, 4),
                forall|k: int| 0 <= k < i ==> #[trigger] heats[k] == stretch(heat_noise[k] as int, 5, 2),
                forall|k: int| 0 <= k < i ==> #[trigger] heights[k] <= UNIT,
                forall|k: int| 0 <= k < i ==> #[trigger] heats[k] <= UNIT,
            decreases MAP_VOLUME - i,
        {
            heights.push(height_level(height_noise[i]));
            heats.push(heat_level(heat_noise[i]));
            i = i + 1;
        }
        let rules = BiomeRule::catalog();
        let biomes = BiomeRule::generate_map::<MAP_SIZE, MAP_SIZE>(rules.as_slice(), heats.as_slice(), heights.as_slice());
        Terrain { seed, heat_map: heats, height_map: heights, biome_map: biomes }
    }

    /// The seed from which the noise was drawn.
    pub fn seed(&self) -> (s: u32)
        ensures
            s == self.spec_seed(),
    {
        self.seed
    }

    /// Where the cell at `x` and `z` stands in the rows of the map; there is
    /// no place for a cell outside the map.
    pub fn index(x: i32, z: i32) -> (i: Option<usize>)
        ensures
            i.is_some() == cell_index(x as int, z as int).is_some(),
            i.is_some() ==> i.unwrap() == cell_index(x as int, z as int).unwrap() && i.unwrap() < MAP_VOLUME,
    {
        if -HALF_MAP <= x && x < HALF_MAP && -HALF_MAP <= z && z < HALF_MAP {
            let col: usize = (x + HALF_MAP) as usize;
            let row: usize = (z + HALF_MAP) as usize;
            assert(col + row * 1000 < 1000000) by (nonlinear_arith)
                requires
                    col < 1000,
                    row < 1000,
            ;
            Some(col + row * MAP_SIZE)
        } else {
            None
        }
    }

    /// The height of the cell at `x` and `z`, in millionths.
    pub fn height(&self, x: i32, z: i32) -> (h: Option<u32>)
        ensures
            self.whole(),
            h == match cell_index(x as int, z as int) {
                Some(i) => Some(self.heights()[i]),
                None => None,
            },
    {
        proof {
            use_type_invariant(self);
        }
        match Self::index(x, z) {
            Some(i) => Some(self.height_map[i]),
            None => None,
        }
    }

    /// The heat of the cell at `x` and `z`, in millionths.
    pub fn heat(&self, x: i32, z: i32) -> (h: Option<u32>)
        ensures
            self.whole(),
            h == match cell_index(x as int, z as int) {
                Some(i) => Some(self.heats()[i]),
                None => None,
            },
    {
        proof {
            use_type_invariant(self);
        }
        match Self::index(x, z) {
            Some(i) => Some(self.heat_map[i]),
            None => None,
        }
    }

    /// The kind of ground of the cell at `x` and `z`.
    pub fn biome(&self, x: i32, z: i32) -> (b: Option<BiomeKind>)
        ensures
            self.whole(),
            b == match cell_index(x as int, z as int) {
                Some(i) => Some(self.biomes()[i]),
                None => None,
            },
    {
        proof {
            use_type_invariant(self);
        }
        match Self::index(x, z) {
            Some(i) => Some(self.biome_map[i]),
            None => None,
        }
    }

    /// Where the cell at `x` and `z` lies in the world: at its coordinates,
    /// ten times its height up.
    pub fn place(&self, x: i32, z: i32) -> (p: Option<Position>)
        ensures
            p == match cell_index(x as int, z as int) {
                Some(i) => Some(cell_place(x, z, self.heights()[i])),
                None => None,
            },
    {
        match self.height(x, z) {
            Some(h) => Some(Position { x: x as i64 * 1000, y: (h / 100) as i64, z: z as i64 * 1000 }),
            None => None,
        }
    }

    /// What it costs to cross the cell at `x` and `z`, by the catalog.
    pub fn move_cost(&self, biomes: &Biomes, x: i32, z: i32) -> (c: Option<MoveCost>)
        ensures
            c == match cell_index(x as int, z as int) {
                Some(i) => Some(biomes.spec_move_cost(self.biomes()[i])),
                None => None,
            },
            biomes.complete() && c.is_some() ==> c.unwrap() == biome_cost(
                self.biomes()[cell_index(x as int, z as int).unwrap()],
            ),
    {
        match self.biome(x, z) {
            Some(kind) => Some(biomes.move_cost(kind)),
            None => None,
        }
    }

    /// The shape of the map: a point for each cell, row by row, and two
    /// triangles for each square of four neighbouring cells.
    pub fn make_mesh(&self) -> (mesh: MeshData)
        ensures
            mesh.points.len() == MAP_VOLUME,
            mesh.uvs.len() == MAP_VOLUME,
            mesh.indices.len() == 6 * QUADS,
            forall|x: int, z: int|
                0 <= x < MAP_SIZE && 0 <= z < MAP_SIZE ==> #[trigger] mesh.points[x + z * 1000] == cell_place(
                    (x - HALF_MAP) as i32,
                    (z - HALF_MAP) as i32,
                    self.heights()[x + z * 1000],
                ),
            forall|x: int, z: int|
                0 <= x < MAP_SIZE && 0 <= z < MAP_SIZE ==> #[trigger] mesh.uvs[x + z * 1000] == (x as u32, z as u32),
            forall|x: int, z: int, k: int|
                0 <= x < MAP_SIZE - 1 && 0 <= z < MAP_SIZE - 1 && 0 <= k < 6 ==> mesh.indices[6 * (x + z * 999) + k]
                    == #[trigger] quad_corner(x + z * 1000, k),
    {
        proof {
            use_type_invariant(self);
        }
        let mut points: Vec<Position> = Vec::new();
        let mut indices: Vec<u32> = Vec::new();
        let mut uvs: Vec<(u32, u32)> = Vec::new();
        let mut z: usize = 0;
        while z < 1000
            invariant
                z <= 1000,
                self.height_map.len() == MAP_VOLUME,
                points.len() == z * 1000,
                uvs.len() == z * 1000,
                indices.len() == 6 * (mesh_rows(z as int) * 999),
                forall|a: int, b: int|
                    0 <= a < 1000 && 0 <= b < z ==> #[trigger] points[a + b * 1000] == cell_place(
                        (a - HALF_MAP) as i32,
                        (b - HALF_MAP) as i32,
                        self.height_map[a + b * 1000],
                    ),
                forall|a: int, b: int|
                    0 <= a < 1000 && 0 <= b < z ==> #[trigger] uvs[a + b * 1000] == (a as u32, b as u32),
                forall|a: int, b: int, k: int|
                    0 <= a < 999 && 0 <= b < mesh_rows(z as int) && 0 <= k < 6 ==> indices[6 * (a + b * 999) + k]
                        == #[trigger] quad_corner(a + b * 1000, k),
            decreases 1000 - z,
        {
            let mut x: usize = 0;
            while x < 1000
                invariant
                    x <= 1000,
                    z < 1000,
                    self.height_map.len() == MAP_VOLUME,
                    points.len() == z * 1000 + x,
                    uvs.len() == z * 1000 + x,
                    indices.len() == 6 * (mesh_rows(z as int) * 999 + mesh_columns(x as int, z as int)),
                    forall|a: int, b: int|
                        0 <= a < 1000 && (0 <= b < z || (b == z && a < x)) ==> #[trigger] points[a + b * 1000]
                            == cell_place(
                            (a - HALF_MAP) as i32,
                            (b - HALF_MAP) as i32,
                            self.height_map[a + b * 1000],
                        ),
                    forall|a: int, b: int|
                        0 <= a < 1000 && (0 <= b < z || (b == z && a < x)) ==> #[trigger] uvs[a + b * 1000] == (
                            a as u32,
                            b as u32,
                        ),
                    forall|a: int, b: int, k: int|
                        0 <= a < 999 && 0 <= k < 6 && (0 <= b < mesh_rows(z as int) || (b == z && z < 999 && a
                            < mesh_columns(x as int, z as int))) ==> indices[6 * (a + b * 999) + k]
                            == #[trigger] quad_corner(a + b * 1000, k),
                decreases 1000 - x,
            {
                let index: usize = x + z * 1000;
                let height: u32 = self.height_map[index];
                points.push(
                    Position {
                        x: (x as i64 - 500) * 1000,
                        y: (height / 100) as i64,
                        z: (z as i64 - 500) * 1000,
                    },
                );
                uvs.push((x as u32, z as u32));
                if x != 999 && z != 999 {
                    let corner: u32 = index as u32;
                    indices.push(corner + 1);
                    indices.push(corner + 1000);
                    indices.push(corner + 1001);
                    indices.push(corner);
                    indices.push(corner + 1000);
                    indices.push(corner + 1);
                }
                x = x + 1;
            }
            z = z + 1;
        }
        MeshData { points, indices, uvs }
    }

    /// The picture of the map: four bytes for each cell, row by row, which
    /// are the red, green and blue of its kind of ground by the catalog,
    /// and 255.
    pub fn make_texture(&self, biomes: &Biomes) -> (data: Vec<u8>)
        ensures
            data.len() == 4 * MAP_VOLUME,
            forall|i: int, k: int|
                0 <= i < MAP_VOLUME && 0 <= k < 4 ==> data[4 * i + k] == #[trigger] texture_byte(
                    texture_color(biomes, self.biomes()[i]),
                    k,
                ),
    {
        proof {
            use_type_invariant(self);
        }
        let mut data: Vec<u8> = Vec::new();
        let mut index: usize = 0;
        while index < MAP_VOLUME
            invariant
                index <= MAP_VOLUME,
                self.biome_map.len() == MAP_VOLUME,
                data.len() == 4 * index,
                forall|i: int, k: int|
                    0 <= i < index && 0 <= k < 4 ==> data[4 * i + k] == #[trigger] texture_byte(
                        texture_color(biomes, self.biome_map[i]),
                        k,
                    ),
            decreases MAP_VOLUME - index,
        {
            let color = biomes.color(self.biome_map[index]);
            data.push(color.red);
            data.push(color.green);
            data.push(color.blue);
            data.push(255);
            proof {
                assert(color == texture_color(biomes, self.biome_map[index as int]));
            }
            index = index + 1;
        }
        data
    }
}

/// The colour in which the picture shows ground of `kind`: the colour in
/// the catalog, and black for a kind that the catalog lacks.
pub open spec fn texture_color(biomes: &Biomes, kind: BiomeKind) -> Rgb {
    match biomes.spec_get(kind) {
        Some(b) => b.color,
        None => Rgb { red: 0, green: 0, blue: 0 },
    }
}

/// Byte `k` of the four that the picture holds for a cell of this colour.
pub open spec fn texture_byte(color: Rgb, k: int) -> u8 {
    if k == 0 {
        color.red
    } else if k == 1 {
        color.green
    } else if k == 2 {
        color.blue
    } else {
        255
    }
}

/// Two terrains made from the same seed and the same noise samples are the
/// same, cell by cell.
pub proof fn lemma_same_samples_same_terrain(
    a: Terrain,
    b: Terrain,
    seed: u32,
    height_noise: Seq<i32>,
    heat_noise: Seq<i32>,
)
    requires
        a.made_from(seed, height_noise, heat_noise),
        b.made_from(seed, height_noise, heat_noise),
    ensures
        a.spec_seed() == b.spec_seed(),
        a.heights() == b.heights(),
        a.heats() == b.heats(),
        a.biomes() == b.biomes(),
{
}

} // verus!
