//! Grids of land and sea, and what refines a coarse layout into a map of
//! biomes: doubling, smoothing by the rule of the majority, telling inland
//! from coast, and clearing lone cells.

use vstd::prelude::*;
use crate::biome::BiomeType;
use crate::biome_map::{chacha8_word, stream_word};

verus! {

/// A grid of cells in rows; `true` stands for land, `false` for sea.
pub type Cells = Seq<Vec<bool>>;

/// A grid of biomes in rows.
pub type Biomes = Seq<Vec<BiomeType>>;

/// The width of a grid: the length of its first row, 0 for no row.
pub open spec fn width_of<T>(grid: Seq<Vec<T>>) -> int {
    if grid.len() > 0 {
        grid[0]@.len() as int
    } else {
        0
    }
}

/// Whether every row of a grid is as long as its first row.
pub open spec fn is_grid<T>(grid: Seq<Vec<T>>) -> bool {
    forall|y: int| 0 <= y < grid.len() ==> (#[trigger] grid[y])@.len() == width_of(grid)
}

/// Whether `grid` has `height` rows of `width` cells.
pub open spec fn has_shape<T>(grid: Seq<Vec<T>>, height: int, width: int) -> bool {
    &&& grid.len() == height
    &&& forall|y: int| 0 <= y < height ==> (#[trigger] grid[y])@.len() == width
}

/// 1 where `(y, x)` lies in the grid and holds `value`, else 0.
pub open spec fn cell_is<T>(grid: Seq<Vec<T>>, y: int, x: int, value: T) -> int {
    if 0 <= y < grid.len() && 0 <= x < grid[y]@.len() && grid[y]@[x] == value {
        1
    } else {
        0
    }
}

/// 1 where `(y, x)` lies in the grid, else 0.
pub open spec fn cell_in<T>(grid: Seq<Vec<T>>, y: int, x: int) -> int {
    if 0 <= y < grid.len() && 0 <= x < grid[y]@.len() {
        1
    } else {
        0
    }
}

/// Number of the eight cells around `(y, x)` that hold `value`; cells
/// beyond the edge do not count.
pub open spec fn around(grid: Cells, y: int, x: int, value: bool) -> int {
    cell_is(grid, y - 1, x - 1, value) + cell_is(grid, y - 1, x, value) + cell_is(
        grid,
        y - 1,
        x + 1,
        value,
    ) + cell_is(grid, y, x - 1, value) + cell_is(grid, y, x + 1, value) + cell_is(
        grid,
        y + 1,
        x - 1,
        value,
    ) + cell_is(grid, y + 1, x, value) + cell_is(grid, y + 1, x + 1, value)
}

/// What the cell at `(y, x)` becomes under the rule of the majority: sea
/// turns to land where more of the cells around it are land than sea, land
/// turns to sea where more are sea than land, and otherwise the cell stays.
pub open spec fn rule_cell(grid: Cells, y: int, x: int) -> bool {
    let current = grid[y]@[x];
    let land = around(grid, y, x, true);
    let sea = around(grid, y, x, false);
    if !current && land > sea {
        true
    } else if current && sea > land {
        false
    } else {
        current
    }
}

/// Whether a random word picks the rare biome: three words in ten do.
pub open spec fn picks_rare(word: u32) -> bool {
    word % 10 < 3
}

/// The biome of the cell at `(y, x)`: sea that touches no land is abyss
/// where `word` picks the rare biome, all other sea is ocean; land that
/// touches no sea is mountain where `word` picks the rare biome, all other
/// land is plain.
pub open spec fn biome_cell(grid: Cells, y: int, x: int, word: u32) -> BiomeType {
    if grid[y]@[x] {
        if around(grid, y, x, false) == 0 && picks_rare(word) {
            BiomeType::Mountain
        } else {
            BiomeType::Plain
        }
    } else {
        if around(grid, y, x, true) == 0 && picks_rare(word) {
            BiomeType::Abyss
        } else {
            BiomeType::Ocean
        }
    }
}

/// Number of the four cells beside `(y, x)`, along the axes, that lie in
/// the grid and do not hold `value`.
pub open spec fn others_beside(grid: Biomes, y: int, x: int, value: BiomeType) -> int {
    (cell_in(grid, y - 1, x) - cell_is(grid, y - 1, x, value)) + (cell_in(grid, y + 1, x) - cell_is(
        grid,
        y + 1,
        x,
        value,
    )) + (cell_in(grid, y, x - 1) - cell_is(grid, y, x - 1, value)) + (cell_in(grid, y, x + 1)
        - cell_is(grid, y, x + 1, value))
}

/// What the cell at `(y, x)` becomes when lone cells are smoothed away: an
/// abyss with nothing but ocean beside it becomes ocean, a mountain with
/// nothing but plain beside it becomes plain, and every other cell stays.
pub open spec fn smooth_cell(grid: Biomes, y: int, x: int) -> BiomeType {
    let current = grid[y]@[x];
    if current == BiomeType::Abyss && others_beside(grid, y, x, BiomeType::Ocean) == 0 {
        BiomeType::Ocean
    } else if current == BiomeType::Mountain && others_beside(grid, y, x, BiomeType::Plain) == 0 {
        BiomeType::Plain
    } else {
        current
    }
}

/// Whether every row of `grid` is as long as its first row.
pub fn is_rectangular(grid: &Vec<Vec<bool>>) -> (r: bool)
    ensures
        r == is_grid(grid@),
{
    if grid.len() == 0 {
        return true;
    }
    let width = grid[0].len();
    let mut y: usize = 0;
    while y < grid.len()
        invariant
            y <= grid@.len(),
            grid@.len() > 0,
            width == grid@[0]@.len(),
            forall|k: int| 0 <= k < y ==> (#[trigger] grid@[k])@.len() == width,
        decreases grid@.len() - y,
    {
        if grid[y].len() != width {
            return false;
        }
        y += 1;
    }
    true
}

/// The grid with every cell doubled along both axes.
pub fn zoom_2x(input: &Vec<Vec<bool>>) -> (output: Vec<Vec<bool>>)
    requires
        is_grid(input@),
        input@.len() * 2 <= usize::MAX,
        width_of(input@) * 2 <= usize::MAX,
    ensures
        has_shape(output@, input@.len() as int * 2, width_of(input@) * 2),
        forall|y: int, x: int|
            0 <= y < output@.len() && 0 <= x < width_of(input@) * 2 ==> (#[trigger] output@[y]@[x])
                == input@[y / 2]@[x / 2],
{
    let old_height = input.len();
    let old_width = if old_height > 0 {
        input[0].len()
    } else {
        0
    };
    let mut output: Vec<Vec<bool>> = Vec::new();
    let mut y: usize = 0;
    while y < old_height
        invariant
            y <= old_height,
            old_height == input@.len(),
            old_width == width_of(input@),
            is_grid(input@),
            old_width * 2 <= usize::MAX,
            output@.len() == 2 * y,
            forall|k: int| 0 <= k < 2 * y ==> (#[trigger] output@[k])@.len() == old_width * 2,
            forall|k: int, x: int|
                0 <= k < 2 * y && 0 <= x < old_width * 2 ==> (#[trigger] output@[k]@[x]) == input@[k
                    / 2]@[x / 2],
        decreases old_height - y,
    {
        let mut first: Vec<bool> = Vec::new();
        let mut second: Vec<bool> = Vec::new();
        let mut x: usize = 0;
        while x < old_width
            invariant
                x <= old_width,
                y < input@.len(),
                input@[y as int]@.len() == old_width,
                first@.len() == 2 * x,
                second@.len() == 2 * x,
                forall|k: int| 0 <= k < 2 * x ==> (#[trigger] first@[k]) == input@[y as int]@[k / 2],
                forall|k: int| 0 <= k < 2 * x ==> (#[trigger] second@[k]) == input@[y as int]@[k / 2],
            decreases old_width - x,
        {
            let val = input[y][x];
            first.push(val);
            first.push(val);
            second.push(val);
            second.push(val);
            x += 1;
        }
        output.push(first);
        output.push(second);
        y += 1;
    }
    output
}

/// 1 where the cell `dy` rows and `dx` cells from `(y, x)` lies in the grid
/// and holds `value`, else 0; `dy` and `dx` are 0 for one before, 1 for the
/// same and 2 for one behind.
fn count_at(input: &Vec<Vec<bool>>, y: usize, x: usize, dy: u8, dx: u8, value: bool) -> (n: u8)
    requires
        dy <= 2,
        dx <= 2,
    ensures
        n == cell_is(input@, y + dy - 1, x + dx - 1, value),
{
    let row_sum: u128 = y as u128 + dy as u128;
    let cell_sum: u128 = x as u128 + dx as u128;
    if row_sum < 1 || cell_sum < 1 || row_sum - 1 >= input.len() as u128 {
        return 0;
    }
    let ny: usize = (row_sum - 1) as usize;
    if cell_sum - 1 >= input[ny].len() as u128 {
        return 0;
    }
    let nx: usize = (cell_sum - 1) as usize;
    if input[ny][nx] == value {
        1
    } else {
        0
    }
}

/// Number of the eight cells around `(y, x)` that hold `value`.
pub fn count_around(input: &Vec<Vec<bool>>, y: usize, x: usize, value: bool) -> (n: u8)
    ensures
        n == around(input@, y as int, x as int, value),
        n <= 8,
{
    count_at(input, y, x, 0, 0, value) + count_at(input, y, x, 0, 1, value) + count_at(
        input,
        y,
        x,
        0,
        2,
        value,
    ) + count_at(input, y, x, 1, 0, value) + count_at(input, y, x, 1, 2, value) + count_at(
        input,
        y,
        x,
        2,
        0,
        value,
    ) + count_at(input, y, x, 2, 1, value) + count_at(input, y, x, 2, 2, value)
}

/// The grid after one round of the rule of the majority: every cell is
/// judged by the cells around it as they were before the round.
pub fn apply_rule(input: &Vec<Vec<bool>>) -> (output: Vec<Vec<bool>>)
    requires
        is_grid(input@),
    ensures
        has_shape(output@, input@.len() as int, width_of(input@)),
        forall|y: int, x: int|
            0 <= y < input@.len() && 0 <= x < width_of(input@) ==> (#[trigger] output@[y]@[x])
                == rule_cell(input@, y, x),
{
    let height = input.len();
    let width = if height > 0 {
        input[0].len()
    } else {
        0
    };
    let mut output: Vec<Vec<bool>> = Vec::new();
    let mut y: usize = 0;
    while y < height
        invariant
            y <= height,
            height == input@.len(),
            width == width_of(input@),
            is_grid(input@),
            output@.len() == y,
            forall|k: int| 0 <= k < y ==> (#[trigger] output@[k])@.len() == width,
            forall|k: int, x: int|
                0 <= k < y && 0 <= x < width ==> (#[trigger] output@[k]@[x]) == rule_cell(
                    input@,
                    k,
                    x,
                ),
        decreases height - y,
    {
        let mut row: Vec<bool> = Vec::new();
        let mut x: usize = 0;
        while x < width
            invariant
                x <= width,
                y < input@.len(),
                input@[y as int]@.len() == width,
                row@.len() == x,
                forall|k: int| 0 <= k < x ==> (#[trigger] row@[k]) == rule_cell(input@, y as int, k),
            decreases width - x,
        {
            let current = input[y][x];
            let true_count = count_around(input, y, x, true);
            let false_count = count_around(input, y, x, false);
            if !current && true_count > false_count {
                row.push(true);
            } else if current && false_count > true_count {
                row.push(false);
            } else {
                row.push(current);
            }
            x += 1;
        }
        output.push(row);
        y += 1;
    }
    output
}

/// The biome of the cell at `(y, x)` of a grid of land and sea, for the
/// random word that was drawn for the cell: sea that touches no land is
/// abyss where the word picks the rare biome, three words in ten, and
/// ocean otherwise; land that touches no sea is mountain where the word
/// picks the rare biome, and plain otherwise.
pub fn biome_from_word(input: &Vec<Vec<bool>>, y: usize, x: usize, word: u32) -> (biome: BiomeType)
    requires
        y < input@.len(),
        x < input@[y as int]@.len(),
    ensures
        biome == biome_cell(input@, y as int, x as int, word),
{
    let rare = word % 10 < 3;
    if input[y][x] {
        if count_around(input, y, x, false) == 0 && rare {
            BiomeType::Mountain
        } else {
            BiomeType::Plain
        }
    } else {
        if count_around(input, y, x, true) == 0 && rare {
            BiomeType::Abyss
        } else {
            BiomeType::Ocean
        }
    }
}

/// The biomes of a grid of land and sea. The rare biomes, mountain and
/// abyss, are picked by the words of the random stream of `seed`, the word
/// at `y * width + x` for the cell at `(y, x)`: the same seed gives the
/// same biomes.
pub fn convert_to_biomes(input: &Vec<Vec<bool>>, seed: u64) -> (result: Vec<Vec<BiomeType>>)
    requires
        is_grid(input@),
        input@.len() * width_of(input@) <= u64::MAX,
    ensures
        has_shape(result@, input@.len() as int, width_of(input@)),
        forall|y: int, x: int|
            0 <= y < input@.len() && 0 <= x < width_of(input@) ==> (#[trigger] result@[y]@[x])
                == biome_cell(input@, y, x, chacha8_word(seed, (y * width_of(input@) + x) as u64)),
{
    let height = input.len();
    let width = if height > 0 {
        input[0].len()
    } else {
        0
    };
    let mut result: Vec<Vec<BiomeType>> = Vec::new();
    let mut y: usize = 0;
    while y < height
        invariant
            y <= height,
            height == input@.len(),
            width == width_of(input@),
            is_grid(input@),
            height * width <= u64::MAX,
            result@.len() == y,
            forall|k: int| 0 <= k < y ==> (#[trigger] result@[k])@.len() == width,
            forall|k: int, x: int|
                0 <= k < y && 0 <= x < width ==> (#[trigger] result@[k]@[x]) == biome_cell(
                    input@,
                    k,
                    x,
                    chacha8_word(seed, (k * width + x) as u64),
                ),
        decreases height - y,
    {
        let mut row: Vec<BiomeType> = Vec::new();
        let mut x: usize = 0;
        while x < width
            invariant
                x <= width,
                y < height,
                height == input@.len(),
                height * width <= u64::MAX,
                input@[y as int]@.len() == width,
                row@.len() == x,
                forall|k: int|
                    0 <= k < x ==> (#[trigger] row@[k]) == biome_cell(
                        input@,
                        y as int,
                        k,
                        chacha8_word(seed, (y * width + k) as u64),
                    ),
            decreases width - x,
        {
            proof {
                assert(y * width + x < height * width) by (nonlinear_arith)
                    requires
                        y < height,
                        x < width,
                ;
            }
            let index: u64 = y as u64 * width as u64 + x as u64;
            let biome = biome_from_word(input, y, x, stream_word(seed, index));
            row.push(biome);
            x += 1;
        }
        result.push(row);
        y += 1;
    }
    result
}

/// 1 where the cell `dy` rows and `dx` cells from `(y, x)` lies in the grid
/// and does not hold `value`, else 0; `dy` and `dx` are counted as in
/// `count_at`.
fn other_at(input: &Vec<Vec<BiomeType>>, y: usize, x: usize, dy: u8, dx: u8, value: BiomeType) -> (n:
    u8)
    requires
        dy <= 2,
        dx <= 2,
    ensures
        n == cell_in(input@, y + dy - 1, x + dx - 1) - cell_is(input@, y + dy - 1, x + dx - 1, value),
{
    let row_sum: u128 = y as u128 + dy as u128;
    let cell_sum: u128 = x as u128 + dx as u128;
    if row_sum < 1 || cell_sum < 1 || row_sum - 1 >= input.len() as u128 {
        return 0;
    }
    let ny: usize = (row_sum - 1) as usize;
    if cell_sum - 1 >= input[ny].len() as u128 {
        return 0;
    }
    let nx: usize = (cell_sum - 1) as usize;
    if input[ny][nx] != value {
        1
    } else {
        0
    }
}

/// The grid of biomes with lone abysses and lone mountains smoothed away:
/// every cell is judged by the cells beside it as they were before.
pub fn smooth_biomes(input: &Vec<Vec<BiomeType>>) -> (output: Vec<Vec<BiomeType>>)
    requires
        is_grid(input@),
    ensures
        has_shape(output@, input@.len() as int, width_of(input@)),
        forall|y: int, x: int|
            0 <= y < input@.len() && 0 <= x < width_of(input@) ==> (#[trigger] output@[y]@[x])
                == smooth_cell(input@, y, x),
{
    let height = input.len();
    let width = if height > 0 {
        input[0].len()
    } else {
        0
    };
    let mut output: Vec<Vec<BiomeType>> = Vec::new();
    let mut y: usize = 0;
    while y < height
        invariant
            y <= height,
            height == input@.len(),
            width == width_of(input@),
            is_grid(input@),
            output@.len() == y,
            forall|k: int| 0 <= k < y ==> (#[trigger] output@[k])@.len() == width,
            forall|k: int, x: int|
                0 <= k < y && 0 <= x < width ==> (#[trigger] output@[k]@[x]) == smooth_cell(
                    input@,
                    k,
                    x,
                ),
        decreases height - y,
    {
        let mut row: Vec<BiomeType> = Vec::new();
        let mut x: usize = 0;
        while x < width
            invariant
                x <= width,
                y < input@.len(),
                input@[y as int]@.len() == width,
                row@.len() == x,
                forall|k: int| 0 <= k < x ==> (#[trigger] row@[k]) == smooth_cell(input@, y as int, k),
            decreases width - x,
        {
            let current = input[y][x];
            let biome = match current {
                BiomeType::Abyss => {
                    let others = other_at(input, y, x, 0, 1, BiomeType::Ocean) + other_at(
                        input,
                        y,
                        x,
                        2,
                        1,
                        BiomeType::Ocean,
                    ) + other_at(input, y, x, 1, 0, BiomeType::Ocean) + other_at(
                        input,
                        y,
                        x,
                        1,
                        2,
                        BiomeType::Ocean,
                    );
                    if others == 0 {
                        BiomeType::Ocean
                    } else {
                        current
                    }
                },
                BiomeType::Mountain => {
                    let others = other_at(input, y, x, 0, 1, BiomeType::Plain) + other_at(
                        input,
                        y,
                        x,
                        2,
                        1,
                        BiomeType::Plain,
                    ) + other_at(input, y, x, 1, 0, BiomeType::Plain) + other_at(
                        input,
                        y,
                        x,
                        1,
                        2,
                        BiomeType::Plain,
                    );
                    if others == 0 {
                        BiomeType::Plain
                    } else {
                        current
                    }
                },
                _ => current,
            };
            row.push(biome);
            x += 1;
        }
        output.push(row);
        y += 1;
    }
    output
}

} // verus!
