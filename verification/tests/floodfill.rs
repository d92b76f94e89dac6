use hexadventure::floodfill::flood;
use hexadventure::grid::dense::pos_to_index;
use hexadventure::grid::{Grid, Pos};
use hexadventure::posset::PosSet;
use rand::rngs::StdRng;
use rand::{thread_rng, Rng, SeedableRng};
use std::collections::HashSet;

/// Naive recursive floodfill used to compare against the scanline floodfill.
fn basic_flood<F>(origin: Pos, floodable: F) -> HashSet<Pos>
where
    F: Fn(Pos) -> bool,
{
    let mut flooded = HashSet::new();
    let mut stack = vec![origin];
    while let Some(pos) = stack.pop() {
        if floodable(pos) && !flooded.contains(&pos) {
            flooded.insert(pos);
            for neighbor in pos.neighbors() {
                stack.push(neighbor);
            }
        }
    }
    flooded
}

/// Test whether the two sets contain the same items.
fn set_equiv(a: &PosSet, b: &HashSet<Pos>) -> bool {
    a.len() == b.len() && a.positions().iter().all(|item| b.contains(item))
}

fn random_grid<R: Rng>(width: usize, height: usize, chance: f64, rng: &mut R) -> Grid<bool> {
    let cells: Vec<bool> = (0..width * height).map(|_| rng.gen_bool(chance)).collect();
    Grid::new(width, height, |pos| {
        let index = pos_to_index(pos);
        cells[index.row * width + index.col]
    })
}

/// Make sure naive floodfill and scanline floodfill behave the same.
#[test]
fn flood_equiv_basic_flood() {
    let mut rng = thread_rng();
    for _i in 0..40 {
        let grid = random_grid(40, 40, 0.75, &mut rng);
        let normal_set = flood(grid.center(), |pos| grid.contains(pos) && grid[pos]);
        let basic_set = basic_flood(grid.center(), |pos| grid.contains(pos) && grid[pos]);
        assert!(set_equiv(&normal_set, &basic_set));
    }
}

#[test]
fn floodfill_flood_equiv_basic_flood() {
    let mut rng = thread_rng();
    for _i in 0..100 {
        let grid = random_grid(20, 20, 0.75, &mut rng);
        let normal_set = flood(grid.center(), |pos| grid.contains(pos) && grid[pos]);
        let basic_set = basic_flood(grid.center(), |pos| grid.contains(pos) && grid[pos]);
        assert!(set_equiv(&normal_set, &basic_set));
    }
}

#[test]
fn flood_equals_naive_flood_on_sparse_grids() {
    for seed in 0..60 {
        let mut rng = StdRng::seed_from_u64(seed);
        let grid = random_grid(30, 17, 0.55, &mut rng);
        for origin in [grid.center(), Pos { x: 0, y: 0 }, Pos { x: 9, y: 3 }] {
            let normal_set = flood(origin, |pos| grid.contains(pos) && grid[pos]);
            let basic_set = basic_flood(origin, |pos| grid.contains(pos) && grid[pos]);
            assert!(set_equiv(&normal_set, &basic_set));
        }
    }
}

#[test]
fn flood_of_an_open_grid_is_the_grid() {
    let grid = Grid::new(5, 5, |_pos| true);
    let flooded = flood(Pos { x: 0, y: 0 }, |pos| grid.contains(pos));
    assert_eq!(flooded.len(), 25);
    for pos in grid.positions() {
        assert!(flooded.contains(pos));
    }
}

#[test]
fn flood_from_a_blocked_origin_is_empty() {
    let flooded = flood(Pos { x: 0, y: 0 }, |pos| pos.x == 1 && pos.y == 0);
    assert_eq!(flooded.len(), 0);
    let far = flood(Pos { x: i32::MAX, y: i32::MIN }, |_pos| false);
    assert_eq!(far.len(), 0);
}

#[test]
fn flood_stops_at_walls() {
    // a ring of radius two around the origin keeps the flood inside
    let origin = Pos { x: 0, y: 0 };
    let flooded = flood(origin, |pos| origin.distance(pos) != 2 && origin.distance(pos) <= 5);
    assert_eq!(flooded.len(), 7);
    assert!(flooded.contains(origin));
    for neighbor in origin.neighbors() {
        assert!(flooded.contains(neighbor));
    }
    assert!(!flooded.contains(Pos { x: 3, y: 0 }));
}

#[test]
fn flood_twice_gives_the_same_set() {
    let mut rng = StdRng::seed_from_u64(7);
    let grid = random_grid(40, 40, 0.75, &mut rng);
    let first = flood(grid.center(), |pos| grid.contains(pos) && grid[pos]);
    let second = flood(grid.center(), |pos| grid.contains(pos) && grid[pos]);
    assert_eq!(first.len(), second.len());
    assert!(first.positions().iter().all(|&pos| second.contains(pos)));
    assert_eq!(first.positions(), second.positions());
}
