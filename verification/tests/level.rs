use hexadventure::floodfill::flood;
use hexadventure::grid::dense::{index_to_pos, pos_to_index};
use hexadventure::grid::{Grid, Index2d, Pos};
use hexadventure::level::basic::{
    count_floor_groups, count_neighbor_groups, count_neighbors, generate, is_cave, is_dead_end,
};
use hexadventure::level::tile::Terrain;
use rand::SeedableRng;
use rand_xoshiro::Xoshiro256StarStar;

fn level_from(rows: &[&str]) -> Grid<Terrain> {
    let cells: Vec<Vec<u8>> = rows.iter().map(|row| row.bytes().collect()).collect();
    Grid::new(rows[0].len(), rows.len(), |pos| {
        let index = pos_to_index(pos);
        if cells[index.row][index.col] == b'.' {
            Terrain::Floor
        } else {
            Terrain::Wall
        }
    })
}

#[test]
fn test_no_dead_ends() {
    let mut rng = Xoshiro256StarStar::seed_from_u64(0x1234);
    let grid = generate(40, 40, &mut rng);
    for pos in grid.positions() {
        assert!(!is_dead_end(pos, &grid));
    }
}

#[test]
fn basic_test_no_dead_ends() {
    for seed in 0..20 {
        let mut rng = Xoshiro256StarStar::seed_from_u64(seed);
        let grid = generate(40, 40, &mut rng);
        for pos in grid.positions() {
            assert!(!is_dead_end(pos, &grid));
        }
    }
}

#[test]
fn test_connected() {
    let mut rng = Xoshiro256StarStar::seed_from_u64(0x4321);
    let grid = generate(40, 40, &mut rng);
    let floor_pos = grid
        .positions()
        .into_iter()
        .find(|&pos| grid[pos] == Terrain::Floor)
        .unwrap();
    let cave = flood(floor_pos, |pos| grid.contains(pos) && grid[pos] == Terrain::Floor);
    assert!(grid
        .positions()
        .into_iter()
        .all(|pos| grid[pos] == Terrain::Wall || cave.contains(pos)));
}

#[test]
fn basic_test_connected() {
    for seed in 100..120 {
        let mut rng = Xoshiro256StarStar::seed_from_u64(seed);
        let grid = generate(34, 26, &mut rng);
        assert_eq!(grid.width(), 34);
        assert_eq!(grid.height(), 26);
        let floors: Vec<Pos> = grid
            .positions()
            .into_iter()
            .filter(|&pos| grid[pos] == Terrain::Floor)
            .collect();
        if let Some(&floor_pos) = floors.first() {
            let cave = flood(floor_pos, |pos| grid.contains(pos) && grid[pos] == Terrain::Floor);
            assert_eq!(cave.len(), floors.len());
        }
    }
}

#[test]
fn generated_levels_are_walled_in() {
    let mut rng = Xoshiro256StarStar::seed_from_u64(99);
    let grid = generate(20, 12, &mut rng);
    for pos in grid.positions() {
        if !grid.is_inner(pos) {
            assert_eq!(grid[pos], Terrain::Wall);
        }
    }
}

#[test]
fn generation_depends_on_the_seed_alone() {
    let first = generate(30, 20, &mut Xoshiro256StarStar::seed_from_u64(5));
    let second = generate(30, 20, &mut Xoshiro256StarStar::seed_from_u64(5));
    let other = generate(30, 20, &mut Xoshiro256StarStar::seed_from_u64(6));
    assert_eq!(first.iter(), second.iter());
    assert_ne!(first.iter(), other.iter());
}

#[test]
fn neighbor_groups_are_counted_around_a_position() {
    // the six neighbors of the middle, clockwise from the northeast:
    // floor, wall, floor, floor, wall, wall
    let level = level_from(&[
        "#####",
        "###.#",
        "###.#",
        "#..##",
        "#####",
    ]);
    let middle = index_to_pos(Index2d { row: 2, col: 2 });
    let around: Vec<Terrain> = middle.neighbors().iter().map(|&pos| level[pos]).collect();
    let floors = around.iter().filter(|&&t| t == Terrain::Floor).count();
    let mut ends = 0;
    for i in 0..6 {
        if around[i] == Terrain::Floor && around[(i + 1) % 6] != Terrain::Floor {
            ends += 1;
        }
    }
    assert_eq!(count_floor_groups(middle, &level), ends);
    assert_eq!(count_neighbor_groups(middle, &level, |t| t == Terrain::Floor), ends);
    assert_eq!(count_neighbors(middle, &level, |t| t == Terrain::Floor), floors);
    assert_eq!(count_neighbors(middle, &level, |t| t == Terrain::Wall), 6 - floors);
}

#[test]
fn groups_of_none_and_of_all() {
    let solid = level_from(&["###", "###", "###"]);
    let open = Grid::new(3, 3, |_pos| Terrain::Floor);
    let middle = index_to_pos(Index2d { row: 1, col: 1 });
    assert_eq!(count_floor_groups(middle, &solid), 0);
    assert_eq!(count_floor_groups(middle, &open), 1);
    assert_eq!(count_neighbors(middle, &open, |t| t == Terrain::Floor), 6);
    assert_eq!(count_neighbors(middle, &solid, |t| t == Terrain::Floor), 0);
}

#[test]
fn a_lone_floor_is_no_cave() {
    let level = level_from(&["#####", "#####", "##.##", "#####", "#####"]);
    let middle = index_to_pos(Index2d { row: 2, col: 2 });
    assert!(!is_cave(middle, &level));
    assert!(!is_dead_end(middle, &level));
    assert!(!is_cave(index_to_pos(Index2d { row: 0, col: 0 }), &level));
}

#[test]
fn two_floors_side_by_side_are_caves() {
    let level = level_from(&["#####", "#####", "#..##", "#####", "#####"]);
    let left = index_to_pos(Index2d { row: 2, col: 1 });
    let right = index_to_pos(Index2d { row: 2, col: 2 });
    assert!(is_cave(left, &level));
    assert!(is_cave(right, &level));
    assert!(!is_dead_end(left, &level));
}
