use hexadventure::grid::dense::{index_to_pos, pos_to_index};
use hexadventure::grid::{Grid, Index2d, Pos};
use hexadventure::level::basic::{calc_shuffled_positions, flood_caves, generate};
use hexadventure::level::chasm::add_chasms;
use hexadventure::level::lake::floodable;
use hexadventure::level::stairs::{
    find_stair_pos, generate_entrance, is_stairs_aligned, is_valid_entrance, is_valid_exit,
};
use hexadventure::level::tile::Terrain;
use rand::SeedableRng;
use rand_xoshiro::Xoshiro256StarStar;

fn level_of(rows: &[&str]) -> Grid<Terrain> {
    let cells: Vec<Vec<u8>> = rows.iter().map(|row| row.bytes().collect()).collect();
    Grid::new(rows[0].len(), rows.len(), |pos| {
        let index = pos_to_index(pos);
        match cells[index.row][index.col] {
            b'.' => Terrain::Floor,
            b'<' => Terrain::Entrance,
            b'>' => Terrain::Exit,
            _ => Terrain::Wall,
        }
    })
}

fn at(row: usize, col: usize) -> Pos {
    index_to_pos(Index2d { row, col })
}

fn count(level: &Grid<Terrain>, terrain: Terrain) -> usize {
    level.iter().iter().filter(|&&t| t == terrain).count()
}

/// A wall with two floors side by side among its neighbors and walls elsewhere.
fn alcove() -> (Grid<Terrain>, Pos) {
    let mut level = Grid::new(7, 7, |_pos| Terrain::Wall);
    let pos = at(3, 3);
    let neighbors = pos.neighbors();
    level.set(neighbors[0], Terrain::Floor);
    level.set(neighbors[1], Terrain::Floor);
    (level, pos)
}

#[test]
fn stairs_stand_in_an_alcove() {
    let (level, pos) = alcove();
    assert!(is_valid_entrance(pos, &level));
    assert!(is_valid_exit(pos, &level));
    // two floors that are apart make two groups of walls
    let mut split = Grid::new(7, 7, |_pos| Terrain::Wall);
    split.set(pos.neighbors()[0], Terrain::Floor);
    split.set(pos.neighbors()[3], Terrain::Floor);
    assert!(!is_valid_entrance(pos, &split));
    // a floor is no place for stairs
    assert!(!is_valid_entrance(pos.neighbors()[0], &level));
    // and neither is solid rock
    let rock = Grid::new(7, 7, |_pos| Terrain::Wall);
    assert!(!is_valid_entrance(pos, &rock));
}

#[test]
fn no_exit_next_to_an_entrance() {
    let (mut level, pos) = alcove();
    level.set(pos.neighbors()[4], Terrain::Entrance);
    assert!(!is_valid_exit(pos, &level));
    level.set(pos.neighbors()[4], Terrain::Wall);
    assert!(is_valid_exit(pos, &level));
}

#[test]
fn stairs_are_aligned_where_floors_match() {
    let (level, pos) = alcove();
    let (same, _) = alcove();
    assert!(is_stairs_aligned(pos, &level, &same));
    let rock = Grid::new(7, 7, |_pos| Terrain::Wall);
    assert!(!is_stairs_aligned(pos, &level, &rock));
    assert!(is_stairs_aligned(pos, &rock, &level));
}

#[test]
fn stairs_are_found_where_both_levels_allow() {
    let (level, _) = alcove();
    let (next_level, _) = alcove();
    let mut rng = Xoshiro256StarStar::seed_from_u64(3);
    let pos = find_stair_pos(&level, &next_level, &mut rng).expect("the alcove will do");
    assert!(is_valid_exit(pos, &level));
    assert!(is_valid_entrance(pos, &next_level));
    assert!(is_stairs_aligned(pos, &level, &next_level));
    let rock = Grid::new(7, 7, |_pos| Terrain::Wall);
    assert_eq!(find_stair_pos(&level, &rock, &mut rng), None);
}

#[test]
fn an_entrance_is_put_where_one_can_stand() {
    let (mut level, _) = alcove();
    let (before, _) = alcove();
    let mut rng = Xoshiro256StarStar::seed_from_u64(11);
    let pos = generate_entrance(&mut level, &mut rng).expect("the alcove will do");
    assert!(is_valid_entrance(pos, &before));
    assert_eq!(level[pos], Terrain::Entrance);
    assert_eq!(count(&level, Terrain::Entrance), 1);
    assert_eq!(count(&level, Terrain::Floor), 2);
    let mut rock = Grid::new(7, 7, |_pos| Terrain::Wall);
    assert_eq!(generate_entrance(&mut rock, &mut rng), None);
    assert_eq!(count(&rock, Terrain::Wall), 49);
}

#[test]
fn generated_levels_take_an_entrance() {
    for seed in 0..10 {
        let mut rng = Xoshiro256StarStar::seed_from_u64(seed);
        let mut level = generate(34, 26, &mut rng);
        let before = level.iter().clone();
        let pos = generate_entrance(&mut level, &mut rng).expect("a cave has walls to dig into");
        assert!(level.is_inner(pos));
        assert_eq!(level[pos], Terrain::Entrance);
        for other in level.positions() {
            if other != pos {
                assert_eq!(level[other], before[level.pos_to_linear(other)]);
            }
        }
    }
}

#[test]
fn shuffled_positions_are_the_inner_positions() {
    let grid = Grid::new(9, 6, |_pos| 0u8);
    let mut rng = Xoshiro256StarStar::seed_from_u64(5);
    let shuffled = calc_shuffled_positions(&grid, &mut rng);
    let inner = grid.inner_positions();
    assert_eq!(shuffled.len(), 7 * 4);
    assert_ne!(shuffled, inner);
    for pos in inner {
        assert_eq!(shuffled.iter().filter(|&&p| p == pos).count(), 1);
    }
}

#[test]
fn floor_and_stairs_count_for_the_size_of_a_level() {
    let level = level_of(&["#####", "#.<>#", "#####"]);
    assert!(!floodable(at(0, 0), &level));
    assert!(floodable(at(1, 1), &level));
    assert!(floodable(at(1, 2), &level));
    assert!(floodable(at(1, 3), &level));
}

fn hall(side: usize, from: usize, to: usize) -> Grid<Terrain> {
    Grid::new(side, side, |pos| {
        let index = pos_to_index(pos);
        if from <= index.row && index.row < to && from <= index.col && index.col < to {
            Terrain::Floor
        } else {
            Terrain::Wall
        }
    })
}

#[test]
fn caves_are_flooded_once() {
    let below = hall(12, 2, 10);
    let mut visited = Grid::new(12, 12, |_pos| false);
    let cave = flood_caves(at(4, 4), &below, &visited);
    assert_eq!(cave.len(), 64);
    visited.set(at(5, 5), true);
    assert_eq!(flood_caves(at(5, 5), &below, &visited).len(), 0);
    assert_eq!(flood_caves(at(4, 4), &below, &visited).len(), 63);
    assert_eq!(flood_caves(at(0, 0), &below, &visited).len(), 0);
}

#[test]
fn a_chasm_opens_over_a_large_cave() {
    let below = hall(12, 2, 10);
    let mut level = hall(12, 1, 11);
    let mut rng = Xoshiro256StarStar::seed_from_u64(1);
    add_chasms(&mut level, &below, &mut rng);
    assert_eq!(count(&level, Terrain::Chasm), 64);
    for pos in level.positions() {
        let expected = if below[pos] == Terrain::Floor {
            Terrain::Chasm
        } else if level.is_inner(pos) {
            Terrain::Floor
        } else {
            Terrain::Wall
        };
        assert_eq!(level[pos], expected);
    }
}

#[test]
fn no_chasm_opens_over_a_small_cave() {
    // sixteen caves are fewer than the level is wide and high together
    let below = hall(12, 4, 8);
    let mut level = hall(12, 1, 11);
    let mut rng = Xoshiro256StarStar::seed_from_u64(1);
    add_chasms(&mut level, &below, &mut rng);
    assert_eq!(count(&level, Terrain::Chasm), 0);
    assert_eq!(count(&level, Terrain::Floor), 100);
}

#[test]
fn no_chasm_opens_near_the_stairs() {
    let below = hall(12, 2, 10);
    let mut rng = Xoshiro256StarStar::seed_from_u64(1);
    let mut with_entrance = hall(12, 1, 11);
    with_entrance.set(at(5, 5), Terrain::Entrance);
    add_chasms(&mut with_entrance, &below, &mut rng);
    assert_eq!(count(&with_entrance, Terrain::Chasm), 0);
    let mut with_exit = hall(12, 1, 11);
    with_exit.set(at(1, 2), Terrain::Exit);
    add_chasms(&mut with_exit, &below, &mut rng);
    assert_eq!(count(&with_exit, Terrain::Chasm), 0);
    let small = hall(12, 3, 9);
    let mut far_stairs = hall(12, 1, 11);
    far_stairs.set(at(10, 10), Terrain::Exit);
    far_stairs.set(at(1, 1), Terrain::Entrance);
    add_chasms(&mut far_stairs, &small, &mut rng);
    assert_eq!(count(&far_stairs, Terrain::Chasm), 36);
    assert_eq!(far_stairs[at(10, 10)], Terrain::Exit);
    assert_eq!(far_stairs[at(1, 1)], Terrain::Entrance);
}
