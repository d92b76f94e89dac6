use hexadventure::astar::{find_path, Chirality, JumpPoint, OpenNode};
use hexadventure::grid::dense::pos_to_index;
use hexadventure::grid::{Direction, Grid, Pos};
use rand::rngs::StdRng;
use rand::{Rng, SeedableRng};
use std::collections::{HashMap, VecDeque};

fn random_grid<R: Rng>(width: usize, height: usize, chance: f64, rng: &mut R) -> Grid<bool> {
    let cells: Vec<bool> = (0..width * height).map(|_| rng.gen_bool(chance)).collect();
    Grid::new(width, height, |pos| {
        let index = pos_to_index(pos);
        cells[index.row * width + index.col]
    })
}

/// The length of a shortest walk from `origin` to `goal`, found breadth first.
fn bfs_length<F: Fn(Pos) -> bool>(origin: Pos, goal: Pos, passable: F) -> Option<u32> {
    let mut lengths = HashMap::new();
    let mut queue = VecDeque::new();
    lengths.insert(origin, 0u32);
    queue.push_back(origin);
    while let Some(pos) = queue.pop_front() {
        if pos == goal {
            return Some(lengths[&pos]);
        }
        for neighbor in pos.neighbors() {
            if passable(neighbor) && !lengths.contains_key(&neighbor) {
                lengths.insert(neighbor, lengths[&pos] + 1);
                queue.push_back(neighbor);
            }
        }
    }
    None
}

fn assert_valid<F: Fn(Pos) -> bool>(path: &[Pos], origin: Pos, goal: Pos, passable: F) {
    assert_eq!(path[0], origin);
    assert_eq!(path[path.len() - 1], goal);
    for pair in path.windows(2) {
        assert_eq!(pair[0].distance(pair[1]), 1);
        assert!(passable(pair[1]));
    }
}

#[test]
fn path_across_an_open_grid() {
    let grid = Grid::new(5, 5, |_pos| true);
    let origin = Pos { x: 0, y: 0 };
    let goal = Pos { x: 3, y: 0 };
    let path = find_path(
        origin,
        |pos| pos == goal,
        |pos| grid.contains(pos),
        |pos| pos.distance(goal),
    );
    assert_eq!(
        path,
        Some(vec![
            Pos { x: 0, y: 0 },
            Pos { x: 1, y: 0 },
            Pos { x: 2, y: 0 },
            Pos { x: 3, y: 0 },
        ])
    );
}

#[test]
fn path_to_the_origin_is_the_origin() {
    let origin = Pos { x: 4, y: -1 };
    let path = find_path(origin, |pos| pos == origin, |_pos| false, |_pos| 0);
    assert_eq!(path, Some(vec![origin]));
}

#[test]
fn no_path_through_a_wall() {
    let origin = Pos { x: 0, y: 0 };
    let goal = Pos { x: 5, y: 0 };
    // a ring of walls around the origin
    let path = find_path(
        origin,
        |pos| pos == goal,
        |pos| origin.distance(pos) != 2 && origin.distance(pos) <= 8,
        |pos| pos.distance(goal),
    );
    assert_eq!(path, None);
}

#[test]
fn path_around_a_wall() {
    let origin = Pos { x: 0, y: 0 };
    let goal = Pos { x: 4, y: 0 };
    let passable =
        |pos: Pos| origin.distance(pos) <= 8 && !(pos.x == 2 && -3 <= pos.y && pos.y <= 3);
    let path = find_path(origin, |pos| pos == goal, passable, |pos| pos.distance(goal))
        .expect("the wall can be walked around");
    assert_valid(&path, origin, goal, passable);
    assert_eq!(
        Some(path.len() as u32 - 1),
        bfs_length(origin, goal, passable)
    );
}

#[test]
fn paths_are_valid_and_shortest_on_random_mazes() {
    let mut solved = 0;
    for seed in 0..200 {
        let mut rng = StdRng::seed_from_u64(seed);
        let grid = random_grid(10, 10, 0.7, &mut rng);
        let positions = grid.positions();
        let origin = positions[rng.gen_range(0..positions.len())];
        let goal = positions[rng.gen_range(0..positions.len())];
        let passable = |pos: Pos| grid.contains(pos) && grid[pos];
        if !passable(origin) || !passable(goal) {
            continue;
        }
        let path = find_path(origin, |pos| pos == goal, passable, |pos| pos.distance(goal));
        let shortest = bfs_length(origin, goal, passable);
        match path {
            Some(path) => {
                assert_valid(&path, origin, goal, passable);
                assert_eq!(Some(path.len() as u32 - 1), shortest);
                solved += 1;
            }
            None => assert_eq!(shortest, None),
        }
    }
    assert!(solved >= 40);
}

#[test]
fn jump_points_turn_to_their_side() {
    assert_eq!(Chirality::Clockwise.rotate(Direction::East, 1), Direction::Southeast);
    assert_eq!(Chirality::Counterclockwise.rotate(Direction::East, 1), Direction::Northeast);
    assert_eq!(Chirality::Clockwise.flip(), Chirality::Counterclockwise);
    assert_eq!(Chirality::Counterclockwise.flip(), Chirality::Clockwise);
    let pos = Pos { x: 1, y: 1 };
    let neighbor = JumpPoint::neighbor_of(pos, Direction::East, Chirality::Clockwise);
    assert_eq!(
        neighbor,
        JumpPoint { pos, direction: Direction::Northeast, chirality: Chirality::Clockwise }
    );
    assert_eq!(neighbor.rotated_dir(1), Direction::East);
    assert_eq!(neighbor.pos(2, 1), pos + Direction::Northeast * 2 + Direction::East);
    let other = JumpPoint { pos, direction: Direction::East, chirality: Chirality::Counterclockwise };
    assert_eq!(other.rotated_dir(1), Direction::Northeast);
    assert_eq!(other.pos(3, 0), pos + Direction::East * 3);
    assert_eq!(OpenNode::initial(pos, Direction::West).pos(), pos);
    assert_eq!(OpenNode::Goal(pos).pos(), pos);
}

#[test]
fn a_corner_forces_a_turn() {
    let pos = Pos { x: 0, y: 0 };
    // travelling east and turning clockwise: the turn leads northeast, the corner lies northwest
    let jp = JumpPoint::neighbor_of(pos, Direction::East, Chirality::Clockwise);
    let corner = pos + Direction::Northwest;
    let ahead = pos + Direction::Northeast;
    assert!(jp.is_forced(&|p: Pos| p != corner));
    assert!(!jp.is_forced(&|_p: Pos| true));
    assert!(!jp.is_forced(&|p: Pos| p != corner && p != ahead));
}

#[test]
fn a_scan_finds_the_goal_on_its_stem() {
    let origin = Pos { x: 0, y: 0 };
    let goal = Pos { x: 3, y: -3 };
    let jp = JumpPoint { pos: origin, direction: Direction::East, chirality: Chirality::Clockwise };
    let mut found = Vec::new();
    jp.for_each_neighbor(&mut found, &|pos: Pos| pos == goal, &|pos: Pos| {
        origin.distance(pos) <= 4
    });
    assert!(found.contains(&OpenNode::Goal(goal)));
    for node in found {
        assert!(origin.distance(node.pos()) >= 1);
    }
}
