use hexadventure::grid::dense::{index_to_pos, pos_to_index};
use hexadventure::grid::standard;
use hexadventure::grid::{decompose, Direction, Displacement, Grid, Index2d, Pos, DIRECTIONS};

#[test]
fn test_rotate() {
    assert_eq!(Direction::Northeast, Direction::Northeast.rotate(6));
    assert_eq!(Direction::Northwest, Direction::Northeast.rotate(-1));
    assert_eq!(Direction::West, Direction::Northwest.rotate(3).rotate(2));
    assert_eq!(-Direction::West, Direction::East);
}

#[test]
fn grid_test_rotate() {
    assert_eq!(Direction::Northeast, Direction::Northeast.rotate(6));
    assert_eq!(Direction::Northwest, Direction::Northeast.rotate(-1));
    assert_eq!(Direction::West, Direction::Northwest.rotate(3).rotate(2));
    assert_eq!(-Direction::West, Direction::East);
}

#[test]
fn mod_test_rotate() {
    assert_eq!(Direction::Northeast, Direction::Northeast.rotate(6));
    assert_eq!(Direction::Northwest, Direction::Northeast.rotate(-1));
    assert_eq!(Direction::West, Direction::Northwest.rotate(3).rotate(2));
    assert_eq!(-Direction::West, Direction::East);
}

#[test]
fn test_pos_displacement() {
    let a = Displacement { x: 1, y: 2 };
    let b = Displacement { x: 3, y: -4 };
    let c = Displacement { x: 4, y: -2 };
    let x = Pos { x: 3, y: -4 };
    let y = Pos { x: 4, y: -2 };
    assert_eq!(a + b, c);
    assert_eq!(c - b, a);
    assert_eq!(a + a, a * 2);
    assert_eq!(y - x, a);
    assert_eq!(x + a, y);
    assert_eq!(b, Direction::Southeast * b.x + Direction::Southwest * b.y);
}

#[test]
fn grid_test_pos_displacement() {
    let a = Displacement { x: 1, y: 2 };
    let b = Displacement { x: 3, y: -4 };
    let c = Displacement { x: 4, y: -2 };
    let x = Pos { x: 3, y: -4 };
    let y = Pos { x: 4, y: -2 };
    assert_eq!(a + b, c);
    assert_eq!(c - b, a);
    assert_eq!(a + a, a * 2);
    assert_eq!(y - x, a);
    assert_eq!(x + a, y);
    assert_eq!(b, Direction::Southeast * b.x + Direction::Southwest * b.y);
}

#[test]
fn mod_test_pos_displacement() {
    let a = Displacement { x: 1, y: 2 };
    let b = Displacement { x: 3, y: -4 };
    let c = Displacement { x: 4, y: -2 };
    let x = Pos { x: 3, y: -4 };
    let y = Pos { x: 4, y: -2 };
    assert_eq!(a + b, c);
    assert_eq!(c - b, a);
    assert_eq!(a + a, a * 2);
    assert_eq!(y - x, a);
    assert_eq!(x + a, y);
    assert_eq!(b, Direction::Southeast * b.x + Direction::Southwest * b.y);
}

#[test]
fn test_coordinate_conversion() {
    for row in 0..10 {
        for col in 0..10 {
            let i = Index2d { row, col };
            assert_eq!(i, pos_to_index(index_to_pos(i)));
        }
    }
}

#[test]
fn grid_test_coordinate_conversion() {
    for row in 0..10 {
        for col in 0..10 {
            let i = Index2d { row, col };
            assert_eq!(i, pos_to_index(index_to_pos(i)));
        }
    }
}

#[test]
fn mod_test_coordinate_conversion() {
    for row in 0..10 {
        for col in 0..10 {
            let i = Index2d { row, col };
            assert_eq!(i, pos_to_index(index_to_pos(i)));
        }
    }
}

#[test]
fn coordinate_conversion() {
    let g = Grid::new(10, 10, |_pos| 0usize);
    for i in 0..100 {
        assert_eq!(i, g.pos_to_linear(g.linear_to_pos(i)));
    }
}

#[test]
fn test_index_order() {
    let g = Grid::new(10, 10, |pos| pos_to_index(pos));
    for pos in g.positions() {
        let index = pos_to_index(pos);
        assert_eq!(index, g[pos]);
    }
}

#[test]
fn grid_test_index_order() {
    let g = Grid::new(10, 10, |pos| pos_to_index(pos));
    for pos in g.positions() {
        let index = pos_to_index(pos);
        assert_eq!(index, g[pos]);
    }
}

#[test]
fn mod_test_index_order() {
    let g = Grid::new(standard::WIDTH, standard::HEIGHT, |pos| pos_to_index(pos));
    for pos in standard::positions() {
        let index = pos_to_index(pos);
        assert_eq!(index, g[pos]);
    }
}

fn on_outer_edge<T>(pos: Pos, grid: &Grid<T>) -> bool {
    grid.contains(pos) && pos.neighbors().iter().any(|&pos| !grid.contains(pos))
}

#[test]
fn test_inner_positions() {
    let grid = Grid::new(40, 40, |_pos| false);
    let positions = grid.inner_positions();
    assert!(positions.iter().all(|&pos| !on_outer_edge(pos, &grid)));
}

#[test]
fn grid_test_inner_positions() {
    let grid = Grid::new(40, 40, |_pos| false);
    let positions = grid.inner_positions();
    assert_eq!(positions.len(), 38 * 38);
    assert!(positions.iter().all(|&pos| !on_outer_edge(pos, &grid)));
}

fn on_standard_outer_edge(pos: Pos) -> bool {
    standard::contains(pos) && pos.neighbors().iter().any(|&pos| !standard::contains(pos))
}

#[test]
fn mod_test_inner_positions() {
    let positions = standard::inner_positions();
    assert_eq!(positions.len(), 32 * 24);
    assert!(positions.iter().all(|&pos| !on_standard_outer_edge(pos)));
}

#[test]
fn rotate_is_cyclic_and_additive() {
    for &d in DIRECTIONS.iter() {
        assert_eq!(d.rotate(6), d);
        assert_eq!(d.rotate(0), d);
        for a in -13..14 {
            for b in -13..14 {
                assert_eq!(d.rotate(a).rotate(b), d.rotate(a + b));
            }
        }
    }
    assert_eq!(Direction::East.rotate(i32::MAX), Direction::East.rotate(1));
    assert_eq!(Direction::East.rotate(i32::MIN), Direction::East.rotate(-2));
}

#[test]
fn rotate_steps_clockwise() {
    assert_eq!(Direction::Northeast.rotate(1), Direction::East);
    assert_eq!(Direction::East.rotate(1), Direction::Southeast);
    assert_eq!(Direction::Southeast.rotate(1), Direction::Southwest);
    assert_eq!(Direction::Southwest.rotate(1), Direction::West);
    assert_eq!(Direction::West.rotate(1), Direction::Northwest);
    assert_eq!(Direction::Northwest.rotate(1), Direction::Northeast);
}

#[test]
fn distance_is_a_metric_on_samples() {
    let samples = [
        Pos { x: 0, y: 0 },
        Pos { x: 3, y: -4 },
        Pos { x: -7, y: 2 },
        Pos { x: 5, y: 5 },
        Pos { x: -1, y: -1 },
        Pos { x: 100, y: -250 },
    ];
    for &a in samples.iter() {
        assert_eq!(a.distance(a), 0);
        for &b in samples.iter() {
            assert_eq!(a.distance(b), b.distance(a));
            for &c in samples.iter() {
                assert!(a.distance(c) <= a.distance(b) + b.distance(c));
            }
        }
    }
}

#[test]
fn distance_follows_the_formula() {
    assert_eq!(Displacement { x: 3, y: -4 }.distance(), 4);
    assert_eq!(Displacement { x: 3, y: 4 }.distance(), 7);
    assert_eq!(Displacement { x: -3, y: -4 }.distance(), 7);
    assert_eq!(Pos { x: 0, y: 0 }.distance(Pos { x: 3, y: 0 }), 3);
    assert_eq!(
        Pos { x: i32::MIN, y: 0 }.distance(Pos { x: i32::MAX, y: 0 }),
        u32::MAX
    );
}

#[test]
fn neighbors_follow_the_directions() {
    let pos = Pos { x: 2, y: -3 };
    let neighbors = pos.neighbors();
    assert_eq!(neighbors.len(), 6);
    for (i, &n) in neighbors.iter().enumerate() {
        assert_eq!(n, pos + DIRECTIONS[i]);
        assert_eq!(pos.distance(n), 1);
    }
    assert_eq!(neighbors[0], Pos { x: 2, y: -4 });
    assert_eq!(neighbors[1], Pos { x: 3, y: -4 });
}

#[test]
fn decompose_recovers_coefficients() {
    let d = Direction::East * 3 + Direction::Southeast * 2;
    assert_eq!(decompose(d, Direction::East, Direction::Southeast), (3, 2));
    assert_eq!(decompose(d, Direction::Southeast, Direction::East), (2, 3));
    for &dir in DIRECTIONS.iter() {
        for turn in [-1, 1] {
            let other = dir.rotate(turn);
            for a in -3..4 {
                for b in -3..4 {
                    let d = dir * a + other * b;
                    assert_eq!(decompose(d, dir, other), (a, b));
                }
            }
        }
    }
}

#[test]
fn decompose_of_dependent_directions_is_zero() {
    let d = Displacement { x: 5, y: -2 };
    assert_eq!(decompose(d, Direction::East, Direction::East), (0, 0));
    assert_eq!(decompose(d, Direction::East, Direction::West), (0, 0));
}

#[test]
fn grid_holds_what_init_gives() {
    let grid = Grid::new(7, 5, |pos| pos.x * 100 + pos.y);
    assert_eq!(grid.width(), 7);
    assert_eq!(grid.height(), 5);
    assert_eq!(grid.iter().len(), 35);
    for pos in grid.positions() {
        assert!(grid.contains(pos));
        assert_eq!(grid[pos], pos.x * 100 + pos.y);
        assert_eq!(*grid.get(pos), pos.x * 100 + pos.y);
    }
    assert!(!grid.contains(Pos { x: -1, y: 0 }));
    assert!(!grid.contains(Pos { x: 0, y: -1 }));
    assert!(!grid.contains(Pos { x: 7, y: -7 }));
    assert!(grid.contains(Pos { x: 6, y: -6 }));
    assert_eq!(grid.center(), index_to_pos(Index2d { row: 2, col: 3 }));
}

#[test]
fn grid_set_changes_one_cell() {
    let mut grid = Grid::new(4, 4, |_pos| 0u8);
    let target = index_to_pos(Index2d { row: 2, col: 1 });
    grid.set(target, 9);
    for pos in grid.positions() {
        assert_eq!(grid[pos], if pos == target { 9 } else { 0 });
    }
    let location = grid.pos_to_location(target);
    assert_eq!((location.x, location.y), (2, 2));
    let odd = grid.pos_to_location(index_to_pos(Index2d { row: 1, col: 3 }));
    assert_eq!((odd.x, odd.y), (7, 1));
}

#[test]
fn standard_grid_has_its_size() {
    assert_eq!(standard::positions().len(), 34 * 26);
    assert_eq!(standard::corner(), Pos { x: 0, y: 0 });
    assert_eq!(standard::center(), index_to_pos(Index2d { row: 13, col: 17 }));
    assert!(standard::contains(standard::center()));
    assert!(!standard::contains(Pos { x: -1, y: 0 }));
    let location = standard::pos_to_location(index_to_pos(Index2d { row: 3, col: 4 }));
    assert_eq!((location.x, location.y), (9, 3));
}
