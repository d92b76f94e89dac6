use hexadventure::fov::{calc_fov, round_tie_high, round_tie_low, slope, Slope};
use hexadventure::grid::{Grid, Pos};

#[test]
fn no_infinite_loop() {
    let g = Grid::new(10, 10, |_pos| false);
    let center = g.center();
    let revealed = calc_fov(center, |_pos| false);
    let mut seen = Grid::new(10, 10, |_pos| false);
    for &pos in revealed.positions() {
        if seen.contains(pos) {
            seen.set(pos, true);
        }
    }
    assert!(seen[center]);
}

#[test]
fn test_round_high() {
    assert_eq!(round_tie_high(Slope { numer: 15, denom: 1 }), 15);
    assert_eq!(round_tie_high(Slope { numer: 1549, denom: 100 }), 15);
    assert_eq!(round_tie_high(Slope { numer: 31, denom: 2 }), 16);
    assert_eq!(round_tie_high(Slope { numer: 1551, denom: 100 }), 16);
}

#[test]
fn test_round_low() {
    assert_eq!(round_tie_low(Slope { numer: 15, denom: 1 }), 15);
    assert_eq!(round_tie_low(Slope { numer: 1549, denom: 100 }), 15);
    assert_eq!(round_tie_low(Slope { numer: 31, denom: 2 }), 15);
    assert_eq!(round_tie_low(Slope { numer: 1551, denom: 100 }), 16);
}

#[test]
fn rounding_at_the_edges() {
    assert_eq!(round_tie_high(Slope { numer: 0, denom: 1 }), 0);
    assert_eq!(round_tie_high(Slope { numer: 1, denom: 2 }), 1);
    assert_eq!(round_tie_high(Slope { numer: 49, denom: 100 }), 0);
    assert_eq!(round_tie_low(Slope { numer: 1, denom: 2 }), 0);
    assert_eq!(round_tie_low(Slope { numer: 3, denom: 2 }), 1);
    assert_eq!(round_tie_low(Slope { numer: 6, denom: 4 }), 1);
    assert_eq!(round_tie_low(Slope { numer: 7, denom: 4 }), 2);
}

#[test]
fn slope_is_flush_with_the_left_side() {
    assert_eq!(slope(1, 1), Slope { numer: 1, denom: 2 });
    assert_eq!(slope(3, 5), Slope { numer: 5, denom: 10 });
}

#[test]
fn fov_of_an_open_grid_is_the_grid() {
    let grid = Grid::new(5, 5, |_pos| true);
    let revealed = calc_fov(Pos { x: 0, y: 0 }, |pos| grid.contains(pos));
    let inside: Vec<Pos> = revealed
        .positions()
        .iter()
        .copied()
        .filter(|&pos| grid.contains(pos))
        .collect();
    assert_eq!(inside.len(), 25);
    for pos in grid.positions() {
        assert!(revealed.contains(pos));
    }
}

#[test]
fn fov_in_the_dark_shows_the_center_and_its_neighbors() {
    let center = Pos { x: 3, y: -2 };
    let revealed = calc_fov(center, |_pos| false);
    assert_eq!(revealed.len(), 7);
    assert!(revealed.contains(center));
    for neighbor in center.neighbors() {
        assert!(revealed.contains(neighbor));
    }
    assert_eq!(revealed.positions()[0], center);
}

#[test]
fn fov_shows_the_center_whatever_it_is() {
    let center = Pos { x: 0, y: 0 };
    let solid = calc_fov(center, |pos| pos != center && center.distance(pos) <= 3);
    let open = calc_fov(center, |pos| center.distance(pos) <= 3);
    assert!(solid.contains(center));
    assert!(open.contains(center));
    assert_eq!(solid.len(), open.len());
}

#[test]
fn fov_reveals_each_position_once() {
    let center = Pos { x: 0, y: 0 };
    let revealed = calc_fov(center, |pos| center.distance(pos) <= 4);
    // everything within four steps, and the ring of walls around it
    assert_eq!(revealed.len(), 1 + 3 * 5 * 6);
    let positions = revealed.positions();
    for (i, a) in positions.iter().enumerate() {
        for b in positions.iter().skip(i + 1) {
            assert_ne!(a, b);
        }
    }
}

#[test]
fn fov_is_blocked_by_a_wall() {
    // a single pillar next to the center hides what lies straight behind it
    let center = Pos { x: 0, y: 0 };
    let pillar = Pos { x: 1, y: 0 };
    let revealed = calc_fov(center, |pos| pos != pillar && center.distance(pos) <= 6);
    assert!(revealed.contains(pillar));
    assert!(!revealed.contains(Pos { x: 2, y: 0 }));
    assert!(!revealed.contains(Pos { x: 5, y: 0 }));
    assert!(revealed.contains(Pos { x: -2, y: 0 }));
    assert!(revealed.contains(Pos { x: 0, y: 3 }));
}

#[test]
fn fov_twice_gives_the_same_positions() {
    let center = Pos { x: 2, y: 1 };
    let see = |pos: Pos| (pos.x * 7 + pos.y * 13).rem_euclid(5) != 0 && center.distance(pos) <= 9;
    let first = calc_fov(center, see);
    let second = calc_fov(center, see);
    assert_eq!(first.positions(), second.positions());
}

#[test]
fn sight_passes_through_transparent_positions_only() {
    let center = Pos { x: 1, y: -2 };
    for salt in 0..40 {
        let see = |pos: Pos| {
            center.distance(pos) <= 11
                && (pos.x * 31 + pos.y * 17 + pos.x * pos.y * salt).rem_euclid(7) >= 2
        };
        let revealed = calc_fov(center, see);
        for &pos in revealed.positions() {
            let away = center.distance(pos);
            if away >= 2 {
                assert!(pos.neighbors().into_iter().any(|near| {
                    revealed.contains(near) && see(near) && center.distance(near) + 1 == away
                }));
            }
        }
    }
}
