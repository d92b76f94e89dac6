use hexadventure::grid::{Direction, Pos};
use hexadventure::level::tile::{Terrain, TileView};
use hexadventure::line::Line;
use hexadventure::minheap::MinHeap;
use hexadventure::player::Player;
use hexadventure::posmap::PosMap;
use hexadventure::posset::PosSet;
use hexadventure::sprite::{sprite_from_mob, sprite_from_terrain, Sprite};
use hexadventure::util::self_zip;
use hexadventure::world::ai::AIState;
use hexadventure::world::mob::{mob_guard, mob_health, Mob, MobId, Mobs, Npcs, Species};

#[test]
fn test_self_zip() {
    let array = [1, 2, 3];
    let result = vec![(1, 2), (2, 3), (3, 1)];
    assert_eq!(self_zip(&array), result);
}

#[test]
fn self_zip_of_nothing_and_of_one() {
    let nothing: [u8; 0] = [];
    assert_eq!(self_zip(&nothing), vec![]);
    assert_eq!(self_zip(&[7]), vec![(7, 7)]);
}

#[test]
fn minheap_hands_out_least_first() {
    let mut heap: MinHeap<&str> = MinHeap::new();
    assert_eq!(heap.pop(), None);
    heap.push("c", 3);
    heap.push("a", 1);
    heap.push("b", 2);
    heap.push("a again", 1);
    assert_eq!(heap.len(), 4);
    assert_eq!(heap.pop(), Some("a"));
    assert_eq!(heap.pop(), Some("a again"));
    assert_eq!(heap.pop(), Some("b"));
    assert_eq!(heap.pop(), Some("c"));
    assert_eq!(heap.pop(), None);
}

#[test]
fn posset_keeps_insertion_order() {
    let mut set = PosSet::new();
    assert_eq!(set.len(), 0);
    assert!(set.insert(Pos { x: 1, y: 2 }));
    assert!(set.insert(Pos { x: -1, y: 2 }));
    assert!(!set.insert(Pos { x: 1, y: 2 }));
    assert!(set.insert(Pos { x: 2, y: 1 }));
    assert_eq!(set.len(), 3);
    assert!(set.contains(Pos { x: -1, y: 2 }));
    assert!(!set.contains(Pos { x: 2, y: -1 }));
    assert_eq!(
        set.positions(),
        &vec![Pos { x: 1, y: 2 }, Pos { x: -1, y: 2 }, Pos { x: 2, y: 1 }]
    );
}

#[test]
fn posset_tells_extreme_positions_apart() {
    let mut set = PosSet::new();
    assert!(set.insert(Pos { x: i32::MIN, y: i32::MAX }));
    assert!(set.insert(Pos { x: i32::MAX, y: i32::MIN }));
    assert!(set.insert(Pos { x: 0, y: 1 }));
    assert!(set.insert(Pos { x: 1, y: 0 }));
    assert!(!set.contains(Pos { x: i32::MIN, y: i32::MIN }));
    assert_eq!(set.len(), 4);
}

#[test]
fn posmap_files_under_positions() {
    let mut map: PosMap<u32> = PosMap::new();
    assert_eq!(map.get(Pos { x: 0, y: 0 }), None);
    map.insert(Pos { x: 0, y: 0 }, 5);
    map.insert(Pos { x: 0, y: 1 }, 6);
    map.insert(Pos { x: 0, y: 0 }, 7);
    assert_eq!(map.get(Pos { x: 0, y: 0 }), Some(7));
    assert_eq!(map.get(Pos { x: 0, y: 1 }), Some(6));
    assert_eq!(map.get(Pos { x: 1, y: 0 }), None);
}

#[test]
fn terrain_rules() {
    let all = [
        Terrain::Wall,
        Terrain::Floor,
        Terrain::ShortGrass,
        Terrain::TallGrass,
        Terrain::Brownberry,
        Terrain::Exit,
        Terrain::Entrance,
        Terrain::Water,
        Terrain::Chasm,
    ];
    let passable = [false, true, true, true, true, false, false, false, true];
    let transparent = [false, true, true, false, true, true, true, true, true];
    let flyable = [false, true, true, true, true, false, false, true, true];
    let bat = Mob::new(Pos { x: 0, y: 0 }, Species::Bat, AIState::Wandering);
    let rat = Mob::new(Pos { x: 0, y: 0 }, Species::Rat, AIState::Hunting);
    for (i, &terrain) in all.iter().enumerate() {
        assert_eq!(terrain.passable(), passable[i]);
        assert_eq!(terrain.transparent(), transparent[i]);
        assert_eq!(terrain.flyable(), flyable[i]);
        assert_eq!(terrain.can_move(&bat), flyable[i]);
        assert_eq!(terrain.can_move(&rat), passable[i]);
    }
}

#[test]
fn tile_view_visibility() {
    assert!(TileView::Visible.is_visible());
    assert!(!TileView::Remembered(Terrain::Floor).is_visible());
    assert!(!TileView::Unseen.is_visible());
}

#[test]
fn mobs_begin_as_their_species_does() {
    assert_eq!(mob_health(Species::Hero), 100);
    assert_eq!(mob_health(Species::Bat), 40);
    assert_eq!(mob_health(Species::Rat), 40);
    assert_eq!(mob_guard(Species::Hero), 100);
    assert_eq!(mob_guard(Species::Bat), 40);
    assert_eq!(mob_guard(Species::Rat), 40);
    let mob = Mob::new(Pos { x: 4, y: -2 }, Species::Bat, AIState::Asleep(3));
    assert_eq!(mob.pos, Pos { x: 4, y: -2 });
    assert_eq!(mob.facing, Direction::East);
    assert_eq!(mob.guard, 40);
    assert_eq!(mob.guard_recovery, 0);
    assert_eq!(mob.health, 40);
    assert!(mob.alive);
    assert!(mob.path.is_none());
    assert!(mob.can_fly());
    assert!(!Mob::new(Pos { x: 0, y: 0 }, Species::Hero, AIState::Player).can_fly());
}

#[test]
fn mob_ids_name_places() {
    assert!(MobId::player().is_player());
    assert_eq!(MobId::player().index(), None);
    let mut npcs = Npcs::new();
    let first = npcs.insert(Mob::new(Pos { x: 1, y: 0 }, Species::Rat, AIState::Wandering));
    let second = npcs.insert(Mob::new(Pos { x: 2, y: 0 }, Species::Bat, AIState::Wandering));
    assert!(!first.is_player());
    assert_eq!(first.index(), Some(0));
    assert_eq!(second.index(), Some(1));
    assert_eq!(npcs.get(second).pos, Pos { x: 2, y: 0 });
    let player = Mob::new(Pos { x: 0, y: 0 }, Species::Hero, AIState::Player);
    let mut mobs = Mobs::new(player, Vec::new());
    let id = mobs.insert(Mob::new(Pos { x: 3, y: 0 }, Species::Rat, AIState::Hunting));
    assert_eq!(id.index(), Some(0));
    assert_eq!(mobs.get(id).pos, Pos { x: 3, y: 0 });
    assert_eq!(mobs.get(MobId::player()).pos, Pos { x: 0, y: 0 });
}

#[test]
fn player_faces_east() {
    let player = Player::new(Pos { x: 2, y: 3 });
    assert_eq!(player.pos, Pos { x: 2, y: 3 });
    assert_eq!(player.facing, Direction::East);
}

#[test]
fn line_counts_its_steps() {
    let line: Line = Pos { x: 0, y: 0 }.to(Pos { x: 3, y: -5 });
    assert_eq!(line.start, Pos { x: 0, y: 0 });
    assert_eq!(line.end, Pos { x: 3, y: -5 });
    let steps = line.steps();
    assert_eq!(steps.length, 5);
    assert_eq!(steps.progress, 0);
    assert!(!steps.is_done());
    assert_eq!(steps.size_hint(), (5, Some(5)));
}

#[test]
fn sprites_stand_for_terrain_and_creatures() {
    assert_eq!(sprite_from_terrain(Terrain::Wall), Sprite::Wall);
    assert_eq!(sprite_from_terrain(Terrain::TallGrass), Sprite::TallGrass);
    assert_eq!(sprite_from_terrain(Terrain::Exit), Sprite::Exit);
    assert_eq!(sprite_from_terrain(Terrain::Entrance), Sprite::Entrance);
    assert_eq!(sprite_from_terrain(Terrain::Chasm), Sprite::Chasm);
    let hero = Mob::new(Pos { x: 0, y: 0 }, Species::Hero, AIState::Player);
    let rat = Mob::new(Pos { x: 0, y: 0 }, Species::Rat, AIState::Hunting);
    assert_eq!(sprite_from_mob(&hero), Sprite::Player);
    assert_eq!(sprite_from_mob(&rat), Sprite::Archer);
}
