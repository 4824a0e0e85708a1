use rs98::act::Action;
use rs98::auto::{Auto, AutoNdx};
use rs98::dir::{Dir, IVec2};
use rs98::force::{ForceNdx, Forces};
use rs98::kind::{Kind, KindField};
use rs98::pattern::{Pattern, Patterns};
use rs98::program::Arg;
use rs98::route::{route, route_valid};
use rs98::world::{AutoField, World};

#[test]
fn scenario_place_then_produce() {
    let mut world = World::new_test();
    let space = AutoNdx(0);
    world.set_all_tiles(space, world.kinds.get("grass"));
    let rock = world.kinds.get("rock");
    let machine = world.kinds.get("machine");
    let thing = world.kinds.get("thing");
    let loc = IVec2::new(10, 10);
    let machine_ndx = world.create_auto(Auto { kind: machine, loc, parent: space, ..Auto::default() });
    let robo = world.create_auto(Auto {
        kind: world.kinds.get("robo"),
        loc,
        parent: space,
        items: vec![rock],
        ..Auto::default()
    });
    assert_eq!(world.kinds.get_data(world.kinds.get("robo")).traction, 2);
    assert_eq!(world.get_items(machine_ndx), vec![Kind(0), Kind(0)]);

    world.set_auto_action(robo, Action::Place(machine));
    world.update(1000);
    world.set_auto_action(machine_ndx, Action::Produce);
    world.update(1000);

    assert_eq!(world.stall_message(robo), None);
    assert_eq!(world.stall_message(machine_ndx), None);
    assert_eq!(world.get_item(machine_ndx, IVec2::new(0, 0)), thing);
    assert_eq!(world.get_item(robo, IVec2::new(0, 0)), world.kinds.nothing());
}

#[test]
fn equal_traction_blocks_step() {
    let mut world = World::new_test();
    let space = AutoNdx(0);
    let wall = world.kinds.get("wall");
    world.set_all_tiles(space, wall);
    let robo = world.create_auto(Auto {
        kind: world.kinds.get("robo"),
        loc: IVec2::new(5, 5),
        parent: space,
        ..Auto::default()
    });
    // wall traction 5 against robo traction 5: blocked
    world.kinds.set_by_val("robo", &vec![KindField::Traction(5)]);
    world.set_auto_action(robo, Action::Step(Dir::East));
    world.update(1000);
    assert_eq!(world.stall_message(robo), Some("Could not move to (6,5): robo cannot cross wall.".to_string()));
    assert_eq!(world.get_auto(robo).loc, IVec2::new(5, 5));
    // one more: passes
    world.kinds.set_by_val("robo", &vec![KindField::Traction(6)]);
    world.update(1000);
    assert_eq!(world.stall_message(robo), None);
    assert_eq!(world.get_auto(robo).loc, IVec2::new(6, 5));
}

#[test]
fn step_off_grid_reports_negative_cell() {
    let mut world = World::new_test();
    let space = AutoNdx(0);
    world.set_all_tiles(space, world.kinds.get("grass"));
    let robo = world.create_auto(Auto {
        kind: world.kinds.get("robo"),
        loc: IVec2::new(0, 0),
        parent: space,
        ..Auto::default()
    });
    world.set_auto_action(robo, Action::Step(Dir::South));
    world.update(1000);
    assert_eq!(world.stall_message(robo), Some("Could not move to (0,-1): robo cannot cross nothing.".to_string()));
}

#[test]
fn pick_place_round_trip_restores() {
    let mut world = World::new_test();
    let space = AutoNdx(0);
    world.set_all_tiles(space, world.kinds.get("grass"));
    let rock = world.kinds.get("rock");
    let loc = IVec2::new(7, 3);
    world.set_item(space, loc, rock);
    let robo = world.create_auto(Auto { kind: world.kinds.get("robo"), loc, parent: space, ..Auto::default() });
    let ground_before = world.get_items(space);
    let robo_before = world.get_items(robo);
    world.set_auto_action(robo, Action::Pick(rock, Kind(0)));
    world.update(1000);
    assert_eq!(world.stall_message(robo), None);
    assert_eq!(world.get_item(robo, IVec2::new(0, 0)), rock);
    world.set_auto_action(robo, Action::Place(Kind(0)));
    world.update(1000);
    assert_eq!(world.stall_message(robo), None);
    assert_eq!(world.get_items(space), ground_before);
    assert_eq!(world.get_items(robo), robo_before);
}

#[test]
fn wildcard_matching() {
    for a in 0..6 {
        assert!(Kind(a).matches(Kind(a)));
        assert!(Kind(1).matches(Kind(a)));
        assert!(Kind(a).matches(Kind(1)));
        for b in 0..6 {
            if a != b && a != 1 && b != 1 {
                assert!(!Kind(a).matches(Kind(b)));
            }
        }
    }
}

#[test]
fn patterns_first_match_wins() {
    let machine = Kind(7);
    let rock = Kind(5);
    let mut patterns = Patterns::new_blank();
    patterns.add(Pattern { for_kind: machine, input: vec![rock, Kind(1)], output: vec![Kind(9), Kind(0)] });
    patterns.add(Pattern { for_kind: machine, input: vec![rock, Kind(0)], output: vec![Kind(11), Kind(0)] });
    let holding = vec![rock, Kind(0)];
    let first = patterns.get(machine, &holding).unwrap();
    assert_eq!(first.output, vec![Kind(9), Kind(0)]);
    let again = patterns.get(machine, &holding).unwrap();
    assert_eq!(again.output, first.output);
    assert!(patterns.get(machine, &vec![rock]).is_none());
    assert!(patterns.get(Kind(8), &holding).is_none());
    assert!(patterns.get(machine, &vec![Kind(9), Kind(0)]).is_none());
}

#[test]
fn produce_without_pattern_names_holding() {
    let mut world = World::new_test();
    let space = AutoNdx(0);
    let machine = world.create_auto(Auto {
        kind: world.kinds.get("machine"),
        loc: IVec2::new(1, 1),
        parent: space,
        items: vec![world.kinds.get("widget")],
        ..Auto::default()
    });
    world.set_auto_action(machine, Action::Produce);
    world.update(1000);
    assert_eq!(
        world.stall_message(machine),
        Some("Could not find pattern for machine holding widget nothing.".to_string())
    );
}

#[test]
fn router_prefers_east_and_stops_at_goal() {
    let mut world = World::new_test();
    let space = AutoNdx(0);
    world.set_all_tiles(space, world.kinds.get("grass"));
    let robo = world.create_auto(Auto {
        kind: world.kinds.get("robo"),
        loc: IVec2::new(10, 10),
        parent: space,
        ..Auto::default()
    });
    assert_eq!(route(&world, robo, IVec2::new(12, 12)), Some(Dir::East));
    assert_eq!(route(&world, robo, IVec2::new(10, 12)), Some(Dir::North));
    assert_eq!(route(&world, robo, IVec2::new(8, 8)), Some(Dir::South));
    assert_eq!(route(&world, robo, IVec2::new(8, 10)), Some(Dir::West));
    assert_eq!(route(&world, robo, IVec2::new(10, 10)), None);
    assert_eq!(route(&world, robo, IVec2::new(100, 10)), None);
    // a wall in the way: go around
    world.set_tile(space, IVec2::new(11, 10), world.kinds.get("wall"));
    assert_eq!(route(&world, robo, IVec2::new(12, 10)), Some(Dir::North));
}

#[test]
fn goto_unreachable_stalls() {
    let mut world = World::new_test();
    let space = AutoNdx(0);
    world.set_all_tiles(space, world.kinds.get("grass"));
    let wall = world.kinds.get("wall");
    for (x, y) in [(19, 20), (21, 20), (20, 19), (20, 21)] {
        world.set_tile(space, IVec2::new(x, y), wall);
    }
    let robo = world.create_auto(Auto {
        kind: world.kinds.get("robo"),
        loc: IVec2::new(10, 10),
        parent: space,
        ..Auto::default()
    });
    world.set_auto_action(robo, Action::Goto(IVec2::new(20, 20)));
    world.update(1000);
    assert_eq!(world.stall_message(robo), Some("Could not find route to (20,20).".to_string()));
    assert_eq!(world.get_auto(robo).loc, IVec2::new(10, 10));
}

#[test]
fn clock_accumulates_partial_ticks() {
    let mut world = World::new_test();
    let space = AutoNdx(0);
    world.set_all_tiles(space, world.kinds.get("grass"));
    let robo = world.create_auto(Auto {
        kind: world.kinds.get("robo"),
        loc: IVec2::new(10, 10),
        parent: space,
        ..Auto::default()
    });
    world.set_auto_action(robo, Action::Goto(IVec2::new(13, 10)));
    world.update(1);
    assert_eq!(world.get_auto(robo).loc, IVec2::new(11, 10));
    world.update(600);
    assert_eq!(world.get_auto(robo).loc, IVec2::new(11, 10));
    world.update(400);
    assert_eq!(world.get_auto(robo).loc, IVec2::new(12, 10));
}

#[test]
fn dead_autos_do_not_act() {
    let mut world = World::new_test();
    let space = AutoNdx(0);
    world.set_all_tiles(space, world.kinds.get("grass"));
    let a = world.create_auto(Auto { kind: world.kinds.get("robo"), loc: IVec2::new(1, 1), parent: space, ..Auto::default() });
    let b = world.create_auto(Auto { kind: world.kinds.get("robo"), loc: IVec2::new(1, 2), parent: space, ..Auto::default() });
    world.set_auto_action(a, Action::Fire(b));
    world.set_auto_action(b, Action::Step(Dir::East));
    world.update(1000);
    assert_eq!(world.get_auto(b).loc, IVec2::new(1, 2));
}

#[test]
fn directions() {
    assert_eq!(Dir::from_str("n"), Dir::North);
    assert_eq!(Dir::from_str("e"), Dir::East);
    assert_eq!(Dir::from_str("s"), Dir::South);
    assert_eq!(Dir::from_str("w"), Dir::West);
    assert_eq!(Dir::from_str("x"), Dir::Stay);
    assert_eq!(Dir::from_str("nn"), Dir::Stay);
    assert_eq!(Dir::all(), vec![Dir::North, Dir::East, Dir::South, Dir::West]);
    for d in Dir::all() {
        assert_eq!(d.invert().invert(), d);
        assert_eq!(d.invert().to_ivec2().x, -d.to_ivec2().x);
    }
    assert_eq!(Dir::East.invert(), Dir::West);
    assert_eq!(Dir::North.step_from(IVec2::new(0, i32::MAX)), None);
}

#[test]
fn registries_fall_back() {
    let forces = Forces::new_blank();
    assert_eq!(forces.get("nature"), ForceNdx(0));
    assert_eq!(forces.get("pirates"), ForceNdx(1));
    let world = World::new_test();
    assert_eq!(world.kinds.get("unobtainium"), Kind(1));
    assert_eq!(world.kinds.get("ground"), Kind(0));
}

#[test]
fn records_read_in_order() {
    let world = World::new_test();
    let sym = |t: &str| Arg::Sym(t.to_string());
    let pattern = Pattern::from_val(
        &vec![
            Arg::List(vec![sym("for"), sym("machine")]),
            Arg::List(vec![sym("in"), Arg::List(vec![sym("rock"), sym("nothing")])]),
            Arg::List(vec![sym("out"), Arg::List(vec![sym("thing")])]),
            Arg::List(vec![sym("colour"), sym("red")]),
        ],
        &world,
    );
    assert_eq!(pattern.for_kind, world.kinds.get("machine"));
    assert_eq!(pattern.input, vec![world.kinds.get("rock"), Kind(0)]);
    assert_eq!(pattern.output, vec![world.kinds.get("thing")]);

    let auto = Auto::from_val(
        &vec![
            AutoField::Kind("machine".to_string()),
            AutoField::Loc(3, 4),
            AutoField::Tile("grass".to_string()),
            AutoField::Force("nobody".to_string()),
        ],
        &world,
    );
    assert_eq!(auto.kind, world.kinds.get("machine"));
    assert_eq!(auto.loc, IVec2::new(3, 4));
    assert_eq!(auto.force, ForceNdx(1));
    assert_eq!(auto.tiles, vec![world.kinds.get("grass"), world.kinds.get("grass")]);
}

#[test]
fn grid_indexing() {
    let world = World::new_test();
    let root = world.get_auto(AutoNdx(0));
    assert_eq!(root.get_ndx(IVec2::new(3, 2)), 203);
    assert_eq!(root.ndx_to_loc(203), IVec2::new(3, 2));
    assert_eq!(root.get_item(IVec2::new(-1, 0)), Kind(0));
    assert_eq!(root.items.len(), 10000);
    assert_eq!(root.tiles.len(), 10000);
}

#[test]
fn route_checker_follows_path() {
    let mut world = World::new_test();
    let space = AutoNdx(0);
    world.set_all_tiles(space, world.kinds.get("grass"));
    world.set_tile(space, IVec2::new(11, 10), world.kinds.get("wall"));
    let robo = world.create_auto(Auto {
        kind: world.kinds.get("robo"),
        loc: IVec2::new(10, 10),
        parent: space,
        ..Auto::default()
    });
    assert_eq!(world.get_auto(robo).force, ForceNdx(1));
    let around = vec![Dir::North, Dir::East, Dir::East, Dir::South];
    assert!(route_valid(&world, robo, &around, IVec2::new(12, 10)));
    assert!(!route_valid(&world, robo, &around, IVec2::new(12, 11)));
    let through = vec![Dir::East, Dir::East];
    assert!(!route_valid(&world, robo, &through, IVec2::new(12, 10)));
    assert!(route_valid(&world, robo, &vec![], IVec2::new(10, 10)));
}

#[test]
fn off_grid_cells_read_nothing() {
    let mut world = World::new_test();
    let space = AutoNdx(0);
    let rock = world.kinds.get("rock");
    let wall = world.kinds.get("wall");
    world.set_item(space, IVec2::new(99, 0), rock);
    world.set_tile(space, IVec2::new(99, 0), wall);
    // (-1, 1) has flat index 99 but lies outside the 100-wide grid
    assert_eq!(world.get_item(space, IVec2::new(-1, 1)), Kind(0));
    assert!(!world.has_item(space, IVec2::new(-1, 1)));
    assert_eq!(world.get_tile(space, IVec2::new(-1, 1)), Kind(0));
    world.set_item(space, IVec2::new(-1, 1), Kind(3));
    world.set_tile(space, IVec2::new(-1, 1), Kind(3));
    assert_eq!(world.get_item(space, IVec2::new(99, 0)), rock);
    assert_eq!(world.get_tile(space, IVec2::new(99, 0)), wall);
}

#[test]
fn router_crosses_off_grid_when_traction_allows() {
    let mut world = World::new_test();
    let space = AutoNdx(0);
    let earth = world.create_auto(Auto {
        kind: world.kinds.get("earth"),
        loc: IVec2::new(0, 0),
        parent: space,
        dim: IVec2::new(5, 5),
        ..Auto::default()
    });
    let grass = world.kinds.get("grass");
    world.kinds.set_by_val("lava", &vec![KindField::Traction(20)]);
    let wall = world.kinds.get("lava");
    world.set_all_tiles(earth, grass);
    // lava across the whole grid at x = 2
    for y in 0..5 {
        world.set_tile(earth, IVec2::new(2, y), wall);
    }
    // a vehicle that can cross open ground (traction 10) but not lava
    world.kinds.set_by_val("table", &vec![KindField::Traction(11)]);
    let table = world.kinds.get("table");
    let cart = world.create_auto(Auto { kind: table, loc: IVec2::new(0, 2), parent: earth, dim: IVec2::new(1, 1), ..Auto::default() });
    world.set_auto_action(cart, Action::Goto(IVec2::new(4, 2)));
    let mut ticks = 0;
    while !world.get_auto(cart).flags.get(rs98::auto::auto_action_finished()) {
        world.update(1000);
        assert_eq!(world.stall_message(cart), None);
        ticks += 1;
        assert!(ticks < 100);
    }
    assert_eq!(world.get_auto(cart).loc, IVec2::new(4, 2));
    // around the top or bottom edge: 3 up, 4 across, 3 down, plus the finishing tick
    assert_eq!(ticks, 11);
}

#[test]
fn pick_without_a_slot_stalls() {
    let mut world = World::new_test();
    let space = AutoNdx(0);
    let rock = world.kinds.get("rock");
    world.set_item(space, IVec2::new(4, 4), rock);
    // kind grass has no footprint, so this auto has no item slot
    let flat = world.create_auto(Auto { kind: world.kinds.get("grass"), loc: IVec2::new(4, 4), parent: space, ..Auto::default() });
    world.set_auto_action(flat, Action::Pick(rock, Kind(0)));
    world.update(1000);
    assert_eq!(world.stall_message(flat), Some("Cannot hold anything.".to_string()));
    assert_eq!(world.get_item(space, IVec2::new(4, 4)), rock);
}

#[test]
fn pick_without_a_slot_reports_missing_item_first() {
    let mut world = World::new_test();
    let space = AutoNdx(0);
    let rock = world.kinds.get("rock");
    let flat = world.create_auto(Auto { kind: world.kinds.get("grass"), loc: IVec2::new(4, 4), parent: space, ..Auto::default() });
    world.set_auto_action(flat, Action::Pick(rock, Kind(0)));
    world.update(1000);
    assert_eq!(world.stall_message(flat), Some("Could not find rock on ground.".to_string()));
}

#[test]
fn fire_at_dead_target_stalls() {
    let mut world = World::new_test();
    let space = AutoNdx(0);
    let a = world.create_auto(Auto { kind: world.kinds.get("robo"), loc: IVec2::new(1, 1), parent: space, ..Auto::default() });
    let b = world.create_auto(Auto { kind: world.kinds.get("robo"), loc: IVec2::new(1, 2), parent: space, ..Auto::default() });
    world.set_auto_action(a, Action::Fire(b));
    world.update(1000);
    assert_eq!(world.stall_message(a), None);
    world.set_auto_action(a, Action::Fire(b));
    world.update(1000);
    assert_eq!(world.stall_message(a), Some("Could not find target.".to_string()));
}

#[test]
fn autos_at_in_handle_order() {
    let mut world = World::new_test();
    let space = AutoNdx(0);
    let loc = IVec2::new(3, 3);
    let a = world.create_auto(Auto { kind: world.kinds.get("robo"), loc, parent: space, ..Auto::default() });
    let _elsewhere = world.create_auto(Auto { kind: world.kinds.get("robo"), loc: IVec2::new(4, 3), parent: space, ..Auto::default() });
    let c = world.create_auto(Auto { kind: world.kinds.get("rock"), loc, parent: space, ..Auto::default() });
    assert_eq!(world.get_autos_at(space, loc), vec![a, c]);
}
