use rs98::act::Action;
use rs98::auto::{auto_action_finished, Auto, AutoNdx};
use rs98::dir::{Dir, IVec2};
use rs98::kind::{Kind, KindRole};
use rs98::program::{action_handler, ev_goto, ev_move, ev_pick, ev_place, handle_event, handle_message, Arg, Reply};
use rs98::world::World;

fn sym(s: &str) -> Arg {
    Arg::Sym(s.to_string())
}

fn list(items: Vec<Arg>) -> Arg {
    Arg::List(items)
}

fn grass_world_with_robo() -> (World, AutoNdx) {
    let mut world = World::new_test();
    let space = AutoNdx(0);
    world.set_all_tiles(space, world.kinds.get("grass"));
    let robo = world.create_auto(Auto {
        kind: world.kinds.get("robo"),
        loc: IVec2::new(10, 10),
        parent: space,
        dim: IVec2::new(1, 1),
        ..Auto::default()
    });
    (world, robo)
}

#[test]
fn issuing_same_action_twice_keeps_clock() {
    let (mut world, robo) = grass_world_with_robo();
    let step = Action::Step(Dir::North);
    assert_eq!(action_handler(&mut world, robo, step), false);
    assert_eq!(world.get_auto(robo).action, step);
    assert_eq!(world.get_auto(robo).action_time, 1000);
    // a partial tick passes; the clock restarted at the first attempt
    world.update(2000);
    assert_eq!(world.get_auto(robo).loc, IVec2::new(10, 11));
    world.set_auto_action(robo, Action::Step(Dir::East));
    world.update(2000);
    let before_time = world.get_auto(robo).action_time;
    // a different action resets the clock to a full tick
    assert_eq!(action_handler(&mut world, robo, Action::Goto(IVec2::new(50, 50))), false);
    assert_eq!(world.get_auto(robo).action_time, 1000);
    assert_ne!(before_time, 1000);
    world.update(300);
    assert_eq!(world.get_auto(robo).action_time, 0);
    world.update(300);
    assert_eq!(world.get_auto(robo).action_time, 300);
    let loc = world.get_auto(robo).loc;
    // the same action again, still pending: nothing changes
    assert_eq!(action_handler(&mut world, robo, Action::Goto(IVec2::new(50, 50))), false);
    assert_eq!(world.get_auto(robo).action_time, 300);
    assert_eq!(world.get_auto(robo).loc, loc);
}

#[test]
fn issuing_finished_action_completes() {
    let (mut world, robo) = grass_world_with_robo();
    assert_eq!(action_handler(&mut world, robo, Action::Produce), false);
    world.set_auto_action(robo, Action::Stop);
    world.update(2000);
    assert!(world.get_auto(robo).flags.get(auto_action_finished()));
    assert_eq!(action_handler(&mut world, robo, Action::Stop), true);
    assert_eq!(world.get_auto(robo).action, Action::Stop);
    assert!(!world.get_auto(robo).flags.get(auto_action_finished()));
}

#[test]
fn message_move_until_done() {
    let (mut world, robo) = grass_world_with_robo();
    let mut access = AutoNdx(0);
    let msg = vec![sym("move"), sym("e")];
    assert_eq!(handle_message(&mut world, &mut access, robo, &msg), Reply::Pending);
    assert_eq!(handle_message(&mut world, &mut access, robo, &msg), Reply::Pending);
    world.update(1000);
    assert_eq!(world.get_auto(robo).loc, IVec2::new(11, 10));
    assert_eq!(handle_message(&mut world, &mut access, robo, &msg), Reply::Nil);
    assert_eq!(world.get_auto(robo).action, Action::Stop);
    assert_eq!(
        handle_message(&mut world, &mut access, robo, &vec![sym("move")]),
        Reply::Text("usage: (move auto dir)".to_string())
    );
}

#[test]
fn message_goto_walks_to_target() {
    let (mut world, robo) = grass_world_with_robo();
    let mut access = AutoNdx(0);
    let msg = vec![sym("goto"), Arg::Num(12), Arg::Num(9)];
    let mut ticks = 0;
    while handle_message(&mut world, &mut access, robo, &msg) == Reply::Pending {
        world.update(1000);
        ticks += 1;
        assert!(ticks < 100);
    }
    assert_eq!(world.get_auto(robo).loc, IVec2::new(12, 9));
    assert_eq!(ticks, 4);
    assert_eq!(
        handle_message(&mut world, &mut access, robo, &vec![sym("goto"), Arg::Num(1)]),
        Reply::Text("usage: (goto auto x y)".to_string())
    );
}

#[test]
fn message_item_at_and_set_item() {
    let (mut world, robo) = grass_world_with_robo();
    let mut access = AutoNdx(0);
    let set = vec![sym("set-item"), Arg::Num(0), Arg::Num(3), Arg::Num(4), sym("rock")];
    assert_eq!(handle_message(&mut world, &mut access, robo, &set), Reply::Nil);
    assert_eq!(world.get_item(AutoNdx(0), IVec2::new(3, 4)), world.kinds.get("rock"));
    let get = vec![sym("item-at"), Arg::Num(0), Arg::Num(3), Arg::Num(4)];
    assert_eq!(handle_message(&mut world, &mut access, robo, &get), Reply::Text("rock".to_string()));
    let empty = vec![sym("item-at"), Arg::Num(0), Arg::Num(3), Arg::Num(5)];
    assert_eq!(handle_message(&mut world, &mut access, robo, &empty), Reply::Text("nothing".to_string()));
    let bad = vec![sym("item-at"), Arg::Num(99), Arg::Num(3), Arg::Num(4)];
    assert_eq!(
        handle_message(&mut world, &mut access, robo, &bad),
        Reply::Text("usage: (item-at auto x y)".to_string())
    );
    let bad_set = vec![sym("set-item"), Arg::Num(0), Arg::Num(3), Arg::Num(4)];
    assert_eq!(
        handle_message(&mut world, &mut access, robo, &bad_set),
        Reply::Text("usage: (set-item auto x y kind)".to_string())
    );
}

#[test]
fn message_define_kind_and_rename() {
    let mut world = World::new_blank();
    let mut access = AutoNdx(0);
    let def = vec![
        sym("define-kind"),
        sym("robo"),
        list(vec![sym("traction"), Arg::Num(5)]),
        list(vec![sym("dim"), Arg::Num(1), Arg::Num(1)]),
        list(vec![sym("role"), sym("auto")]),
        list(vec![sym("colour"), sym("red")]),
    ];
    assert_eq!(handle_message(&mut world, &mut access, AutoNdx(0), &def), Reply::Nil);
    let robo = world.kinds.get("robo");
    assert_eq!(robo, Kind(3));
    assert_eq!(world.kinds.get_data(robo).traction, 5);
    assert_eq!(world.kinds.get_data(robo).item_dim, IVec2::new(1, 1));
    assert_eq!(world.kinds.get_data(robo).role, KindRole::Auto);

    let rename = vec![sym("define-kind"), sym("robo"), list(vec![sym("name"), sym("r1000")])];
    assert_eq!(handle_message(&mut world, &mut access, AutoNdx(0), &rename), Reply::Nil);
    assert_eq!(world.kinds.get("r1000"), robo);
    assert_eq!(world.kinds.get("robo"), Kind(1));
    assert_eq!(
        handle_message(&mut world, &mut access, AutoNdx(0), &vec![sym("define-kind")]),
        Reply::Text("usage: (define-kind name (prop x) (prop y) ...)".to_string())
    );
}

#[test]
fn test_define_pattern() {
    let mut world = World::new_blank();
    let mut access = AutoNdx(0);
    for name in ["rock", "grass", "robo"] {
        let def = vec![sym("define-kind"), sym(name), list(vec![sym("traction"), Arg::Num(1)])];
        assert_eq!(handle_message(&mut world, &mut access, AutoNdx(0), &def), Reply::Nil);
    }
    let names = |ns: &[&str]| list(ns.iter().map(|n| sym(n)).collect());
    let def = vec![
        sym("define-pattern"),
        list(vec![sym("for"), sym("robo")]),
        list(vec![
            sym("in"),
            names(&["nothing", "nothing", "nothing", "grass", "grass", "grass", "nothing", "nothing", "nothing"]),
        ]),
        list(vec![
            sym("out"),
            names(&["nothing", "nothing", "nothing", "grass", "rock", "grass", "nothing", "nothing", "nothing"]),
        ]),
    ];
    assert_eq!(handle_message(&mut world, &mut access, AutoNdx(0), &def), Reply::Nil);
    assert_eq!(world.patterns.len(), 1);

    let rock = world.kinds.get("rock");
    let robo = world.kinds.get("robo");
    let nothing = world.kinds.get("nothing");
    let grass = world.kinds.get("grass");

    let pattern = world.patterns.get(robo, &vec![nothing, nothing, nothing, grass, grass, grass, nothing, nothing, nothing]);
    if let Some(pattern) = pattern {
        assert_eq!(pattern.output, vec![nothing, nothing, nothing, grass, rock, grass, nothing, nothing, nothing]);
    } else {
        assert!(false);
    }
}

#[test]
fn test_load() {
    let mut world = World::new_blank();
    let space = AutoNdx(0);
    let mut access = AutoNdx(0);
    for (name, traction) in [("rock", 1), ("grass", 1), ("earth", 1), ("robo", 5)] {
        let def = vec![sym("define-kind"), sym(name), list(vec![sym("traction"), Arg::Num(traction)])];
        assert_eq!(handle_message(&mut world, &mut access, space, &def), Reply::Nil);
    }
    let earth_msg = vec![
        sym("create-auto"),
        list(vec![sym("kind"), sym("earth")]),
        list(vec![sym("loc"), Arg::Num(0), Arg::Num(0)]),
        list(vec![sym("parent"), Arg::Num(0)]),
        list(vec![sym("dim"), Arg::Num(50), Arg::Num(50)]),
        list(vec![sym("tile"), sym("grass")]),
    ];
    assert_eq!(handle_message(&mut world, &mut access, space, &earth_msg), Reply::Num(1));
    let player_msg = vec![
        sym("create-auto"),
        list(vec![sym("kind"), sym("robo")]),
        list(vec![sym("loc"), Arg::Num(10), Arg::Num(10)]),
        list(vec![sym("parent"), Arg::Num(1)]),
        list(vec![sym("dim"), list(vec![Arg::Num(1), Arg::Num(1)])]),
    ];
    assert_eq!(handle_message(&mut world, &mut access, space, &player_msg), Reply::Num(2));
    assert_eq!(handle_message(&mut world, &mut access, space, &vec![sym("access"), Arg::Num(2)]), Reply::Nil);
    let set = vec![sym("set-item"), Arg::Num(1), Arg::Num(10), Arg::Num(10), sym("rock")];
    assert_eq!(handle_message(&mut world, &mut access, space, &set), Reply::Nil);

    let rock = world.kinds.get("rock");
    let rock_data = world.kinds.get_data(rock);
    assert_eq!(rock_data.name, "rock");
    assert_eq!(rock_data.traction, 1);

    let earth = AutoNdx(1);
    let earth_data = world.get_auto(earth);
    assert_eq!(earth_data.kind, world.kinds.get("earth"));
    assert_eq!(earth_data.loc, IVec2::new(0, 0));
    assert_eq!(earth_data.parent, space);
    assert_eq!(earth_data.dim, IVec2::new(50, 50));
    assert_eq!(world.get_tile(earth, IVec2::new(0, 0)), world.kinds.get("grass"));
    assert_eq!(world.get_tile(earth, IVec2::new(49, 49)), world.kinds.get("grass"));
    assert_eq!(world.get_item(earth, IVec2::new(10, 10)), rock);

    let robo_auto = AutoNdx(2);
    let robo_data = world.get_auto(robo_auto);
    assert_eq!(robo_data.kind, world.kinds.get("robo"));
    assert_eq!(robo_data.parent, earth);
    assert_eq!(robo_data.dim, IVec2::new(1, 1));
    assert_eq!(access, robo_auto);

    let orphan = vec![sym("create-auto"), list(vec![sym("parent"), Arg::Num(40)])];
    assert_eq!(
        handle_message(&mut world, &mut access, space, &orphan),
        Reply::Text("usage: (create-auto (name x) ...)".to_string())
    );
    assert_eq!(world.autos.len(), 3);
}

#[test]
fn test_access() {
    let mut world = World::new_test();
    let space = AutoNdx(0);
    let mut access = AutoNdx(0);

    let robo = world.create_auto(Auto {
        kind: world.kinds.get("robo"),
        loc: IVec2::new(0, 0),
        parent: space,
        dim: IVec2::new(1, 1),
        ..Auto::default()
    });
    assert_eq!(robo, AutoNdx(1));

    assert_eq!(access, space);
    assert_eq!(handle_message(&mut world, &mut access, space, &vec![sym("access"), Arg::Num(1)]), Reply::Nil);
    assert_eq!(access, robo);
    assert_eq!(
        handle_message(&mut world, &mut access, space, &vec![sym("access"), Arg::Num(-1)]),
        Reply::Text("usage: (access auto)".to_string())
    );
    assert_eq!(access, robo);
}

#[test]
fn message_print_quit_unknown() {
    let (mut world, robo) = grass_world_with_robo();
    let mut access = AutoNdx(0);
    let msg = vec![sym("print"), Arg::Str("x = ".to_string()), Arg::Num(-42), sym("!")];
    assert_eq!(handle_message(&mut world, &mut access, robo, &msg), Reply::Print("x = -42!".to_string()));
    assert_eq!(handle_message(&mut world, &mut access, robo, &vec![sym("quit")]), Reply::Quit);
    assert_eq!(handle_message(&mut world, &mut access, robo, &vec![sym("dance")]), Reply::Unhandled);
    assert_eq!(handle_message(&mut world, &mut access, robo, &vec![Arg::Num(3)]), Reply::Unhandled);
    assert_eq!(handle_message(&mut world, &mut access, robo, &vec![]), Reply::Unhandled);
}

#[test]
fn message_pick_place_produce() {
    let (mut world, robo) = grass_world_with_robo();
    let mut access = AutoNdx(0);
    let rock = world.kinds.get("rock");
    world.set_item(AutoNdx(0), IVec2::new(10, 10), rock);
    assert_eq!(handle_message(&mut world, &mut access, robo, &vec![sym("pick")]), Reply::Pending);
    world.update(1000);
    assert_eq!(world.get_item(robo, IVec2::new(0, 0)), rock);
    assert_eq!(handle_message(&mut world, &mut access, robo, &vec![sym("pick")]), Reply::Nil);
    assert_eq!(handle_message(&mut world, &mut access, robo, &vec![sym("place")]), Reply::Pending);
    world.update(1000);
    assert_eq!(world.get_item(AutoNdx(0), IVec2::new(10, 10)), rock);
    assert_eq!(handle_message(&mut world, &mut access, robo, &vec![sym("produce")]), Reply::Pending);
    assert_eq!(handle_message(&mut world, &mut access, robo, &vec![sym("stop")]), Reply::Pending);
}

#[test]
fn events_set_actions() {
    let (mut world, robo) = grass_world_with_robo();
    ev_goto(&vec![sym("goto"), Arg::Num(3), Arg::Num(4)], &mut world, robo);
    assert_eq!(world.get_auto(robo).action, Action::Goto(IVec2::new(3, 4)));
    ev_move(&vec![sym("move"), sym("w")], &mut world, robo);
    assert_eq!(world.get_auto(robo).action, Action::Step(Dir::West));
    ev_move(&vec![sym("move")], &mut world, robo);
    assert_eq!(world.get_auto(robo).action, Action::Step(Dir::West));
    ev_pick(&vec![sym("pick")], &mut world, robo);
    assert_eq!(world.get_auto(robo).action, Action::Pick(Kind(0), Kind(0)));
    ev_place(&vec![sym("place")], &mut world, robo);
    assert_eq!(world.get_auto(robo).action, Action::Place(Kind(0)));
}

#[test]
fn events_dispatch_by_name() {
    let (mut world, robo) = grass_world_with_robo();
    assert!(handle_event(&mut world, robo, &vec![sym("goto"), Arg::Num(1), Arg::Num(2)]));
    assert_eq!(world.get_auto(robo).action, Action::Goto(IVec2::new(1, 2)));
    assert!(handle_event(&mut world, robo, &vec![sym("move"), sym("n")]));
    assert_eq!(world.get_auto(robo).action, Action::Step(Dir::North));
    assert!(handle_event(&mut world, robo, &vec![sym("place")]));
    assert_eq!(world.get_auto(robo).action, Action::Place(Kind(0)));
    assert!(!handle_event(&mut world, robo, &vec![sym("input-key"), sym("A")]));
    assert_eq!(world.get_auto(robo).action, Action::Place(Kind(0)));
    assert!(!handle_event(&mut world, robo, &vec![]));
}

#[test]
fn kind_program_keeps_list_source() {
    let mut world = World::new_blank();
    let mut access = AutoNdx(0);
    let def = vec![
        sym("define-kind"),
        sym("robo"),
        list(vec![
            sym("program"),
            list(vec![sym("loop"), list(vec![sym("move"), sym("e")]), list(vec![sym("move"), Arg::Str("w".to_string()), Arg::Num(-2)])]),
        ]),
    ];
    assert_eq!(handle_message(&mut world, &mut access, AutoNdx(0), &def), Reply::Nil);
    let robo = world.kinds.get("robo");
    assert_eq!(world.kinds.get_data(robo).program, "(loop (move e) (move \"w\" -2))");
}
