use vstd::prelude::*;

use crate::auto::{Auto, AutoNdx, AutoView, ALIVE_BIT, FINISHED_BIT, TICK, cell_in, item_at, with_item, has_flag};
use crate::bitfield::BitField;
use crate::dir::{Dir, IVec2, spec_step};
use crate::kind::{Kind, KindRole, NOTHING, joined};
use crate::pattern::{PatternView, first_fit};
use crate::route::{route, route_choice};
use crate::text::{append_int, append_str, decimal, string_of};
use crate::world::{Grid, Slot, World, action_ok, finished, overwritten, spec_create};

verus! {

/// What an auto is trying to do; attempted once per tick until it finishes.
#[derive(Clone, Copy, Debug, Default, PartialEq, Eq, Hash, Structural)]
pub enum Action {
    #[default]
    Stop,
    Step(Dir),
    /// Pick up an item of the first kind from a container of the second.
    Pick(Kind, Kind),
    /// Put the held item into a container of this kind.
    Place(Kind),
    Produce,
    /// Shoot another auto within range; a dead one counts as absent.
    Fire(AutoNdx),
    /// Walk toward a cell of the parent, one step per tick.
    Goto(IVec2),
}

/// Slot 0, the held-item slot.
pub open spec fn origin() -> IVec2 {
    IVec2 { x: 0, y: 0 }
}

/// Largest Manhattan distance at which `Fire` hits.
pub const FIRE_RANGE: i64 = 5;

/// The auto that placing a held auto-kind item on open ground deploys.
pub open spec fn deployed(kind: Kind, loc: IVec2, parent: AutoNdx, force: crate::force::ForceNdx) -> AutoView {
    AutoView {
        kind,
        parent,
        children: Seq::empty(),
        force,
        items: Seq::empty(),
        tiles: Seq::empty(),
        dim: IVec2 { x: 0, y: 0 },
        action: Action::Stop,
        loc,
        action_time: 0,
        stall_message: None,
        flags: 0,
    }
}

/// `(x,y)` in decimal.
pub open spec fn loc_text(p: IVec2) -> Seq<char> {
    "("@ + decimal(p.x as int) + ","@ + decimal(p.y as int) + ")"@
}

/// The arena with `me` marked finished.
pub open spec fn finish_in(w: Seq<AutoView>, me: AutoNdx) -> Seq<AutoView> {
    w.update(me.0 as int, finished(w[me.0 as int]))
}

pub open spec fn abs(x: int) -> int {
    if x < 0 { -x } else { x }
}

/// The effect of one attempt of `action` by `me`: the new arena, and the
/// stall message when the attempt fails (in which case nothing changes).
pub open spec fn act_outcome(g: Grid, patterns: Seq<PatternView>, me: AutoNdx, action: Action) -> (Seq<AutoView>, Option<Seq<char>>) {
    let w = g.autos;
    let a = w[me.0 as int];
    match action {
        Action::Stop => (finish_in(w, me), None),
        Action::Step(d) => match spec_step(a.loc, d) {
            Some(n) => if g.traction_valid(a.parent, a.kind, n) {
                (finish_in(w.update(me.0 as int, AutoView { loc: n, ..a }), me), None)
            } else {
                (w, Some("Could not move to "@ + loc_text(n) + ": "@ + g.kinds.spec_name(a.kind) + " cannot cross "@
                    + g.kinds.spec_name(g.tile(a.parent, n)) + "."@))
            },
            None => (w, Some("Could not move beyond the coordinate range."@)),
        },
        Action::Pick(item, source) => if item.0 == NOTHING {
            (w, Some("Cannot pick up nothing."@))
        } else {
            match g.target(me, source, item) {
                Some(s) => if !cell_in(a.dim, origin(), a.items.len()) {
                    (w, Some("Cannot hold anything."@))
                } else {
                    let t = s.0.0 as int;
                    let contents = item_at(w[t], s.1);
                    let w1 = w.update(t, with_item(w[t], s.1, Kind(NOTHING)));
                    let w2 = w1.update(me.0 as int, with_item(w1[me.0 as int], origin(), contents));
                    (finish_in(w2, me), None)
                }
                None => (w, Some("Could not find "@ + g.kinds.spec_action_name(item) + " on "@
                    + g.kinds.spec_action_name(source) + "."@)),
            }
        },
        Action::Place(dest) => {
            let holding = item_at(a, origin());
            if holding.0 == NOTHING {
                (w, Some("Cannot place nothing."@))
            } else {
                match g.target(me, dest, Kind(NOTHING)) {
                    Some(s) => {
                        let t = s.0.0 as int;
                        let w1 = w.update(me.0 as int, with_item(a, origin(), Kind(NOTHING)));
                        let w2 = if g.kinds@.data[holding.0 as int].role == KindRole::Auto && s.0 == a.parent {
                            spec_create(w1, g.kinds, deployed(holding, s.1, s.0, a.force))
                        } else {
                            w1.update(t, with_item(w1[t], s.1, holding))
                        };
                        (finish_in(w2, me), None)
                    },
                    None => (w, Some("Could not find empty slot on "@ + g.kinds.spec_action_name(dest) + "."@)),
                }
            }
        },
        Action::Produce => match first_fit(patterns, a.kind, a.items) {
            Some(p) => (finish_in(w.update(me.0 as int, AutoView { items: overwritten(a.items, p.output), ..a }), me), None),
            None => (w, Some("Could not find pattern for "@ + g.kinds.spec_name(a.kind) + " holding "@
                + joined(a.items.map_values(|k: Kind| g.kinds.spec_name(k))) + "."@)),
        },
        Action::Fire(target) => {
            let b = w[target.0 as int];
            if !has_flag(b, ALIVE_BIT) {
                (w, Some("Could not find target."@))
            } else if abs(a.loc.x - b.loc.x) + abs(a.loc.y - b.loc.y) <= FIRE_RANGE {
                let w1 = w.update(target.0 as int, AutoView { flags: b.flags & !ALIVE_BIT, ..b });
                (finish_in(w1, me), None)
            } else {
                (w, Some("Target out of range."@))
            }
        },
        Action::Goto(dest) => if a.loc == dest {
            (finish_in(w, me), None)
        } else {
            match route_choice(g, a.parent, a.kind, a.loc, dest) {
                Some(d) => (w.update(me.0 as int, AutoView { loc: spec_step(a.loc, d).unwrap(), ..a }), None),
                None => (w, Some("Could not find route to "@ + loc_text(dest) + "."@)),
            }
        },
    }
}

/// A step to a representable cell succeeds exactly when the actor's
/// traction is strictly greater than the terrain's there; equal traction
/// blocks. A blocked step changes nothing.
pub proof fn lemma_step_traction(g: Grid, patterns: Seq<PatternView>, me: AutoNdx, d: Dir)
    requires
        spec_step(g.autos[me.0 as int].loc, d).is_some(),
    ensures
        ({
            let a = g.autos[me.0 as int];
            let n = spec_step(a.loc, d).unwrap();
            let out = act_outcome(g, patterns, me, Action::Step(d));
            &&& out.1.is_none() <==> g.kinds.traction(a.kind) > g.kinds.traction(g.tile(a.parent, n))
            &&& g.kinds.traction(a.kind) == g.kinds.traction(g.tile(a.parent, n)) ==> out.1.is_some()
            &&& out.1.is_some() ==> out.0 == g.autos
        }),
{
}

/// Picking an item up from the ground under an empty-handed actor and then
/// placing it back on the ground restores the actor's and the ground's
/// items, and neither attempt stalls.
pub proof fn lemma_pick_place_round_trip(g: Grid, patterns: Seq<PatternView>, me: AutoNdx, item: Kind)
    requires
        0 <= me.0 < g.autos.len(),
        0 <= g.autos[me.0 as int].parent.0 < g.autos.len(),
        g.autos[me.0 as int].parent != me,
        cell_in(g.autos[me.0 as int].dim, origin(), g.autos[me.0 as int].items.len()),
        item_at(g.autos[me.0 as int], origin()) == Kind(NOTHING),
        item.0 != NOTHING,
        item_at(g.autos[g.autos[me.0 as int].parent.0 as int], g.autos[me.0 as int].loc) == item,
        g.kinds@.data[item.0 as int].role != KindRole::Auto,
    ensures
        ({
            let a = g.autos[me.0 as int];
            let p = a.parent.0 as int;
            let picked = act_outcome(g, patterns, me, Action::Pick(item, Kind(NOTHING)));
            let placed = act_outcome(Grid { autos: picked.0, kinds: g.kinds }, patterns, me, Action::Place(Kind(NOTHING)));
            &&& picked.1.is_none()
            &&& picked.0[me.0 as int].items[0] == item
            &&& placed.1.is_none()
            &&& placed.0[p].items == g.autos[p].items
            &&& placed.0[me.0 as int].items == a.items
            &&& placed.0.len() == g.autos.len()
        }),
{
    let w = g.autos;
    let a = w[me.0 as int];
    let p = a.parent.0 as int;
    let m = me.0 as int;
    let ground = Slot(a.parent, a.loc);
    assert(g.target(me, Kind(NOTHING), item) == Some(ground));
    let contents = item_at(w[p], a.loc);
    let w1 = w.update(p, with_item(w[p], a.loc, Kind(NOTHING)));
    let w2 = w1.update(m, with_item(w1[m], origin(), contents));
    let w3 = finish_in(w2, me);
    assert(crate::auto::flat_index(a.dim, origin()) == 0);
    assert(w3[m].items == a.items.update(0, item));
    assert(w3[p].items == w[p].items.update(crate::auto::flat_index(w[p].dim, a.loc), Kind(NOTHING)));
    let g2 = Grid { autos: w3, kinds: g.kinds };
    assert(item_at(w3[m], origin()) == item);
    assert(g2.target(me, Kind(NOTHING), Kind(NOTHING)) == Some(ground));
    let v1 = w3.update(m, with_item(w3[m], origin(), Kind(NOTHING)));
    let v2 = v1.update(p, with_item(v1[p], a.loc, item));
    let v3 = finish_in(v2, me);
    assert(v3[p].items =~= w[p].items);
    assert(v3[m].items =~= a.items);
}

fn loc_string(prefix: &str, p: IVec2, suffix: &str) -> (r: String)
    ensures
        r@ == prefix@ + loc_text(p) + suffix@,
{
    let mut m = string_of(prefix);
    append_str(&mut m, "(");
    append_int(&mut m, p.x as i64);
    append_str(&mut m, ",");
    append_int(&mut m, p.y as i64);
    append_str(&mut m, ")");
    append_str(&mut m, suffix);
    assert(m@ =~= prefix@ + loc_text(p) + suffix@);
    m
}

impl Action {
    /// Attempts this action once for `auto_ndx`: `None` when it succeeded
    /// (the action then marks itself finished, except a `Goto` still on its
    /// way), or the reason it could not be done now.
    #[verifier::rlimit(60)]
    pub fn act(&self, world: &mut World, auto_ndx: AutoNdx) -> (r: Option<String>)
        requires
            old(world).wf(),
            old(world).has(auto_ndx),
            action_ok(*self, old(world).kinds, old(world)@.len()),
        ensures
            final(world).wf(),
            final(world).same_registries(old(world)),
            final(world)@.len() >= old(world)@.len(),
            (final(world)@, crate::auto::opt_view(r)) == act_outcome(old(world).grid(), old(world).patterns@, auto_ndx, *self),
    {
        let ghost g = world.grid();
        let ghost pats = world.patterns@;
        let ghost w0 = world@;
        proof {
            assert(crate::world::auto_ok(w0[auto_ndx.0 as int], world.kinds, w0.len()));
        }
        match *self {
            Action::Stop => {
                world.finish_auto_action(auto_ndx);
                None
            },
            Action::Step(dir) => {
                let auto = world.get_auto(auto_ndx);
                let parent = auto.parent;
                let kind = auto.kind;
                match dir.step_from(auto.loc) {
                    Some(new_loc) => {
                        if world.traction_valid(parent, kind, new_loc) {
                            world.move_auto(auto_ndx, new_loc);
                            world.finish_auto_action(auto_ndx);
                            None
                        } else {
                            let tile = world.get_tile(parent, new_loc);
                            proof {
                                let p = w0[parent.0 as int];
                                assert(crate::world::auto_ok(p, world.kinds, w0.len()));
                                let i = crate::auto::flat_index(p.dim, new_loc);
                                if 0 <= i < p.tiles.len() {
                                    assert(world.kinds.valid(p.tiles[i]));
                                }
                            }
                            let mut m = loc_string("Could not move to ", new_loc, ": ");
                            let auto_name = world.kinds.name(kind);
                            append_str(&mut m, auto_name.as_str());
                            append_str(&mut m, " cannot cross ");
                            let tile_name = world.kinds.name(tile);
                            append_str(&mut m, tile_name.as_str());
                            append_str(&mut m, ".");
                            Some(m)
                        }
                    },
                    None => Some(string_of("Could not move beyond the coordinate range.")),
                }
            },
            Action::Pick(item, source) => {
                if item.0 == NOTHING {
                    return Some(string_of("Cannot pick up nothing."));
                }
                match world.pick_place_target(auto_ndx, source, item) {
                    Some(Slot(target_auto, target_loc)) => {
                        if !world.get_auto(auto_ndx).has_slot(IVec2::new(0, 0)) {
                            return Some(string_of("Cannot hold anything."));
                        }
                        let contents = world.get_item(target_auto, target_loc);
                        proof {
                            let t = w0[target_auto.0 as int];
                            assert(crate::world::auto_ok(t, world.kinds, w0.len()));
                            let i = crate::auto::flat_index(t.dim, target_loc);
                            if 0 <= i < t.items.len() {
                                assert(world.kinds.valid(t.items[i]));
                            }
                        }
                        world.set_item(target_auto, target_loc, Kind(NOTHING));
                        world.set_item(auto_ndx, IVec2::new(0, 0), contents);
                        world.finish_auto_action(auto_ndx);
                        None
                    },
                    None => {
                        let mut m = string_of("Could not find ");
                        let item_name = world.kinds.action_name(item);
                        append_str(&mut m, item_name.as_str());
                        append_str(&mut m, " on ");
                        let source_name = world.kinds.action_name(source);
                        append_str(&mut m, source_name.as_str());
                        append_str(&mut m, ".");
                        Some(m)
                    },
                }
            },
            Action::Place(dest) => {
                let holding_kind = world.get_item(auto_ndx, IVec2::new(0, 0));
                if holding_kind.0 == NOTHING {
                    return Some(string_of("Cannot place nothing."));
                }
                proof {
                    let a = w0[auto_ndx.0 as int];
                    let i = crate::auto::flat_index(a.dim, origin());
                    assert(0 <= i < a.items.len());
                    assert(world.kinds.valid(a.items[i]));
                }
                match world.pick_place_target(auto_ndx, dest, Kind(NOTHING)) {
                    Some(Slot(target_auto, target_loc)) => {
                        let is_auto = world.kinds.get_data(holding_kind).role == KindRole::Auto;
                        let me = world.get_auto(auto_ndx);
                        let parent = me.parent;
                        let force = me.force;
                        world.set_item(auto_ndx, IVec2::new(0, 0), Kind(NOTHING));
                        if is_auto && target_auto == parent {
                            let new = Auto {
                                kind: holding_kind,
                                parent: target_auto,
                                children: Vec::new(),
                                force,
                                items: Vec::new(),
                                tiles: Vec::new(),
                                dim: IVec2::new(0, 0),
                                action: Action::Stop,
                                loc: target_loc,
                                action_time: 0,
                                stall_message: None,
                                flags: BitField::new(),
                            };
                            proof {
                                assert(new@ == deployed(holding_kind, target_loc, target_auto, force));
                                assert(crate::world::kinds_valid(world.kinds, new@.items));
                                assert(crate::world::kinds_valid(world.kinds, new@.tiles));
                            }
                            world.create_auto(new);
                        } else {
                            world.set_item(target_auto, target_loc, holding_kind);
                        }
                        world.finish_auto_action(auto_ndx);
                        None
                    },
                    None => {
                        let mut m = string_of("Could not find empty slot on ");
                        let dest_name = world.kinds.action_name(dest);
                        append_str(&mut m, dest_name.as_str());
                        append_str(&mut m, ".");
                        Some(m)
                    },
                }
            },
            Action::Produce => {
                let kind = world.get_auto(auto_ndx).kind;
                let holding = world.get_items(auto_ndx);
                match world.get_pattern(kind, &holding) {
                    Some(pattern) => {
                        proof {
                            crate::pattern::lemma_first_fit_is_first(pats, kind, holding@);
                            let i = choose|i: int| 0 <= i < pats.len() && pats[i] == pattern@ && crate::pattern::pattern_fits(pats[i], kind, holding@)
                                && forall|j: int| 0 <= j < i ==> !crate::pattern::pattern_fits(#[trigger] pats[j], kind, holding@);
                            assert forall|j: int| 0 <= j < pattern@.output.len() implies world.kinds.valid(#[trigger] pattern@.output[j]) by {
                                assert(pats[i].output[j] == pattern@.output[j]);
                            }
                        }
                        world.overwrite_items(auto_ndx, &pattern.output);
                        world.finish_auto_action(auto_ndx);
                        None
                    },
                    None => {
                        let mut m = string_of("Could not find pattern for ");
                        let kind_name = world.kinds.name(kind);
                        append_str(&mut m, kind_name.as_str());
                        append_str(&mut m, " holding ");
                        let names = world.kinds.name_list(&holding);
                        append_str(&mut m, names.as_str());
                        append_str(&mut m, ".");
                        proof {
                            let ks = world.kinds;
                            assert(holding@.map_values(|k: Kind| ks.spec_name(k)) =~= w0[auto_ndx.0 as int].items.map_values(
                                |k: Kind| g.kinds.spec_name(k),
                            ));
                        }
                        Some(m)
                    },
                }
            },
            Action::Fire(other) => {
                if !world.get_auto(other).flags.get(crate::auto::auto_alive()) {
                    return Some(string_of("Could not find target."));
                }
                let my_loc = world.get_auto(auto_ndx).loc;
                let other_loc = world.get_auto(other).loc;
                let dx = my_loc.x as i64 - other_loc.x as i64;
                let dy = my_loc.y as i64 - other_loc.y as i64;
                let dist = (if dx < 0 { -dx } else { dx }) + (if dy < 0 { -dy } else { dy });
                if dist <= FIRE_RANGE {
                    world.kill(other);
                    world.finish_auto_action(auto_ndx);
                    None
                } else {
                    Some(string_of("Target out of range."))
                }
            },
            Action::Goto(dest) => {
                let here = world.get_auto(auto_ndx).loc;
                if here == dest {
                    world.finish_auto_action(auto_ndx);
                    return None;
                }
                match route(world, auto_ndx, dest) {
                    Some(dir) => {
                        proof {
                            let a = w0[auto_ndx.0 as int];
                            let k = choose|k: nat| crate::route::is_route_step(g, a.parent, a.kind, a.loc, dest, k, dir);
                            assert(crate::route::via(g, a.parent, a.kind, a.loc, dest, (k - 1) as nat, dir));
                        }
                        let next = dir.step_from(here);
                        match next {
                            Some(n) => {
                                world.move_auto(auto_ndx, n);
                                None
                            },
                            None => None,
                        }
                    },
                    None => Some(loc_string("Could not find route to ", dest, ".")),
                }
            },
        }
    }
}


/// The arena after one update of auto `ndx` by `dur` thousandths of a time
/// unit. A dead auto, or one whose action is finished, is left alone. Else
/// the time accumulates; once a full tick has passed the clock restarts and
/// the action is attempted, and its outcome recorded as the stall message.
pub open spec fn tick_one(w: Seq<AutoView>, kinds: crate::kind::Kinds, patterns: Seq<PatternView>, ndx: int, dur: u64) -> Seq<AutoView> {
    let a = w[ndx];
    if !has_flag(a, ALIVE_BIT) || has_flag(a, FINISHED_BIT) {
        w
    } else if a.action_time + dur < TICK {
        w.update(ndx, AutoView { action_time: (a.action_time + dur) as u64, ..a })
    } else {
        let w1 = w.update(ndx, AutoView { action_time: 0, ..a });
        let out = act_outcome(Grid { autos: w1, kinds }, patterns, AutoNdx(ndx as usize), a.action);
        out.0.update(ndx, AutoView { stall_message: out.1, ..out.0[ndx] })
    }
}

/// The arena after the autos `0..n` are updated in handle order.
pub open spec fn tick_all(w: Seq<AutoView>, kinds: crate::kind::Kinds, patterns: Seq<PatternView>, n: nat, dur: u64) -> Seq<AutoView>
    decreases n,
{
    if n == 0 {
        w
    } else {
        tick_one(tick_all(w, kinds, patterns, (n - 1) as nat, dur), kinds, patterns, n - 1, dur)
    }
}

/// A failed attempt changes nothing but the stall message and the clock.
pub proof fn lemma_stall_changes_nothing(g: Grid, patterns: Seq<PatternView>, me: AutoNdx, action: Action)
    requires
        act_outcome(g, patterns, me, action).1.is_some(),
    ensures
        act_outcome(g, patterns, me, action).0 == g.autos,
{
}

/// The retry policy: when a live auto's pending action is attempted at a
/// tick and fails, the auto keeps that action, still pending, with its
/// clock restarted and the failure recorded, so the same action is
/// attempted again at the next tick; nothing else changes.
pub proof fn lemma_stall_retries(w: Seq<AutoView>, kinds: crate::kind::Kinds, patterns: Seq<PatternView>, i: int, dur: u64)
    requires
        0 <= i < w.len(),
        i <= usize::MAX,
        has_flag(w[i], ALIVE_BIT),
        !has_flag(w[i], FINISHED_BIT),
        w[i].action_time + dur >= TICK,
        act_outcome(
            Grid { autos: w.update(i, AutoView { action_time: 0, ..w[i] }), kinds },
            patterns,
            AutoNdx(i as usize),
            w[i].action,
        ).1.is_some(),
    ensures
        ({
            let out = act_outcome(
                Grid { autos: w.update(i, AutoView { action_time: 0, ..w[i] }), kinds },
                patterns,
                AutoNdx(i as usize),
                w[i].action,
            );
            tick_one(w, kinds, patterns, i, dur) == w.update(i, AutoView { action_time: 0, stall_message: out.1, ..w[i] })
        }),
{
    let w1 = w.update(i, AutoView { action_time: 0, ..w[i] });
    lemma_stall_changes_nothing(Grid { autos: w1, kinds }, patterns, AutoNdx(i as usize), w[i].action);
    assert(AutoNdx(i as usize).0 as int == i);
    let out = act_outcome(Grid { autos: w1, kinds }, patterns, AutoNdx(i as usize), w[i].action);
    assert(out.0.update(i, AutoView { stall_message: out.1, ..out.0[i] }) =~= w.update(
        i,
        AutoView { action_time: 0, stall_message: out.1, ..w[i] },
    ));
}

/// Whether an auto does nothing on an update: it is dead, or its action
/// is finished.
pub open spec fn idle(a: AutoView) -> bool {
    !has_flag(a, ALIVE_BIT) || has_flag(a, FINISHED_BIT)
}

/// Updating autos that are all idle changes nothing.
pub proof fn lemma_tick_all_idle(w: Seq<AutoView>, kinds: crate::kind::Kinds, patterns: Seq<PatternView>, m: nat, dur: u64)
    requires
        m <= w.len(),
        forall|j: int| 0 <= j < m ==> idle(#[trigger] w[j]),
    ensures
        tick_all(w, kinds, patterns, m, dur) == w,
    decreases m,
{
    if m > 0 {
        lemma_tick_all_idle(w, kinds, patterns, (m - 1) as nat, dur);
        assert(idle(w[m - 1]));
    }
}

/// When every auto but `a` is idle, and updating `a` leaves the flags of
/// the others as they were, updating the autos in order is updating `a`.
pub proof fn lemma_tick_all_one(w: Seq<AutoView>, kinds: crate::kind::Kinds, patterns: Seq<PatternView>, m: nat, dur: u64, a: int)
    requires
        0 <= a < m <= w.len(),
        forall|j: int| 0 <= j < w.len() && j != a ==> idle(#[trigger] w[j]),
        tick_one(w, kinds, patterns, a, dur).len() >= w.len(),
        forall|j: int| 0 <= j < w.len() && j != a ==> (#[trigger] tick_one(w, kinds, patterns, a, dur)[j]).flags == w[j].flags,
    ensures
        tick_all(w, kinds, patterns, m, dur) == tick_one(w, kinds, patterns, a, dur),
    decreases m,
{
    if m == a + 1 {
        lemma_tick_all_idle(w, kinds, patterns, a as nat, dur);
    } else {
        lemma_tick_all_one(w, kinds, patterns, (m - 1) as nat, dur, a);
        let u = tick_one(w, kinds, patterns, a, dur);
        assert(u[m - 1].flags == w[m - 1].flags);
        assert(idle(u[m - 1]));
    }
}

/// The arena after an action is issued to auto `a` with `set_auto_action`.
pub open spec fn issued(w: Seq<AutoView>, a: int, action: Action) -> Seq<AutoView> {
    w.update(a, AutoView { action, action_time: TICK, flags: w[a].flags & !FINISHED_BIT, ..w[a] })
}

/// The pick/place round trip through updates: when every other auto is
/// idle, an empty-handed live auto that is told to pick an item up from the
/// ground under it, is updated, is told to place it back on the ground, and
/// is updated again, leaves every auto's items as they were and stalls on
/// neither attempt.
#[verifier::rlimit(60)]
pub proof fn lemma_round_trip_update(w: Seq<AutoView>, kinds: crate::kind::Kinds, patterns: Seq<PatternView>, a: int, item: Kind, dur: u64)
    requires
        0 <= a < w.len(),
        w.len() <= usize::MAX,
        0 <= w[a].parent.0 < w.len(),
        w[a].parent.0 != a,
        cell_in(w[a].dim, origin(), w[a].items.len()),
        item_at(w[a], origin()) == Kind(NOTHING),
        item.0 != NOTHING,
        item_at(w[w[a].parent.0 as int], w[a].loc) == item,
        kinds@.data[item.0 as int].role != KindRole::Auto,
        has_flag(w[a], ALIVE_BIT),
        forall|j: int| 0 <= j < w.len() && j != a ==> idle(#[trigger] w[j]),
    ensures
        ({
            let w1 = tick_all(issued(w, a, Action::Pick(item, Kind(NOTHING))), kinds, patterns, w.len(), dur);
            let w2 = tick_all(issued(w1, a, Action::Place(Kind(NOTHING))), kinds, patterns, w.len(), dur);
            &&& w1[a].stall_message.is_none()
            &&& w2[a].stall_message.is_none()
            &&& w2.len() == w.len()
            &&& forall|h: int| 0 <= h < w.len() ==> (#[trigger] w2[h]).items == w[h].items
        }),
{
    let x = w[a];
    let p = x.parent.0 as int;
    let me = AutoNdx(a as usize);
    let f = x.flags;
    assert(f & 2u64 != 0 ==> (f & !4u64) & 2u64 != 0) by (bit_vector);
    assert((f & !4u64) & 4u64 == 0) by (bit_vector);
    let f1 = f & !4u64;
    assert(f1 & 2u64 != 0 ==> ((f1 | 4u64) & !4u64) & 2u64 != 0) by (bit_vector);
    assert(((f1 | 4u64) & !4u64) & 4u64 == 0) by (bit_vector);
    let ground = Slot(x.parent, x.loc);

    // the pick
    let v1 = issued(w, a, Action::Pick(item, Kind(NOTHING)));
    let v1t = v1.update(a, AutoView { action_time: 0, ..v1[a] });
    let g1 = Grid { autos: v1t, kinds };
    assert(v1t[p] == w[p]);
    assert(v1t[a].items == x.items);
    assert(g1.target(me, Kind(NOTHING), item) == Some(ground));
    let out1 = act_outcome(g1, patterns, me, Action::Pick(item, Kind(NOTHING)));
    assert(out1.1.is_none());
    let u1 = out1.0.update(a, AutoView { stall_message: out1.1, ..out1.0[a] });
    assert(tick_one(v1, kinds, patterns, a, dur) == u1);
    assert(u1.len() == w.len());
    assert forall|j: int| 0 <= j < v1.len() && j != a implies idle(#[trigger] v1[j]) by {
        assert(v1[j] == w[j]);
    }
    assert forall|j: int| 0 <= j < v1.len() && j != a implies (#[trigger] tick_one(v1, kinds, patterns, a, dur)[j]).flags
        == v1[j].flags by {
        assert(v1[j] == w[j]);
    }
    lemma_tick_all_one(v1, kinds, patterns, w.len(), dur, a);
    let w1 = tick_all(v1, kinds, patterns, w.len(), dur);
    assert(w1 == u1);
    assert(w1[a].items == x.items.update(0, item));
    assert(w1[a].flags == f1 | 4u64);
    assert(w1[p].items == w[p].items.update(crate::auto::flat_index(w[p].dim, x.loc), Kind(NOTHING)));

    // the place
    let v2 = issued(w1, a, Action::Place(Kind(NOTHING)));
    let v2t = v2.update(a, AutoView { action_time: 0, ..v2[a] });
    let g2 = Grid { autos: v2t, kinds };
    assert(item_at(v2t[a], origin()) == item);
    assert(v2t[p] == w1[p]);
    assert(g2.target(me, Kind(NOTHING), Kind(NOTHING)) == Some(ground));
    let out2 = act_outcome(g2, patterns, me, Action::Place(Kind(NOTHING)));
    assert(out2.1.is_none());
    let u2 = out2.0.update(a, AutoView { stall_message: out2.1, ..out2.0[a] });
    assert(tick_one(v2, kinds, patterns, a, dur) == u2);
    assert forall|j: int| 0 <= j < v2.len() && j != a implies idle(#[trigger] v2[j]) by {
        assert(v2[j].flags == w[j].flags);
        assert(idle(w[j]));
    }
    assert forall|j: int| 0 <= j < v2.len() && j != a implies (#[trigger] tick_one(v2, kinds, patterns, a, dur)[j]).flags
        == v2[j].flags by {
    }
    lemma_tick_all_one(v2, kinds, patterns, w.len(), dur, a);
    let w2 = tick_all(v2, kinds, patterns, w.len(), dur);
    assert(w2 == u2);
    assert(w2[p].items =~= w[p].items);
    assert(w2[a].items =~= x.items);
    assert forall|h: int| 0 <= h < w.len() implies (#[trigger] w2[h]).items == w[h].items by {
        if h != a && h != p {
            assert(w2[h] == w1[h]);
        }
    }
}

impl World {
    /// Advances the action clock of `ndx` by `dur` thousandths of a time
    /// unit, attempting its action when a full tick has passed.
    pub fn update_auto(&mut self, ndx: AutoNdx, dur: u64)
        requires
            old(self).wf(),
            old(self).has(ndx),
        ensures
            final(self).wf(),
            final(self).same_registries(old(self)),
            final(self)@.len() >= old(self)@.len(),
            final(self)@ == tick_one(old(self)@, old(self).kinds, old(self).patterns@, ndx.0 as int, dur),
    {
        let auto = self.get_auto(ndx);
        proof {
            assert(crate::world::auto_ok(self@[ndx.0 as int], self.kinds, self@.len()));
        }
        if !auto.flags.get(crate::auto::auto_alive()) || auto.flags.get(crate::auto::auto_action_finished()) {
            return;
        }
        let action = auto.action;
        let t = auto.action_time;
        if dur < TICK - t {
            self.set_action_time(ndx, t + dur);
            return;
        }
        self.set_action_time(ndx, 0);
        let stall_message = action.act(self, ndx);
        self.set_stall_message(ndx, stall_message);
    }

    /// Advances every auto that exists now by `dur` thousandths of a time
    /// unit, in handle order.
    pub fn update(&mut self, dur: u64)
        requires
            old(self).wf(),
        ensures
            final(self).wf(),
            final(self).same_registries(old(self)),
            final(self)@ == tick_all(old(self)@, old(self).kinds, old(self).patterns@, old(self)@.len(), dur),
    {
        let ndxes = self.auto_ndxes();
        let n = ndxes.len();
        let mut i: usize = 0;
        while i < n
            invariant
                self.wf(),
                self.same_registries(old(self)),
                n == old(self)@.len(),
                ndxes@.len() == n,
                forall|j: int| 0 <= j < n ==> (#[trigger] ndxes@[j]) == AutoNdx(j as usize),
                i <= n,
                self@.len() >= n,
                self@ == tick_all(old(self)@, old(self).kinds, old(self).patterns@, i as nat, dur),
            decreases n - i,
        {
            self.update_auto(ndxes[i], dur);
            i = i + 1;
        }
    }
}

} // verus!
