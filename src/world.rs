use vstd::prelude::*;

use crate::act::Action;
use crate::auto::{Auto, AutoNdx, AutoView, TICK, FINISHED_BIT, area, flat_index, item_at, with_item, tile_at, with_tile, initialized, opt_view, auto_action_finished, auto_alive, ALIVE_BIT};
use crate::dir::IVec2;
use crate::force::{ForceNdx, Forces, blank_forces};
use crate::kind::{Kind, Kinds, kinds_match, blank_kinds, sample_kinds, NOTHING, WILDCARD};
use crate::pattern::{Pattern, PatternView, Patterns, first_fit};

verus! {

/// One concrete item cell: an auto and a local coordinate in its grid.
#[derive(Clone, Copy, Debug, PartialEq, Eq, Hash, Structural)]
pub struct Slot(pub AutoNdx, pub IVec2);

/// The arena of autos, addressed by handle, with the registries they refer to.
pub struct World {
    pub autos: Vec<Auto>,
    pub kinds: Kinds,
    pub patterns: Patterns,
    pub forces: Forces,
}

impl View for World {
    type V = Seq<AutoView>;

    open spec fn view(&self) -> Seq<AutoView> {
        self.autos@.map_values(|a: Auto| a@)
    }
}

/// Whether every kind an action names is registered and its target exists.
pub open spec fn action_ok(action: Action, kinds: Kinds, n: nat) -> bool {
    match action {
        Action::Pick(item, source) => kinds.valid(item) && kinds.valid(source),
        Action::Place(dest) => kinds.valid(dest),
        Action::Fire(target) => target.0 < n,
        _ => true,
    }
}

/// Whether every kind in `s` is registered.
pub open spec fn kinds_valid(kinds: Kinds, s: Seq<Kind>) -> bool {
    forall|j: int| 0 <= j < s.len() ==> kinds.valid(#[trigger] s[j])
}

/// What each auto of an arena of `n` autos must satisfy.
pub open spec fn auto_ok(a: AutoView, kinds: Kinds, n: nat) -> bool {
    &&& kinds.valid(a.kind)
    &&& a.parent.0 < n
    &&& kinds_valid(kinds, a.items)
    &&& kinds_valid(kinds, a.tiles)
    &&& a.items.len() == area(a.dim)
    &&& a.tiles.len() == area(a.dim)
    &&& action_ok(a.action, kinds, n)
    &&& a.action_time <= TICK
}

/// The hierarchy is consistent: each auto's children are exactly the other
/// autos whose parent it is.
pub open spec fn links_ok(autos: Seq<AutoView>) -> bool {
    &&& forall|i: int, j: int|
        0 <= i < autos.len() && 0 <= j < autos[i].children.len() ==> {
            let c = #[trigger] autos[i].children[j];
            &&& 0 <= c.0 < autos.len()
            &&& c.0 != i
            &&& autos[c.0 as int].parent.0 == i
        }
    &&& forall|c: int|
        0 <= c < autos.len() && (#[trigger] autos[c]).parent.0 != c ==> autos[autos[c].parent.0 as int].children.contains(
            AutoNdx(c as usize),
        )
}

/// The invariant of an arena over the given registries.
pub open spec fn autos_ok(autos: Seq<AutoView>, kinds: Kinds) -> bool {
    &&& forall|i: int| 0 <= i < autos.len() ==> auto_ok(#[trigger] autos[i], kinds, autos.len())
    &&& links_ok(autos)
}

/// The arena after one auto is replaced by `a`, which keeps its place in
/// the hierarchy, still satisfies the invariant when `a` does.
pub proof fn lemma_replace_ok(autos: Seq<AutoView>, kinds: Kinds, i: int, a: AutoView)
    requires
        autos_ok(autos, kinds),
        0 <= i < autos.len(),
        auto_ok(a, kinds, autos.len()),
        a.parent == autos[i].parent,
        a.children == autos[i].children,
    ensures
        autos_ok(autos.update(i, a), kinds),
{
    let r = autos.update(i, a);
    assert forall|k: int| 0 <= k < r.len() implies auto_ok(#[trigger] r[k], kinds, r.len()) by {
        if k != i {
            assert(r[k] == autos[k]);
        }
    }
    assert forall|k: int, j: int| 0 <= k < r.len() && 0 <= j < r[k].children.len() implies {
        let c = #[trigger] r[k].children[j];
        &&& 0 <= c.0 < r.len()
        &&& c.0 != k
        &&& r[c.0 as int].parent.0 == k
    } by {
        assert(r[k].children == autos[k].children);
        let c = autos[k].children[j];
        assert(autos[c.0 as int].parent.0 == k);
    }
    assert forall|c: int| 0 <= c < r.len() && (#[trigger] r[c]).parent.0 != c implies r[r[c].parent.0 as int].children.contains(
        AutoNdx(c as usize),
    ) by {
        assert(r[c].parent == autos[c].parent);
        assert(autos[autos[c].parent.0 as int].children.contains(AutoNdx(c as usize)));
    }
}

/// Registering more kinds keeps the arena invariant.
pub proof fn lemma_kinds_grow(autos: Seq<AutoView>, k1: Kinds, k2: Kinds)
    requires
        autos_ok(autos, k1),
        k2.kinds.len() >= k1.kinds.len(),
    ensures
        autos_ok(autos, k2),
{
    assert forall|i: int| 0 <= i < autos.len() implies auto_ok(#[trigger] autos[i], k2, autos.len()) by {
        let a = autos[i];
        assert(auto_ok(a, k1, autos.len()));
        assert(kinds_valid(k2, a.items)) by {
            assert forall|j: int| 0 <= j < a.items.len() implies k2.valid(#[trigger] a.items[j]) by {
                assert(k1.valid(a.items[j]));
            }
        }
        assert(kinds_valid(k2, a.tiles)) by {
            assert forall|j: int| 0 <= j < a.tiles.len() implies k2.valid(#[trigger] a.tiles[j]) by {
                assert(k1.valid(a.tiles[j]));
            }
        }
    }
}

/// The root auto as created: a 100 by 100 space of kind `kind`, its own
/// parent, at the origin.
pub open spec fn root_auto(kind: Kind) -> AutoView {
    AutoView {
        kind,
        parent: AutoNdx(0),
        children: Seq::empty(),
        force: ForceNdx(0),
        items: Seq::empty(),
        tiles: Seq::empty(),
        dim: IVec2 { x: 100, y: 100 },
        action: Action::Stop,
        loc: IVec2 { x: 0, y: 0 },
        action_time: 0,
        stall_message: None,
        flags: 0,
    }
}

/// The arena after `create_auto` adds `new`: the parent (unless the new auto
/// is its own parent) lists it as its last child, and it is appended fully
/// initialised.
pub open spec fn spec_create(autos: Seq<AutoView>, kinds: Kinds, new: AutoView) -> Seq<AutoView> {
    let n = autos.len();
    let linked = if new.parent.0 != n {
        let p = autos[new.parent.0 as int];
        autos.update(new.parent.0 as int, AutoView { children: p.children.push(AutoNdx(n as usize)), ..p })
    } else {
        autos
    };
    linked.push(initialized(new, kinds))
}

/// Adding a creatable auto keeps the arena invariant.
pub proof fn lemma_create_ok(autos: Seq<AutoView>, kinds: Kinds, new: AutoView)
    requires
        autos_ok(autos, kinds),
        kinds.wf(),
        creatable(new, kinds, autos.len()),
        autos.len() < usize::MAX,
    ensures
        autos_ok(spec_create(autos, kinds, new), kinds),
{
    let n = autos.len();
    let r = spec_create(autos, kinds, new);
    let init = initialized(new, kinds);
    let parent = new.parent.0 as int;
    assert(r.len() == n + 1);
    assert(r[n as int] == init);
    assert forall|k: int| 0 <= k < r.len() implies auto_ok(#[trigger] r[k], kinds, r.len()) by {
        if k < n {
            assert(auto_ok(autos[k], kinds, n));
            assert(r[k].items == autos[k].items);
            assert(r[k].tiles == autos[k].tiles);
            assert(r[k].action == autos[k].action);
        } else {
            assert forall|j: int| 0 <= j < init.items.len() implies kinds.valid(#[trigger] init.items[j]) by {
                if j < new.items.len() {
                    assert(kinds.valid(new.items[j]));
                }
            }
            assert forall|j: int| 0 <= j < init.tiles.len() implies kinds.valid(#[trigger] init.tiles[j]) by {
                if j < new.tiles.len() {
                    assert(kinds.valid(new.tiles[j]));
                }
            }
        }
    }
    assert forall|k: int, j: int| 0 <= k < r.len() && 0 <= j < r[k].children.len() implies {
        let c = #[trigger] r[k].children[j];
        &&& 0 <= c.0 < r.len()
        &&& c.0 != k
        &&& r[c.0 as int].parent.0 == k
    } by {
        if k == n {
        } else if k == parent && j == autos[k].children.len() {
            assert(parent != n);
            assert(r[k].children[j] == AutoNdx(n as usize));
            assert(r[n as int].parent == new.parent);
        } else {
            assert(r[k].children[j] == autos[k].children[j]);
            let c = autos[k].children[j];
            assert(autos[c.0 as int].parent.0 == k);
            assert(c.0 < n);
            assert(r[c.0 as int].parent == autos[c.0 as int].parent);
        }
    }
    assert forall|c: int| 0 <= c < r.len() && (#[trigger] r[c]).parent.0 != c implies r[r[c].parent.0 as int].children.contains(
        AutoNdx(c as usize),
    ) by {
        if c == n {
            assert(r[parent].children.last() == AutoNdx(n as usize));
            assert(r[parent].children[r[parent].children.len() - 1] == AutoNdx(n as usize));
        } else {
            let p = autos[c].parent.0 as int;
            assert(autos[p].children.contains(AutoNdx(c as usize)));
            let i = choose|i: int| 0 <= i < autos[p].children.len() && autos[p].children[i] == AutoNdx(c as usize);
            assert(r[p].children[i] == AutoNdx(c as usize));
        }
    }
}

/// What an auto must satisfy to be added to an arena of `n` autos.
pub open spec fn creatable(a: AutoView, kinds: Kinds, n: nat) -> bool {
    &&& kinds.valid(a.kind)
    &&& a.parent.0 <= n
    &&& a.children.len() == 0
    &&& kinds_valid(kinds, a.items)
    &&& kinds_valid(kinds, a.tiles)
    &&& action_ok(a.action, kinds, n + 1)
    &&& a.action_time <= TICK
}

/// The auto as `finish_auto_action` leaves it.
pub open spec fn finished(a: AutoView) -> AutoView {
    AutoView { flags: a.flags | FINISHED_BIT, action_time: 0, ..a }
}

/// `items` with each slot that has an output replaced by it.
pub open spec fn overwritten(items: Seq<Kind>, output: Seq<Kind>) -> Seq<Kind> {
    Seq::new(items.len(), |i: int| if i < output.len() { output[i] } else { items[i] })
}

/// The slot that a child gives for a point of its parent's grid, if the
/// child covers that point.
pub open spec fn child_slot(autos: Seq<AutoView>, parent: AutoNdx, c: AutoNdx, loc: IVec2) -> Option<Slot> {
    let a = autos[c.0 as int];
    let dx = loc.x - a.loc.x;
    let dy = loc.y - a.loc.y;
    if a.parent == parent && 0 <= dx < a.dim.x && 0 <= dy < a.dim.y {
        Some(Slot(c, IVec2 { x: dx as i32, y: dy as i32 }))
    } else {
        None
    }
}

/// The slots that the children `cs` give for a point, in order.
pub open spec fn slots_from(autos: Seq<AutoView>, parent: AutoNdx, cs: Seq<AutoNdx>, loc: IVec2) -> Seq<Slot>
    decreases cs.len(),
{
    if cs.len() == 0 {
        Seq::empty()
    } else {
        let r = slots_from(autos, parent, cs.drop_last(), loc);
        match child_slot(autos, parent, cs.last(), loc) {
            Some(s) => r.push(s),
            None => r,
        }
    }
}

/// Whether a cell holding `there` can serve a request for `want`: the kinds
/// match, and an empty cell serves only a request for nothing.
pub open spec fn item_ok(there: Kind, want: Kind) -> bool {
    kinds_match(there, want) && (there.0 != NOTHING || want.0 == NOTHING)
}

/// The first slot of `slots`, other than the actor's own, on a container
/// matching `target` whose item serves `item`.
pub open spec fn first_target(autos: Seq<AutoView>, slots: Seq<Slot>, actor: AutoNdx, target: Kind, item: Kind) -> Option<Slot>
    decreases slots.len(),
{
    if slots.len() == 0 {
        None
    } else {
        let s = slots[0];
        if s.0 != actor && kinds_match(autos[s.0.0 as int].kind, target) && item_ok(item_at(autos[s.0.0 as int], s.1), item) {
            Some(s)
        } else {
            first_target(autos, slots.drop_first(), actor, target, item)
        }
    }
}

/// What movement and routing read of a world: the arena and the kinds.
pub struct Grid {
    pub autos: Seq<AutoView>,
    pub kinds: Kinds,
}

impl Grid {
    /// The terrain kind at `pos` of `parent`.
    pub open spec fn tile(&self, parent: AutoNdx, pos: IVec2) -> Kind {
        tile_at(self.autos[parent.0 as int], pos)
    }

    /// Whether an actor of kind `actor` can enter `pos` of `parent`: its
    /// traction is strictly greater than the terrain's.
    pub open spec fn traction_valid(&self, parent: AutoNdx, actor: Kind, pos: IVec2) -> bool {
        self.kinds.traction(actor) > self.kinds.traction(self.tile(parent, pos))
    }

    /// The slots that `get_slots` gives.
    pub open spec fn slots(&self, parent: AutoNdx, loc: IVec2) -> Seq<Slot> {
        slots_from(self.autos, parent, self.autos[parent.0 as int].children, loc)
    }

    /// The slot that `pick_place_target` resolves.
    pub open spec fn target(&self, actor: AutoNdx, target: Kind, item: Kind) -> Option<Slot> {
        let a = self.autos[actor.0 as int];
        let ground = Slot(a.parent, a.loc);
        let candidate = if target.0 == NOTHING {
            Some(ground)
        } else {
            match first_target(self.autos, self.slots(a.parent, a.loc), actor, target, item) {
                Some(s) => Some(s),
                None => if target.0 == WILDCARD {
                    Some(ground)
                } else {
                    None
                },
            }
        };
        match candidate {
            Some(s) => if item_ok(item_at(self.autos[s.0.0 as int], s.1), item) {
                Some(s)
            } else {
                None
            },
            None => None,
        }
    }
}

impl World {
    /// The arena and kinds of this world.
    pub open spec fn grid(&self) -> Grid {
        Grid { autos: self@, kinds: self.kinds }
    }

    /// The world invariant.
    pub open spec fn wf(&self) -> bool {
        &&& self.kinds.wf()
        &&& self.forces.wf()
        &&& self.patterns.outputs_valid(self.kinds)
        &&& autos_ok(self@, self.kinds)
    }

    /// Whether `ndx` is the handle of an auto of this world.
    pub open spec fn has(&self, ndx: AutoNdx) -> bool {
        ndx.0 < self@.len()
    }

    /// The registries of `self` and `other` are the same.
    pub open spec fn same_registries(&self, other: &World) -> bool {
        &&& self.kinds == other.kinds
        &&& self.patterns == other.patterns
        &&& self.forces == other.forces
    }

    /// The terrain kind at `pos` of `parent`.
    pub open spec fn spec_tile(&self, parent: AutoNdx, pos: IVec2) -> Kind {
        tile_at(self@[parent.0 as int], pos)
    }

    /// Whether an actor of kind `actor` can enter `pos` of `parent`: its
    /// traction is strictly greater than the terrain's.
    pub open spec fn spec_traction_valid(&self, parent: AutoNdx, actor: Kind, pos: IVec2) -> bool {
        self.kinds.traction(actor) > self.kinds.traction(self.spec_tile(parent, pos))
    }

    /// The slots that `get_slots` gives.
    pub open spec fn spec_slots(&self, parent: AutoNdx, loc: IVec2) -> Seq<Slot> {
        self.grid().slots(parent, loc)
    }

    /// The slot that `pick_place_target` resolves.
    pub open spec fn spec_target(&self, actor: AutoNdx, target: Kind, item: Kind) -> Option<Slot> {
        self.grid().target(actor, target, item)
    }

    /// A world with the built-in kinds and forces, no patterns, and the root
    /// `space` auto: handle 0, its own parent, 100 by 100, with empty items
    /// and nothing terrain.
    pub fn new_blank() -> (r: World)
        ensures
            r.wf(),
            r.kinds@ == blank_kinds(),
            r.kinds.spec_get("nothing"@) == Kind(0),
            r.kinds.spec_get("missingno"@) == Kind(1),
            r.kinds.spec_get("space"@) == Kind(2),
            r.kinds.spec_get("ground"@) == Kind(NOTHING),
            r.kinds.spec_get("any"@) == Kind(WILDCARD),
            r.forces@ == blank_forces(),
            r.patterns@.len() == 0,
            r@ == seq![initialized(root_auto(Kind(2)), r.kinds)],
    {
        let kinds = Kinds::new_blank();
        let mut world = World { patterns: Patterns::new_blank(), kinds, autos: Vec::new(), forces: Forces::new_blank() };
        world.add_root();
        world
    }

    /// A world with the sample kinds (`sample_kinds`), the two sample
    /// machine patterns, the built-in forces, and the root `space` auto as
    /// in `new_blank`.
    pub fn new_test() -> (r: World)
        ensures
            r.wf(),
            r.kinds@ == sample_kinds(),
            r.kinds.spec_get("nothing"@) == Kind(0),
            r.kinds.spec_get("missingno"@) == Kind(1),
            r.kinds.spec_get("space"@) == Kind(2),
            r.kinds.spec_get("earth"@) == Kind(3),
            r.kinds.spec_get("grass"@) == Kind(4),
            r.kinds.spec_get("rock"@) == Kind(5),
            r.kinds.spec_get("robo"@) == Kind(6),
            r.kinds.spec_get("machine"@) == Kind(7),
            r.kinds.spec_get("wall"@) == Kind(8),
            r.kinds.spec_get("thing"@) == Kind(9),
            r.kinds.spec_get("table"@) == Kind(10),
            r.kinds.spec_get("widget"@) == Kind(11),
            r.kinds.spec_get("ground"@) == Kind(NOTHING),
            r.kinds.spec_get("any"@) == Kind(WILDCARD),
            r.forces@ == blank_forces(),
            r.patterns@ == seq![
                PatternView { for_kind: Kind(7), input: seq![Kind(5), Kind(NOTHING)], output: seq![Kind(9), Kind(NOTHING)] },
                PatternView { for_kind: Kind(7), input: seq![Kind(9), Kind(5)], output: seq![Kind(11), Kind(NOTHING)] },
            ],
            r@ == seq![initialized(root_auto(Kind(2)), r.kinds)],
    {
        let kinds = Kinds::new_test();
        let patterns = Patterns::new_test(&kinds);
        let mut world = World { patterns, kinds, autos: Vec::new(), forces: Forces::new_blank() };
        proof {
            assert(world.patterns@ =~= seq![
                PatternView { for_kind: Kind(7), input: seq![Kind(5), Kind(NOTHING)], output: seq![Kind(9), Kind(NOTHING)] },
                PatternView { for_kind: Kind(7), input: seq![Kind(9), Kind(5)], output: seq![Kind(11), Kind(NOTHING)] },
            ]);
        }
        world.add_root();
        world
    }

    fn add_root(&mut self)
        requires
            old(self).kinds.wf(),
            old(self).forces.wf(),
            old(self).patterns.outputs_valid(old(self).kinds),
            old(self)@.len() == 0,
            old(self).kinds.spec_get("space"@) == Kind(2),
            old(self).kinds.kinds.len() > 2,
        ensures
            final(self).wf(),
            final(self).same_registries(old(self)),
            final(self)@ == seq![initialized(root_auto(Kind(2)), old(self).kinds)],
    {
        proof {
            assert(autos_ok(self@, self.kinds));
        }
        let space = self.kinds.get("space");
        let root = Auto {
            kind: space,
            parent: AutoNdx(0),
            children: Vec::new(),
            force: ForceNdx(0),
            items: Vec::new(),
            tiles: Vec::new(),
            dim: IVec2::new(100, 100),
            action: Action::Stop,
            loc: IVec2::new(0, 0),
            action_time: 0,
            stall_message: None,
            flags: crate::bitfield::BitField::new(),
        };
        proof {
            assert(root@.items =~= Seq::empty());
            assert(root@.tiles =~= Seq::empty());
            assert(root@.children =~= Seq::empty());
            assert(root@ == root_auto(Kind(2)));
            assert(kinds_valid(self.kinds, root@.items));
            assert(kinds_valid(self.kinds, root@.tiles));
        }
        self.create_auto(root);
        proof {
            assert(self@ =~= seq![initialized(root_auto(Kind(2)), old(self).kinds)]);
        }
    }

    /// Adds an auto to the arena and returns its handle, the next free one.
    /// The auto is initialised (footprint, alive flag, grids) and, unless it
    /// is its own parent, listed as its parent's last child.
    pub fn create_auto(&mut self, new: Auto) -> (r: AutoNdx)
        requires
            old(self).wf(),
            creatable(new@, old(self).kinds, old(self)@.len()),
        ensures
            final(self).wf(),
            final(self).same_registries(old(self)),
            r == AutoNdx(old(self)@.len() as usize),
            final(self)@ == spec_create(old(self)@, old(self).kinds, new@),
    {
        let ghost old_autos = self@;
        let ghost kinds = self.kinds;
        let ghost new0 = new@;
        let new = new.initalize(&self.kinds);
        let result = AutoNdx(self.autos.len());
        let parent = new.parent;
        if parent.0 != result.0 {
            self.autos[parent.0].children.push(result);
        }
        self.autos.push(new);
        proof {
            assert(self.autos.len() <= usize::MAX);
            assert(self@.len() == self.autos.len());
            assert(self@ =~= spec_create(old_autos, kinds, new0));
            lemma_create_ok(old_autos, kinds, new0);
        }
        result
    }

    pub fn get_auto(&self, auto: AutoNdx) -> (r: &Auto)
        requires
            self.has(auto),
        ensures
            r@ == self@[auto.0 as int],
    {
        &self.autos[auto.0]
    }

    /// Mutable access to an auto; the caller is responsible for the invariant.
    pub fn get_auto_mut(&mut self, auto_ndx: AutoNdx) -> (r: &mut Auto)
        requires
            old(self).has(auto_ndx),
        ensures
            r@ == old(self)@[auto_ndx.0 as int],
            final(self)@ == old(self)@.update(auto_ndx.0 as int, final(r)@),
            final(self).same_registries(old(self)),
    {
        &mut self.autos[auto_ndx.0]
    }

    /// Puts `item` in slot `loc` of `auto`; a slot outside its grid is ignored.
    pub fn set_item(&mut self, auto: AutoNdx, loc: IVec2, item: Kind)
        requires
            old(self).wf(),
            old(self).has(auto),
            old(self).kinds.valid(item),
        ensures
            final(self).wf(),
            final(self).same_registries(old(self)),
            final(self)@ == old(self)@.update(auto.0 as int, with_item(old(self)@[auto.0 as int], loc, item)),
    {
        let ghost a0 = self@[auto.0 as int];
        self.autos[auto.0].set_item(loc, item);
        proof {
            let a = with_item(a0, loc, item);
            assert(self@ =~= old(self)@.update(auto.0 as int, a));
            assert(auto_ok(a0, self.kinds, self@.len()));
            lemma_replace_ok(old(self)@, self.kinds, auto.0 as int, a);
        }
    }

    /// The item in slot `loc` of `auto`; nothing outside its grid.
    pub fn get_item(&self, auto: AutoNdx, loc: IVec2) -> (r: Kind)
        requires
            self.has(auto),
        ensures
            r == item_at(self@[auto.0 as int], loc),
    {
        self.autos[auto.0].get_item(loc)
    }

    pub fn has_item(&self, auto: AutoNdx, loc: IVec2) -> (r: bool)
        requires
            self.has(auto),
        ensures
            r == (item_at(self@[auto.0 as int], loc).0 != NOTHING),
    {
        self.autos[auto.0].has_item(loc)
    }

    /// Replaces the current action of `auto`. The finished flag is cleared
    /// and the clock set to a full tick, so the next update attempts it.
    pub fn set_auto_action(&mut self, auto: AutoNdx, action: Action)
        requires
            old(self).wf(),
            old(self).has(auto),
            action_ok(action, old(self).kinds, old(self)@.len()),
        ensures
            final(self).wf(),
            final(self).same_registries(old(self)),
            final(self)@ == old(self)@.update(auto.0 as int, AutoView {
                action,
                action_time: TICK,
                flags: old(self)@[auto.0 as int].flags & !FINISHED_BIT,
                ..old(self)@[auto.0 as int]
            }),
    {
        let ghost a0 = self@[auto.0 as int];
        let a = &mut self.autos[auto.0];
        a.action = action;
        a.flags.set(auto_action_finished(), false);
        a.action_time = TICK;
        proof {
            let a1 = AutoView { action, action_time: TICK, flags: a0.flags & !FINISHED_BIT, ..a0 };
            assert(self@ =~= old(self)@.update(auto.0 as int, a1));
            lemma_replace_ok(old(self)@, self.kinds, auto.0 as int, a1);
        }
    }

    pub fn get_auto_action(&self, auto: AutoNdx) -> (r: Action)
        requires
            self.has(auto),
        ensures
            r == self@[auto.0 as int].action,
    {
        self.autos[auto.0].action
    }

    /// The reason the last attempt of the current action of `auto` failed,
    /// if it did.
    pub fn stall_message(&self, auto: AutoNdx) -> (r: Option<String>)
        requires
            self.has(auto),
        ensures
            opt_view(r) == self@[auto.0 as int].stall_message,
    {
        match &self.autos[auto.0].stall_message {
            Some(m) => Some(m.clone()),
            None => None,
        }
    }

    /// Every handle of the arena, in order.
    pub fn auto_ndxes(&self) -> (r: Vec<AutoNdx>)
        ensures
            r@.len() == self@.len(),
            forall|i: int| 0 <= i < r@.len() ==> (#[trigger] r@[i]) == AutoNdx(i as usize),
    {
        let mut r: Vec<AutoNdx> = Vec::new();
        let mut i: usize = 0;
        while i < self.autos.len()
            invariant
                i <= self@.len(),
                self@.len() == self.autos.len(),
                r@.len() == i,
                forall|j: int| 0 <= j < i ==> (#[trigger] r@[j]) == AutoNdx(j as usize),
            decreases self.autos.len() - i,
        {
            r.push(AutoNdx(i));
            i = i + 1;
        }
        r
    }

    /// Marks the current action of `auto` as finished and resets its clock.
    pub fn finish_auto_action(&mut self, ndx: AutoNdx)
        requires
            old(self).wf(),
            old(self).has(ndx),
        ensures
            final(self).wf(),
            final(self).same_registries(old(self)),
            final(self)@ == old(self)@.update(ndx.0 as int, finished(old(self)@[ndx.0 as int])),
    {
        let ghost a0 = self@[ndx.0 as int];
        let a = &mut self.autos[ndx.0];
        a.flags.set(auto_action_finished(), true);
        a.action_time = 0;
        proof {
            assert(self@ =~= old(self)@.update(ndx.0 as int, finished(a0)));
            lemma_replace_ok(old(self)@, self.kinds, ndx.0 as int, finished(a0));
        }
    }

    /// Sets the terrain in cell `loc` of `space`; a cell outside its grid is ignored.
    pub fn set_tile(&mut self, space: AutoNdx, loc: IVec2, kind: Kind)
        requires
            old(self).wf(),
            old(self).has(space),
            old(self).kinds.valid(kind),
        ensures
            final(self).wf(),
            final(self).same_registries(old(self)),
            final(self)@ == old(self)@.update(space.0 as int, with_tile(old(self)@[space.0 as int], loc, kind)),
    {
        let ghost a0 = self@[space.0 as int];
        let a = &mut self.autos[space.0];
        let ndx = a.get_ndx(loc);
        if a.in_grid(loc) && ndx >= 0 && (ndx as u128) < (a.tiles.len() as u128) {
            a.tiles[ndx as usize] = kind;
        }
        proof {
            let a1 = with_tile(a0, loc, kind);
            assert(self@ =~= old(self)@.update(space.0 as int, a1));
            lemma_replace_ok(old(self)@, self.kinds, space.0 as int, a1);
        }
    }

    /// The terrain in cell `pos` of `parent`; nothing outside its grid.
    pub fn get_tile(&self, parent: AutoNdx, pos: IVec2) -> (r: Kind)
        requires
            self.has(parent),
        ensures
            r == self.spec_tile(parent, pos),
    {
        let p = &self.autos[parent.0];
        let ndx = p.get_ndx(pos);
        if p.in_grid(pos) && ndx >= 0 && (ndx as u128) < (p.tiles.len() as u128) {
            p.tiles[ndx as usize]
        } else {
            self.kinds.nothing()
        }
    }

    /// Covers the whole terrain grid of `space` with `tile_kind`.
    pub fn set_all_tiles(&mut self, space_ndx: AutoNdx, tile_kind: Kind)
        requires
            old(self).wf(),
            old(self).has(space_ndx),
            old(self).kinds.valid(tile_kind),
        ensures
            final(self).wf(),
            final(self).same_registries(old(self)),
            final(self)@ == old(self)@.update(space_ndx.0 as int, AutoView {
                tiles: Seq::new(old(self)@[space_ndx.0 as int].tiles.len(), |i: int| tile_kind),
                ..old(self)@[space_ndx.0 as int]
            }),
    {
        let ghost a0 = self@[space_ndx.0 as int];
        let a = &mut self.autos[space_ndx.0];
        let n = a.tiles.len();
        let mut i: usize = 0;
        while i < n
            invariant
                n == a.tiles.len(),
                i <= n,
                a@ == (AutoView { tiles: a@.tiles, ..a0 }),
                a@.tiles.len() == a0.tiles.len(),
                forall|j: int| 0 <= j < i ==> (#[trigger] a@.tiles[j]) == tile_kind,
                forall|j: int| i <= j < n ==> (#[trigger] a@.tiles[j]) == a0.tiles[j],
            decreases n - i,
        {
            a.tiles[i] = tile_kind;
            i = i + 1;
        }
        proof {
            let a1 = AutoView { tiles: Seq::new(a0.tiles.len(), |i: int| tile_kind), ..a0 };
            assert(a@.tiles =~= a1.tiles);
            assert(a@ == a1);
            assert(self@ =~= old(self)@.update(space_ndx.0 as int, a1));
            lemma_replace_ok(old(self)@, self.kinds, space_ndx.0 as int, a1);
        }
    }

    /// Moves `ndx` to `loc` in its parent.
    pub fn move_auto(&mut self, ndx: AutoNdx, loc: IVec2)
        requires
            old(self).wf(),
            old(self).has(ndx),
        ensures
            final(self).wf(),
            final(self).same_registries(old(self)),
            final(self)@ == old(self)@.update(ndx.0 as int, AutoView { loc, ..old(self)@[ndx.0 as int] }),
    {
        let ghost a0 = self@[ndx.0 as int];
        self.autos[ndx.0].loc = loc;
        proof {
            let a1 = AutoView { loc, ..a0 };
            assert(self@ =~= old(self)@.update(ndx.0 as int, a1));
            lemma_replace_ok(old(self)@, self.kinds, ndx.0 as int, a1);
        }
    }

    /// Turns the alive flag of `ndx` off.
    pub fn kill(&mut self, ndx: AutoNdx)
        requires
            old(self).wf(),
            old(self).has(ndx),
        ensures
            final(self).wf(),
            final(self).same_registries(old(self)),
            final(self)@ == old(self)@.update(ndx.0 as int, AutoView {
                flags: old(self)@[ndx.0 as int].flags & !ALIVE_BIT,
                ..old(self)@[ndx.0 as int]
            }),
    {
        let ghost a0 = self@[ndx.0 as int];
        self.autos[ndx.0].flags.set(auto_alive(), false);
        proof {
            let a1 = AutoView { flags: a0.flags & !ALIVE_BIT, ..a0 };
            assert(self@ =~= old(self)@.update(ndx.0 as int, a1));
            lemma_replace_ok(old(self)@, self.kinds, ndx.0 as int, a1);
        }
    }

    /// Writes `output` over the items of `ndx`, slot by slot; outputs beyond
    /// its slots are dropped and slots beyond the outputs are kept.
    pub fn overwrite_items(&mut self, ndx: AutoNdx, output: &Vec<Kind>)
        requires
            old(self).wf(),
            old(self).has(ndx),
            kinds_valid(old(self).kinds, output@),
        ensures
            final(self).wf(),
            final(self).same_registries(old(self)),
            final(self)@ == old(self)@.update(ndx.0 as int, AutoView {
                items: overwritten(old(self)@[ndx.0 as int].items, output@),
                ..old(self)@[ndx.0 as int]
            }),
    {
        let ghost a0 = self@[ndx.0 as int];
        let ghost target = overwritten(a0.items, output@);
        let a = &mut self.autos[ndx.0];
        let n = a.items.len();
        let mut i: usize = 0;
        while i < n && i < output.len()
            invariant
                n == a.items.len(),
                a@ == (AutoView { items: a@.items, ..a0 }),
                a@.items.len() == a0.items.len(),
                target == overwritten(a0.items, output@),
                i <= n,
                forall|j: int| 0 <= j < i ==> (#[trigger] a@.items[j]) == target[j],
                forall|j: int| i <= j < n ==> (#[trigger] a@.items[j]) == a0.items[j],
            decreases n - i,
        {
            a.items[i] = output[i];
            i = i + 1;
        }
        proof {
            let a1 = AutoView { items: target, ..a0 };
            assert(a@.items =~= target);
            assert(a@ == a1);
            assert(self@ =~= old(self)@.update(ndx.0 as int, a1));
            assert(auto_ok(a0, self.kinds, self@.len()));
            assert forall|j: int| 0 <= j < target.len() implies self.kinds.valid(#[trigger] target[j]) by {
                if j < output@.len() {
                    assert(self.kinds.valid(output@[j]));
                } else {
                    assert(self.kinds.valid(a0.items[j]));
                }
            }
            lemma_replace_ok(old(self)@, self.kinds, ndx.0 as int, a1);
        }
    }

    /// Sets the action clock of `ndx`.
    pub fn set_action_time(&mut self, ndx: AutoNdx, t: u64)
        requires
            old(self).wf(),
            old(self).has(ndx),
            t <= TICK,
        ensures
            final(self).wf(),
            final(self).same_registries(old(self)),
            final(self)@ == old(self)@.update(ndx.0 as int, AutoView { action_time: t, ..old(self)@[ndx.0 as int] }),
    {
        let ghost a0 = self@[ndx.0 as int];
        self.autos[ndx.0].action_time = t;
        proof {
            let a1 = AutoView { action_time: t, ..a0 };
            assert(self@ =~= old(self)@.update(ndx.0 as int, a1));
            lemma_replace_ok(old(self)@, self.kinds, ndx.0 as int, a1);
        }
    }

    /// Records the outcome of the last attempt of the action of `ndx`.
    pub fn set_stall_message(&mut self, ndx: AutoNdx, m: Option<String>)
        requires
            old(self).wf(),
            old(self).has(ndx),
        ensures
            final(self).wf(),
            final(self).same_registries(old(self)),
            final(self)@ == old(self)@.update(ndx.0 as int, AutoView { stall_message: opt_view(m), ..old(self)@[ndx.0 as int] }),
    {
        let ghost a0 = self@[ndx.0 as int];
        self.autos[ndx.0].stall_message = m;
        proof {
            let a1 = AutoView { stall_message: opt_view(m), ..a0 };
            assert(self@ =~= old(self)@.update(ndx.0 as int, a1));
            lemma_replace_ok(old(self)@, self.kinds, ndx.0 as int, a1);
        }
    }

    /// A copy of the items of `auto`.
    pub fn get_items(&self, auto: AutoNdx) -> (r: Vec<Kind>)
        requires
            self.has(auto),
        ensures
            r@ == self@[auto.0 as int].items,
    {
        crate::pattern::copy_kinds(&self.autos[auto.0].items)
    }

    /// The first pattern for `kind` that accepts `holding`.
    pub fn get_pattern(&self, kind: Kind, holding: &Vec<Kind>) -> (r: Option<Pattern>)
        ensures
            match r {
                Some(p) => first_fit(self.patterns@, kind, holding@) == Some(p@),
                None => first_fit(self.patterns@, kind, holding@).is_none(),
            },
    {
        self.patterns.get(kind, holding)
    }

    /// Whether an actor of kind `auto` can enter `pos` of `parent`.
    pub fn traction_valid(&self, parent: AutoNdx, auto: Kind, pos: IVec2) -> (r: bool)
        requires
            self.wf(),
            self.has(parent),
            self.kinds.valid(auto),
        ensures
            r == self.spec_traction_valid(parent, auto, pos),
    {
        let actor = self.kinds.get_data(auto);
        let ground = self.get_tile(parent, pos);
        proof {
            let p = self@[parent.0 as int];
            assert(auto_ok(p, self.kinds, self@.len()));
            let i = flat_index(p.dim, pos);
            if 0 <= i < p.tiles.len() {
                assert(self.kinds.valid(p.tiles[i]));
            }
        }
        let ground = self.kinds.get_data(ground);
        actor.traction > ground.traction
    }

    /// The children of `parent` whose grids cover `loc`, each with `loc` in
    /// the child's own coordinates, in child order.
    pub fn get_slots(&self, parent_ndx: AutoNdx, loc: IVec2) -> (r: Vec<Slot>)
        requires
            self.wf(),
            self.has(parent_ndx),
        ensures
            r@ == self.spec_slots(parent_ndx, loc),
    {
        let mut ndxes: Vec<Slot> = Vec::new();
        let children = &self.autos[parent_ndx.0].children;
        let ghost cs = self@[parent_ndx.0 as int].children;
        let mut i: usize = 0;
        while i < children.len()
            invariant
                self.wf(),
                self.has(parent_ndx),
                children@ == cs,
                cs == self@[parent_ndx.0 as int].children,
                i <= cs.len(),
                ndxes@ == slots_from(self@, parent_ndx, cs.take(i as int), loc),
            decreases children.len() - i,
        {
            let ndx = children[i];
            proof {
                assert(cs.take(i + 1).drop_last() =~= cs.take(i as int));
                assert(cs[i as int] == self@[parent_ndx.0 as int].children[i as int]);
            }
            let auto = &self.autos[ndx.0];
            if auto.parent == parent_ndx {
                let dx = loc.x as i64 - auto.loc.x as i64;
                let dy = loc.y as i64 - auto.loc.y as i64;
                if 0 <= dx && dx < auto.dim.x as i64 && 0 <= dy && dy < auto.dim.y as i64 {
                    ndxes.push(Slot(ndx, IVec2::new(dx as i32, dy as i32)));
                }
            }
            i = i + 1;
        }
        proof {
            assert(cs.take(cs.len() as int) =~= cs);
        }
        ndxes
    }

    /// The autos whose parent is `parent_ndx` and whose location is exactly
    /// `loc`, each once, in handle order.
    pub fn get_autos_at(&self, parent_ndx: AutoNdx, loc: IVec2) -> (r: Vec<AutoNdx>)
        ensures
            forall|i: int, j: int| 0 <= i < j < r@.len() ==> (#[trigger] r@[i]).0 < (#[trigger] r@[j]).0,
            forall|i: int| 0 <= i < r@.len() ==> {
                let c = #[trigger] r@[i];
                &&& c.0 < self@.len()
                &&& self@[c.0 as int].parent == parent_ndx
                &&& self@[c.0 as int].loc == loc
            },
            forall|c: int| 0 <= c < self@.len() && self@[c].parent == parent_ndx && self@[c].loc == loc ==> r@.contains(
                AutoNdx(c as usize),
            ),
    {
        let mut ndxes: Vec<AutoNdx> = Vec::new();
        let mut i: usize = 0;
        while i < self.autos.len()
            invariant
                i <= self@.len(),
                self@.len() == self.autos.len(),
                forall|a: int, b: int| 0 <= a < b < ndxes@.len() ==> (#[trigger] ndxes@[a]).0 < (#[trigger] ndxes@[b]).0,
                forall|k: int| 0 <= k < ndxes@.len() ==> {
                    let c = #[trigger] ndxes@[k];
                    &&& c.0 < i
                    &&& self@[c.0 as int].parent == parent_ndx
                    &&& self@[c.0 as int].loc == loc
                },
                forall|c: int| 0 <= c < i && self@[c].parent == parent_ndx && self@[c].loc == loc ==> ndxes@.contains(
                    AutoNdx(c as usize),
                ),
            decreases self.autos.len() - i,
        {
            let a = &self.autos[i];
            if a.parent == parent_ndx && a.loc == loc {
                let ghost before = ndxes@;
                ndxes.push(AutoNdx(i));
                proof {
                    assert forall|c: int| 0 <= c < i + 1 && self@[c].parent == parent_ndx && self@[c].loc == loc implies ndxes@.contains(
                        AutoNdx(c as usize),
                    ) by {
                        if c < i {
                            let k = choose|k: int| 0 <= k < before.len() && before[k] == AutoNdx(c as usize);
                            assert(ndxes@[k] == before[k]);
                        } else {
                            assert(ndxes@[before.len() as int] == AutoNdx(c as usize));
                        }
                    }
                }
            }
            i = i + 1;
        }
        ndxes
    }

    fn slot_serves(&self, slot: Slot, actor: AutoNdx, target: Kind, item: Kind) -> (r: bool)
        requires
            self.has(slot.0),
        ensures
            r == (slot.0 != actor && kinds_match(self@[slot.0.0 as int].kind, target) && item_ok(
                item_at(self@[slot.0.0 as int], slot.1),
                item,
            )),
    {
        if slot.0 == actor {
            return false;
        }
        let other = &self.autos[slot.0.0];
        if !other.kind.matches(target) {
            return false;
        }
        let there = other.get_item(slot.1);
        there.matches(item) && (there.0 != NOTHING || item.0 == NOTHING)
    }

    /// Resolves the slot that a pick or place by `auto_ndx` reads or writes.
    /// A target of nothing is the ground under the actor; otherwise the first
    /// slot under the actor, on another auto matching `target_kind`, whose
    /// item serves `item_kind`, falling back to the ground for the wildcard.
    /// The chosen slot is checked once more against `item_kind`.
    pub fn pick_place_target(&self, auto_ndx: AutoNdx, target_kind: Kind, item_kind: Kind) -> (r: Option<Slot>)
        requires
            self.wf(),
            self.has(auto_ndx),
        ensures
            r == self.spec_target(auto_ndx, target_kind, item_kind),
            match r {
                Some(s) => self.has(s.0),
                None => true,
            },
    {
        let auto = &self.autos[auto_ndx.0];
        let parent_ndx = auto.parent;
        let loc = auto.loc;
        proof {
            assert(auto_ok(self@[auto_ndx.0 as int], self.kinds, self@.len()));
        }
        let mut result: Option<Slot> = None;
        if target_kind.0 == NOTHING {
            result = Some(Slot(parent_ndx, loc));
        } else {
            let slots = self.get_slots(parent_ndx, loc);
            let ghost ss = slots@;
            let mut i: usize = 0;
            proof {
                assert(ss.subrange(0, ss.len() as int) =~= ss);
                assert forall|k: int| 0 <= k < ss.len() implies self.has((#[trigger] ss[k]).0) by {
                    lemma_slots_in_arena(self@, parent_ndx, self@[parent_ndx.0 as int].children, loc, k);
                }
            }
            while i < slots.len()
                invariant_except_break
                    result.is_none(),
                invariant
                    self.wf(),
                    slots@ == ss,
                    i <= ss.len(),
                    forall|k: int| 0 <= k < ss.len() ==> self.has((#[trigger] ss[k]).0),
                    first_target(self@, ss, auto_ndx, target_kind, item_kind)
                        == first_target(self@, ss.subrange(i as int, ss.len() as int), auto_ndx, target_kind, item_kind),
                ensures
                    result == first_target(self@, ss, auto_ndx, target_kind, item_kind),
                decreases slots.len() - i,
            {
                let slot = slots[i];
                let ghost rest = ss.subrange(i as int, ss.len() as int);
                proof {
                    assert(rest[0] == slot);
                    assert(rest.drop_first() =~= ss.subrange(i + 1, ss.len() as int));
                }
                if self.slot_serves(slot, auto_ndx, target_kind, item_kind) {
                    result = Some(slot);
                    break;
                }
                i = i + 1;
            }
            proof {
                if let Some(s) = result {
                    lemma_first_target_in(self@, ss, auto_ndx, target_kind, item_kind);
                }
            }
            if target_kind.0 == WILDCARD && result.is_none() {
                result = Some(Slot(parent_ndx, loc));
            }
        }
        if let Some(result_slot) = result {
            let item_there = self.autos[result_slot.0.0].get_item(result_slot.1);
            if !item_there.matches(item_kind) || (item_there.0 == NOTHING && item_kind.0 != NOTHING) {
                result = None;
            }
        }
        result
    }
}

/// Each slot the children give belongs to one of those children.
pub proof fn lemma_slots_in_arena(autos: Seq<AutoView>, parent: AutoNdx, cs: Seq<AutoNdx>, loc: IVec2, k: int)
    requires
        forall|j: int| 0 <= j < cs.len() ==> (#[trigger] cs[j]).0 < autos.len(),
        0 <= k < slots_from(autos, parent, cs, loc).len(),
    ensures
        slots_from(autos, parent, cs, loc)[k].0.0 < autos.len(),
    decreases cs.len(),
{
    let r = slots_from(autos, parent, cs.drop_last(), loc);
    if k < r.len() {
        lemma_slots_in_arena(autos, parent, cs.drop_last(), loc, k);
    } else {
        assert(cs[cs.len() - 1] == cs.last());
    }
}

/// A slot that `first_target` finds is one of the given slots.
pub proof fn lemma_first_target_in(autos: Seq<AutoView>, slots: Seq<Slot>, actor: AutoNdx, target: Kind, item: Kind)
    ensures
        match first_target(autos, slots, actor, target, item) {
            Some(s) => slots.contains(s),
            None => true,
        },
    decreases slots.len(),
{
    if slots.len() > 0 {
        lemma_first_target_in(autos, slots.drop_first(), actor, target, item);
        if let Some(s) = first_target(autos, slots.drop_first(), actor, target, item) {
            let i = choose|i: int| 0 <= i < slots.drop_first().len() && slots.drop_first()[i] == s;
            assert(slots[i + 1] == s);
        }
    }
}


/// One entry of an auto creation record.
#[derive(Debug)]
pub enum AutoField {
    /// The name of the auto's kind.
    Kind(String),
    /// The handle of the auto's parent.
    Parent(usize),
    /// The name of the auto's force.
    Force(String),
    /// The name of a terrain kind that covers the auto's whole grid.
    Tile(String),
    Dim(i32, i32),
    Loc(i32, i32),
    /// A key the record does not know, or a malformed value: ignored.
    Other,
}

/// What an auto creation record has set so far.
pub struct AutoRecord {
    pub kind: Kind,
    pub parent: AutoNdx,
    pub force: ForceNdx,
    pub tile: Kind,
    pub dim: IVec2,
    pub loc: IVec2,
}

/// The settings of an auto creation record, read in order; for a repeated
/// key the last one counts.
pub open spec fn read_record(kinds: Kinds, forces: Forces, fs: Seq<AutoField>) -> AutoRecord
    decreases fs.len(),
{
    if fs.len() == 0 {
        AutoRecord {
            kind: Kind(NOTHING),
            parent: AutoNdx(0),
            force: ForceNdx(crate::force::FORCELESS),
            tile: Kind(NOTHING),
            dim: IVec2 { x: 0, y: 0 },
            loc: IVec2 { x: 0, y: 0 },
        }
    } else {
        let r = read_record(kinds, forces, fs.drop_last());
        match fs.last() {
            AutoField::Kind(n) => AutoRecord { kind: kinds.spec_get(n@), ..r },
            AutoField::Parent(p) => AutoRecord { parent: AutoNdx(p), ..r },
            AutoField::Force(n) => AutoRecord { force: forces.spec_get(n@), ..r },
            AutoField::Tile(n) => AutoRecord { tile: kinds.spec_get(n@), ..r },
            AutoField::Dim(x, y) => AutoRecord { dim: IVec2 { x, y }, ..r },
            AutoField::Loc(x, y) => AutoRecord { loc: IVec2 { x, y }, ..r },
            AutoField::Other => r,
        }
    }
}

/// The auto that a creation record describes, before creation fills it in.
pub open spec fn auto_of_record(kinds: Kinds, forces: Forces, fs: Seq<AutoField>) -> AutoView {
    let r = read_record(kinds, forces, fs);
    let bare = AutoView {
        kind: r.kind,
        parent: r.parent,
        children: Seq::empty(),
        force: r.force,
        items: Seq::empty(),
        tiles: Seq::empty(),
        dim: r.dim,
        action: Action::Stop,
        loc: r.loc,
        action_time: 0,
        stall_message: None,
        flags: 0,
    };
    if r.tile.0 != NOTHING {
        AutoView { tiles: Seq::new(area(crate::auto::footprint(bare, kinds)), |i: int| r.tile), ..bare }
    } else {
        bare
    }
}

impl Auto {
    /// Reads an auto creation record: kind, parent, force, footprint and
    /// location, each name resolved in the world's registries; a `tile`
    /// entry fills the auto's whole terrain grid with that kind.
    pub fn from_val(val: &Vec<AutoField>, world: &World) -> (r: Auto)
        requires
            world.kinds.wf(),
            world.forces.wf(),
        ensures
            r@ == auto_of_record(world.kinds, world.forces, val@),
            world.kinds.valid(r.kind),
            kinds_valid(world.kinds, r@.tiles),
    {
        let mut kind = Kind(NOTHING);
        let mut parent = AutoNdx(0);
        let mut force = ForceNdx(crate::force::FORCELESS);
        let mut tile = Kind(NOTHING);
        let mut dim = IVec2::new(0, 0);
        let mut loc = IVec2::new(0, 0);
        let mut i: usize = 0;
        while i < val.len()
            invariant
                world.kinds.wf(),
                world.forces.wf(),
                i <= val.len(),
                read_record(world.kinds, world.forces, val@.take(i as int)) == (AutoRecord { kind, parent, force, tile, dim, loc }),
                world.kinds.valid(kind),
                world.kinds.valid(tile),
            decreases val.len() - i,
        {
            proof {
                assert(val@.take(i + 1).drop_last() =~= val@.take(i as int));
            }
            match &val[i] {
                AutoField::Kind(n) => {
                    kind = world.kinds.get(n.as_str());
                },
                AutoField::Parent(p) => {
                    parent = AutoNdx(*p);
                },
                AutoField::Force(n) => {
                    force = world.forces.get(n.as_str());
                },
                AutoField::Tile(n) => {
                    tile = world.kinds.get(n.as_str());
                },
                AutoField::Dim(x, y) => {
                    dim = IVec2::new(*x, *y);
                },
                AutoField::Loc(x, y) => {
                    loc = IVec2::new(*x, *y);
                },
                AutoField::Other => {},
            }
            i = i + 1;
        }
        proof {
            assert(val@.take(val.len() as int) =~= val@);
        }
        let mut auto = Auto {
            kind,
            parent,
            children: Vec::new(),
            force,
            items: Vec::new(),
            tiles: Vec::new(),
            dim,
            action: Action::Stop,
            loc,
            action_time: 0,
            stall_message: None,
            flags: crate::bitfield::BitField::new(),
        };
        proof {
            assert(auto@.items =~= Seq::empty());
            assert(auto@.tiles =~= Seq::empty());
        }
        let ghost bare = auto@;
        if tile.0 != NOTHING {
            let fp = if dim.x == 0 || dim.y == 0 {
                world.kinds.get_data(kind).item_dim
            } else {
                dim
            };
            let n: usize = if fp.x > 0 && fp.y > 0 {
                assert(0 < fp.x as int * fp.y as int <= 0x4000_0000_0000_0000) by (nonlinear_arith)
                    requires
                        0 < fp.x <= 0x7fff_ffff,
                        0 < fp.y <= 0x7fff_ffff,
                ;
                let a = fp.x as u64 * fp.y as u64;
                if a <= usize::MAX as u64 {
                    a as usize
                } else {
                    0
                }
            } else {
                0
            };
            let mut j: usize = 0;
            while j < n
                invariant
                    j <= n,
                    auto.tiles@.len() == j,
                    forall|k: int| 0 <= k < j ==> (#[trigger] auto.tiles@[k]) == tile,
                    auto@ == (AutoView { tiles: auto@.tiles, ..bare }),
                decreases n - j,
            {
                auto.tiles.push(tile);
                j = j + 1;
            }
            proof {
                assert(auto.tiles@ =~= Seq::new(n as nat, |k: int| tile));
            }
        }
        auto
    }
}

impl World {
    /// Creates the auto that a creation record describes, and returns its
    /// handle; `None`, with nothing created, when the record names a parent
    /// beyond the next free handle.
    pub fn create_auto_from_val(&mut self, val: &Vec<AutoField>) -> (r: Option<AutoNdx>)
        requires
            old(self).wf(),
        ensures
            final(self).wf(),
            final(self).same_registries(old(self)),
            ({
                let new = auto_of_record(old(self).kinds, old(self).forces, val@);
                match r {
                    Some(ndx) => new.parent.0 <= old(self)@.len() && ndx == AutoNdx(old(self)@.len() as usize)
                        && final(self)@ == spec_create(old(self)@, old(self).kinds, new),
                    None => new.parent.0 > old(self)@.len() && final(self)@ == old(self)@,
                }
            }),
    {
        let new = Auto::from_val(val, self);
        if new.parent.0 > self.autos.len() {
            return None;
        }
        proof {
            assert(kinds_valid(self.kinds, new@.items));
        }
        Some(self.create_auto(new))
    }
}

} // verus!
