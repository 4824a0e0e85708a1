use vstd::prelude::*;

use crate::act::Action;
use crate::bitfield::{BFNDX, BitField};
use crate::dir::IVec2;
use crate::force::{ForceNdx, FORCELESS};
use crate::kind::{Kind, Kinds, NOTHING};

verus! {

/// Length of one tick on the action clock, in thousandths of a time unit.
pub const TICK: u64 = 1000;

/// Mask of the flag that marks an auto as existing.
pub const EXISTS_BIT: u64 = 1;

/// Mask of the flag that marks an auto as alive.
pub const ALIVE_BIT: u64 = 2;

/// Mask of the flag that marks an auto's current action as finished.
pub const FINISHED_BIT: u64 = 4;

/// The flag that marks an auto as existing.
pub fn auto_exists() -> (r: BFNDX)
    ensures
        r.0 == EXISTS_BIT,
{
    BFNDX(EXISTS_BIT)
}

/// The flag that marks an auto as alive.
pub fn auto_alive() -> (r: BFNDX)
    ensures
        r.0 == ALIVE_BIT,
{
    BFNDX(ALIVE_BIT)
}

/// The flag that marks an auto's current action as finished.
pub fn auto_action_finished() -> (r: BFNDX)
    ensures
        r.0 == FINISHED_BIT,
{
    BFNDX(FINISHED_BIT)
}

/// A stable handle to an auto in the world's arena.
#[derive(Clone, Copy, Debug, Default, PartialEq, Eq, Hash, Structural)]
pub struct AutoNdx(pub usize);

/// A grid container entity: a rectangle of item slots over a parallel
/// rectangle of terrain, placed inside its parent.
#[derive(Debug)]
pub struct Auto {
    pub kind: Kind,
    pub parent: AutoNdx,
    pub children: Vec<AutoNdx>,
    pub force: ForceNdx,
    /// Row-major item slots; slot 0 is the held item.
    pub items: Vec<Kind>,
    /// Row-major terrain under the item slots.
    pub tiles: Vec<Kind>,
    pub dim: IVec2,
    pub action: Action,
    pub loc: IVec2,
    /// Time since the current action was last attempted, in thousandths of
    /// a time unit.
    pub action_time: u64,
    pub stall_message: Option<String>,
    pub flags: BitField,
}

impl Default for Auto {
    /// An auto of the nothing kind at the origin of the root, of no force,
    /// with empty grids, no footprint, and the `Stop` action.
    fn default() -> (r: Auto)
        ensures
            r@ == (AutoView {
                kind: Kind(NOTHING),
                parent: AutoNdx(0),
                children: Seq::empty(),
                force: ForceNdx(FORCELESS),
                items: Seq::empty(),
                tiles: Seq::empty(),
                dim: IVec2 { x: 0, y: 0 },
                action: Action::Stop,
                loc: IVec2 { x: 0, y: 0 },
                action_time: 0,
                stall_message: None,
                flags: 0,
            }),
    {
        let r = Auto {
            kind: Kind(NOTHING),
            parent: AutoNdx(0),
            children: Vec::new(),
            force: ForceNdx(FORCELESS),
            items: Vec::new(),
            tiles: Vec::new(),
            dim: IVec2::new(0, 0),
            action: Action::Stop,
            loc: IVec2::new(0, 0),
            action_time: 0,
            stall_message: None,
            flags: BitField::new(),
        };
        assert(r@.children =~= Seq::empty());
        assert(r@.items =~= Seq::empty());
        assert(r@.tiles =~= Seq::empty());
        r
    }
}

/// An auto as mathematical values.
pub struct AutoView {
    pub kind: Kind,
    pub parent: AutoNdx,
    pub children: Seq<AutoNdx>,
    pub force: ForceNdx,
    pub items: Seq<Kind>,
    pub tiles: Seq<Kind>,
    pub dim: IVec2,
    pub action: Action,
    pub loc: IVec2,
    pub action_time: u64,
    pub stall_message: Option<Seq<char>>,
    pub flags: u64,
}

/// The characters of an optional message.
pub open spec fn opt_view(m: Option<String>) -> Option<Seq<char>> {
    match m {
        Some(s) => Some(s@),
        None => None,
    }
}

impl View for Auto {
    type V = AutoView;

    open spec fn view(&self) -> AutoView {
        AutoView {
            kind: self.kind,
            parent: self.parent,
            children: self.children@,
            force: self.force,
            items: self.items@,
            tiles: self.tiles@,
            dim: self.dim,
            action: self.action,
            loc: self.loc,
            action_time: self.action_time,
            stall_message: opt_view(self.stall_message),
            flags: self.flags.0,
        }
    }
}

/// The number of slots of a grid of size `dim`; none when a side is not
/// positive, or when the product is beyond what memory can index.
pub open spec fn area(dim: IVec2) -> nat {
    if dim.x > 0 && dim.y > 0 && dim.x * dim.y <= usize::MAX {
        (dim.x * dim.y) as nat
    } else {
        0
    }
}

/// The flat slot index of a local coordinate: `x + y * width`.
pub open spec fn flat_index(dim: IVec2, loc: IVec2) -> int {
    loc.x + loc.y * dim.x
}

/// Whether `p` lies in a grid of size `dim`.
pub open spec fn in_rect(dim: IVec2, p: IVec2) -> bool {
    0 <= p.x < dim.x && 0 <= p.y < dim.y
}

/// Whether `loc` names a cell of a grid of size `dim` whose flat index is
/// below `len`.
pub open spec fn cell_in(dim: IVec2, loc: IVec2, len: nat) -> bool {
    in_rect(dim, loc) && 0 <= flat_index(dim, loc) < len
}

/// The item in slot `loc` of an auto, or nothing outside its grid.
pub open spec fn item_at(a: AutoView, loc: IVec2) -> Kind {
    let i = flat_index(a.dim, loc);
    if cell_in(a.dim, loc, a.items.len()) {
        a.items[i]
    } else {
        Kind(NOTHING)
    }
}

/// An auto with the item in slot `loc` replaced; unchanged outside its grid.
pub open spec fn with_item(a: AutoView, loc: IVec2, k: Kind) -> AutoView {
    let i = flat_index(a.dim, loc);
    if cell_in(a.dim, loc, a.items.len()) {
        AutoView { items: a.items.update(i, k), ..a }
    } else {
        a
    }
}

/// The terrain in cell `loc` of an auto, or nothing outside its grid.
pub open spec fn tile_at(a: AutoView, loc: IVec2) -> Kind {
    let i = flat_index(a.dim, loc);
    if cell_in(a.dim, loc, a.tiles.len()) {
        a.tiles[i]
    } else {
        Kind(NOTHING)
    }
}

/// An auto with the terrain in cell `loc` replaced; unchanged outside its grid.
pub open spec fn with_tile(a: AutoView, loc: IVec2, k: Kind) -> AutoView {
    let i = flat_index(a.dim, loc);
    if cell_in(a.dim, loc, a.tiles.len()) {
        AutoView { tiles: a.tiles.update(i, k), ..a }
    } else {
        a
    }
}

/// `s` cut or padded with nothing to length `n`.
pub open spec fn resized(s: Seq<Kind>, n: nat) -> Seq<Kind> {
    Seq::new(n, |i: int| if i < s.len() { s[i] } else { Kind(NOTHING) })
}

/// The footprint an auto takes when created: its own, or its kind's when a
/// side of its own is zero.
pub open spec fn footprint(a: AutoView, kinds: Kinds) -> IVec2 {
    if a.dim.x == 0 || a.dim.y == 0 {
        kinds@.data[a.kind.0 as int].item_dim
    } else {
        a.dim
    }
}

/// An auto as `initalize` fills it in: footprint, alive flag, and item and
/// terrain grids of the footprint's size.
pub open spec fn initialized(a: AutoView, kinds: Kinds) -> AutoView {
    let dim = footprint(a, kinds);
    AutoView {
        dim,
        flags: a.flags | ALIVE_BIT,
        items: resized(a.items, area(dim)),
        tiles: resized(a.tiles, area(dim)),
        ..a
    }
}

/// Whether the flag with mask `bit` is on.
pub open spec fn has_flag(a: AutoView, bit: u64) -> bool {
    a.flags & bit != 0
}

fn resize_kinds(v: &mut Vec<Kind>, n: usize)
    ensures
        final(v)@ == resized(old(v)@, n as nat),
{
    if n <= v.len() {
        v.truncate(n);
        assert(v@ =~= resized(old(v)@, n as nat));
    } else {
        let mut i: usize = v.len();
        while i < n
            invariant
                old(v).len() <= i <= n,
                v@.len() == i,
                forall|j: int| 0 <= j < i ==> (#[trigger] v@[j]) == resized(old(v)@, n as nat)[j],
            decreases n - i,
        {
            v.push(Kind(NOTHING));
            i = i + 1;
        }
        assert(v@ =~= resized(old(v)@, n as nat));
    }
}

impl Auto {
    /// Whether `loc` lies in this auto's grid.
    pub fn in_grid(&self, loc: IVec2) -> (r: bool)
        ensures
            r == in_rect(self.dim, loc),
    {
        0 <= loc.x && loc.x < self.dim.x && 0 <= loc.y && loc.y < self.dim.y
    }

    /// Whether `loc` names one of this auto's item slots.
    pub fn has_slot(&self, loc: IVec2) -> (r: bool)
        ensures
            r == cell_in(self.dim, loc, self.items@.len()),
    {
        let ndx = self.get_ndx(loc);
        self.in_grid(loc) && ndx >= 0 && (ndx as u128) < (self.items.len() as u128)
    }

    /// The flat index of a local coordinate, `x + y * width`.
    pub fn get_ndx(&self, loc: IVec2) -> (r: i64)
        ensures
            r == flat_index(self.dim, loc),
    {
        assert(-0x4000_0000_0000_0000 <= loc.y as int * self.dim.x as int <= 0x4000_0000_0000_0000) by (nonlinear_arith)
            requires
                -0x8000_0000 <= loc.y <= 0x7fff_ffff,
                -0x8000_0000 <= self.dim.x <= 0x7fff_ffff,
        ;
        loc.x as i64 + loc.y as i64 * self.dim.x as i64
    }

    /// The item in slot `loc`; nothing outside the grid.
    pub fn get_item(&self, loc: IVec2) -> (r: Kind)
        ensures
            r == item_at(self@, loc),
    {
        let ndx = self.get_ndx(loc);
        if self.in_grid(loc) && ndx >= 0 && (ndx as u128) < (self.items.len() as u128) {
            self.items[ndx as usize]
        } else {
            Kind(NOTHING)
        }
    }

    /// Whether slot `loc` holds something other than nothing.
    pub fn has_item(&self, loc: IVec2) -> (r: bool)
        ensures
            r == (item_at(self@, loc).0 != NOTHING),
    {
        let ndx = self.get_ndx(loc);
        if self.in_grid(loc) && ndx >= 0 && (ndx as u128) < (self.items.len() as u128) {
            self.items[ndx as usize].0 != NOTHING
        } else {
            false
        }
    }

    /// Puts `item` in slot `loc`; a slot outside the grid is ignored.
    pub fn set_item(&mut self, loc: IVec2, item: Kind)
        ensures
            final(self)@ == with_item(old(self)@, loc, item),
    {
        let ndx = self.get_ndx(loc);
        if self.in_grid(loc) && ndx >= 0 && (ndx as u128) < (self.items.len() as u128) {
            self.items[ndx as usize] = item;
        }
    }

    /// The local coordinate of flat slot index `ndx`.
    pub fn ndx_to_loc(&self, ndx: usize) -> (r: IVec2)
        requires
            self.dim.x > 0,
            ndx <= i32::MAX,
        ensures
            r.x == ndx as int % self.dim.x as int,
            r.y == ndx as int / self.dim.x as int,
            flat_index(self.dim, r) == ndx,
    {
        let n = ndx as i32;
        let r = IVec2::new(n % self.dim.x, n / self.dim.x);
        assert(flat_index(self.dim, r) == ndx) by (nonlinear_arith)
            requires
                r.x == n as int % self.dim.x as int,
                r.y == n as int / self.dim.x as int,
                self.dim.x > 0,
                n == ndx,
                n >= 0,
        ;
        r
    }

    /// This auto as created: the footprint of its kind where a side of its
    /// own is zero, the alive flag on, and item and terrain grids cut or
    /// padded with nothing to the footprint's area.
    pub fn initalize(self, kinds: &Kinds) -> (r: Auto)
        requires
            kinds.valid(self.kind),
        ensures
            r@ == initialized(self@, *kinds),
    {
        let mut new = self;
        if new.dim.x == 0 || new.dim.y == 0 {
            new.dim = kinds.get_data(new.kind).item_dim;
        }
        new.flags.set(auto_alive(), true);
        let num_items: usize = if new.dim.x > 0 && new.dim.y > 0 {
            assert(0 < new.dim.x as int * new.dim.y as int <= 0x4000_0000_0000_0000) by (nonlinear_arith)
                requires
                    0 < new.dim.x <= 0x7fff_ffff,
                    0 < new.dim.y <= 0x7fff_ffff,
            ;
            let a = new.dim.x as u64 * new.dim.y as u64;
            if a <= usize::MAX as u64 {
                a as usize
            } else {
                0
            }
        } else {
            0
        };
        resize_kinds(&mut new.items, num_items);
        resize_kinds(&mut new.tiles, num_items);
        new
    }
}

} // verus!
