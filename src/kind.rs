use vstd::prelude::*;
use vstd::string::*;

use crate::dir::IVec2;
use crate::names::{table_find, table_map, table_take_out, table_unique, lemma_lookup_at, lemma_table_push};
use crate::text::{str_eq, string_of, append_str};

verus! {

/// Index of the reserved "nothing" kind: empty slots and open ground.
pub const NOTHING: usize = 0;

/// Index of the reserved wildcard kind, which matches every kind.
pub const WILDCARD: usize = 1;

/// A type of tile, item or auto, identified by its index in the registry.
#[derive(Clone, Copy, Debug, Default, PartialEq, Eq, Hash, Structural)]
pub struct Kind(pub usize);

/// Whether two kinds match: equal, or one of them is the wildcard.
pub open spec fn kinds_match(a: Kind, b: Kind) -> bool {
    a.0 == b.0 || a.0 == WILDCARD || b.0 == WILDCARD
}

impl Kind {
    pub fn matches(&self, other: Kind) -> (r: bool)
        ensures
            r == kinds_match(*self, other),
    {
        self.0 == other.0 || other.0 == WILDCARD || self.0 == WILDCARD
    }
}


/// Matching is reflexive; the wildcard matches every kind from either
/// side; two different kinds, neither of them the wildcard, never match.
pub proof fn lemma_matches_laws(a: Kind, b: Kind)
    ensures
        kinds_match(a, a),
        kinds_match(Kind(WILDCARD), a),
        kinds_match(a, Kind(WILDCARD)),
        a != b && a.0 != WILDCARD && b.0 != WILDCARD ==> !kinds_match(a, b),
{
}

/// The part a kind plays in the world.
#[derive(Clone, Copy, Debug, Default, PartialEq, Eq, Hash, Structural)]
pub enum KindRole {
    Tile,
    #[default]
    Item,
    Auto,
}

/// Metadata shared by every tile, item or auto of one kind.
#[derive(Debug, Default)]
pub struct KindData {
    pub name: String,
    /// Path of the scene that draws this kind; not read by the simulation.
    pub scene: String,
    /// Grid footprint of an auto of this kind.
    pub item_dim: IVec2,
    /// Script fragment attached to the kind, kept as its source text.
    pub program: String,
    /// Higher means harder terrain to cross, or a sturdier vehicle.
    pub traction: i32,
    pub role: KindRole,
}

/// What a `KindData` holds, as mathematical values.
pub struct KindInfo {
    pub name: Seq<char>,
    pub scene: Seq<char>,
    pub item_dim: IVec2,
    pub program: Seq<char>,
    pub traction: i32,
    pub role: KindRole,
}

impl View for KindData {
    type V = KindInfo;

    open spec fn view(&self) -> KindInfo {
        KindInfo {
            name: self.name@,
            scene: self.scene@,
            item_dim: self.item_dim,
            program: self.program@,
            traction: self.traction,
            role: self.role,
        }
    }
}

/// One entry of a kind definition record.
#[derive(Debug)]
pub enum KindField {
    /// Renames the kind.
    Name(String),
    /// `tile`, `item` or `auto`; any other word reads as `item`.
    Role(String),
    Scene(String),
    Dim(i32, i32),
    Traction(i32),
    Program(String),
    /// A key the registry does not know, or a malformed value: ignored.
    Other,
}

/// A kind definition entry as mathematical values.
pub enum FieldView {
    Name(Seq<char>),
    Role(Seq<char>),
    Scene(Seq<char>),
    Dim(i32, i32),
    Traction(i32),
    Program(Seq<char>),
    Other,
}

impl View for KindField {
    type V = FieldView;

    open spec fn view(&self) -> FieldView {
        match self {
            KindField::Name(s) => FieldView::Name(s@),
            KindField::Role(s) => FieldView::Role(s@),
            KindField::Scene(s) => FieldView::Scene(s@),
            KindField::Dim(x, y) => FieldView::Dim(*x, *y),
            KindField::Traction(t) => FieldView::Traction(*t),
            KindField::Program(s) => FieldView::Program(s@),
            KindField::Other => FieldView::Other,
        }
    }
}

/// The views of a list of definition entries.
pub open spec fn field_views(fs: Seq<KindField>) -> Seq<FieldView> {
    fs.map_values(|f: KindField| f@)
}

/// The role a role word selects.
pub open spec fn role_named(s: Seq<char>) -> KindRole {
    if s == seq!['t', 'i', 'l', 'e'] {
        KindRole::Tile
    } else if s == seq!['a', 'u', 't', 'o'] {
        KindRole::Auto
    } else {
        KindRole::Item
    }
}

/// The metadata of a kind just registered under `name`.
pub open spec fn fresh_info(name: Seq<char>) -> KindInfo {
    KindInfo {
        name,
        scene: Seq::empty(),
        item_dim: IVec2 { x: 0, y: 0 },
        program: Seq::empty(),
        traction: 0,
        role: KindRole::Item,
    }
}

/// The effect of one field of a definition record; a rename takes effect
/// only once the whole record is read (see `renamed_to`).
pub open spec fn apply_field(info: KindInfo, f: FieldView) -> KindInfo {
    match f {
        FieldView::Role(r) => KindInfo { role: role_named(r), ..info },
        FieldView::Scene(sc) => KindInfo { scene: sc, ..info },
        FieldView::Dim(x, y) => KindInfo { item_dim: IVec2 { x, y }, ..info },
        FieldView::Traction(t) => KindInfo { traction: t, ..info },
        FieldView::Program(p) => KindInfo { program: p, ..info },
        _ => info,
    }
}

/// The effect of a definition record's fields, in order.
pub open spec fn apply_fields(info: KindInfo, fs: Seq<FieldView>) -> KindInfo
    decreases fs.len(),
{
    if fs.len() == 0 {
        info
    } else {
        apply_field(apply_fields(info, fs.drop_last()), fs.last())
    }
}

/// The last new name that a definition record gives, if any.
pub open spec fn renamed_to(fs: Seq<FieldView>) -> Option<Seq<char>>
    decreases fs.len(),
{
    if fs.len() == 0 {
        None
    } else {
        match fs.last() {
            FieldView::Name(n) => Some(n),
            _ => renamed_to(fs.drop_last()),
        }
    }
}

/// Words joined by single spaces.
pub open spec fn joined(words: Seq<Seq<char>>) -> Seq<char>
    decreases words.len(),
{
    if words.len() == 0 {
        Seq::empty()
    } else if words.len() == 1 {
        words[0]
    } else {
        joined(words.drop_last()) + seq![' '] + words.last()
    }
}

/// The name that selects the nothing kind in a lookup.
pub open spec fn ground_word() -> Seq<char> {
    seq!['g', 'r', 'o', 'u', 'n', 'd']
}

/// The name that selects the wildcard kind in a lookup.
pub open spec fn any_word() -> Seq<char> {
    seq!['a', 'n', 'y']
}


/// How `set_by_val` changes a registry: an empty name changes nothing;
/// else the kind of that name (registered anew when unknown) takes the
/// record's fields in order, and a `Name` field renames it.
pub open spec fn define_post(o: KindsView, n: KindsView, name: Seq<char>, fs: Seq<FieldView>) -> bool {
    if name.len() == 0 {
        n == o
    } else {
        let existing = o.names.contains_key(name);
        let k = if existing { o.names[name] } else { Kind(o.data.len() as usize) };
        let base = if existing { o.data[k.0 as int] } else { fresh_info(name) };
        let data0 = if existing { o.data } else { o.data.push(base) };
        let names0 = if existing { o.names } else { o.names.insert(name, k) };
        let after = apply_fields(base, fs);
        match renamed_to(fs) {
            None => n.data == data0.update(k.0 as int, after) && n.names == names0,
            Some(nn) => n.data == data0.update(k.0 as int, KindInfo { name: nn, ..after }) && n.names == names0.remove(name).insert(nn, k),
        }
    }
}

/// Each entry of a name table names a kind of `data` whose stored name is
/// the entry's key.
pub open spec fn table_tied(t: Seq<(String, Kind)>, data: Seq<KindData>) -> bool {
    forall|i: int|
        0 <= i < t.len() ==> (#[trigger] t[i]).1.0 < data.len() && data[t[i].1.0 as int].name@ == t[i].0@
}

/// Taking entries out of a name table keeps it tied.
pub proof fn lemma_tied_remove(t: Seq<(String, Kind)>, data: Seq<KindData>, j: int)
    requires
        table_tied(t, data),
        0 <= j < t.len(),
    ensures
        table_tied(t.remove(j), data),
{
    let r = t.remove(j);
    assert forall|i: int| 0 <= i < r.len() implies (#[trigger] r[i]).1.0 < data.len() && data[r[i].1.0 as int].name@ == r[i].0@ by {
        let i2 = if i < j { i } else { i + 1 };
        assert(r[i] == t[i2]);
    }
}

/// The metadata of a kind registered with only a footprint and a traction.
pub open spec fn plain_info(name: Seq<char>, dim: IVec2, traction: i32) -> KindInfo {
    KindInfo { item_dim: dim, traction, ..fresh_info(name) }
}

/// The registry of the built-in kinds.
pub open spec fn blank_kinds() -> KindsView {
    KindsView {
        data: seq![
            plain_info("nothing"@, IVec2 { x: 0, y: 0 }, 10),
            plain_info("missingno"@, IVec2 { x: 0, y: 0 }, 1),
            plain_info("space"@, IVec2 { x: 0, y: 0 }, 1)
        ],
        names: map![
            "nothing"@ => Kind(0),
            "missingno"@ => Kind(1),
            "space"@ => Kind(2)
        ],
    }
}

/// The registry of the built-in and the sample kinds.
pub open spec fn sample_kinds() -> KindsView {
    KindsView {
        data: blank_kinds().data + seq![
            plain_info("earth"@, IVec2 { x: 20, y: 20 }, 1),
            plain_info("grass"@, IVec2 { x: 0, y: 0 }, 1),
            plain_info("rock"@, IVec2 { x: 0, y: 0 }, 1),
            plain_info("robo"@, IVec2 { x: 1, y: 1 }, 2),
            plain_info("machine"@, IVec2 { x: 2, y: 1 }, 1),
            plain_info("wall"@, IVec2 { x: 0, y: 0 }, 5),
            plain_info("thing"@, IVec2 { x: 0, y: 0 }, 5),
            plain_info("table"@, IVec2 { x: 2, y: 1 }, 5),
            plain_info("widget"@, IVec2 { x: 1, y: 1 }, 5)
        ],
        names: blank_kinds().names.insert("earth"@, Kind(3)).insert("grass"@, Kind(4)).insert("rock"@, Kind(5)).insert("robo"@, Kind(6)).insert("machine"@, Kind(7)).insert("wall"@, Kind(8)).insert("thing"@, Kind(9)).insert("table"@, Kind(10)).insert("widget"@, Kind(11)),
    }
}

/// The registry of kinds: metadata by index, and an index by name.
pub struct Kinds {
    pub kinds: Vec<KindData>,
    pub kinds_by_name: Vec<(String, Kind)>,
}

/// A registry as mathematical values.
pub struct KindsView {
    pub data: Seq<KindInfo>,
    pub names: Map<Seq<char>, Kind>,
}

impl View for Kinds {
    type V = KindsView;

    open spec fn view(&self) -> KindsView {
        KindsView {
            data: self.kinds@.map_values(|d: KindData| d@),
            names: table_map(self.kinds_by_name@),
        }
    }
}

impl Kinds {
    /// The reserved kinds exist, the name table has each name once, and every
    /// kind it names is registered.
    pub open spec fn wf(&self) -> bool {
        &&& self.kinds.len() >= 2
        &&& self.table_ok()
    }

    /// The name table has each name once, and each entry names a
    /// registered kind whose stored name is the entry's key.
    pub open spec fn table_ok(&self) -> bool {
        &&& table_unique(self.kinds_by_name@)
        &&& table_tied(self.kinds_by_name@, self.kinds@)
    }

    /// Whether `k` is a registered kind.
    pub open spec fn valid(&self, k: Kind) -> bool {
        k.0 < self.kinds.len()
    }

    /// What `get` returns for `name`.
    pub open spec fn spec_get(&self, name: Seq<char>) -> Kind {
        if name == ground_word() {
            Kind(NOTHING)
        } else if name == any_word() {
            Kind(WILDCARD)
        } else if self@.names.contains_key(name) {
            self@.names[name]
        } else {
            Kind(WILDCARD)
        }
    }

    /// The traction of a registered kind.
    pub open spec fn traction(&self, k: Kind) -> i32 {
        self@.data[k.0 as int].traction
    }

    /// The name of a registered kind.
    pub open spec fn spec_name(&self, k: Kind) -> Seq<char> {
        self@.data[k.0 as int].name
    }

    /// The name of a kind as an action argument: `ground` for nothing,
    /// `any` for the wildcard.
    pub open spec fn spec_action_name(&self, k: Kind) -> Seq<char> {
        if k.0 == NOTHING {
            ground_word()
        } else if k.0 == WILDCARD {
            any_word()
        } else {
            self.spec_name(k)
        }
    }

    /// The kind registered under `name`. `ground` gives nothing and `any` the
    /// wildcard; an unknown name gives the wildcard too.
    pub fn get(&self, name: &str) -> (r: Kind)
        requires
            self.wf(),
        ensures
            r == self.spec_get(name@),
            self.valid(r),
    {
        proof {
            reveal_strlit("ground");
            reveal_strlit("any");
            assert("ground"@ =~= ground_word());
            assert("any"@ =~= any_word());
        }
        if str_eq(name, "ground") {
            return self.nothing();
        }
        if str_eq(name, "any") {
            return self.missingno();
        }
        match table_find(&self.kinds_by_name, name) {
            Some(i) => {
                proof {
                    assert(table_map(self.kinds_by_name@).contains_key(name@));
                    assert(table_map(self.kinds_by_name@)[name@] == self.kinds_by_name@[i as int].1);
                }
                self.kinds_by_name[i].1
            },
            None => {
                assert(!table_map(self.kinds_by_name@).contains_key(name@));
                self.missingno()
            },
        }
    }


    /// Defines or updates the kind called `name` from a definition record.
    /// An unknown name registers a new kind with default metadata; then each
    /// field of the record is applied in order, and a `Name` field renames the
    /// kind, moving its name-table entry. An empty name changes nothing.
    pub fn set_by_val(&mut self, name: &str, data: &Vec<KindField>)
        requires
            old(self).wf(),
        ensures
            final(self).wf(),
            define_post(old(self)@, final(self)@, name@, field_views(data@)),
            final(self).kinds.len() >= old(self).kinds.len(),
    {
        if name.unicode_len() == 0 {
            return;
        }
        let ghost old_view = self@;
        let kind = match table_find(&self.kinds_by_name, name) {
            Some(i) => {
                proof {
                    assert(table_map(self.kinds_by_name@).contains_key(name@));
                    assert(self.kinds_by_name@[i as int].0@ == name@);
                }
                self.kinds_by_name[i].1
            },
            None => {
                let k = Kind(self.kinds.len());
                let ghost t = self.kinds_by_name@;
                let entry = (string_of(name), k);
                proof {
                    lemma_table_push(t, entry);
                }
                self.kinds_by_name.push(entry);
                self.kinds.push(KindData {
                    name: string_of(name),
                    scene: String::new(),
                    item_dim: IVec2::new(0, 0),
                    program: String::new(),
                    traction: 0,
                    role: KindRole::Item,
                });
                proof {
                    assert(self@.data =~= old_view.data.push(fresh_info(name@)));
                    assert forall|i: int| 0 <= i < self.kinds_by_name.len() implies (#[trigger] self.kinds_by_name@[i]).1.0
                        < self.kinds@.len() && self.kinds@[self.kinds_by_name@[i].1.0 as int].name@ == self.kinds_by_name@[i].0@ by {
                        if i < t.len() {
                            assert(self.kinds_by_name@[i] == t[i]);
                            assert(self.kinds@[t[i].1.0 as int] == old(self).kinds@[t[i].1.0 as int]);
                        }
                    }
                }
                k
            },
        };
        let ghost base = self@.data[kind.0 as int];
        assert(base.name == name@);
        let ghost data0 = self@.data;
        let ghost kinds0 = self.kinds@;
        let ghost names0 = self@.names;
        let cur = &self.kinds[kind.0];
        let old_name = cur.name.clone();
        let mut scene = cur.scene.clone();
        let mut item_dim = cur.item_dim;
        let mut program = cur.program.clone();
        let mut traction = cur.traction;
        let mut role = cur.role;
        let mut new_name: Option<String> = None;
        let mut i: usize = 0;
        while i < data.len()
            invariant
                i <= data.len(),
                old_name@ == base.name,
                apply_fields(base, field_views(data@.take(i as int))) == (KindInfo {
                    name: base.name,
                    scene: scene@,
                    item_dim,
                    program: program@,
                    traction,
                    role,
                }),
                renamed_to(field_views(data@.take(i as int))) == match new_name {
                    Some(n) => Some(n@),
                    None => None::<Seq<char>>,
                },
            decreases data.len() - i,
        {
            proof {
                assert(data@.take(i + 1).drop_last() =~= data@.take(i as int));
                assert(data@.take(i + 1).last() == data@[i as int]);
                assert(field_views(data@.take(i + 1)).drop_last() =~= field_views(data@.take(i as int)));
                assert(field_views(data@.take(i + 1)).last() == data@[i as int]@);
            }
            match &data[i] {
                KindField::Name(n) => {
                    new_name = Some(n.clone());
                },
                KindField::Role(r) => {
                    proof {
                        reveal_strlit("tile");
                        reveal_strlit("auto");
                        assert("tile"@ =~= seq!['t', 'i', 'l', 'e']);
                        assert("auto"@ =~= seq!['a', 'u', 't', 'o']);
                    }
                    role = if str_eq(r.as_str(), "tile") {
                        KindRole::Tile
                    } else if str_eq(r.as_str(), "auto") {
                        KindRole::Auto
                    } else {
                        KindRole::Item
                    };
                },
                KindField::Scene(sc) => {
                    scene = sc.clone();
                },
                KindField::Dim(x, y) => {
                    item_dim = IVec2::new(*x, *y);
                },
                KindField::Traction(t) => {
                    traction = *t;
                },
                KindField::Program(p) => {
                    program = p.clone();
                },
                KindField::Other => {},
            }
            i = i + 1;
        }
        proof {
            assert(data@.take(data.len() as int) =~= data@);
            assert(field_views(data@.take(data.len() as int)) =~= field_views(data@));
        }
        match new_name {
            None => {
                self.kinds[kind.0] = KindData { name: old_name, scene, item_dim, program, traction, role };
                proof {
                    assert(self@.data =~= data0.update(kind.0 as int, apply_fields(base, field_views(data@))));
                    let t = self.kinds_by_name@;
                    assert forall|i: int| 0 <= i < t.len() implies (#[trigger] t[i]).1.0 < self.kinds@.len()
                        && self.kinds@[t[i].1.0 as int].name@ == t[i].0@ by {
                        assert(kinds0[t[i].1.0 as int].name@ == t[i].0@);
                    }
                }
            },
            Some(nn) => {
                let ghost t0 = self.kinds_by_name@;
                let r0 = table_take_out(&mut self.kinds_by_name, old_name.as_str());
                proof {
                    if let Some(j) = r0 {
                        lemma_tied_remove(t0, kinds0, j as int);
                    }
                }
                let ghost tm = self.kinds_by_name@;
                let r1 = table_take_out(&mut self.kinds_by_name, nn.as_str());
                proof {
                    if let Some(j) = r1 {
                        lemma_tied_remove(tm, kinds0, j as int);
                    }
                }
                let ghost t1 = self.kinds_by_name@;
                let entry = (nn.clone(), kind);
                proof {
                    assert(entry.0@ == nn@);
                    assert(!table_map(t1).contains_key(nn@));
                    assert(!table_map(t1).contains_key(name@));
                    lemma_table_push(t1, entry);
                }
                self.kinds_by_name.push(entry);
                self.kinds[kind.0] = KindData { name: nn, scene, item_dim, program, traction, role };
                proof {
                    assert(self@.data =~= data0.update(kind.0 as int, KindInfo { name: entry.0@, ..apply_fields(base, field_views(data@)) }));
                    assert(self@.names =~= names0.remove(name@).insert(entry.0@, kind));
                    let t = self.kinds_by_name@;
                    assert forall|i: int| 0 <= i < t.len() implies (#[trigger] t[i]).1.0 < self.kinds@.len()
                        && self.kinds@[t[i].1.0 as int].name@ == t[i].0@ by {
                        if i < t1.len() {
                            assert(t[i] == t1[i]);
                            assert(kinds0[t1[i].1.0 as int].name@ == t1[i].0@);
                            if t1[i].1 == kind {
                                assert(t1[i].0@ == name@);
                                lemma_lookup_at(t1, i);
                                assert(table_map(t1).contains_key(name@));
                            }
                        } else {
                            assert(t[i] == entry);
                        }
                    }
                }
            },
        }
    }

    /// Registers a new kind under a name that the registry does not hold yet.
    fn register(&mut self, name: &str, dim: IVec2, traction: i32)
        requires
            old(self).table_ok(),
            !old(self)@.names.contains_key(name@),
        ensures
            final(self).table_ok(),
            final(self).kinds.len() == old(self).kinds.len() + 1,
            final(self)@.data == old(self)@.data.push(KindInfo { item_dim: dim, traction, ..fresh_info(name@) }),
            final(self)@.names == old(self)@.names.insert(name@, Kind(old(self)@.data.len() as usize)),
    {
        let k = Kind(self.kinds.len());
        let ghost t = self.kinds_by_name@;
        let entry = (string_of(name), k);
        proof {
            lemma_table_push(t, entry);
        }
        self.kinds_by_name.push(entry);
        self.kinds.push(KindData {
            name: string_of(name),
            scene: String::new(),
            item_dim: dim,
            program: String::new(),
            traction,
            role: KindRole::Item,
        });
        proof {
            assert forall|i: int| 0 <= i < self.kinds_by_name.len() implies (#[trigger] self.kinds_by_name@[i]).1.0
                < self.kinds@.len() && self.kinds@[self.kinds_by_name@[i].1.0 as int].name@ == self.kinds_by_name@[i].0@ by {
                if i < t.len() {
                    assert(self.kinds_by_name@[i] == t[i]);
                    assert(self.kinds@[t[i].1.0 as int] == old(self).kinds@[t[i].1.0 as int]);
                }
            }
        }
    }

    /// The registry with the three built-in kinds: `nothing` (index 0,
    /// traction 10), `missingno`, the wildcard (index 1, traction 1), and
    /// `space` (index 2, traction 1).
    pub fn new_blank() -> (r: Kinds)
        ensures
            r.wf(),
            r@ == blank_kinds(),
            r.spec_get("nothing"@) == Kind(0),
            r.spec_get("missingno"@) == Kind(1),
            r.spec_get("space"@) == Kind(2),
            r.spec_get("ground"@) == Kind(NOTHING),
            r.spec_get("any"@) == Kind(WILDCARD),
    {
        let mut kinds = Kinds { kinds: Vec::new(), kinds_by_name: Vec::new() };
        proof {
            reveal_strlit("nothing");
            assert("nothing"@ =~= seq!['n', 'o', 't', 'h', 'i', 'n', 'g']);
            reveal_strlit("missingno");
            assert("missingno"@ =~= seq!['m', 'i', 's', 's', 'i', 'n', 'g', 'n', 'o']);
            reveal_strlit("space");
            assert("space"@ =~= seq!['s', 'p', 'a', 'c', 'e']);
            reveal_strlit("ground");
            reveal_strlit("any");
            assert("ground"@ =~= ground_word());
            assert("any"@ =~= any_word());
            assert(kinds@.names =~= map![]);
            assert(kinds@.data =~= seq![]);
        }
        kinds.register("nothing", IVec2::new(0, 0), 10);
        kinds.register("missingno", IVec2::new(0, 0), 1);
        kinds.register("space", IVec2::new(0, 0), 1);
        proof {
            assert(kinds@.names =~= blank_kinds().names);
            assert(kinds@.data =~= blank_kinds().data);
        }
        kinds
    }

    /// The built-in kinds followed by a set of sample kinds: earth (20 by
    /// 20), grass, rock, robo (1 by 1, traction 2), machine (2 by 1), wall,
    /// thing, table (2 by 1) and widget (1 by 1); see `sample_kinds`.
    pub fn new_test() -> (r: Kinds)
        ensures
            r.wf(),
            r@ == sample_kinds(),
            r.spec_get("nothing"@) == Kind(0),
            r.spec_get("missingno"@) == Kind(1),
            r.spec_get("space"@) == Kind(2),
            r.spec_get("earth"@) == Kind(3),
            r.spec_get("grass"@) == Kind(4),
            r.spec_get("rock"@) == Kind(5),
            r.spec_get("robo"@) == Kind(6),
            r.spec_get("machine"@) == Kind(7),
            r.spec_get("wall"@) == Kind(8),
            r.spec_get("thing"@) == Kind(9),
            r.spec_get("table"@) == Kind(10),
            r.spec_get("widget"@) == Kind(11),
            r.spec_get("ground"@) == Kind(NOTHING),
            r.spec_get("any"@) == Kind(WILDCARD),
    {
        let mut kinds = Kinds::new_blank();
        proof {
            reveal_strlit("nothing");
            assert("nothing"@ =~= seq!['n', 'o', 't', 'h', 'i', 'n', 'g']);
            reveal_strlit("missingno");
            assert("missingno"@ =~= seq!['m', 'i', 's', 's', 'i', 'n', 'g', 'n', 'o']);
            reveal_strlit("space");
            assert("space"@ =~= seq!['s', 'p', 'a', 'c', 'e']);
            reveal_strlit("earth");
            assert("earth"@ =~= seq!['e', 'a', 'r', 't', 'h']);
            reveal_strlit("grass");
            assert("grass"@ =~= seq!['g', 'r', 'a', 's', 's']);
            reveal_strlit("rock");
            assert("rock"@ =~= seq!['r', 'o', 'c', 'k']);
            reveal_strlit("robo");
            assert("robo"@ =~= seq!['r', 'o', 'b', 'o']);
            reveal_strlit("machine");
            assert("machine"@ =~= seq!['m', 'a', 'c', 'h', 'i', 'n', 'e']);
            reveal_strlit("wall");
            assert("wall"@ =~= seq!['w', 'a', 'l', 'l']);
            reveal_strlit("thing");
            assert("thing"@ =~= seq!['t', 'h', 'i', 'n', 'g']);
            reveal_strlit("table");
            assert("table"@ =~= seq!['t', 'a', 'b', 'l', 'e']);
            reveal_strlit("widget");
            assert("widget"@ =~= seq!['w', 'i', 'd', 'g', 'e', 't']);
            reveal_strlit("ground");
            reveal_strlit("any");
            assert("ground"@ =~= ground_word());
            assert("any"@ =~= any_word());
        }
        kinds.register("earth", IVec2::new(20, 20), 1);
        kinds.register("grass", IVec2::new(0, 0), 1);
        kinds.register("rock", IVec2::new(0, 0), 1);
        kinds.register("robo", IVec2::new(1, 1), 2);
        kinds.register("machine", IVec2::new(2, 1), 1);
        kinds.register("wall", IVec2::new(0, 0), 5);
        kinds.register("thing", IVec2::new(0, 0), 5);
        kinds.register("table", IVec2::new(2, 1), 5);
        kinds.register("widget", IVec2::new(1, 1), 5);
        proof {
            assert(kinds@.names =~= sample_kinds().names);
            assert(kinds@.data =~= sample_kinds().data);
        }
        kinds
    }

    /// The names of `kinds`, separated by single spaces.
    pub fn name_list(&self, kinds: &Vec<Kind>) -> (r: String)
        requires
            forall|i: int| 0 <= i < kinds.len() ==> self.valid(#[trigger] kinds@[i]),
        ensures
            r@ == joined(kinds@.map_values(|k: Kind| self.spec_name(k))),
    {
        let mut out = String::new();
        let mut i: usize = 0;
        while i < kinds.len()
            invariant
                i <= kinds.len(),
                forall|j: int| 0 <= j < kinds.len() ==> self.valid(#[trigger] kinds@[j]),
                out@ == joined(kinds@.take(i as int).map_values(|k: Kind| self.spec_name(k))),
            decreases kinds.len() - i,
        {
            let ghost before = kinds@.take(i as int).map_values(|k: Kind| self.spec_name(k));
            if i > 0 {
                append_str(&mut out, " ");
            }
            let n = self.name(kinds[i]);
            append_str(&mut out, n.as_str());
            proof {
                reveal_strlit(" ");
                let after = kinds@.take(i + 1).map_values(|k: Kind| self.spec_name(k));
                assert(after.drop_last() =~= before);
                assert(after.last() == self.spec_name(kinds@[i as int]));
            }
            i = i + 1;
        }
        proof {
            assert(kinds@.take(kinds.len() as int) =~= kinds@);
        }
        out
    }

    /// The action names of `kinds` (`ground`, `any`, or the name), separated
    /// by single spaces.
    pub fn action_name_list(&self, kinds: &Vec<Kind>) -> (r: String)
        requires
            forall|i: int| 0 <= i < kinds.len() ==> self.valid(#[trigger] kinds@[i]),
        ensures
            r@ == joined(kinds@.map_values(|k: Kind| self.spec_action_name(k))),
    {
        let mut out = String::new();
        let mut i: usize = 0;
        while i < kinds.len()
            invariant
                i <= kinds.len(),
                forall|j: int| 0 <= j < kinds.len() ==> self.valid(#[trigger] kinds@[j]),
                out@ == joined(kinds@.take(i as int).map_values(|k: Kind| self.spec_action_name(k))),
            decreases kinds.len() - i,
        {
            let ghost before = kinds@.take(i as int).map_values(|k: Kind| self.spec_action_name(k));
            if i > 0 {
                append_str(&mut out, " ");
            }
            let n = self.action_name(kinds[i]);
            append_str(&mut out, n.as_str());
            proof {
                reveal_strlit(" ");
                let after = kinds@.take(i + 1).map_values(|k: Kind| self.spec_action_name(k));
                assert(after.drop_last() =~= before);
                assert(after.last() == self.spec_action_name(kinds@[i as int]));
            }
            i = i + 1;
        }
        proof {
            assert(kinds@.take(kinds.len() as int) =~= kinds@);
        }
        out
    }

    pub fn nothing(&self) -> (r: Kind)
        ensures
            r == Kind(NOTHING),
    {
        Kind(NOTHING)
    }

    pub fn missingno(&self) -> (r: Kind)
        ensures
            r == Kind(WILDCARD),
    {
        Kind(WILDCARD)
    }

    pub fn get_data(&self, kind: Kind) -> (r: &KindData)
        requires
            self.valid(kind),
        ensures
            *r == self.kinds@[kind.0 as int],
    {
        &self.kinds[kind.0]
    }

    pub fn name(&self, kind: Kind) -> (r: String)
        requires
            self.valid(kind),
        ensures
            r@ == self.spec_name(kind),
    {
        self.kinds[kind.0].name.clone()
    }

    pub fn action_name(&self, kind: Kind) -> (r: String)
        requires
            self.valid(kind),
        ensures
            r@ == self.spec_action_name(kind),
    {
        proof {
            reveal_strlit("ground");
            reveal_strlit("any");
            assert("ground"@ =~= ground_word());
            assert("any"@ =~= any_word());
        }
        if kind.0 == NOTHING {
            string_of("ground")
        } else if kind.0 == WILDCARD {
            string_of("any")
        } else {
            self.name(kind)
        }
    }
}

} // verus!
