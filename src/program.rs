use vstd::prelude::*;

use crate::act::Action;
use crate::auto::{AutoNdx, AutoView, FINISHED_BIT, TICK, has_flag};
use crate::dir::{Dir, IVec2, dir_named};
use crate::kind::{FieldView, Kind, KindField, Kinds, NOTHING, WILDCARD, define_post, field_views};
use crate::pattern::{Pattern, PatternView};
use crate::text::{append_int, append_str, decimal, str_eq, string_of};
use crate::world::{AutoField, World, action_ok, auto_of_record, spec_create, lemma_kinds_grow};
use crate::auto::item_at;
use crate::auto::with_item;

verus! {

/// The arena after `action` is issued to `ndx` from a script, and whether
/// the issue completed. A different action replaces the current one and is
/// pending. Re-issuing the current action while it is pending changes
/// nothing; re-issuing it once it has finished completes it, and the auto
/// turns to `Stop`.
pub open spec fn issue_outcome(w: Seq<AutoView>, ndx: AutoNdx, action: Action) -> (Seq<AutoView>, bool) {
    let a = w[ndx.0 as int];
    if a.action != action {
        (w.update(ndx.0 as int, AutoView { action, action_time: TICK, flags: a.flags & !FINISHED_BIT, ..a }), false)
    } else if has_flag(a, FINISHED_BIT) {
        (w.update(ndx.0 as int, AutoView { action: Action::Stop, action_time: TICK, flags: a.flags & !FINISHED_BIT, ..a }), true)
    } else {
        (w, false)
    }
}

/// Issues `generator` to `auto` on behalf of its script; `true` when the
/// script's request is complete and it may go on.
pub fn action_handler(world: &mut World, auto: AutoNdx, generator: Action) -> (r: bool)
    requires
        old(world).wf(),
        old(world).has(auto),
        action_ok(generator, old(world).kinds, old(world)@.len()),
    ensures
        final(world).wf(),
        final(world).same_registries(old(world)),
        (final(world)@, r) == issue_outcome(old(world)@, auto, generator),
{
    let action = world.get_auto_action(auto);
    if action != generator {
        world.set_auto_action(auto, generator);
        false
    } else if world.get_auto(auto).flags.get(crate::auto::auto_action_finished()) {
        world.set_auto_action(auto, Action::Stop);
        true
    } else {
        false
    }
}

/// Issuing an action that is already the pending one changes nothing, in
/// particular not its retry clock; issuing a different action replaces it
/// and restarts the clock; and issuing the same action twice in a row, with
/// no tick between, leaves it pending exactly as the first issue did.
pub proof fn lemma_issue_idempotent(w: Seq<AutoView>, ndx: AutoNdx, action: Action)
    requires
        0 <= ndx.0 < w.len(),
    ensures
        w[ndx.0 as int].action == action && !has_flag(w[ndx.0 as int], FINISHED_BIT) ==> issue_outcome(w, ndx, action) == (w, false),
        w[ndx.0 as int].action != action ==> ({
            let w1 = issue_outcome(w, ndx, action).0;
            &&& w1[ndx.0 as int].action == action
            &&& w1[ndx.0 as int].action_time == TICK
            &&& issue_outcome(w1, ndx, action) == (w1, false)
        }),
{
    let a = w[ndx.0 as int];
    if a.action != action {
        let w1 = issue_outcome(w, ndx, action).0;
        assert(w1[ndx.0 as int].flags == a.flags & !FINISHED_BIT);
        let f = a.flags;
        assert((f & !4u64) & 4u64 == 0) by (bit_vector);
    }
}


/// A value passed from a script: an argument of a message.
#[derive(Debug, PartialEq)]
pub enum Arg {
    Nil,
    Num(i64),
    Sym(String),
    Str(String),
    List(Vec<Arg>),
}

/// What a message returns to the script that sent it.
#[derive(Debug, PartialEq)]
pub enum Reply {
    Nil,
    Num(i64),
    Text(String),
    /// The request is under way; the script waits.
    Pending,
    /// Text for the host to print; the script then goes on.
    Print(String),
    /// The host should end the program.
    Quit,
    /// No handler has this name.
    Unhandled,
}

pub open spec fn num_arg(a: Arg) -> Option<i64> {
    match a {
        Arg::Num(n) => Some(n),
        _ => None,
    }
}

pub open spec fn coord_arg(a: Arg) -> Option<i32> {
    match a {
        Arg::Num(n) => if i32::MIN <= n <= i32::MAX { Some(n as i32) } else { None },
        _ => None,
    }
}

pub open spec fn sym_arg(a: Arg) -> Option<String> {
    match a {
        Arg::Sym(s) => Some(s),
        _ => None,
    }
}

/// A symbol's or a string's text.
pub open spec fn word_arg(a: Arg) -> Option<String> {
    match a {
        Arg::Sym(s) => Some(s),
        Arg::Str(s) => Some(s),
        _ => None,
    }
}

/// The text of a reply that carries one.
pub open spec fn reply_text(r: Reply) -> Option<Seq<char>> {
    match r {
        Reply::Text(s) => Some(s@),
        _ => None,
    }
}

fn num_of(a: &Arg) -> (r: Option<i64>)
    ensures
        r == num_arg(*a),
{
    match a {
        Arg::Num(n) => Some(*n),
        _ => None,
    }
}

fn coord_of(a: &Arg) -> (r: Option<i32>)
    ensures
        r == coord_arg(*a),
{
    match a {
        Arg::Num(n) => if i32::MIN as i64 <= *n && *n <= i32::MAX as i64 {
            Some(*n as i32)
        } else {
            None
        },
        _ => None,
    }
}

fn sym_of(a: &Arg) -> (r: Option<String>)
    ensures
        r == sym_arg(*a),
{
    match a {
        Arg::Sym(s) => Some(s.clone()),
        _ => None,
    }
}

fn word_of(a: &Arg) -> (r: Option<String>)
    ensures
        r == word_arg(*a),
{
    match a {
        Arg::Sym(s) => Some(s.clone()),
        Arg::Str(s) => Some(s.clone()),
        _ => None,
    }
}

/// Two coordinates, written `(key x y)` or `(key (x y))`.
pub open spec fn pair_arg(l: Seq<Arg>) -> Option<(i32, i32)> {
    if l.len() >= 3 && coord_arg(l[1]).is_some() && coord_arg(l[2]).is_some() {
        Some((coord_arg(l[1]).unwrap(), coord_arg(l[2]).unwrap()))
    } else if l.len() == 2 {
        match l[1] {
            Arg::List(m) => if m@.len() == 2 && coord_arg(m@[0]).is_some() && coord_arg(m@[1]).is_some() {
                Some((coord_arg(m@[0]).unwrap(), coord_arg(m@[1]).unwrap()))
            } else {
                None
            },
            _ => None,
        }
    } else {
        None
    }
}

fn pair_of(l: &Vec<Arg>) -> (r: Option<(i32, i32)>)
    ensures
        r == pair_arg(l@),
{
    if l.len() >= 3 {
        if let (Some(x), Some(y)) = (coord_of(&l[1]), coord_of(&l[2])) {
            return Some((x, y));
        }
    }
    if l.len() == 2 {
        if let Arg::List(m) = &l[1] {
            if m.len() == 2 {
                if let (Some(x), Some(y)) = (coord_of(&m[0]), coord_of(&m[1])) {
                    return Some((x, y));
                }
            }
        }
    }
    None
}

/// The key of a record entry `(key value ...)`.
pub open spec fn entry_key(p: Arg) -> Option<Seq<char>> {
    match p {
        Arg::List(l) => if l@.len() >= 2 {
            match l@[0] {
                Arg::Sym(k) => Some(k@),
                _ => None,
            }
        } else {
            None
        },
        _ => None,
    }
}

/// The entries of a record entry `(key value ...)`.
pub open spec fn entry_items(p: Arg) -> Seq<Arg> {
    match p {
        Arg::List(l) => l@,
        _ => Seq::empty(),
    }
}

fn key_is(p: &Arg, key: &str) -> (r: bool)
    ensures
        r == (entry_key(*p) == Some(key@)),
{
    match p {
        Arg::List(l) => if l.len() >= 2 {
            match &l[0] {
                Arg::Sym(k) => str_eq(k.as_str(), key),
                _ => false,
            }
        } else {
            false
        },
        _ => false,
    }
}

/// `n` limited to the range of `i32`.
pub open spec fn clamp32(n: i64) -> i32 {
    if n < i32::MIN { i32::MIN } else if n > i32::MAX { i32::MAX } else { n as i32 }
}

/// The kind-definition field that an entry `(key value ...)` gives. A
/// `program` entry keeps the source text of its values.
pub open spec fn kind_field_arg(p: Arg) -> FieldView {
    let l = entry_items(p);
    let w = if l.len() >= 2 { word_arg(l[1]) } else { None };
    if entry_key(p) == Some("name"@) && w.is_some() {
        FieldView::Name(w.unwrap()@)
    } else if entry_key(p) == Some("role"@) && w.is_some() {
        FieldView::Role(w.unwrap()@)
    } else if entry_key(p) == Some("scene"@) && w.is_some() {
        FieldView::Scene(w.unwrap()@)
    } else if entry_key(p) == Some("program"@) {
        FieldView::Program(source_of(l.subrange(1, l.len() as int)))
    } else if entry_key(p) == Some("dim"@) && pair_arg(l).is_some() {
        FieldView::Dim(pair_arg(l).unwrap().0, pair_arg(l).unwrap().1)
    } else if entry_key(p) == Some("traction"@) && num_arg(l[1]).is_some() {
        FieldView::Traction(clamp32(num_arg(l[1]).unwrap()))
    } else {
        FieldView::Other
    }
}

/// Reads one entry of a kind definition record.
pub fn kind_field_of(p: &Arg) -> (r: KindField)
    ensures
        r@ == kind_field_arg(*p),
{
    let w = match p {
        Arg::List(l) => if l.len() >= 2 { word_of(&l[1]) } else { None },
        _ => None,
    };
    if key_is(p, "name") && w.is_some() {
        return KindField::Name(w.unwrap());
    }
    if key_is(p, "role") && w.is_some() {
        return KindField::Role(w.unwrap());
    }
    if key_is(p, "scene") && w.is_some() {
        return KindField::Scene(w.unwrap());
    }
    if let Arg::List(l) = p {
        if key_is(p, "program") {
            let mut text = String::new();
            append_items_source(&mut text, l, 1);
            return KindField::Program(text);
        }
        if key_is(p, "dim") {
            if let Some((x, y)) = pair_of(l) {
                return KindField::Dim(x, y);
            }
        }
        if key_is(p, "traction") {
            if let Some(n) = num_of(&l[1]) {
                let t: i32 = if n < i32::MIN as i64 {
                    i32::MIN
                } else if n > i32::MAX as i64 {
                    i32::MAX
                } else {
                    n as i32
                };
                return KindField::Traction(t);
            }
        }
    }
    KindField::Other
}

/// The auto-creation field that an entry `(key value)` gives.
pub open spec fn auto_field_arg(p: Arg) -> AutoField {
    let l = entry_items(p);
    let s = if l.len() >= 2 { sym_arg(l[1]) } else { None };
    if entry_key(p) == Some("kind"@) && s.is_some() {
        AutoField::Kind(s.unwrap())
    } else if entry_key(p) == Some("force"@) && s.is_some() {
        AutoField::Force(s.unwrap())
    } else if entry_key(p) == Some("tile"@) && s.is_some() {
        AutoField::Tile(s.unwrap())
    } else if entry_key(p) == Some("parent"@) && num_arg(l[1]).is_some() && num_arg(l[1]).unwrap() >= 0 {
        AutoField::Parent(num_arg(l[1]).unwrap() as usize)
    } else if entry_key(p) == Some("dim"@) && pair_arg(l).is_some() {
        AutoField::Dim(pair_arg(l).unwrap().0, pair_arg(l).unwrap().1)
    } else if entry_key(p) == Some("loc"@) && pair_arg(l).is_some() {
        AutoField::Loc(pair_arg(l).unwrap().0, pair_arg(l).unwrap().1)
    } else {
        AutoField::Other
    }
}

/// Reads one entry of an auto creation record.
pub fn auto_field_of(p: &Arg) -> (r: AutoField)
    ensures
        r == auto_field_arg(*p),
{
    let s = match p {
        Arg::List(l) => if l.len() >= 2 { sym_of(&l[1]) } else { None },
        _ => None,
    };
    if key_is(p, "kind") && s.is_some() {
        return AutoField::Kind(s.unwrap());
    }
    if key_is(p, "force") && s.is_some() {
        return AutoField::Force(s.unwrap());
    }
    if key_is(p, "tile") && s.is_some() {
        return AutoField::Tile(s.unwrap());
    }
    if let Arg::List(l) = p {
        if key_is(p, "parent") {
            if let Some(n) = num_of(&l[1]) {
                if n >= 0 {
                    return AutoField::Parent(n as usize);
                }
            }
        }
        if key_is(p, "dim") {
            if let Some((x, y)) = pair_of(l) {
                return AutoField::Dim(x, y);
            }
        }
        if key_is(p, "loc") {
            if let Some((x, y)) = pair_of(l) {
                return AutoField::Loc(x, y);
            }
        }
    }
    AutoField::Other
}

/// The kinds that a list of names selects; an entry that is not a name
/// selects the wildcard.
pub open spec fn kinds_named(kinds: Kinds, m: Seq<Arg>) -> Seq<Kind> {
    m.map_values(|a: Arg| match a {
        Arg::Sym(n) => kinds.spec_get(n@),
        _ => Kind(WILDCARD),
    })
}

/// The pattern that the entries `(for kind)`, `(in (names))` and
/// `(out (names))` of a definition record describe, read in order.
pub open spec fn pattern_of_args(kinds: Kinds, props: Seq<Arg>) -> PatternView
    decreases props.len(),
{
    if props.len() == 0 {
        PatternView { for_kind: Kind(WILDCARD), input: Seq::empty(), output: Seq::empty() }
    } else {
        let p = pattern_of_args(kinds, props.drop_last());
        let e = props.last();
        let l = entry_items(e);
        if entry_key(e) == Some("for"@) && sym_arg(l[1]).is_some() {
            PatternView { for_kind: kinds.spec_get(sym_arg(l[1]).unwrap()@), ..p }
        } else if entry_key(e) == Some("in"@) && l[1] is List {
            PatternView { input: kinds_named(kinds, entry_items(l[1])), ..p }
        } else if entry_key(e) == Some("out"@) && l[1] is List {
            PatternView { output: kinds_named(kinds, entry_items(l[1])), ..p }
        } else {
            p
        }
    }
}

fn kinds_of_names(kinds: &Kinds, m: &Vec<Arg>) -> (r: Vec<Kind>)
    requires
        kinds.wf(),
    ensures
        r@ == kinds_named(*kinds, m@),
        forall|j: int| 0 <= j < r@.len() ==> kinds.valid(#[trigger] r@[j]),
{
    let mut r: Vec<Kind> = Vec::new();
    let mut i: usize = 0;
    while i < m.len()
        invariant
            kinds.wf(),
            i <= m.len(),
            r@ == kinds_named(*kinds, m@.take(i as int)),
            forall|j: int| 0 <= j < r@.len() ==> kinds.valid(#[trigger] r@[j]),
        decreases m.len() - i,
    {
        let k = match &m[i] {
            Arg::Sym(n) => kinds.get(n.as_str()),
            _ => Kind(WILDCARD),
        };
        r.push(k);
        assert(r@ =~= kinds_named(*kinds, m@.take(i + 1)));
        i = i + 1;
    }
    assert(m@.take(m.len() as int) =~= m@);
    r
}

/// Reads a pattern definition record from the script arguments `from` on.
pub fn pattern_of(kinds: &Kinds, props: &Vec<Arg>, from: usize) -> (r: Pattern)
    requires
        kinds.wf(),
        from <= props.len(),
    ensures
        r@ == pattern_of_args(*kinds, props@.subrange(from as int, props@.len() as int)),
        forall|j: int| 0 <= j < r@.output.len() ==> kinds.valid(#[trigger] r@.output[j]),
{
    let mut pattern = Pattern::new();
    let mut i: usize = from;
    assert(props@.subrange(from as int, from as int) =~= Seq::<Arg>::empty());
    while i < props.len()
        invariant
            kinds.wf(),
            from <= i <= props@.len(),
            pattern@ == pattern_of_args(*kinds, props@.subrange(from as int, i as int)),
            forall|j: int| 0 <= j < pattern@.output.len() ==> kinds.valid(#[trigger] pattern@.output[j]),
        decreases props.len() - i,
    {
        proof {
            assert(props@.subrange(from as int, i + 1).drop_last() =~= props@.subrange(from as int, i as int));
            assert(props@.subrange(from as int, i + 1).last() == props@[i as int]);
        }
        let e = &props[i];
        proof {
            reveal_strlit("for");
            reveal_strlit("in");
            reveal_strlit("out");
            assert("for"@ != "in"@ && "for"@ != "out"@ && "in"@ != "out"@) by {
                assert("for"@.len() != "in"@.len());
                assert("in"@.len() != "out"@.len());
                assert("for"@[0] != "out"@[0]);
            }
        }
        if let Arg::List(l) = e {
            if key_is(e, "for") {
                if let Some(k) = sym_of(&l[1]) {
                    pattern.for_kind = kinds.get(k.as_str());
                }
            } else if key_is(e, "in") {
                if let Arg::List(m) = &l[1] {
                    pattern.input = kinds_of_names(kinds, m);
                }
            } else if key_is(e, "out") {
                if let Arg::List(m) = &l[1] {
                    pattern.output = kinds_of_names(kinds, m);
                }
            } else {
            }
        }
        i = i + 1;
    }
    pattern
}

/// The text that `print` shows for one argument.
pub open spec fn arg_text(a: Arg) -> Seq<char> {
    match a {
        Arg::Sym(s) => s@,
        Arg::Str(s) => s@,
        Arg::Num(n) => decimal(n as int),
        _ => Seq::empty(),
    }
}

/// The texts of the arguments, run together.
pub open spec fn args_text(args: Seq<Arg>) -> Seq<char>
    decreases args.len(),
{
    if args.len() == 0 {
        Seq::empty()
    } else {
        args_text(args.drop_last()) + arg_text(args.last())
    }
}


/// The world and registries are as they were.
pub open spec fn unchanged(o: World, n: World) -> bool {
    n@ == o@ && n.same_registries(&o)
}

/// The auto and cell that `(item-at auto x y)` or `(set-item auto x y ..)` names.
pub open spec fn cell_args(w: World, args: Seq<Arg>) -> Option<(int, IVec2)> {
    if args.len() >= 4 && num_arg(args[1]).is_some() && 0 <= num_arg(args[1]).unwrap() < w@.len()
        && coord_arg(args[2]).is_some() && coord_arg(args[3]).is_some() {
        Some((num_arg(args[1]).unwrap() as int, IVec2 { x: coord_arg(args[2]).unwrap(), y: coord_arg(args[3]).unwrap() }))
    } else {
        None
    }
}

fn cell_of_args(w: &World, args: &Vec<Arg>) -> (r: Option<(usize, IVec2)>)
    ensures
        match r {
            Some((a, p)) => cell_args(*w, args@) == Some((a as int, p)),
            None => cell_args(*w, args@).is_none(),
        },
{
    if args.len() < 4 {
        return None;
    }
    match (num_of(&args[1]), coord_of(&args[2]), coord_of(&args[3])) {
        (Some(a), Some(x), Some(y)) => if 0 <= a && (a as u128) < (w.autos.len() as u128) {
            Some((a as usize, IVec2::new(x, y)))
        } else {
            None
        },
        _ => None,
    }
}

/// `(item-at auto x y)`: the name of the item in that cell.
pub open spec fn item_at_post(o: World, args: Seq<Arg>, r: Reply) -> bool {
    reply_text(r) == Some(
        match cell_args(o, args) {
            Some((a, p)) => o.kinds.spec_name(item_at(o@[a], p)),
            None => "usage: (item-at auto x y)"@,
        },
    )
}

pub fn msg_item_at(world: &World, args: &Vec<Arg>) -> (r: Reply)
    requires
        world.wf(),
    ensures
        item_at_post(*world, args@, r),
{
    match cell_of_args(world, args) {
        Some((a, p)) => {
            let item = world.get_item(AutoNdx(a), p);
            proof {
                let au = world@[a as int];
                assert(crate::world::auto_ok(au, world.kinds, world@.len()));
                let i = crate::auto::flat_index(au.dim, p);
                if 0 <= i < au.items.len() {
                    assert(world.kinds.valid(au.items[i]));
                }
            }
            Reply::Text(world.kinds.name(item))
        },
        None => Reply::Text(string_of("usage: (item-at auto x y)")),
    }
}

/// `(set-item auto x y kind)`: puts the kind of that name in that cell.
pub open spec fn set_item_post(o: World, n: World, args: Seq<Arg>, r: Reply) -> bool {
    if cell_args(o, args).is_some() && args.len() >= 5 && sym_arg(args[4]).is_some() {
        let (a, p) = cell_args(o, args).unwrap();
        &&& n@ == o@.update(a, with_item(o@[a], p, o.kinds.spec_get(sym_arg(args[4]).unwrap()@)))
        &&& n.same_registries(&o)
        &&& r == Reply::Nil
    } else {
        &&& unchanged(o, n)
        &&& reply_text(r) == Some("usage: (set-item auto x y kind)"@)
    }
}

pub fn msg_set_item(world: &mut World, args: &Vec<Arg>) -> (r: Reply)
    requires
        old(world).wf(),
    ensures
        final(world).wf(),
        set_item_post(*old(world), *final(world), args@, r),
{
    if let Some((a, p)) = cell_of_args(world, args) {
        if args.len() >= 5 {
            if let Some(k) = sym_of(&args[4]) {
                let kind = world.kinds.get(k.as_str());
                world.set_item(AutoNdx(a), p, kind);
                return Reply::Nil;
            }
        }
    }
    Reply::Text(string_of("usage: (set-item auto x y kind)"))
}

/// The step that `(move dir)` asks for.
pub open spec fn move_action(args: Seq<Arg>) -> Option<Action> {
    if args.len() >= 2 && sym_arg(args[1]).is_some() {
        Some(Action::Step(dir_named(sym_arg(args[1]).unwrap()@)))
    } else {
        None
    }
}

/// The walk that `(goto x y)` asks for.
pub open spec fn goto_action(args: Seq<Arg>) -> Option<Action> {
    if args.len() >= 3 && coord_arg(args[1]).is_some() && coord_arg(args[2]).is_some() {
        Some(Action::Goto(IVec2 { x: coord_arg(args[1]).unwrap(), y: coord_arg(args[2]).unwrap() }))
    } else {
        None
    }
}

/// The action that a message issues, if it is an action message: `None`
/// inside for malformed arguments.
pub open spec fn named_action(name: Seq<char>, args: Seq<Arg>) -> Option<Option<Action>> {
    if name == "move"@ {
        Some(move_action(args))
    } else if name == "goto"@ {
        Some(goto_action(args))
    } else if name == "stop"@ {
        Some(Some(Action::Stop))
    } else if name == "pick"@ {
        Some(Some(Action::Pick(Kind(WILDCARD), Kind(WILDCARD))))
    } else if name == "place"@ {
        Some(Some(Action::Place(Kind(WILDCARD))))
    } else if name == "produce"@ {
        Some(Some(Action::Produce))
    } else {
        None
    }
}

/// The usage text of an action message.
pub open spec fn action_usage(name: Seq<char>) -> Seq<char> {
    if name == "move"@ {
        "usage: (move auto dir)"@
    } else {
        "usage: (goto auto x y)"@
    }
}

/// Issuing an action from a script: done once the action has finished.
pub open spec fn issue_post(o: World, n: World, me: AutoNdx, action: Action, r: Reply) -> bool {
    let out = issue_outcome(o@, me, action);
    &&& n@ == out.0
    &&& n.same_registries(&o)
    &&& r == if out.1 { Reply::Nil } else { Reply::Pending }
}

pub fn msg_issue(world: &mut World, me: AutoNdx, action: Action) -> (r: Reply)
    requires
        old(world).wf(),
        old(world).has(me),
        action_ok(action, old(world).kinds, old(world)@.len()),
    ensures
        final(world).wf(),
        issue_post(*old(world), *final(world), me, action, r),
{
    if action_handler(world, me, action) {
        Reply::Nil
    } else {
        Reply::Pending
    }
}

/// The fields of a kind definition record given as script arguments.
pub open spec fn kind_fields_arg(props: Seq<Arg>) -> Seq<FieldView> {
    props.map_values(|p: Arg| kind_field_arg(p))
}

/// `(define-kind name (prop value) ...)`: defines or updates that kind.
pub open spec fn define_kind_post(o: World, n: World, args: Seq<Arg>, r: Reply) -> bool {
    if args.len() >= 2 && sym_arg(args[1]).is_some() {
        &&& define_post(o.kinds@, n.kinds@, sym_arg(args[1]).unwrap()@, kind_fields_arg(args.subrange(2, args.len() as int)))
        &&& n@ == o@
        &&& n.patterns == o.patterns
        &&& n.forces == o.forces
        &&& r == Reply::Nil
    } else {
        &&& unchanged(o, n)
        &&& reply_text(r) == Some("usage: (define-kind name (prop x) (prop y) ...)"@)
    }
}

pub fn msg_define_kind(world: &mut World, args: &Vec<Arg>) -> (r: Reply)
    requires
        old(world).wf(),
    ensures
        final(world).wf(),
        define_kind_post(*old(world), *final(world), args@, r),
{
    if args.len() >= 2 {
        if let Some(name) = sym_of(&args[1]) {
            let mut fields: Vec<KindField> = Vec::new();
            let mut i: usize = 2;
            while i < args.len()
                invariant
                    2 <= i <= args.len(),
                    field_views(fields@) == kind_fields_arg(args@.subrange(2, i as int)),
                decreases args.len() - i,
            {
                let ghost before = fields@;
                let f = kind_field_of(&args[i]);
                fields.push(f);
                assert(field_views(fields@) =~= field_views(before).push(f@));
                assert(kind_fields_arg(args@.subrange(2, i + 1)) =~= kind_fields_arg(args@.subrange(2, i as int)).push(
                    kind_field_arg(args@[i as int]),
                ));
                assert(field_views(fields@) =~= kind_fields_arg(args@.subrange(2, i + 1)));
                i = i + 1;
            }
            let ghost w0 = *world;
            world.kinds.set_by_val(name.as_str(), &fields);
            proof {
                lemma_kinds_grow(w0@, w0.kinds, world.kinds);
                assert forall|i: int, j: int|
                    0 <= i < world.patterns@.len() && 0 <= j < world.patterns@[i].output.len() implies world.kinds.valid(
                    #[trigger] world.patterns@[i].output[j],
                ) by {
                    assert(w0.kinds.valid(w0.patterns@[i].output[j]));
                }
            }
            return Reply::Nil;
        }
    }
    Reply::Text(string_of("usage: (define-kind name (prop x) (prop y) ...)"))
}

/// `(define-pattern (for kind) (in (kinds)) (out (kinds)))`: registers that
/// pattern after the others.
pub open spec fn define_pattern_post(o: World, n: World, args: Seq<Arg>, r: Reply) -> bool {
    if args.len() >= 2 {
        &&& n.patterns@ == o.patterns@.push(pattern_of_args(o.kinds, args.subrange(1, args.len() as int)))
        &&& n@ == o@
        &&& n.kinds == o.kinds
        &&& n.forces == o.forces
        &&& r == Reply::Nil
    } else {
        &&& unchanged(o, n)
        &&& reply_text(r) == Some("usage: (define-pattern (for ...) (in ...) (out ...) ...)"@)
    }
}

pub fn msg_define_pattern(world: &mut World, args: &Vec<Arg>) -> (r: Reply)
    requires
        old(world).wf(),
    ensures
        final(world).wf(),
        define_pattern_post(*old(world), *final(world), args@, r),
{
    if args.len() < 2 {
        return Reply::Text(string_of("usage: (define-pattern (for ...) (in ...) (out ...) ...)"));
    }
    let pattern = pattern_of(&world.kinds, args, 1);
    let ghost w0 = *world;
    world.patterns.add(pattern);
    proof {
        assert forall|i: int, j: int|
            0 <= i < world.patterns@.len() && 0 <= j < world.patterns@[i].output.len() implies world.kinds.valid(
            #[trigger] world.patterns@[i].output[j],
        ) by {
            if i < w0.patterns@.len() {
                assert(world.patterns@[i] == w0.patterns@[i]);
            }
        }
    }
    Reply::Nil
}

/// The fields of an auto creation record given as script arguments.
pub open spec fn auto_fields_arg(props: Seq<Arg>) -> Seq<AutoField> {
    props.map_values(|p: Arg| auto_field_arg(p))
}

/// `(create-auto (prop value) ...)`: creates that auto and gives its handle.
pub open spec fn create_auto_post(o: World, n: World, args: Seq<Arg>, r: Reply) -> bool {
    let new = auto_of_record(o.kinds, o.forces, auto_fields_arg(args.subrange(1, args.len() as int)));
    if args.len() >= 1 && new.parent.0 <= o@.len() {
        &&& n@ == spec_create(o@, o.kinds, new)
        &&& n.same_registries(&o)
        &&& r == Reply::Num(o@.len() as i64)
    } else {
        &&& unchanged(o, n)
        &&& reply_text(r) == Some("usage: (create-auto (name x) ...)"@)
    }
}

pub fn msg_create_auto(world: &mut World, args: &Vec<Arg>) -> (r: Reply)
    requires
        old(world).wf(),
        old(world)@.len() < i64::MAX,
    ensures
        final(world).wf(),
        create_auto_post(*old(world), *final(world), args@, r),
{
    if args.len() < 1 {
        return Reply::Text(string_of("usage: (create-auto (name x) ...)"));
    }
    let mut fields: Vec<AutoField> = Vec::new();
    let mut i: usize = 1;
    while i < args.len()
        invariant
            1 <= i <= args.len(),
            fields@ == auto_fields_arg(args@.subrange(1, i as int)),
        decreases args.len() - i,
    {
        fields.push(auto_field_of(&args[i]));
        assert(fields@ =~= auto_fields_arg(args@.subrange(1, i + 1)));
        i = i + 1;
    }
    assert(args@.subrange(1, args.len() as int) == args@.subrange(1, i as int));
    let ghost o = *world;
    let n0 = world.autos.len();
    assert(n0 == o@.len());
    let r = world.create_auto_from_val(&fields);
    proof {
        let new = auto_of_record(o.kinds, o.forces, auto_fields_arg(args@.subrange(1, args@.len() as int)));
        assert(new == auto_of_record(o.kinds, o.forces, fields@));
    }
    match r {
        Some(ndx) => {
            assert(ndx.0 == n0);
            Reply::Num(ndx.0 as i64)
        },
        None => Reply::Text(string_of("usage: (create-auto (name x) ...)")),
    }
}

/// `(access auto)`: makes that handle the default target of script input.
pub open spec fn access_post(oa: AutoNdx, na: AutoNdx, args: Seq<Arg>, r: Reply) -> bool {
    if args.len() >= 2 && num_arg(args[1]).is_some() && num_arg(args[1]).unwrap() >= 0 {
        na == AutoNdx(num_arg(args[1]).unwrap() as usize) && r == Reply::Nil
    } else {
        na == oa && reply_text(r) == Some("usage: (access auto)"@)
    }
}

pub fn msg_access(access: &mut AutoNdx, args: &Vec<Arg>) -> (r: Reply)
    ensures
        access_post(*old(access), *final(access), args@, r),
{
    if args.len() >= 2 {
        if let Some(a) = num_of(&args[1]) {
            if a >= 0 {
                *access = AutoNdx(a as usize);
                return Reply::Nil;
            }
        }
    }
    Reply::Text(string_of("usage: (access auto)"))
}

/// What `(print arg ...)` prints: the texts of the arguments after the
/// message name, run together.
pub open spec fn print_text(args: Seq<Arg>) -> Seq<char> {
    if args.len() == 0 {
        Seq::empty()
    } else {
        args_text(args.subrange(1, args.len() as int))
    }
}

/// `(print arg ...)`: the texts of the arguments, run together, to print.
pub fn msg_print(args: &Vec<Arg>) -> (r: Reply)
    ensures
        r is Print,
        match r {
            Reply::Print(t) => t@ == print_text(args@),
            _ => false,
        },
{
    let mut t = String::new();
    let mut i: usize = 1;
    if args.len() == 0 {
        return Reply::Print(t);
    }
    assert(args@.subrange(1, 1) =~= Seq::<Arg>::empty());
    while i < args.len()
        invariant
            1 <= i <= args.len(),
            t@ == args_text(args@.subrange(1, i as int)),
        decreases args.len() - i,
    {
        proof {
            assert(args@.subrange(1, i + 1).drop_last() =~= args@.subrange(1, i as int));
            assert(args@.subrange(1, i + 1).last() == args@[i as int]);
        }
        match &args[i] {
            Arg::Sym(s) => append_str(&mut t, s.as_str()),
            Arg::Str(s) => append_str(&mut t, s.as_str()),
            Arg::Num(n) => append_int(&mut t, *n),
            _ => {
                assert(t@ =~= t@ + Seq::<char>::empty());
            },
        }
        i = i + 1;
    }
    Reply::Print(t)
}


/// The name of a message: its first argument, when that is a symbol.
pub open spec fn message_name(args: Seq<Arg>) -> Option<Seq<char>> {
    if args.len() > 0 && sym_arg(args[0]).is_some() {
        Some(sym_arg(args[0]).unwrap()@)
    } else {
        None
    }
}

/// What handling a message from the script of `me` does to the world and
/// to the access handle, and what it replies.
pub open spec fn message_post(o: World, n: World, oa: AutoNdx, na: AutoNdx, me: AutoNdx, args: Seq<Arg>, r: Reply) -> bool {
    match message_name(args) {
        None => unchanged(o, n) && na == oa && r == Reply::Unhandled,
        Some(m) => if m == "item-at"@ {
            item_at_post(o, args, r) && unchanged(o, n) && na == oa
        } else if m == "set-item"@ {
            set_item_post(o, n, args, r) && na == oa
        } else if named_action(m, args).is_some() {
            na == oa && match named_action(m, args).unwrap() {
                Some(a) => issue_post(o, n, me, a, r),
                None => unchanged(o, n) && reply_text(r) == Some(action_usage(m)),
            }
        } else if m == "define-kind"@ {
            define_kind_post(o, n, args, r) && na == oa
        } else if m == "define-pattern"@ {
            define_pattern_post(o, n, args, r) && na == oa
        } else if m == "create-auto"@ {
            create_auto_post(o, n, args, r) && na == oa
        } else if m == "access"@ {
            access_post(oa, na, args, r) && unchanged(o, n)
        } else if m == "print"@ {
            unchanged(o, n) && na == oa && match r {
                Reply::Print(t) => t@ == print_text(args),
                _ => false,
            }
        } else if m == "quit"@ {
            unchanged(o, n) && na == oa && r == Reply::Quit
        } else {
            unchanged(o, n) && na == oa && r == Reply::Unhandled
        },
    }
}

/// Handles one message from the script of `me`: its first argument names
/// the handler, the rest are the handler's arguments.
pub fn handle_message(world: &mut World, access: &mut AutoNdx, me: AutoNdx, args: &Vec<Arg>) -> (r: Reply)
    requires
        old(world).wf(),
        old(world).has(me),
        old(world)@.len() < i64::MAX,
    ensures
        final(world).wf(),
        message_post(*old(world), *final(world), *old(access), *final(access), me, args@, r),
{
    if args.len() == 0 {
        return Reply::Unhandled;
    }
    let name = match sym_of(&args[0]) {
        Some(n) => n,
        None => {
            return Reply::Unhandled;
        },
    };
    let m = name.as_str();
    if str_eq(m, "item-at") {
        return msg_item_at(world, args);
    }
    if str_eq(m, "set-item") {
        return msg_set_item(world, args);
    }
    if str_eq(m, "move") {
        if args.len() >= 2 {
            if let Some(d) = sym_of(&args[1]) {
                return msg_issue(world, me, Action::Step(Dir::from_str(d.as_str())));
            }
        }
        return Reply::Text(string_of("usage: (move auto dir)"));
    }
    if str_eq(m, "goto") {
        if args.len() >= 3 {
            if let (Some(x), Some(y)) = (coord_of(&args[1]), coord_of(&args[2])) {
                return msg_issue(world, me, Action::Goto(IVec2::new(x, y)));
            }
        }
        return Reply::Text(string_of("usage: (goto auto x y)"));
    }
    if str_eq(m, "stop") {
        return msg_issue(world, me, Action::Stop);
    }
    if str_eq(m, "pick") {
        return msg_issue(world, me, Action::Pick(Kind(WILDCARD), Kind(WILDCARD)));
    }
    if str_eq(m, "place") {
        return msg_issue(world, me, Action::Place(Kind(WILDCARD)));
    }
    if str_eq(m, "produce") {
        return msg_issue(world, me, Action::Produce);
    }
    if str_eq(m, "define-kind") {
        return msg_define_kind(world, args);
    }
    if str_eq(m, "define-pattern") {
        return msg_define_pattern(world, args);
    }
    if str_eq(m, "create-auto") {
        return msg_create_auto(world, args);
    }
    if str_eq(m, "access") {
        return msg_access(access, args);
    }
    if str_eq(m, "print") {
        return msg_print(args);
    }
    if str_eq(m, "quit") {
        return Reply::Quit;
    }
    Reply::Unhandled
}

/// The world after an event handler sets the action of `me`.
pub open spec fn event_post(o: World, n: World, me: AutoNdx, action: Option<Action>) -> bool {
    match action {
        Some(a) => n@ == o@.update(me.0 as int, AutoView {
            action: a,
            action_time: TICK,
            flags: o@[me.0 as int].flags & !FINISHED_BIT,
            ..o@[me.0 as int]
        }) && n.same_registries(&o),
        None => unchanged(o, n),
    }
}

/// Input event `(goto x y)`: walk to that cell.
pub fn ev_goto(args: &Vec<Arg>, world: &mut World, ndx: AutoNdx)
    requires
        old(world).wf(),
        old(world).has(ndx),
    ensures
        final(world).wf(),
        event_post(*old(world), *final(world), ndx, goto_action(args@)),
{
    if args.len() >= 3 {
        if let (Some(x), Some(y)) = (coord_of(&args[1]), coord_of(&args[2])) {
            world.set_auto_action(ndx, Action::Goto(IVec2::new(x, y)));
        }
    }
}

/// Input event `(move dir)`: step that way.
pub fn ev_move(args: &Vec<Arg>, world: &mut World, ndx: AutoNdx)
    requires
        old(world).wf(),
        old(world).has(ndx),
    ensures
        final(world).wf(),
        event_post(*old(world), *final(world), ndx, move_action(args@)),
{
    if args.len() >= 2 {
        if let Some(d) = sym_of(&args[1]) {
            world.set_auto_action(ndx, Action::Step(Dir::from_str(d.as_str())));
        }
    }
}

/// Input event `(pick)`: pick up from the ground.
pub fn ev_pick(args: &Vec<Arg>, world: &mut World, ndx: AutoNdx)
    requires
        old(world).wf(),
        old(world).has(ndx),
    ensures
        final(world).wf(),
        event_post(*old(world), *final(world), ndx, Some(Action::Pick(Kind(NOTHING), Kind(NOTHING)))),
{
    world.set_auto_action(ndx, Action::Pick(Kind(NOTHING), Kind(NOTHING)));
}

/// Input event `(place)`: place on the ground.
pub fn ev_place(args: &Vec<Arg>, world: &mut World, ndx: AutoNdx)
    requires
        old(world).wf(),
        old(world).has(ndx),
    ensures
        final(world).wf(),
        event_post(*old(world), *final(world), ndx, Some(Action::Place(Kind(NOTHING)))),
{
    world.set_auto_action(ndx, Action::Place(Kind(NOTHING)));
}


/// What an input event does to the auto that receives it: `goto`, `move`,
/// `pick` and `place` set its action; any other event changes nothing.
pub open spec fn event_action(args: Seq<Arg>) -> Option<Option<Action>> {
    match message_name(args) {
        Some(m) => if m == "goto"@ {
            Some(goto_action(args))
        } else if m == "move"@ {
            Some(move_action(args))
        } else if m == "pick"@ {
            Some(Some(Action::Pick(Kind(NOTHING), Kind(NOTHING))))
        } else if m == "place"@ {
            Some(Some(Action::Place(Kind(NOTHING))))
        } else {
            None
        },
        None => None,
    }
}

/// Routes an input event to its handler; `false` when no handler has its name.
pub fn handle_event(world: &mut World, ndx: AutoNdx, args: &Vec<Arg>) -> (r: bool)
    requires
        old(world).wf(),
        old(world).has(ndx),
    ensures
        final(world).wf(),
        r == event_action(args@).is_some(),
        match event_action(args@) {
            Some(a) => event_post(*old(world), *final(world), ndx, a),
            None => unchanged(*old(world), *final(world)),
        },
{
    if args.len() == 0 {
        return false;
    }
    let name = match sym_of(&args[0]) {
        Some(n) => n,
        None => {
            return false;
        },
    };
    let m = name.as_str();
    if str_eq(m, "goto") {
        ev_goto(args, world, ndx);
        true
    } else if str_eq(m, "move") {
        ev_move(args, world, ndx);
        true
    } else if str_eq(m, "pick") {
        ev_pick(args, world, ndx);
        true
    } else if str_eq(m, "place") {
        ev_place(args, world, ndx);
        true
    } else {
        false
    }
}

} // verus!
verus! {

/// The source text of script values, separated by single spaces: numbers
/// in decimal, symbols as they are, strings in double quotes, lists in
/// parentheses.
pub open spec fn source_of(s: Seq<Arg>) -> Seq<char>
    decreases s,
{
    if s.len() == 0 {
        Seq::empty()
    } else {
        let head = if s.len() == 1 { Seq::empty() } else { source_of(s.drop_last()) + " "@ };
        head + match s.last() {
            Arg::Nil => "()"@,
            Arg::Num(n) => decimal(n as int),
            Arg::Sym(t) => t@,
            Arg::Str(t) => "\""@ + t@ + "\""@,
            Arg::List(l) => "("@ + source_of(l@) + ")"@,
        }
    }
}

/// Appends the source text of the values of `s` from position `from` on
/// to `out`.
pub fn append_items_source(out: &mut String, s: &Vec<Arg>, from: usize)
    requires
        from <= s.len(),
    ensures
        final(out)@ == old(out)@ + source_of(s@.subrange(from as int, s@.len() as int)),
    decreases s@,
{
    let mut i: usize = from;
    assert(source_of(s@.subrange(from as int, from as int)) =~= Seq::<char>::empty()) by {
        assert(s@.subrange(from as int, from as int).len() == 0);
    }
    assert(old(out)@ + source_of(s@.subrange(from as int, from as int)) =~= old(out)@);
    while i < s.len()
        invariant
            from <= i <= s.len(),
            out@ == old(out)@ + source_of(s@.subrange(from as int, i as int)),
        decreases s.len() - i,
    {
        let ghost t = s@.subrange(from as int, i + 1);
        assert(t.drop_last() =~= s@.subrange(from as int, i as int));
        assert(t.last() == s@[i as int]);
        if i > from {
            append_str(out, " ");
        }
        match &s[i] {
            Arg::Nil => append_str(out, "()"),
            Arg::Num(n) => append_int(out, *n),
            Arg::Sym(v) => append_str(out, v.as_str()),
            Arg::Str(v) => {
                append_str(out, "\"");
                append_str(out, v.as_str());
                append_str(out, "\"");
            },
            Arg::List(l) => {
                append_str(out, "(");
                proof {
                    assert(decreases_to!(s@ => s@[i as int]));
                    assert(decreases_to!(s@[i as int] => *l));
                    assert(decreases_to!(*l => l@));
                }
                append_items_source(out, l, 0);
                assert(l@.subrange(0, l@.len() as int) =~= l@);
                append_str(out, ")");
            },
        }
        assert(out@ =~= old(out)@ + source_of(t));
        i = i + 1;
    }
}

} // verus!
