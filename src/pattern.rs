use vstd::prelude::*;

use crate::kind::{Kind, Kinds, NOTHING, WILDCARD};
use crate::world::World;
use crate::program::{Arg, pattern_of, pattern_of_args};

verus! {

/// A production rule: an auto of kind `for_kind` holding `input` turns its
/// items into `output`.
#[derive(Debug)]
pub struct Pattern {
    pub for_kind: Kind,
    pub input: Vec<Kind>,
    pub output: Vec<Kind>,
}

/// A pattern as mathematical values.
pub struct PatternView {
    pub for_kind: Kind,
    pub input: Seq<Kind>,
    pub output: Seq<Kind>,
}

impl View for Pattern {
    type V = PatternView;

    open spec fn view(&self) -> PatternView {
        PatternView { for_kind: self.for_kind, input: self.input@, output: self.output@ }
    }
}

/// Whether a pattern's inputs accept a held-item array: same length, and
/// each entry equal to the held item or the wildcard.
pub open spec fn input_fits(input: Seq<Kind>, holding: Seq<Kind>) -> bool {
    &&& input.len() == holding.len()
    &&& forall|i: int| 0 <= i < input.len() ==> (#[trigger] input[i]) == holding[i] || input[i].0 == WILDCARD
}

/// Whether pattern `p` applies to an auto of kind `kind` holding `holding`.
pub open spec fn pattern_fits(p: PatternView, kind: Kind, holding: Seq<Kind>) -> bool {
    p.for_kind == kind && input_fits(p.input, holding)
}

/// The first pattern of `ps` that applies, if any.
pub open spec fn first_fit(ps: Seq<PatternView>, kind: Kind, holding: Seq<Kind>) -> Option<PatternView>
    decreases ps.len(),
{
    if ps.len() == 0 {
        None
    } else if pattern_fits(ps[0], kind, holding) {
        Some(ps[0])
    } else {
        first_fit(ps.drop_first(), kind, holding)
    }
}

/// A copy of a list of kinds.
pub fn copy_kinds(v: &Vec<Kind>) -> (r: Vec<Kind>)
    ensures
        r@ == v@,
{
    let mut r: Vec<Kind> = Vec::new();
    let mut i: usize = 0;
    while i < v.len()
        invariant
            i <= v.len(),
            r@ == v@.take(i as int),
        decreases v.len() - i,
    {
        r.push(v[i]);
        assert(r@ =~= v@.take(i + 1));
        i = i + 1;
    }
    assert(v@.take(v.len() as int) =~= v@);
    r
}

impl Pattern {
    /// A pattern for the wildcard kind with no inputs and no outputs.
    pub fn new() -> (r: Pattern)
        ensures
            r@ == (PatternView { for_kind: Kind(WILDCARD), input: Seq::empty(), output: Seq::empty() }),
    {
        let r = Pattern { for_kind: Kind(WILDCARD), input: Vec::new(), output: Vec::new() };
        assert(r@.input =~= Seq::empty());
        assert(r@.output =~= Seq::empty());
        r
    }

    /// A copy of this pattern.
    pub fn copy(&self) -> (r: Pattern)
        ensures
            r@ == self@,
    {
        Pattern { for_kind: self.for_kind, input: copy_kinds(&self.input), output: copy_kinds(&self.output) }
    }

    /// Reads a pattern definition record: the entries `(for kind)`,
    /// `(in (kinds))` and `(out (kinds))`, in order, each name resolved as
    /// `Kinds::get` does (an entry of a list that is not a name selects the
    /// wildcard); the kind is the wildcard when no `for` entry is given.
    pub fn from_val(val: &Vec<Arg>, world: &World) -> (r: Pattern)
        requires
            world.kinds.wf(),
        ensures
            r@ == pattern_of_args(world.kinds, val@),
            forall|i: int| 0 <= i < r@.output.len() ==> world.kinds.valid(#[trigger] r@.output[i]),
    {
        let r = pattern_of(&world.kinds, val, 0);
        assert(val@.subrange(0, val@.len() as int) =~= val@);
        r
    }
}

/// The registered production rules, in registration order.
#[derive(Debug)]
pub struct Patterns {
    pub patterns: Vec<Pattern>,
}

impl View for Patterns {
    type V = Seq<PatternView>;

    open spec fn view(&self) -> Seq<PatternView> {
        self.patterns@.map_values(|p: Pattern| p@)
    }
}

impl Patterns {
    /// Every kind that a pattern writes is registered in `kinds`.
    pub open spec fn outputs_valid(&self, kinds: Kinds) -> bool {
        forall|i: int, j: int|
            0 <= i < self@.len() && 0 <= j < self@[i].output.len() ==> kinds.valid(#[trigger] self@[i].output[j])
    }

    pub fn new_blank() -> (r: Patterns)
        ensures
            r@.len() == 0,
    {
        Patterns { patterns: Vec::new() }
    }

    /// The two sample machine rules: rock and nothing make a thing, and a
    /// thing and a rock make a widget.
    pub fn new_test(kinds: &Kinds) -> (r: Patterns)
        requires
            kinds.wf(),
        ensures
            r.outputs_valid(*kinds),
            r@.len() == 2,
            r@[0].for_kind == kinds.spec_get("machine"@),
            r@[0].input == seq![kinds.spec_get("rock"@), Kind(NOTHING)],
            r@[0].output == seq![kinds.spec_get("thing"@), Kind(NOTHING)],
            r@[1].for_kind == kinds.spec_get("machine"@),
            r@[1].input == seq![kinds.spec_get("thing"@), kinds.spec_get("rock"@)],
            r@[1].output == seq![kinds.spec_get("widget"@), Kind(NOTHING)],
    {
        let machine = kinds.get("machine");
        let rock = kinds.get("rock");
        let thing = kinds.get("thing");
        let widget = kinds.get("widget");
        let r = Patterns {
            patterns: vec![
                Pattern { for_kind: machine, input: vec![rock, Kind(NOTHING)], output: vec![thing, Kind(NOTHING)] },
                Pattern { for_kind: machine, input: vec![thing, rock], output: vec![widget, Kind(NOTHING)] },
            ],
        };
        proof {
            assert(r@[0].input =~= seq![rock, Kind(NOTHING)]);
            assert(r@[0].output =~= seq![thing, Kind(NOTHING)]);
            assert(r@[1].input =~= seq![thing, rock]);
            assert(r@[1].output =~= seq![widget, Kind(NOTHING)]);
        }
        r
    }

    /// Registers a pattern after all earlier ones.
    pub fn add(&mut self, pattern: Pattern)
        ensures
            final(self)@ == old(self)@.push(pattern@),
    {
        self.patterns.push(pattern);
        assert(self@ =~= old(self)@.push(pattern@));
    }

    /// The first registered pattern for `kind` whose inputs accept `holding`.
    pub fn get(&self, kind: Kind, holding: &Vec<Kind>) -> (r: Option<Pattern>)
        ensures
            match r {
                Some(p) => first_fit(self@, kind, holding@) == Some(p@),
                None => first_fit(self@, kind, holding@).is_none(),
            },
    {
        let mut i: usize = 0;
        assert(self@.subrange(0, self@.len() as int) =~= self@);
        while i < self.patterns.len()
            invariant
                i <= self@.len(),
                self@.len() == self.patterns.len(),
                first_fit(self@, kind, holding@) == first_fit(self@.subrange(i as int, self@.len() as int), kind, holding@),
            decreases self.patterns.len() - i,
        {
            let pattern = &self.patterns[i];
            let ghost rest = self@.subrange(i as int, self@.len() as int);
            assert(rest[0] == pattern@);
            assert(rest.drop_first() =~= self@.subrange(i + 1, self@.len() as int));
            if pattern.for_kind == kind && pattern.input.len() == holding.len() {
                let mut found = true;
                let mut j: usize = 0;
                while j < pattern.input.len()
                    invariant_except_break
                        found,
                    invariant
                        j <= pattern.input.len(),
                        pattern.input.len() == holding.len(),
                        forall|k: int| 0 <= k < j ==> (#[trigger] pattern@.input[k]) == holding@[k] || pattern@.input[k].0 == WILDCARD,
                    ensures
                        found ==> j == pattern.input.len(),
                        found ==> forall|k: int| 0 <= k < j ==> (#[trigger] pattern@.input[k]) == holding@[k] || pattern@.input[k].0 == WILDCARD,
                        !found ==> !input_fits(pattern@.input, holding@),
                    decreases pattern.input.len() - j,
                {
                    let want = pattern.input[j];
                    if want != holding[j] && want.0 != WILDCARD {
                        found = false;
                        assert(!((pattern@.input[j as int]) == holding@[j as int] || pattern@.input[j as int].0 == WILDCARD));
                        break;
                    }
                    j = j + 1;
                }
                if found {
                    return Some(pattern.copy());
                }
            }
            i = i + 1;
        }
        None
    }

    pub fn len(&self) -> (r: usize)
        ensures
            r == self@.len(),
    {
        self.patterns.len()
    }
}

/// Which pattern `get` picks is fixed by the kind, the held items and the
/// pattern table alone: it is the first one, in registration order, that
/// applies; when none applies there is none.
pub proof fn lemma_first_fit_is_first(ps: Seq<PatternView>, kind: Kind, holding: Seq<Kind>)
    ensures
        match first_fit(ps, kind, holding) {
            Some(p) => exists|i: int|
                0 <= i < ps.len() && ps[i] == p && pattern_fits(ps[i], kind, holding)
                    && forall|j: int| 0 <= j < i ==> !pattern_fits(#[trigger] ps[j], kind, holding),
            None => forall|i: int| 0 <= i < ps.len() ==> !pattern_fits(#[trigger] ps[i], kind, holding),
        },
    decreases ps.len(),
{
    if ps.len() > 0 {
        let rest = ps.drop_first();
        lemma_first_fit_is_first(rest, kind, holding);
        if !pattern_fits(ps[0], kind, holding) {
            match first_fit(rest, kind, holding) {
                Some(p) => {
                    let i = choose|i: int|
                        0 <= i < rest.len() && rest[i] == p && pattern_fits(rest[i], kind, holding)
                            && forall|j: int| 0 <= j < i ==> !pattern_fits(#[trigger] rest[j], kind, holding);
                    assert(ps[i + 1] == rest[i]);
                    assert forall|j: int| 0 <= j < i + 1 implies !pattern_fits(#[trigger] ps[j], kind, holding) by {
                        if j > 0 {
                            assert(ps[j] == rest[j - 1]);
                        }
                    }
                },
                None => {
                    assert forall|i: int| 0 <= i < ps.len() implies !pattern_fits(#[trigger] ps[i], kind, holding) by {
                        if i > 0 {
                            assert(ps[i] == rest[i - 1]);
                        }
                    }
                },
            }
        }
    }
}

} // verus!
