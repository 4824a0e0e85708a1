use vstd::prelude::*;

use crate::names::{table_find, table_map, table_take_out, table_unique, lemma_table_push};
use crate::text::string_of;

verus! {

/// Index of the force every auto belongs to unless it is given another.
pub const FORCELESS: usize = 1;

/// A handle to a registered force (a faction).
#[derive(Clone, Copy, Debug, Default, PartialEq, Eq, Hash, Structural)]
pub struct ForceNdx(pub usize);

pub struct Force {
    pub name: String,
}

/// The registry of forces: forces by index, and an index by name.
pub struct Forces {
    pub forces: Vec<Force>,
    pub forces_by_name: Vec<(String, ForceNdx)>,
}

/// A force registry as mathematical values.
pub struct ForcesView {
    pub names: Seq<Seq<char>>,
    pub by_name: Map<Seq<char>, ForceNdx>,
}

impl View for Forces {
    type V = ForcesView;

    open spec fn view(&self) -> ForcesView {
        ForcesView {
            names: self.forces@.map_values(|f: Force| f.name@),
            by_name: table_map(self.forces_by_name@),
        }
    }
}

/// The registry of the two built-in forces.
pub open spec fn blank_forces() -> ForcesView {
    ForcesView {
        names: seq![seq!['n', 'a', 't', 'u', 'r', 'e'], seq!['f', 'o', 'r', 'c', 'e', 'l', 'e', 's', 's']],
        by_name: map![
            seq!['n', 'a', 't', 'u', 'r', 'e'] => ForceNdx(0),
            seq!['f', 'o', 'r', 'c', 'e', 'l', 'e', 's', 's'] => ForceNdx(1)
        ],
    }
}

impl Forces {
    pub open spec fn wf(&self) -> bool {
        table_unique(self.forces_by_name@)
    }

    /// What `get` returns for `name`.
    pub open spec fn spec_get(&self, name: Seq<char>) -> ForceNdx {
        if self@.by_name.contains_key(name) {
            self@.by_name[name]
        } else {
            ForceNdx(FORCELESS)
        }
    }

    /// The registry with the two built-in forces, `nature` (index 0) and
    /// `forceless` (index 1).
    pub fn new_blank() -> (r: Forces)
        ensures
            r.wf(),
            r@ == blank_forces(),
    {
        let mut result = Forces { forces: Vec::new(), forces_by_name: Vec::new() };
        proof {
            reveal_strlit("nature");
            reveal_strlit("forceless");
            assert("nature"@ =~= seq!['n', 'a', 't', 'u', 'r', 'e']);
            assert("forceless"@ =~= seq!['f', 'o', 'r', 'c', 'e', 'l', 'e', 's', 's']);
            assert(result@.by_name =~= map![]);
            assert(result@.names =~= seq![]);
        }
        result.create(Force { name: string_of("nature") });
        result.create(Force { name: string_of("forceless") });
        proof {
            assert(result@.names =~= seq![seq!['n', 'a', 't', 'u', 'r', 'e'], seq!['f', 'o', 'r', 'c', 'e', 'l', 'e', 's', 's']]);
            assert(result@.by_name =~= map![
                seq!['n', 'a', 't', 'u', 'r', 'e'] => ForceNdx(0),
                seq!['f', 'o', 'r', 'c', 'e', 'l', 'e', 's', 's'] => ForceNdx(1)
            ]);
        }
        result
    }

    /// Registers a force under the next index; its name now selects it,
    /// replacing any earlier force of that name in the name index.
    pub fn create(&mut self, force: Force) -> (r: ForceNdx)
        requires
            old(self).wf(),
        ensures
            final(self).wf(),
            r == ForceNdx(old(self).forces.len()),
            final(self)@.names == old(self)@.names.push(force.name@),
            final(self)@.by_name == old(self)@.by_name.insert(force.name@, r),
    {
        let ndx = ForceNdx(self.forces.len());
        table_take_out(&mut self.forces_by_name, force.name.as_str());
        let entry = (force.name.clone(), ndx);
        proof {
            assert(!table_map(self.forces_by_name@).contains_key(entry.0@));
            lemma_table_push(self.forces_by_name@, entry);
        }
        self.forces_by_name.push(entry);
        let ghost names = self@.names;
        self.forces.push(force);
        proof {
            assert(self@.names =~= names.push(force.name@));
            assert(self@.by_name =~= old(self)@.by_name.insert(force.name@, ndx));
        }
        ndx
    }

    /// The force registered under `name`, or the forceless force.
    pub fn get(&self, name: &str) -> (r: ForceNdx)
        requires
            self.wf(),
        ensures
            r == self.spec_get(name@),
    {
        match table_find(&self.forces_by_name, name) {
            Some(i) => self.forces_by_name[i].1,
            None => ForceNdx(FORCELESS),
        }
    }
}

} // verus!
