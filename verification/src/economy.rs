//! An economy: tiers of priced materials, each tier name at most once.

use vstd::prelude::*;
use crate::catalog::Catalog;
use crate::error::InvalidInput;

verus! {

/// One tier of the economy: its name and its catalog.
#[derive(Debug)]
pub struct MateriaTier {
    pub name: String,
    pub materia: Catalog,
}

impl View for MateriaTier {
    type V = (Seq<char>, Seq<(Seq<char>, u32)>);

    open spec fn view(&self) -> (Seq<char>, Seq<(Seq<char>, u32)>) {
        (self.name@, self.materia@)
    }
}

/// No two tiers carry the same name.
pub open spec fn distinct_tiers(tiers: Seq<(Seq<char>, Seq<(Seq<char>, u32)>)>) -> bool {
    forall|g: int, h: int|
        0 <= g < h < tiers.len() ==> (#[trigger] tiers[g]).0 != (#[trigger] tiers[h]).0
}

/// Some tier carries `name`.
pub open spec fn has_tier(tiers: Seq<(Seq<char>, Seq<(Seq<char>, u32)>)>, name: Seq<char>) -> bool {
    exists|g: int| 0 <= g < tiers.len() && (#[trigger] tiers[g]).0 == name
}

/// The catalogs of `tiers`, in order.
pub open spec fn catalogs_of(tiers: Seq<(Seq<char>, Seq<(Seq<char>, u32)>)>) -> Seq<
    Seq<(Seq<char>, u32)>,
> {
    Seq::new(tiers.len(), |g: int| tiers[g].1)
}

/// The tiers of an economy, in the order in which they were added.
#[derive(Debug)]
pub struct Materia {
    grades: Vec<MateriaTier>,
}

impl View for Materia {
    type V = Seq<(Seq<char>, Seq<(Seq<char>, u32)>)>;

    closed spec fn view(&self) -> Seq<(Seq<char>, Seq<(Seq<char>, u32)>)> {
        Seq::new(self.grades@.len(), |g: int| self.grades@[g]@)
    }
}

impl Materia {
    #[verifier::type_invariant]
    spec fn tier_names_are_distinct(&self) -> bool {
        distinct_tiers(self@)
    }

    /// An economy without tiers.
    pub fn new() -> (m: Materia)
        ensures
            m@ == Seq::<(Seq<char>, Seq<(Seq<char>, u32)>)>::empty(),
    {
        let m = Materia { grades: Vec::new() };
        assert(m@ =~= Seq::<(Seq<char>, Seq<(Seq<char>, u32)>)>::empty());
        m
    }

    /// The tiers in order.
    pub fn grades(&self) -> (v: &Vec<MateriaTier>)
        ensures
            v@.len() == self@.len(),
            forall|g: int| 0 <= g < v@.len() ==> (#[trigger] v@[g])@ == self@[g],
            distinct_tiers(self@),
    {
        proof {
            use_type_invariant(self);
        }
        &self.grades
    }

    /// The tier called `name`, if there is one.
    pub fn tier(&self, name: &String) -> (r: Option<&MateriaTier>)
        ensures
            match r {
                Some(t) => t.name@ == name@ && exists|g: int|
                    0 <= g < self@.len() && #[trigger] self@[g] == t@,
                None => !has_tier(self@, name@),
            },
    {
        let mut g: usize = 0;
        while g < self.grades.len()
            invariant
                g <= self.grades.len(),
                self@.len() == self.grades@.len(),
                forall|h: int| 0 <= h < g ==> (#[trigger] self@[h]).0 != name@,
            decreases self.grades.len() - g,
        {
            if self.grades[g].name == *name {
                assert(self@[g as int] == self.grades@[g as int]@);
                return Some(&self.grades[g]);
            }
            assert(self@[g as int] == self.grades@[g as int]@);
            g += 1;
        }
        None
    }

    /// Adds a tier behind the others. A tier whose name is taken is turned
    /// down with `DuplicateTier`, and the economy stays as it was.
    pub fn add_tier(&mut self, name: String, materia: Catalog) -> (r: Result<(), InvalidInput>)
        ensures
            has_tier(old(self)@, name@) ==> r == Err::<(), InvalidInput>(
                InvalidInput::DuplicateTier,
            ) && final(self)@ == old(self)@,
            !has_tier(old(self)@, name@) ==> r == Ok::<(), InvalidInput>(()) && final(self)@
                == old(self)@.push((name@, materia@)),
    {
        proof {
            use_type_invariant(&*self);
        }
        if self.tier(&name).is_some() {
            return Err(InvalidInput::DuplicateTier);
        }
        let ghost before = self@;
        let mut taken = Materia::new();
        std::mem::swap(self, &mut taken);
        let Materia { grades: mut grades } = taken;
        let ghost added = (name@, materia@);
        grades.push(MateriaTier { name, materia });
        proof {
            let after = Seq::new(grades@.len(), |g: int| grades@[g]@);
            assert(after =~= before.push(added));
            assert forall|g: int, h: int| 0 <= g < h < after.len() implies (#[trigger] after[g]).0
                != (#[trigger] after[h]).0 by {
                if h < before.len() {
                    assert(before[g].0 != before[h].0);
                } else {
                    assert(before[g].0 != added.0);
                }
            }
        }
        *self = Materia { grades };
        Ok(())
    }
}

} // verus!
