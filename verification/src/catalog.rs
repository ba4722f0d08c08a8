//! Catalogs: the priced materials of one tier, each name at most once.

use vstd::prelude::*;

verus! {

/// No two entries of `s` carry the same name.
pub open spec fn distinct_names(s: Seq<(Seq<char>, u32)>) -> bool {
    forall|i: int, j: int| 0 <= i < j < s.len() ==> (#[trigger] s[i]).0 != (#[trigger] s[j]).0
}

/// Some entry of `s` carries `name`.
pub open spec fn has_name(s: Seq<(Seq<char>, u32)>, name: Seq<char>) -> bool {
    exists|i: int| 0 <= i < s.len() && (#[trigger] s[i]).0 == name
}

/// Every name of `sel` is listed in `cat`.
pub open spec fn all_known(cat: Seq<(Seq<char>, u32)>, sel: Seq<Seq<char>>) -> bool {
    forall|k: int| 0 <= k < sel.len() ==> has_name(cat, #[trigger] sel[k])
}

/// The position of an entry named `name`; the only one where names are distinct.
pub open spec fn index_of(s: Seq<(Seq<char>, u32)>, name: Seq<char>) -> int {
    choose|i: int| 0 <= i < s.len() && (#[trigger] s[i]).0 == name
}

/// The price listed under `name`.
pub open spec fn price_of(s: Seq<(Seq<char>, u32)>, name: Seq<char>) -> int
    recommends
        has_name(s, name),
{
    s[index_of(s, name)].1 as int
}

/// With distinct names, the position of a name is the position of any entry that carries it.
pub proof fn lemma_index_of_unique(s: Seq<(Seq<char>, u32)>, i: int)
    requires
        distinct_names(s),
        0 <= i < s.len(),
    ensures
        has_name(s, s[i].0),
        index_of(s, s[i].0) == i,
        price_of(s, s[i].0) == s[i].1,
{
    let j = index_of(s, s[i].0);
    assert(0 <= j < s.len() && s[j].0 == s[i].0);
}

/// The priced materials of one tier, in the order in which they were added.
#[derive(Debug)]
pub struct Catalog {
    entries: Vec<(String, u32)>,
}

impl View for Catalog {
    type V = Seq<(Seq<char>, u32)>;

    closed spec fn view(&self) -> Seq<(Seq<char>, u32)> {
        self.entries.deep_view()
    }
}

impl Catalog {
    #[verifier::type_invariant]
    spec fn names_are_distinct(&self) -> bool {
        distinct_names(self.entries.deep_view())
    }

    /// A catalog without entries.
    pub fn new() -> (c: Catalog)
        ensures
            c@ == Seq::<(Seq<char>, u32)>::empty(),
    {
        let c = Catalog { entries: Vec::new() };
        assert(c.entries.deep_view() =~= Seq::<(Seq<char>, u32)>::empty());
        c
    }

    /// A catalog of the given entries.
    pub(crate) fn from_distinct(entries: Vec<(String, u32)>) -> (c: Catalog)
        requires
            distinct_names(entries.deep_view()),
        ensures
            c@ == entries.deep_view(),
    {
        Catalog { entries }
    }

    /// The number of entries.
    pub fn len(&self) -> (n: usize)
        ensures
            n == self@.len(),
    {
        self.entries.len()
    }

    /// The entries in catalog order.
    pub fn entries(&self) -> (v: &Vec<(String, u32)>)
        ensures
            v.deep_view() == self@,
            distinct_names(self@),
    {
        proof {
            use_type_invariant(self);
        }
        &self.entries
    }

    /// Where `name` stands in the catalog, if it is listed.
    pub fn position(&self, name: &String) -> (r: Option<usize>)
        ensures
            match r {
                Some(i) => i < self@.len() && self@[i as int].0 == name@ && i == index_of(
                    self@,
                    name@,
                ),
                None => !has_name(self@, name@),
            },
    {
        proof {
            use_type_invariant(self);
        }
        let mut i: usize = 0;
        while i < self.entries.len()
            invariant
                i <= self.entries.len(),
                forall|j: int| 0 <= j < i ==> (#[trigger] self@[j]).0 != name@,
                self@ == self.entries.deep_view(),
                distinct_names(self@),
            decreases self.entries.len() - i,
        {
            if self.entries[i].0 == *name {
                proof {
                    lemma_index_of_unique(self@, i as int);
                }
                return Some(i);
            }
            i += 1;
        }
        None
    }

    /// The price listed under `name`, if any.
    pub fn get(&self, name: &String) -> (r: Option<u32>)
        ensures
            match r {
                Some(p) => has_name(self@, name@) && p == price_of(self@, name@),
                None => !has_name(self@, name@),
            },
    {
        match self.position(name) {
            Some(i) => Some(self.entries[i].1),
            None => None,
        }
    }

    /// Whether `name` is listed.
    pub fn contains_key(&self, name: &String) -> (b: bool)
        ensures
            b == has_name(self@, name@),
    {
        self.position(name).is_some()
    }

    /// Whether every one of `names` is listed.
    pub fn contains_all(&self, names: &Vec<String>) -> (b: bool)
        ensures
            b == all_known(self@, names.deep_view()),
    {
        let ghost sel = names.deep_view();
        let mut k: usize = 0;
        while k < names.len()
            invariant
                k <= names.len(),
                sel == names.deep_view(),
                forall|j: int| 0 <= j < k ==> has_name(self@, #[trigger] sel[j]),
            decreases names.len() - k,
        {
            if !self.contains_key(&names[k]) {
                assert(!has_name(self@, sel[k as int]));
                return false;
            }
            k += 1;
        }
        true
    }

    /// Lists `name` at `price`. A name that is already listed keeps its place
    /// and takes the new price; the price it had is returned.
    pub fn insert(&mut self, name: String, price: u32) -> (previous: Option<u32>)
        ensures
            match previous {
                Some(p) => has_name(old(self)@, name@) && p == price_of(old(self)@, name@)
                    && final(self)@ == old(self)@.update(
                    index_of(old(self)@, name@),
                    (name@, price),
                ),
                None => !has_name(old(self)@, name@) && final(self)@ == old(self)@.push(
                    (name@, price),
                ),
            },
    {
        proof {
            use_type_invariant(&*self);
        }
        let found = self.position(&name);
        let ghost before = self@;
        let mut taken = Catalog::new();
        std::mem::swap(self, &mut taken);
        let Catalog { entries: mut entries } = taken;
        let previous = match found {
            Some(i) => {
                let previous = entries[i].1;
                entries.set(i, (name, price));
                proof {
                    assert(entries.deep_view() =~= before.update(i as int, (name@, price)));
                }
                Some(previous)
            },
            None => {
                entries.push((name, price));
                proof {
                    assert(entries.deep_view() =~= before.push((name@, price)));
                }
                None
            },
        };
        *self = Catalog { entries };
        previous
    }
}

} // verus!
