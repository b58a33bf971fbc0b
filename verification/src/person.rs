//! One member of the family: identity, vital status, and relationship
//! pointers (arena indices) to father, mother, sons and daughters.

use crate::names::{house_of, valid_name};
use vstd::pervasive::unreached;
use vstd::prelude::*;

verus! {

#[derive(Debug, Clone, Copy, PartialEq, Eq, Hash, Structural)]
pub enum Sex {
    Male,
    Female,
}

/// Mathematical model of a person: every field as a plain spec value.
pub ghost struct PersonV {
    pub id: usize,
    pub name: Seq<char>,
    pub house: Seq<char>,
    pub sex: Sex,
    pub alive: bool,
    pub father: Option<usize>,
    pub mother: Option<usize>,
    pub sons: Seq<usize>,
    pub daughters: Seq<usize>,
}

/// The model of a freshly created person: alive, no parents, no children,
/// house derived from the name.
pub open spec fn new_person_v(name: Seq<char>, sex: Sex, id: usize) -> PersonV {
    PersonV {
        id,
        name,
        house: house_of(name),
        sex,
        alive: true,
        father: None,
        mother: None,
        sons: Seq::empty(),
        daughters: Seq::empty(),
    }
}

/// A person of the family. Fields are reachable only inside the crate so
/// that every mutation goes through the owning `Lineage`.
pub struct Person {
    id: usize,
    name: String,
    house: String,
    sex: Sex,
    alive: bool,
    father: Option<usize>,
    mother: Option<usize>,
    sons: Vec<usize>,
    daughters: Vec<usize>,
}

impl View for Person {
    type V = PersonV;

    closed spec fn view(&self) -> PersonV {
        PersonV {
            id: self.id,
            name: self.name@,
            house: self.house@,
            sex: self.sex,
            alive: self.alive,
            father: self.father,
            mother: self.mother,
            sons: self.sons@,
            daughters: self.daughters@,
        }
    }
}

pub(crate) fn clone_indices(v: &Vec<usize>) -> (r: Vec<usize>)
    ensures
        r@ == v@,
{
    let mut r: Vec<usize> = Vec::new();
    let mut i: usize = 0;
    while i < v.len()
        invariant
            i <= v@.len(),
            r@ == v@.subrange(0, i as int),
        decreases v@.len() - i,
    {
        r.push(v[i]);
        proof {
            assert(r@ =~= v@.subrange(0, i + 1));
        }
        i += 1;
    }
    proof {
        assert(r@ =~= v@);
    }
    r
}

impl Clone for Person {
    fn clone(&self) -> (r: Self)
        ensures
            r@ == self@,
    {
        Person {
            id: self.id,
            name: self.name.clone(),
            house: self.house.clone(),
            sex: self.sex,
            alive: self.alive,
            father: self.father,
            mother: self.mother,
            sons: clone_indices(&self.sons),
            daughters: clone_indices(&self.daughters),
        }
    }
}

impl Person {
    /// A new person is created only by the owning lineage, which has
    /// already checked that the name carries a house token.
    pub(crate) fn new(name: &str, sex: Sex, id: usize) -> (p: Person)
        requires
            valid_name(name@),
        ensures
            p@ == new_person_v(name@, sex, id),
    {
        let house = match crate::names::parse_house(name) {
            Some(h) => h,
            None => unreached(),
        };
        Person {
            id,
            name: name.to_owned(),
            house,
            sex,
            alive: true,
            father: None,
            mother: None,
            sons: Vec::new(),
            daughters: Vec::new(),
        }
    }

    pub fn id(&self) -> (r: usize)
        ensures
            r == self@.id,
    {
        self.id
    }

    pub fn name(&self) -> (r: &str)
        ensures
            r@ == self@.name,
    {
        self.name.as_str()
    }

    pub fn house(&self) -> (r: &str)
        ensures
            r@ == self@.house,
    {
        self.house.as_str()
    }

    pub fn sex(&self) -> (r: Sex)
        ensures
            r == self@.sex,
    {
        self.sex
    }

    pub fn alive(&self) -> (r: bool)
        ensures
            r == self@.alive,
    {
        self.alive
    }

    /// Killing a person goes through the owning `Lineage`, never directly.
    pub(crate) fn kill(&mut self)
        ensures
            final(self)@ == (PersonV { alive: false, ..old(self)@ }),
    {
        self.alive = false;
    }

    pub fn sons_idx(&self) -> (r: &Vec<usize>)
        ensures
            r@ == self@.sons,
    {
        &self.sons
    }

    pub fn daughters_idx(&self) -> (r: &Vec<usize>)
        ensures
            r@ == self@.daughters,
    {
        &self.daughters
    }

    pub fn father_idx(&self) -> (r: Option<usize>)
        ensures
            r == self@.father,
    {
        self.father
    }

    pub fn mother_idx(&self) -> (r: Option<usize>)
        ensures
            r == self@.mother,
    {
        self.mother
    }

    pub(crate) fn push_son(&mut self, child: usize)
        ensures
            final(self)@ == (PersonV { sons: old(self)@.sons.push(child), ..old(self)@ }),
    {
        self.sons.push(child);
    }

    pub(crate) fn push_daughter(&mut self, child: usize)
        ensures
            final(self)@ == (PersonV { daughters: old(self)@.daughters.push(child), ..old(self)@ }),
    {
        self.daughters.push(child);
    }

    pub(crate) fn set_father(&mut self, parent: usize)
        ensures
            final(self)@ == (PersonV { father: Some(parent), ..old(self)@ }),
    {
        self.father = Some(parent);
    }

    pub(crate) fn set_mother(&mut self, parent: usize)
        ensures
            final(self)@ == (PersonV { mother: Some(parent), ..old(self)@ }),
    {
        self.mother = Some(parent);
    }
}

} // verus!
